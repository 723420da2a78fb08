use kisekifs::slice::{make_slice_object_key, EMPTY_SLICE_ID};

#[test]
fn object_key_of_small_ids() {
    assert_eq!(make_slice_object_key(1, 0, 4194304), "chunks/0/0/1_0_4194304");
    assert_eq!(make_slice_object_key(0, 0, 0), "chunks/0/0/0_0_0");
}

#[test]
fn object_key_of_large_ids() {
    assert_eq!(make_slice_object_key(1234567890, 15, 512), "chunks/1234/1234567/1234567890_15_512");
    assert_eq!(
        make_slice_object_key(u64::MAX, 9, 10),
        "chunks/18446744073709/18446744073709551/18446744073709551615_9_10"
    );
}

#[test]
fn object_keys_differ_with_any_part() {
    let a = make_slice_object_key(7, 1, 4194304);
    assert_ne!(a, make_slice_object_key(8, 1, 4194304));
    assert_ne!(a, make_slice_object_key(7, 2, 4194304));
    assert_ne!(a, make_slice_object_key(7, 1, 4194303));
    assert_eq!(a, make_slice_object_key(7, 1, 4194304));
    assert_eq!(EMPTY_SLICE_ID, 0);
}
