use kisekifs::pattern::{WriterPattern, PATTERN_LIMIT};

#[test]
fn pattern_starts_sequential() {
    let p = WriterPattern::new();
    assert_eq!(p.count(), 0);
    assert!(p.is_seq());
}

#[test]
fn pattern_counts_sequential_writes_up_to_limit() {
    let mut p = WriterPattern::new();
    let mut off = 0usize;
    for i in 0..20 {
        p.monitor_write_at(off, 4096);
        off += 4096;
        let want = if i + 1 < 5 { i + 1 } else { 5 };
        assert_eq!(p.count(), want as isize);
    }
    assert_eq!(p.count(), PATTERN_LIMIT);
    assert!(p.is_seq());
}

#[test]
fn pattern_counts_random_writes_down_to_limit() {
    let mut p = WriterPattern::new();
    for i in 0..20usize {
        p.monitor_write_at(1 + i * 1_000_000, 10);
        let want = if i + 1 < 5 { -((i + 1) as isize) } else { -5 };
        assert_eq!(p.count(), want);
    }
    assert_eq!(p.count(), -PATTERN_LIMIT);
    assert!(!p.is_seq());
}

#[test]
fn pattern_stays_within_limits_on_mixed_writes() {
    let mut p = WriterPattern::new();
    let mut last_stop = 0usize;
    let mut x: u64 = 12345;
    for _ in 0..1000 {
        x = x.wrapping_mul(6364136223846793005).wrapping_add(1442695040888963407);
        let sequential = (x >> 33) % 3 != 0;
        let off = if sequential { last_stop } else { last_stop + 7 };
        p.monitor_write_at(off, 100);
        last_stop = off + 100;
        assert!(p.count() >= -5 && p.count() <= 5);
    }
}

#[test]
fn pattern_first_write_at_zero_is_sequential() {
    let mut p = WriterPattern::new();
    p.monitor_write_at(0, 10);
    assert_eq!(p.count(), 1);
    p.monitor_write_at(5, 10);
    assert_eq!(p.count(), 0);
    p.monitor_write_at(15, 1);
    assert_eq!(p.count(), 1);
}
