use kisekifs::err::StorageError;
use kisekifs::pool::DiskPagePool;

const PAGE: usize = 128 << 10;
const CAP: usize = 300 << 20;

#[test]
fn disk_pool_basic() {
    let mut pool = DiskPagePool::new(PAGE, CAP);
    assert_eq!(pool.capacity_bytes(), CAP);
    assert_eq!(pool.page_bytes(), PAGE);
    assert_eq!(pool.remain_page_cnt(), pool.total_page_cnt());
    let page = pool.try_acquire_page().unwrap();
    assert_eq!(pool.remain_page_cnt(), pool.total_page_cnt() - 1);
    assert!(pool.release_page(page));
    assert_eq!(pool.remain_page_cnt(), pool.total_page_cnt());
}

#[test]
fn get_page_concurrently() {
    let mut pool = DiskPagePool::new(PAGE, CAP);
    let mut image = vec![0u8; CAP];
    let mut pages = vec![];
    for _ in 0..pool.total_page_cnt() {
        let page = pool.try_acquire_page().unwrap();
        page.copy_from_reader(&mut image, 0, b"hello").unwrap();
        let mut test = vec![];
        page.copy_to_writer(&image, 0, 5, &mut test).unwrap();
        assert_eq!(test, b"hello");
        pages.push(page);
    }
    assert!(pool.remain_page_cnt() <= pool.total_page_cnt());
    for page in pages {
        assert!(pool.release_page(page));
    }
    assert_eq!(pool.remain_page_cnt(), pool.total_page_cnt());
}

#[test]
fn pool_exhaustion() {
    let mut pool = DiskPagePool::new(PAGE, CAP);
    assert_eq!(pool.total_page_cnt(), 2400);
    let mut pages = vec![];
    for i in 0..2400u64 {
        let page = pool.try_acquire_page().unwrap();
        assert_eq!(page.page_id(), i);
        assert_eq!(page.cal_offset(), i as usize * PAGE);
        assert_eq!(page.page_size(), PAGE);
        pages.push(page);
    }
    assert_eq!(pool.remain_page_cnt(), 0);
    assert!(pool.try_acquire_page().is_none());
    for page in pages {
        assert!(pool.release_page(page));
    }
    assert_eq!(pool.remain_page_cnt(), 2400);
}

#[test]
fn empty_pool_serves_again_after_a_release() {
    let mut pool = DiskPagePool::new(10, 20);
    let a = pool.try_acquire_page().unwrap();
    let b = pool.try_acquire_page().unwrap();
    assert!(pool.try_acquire_page().is_none());
    let mut image = vec![0u8; 20];
    a.copy_from_reader(&mut image, 0, b"x").unwrap();
    assert!(pool.release_page(a));
    let c = pool.try_acquire_page().unwrap();
    assert_eq!(c.page_id(), 0);
    assert_eq!(b.page_id(), 1);
    assert!(pool.try_acquire_page().is_none());
}

#[test]
fn pool_hands_pages_out_in_order_of_release() {
    let mut pool = DiskPagePool::new(8, 32);
    let first = pool.try_acquire_page().unwrap();
    let second = pool.try_acquire_page().unwrap();
    let third = pool.try_acquire_page().unwrap();
    assert!(pool.release_page(second));
    assert!(pool.release_page(first));
    assert_eq!(pool.remain_page_cnt(), 3);
    assert_eq!(pool.try_acquire_page().unwrap().page_id(), 3);
    assert_eq!(pool.try_acquire_page().unwrap().page_id(), 1);
    assert_eq!(pool.try_acquire_page().unwrap().page_id(), 0);
    assert_eq!(third.page_id(), 2);
}

#[test]
fn pool_refuses_a_page_it_did_not_hand_out() {
    let mut small = DiskPagePool::new(8, 16);
    let mut large = DiskPagePool::new(8, 64);
    let _a = large.try_acquire_page().unwrap();
    let _b = large.try_acquire_page().unwrap();
    let c = large.try_acquire_page().unwrap();
    assert_eq!(c.page_id(), 2);
    assert!(!small.release_page(c));
    assert_eq!(small.remain_page_cnt(), 2);
    let d = large.try_acquire_page().unwrap();
    let mut other = DiskPagePool::new(8, 64);
    assert!(!other.release_page(d));
    assert_eq!(other.remain_page_cnt(), 8);
}

#[test]
fn page_write_out_of_bounds_is_rejected() {
    let mut pool = DiskPagePool::new(16, 64);
    let mut image = vec![0u8; 64];
    let page = pool.try_acquire_page().unwrap();
    assert_eq!(page.copy_from_reader(&mut image, 12, b"hello"), Err(StorageError::Bounds));
    assert_eq!(image, vec![0u8; 64]);
    assert_eq!(page.copy_from_reader(&mut image, 17, b""), Err(StorageError::Bounds));
    assert_eq!(page.copy_from_reader(&mut image, 11, b"hello"), Ok(()));
    assert_eq!(&image[11..16], b"hello");
    let mut short = vec![0u8; 10];
    assert_eq!(page.copy_from_reader(&mut short, 0, b"a"), Err(StorageError::Bounds));
    let mut out = vec![];
    assert_eq!(page.copy_to_writer(&image, 12, 5, &mut out), Err(StorageError::Bounds));
    assert!(out.is_empty());
}

#[test]
fn page_write_lands_in_its_own_region() {
    let mut pool = DiskPagePool::new(16, 64);
    let mut image = vec![0u8; 64];
    let _lowest = pool.try_acquire_page().unwrap();
    let second = pool.try_acquire_page().unwrap();
    second.copy_from_reader(&mut image, 3, b"abc").unwrap();
    let mut want = vec![0u8; 64];
    want[19..22].copy_from_slice(b"abc");
    assert_eq!(image, want);
    let mut out = vec![9u8];
    second.copy_to_writer(&image, 2, 5, &mut out).unwrap();
    assert_eq!(out, vec![9, 0, b'a', b'b', b'c', 0]);
}

#[test]
fn pool_mostly_free() {
    let mut pool = DiskPagePool::new(1, 10);
    assert!(pool.mostly_free());
    let mut held = vec![];
    for _ in 0..2 {
        held.push(pool.try_acquire_page().unwrap());
    }
    assert!(pool.mostly_free());
    held.push(pool.try_acquire_page().unwrap());
    assert!(!pool.mostly_free());
}
