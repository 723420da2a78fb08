use kisekifs::common::{BLOCK_SIZE, CHUNK_SIZE};
use kisekifs::err::StorageError;
use kisekifs::pool::DiskPagePool;
use kisekifs::slice_buffer::{BlockUpload, PageCopy, SliceBuffer};

fn pool(pages: usize) -> DiskPagePool {
    DiskPagePool::new(BLOCK_SIZE, BLOCK_SIZE * pages)
}

#[test]
fn buffer_starts_empty() {
    let buf = SliceBuffer::new();
    assert_eq!(buf.length(), 0);
    assert_eq!(buf.flushed_length(), 0);
    assert!(buf.flush(1).is_empty());
    assert!(buf.flush_bulk_to(CHUNK_SIZE, 1).is_empty());
}

#[test]
fn buffer_write_within_one_block() {
    let mut pool = pool(4);
    let mut buf = SliceBuffer::new();
    let w = buf.write_at(&mut pool, 0, 4096).unwrap();
    assert_eq!(w.written, 4096);
    assert_eq!(
        w.copies,
        vec![PageCopy { block_index: 0, page_id: 0, file_offset: 0, src_offset: 0, len: 4096 }]
    );
    assert_eq!(buf.length(), 4096);
    assert_eq!(buf.flushed_length(), 0);
    assert_eq!(pool.remain_page_cnt(), 3);
    let w = buf.write_at(&mut pool, 4096, 100).unwrap();
    assert_eq!(
        w.copies,
        vec![PageCopy { block_index: 0, page_id: 0, file_offset: 4096, src_offset: 0, len: 100 }]
    );
    assert_eq!(buf.length(), 4196);
    assert_eq!(pool.remain_page_cnt(), 3);
}

#[test]
fn buffer_write_across_blocks() {
    let mut pool = pool(4);
    let mut buf = SliceBuffer::new();
    buf.write_at(&mut pool, 0, BLOCK_SIZE - 10).unwrap();
    let w = buf.write_at(&mut pool, BLOCK_SIZE - 10, 30).unwrap();
    assert_eq!(w.written, 30);
    assert_eq!(
        w.copies,
        vec![
            PageCopy {
                block_index: 0,
                page_id: 0,
                file_offset: BLOCK_SIZE - 10,
                src_offset: 0,
                len: 10
            },
            PageCopy { block_index: 1, page_id: 1, file_offset: BLOCK_SIZE, src_offset: 10, len: 20 },
        ]
    );
    assert_eq!(buf.length(), BLOCK_SIZE + 20);
    assert_eq!(pool.remain_page_cnt(), 2);
}

#[test]
fn buffer_overwrite_keeps_length() {
    let mut pool = pool(2);
    let mut buf = SliceBuffer::new();
    buf.write_at(&mut pool, 0, 1000).unwrap();
    let w = buf.write_at(&mut pool, 100, 200).unwrap();
    assert_eq!(w.written, 200);
    assert_eq!(buf.length(), 1000);
    assert_eq!(pool.remain_page_cnt(), 1);
}

#[test]
fn buffer_refuses_write_behind_its_end() {
    let mut pool = pool(2);
    let mut buf = SliceBuffer::new();
    assert_eq!(buf.write_at(&mut pool, 1, 10).err(), Some(StorageError::Bounds));
    buf.write_at(&mut pool, 0, 10).unwrap();
    assert_eq!(buf.write_at(&mut pool, 11, 10).err(), Some(StorageError::Bounds));
    assert_eq!(buf.length(), 10);
    assert_eq!(pool.remain_page_cnt(), 1);
}

#[test]
fn buffer_refuses_pages_smaller_than_a_block() {
    let mut pool = DiskPagePool::new(128 << 10, 300 << 20);
    let mut buf = SliceBuffer::new();
    assert_eq!(buf.write_at(&mut pool, 0, 10).err(), Some(StorageError::Bounds));
    assert_eq!(buf.length(), 0);
    assert_eq!(pool.remain_page_cnt(), 2400);
}

#[test]
fn buffer_write_is_cut_at_chunk_end() {
    let mut pool = pool(20);
    let mut buf = SliceBuffer::new();
    let w = buf.write_at(&mut pool, 0, CHUNK_SIZE + 5).unwrap();
    assert_eq!(w.written, CHUNK_SIZE);
    assert_eq!(w.copies.len(), 16);
    assert_eq!(buf.length(), CHUNK_SIZE);
    assert_eq!(pool.remain_page_cnt(), 4);
    let w = buf.write_at(&mut pool, CHUNK_SIZE, 5).unwrap();
    assert_eq!(w.written, 0);
    assert!(w.copies.is_empty());
    assert_eq!(buf.length(), CHUNK_SIZE);
}

#[test]
fn buffer_write_is_cut_when_pool_runs_dry() {
    let mut pool = pool(2);
    let mut buf = SliceBuffer::new();
    let w = buf.write_at(&mut pool, 0, 3 * BLOCK_SIZE).unwrap();
    assert_eq!(w.written, 2 * BLOCK_SIZE);
    assert_eq!(w.copies.len(), 2);
    assert_eq!(buf.length(), 2 * BLOCK_SIZE);
    assert_eq!(pool.remain_page_cnt(), 0);
    let w = buf.write_at(&mut pool, 2 * BLOCK_SIZE, 10).unwrap();
    assert_eq!(w.written, 0);
    let w = buf.write_at(&mut pool, BLOCK_SIZE, 10).unwrap();
    assert_eq!(w.written, 10);
}

#[test]
fn buffer_bulk_flush_takes_complete_blocks_only() {
    let mut pool = pool(4);
    let mut buf = SliceBuffer::new();
    buf.write_at(&mut pool, 0, 2 * BLOCK_SIZE + 100).unwrap();
    assert_eq!(pool.remain_page_cnt(), 1);
    let plan = buf.flush_bulk_to(2 * BLOCK_SIZE + 100, 9);
    assert_eq!(
        plan,
        vec![
            BlockUpload { slice_id: 9, block_index: 0, size: BLOCK_SIZE, page_id: 0, file_offset: 0 },
            BlockUpload {
                slice_id: 9,
                block_index: 1,
                size: BLOCK_SIZE,
                page_id: 1,
                file_offset: BLOCK_SIZE
            },
        ]
    );
    assert_eq!(buf.flush_bulk_to(BLOCK_SIZE, 9).len(), 1);
    assert_eq!(buf.flush_bulk_to(BLOCK_SIZE - 1, 9).len(), 0);
    assert_eq!(buf.flushed_length(), 0);
    assert!(buf.complete_upload(&mut pool, 0, BLOCK_SIZE));
    assert_eq!(buf.flushed_length(), BLOCK_SIZE);
    assert_eq!(pool.remain_page_cnt(), 2);
    assert!(buf.complete_upload(&mut pool, 1, BLOCK_SIZE));
    assert_eq!(buf.flushed_length(), 2 * BLOCK_SIZE);
    assert_eq!(pool.remain_page_cnt(), 3);
    assert!(buf.flush_bulk_to(CHUNK_SIZE, 9).is_empty());
    assert_eq!(buf.length(), 2 * BLOCK_SIZE + 100);
}

#[test]
fn buffer_full_flush_takes_the_short_block_too() {
    let mut pool = pool(4);
    let mut buf = SliceBuffer::new();
    buf.write_at(&mut pool, 0, BLOCK_SIZE + 100).unwrap();
    let plan = buf.flush(3);
    assert_eq!(
        plan,
        vec![
            BlockUpload { slice_id: 3, block_index: 0, size: BLOCK_SIZE, page_id: 0, file_offset: 0 },
            BlockUpload { slice_id: 3, block_index: 1, size: 100, page_id: 1, file_offset: BLOCK_SIZE },
        ]
    );
    for u in &plan {
        assert!(buf.complete_upload(&mut pool, u.block_index, u.size));
    }
    assert_eq!(buf.flushed_length(), BLOCK_SIZE + 100);
    assert_eq!(buf.flushed_length(), buf.length());
    assert_eq!(pool.remain_page_cnt(), 4);
}

#[test]
fn buffer_flush_twice_uploads_once() {
    let mut pool = pool(4);
    let mut buf = SliceBuffer::new();
    buf.write_at(&mut pool, 0, 3 * BLOCK_SIZE - 1).unwrap();
    let plan = buf.flush(3);
    assert_eq!(plan.len(), 3);
    for u in &plan {
        assert!(buf.complete_upload(&mut pool, u.block_index, u.size));
    }
    assert!(buf.flush(3).is_empty());
    assert!(buf.flush_bulk_to(CHUNK_SIZE, 3).is_empty());
    for u in &plan {
        assert!(!buf.complete_upload(&mut pool, u.block_index, u.size));
    }
    assert_eq!(pool.remain_page_cnt(), 4);
}

#[test]
fn buffer_uploads_count_in_order_only() {
    let mut pool = pool(4);
    let mut buf = SliceBuffer::new();
    buf.write_at(&mut pool, 0, 2 * BLOCK_SIZE).unwrap();
    assert!(!buf.complete_upload(&mut pool, 1, BLOCK_SIZE));
    assert!(!buf.complete_upload(&mut pool, 0, BLOCK_SIZE - 1));
    assert!(!buf.complete_upload(&mut pool, 2, BLOCK_SIZE));
    assert_eq!(buf.flushed_length(), 0);
    assert_eq!(pool.remain_page_cnt(), 2);
    assert!(buf.complete_upload(&mut pool, 0, BLOCK_SIZE));
    assert!(buf.complete_upload(&mut pool, 1, BLOCK_SIZE));
    assert_eq!(buf.flushed_length(), 2 * BLOCK_SIZE);
}

#[test]
fn buffer_lengths_stay_in_order() {
    let mut pool = pool(8);
    let mut buf = SliceBuffer::new();
    let mut last_flushed = 0;
    let mut off = 0;
    for step in 0..40 {
        let w = buf.write_at(&mut pool, off, 700_000).unwrap();
        off += w.written;
        if step % 7 == 6 {
            for u in buf.flush_bulk_to(off, 1) {
                assert!(buf.complete_upload(&mut pool, u.block_index, u.size));
            }
        }
        assert!(buf.flushed_length() >= last_flushed);
        assert!(buf.flushed_length() <= buf.length());
        assert!(buf.length() <= CHUNK_SIZE);
        last_flushed = buf.flushed_length();
    }
    assert_eq!(buf.length(), 28_000_000);
    assert_eq!(buf.flushed_length(), 5 * BLOCK_SIZE);
}

#[test]
fn buffer_refuses_write_into_uploaded_block() {
    let mut pool = pool(4);
    let mut buf = SliceBuffer::new();
    buf.write_at(&mut pool, 0, BLOCK_SIZE + 10).unwrap();
    assert!(buf.complete_upload(&mut pool, 0, BLOCK_SIZE));
    assert_eq!(buf.write_at(&mut pool, 10, 5).err(), Some(StorageError::Bounds));
    assert_eq!(buf.write_at(&mut pool, BLOCK_SIZE + 10, 5).unwrap().written, 5);
    assert!(buf.complete_upload(&mut pool, 1, 15));
    assert_eq!(buf.flushed_length(), BLOCK_SIZE + 15);
    assert_eq!(buf.write_at(&mut pool, BLOCK_SIZE + 15, 5).err(), Some(StorageError::Bounds));
}

#[test]
fn buffer_discard_returns_pages() {
    let mut pool = pool(4);
    let mut buf = SliceBuffer::new();
    buf.write_at(&mut pool, 0, 3 * BLOCK_SIZE).unwrap();
    assert_eq!(pool.remain_page_cnt(), 1);
    buf.discard(&mut pool);
    assert_eq!(pool.remain_page_cnt(), 4);
}

#[test]
fn written_bytes_are_the_bytes_uploaded() {
    let mut pool = pool(3);
    let mut image = vec![0u8; 3 * BLOCK_SIZE];
    let mut buf = SliceBuffer::new();
    let first: Vec<u8> = (0..BLOCK_SIZE - 3).map(|i| (i % 251) as u8).collect();
    let second: Vec<u8> = b"hello world".to_vec();
    let mut off = 0;
    for data in [&first, &second] {
        let w = buf.write_at(&mut pool, off, data.len()).unwrap();
        assert_eq!(w.written, data.len());
        for c in &w.copies {
            c.apply(&mut image, data).unwrap();
        }
        off += w.written;
    }
    let mut all = first.clone();
    all.extend_from_slice(&second);
    let plan = buf.flush(5);
    assert_eq!(plan.len(), 2);
    let mut got = vec![];
    for u in &plan {
        got.extend(u.read(&image).unwrap());
    }
    assert_eq!(got, all);
    assert_eq!(plan[1].size, 8);
}

#[test]
fn copy_out_of_bounds_is_rejected() {
    let mut image = vec![0u8; 16];
    let c = PageCopy { block_index: 0, page_id: 0, file_offset: 10, src_offset: 0, len: 7 };
    assert_eq!(c.apply(&mut image, b"1234567"), Err(StorageError::Bounds));
    let c = PageCopy { block_index: 0, page_id: 0, file_offset: 10, src_offset: 3, len: 5 };
    assert_eq!(c.apply(&mut image, b"1234567"), Err(StorageError::Bounds));
    assert_eq!(image, vec![0u8; 16]);
    let c = PageCopy { block_index: 0, page_id: 0, file_offset: 10, src_offset: 3, len: 4 };
    assert_eq!(c.apply(&mut image, b"1234567"), Ok(()));
    assert_eq!(&image[10..14], b"4567");
    let u = BlockUpload { slice_id: 1, block_index: 0, size: 7, page_id: 0, file_offset: 10 };
    assert_eq!(u.read(&image), Err(StorageError::Bounds));
    let u = BlockUpload { slice_id: 1, block_index: 0, size: 6, page_id: 0, file_offset: 10 };
    assert_eq!(u.read(&image), Ok(vec![b'4', b'5', b'6', b'7', 0, 0]));
}
