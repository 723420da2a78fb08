use kisekifs::common::{BLOCK_SIZE, CHUNK_SIZE};
use kisekifs::pool::DiskPagePool;
use kisekifs::slice_writer::{FlushReq, SliceHandle, SliceWriter};

fn pool(pages: usize) -> DiskPagePool {
    DiskPagePool::new(BLOCK_SIZE, BLOCK_SIZE * pages)
}

#[test]
fn slice_writer_starts_writable() {
    let sw = SliceWriter::new(7, 2, 100);
    assert_eq!(sw.internal_seq(), 7);
    assert_eq!(sw.get_handle(), SliceHandle { chunk_idx: 2, seq: 7 });
    assert_eq!(sw.get_offset_of_chunk(), 100);
    assert_eq!(sw.get_slice_id(), None);
    assert!(!sw.has_frozen());
    assert!(!sw.has_done());
    assert!(sw.can_write());
    assert_eq!(sw.get_flushed_length_and_total_write_length(), (0, 0));
}

#[test]
fn slice_writer_life_runs_one_way() {
    let mut sw = SliceWriter::new(1, 0, 0);
    assert!(sw.freeze());
    assert!(sw.has_frozen());
    assert!(!sw.can_write());
    assert!(!sw.freeze());
    assert!(sw.has_frozen());
    sw.mark_done();
    assert!(sw.has_done());
    assert!(sw.has_frozen());
    assert!(!sw.can_flush());
}

#[test]
fn slice_writer_can_flush_freezes_once() {
    let mut sw = SliceWriter::new(1, 0, 0);
    assert!(sw.can_flush());
    assert!(sw.has_frozen());
    assert!(!sw.can_flush());
    let mut done = SliceWriter::new(2, 0, 0);
    done.mark_done();
    assert!(!done.can_flush());
    assert!(!done.has_frozen());
}

#[test]
fn frozen_slice_writer_takes_nothing() {
    let mut pool = pool(2);
    let mut sw = SliceWriter::new(1, 0, 0);
    assert_eq!(sw.write_at(&mut pool, 0, 10).unwrap().written, 10);
    assert!(sw.can_take(10));
    assert!(sw.can_take(3));
    assert!(!sw.can_take(11));
    sw.freeze();
    assert!(!sw.can_take(10));
    let w = sw.write_at(&mut pool, 10, 10).unwrap();
    assert_eq!(w.written, 0);
    assert!(w.copies.is_empty());
    assert_eq!(sw.get_flushed_length_and_total_write_length(), (0, 10));
}

#[test]
fn slice_writer_write_is_cut_at_chunk_end() {
    let mut pool = pool(2);
    let mut sw = SliceWriter::new(1, 0, CHUNK_SIZE - 10);
    let w = sw.write_at(&mut pool, 0, 25).unwrap();
    assert_eq!(w.written, 10);
    assert_eq!(sw.get_flushed_length_and_total_write_length(), (0, 10));
    assert!(!sw.can_take(CHUNK_SIZE - 11));
    assert!(sw.can_take(CHUNK_SIZE - 10));
}

#[test]
fn slice_id_is_assigned_once() {
    let mut sw = SliceWriter::new(1, 0, 0);
    assert!(sw.flush().is_none());
    assert!(sw.flush_bulk(BLOCK_SIZE).is_none());
    sw.prepare_slice_id(41);
    assert_eq!(sw.get_slice_id(), Some(41));
    sw.prepare_slice_id(42);
    assert_eq!(sw.get_slice_id(), Some(41));
    assert_eq!(sw.flush(), Some(vec![]));
}

#[test]
fn background_flush_request_after_more_than_a_block() {
    let mut pool = pool(4);
    let mut sw = SliceWriter::new(5, 3, 0);
    sw.write_at(&mut pool, 0, BLOCK_SIZE).unwrap();
    assert!(sw.make_background_flush_req().is_none());
    sw.write_at(&mut pool, BLOCK_SIZE, 1).unwrap();
    match sw.make_background_flush_req() {
        Some(FlushReq::FlushBulk { sw: h, offset }) => {
            assert_eq!(h, SliceHandle { chunk_idx: 3, seq: 5 });
            assert_eq!(offset, BLOCK_SIZE + 1);
        }
        other => panic!("unexpected request {:?}", other),
    }
    assert!(!sw.has_frozen());
    sw.prepare_slice_id(77);
    let plan = sw.flush_bulk(BLOCK_SIZE + 1).unwrap();
    assert_eq!(plan.len(), 1);
    assert_eq!(plan[0].slice_id, 77);
    assert!(sw.complete_upload(&mut pool, 0, BLOCK_SIZE));
    assert!(sw.make_background_flush_req().is_none());
    assert_eq!(sw.get_flushed_length_and_total_write_length(), (BLOCK_SIZE, BLOCK_SIZE + 1));
}

#[test]
fn background_flush_request_when_chunk_is_full() {
    let mut pool = pool(16);
    let mut sw = SliceWriter::new(5, 0, 0);
    assert_eq!(sw.write_at(&mut pool, 0, CHUNK_SIZE).unwrap().written, CHUNK_SIZE);
    match sw.make_background_flush_req() {
        Some(FlushReq::FlushFull(h)) => assert_eq!(h, SliceHandle { chunk_idx: 0, seq: 5 }),
        other => panic!("unexpected request {:?}", other),
    }
    assert!(sw.has_frozen());
    assert!(sw.make_background_flush_req().is_none());
}

#[test]
fn full_flush_in_advance_freezes() {
    let mut sw = SliceWriter::new(9, 1, 0);
    match sw.make_full_flush_in_advance() {
        Some(FlushReq::FlushFull(h)) => assert_eq!(h, SliceHandle { chunk_idx: 1, seq: 9 }),
        other => panic!("unexpected request {:?}", other),
    }
    assert!(sw.has_frozen());
    assert!(sw.make_full_flush_in_advance().is_none());
}

#[test]
fn slice_writers_are_equal_by_sequence_number() {
    let a = SliceWriter::new(1, 0, 0);
    let mut b = SliceWriter::new(1, 5, 77);
    b.freeze();
    let c = SliceWriter::new(2, 0, 0);
    assert!(a == b);
    assert!(a != c);
}

#[test]
fn slice_writer_discard_returns_pages() {
    let mut pool = pool(4);
    let mut sw = SliceWriter::new(1, 0, 0);
    sw.write_at(&mut pool, 0, 2 * BLOCK_SIZE).unwrap();
    assert_eq!(pool.remain_page_cnt(), 2);
    sw.discard(&mut pool);
    assert_eq!(pool.remain_page_cnt(), 4);
}
