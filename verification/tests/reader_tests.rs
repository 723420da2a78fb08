use kisekifs::err::VFSError;
use kisekifs::ranges::{coalesce, make_range, uncovered};
use kisekifs::reader::{FileReader, LAST_BLOCK_SIZE};
use kisekifs::slice_reader::{cleanup_transition, CleanupAction, SliceReader, SliceReaderState};
use sonyflake::Sonyflake;

const BLOCK: usize = 4 << 20;
const CHUNK: usize = 64 << 20;

fn generator() -> Sonyflake {
    Sonyflake::builder().machine_id(&|| Ok(3)).finalize().unwrap()
}

fn reader(len: usize) -> FileReader {
    FileReader::new(1, 1, len, BLOCK, CHUNK, generator())
}

#[test]
fn range_set() {
    let mut rs = rangemap::RangeSet::new();
    rs.insert(0..2);
    rs.insert(1..2);
    let ranges: Vec<_> = rs.into_iter().collect();
    assert_eq!(ranges, vec![0..2]);
    assert_eq!(coalesce(&vec![0..2, 1..2]), vec![0..2]);
}

#[test]
fn split_ranges_basic() {
    struct Case {
        fr_len: usize,
        read_req: (usize, usize),
        want: Vec<std::ops::Range<usize>>,
    }
    for c in vec![
        Case { fr_len: 1024, read_req: (0, 512), want: vec![0..512] },
        Case { fr_len: 4096, read_req: (2048, 2048 + 4096), want: vec![2048..4096] },
    ] {
        let fr = reader(c.fr_len);
        let rs = fr.split_ranges(make_range(c.read_req.0, c.read_req.1, c.fr_len));
        assert_eq!(rs, c.want);
    }
}

#[test]
fn make_range_clamps_to_file_end() {
    assert_eq!(make_range(0, 10, 100), 0..10);
    assert_eq!(make_range(95, 10, 100), 95..100);
    assert_eq!(make_range(90, 10, 100), 90..100);
    assert_eq!(make_range(0, 0, 100), 0..0);
    assert_eq!(make_range(10, usize::MAX, 100), 10..100);
}

#[test]
fn coalesce_joins_touching_and_overlapping_ranges() {
    assert_eq!(coalesce(&vec![5..7, 0..2, 2..4, 6..10, 20..21]), vec![0..4, 5..10, 20..21]);
    assert_eq!(coalesce(&vec![]), vec![]);
}

#[test]
fn coalesce_is_idempotent() {
    let once = coalesce(&vec![8..9, 1..3, 2..5, 9..12, 30..40, 35..36]);
    assert_eq!(once, vec![1..5, 8..12, 30..40]);
    assert_eq!(coalesce(&once), once);
}

#[test]
fn uncovered_lists_the_gaps() {
    assert_eq!(uncovered(&vec![2..4, 6..8], &(0..10)), vec![0..2, 4..6, 8..10]);
    assert_eq!(uncovered(&vec![0..10], &(3..7)), vec![]);
    assert_eq!(uncovered(&vec![], &(3..7)), vec![3..7]);
    assert_eq!(uncovered(&vec![0..4, 4..5], &(3..7)), vec![5..7]);
}

#[test]
fn slice_reader_states() {
    for (n, s, valid) in [
        (0u8, SliceReaderState::New, true),
        (1, SliceReaderState::Busy, true),
        (2, SliceReaderState::Refresh, true),
        (3, SliceReaderState::Break, false),
        (4, SliceReaderState::Ready, true),
        (5, SliceReaderState::Invalid, false),
    ] {
        assert_eq!(SliceReaderState::from(n), s);
        assert_eq!(s.to_u8(), n);
        assert_eq!(s.valid(), valid);
    }
    assert_eq!(SliceReaderState::from(6), SliceReaderState::Invalid);
    assert_eq!(SliceReaderState::from(255), SliceReaderState::Invalid);
}

#[test]
fn cleanup_transitions() {
    type S = SliceReaderState;
    type A = CleanupAction;
    for (state, closing, next, action) in [
        (S::New, false, S::New, A::Retry),
        (S::Busy, false, S::New, A::Retry),
        (S::Refresh, false, S::New, A::Retry),
        (S::Break, false, S::Invalid, A::Delete),
        (S::Ready, false, S::Ready, A::Keep),
        (S::Invalid, false, S::Invalid, A::Delete),
        (S::New, true, S::Invalid, A::Delete),
        (S::Busy, true, S::New, A::Retry),
        (S::Refresh, true, S::New, A::Retry),
        (S::Break, true, S::Invalid, A::Delete),
        (S::Ready, true, S::Invalid, A::Delete),
        (S::Invalid, true, S::Invalid, A::Delete),
    ] {
        assert_eq!(cleanup_transition(state, closing), (next, action));
    }
}

#[test]
fn slice_reader_fetch_life() {
    let mut sr = SliceReader::new(9, 0, 10, 20, 77);
    assert_eq!(sr.internal_seq_id(), 9);
    assert_eq!((sr.start(), sr.end()), (10, 20));
    assert!(sr.valid());
    assert!(sr.covers(&(12..20)));
    assert!(!sr.covers(&(12..21)));
    assert!(!sr.covers(&(9..12)));
    let mut out = vec![];
    assert!(!sr.copy_out(0, 1, &mut out));
    assert!(!sr.complete_fetch(vec![0; 10]));
    assert!(sr.begin_fetch(false));
    assert_eq!(sr.get_state(), SliceReaderState::Busy);
    assert!(!sr.begin_fetch(false));
    assert!(!sr.complete_fetch(vec![0; 9]));
    assert_eq!(sr.get_state(), SliceReaderState::Busy);
    assert!(sr.complete_fetch(b"0123456789".to_vec()));
    assert_eq!(sr.get_state(), SliceReaderState::Ready);
    assert!(sr.copy_out(2, 5, &mut out));
    assert_eq!(out, b"234");
    assert!(!sr.copy_out(5, 11, &mut out));
    assert_eq!(out, b"234");
    assert_eq!(sr.cleanup(false), CleanupAction::Keep);
    assert_eq!(sr.cleanup(true), CleanupAction::Delete);
    assert!(!sr.valid());
}

#[test]
fn slice_reader_does_not_fetch_for_a_closing_reader() {
    let mut sr = SliceReader::new(9, 0, 10, 20, 77);
    assert!(!sr.begin_fetch(true));
    assert_eq!(sr.get_state(), SliceReaderState::New);
}

#[test]
fn read_behind_the_end_asks_for_nothing() {
    let mut fr = reader(1000);
    for (off, n) in [(1000usize, 10usize), (5000, 10), (10, 0), (1000, 0)] {
        let plan = fr.read(off, n, 1).unwrap();
        assert!(plan.reqs.is_empty());
        assert!(plan.read_ahead.is_none());
        assert!(!plan.starved);
        assert_eq!(plan.block, off..off);
    }
    assert_eq!(fr.slice_reader_cnt(), 0);
    assert_eq!(fr.get_read_buffer_usage(), 0);
}

#[test]
fn closing_reader_refuses_reads() {
    let mut fr = FileReader::new(42, 7, 1000, BLOCK, CHUNK, generator());
    assert!(!fr.is_closing());
    fr.close();
    assert!(fr.is_closing());
    assert_eq!(
        fr.read(0, 10, 1).err(),
        Some(VFSError::ThisFileReaderIsClosing { ino: 42, fh: 7 })
    );
    assert_eq!(fr.slice_reader_cnt(), 0);
}

#[test]
fn read_makes_slice_readers_cut_at_block_boundaries() {
    let len = 3 * BLOCK;
    let mut fr = reader(len);
    let plan = fr.read(BLOCK - 10, BLOCK + 20, 5).unwrap();
    assert_eq!(plan.block, BLOCK - 10..2 * BLOCK + 10);
    assert!(plan.read_ahead.is_none());
    assert!(!plan.starved);
    assert_eq!(plan.reqs.len(), 3);
    assert_eq!(
        plan.reqs.iter().map(|q| (q.file_offset, q.read_range.clone())).collect::<Vec<_>>(),
        vec![(BLOCK - 10, 0..10), (BLOCK, 0..BLOCK), (2 * BLOCK, 0..10)]
    );
    assert_eq!(fr.slice_reader_cnt(), 3);
    assert_eq!(fr.get_read_buffer_usage(), BLOCK + 20);
    let seqs: Vec<u64> = plan.reqs.iter().map(|q| q.slice_reader).collect();
    assert!(seqs[0] < seqs[1] && seqs[1] < seqs[2]);
    for s in &seqs {
        assert_eq!(fr.reader_state(*s), Some(SliceReaderState::New));
    }
}

#[test]
fn read_uses_the_readers_it_has() {
    let mut fr = reader(1 << 20);
    let first = fr.read(100, 1000, 5).unwrap();
    assert_eq!(first.reqs.len(), 1);
    let seq = first.reqs[0].slice_reader;
    let again = fr.read(300, 200, 6).unwrap();
    assert_eq!(fr.slice_reader_cnt(), 1);
    assert_eq!(again.reqs.len(), 1);
    assert_eq!(again.reqs[0].slice_reader, seq);
    assert_eq!(again.reqs[0].read_range, 200..400);
    assert_eq!(again.reqs[0].file_offset, 300);
    let wider = fr.read(0, 2000, 7).unwrap();
    assert_eq!(fr.slice_reader_cnt(), 3);
    assert_eq!(
        wider.reqs.iter().map(|q| (q.file_offset, q.read_range.clone())).collect::<Vec<_>>(),
        vec![(0, 0..100), (100, 0..1000), (1100, 0..900)]
    );
    assert_eq!(wider.reqs[1].slice_reader, seq);
}

#[test]
fn read_near_the_end_reads_ahead() {
    let len = 1 << 20;
    let mut fr = reader(len);
    let plan = fr.read(len - LAST_BLOCK_SIZE + 1, 10, 1).unwrap();
    assert_eq!(plan.read_ahead, Some(len - LAST_BLOCK_SIZE..len));
    let plan = fr.read(len - LAST_BLOCK_SIZE, 10, 1).unwrap();
    assert_eq!(plan.read_ahead, None);
    let mut small = reader(1000);
    let plan = small.read(0, 10, 1).unwrap();
    assert_eq!(plan.read_ahead, Some(0..1000));
    assert_eq!(plan.block, 0..10);
}

#[test]
fn read_is_clamped_to_the_file() {
    let mut fr = reader(4096);
    let plan = fr.read(2048, 4096, 1).unwrap();
    assert_eq!(plan.block, 2048..4096);
    assert_eq!(plan.reqs.len(), 1);
    assert_eq!(plan.reqs[0].read_range, 0..2048);
}

#[test]
fn fetched_bytes_are_read_back() {
    let len = BLOCK + 100;
    let mut fr = reader(len);
    let content: Vec<u8> = (0..len).map(|i| (i % 253) as u8).collect();
    let plan = fr.read(BLOCK - 50, 120, 1).unwrap();
    assert_eq!(plan.reqs.len(), 2);
    let mut dst = vec![];
    assert_eq!(fr.do_read(&plan.reqs, &mut dst), 0);
    let first = plan.reqs[0].slice_reader;
    let second = plan.reqs[1].slice_reader;
    let job = fr.begin_fetch(first).unwrap();
    assert_eq!(job, BLOCK - 50..BLOCK);
    assert!(fr.begin_fetch(first).is_none());
    assert!(fr.complete_fetch(first, content[job].to_vec()));
    assert_eq!(fr.reader_state(first), Some(SliceReaderState::Ready));
    assert_eq!(fr.do_read(&plan.reqs, &mut dst), 50);
    assert_eq!(dst, &content[BLOCK - 50..BLOCK]);
    let job = fr.begin_fetch(second).unwrap();
    assert_eq!(job, BLOCK..BLOCK + 70);
    assert!(!fr.complete_fetch(second, vec![0; 69]));
    assert!(fr.complete_fetch(second, content[job].to_vec()));
    let mut dst = vec![];
    assert_eq!(fr.do_read(&plan.reqs, &mut dst), 120);
    assert_eq!(dst, &content[BLOCK - 50..BLOCK + 70]);
    assert_eq!(fr.cleanup_slice_reader(first), CleanupAction::Keep);
    assert_eq!(fr.slice_reader_cnt(), 2);
}

#[test]
fn cleanup_removes_invalid_readers() {
    let mut fr = reader(1000);
    let plan = fr.read(0, 100, 1).unwrap();
    let seq = plan.reqs[0].slice_reader;
    assert_eq!(fr.get_read_buffer_usage(), 100);
    assert!(fr.begin_fetch(seq).is_some());
    assert_eq!(fr.cleanup_slice_reader(seq), CleanupAction::Retry);
    assert_eq!(fr.reader_state(seq), Some(SliceReaderState::New));
    fr.close();
    assert!(fr.begin_fetch(seq).is_none());
    assert_eq!(fr.cleanup_slice_reader(seq), CleanupAction::Delete);
    assert_eq!(fr.reader_state(seq), None);
    assert_eq!(fr.slice_reader_cnt(), 0);
    assert_eq!(fr.get_read_buffer_usage(), 0);
    assert_eq!(fr.cleanup_slice_reader(seq), CleanupAction::Nothing);
    assert!(!fr.delete_slice_reader(seq));
}

#[test]
fn fill_gap_tiles_the_gap_block_by_block() {
    let mut fr = FileReader::new(1, 1, 1000, 100, 400, generator());
    let first = fr.read(0, 10, 3).unwrap();
    assert_eq!(fr.slice_reader_cnt(), 1);
    assert_eq!(fr.get_read_buffer_usage(), 10);
    assert!(fr.fill_gap(1000, 50..260, 9));
    assert_eq!(fr.slice_reader_cnt(), 4);
    assert_eq!(fr.get_read_buffer_usage(), 10 + 210);
    assert_eq!(fr.reader_state(first.reqs[0].slice_reader), Some(SliceReaderState::New));
    let plan = fr.read(50, 210, 11).unwrap();
    assert!(!plan.starved);
    assert_eq!(fr.slice_reader_cnt(), 4);
    assert_eq!(
        plan.reqs.iter().map(|q| (q.file_offset, q.read_range.clone())).collect::<Vec<_>>(),
        vec![(50, 0..50), (100, 0..100), (200, 0..60)]
    );
    let seqs: Vec<u64> = plan.reqs.iter().map(|q| q.slice_reader).collect();
    assert!(first.reqs[0].slice_reader < seqs[0]);
    assert!(seqs[0] < seqs[1] && seqs[1] < seqs[2]);
    assert_eq!(fr.begin_fetch(seqs[1]), Some(100..200));
}

#[test]
fn make_requests_makes_readers_for_the_gaps_only() {
    let mut fr = FileReader::new(1, 1, 1000, 100, 400, generator());
    let held = fr.read(120, 60, 3).unwrap();
    assert_eq!(fr.slice_reader_cnt(), 1);
    let old_seq = held.reqs[0].slice_reader;
    let (reqs, starved) = fr.make_requests(1000, 50..450, 9);
    assert!(!starved);
    assert_eq!(fr.slice_reader_cnt(), 7);
    assert_eq!(fr.get_read_buffer_usage(), 60 + 70 + 270);
    assert_eq!(
        reqs.iter().map(|q| (q.file_offset, q.read_range.clone())).collect::<Vec<_>>(),
        vec![
            (50, 0..50),
            (100, 0..20),
            (120, 0..60),
            (180, 0..20),
            (200, 0..100),
            (300, 0..100),
            (400, 0..50)
        ]
    );
    assert_eq!(reqs[2].slice_reader, old_seq);
    let made: Vec<u64> = reqs.iter().map(|q| q.slice_reader).filter(|s| *s != old_seq).collect();
    assert_eq!(made.len(), 6);
    for pair in made.windows(2) {
        assert!(pair[0] < pair[1]);
    }
    assert!(old_seq < made[0]);
    let pieces: Vec<std::ops::Range<usize>> =
        made.iter().map(|s| fr.begin_fetch(*s).unwrap()).collect();
    assert_eq!(pieces, vec![50..100, 100..120, 180..200, 200..300, 300..400, 400..450]);
    let (again, starved) = fr.make_requests(1000, 50..450, 10);
    assert!(!starved);
    assert_eq!(again.len(), 7);
    assert_eq!(fr.slice_reader_cnt(), 7);
    assert_eq!(fr.get_read_buffer_usage(), 400);
}
