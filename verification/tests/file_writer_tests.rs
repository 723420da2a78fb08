use kisekifs::common::{BLOCK_SIZE, CHUNK_SIZE};
use kisekifs::err::StorageError;
use kisekifs::file_writer::{FileWriter, FlushKind, OpResult, SliceOp, WriteOutcome};
use kisekifs::flusher::{
    next_task_step, FileWriterFlusher, FlushTask, FlusherEvent, FlusherStep, TaskEvent, TaskStep,
};
use kisekifs::pool::DiskPagePool;
use kisekifs::slice::make_slice_object_key;
use kisekifs::slice_writer::{FlushReq, SliceHandle};
use sonyflake::Sonyflake;

fn generator() -> Sonyflake {
    Sonyflake::builder().machine_id(&|| Ok(7)).finalize().unwrap()
}

fn pool(pages: usize) -> DiskPagePool {
    DiskPagePool::new(BLOCK_SIZE, BLOCK_SIZE * pages)
}

/// Serves one task of the flusher the way the background flusher does,
/// with an object store that takes every upload. Returns the objects put.
fn serve(
    fw: &mut FileWriter,
    pool: &mut DiskPagePool,
    task: &FlushTask,
    next_slice_id: &mut u64,
) -> Vec<(String, usize)> {
    let mut puts = vec![];
    let plan = match fw.flush_step(pool, task.sw, SliceOp::Plan { kind: task.kind, candidate: None }) {
        Some(OpResult::NeedsSliceId) => {
            *next_slice_id += 1;
            let op = SliceOp::Plan { kind: task.kind, candidate: Some(*next_slice_id) };
            match fw.flush_step(pool, task.sw, op) {
                Some(OpResult::Plan(plan)) => plan,
                other => panic!("unexpected {:?}", other),
            }
        }
        Some(OpResult::Plan(plan)) => plan,
        other => panic!("unexpected {:?}", other),
    };
    for u in plan {
        puts.push((make_slice_object_key(u.slice_id, u.block_index, u.size), u.size));
        let op = SliceOp::Uploaded { block_index: u.block_index, size: u.size };
        match fw.flush_step(pool, task.sw, op) {
            Some(OpResult::Counted(true)) => {}
            other => panic!("unexpected {:?}", other),
        }
    }
    if task.mark_done {
        assert!(matches!(fw.flush_step(pool, task.sw, SliceOp::MarkDone), Some(OpResult::Marked)));
    }
    fw.remove_done_slice_writer(pool);
    puts
}

fn serve_all(
    fw: &mut FileWriter,
    pool: &mut DiskPagePool,
    reqs: Vec<FlushReq>,
    next_slice_id: &mut u64,
) -> Vec<(String, usize)> {
    let mut puts = vec![];
    for req in reqs {
        match FileWriterFlusher::run(FlusherEvent::Received(req)) {
            FlusherStep::Run { tasks, manual } => {
                for t in &tasks {
                    puts.extend(serve(fw, pool, t, next_slice_id));
                }
                if manual {
                    fw.finish_manual_flush(pool).unwrap();
                }
            }
            other => panic!("unexpected {:?}", other),
        }
    }
    puts
}

#[test]
fn file_writer_starts_empty() {
    let fw = FileWriter::new(5, 100, generator());
    assert_eq!(fw.get_inode(), 5);
    assert_eq!(fw.get_length(), 100);
    assert_eq!(fw.chunk_cnt(), 0);
    assert_eq!(fw.detached_cnt(), 0);
    assert!(!fw.is_manually_flushing());
    assert!(fw.is_seq());
}

#[test]
fn write_of_nothing_does_nothing() {
    let mut pool = pool(2);
    let mut fw = FileWriter::new(1, 10, generator());
    let out = fw.write(&mut pool, 500, 0).unwrap();
    assert_eq!(out.written, 0);
    assert!(out.copies.is_empty());
    assert!(out.flush_reqs.is_empty());
    assert_eq!(fw.get_length(), 10);
    assert_eq!(fw.chunk_cnt(), 0);
}

#[test]
fn write_is_refused_when_pages_are_too_small() {
    let mut pool = DiskPagePool::new(128 << 10, 300 << 20);
    let mut fw = FileWriter::new(1, 0, generator());
    assert_eq!(fw.write(&mut pool, 0, 10).err(), Some(StorageError::Bounds));
    assert_eq!(fw.get_length(), 0);
    assert_eq!(fw.chunk_cnt(), 0);
    assert!(fw.write(&mut pool, 0, 0).is_ok());
}

#[test]
fn sequential_write_within_one_chunk() {
    let mut pool = pool(8);
    let mut fw = FileWriter::new(1, 0, generator());
    let mut next_slice_id = 100;
    let mut bulk = 0;
    let mut puts = vec![];
    let mut off = 0;
    while off < 8 << 20 {
        let out = fw.write(&mut pool, off, 4096).unwrap();
        assert_eq!(out.written, 4096);
        off += 4096;
        for r in &out.flush_reqs {
            match r {
                FlushReq::FlushBulk { offset, .. } => {
                    bulk += 1;
                    assert_eq!(*offset, BLOCK_SIZE + 4096);
                }
                other => panic!("unexpected {:?}", other),
            }
        }
        puts.extend(serve_all(&mut fw, &mut pool, out.flush_reqs, &mut next_slice_id));
        assert_eq!(fw.slice_writer_cnt(0), 1);
        assert_eq!(fw.chunk_cnt(), 1);
    }
    assert_eq!(bulk, 1);
    assert_eq!(puts, vec![("chunks/0/0/101_0_4194304".to_string(), BLOCK_SIZE)]);
    assert_eq!(fw.get_length(), 8 << 20);
    assert!(fw.is_seq());
    assert_eq!(pool.remain_page_cnt(), 7);
}

#[test]
fn write_crossing_chunk_boundary() {
    let mut pool = pool(8);
    let mut fw = FileWriter::new(1, 0, generator());
    let out = fw.write(&mut pool, CHUNK_SIZE - 2, 5).unwrap();
    assert_eq!(out.written, 5);
    assert_eq!(out.copies.len(), 2);
    assert_eq!((out.copies[0].src_offset, out.copies[0].len), (0, 2));
    assert_eq!((out.copies[1].src_offset, out.copies[1].len), (2, 3));
    assert_ne!(out.copies[0].page_id, out.copies[1].page_id);
    assert_eq!(fw.chunk_cnt(), 2);
    assert_eq!(fw.slice_writer_cnt(0), 1);
    assert_eq!(fw.slice_writer_cnt(1), 1);
    assert_eq!(fw.get_length(), CHUNK_SIZE + 3);
    let mut image = vec![0u8; 8 * BLOCK_SIZE];
    for c in &out.copies {
        c.apply(&mut image, b"hello").unwrap();
    }
    assert_eq!(&image[out.copies[0].file_offset..out.copies[0].file_offset + 2], b"he");
    assert_eq!(&image[out.copies[1].file_offset..out.copies[1].file_offset + 3], b"llo");
}

#[test]
fn full_chunk_fill() {
    let mut pool = pool(32);
    let mut fw = FileWriter::new(1, 0, generator());
    let mut next_slice_id = 0;
    let mut off = 0;
    let mut full = 0;
    let mut put_bytes = 0;
    while off < CHUNK_SIZE {
        let out = fw.write(&mut pool, off, 1 << 20).unwrap();
        assert_eq!(out.written, 1 << 20);
        off += 1 << 20;
        for r in &out.flush_reqs {
            if let FlushReq::FlushFull(_) = r {
                full += 1;
                assert_eq!(off, CHUNK_SIZE);
            }
        }
        for (_, size) in serve_all(&mut fw, &mut pool, out.flush_reqs, &mut next_slice_id) {
            put_bytes += size;
        }
    }
    assert_eq!(full, 1);
    assert_eq!(put_bytes, CHUNK_SIZE);
    assert_eq!(fw.get_length(), CHUNK_SIZE);
    assert_eq!(fw.slice_writer_cnt(0), 0);
    assert_eq!(fw.chunk_cnt(), 0);
    assert_eq!(pool.remain_page_cnt(), 32);
    assert_eq!(next_slice_id, 1);
}

#[test]
fn manual_flush_takes_writers_out_and_flushes_them() {
    let mut pool = pool(16);
    let mut fw = FileWriter::new(1, 0, generator());
    let mut next_slice_id = 0;
    for i in 0..4 {
        let out = fw.write(&mut pool, i * CHUNK_SIZE, 1000).unwrap();
        assert_eq!(out.written, 1000);
        assert!(out.flush_reqs.is_empty());
    }
    assert_eq!(fw.chunk_cnt(), 4);
    let req = fw.flush().unwrap();
    let handles = match &req {
        FlushReq::ManualFlush { sws } => sws.clone(),
        other => panic!("unexpected {:?}", other),
    };
    assert_eq!(handles.len(), 4);
    let mut chunks: Vec<usize> = handles.iter().map(|h| h.chunk_idx).collect();
    chunks.sort();
    assert_eq!(chunks, vec![0, 1, 2, 3]);
    assert!(fw.is_manually_flushing());
    assert_eq!(fw.chunk_cnt(), 0);
    assert_eq!(fw.detached_cnt(), 4);
    assert!(fw.flush().is_none());
    let out = fw.write(&mut pool, 1000, 10).unwrap();
    assert_eq!(out.written, 10);
    assert_eq!(fw.slice_writer_cnt(0), 1);
    let puts = serve_all(&mut fw, &mut pool, vec![req], &mut next_slice_id);
    assert_eq!(puts.len(), 4);
    assert!(puts.iter().all(|(_, size)| *size == 1000));
    let mut keys: Vec<&String> = puts.iter().map(|(k, _)| k).collect();
    keys.sort();
    keys.dedup();
    assert_eq!(keys.len(), 4);
    assert!(!fw.is_manually_flushing());
    assert_eq!(fw.detached_cnt(), 0);
    assert_eq!(fw.slice_writer_cnt(0), 1);
    assert_eq!(pool.remain_page_cnt(), 15);
}

#[test]
fn flush_twice_uploads_once() {
    let mut pool = pool(4);
    let mut fw = FileWriter::new(1, 0, generator());
    let mut next_slice_id = 0;
    fw.write(&mut pool, 0, 5000).unwrap();
    let req = fw.flush().unwrap();
    let puts = serve_all(&mut fw, &mut pool, vec![req], &mut next_slice_id);
    assert_eq!(puts, vec![("chunks/0/0/1_0_5000".to_string(), 5000)]);
    assert!(fw.flush().is_none());
    assert!(!fw.is_manually_flushing());
    assert_eq!(fw.chunk_cnt(), 0);
    assert_eq!(fw.get_length(), 5000);
    assert_eq!(pool.remain_page_cnt(), 4);
}

#[test]
fn flush_of_an_empty_writer_asks_for_nothing() {
    let mut fw = FileWriter::new(1, 0, generator());
    assert!(fw.flush().is_none());
    assert!(!fw.is_manually_flushing());
}

#[test]
fn write_after_flush_goes_to_a_fresh_slice_writer() {
    let mut pool = pool(4);
    let mut fw = FileWriter::new(1, 0, generator());
    let mut next_slice_id = 0;
    let first = fw.write(&mut pool, 0, 100).unwrap();
    let req = fw.flush().unwrap();
    let old = match &req {
        FlushReq::ManualFlush { sws } => sws[0],
        other => panic!("unexpected {:?}", other),
    };
    let second = fw.write(&mut pool, 100, 100).unwrap();
    assert_eq!(second.written, 100);
    assert_ne!(first.copies[0].page_id, second.copies[0].page_id);
    assert_eq!(fw.slice_writer_cnt(0), 1);
    let puts = serve_all(&mut fw, &mut pool, vec![req], &mut next_slice_id);
    assert_eq!(puts.len(), 1);
    assert!(fw.flush_step(&mut pool, old, SliceOp::MarkDone).is_none());
    assert_eq!(fw.get_length(), 200);
}

#[test]
fn random_write_triggers_early_flush() {
    let mut pool = pool(32);
    let mut fw = FileWriter::new(1, 0, generator());
    let mut reqs = vec![];
    let mut first: Option<SliceHandle> = None;
    for i in 0..5usize {
        let out = fw.write(&mut pool, i << 20, 4096).unwrap();
        assert_eq!(out.written, 4096);
        assert_eq!(fw.slice_writer_cnt(0), i + 1);
        if i < 4 {
            assert!(out.flush_reqs.is_empty());
        }
        reqs.extend(out.flush_reqs);
        if i == 0 {
            let probe = fw.flush_step(
                &mut pool,
                SliceHandle { chunk_idx: 0, seq: 0 },
                SliceOp::Plan { kind: FlushKind::Full, candidate: None },
            );
            assert!(probe.is_none());
        }
    }
    assert!(!fw.is_seq());
    assert_eq!(reqs.len(), 1);
    match &reqs[0] {
        FlushReq::FlushFull(h) => {
            assert_eq!(h.chunk_idx, 0);
            first = Some(*h);
        }
        other => panic!("unexpected {:?}", other),
    }
    let mut next_slice_id = 0;
    let puts = serve_all(&mut fw, &mut pool, reqs, &mut next_slice_id);
    assert_eq!(puts, vec![("chunks/0/0/1_0_4096".to_string(), 4096)]);
    assert_eq!(fw.slice_writer_cnt(0), 4);
    assert!(fw.flush_step(&mut pool, first.unwrap(), SliceOp::MarkDone).is_none());
}

#[test]
fn no_early_flush_when_pool_is_mostly_taken() {
    let mut pool = pool(8);
    let mut held = vec![];
    for _ in 0..3 {
        held.push(pool.try_acquire_page().unwrap());
    }
    let mut fw = FileWriter::new(1, 0, generator());
    let mut reqs = 0;
    for i in 0..5usize {
        let out = fw.write(&mut pool, i << 20, 4096).unwrap();
        reqs += out.flush_reqs.len();
    }
    assert_eq!(reqs, 0);
    assert_eq!(fw.slice_writer_cnt(0), 5);
}

#[test]
fn write_comes_out_short_when_pool_runs_dry() {
    let mut pool = pool(2);
    let mut fw = FileWriter::new(1, 0, generator());
    let out = fw.write(&mut pool, 0, 3 * BLOCK_SIZE).unwrap();
    assert_eq!(out.written, 2 * BLOCK_SIZE);
    assert_eq!(fw.get_length(), 2 * BLOCK_SIZE);
    let out: WriteOutcome = fw.write(&mut pool, 2 * BLOCK_SIZE, 10).unwrap();
    assert_eq!(out.written, 0);
    assert_eq!(fw.get_length(), 2 * BLOCK_SIZE);
}

#[test]
fn length_never_shrinks() {
    let mut pool = pool(8);
    let mut fw = FileWriter::new(1, 1 << 20, generator());
    fw.write(&mut pool, 0, 100).unwrap();
    assert_eq!(fw.get_length(), 1 << 20);
    fw.write(&mut pool, (1 << 20) - 50, 100).unwrap();
    assert_eq!(fw.get_length(), (1 << 20) + 50);
    fw.write(&mut pool, 10, 10).unwrap();
    assert_eq!(fw.get_length(), (1 << 20) + 50);
}

#[test]
fn flusher_stops_when_cancelled_and_waits_when_closed() {
    assert!(matches!(FileWriterFlusher::run(FlusherEvent::Cancelled), FlusherStep::Exit));
    assert!(matches!(FileWriterFlusher::run(FlusherEvent::Closed), FlusherStep::Wait));
}

#[test]
fn flusher_tasks_follow_the_request() {
    let a = SliceHandle { chunk_idx: 1, seq: 10 };
    let b = SliceHandle { chunk_idx: 2, seq: 11 };
    match FileWriterFlusher::run(FlusherEvent::Received(FlushReq::FlushBulk { sw: a, offset: 99 })) {
        FlusherStep::Run { tasks, manual } => {
            assert!(!manual);
            assert_eq!(
                tasks,
                vec![FlushTask { sw: a, kind: FlushKind::Bulk { offset: 99 }, mark_done: false }]
            );
        }
        other => panic!("unexpected {:?}", other),
    }
    match FileWriterFlusher::run(FlusherEvent::Received(FlushReq::FlushFull(b))) {
        FlusherStep::Run { tasks, manual } => {
            assert!(!manual);
            assert_eq!(tasks, vec![FlushTask { sw: b, kind: FlushKind::Full, mark_done: true }]);
        }
        other => panic!("unexpected {:?}", other),
    }
    match FileWriterFlusher::run(FlusherEvent::Received(FlushReq::ManualFlush { sws: vec![a, b] })) {
        FlusherStep::Run { tasks, manual } => {
            assert!(manual);
            assert_eq!(
                tasks,
                vec![
                    FlushTask { sw: a, kind: FlushKind::Full, mark_done: true },
                    FlushTask { sw: b, kind: FlushKind::Full, mark_done: true },
                ]
            );
        }
        other => panic!("unexpected {:?}", other),
    }
}

#[test]
fn written_bytes_reach_the_object_store() {
    let mut pool = pool(4);
    let mut image = vec![0u8; 4 * BLOCK_SIZE];
    let mut fw = FileWriter::new(1, 0, generator());
    let data: Vec<u8> = (0..10_000).map(|i| (i * 7 % 256) as u8).collect();
    let mut off = 0;
    for part in data.chunks(3000) {
        let out = fw.write(&mut pool, off, part.len()).unwrap();
        assert_eq!(out.written, part.len());
        for c in &out.copies {
            c.apply(&mut image, part).unwrap();
        }
        off += part.len();
    }
    let req = fw.flush().unwrap();
    let h = match &req {
        FlushReq::ManualFlush { sws } => sws[0],
        other => panic!("unexpected {:?}", other),
    };
    let plan = match fw.flush_step(
        &mut pool,
        h,
        SliceOp::Plan { kind: FlushKind::Full, candidate: Some(9) },
    ) {
        Some(OpResult::Plan(plan)) => plan,
        other => panic!("unexpected {:?}", other),
    };
    assert_eq!(plan.len(), 1);
    assert_eq!(plan[0].read(&image).unwrap(), data);
}

#[test]
fn write_that_fills_the_chunk_asks_for_one_full_flush() {
    let mut pool = pool(32);
    let mut fw = FileWriter::new(1, 0, generator());
    let mut off = 0;
    let mut bulk = 0;
    while off < CHUNK_SIZE - BLOCK_SIZE {
        let out = fw.write(&mut pool, off, BLOCK_SIZE).unwrap();
        assert_eq!(out.written, BLOCK_SIZE);
        off += BLOCK_SIZE;
        for r in &out.flush_reqs {
            match r {
                FlushReq::FlushBulk { offset, .. } => {
                    bulk += 1;
                    assert_eq!(*offset, off);
                }
                other => panic!("unexpected {:?}", other),
            }
        }
        assert_eq!(fw.slice_writer_cnt(0), 1);
    }
    assert_eq!(bulk, 14);
    let last = fw.write(&mut pool, off, BLOCK_SIZE).unwrap();
    assert_eq!(last.written, BLOCK_SIZE);
    assert_eq!(last.flush_reqs.len(), 1);
    let h = match &last.flush_reqs[0] {
        FlushReq::FlushFull(h) => *h,
        other => panic!("unexpected {:?}", other),
    };
    assert_eq!(h.chunk_idx, 0);
    assert_eq!(fw.get_length(), CHUNK_SIZE);
    assert_eq!(fw.slice_writer_cnt(0), 1);
    let behind = fw.write(&mut pool, CHUNK_SIZE - 10, 10).unwrap();
    assert_eq!(behind.written, 10);
    assert_eq!(fw.slice_writer_cnt(0), 2);
}

#[test]
fn write_lists_the_copies_of_its_pieces_in_order() {
    let mut pool = pool(8);
    let mut fw = FileWriter::new(1, 0, generator());
    let len = BLOCK_SIZE + 30;
    let out = fw.write(&mut pool, CHUNK_SIZE - BLOCK_SIZE - 10, len).unwrap();
    assert_eq!(out.written, len);
    assert_eq!(
        out.copies.iter().map(|c| (c.block_index, c.src_offset, c.len)).collect::<Vec<_>>(),
        vec![(0, 0, BLOCK_SIZE), (1, BLOCK_SIZE, 10), (0, BLOCK_SIZE + 10, 20)]
    );
    assert_eq!(out.flush_reqs.len(), 1);
    match &out.flush_reqs[0] {
        FlushReq::FlushBulk { sw, offset } => {
            assert_eq!(sw.chunk_idx, 0);
            assert_eq!(*offset, BLOCK_SIZE + 10);
        }
        other => panic!("unexpected {:?}", other),
    }
    assert_eq!((fw.slice_writer_cnt(0), fw.slice_writer_cnt(1)), (1, 1));
    assert_eq!(pool.remain_page_cnt(), 5);
}

#[test]
fn failed_full_flush_is_kept_for_the_end_of_the_manual_flush() {
    let mut pool = pool(8);
    let mut fw = FileWriter::new(1, 0, generator());
    fw.write(&mut pool, 0, 100).unwrap();
    assert!(fw.report_flush_error(FlushKind::Full, StorageError::Io));
    assert!(fw.flush().is_some());
    assert!(fw.is_manually_flushing());
    assert!(!fw.report_flush_error(FlushKind::Bulk { offset: 5 }, StorageError::Eof));
    assert!(fw.report_flush_error(FlushKind::Full, StorageError::ObjectStorage));
    assert!(fw.report_flush_error(FlushKind::Full, StorageError::Join));
    assert_eq!(fw.finish_manual_flush(&mut pool), Err(StorageError::ObjectStorage));
    assert!(!fw.is_manually_flushing());
    assert_eq!(fw.finish_manual_flush(&mut pool), Ok(()));
    fw.write(&mut pool, 100, 100).unwrap();
    assert!(fw.flush().is_some());
    assert_eq!(fw.finish_manual_flush(&mut pool), Ok(()));
}

#[test]
fn flush_task_takes_its_steps_in_order() {
    let sw = SliceHandle { chunk_idx: 0, seq: 9 };
    let full = FlushTask { sw, kind: FlushKind::Full, mark_done: true };
    let bulk = FlushTask { sw, kind: FlushKind::Bulk { offset: 10 }, mark_done: false };
    assert_eq!(next_task_step(full, TaskEvent::Started), TaskStep::Plan { candidate: None });
    assert_eq!(next_task_step(full, TaskEvent::NeedsSliceId), TaskStep::FetchSliceId);
    assert_eq!(
        next_task_step(full, TaskEvent::SliceId { id: 4 }),
        TaskStep::Plan { candidate: Some(4) }
    );
    assert_eq!(next_task_step(full, TaskEvent::Planned { blocks: 2 }), TaskStep::Upload { at: 0 });
    assert_eq!(
        next_task_step(full, TaskEvent::Uploaded { at: 0, blocks: 2 }),
        TaskStep::Upload { at: 1 }
    );
    assert_eq!(next_task_step(full, TaskEvent::Uploaded { at: 1, blocks: 2 }), TaskStep::MarkDone);
    assert_eq!(next_task_step(bulk, TaskEvent::Uploaded { at: 1, blocks: 2 }), TaskStep::Sweep);
    assert_eq!(next_task_step(full, TaskEvent::Planned { blocks: 0 }), TaskStep::MarkDone);
    assert_eq!(next_task_step(bulk, TaskEvent::Planned { blocks: 0 }), TaskStep::Sweep);
    assert_eq!(
        next_task_step(full, TaskEvent::Failed { error: StorageError::ObjectStorage }),
        TaskStep::Report { error: StorageError::ObjectStorage }
    );
    assert_eq!(next_task_step(full, TaskEvent::Reported), TaskStep::MarkDone);
    assert_eq!(next_task_step(bulk, TaskEvent::Reported), TaskStep::Sweep);
    assert_eq!(next_task_step(full, TaskEvent::Marked), TaskStep::Sweep);
    assert_eq!(next_task_step(full, TaskEvent::Swept), TaskStep::Finish);
    assert_eq!(
        next_task_step(full, TaskEvent::Uploaded { at: usize::MAX, blocks: 2 }),
        TaskStep::MarkDone
    );
}
