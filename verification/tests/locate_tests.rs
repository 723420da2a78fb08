use kisekifs::common::{cal_chunk_idx, cal_chunk_offset, CHUNK_SIZE};
use kisekifs::locate::{locate_chunk, ChunkWriteCtx};

#[test]
fn chunk_index_and_offset() {
    assert_eq!(cal_chunk_idx(0, CHUNK_SIZE), 0);
    assert_eq!(cal_chunk_idx(CHUNK_SIZE - 1, CHUNK_SIZE), 0);
    assert_eq!(cal_chunk_idx(CHUNK_SIZE, CHUNK_SIZE), 1);
    assert_eq!(cal_chunk_offset(CHUNK_SIZE + 5, CHUNK_SIZE), 5);
    assert_eq!(cal_chunk_offset(3 * CHUNK_SIZE - 1, CHUNK_SIZE), CHUNK_SIZE - 1);
}

#[test]
fn locate_chunk_within_one_chunk() {
    let pieces = locate_chunk(CHUNK_SIZE, 4096, 8192);
    assert_eq!(
        pieces,
        vec![ChunkWriteCtx {
            file_offset: 4096,
            chunk_idx: 0,
            chunk_offset: 4096,
            need_write_len: 8192,
            buf_start_at: 0,
        }]
    );
}

#[test]
fn locate_chunk_of_nothing_is_empty() {
    assert_eq!(locate_chunk(CHUNK_SIZE, 0, 0), vec![]);
    assert_eq!(locate_chunk(CHUNK_SIZE, 12345, 0), vec![]);
}

#[test]
fn locate_chunk_crossing_chunk_boundary() {
    let pieces = locate_chunk(CHUNK_SIZE, CHUNK_SIZE - 2, 5);
    assert_eq!(
        pieces,
        vec![
            ChunkWriteCtx {
                file_offset: CHUNK_SIZE - 2,
                chunk_idx: 0,
                chunk_offset: CHUNK_SIZE - 2,
                need_write_len: 2,
                buf_start_at: 0,
            },
            ChunkWriteCtx {
                file_offset: CHUNK_SIZE,
                chunk_idx: 1,
                chunk_offset: 0,
                need_write_len: 3,
                buf_start_at: 2,
            },
        ]
    );
}

#[test]
fn locate_chunk_at_last_byte_of_chunk() {
    for n in [2usize, 3, 100, 4096] {
        let pieces = locate_chunk(CHUNK_SIZE, CHUNK_SIZE - 1, n);
        assert_eq!(pieces.len(), 2);
        assert_eq!(pieces[0].need_write_len, 1);
        assert_eq!(pieces[1].need_write_len, n - 1);
    }
}

#[test]
fn locate_chunk_partitions_the_write() {
    let chunk_size = 1000usize;
    for (off, n) in [(0usize, 1usize), (999, 1), (999, 2), (1, 2999), (250, 5000), (1000, 1000)] {
        let pieces = locate_chunk(chunk_size, off, n);
        let mut pos = off;
        let mut buf = 0usize;
        for p in &pieces {
            assert!(p.need_write_len > 0);
            assert_eq!(p.file_offset, pos);
            assert_eq!(p.buf_start_at, buf);
            assert_eq!(p.chunk_idx, cal_chunk_idx(p.file_offset, chunk_size));
            assert_eq!(p.chunk_offset, cal_chunk_offset(p.file_offset, chunk_size));
            assert!(p.chunk_offset + p.need_write_len <= chunk_size);
            pos += p.need_write_len;
            buf += p.need_write_len;
        }
        assert_eq!(pos, off + n);
        assert_eq!(pieces.len(), (off + n - 1) / chunk_size - off / chunk_size + 1);
    }
}

#[test]
fn locate_chunk_spanning_three_chunks() {
    let pieces = locate_chunk(100, 50, 200);
    assert_eq!(pieces.len(), 3);
    assert_eq!(
        pieces.iter().map(|p| (p.chunk_idx, p.chunk_offset, p.need_write_len, p.buf_start_at)).collect::<Vec<_>>(),
        vec![(0, 50, 50, 0), (1, 0, 100, 50), (2, 0, 50, 150)]
    );
}
