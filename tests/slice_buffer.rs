use stripe_update::storage::slice_buffer::overlay_partial_block;
use std::collections::HashMap;

use rand::Rng;
use stripe_update::config::SEG_SIZE;
use stripe_update::storage::slice_buffer::{
    assemble_partial_block, check_segment_aligned, FixedSizeSliceBuf, PartialBlock, SliceOpt,
};
use stripe_update::SUError;

const BLOCK_SIZE: usize = SEG_SIZE * 20;
const CAPACITY: usize = BLOCK_SIZE * 4;
const BLOCK_NUM: usize = CAPACITY / BLOCK_SIZE * 2;
const SLICE_SIZE: usize = SEG_SIZE;
const TEST_LOAD: usize = CAPACITY * 4 / SLICE_SIZE;

/// The segment logs of the buffered blocks, kept in memory in place of the device.
#[derive(Default)]
struct Logs {
    records: HashMap<usize, Vec<Vec<u8>>>,
}

impl Logs {
    fn write(&mut self, block_id: usize, records: &[usize], data: &[u8]) {
        let log = self.records.entry(block_id).or_default();
        for (chunk, idx) in data.chunks_exact(SEG_SIZE).zip(records) {
            if *idx < log.len() {
                log[*idx] = chunk.to_vec();
            } else {
                assert_eq!(*idx, log.len());
                log.push(chunk.to_vec());
            }
        }
    }

    fn evict(&mut self, block_id: usize, seg_log: &Vec<usize>) -> PartialBlock {
        let records = self.records.remove(&block_id).unwrap_or_default();
        assert_eq!(records.len(), seg_log.len());
        assemble_partial_block(BLOCK_SIZE, seg_log, &records)
    }
}

fn check_block(expect: &[Option<u8>], data: &PartialBlock) {
    assert_eq!(data.size, BLOCK_SIZE);
    let mut offset = 0;
    for slice in data.slices.iter() {
        match slice {
            SliceOpt::Present(bytes) => {
                let want: Vec<u8> =
                    expect[offset..offset + bytes.len()].iter().map(|b| b.unwrap()).collect();
                assert_eq!(&want, bytes);
                offset += bytes.len();
            }
            SliceOpt::Absent(size) => {
                assert!(expect[offset..offset + size].iter().all(Option::is_none));
                offset += size;
            }
        }
    }
    assert_eq!(offset, BLOCK_SIZE);
}

#[test]
fn test_fixed_size_buf() {
    let mut buf = FixedSizeSliceBuf::connect_to_dev(BLOCK_SIZE, CAPACITY);
    let mut logs = Logs::default();
    let mut blocks = vec![vec![None::<u8>; BLOCK_SIZE]; BLOCK_NUM];
    let mut rng = rand::thread_rng();
    for _ in 0..TEST_LOAD {
        let block_id = rng.gen_range(0..BLOCK_NUM);
        let start = rng.gen_range(0..BLOCK_SIZE);
        let end = rng.gen_range(start..BLOCK_SIZE);
        let offset = start / SLICE_SIZE * SLICE_SIZE;
        let len = std::cmp::max(SLICE_SIZE, (end - start) / SLICE_SIZE * SLICE_SIZE);
        let len = std::cmp::min(len, BLOCK_SIZE - offset);
        let data: Vec<u8> = (0..len).map(|_| rng.gen()).collect();
        for (a, b) in blocks[block_id][offset..offset + len].iter_mut().zip(data.iter()) {
            *a = Some(*b);
        }
        let plan = buf.push_slice(block_id, offset, len).unwrap();
        logs.write(block_id, &plan.records, &data);
        if let Some((id, _ranges, seg_log)) = plan.evicted {
            let evicted = logs.evict(id, &seg_log);
            check_block(&blocks[id], &evicted);
            blocks[id] = vec![None; BLOCK_SIZE];
        }
    }
    let buf_len = buf.len();
    assert!(buf_len <= CAPACITY, "buf_len: {}, CAPACITY :{}", buf_len, CAPACITY);
    assert!(
        buf_len >= (CAPACITY * 8 / 10),
        "buf_len: {}, .9*CAPACITY: {}",
        buf_len,
        CAPACITY * 9 / 10
    );
    while let Some((id, _ranges, seg_log)) = buf.pop() {
        let evicted = logs.evict(id, &seg_log);
        check_block(&blocks[id], &evicted);
    }
    assert!(buf.is_empty());
    assert!(logs.records.is_empty());
}

#[test]
fn fixed_size_buf_error_handle() {
    let mut buf = FixedSizeSliceBuf::connect_to_dev(BLOCK_SIZE, CAPACITY);
    assert!(matches!(buf.push_slice(0, 1, SEG_SIZE), Err(SUError::InvalidArg(_))));
    assert!(matches!(buf.push_slice(0, 0, SEG_SIZE + 1), Err(SUError::InvalidArg(_))));
    assert!(matches!(buf.push_slice(0, BLOCK_SIZE, SEG_SIZE), Err(SUError::InvalidArg(_))));
    assert!(buf.is_empty());
    assert!(check_segment_aligned(SEG_SIZE, 2 * SEG_SIZE, BLOCK_SIZE).is_ok());
    assert!(buf.pop_one(0).is_none());
}

#[test]
fn evicted_block_covers_pushed_segments() {
    let mut buf = FixedSizeSliceBuf::connect_to_dev(BLOCK_SIZE, CAPACITY);
    let mut logs = Logs::default();
    let a = vec![1u8; 2 * SEG_SIZE];
    let b = vec![2u8; SEG_SIZE];
    let plan = buf.push_slice(5, 3 * SEG_SIZE, a.len()).unwrap();
    assert_eq!(plan.records, vec![0, 1]);
    logs.write(5, &plan.records, &a);
    let plan = buf.push_slice(5, 0, b.len()).unwrap();
    assert_eq!(plan.records, vec![2]);
    logs.write(5, &plan.records, &b);
    let plan = buf.push_slice(5, 4 * SEG_SIZE, b.len()).unwrap();
    assert_eq!(plan.records, vec![1]);
    logs.write(5, &plan.records, &b);
    let (ranges, seg_log) = buf.pop_one(5).unwrap();
    assert_eq!(ranges.to_ranges(), vec![0..SEG_SIZE, 3 * SEG_SIZE..5 * SEG_SIZE]);
    let block = logs.evict(5, &seg_log);
    assert_eq!(block.slices.len(), BLOCK_SIZE / SEG_SIZE);
    let present: Vec<usize> = block
        .slices
        .iter()
        .enumerate()
        .filter(|(_, s)| matches!(s, SliceOpt::Present(_)))
        .map(|(i, _)| i)
        .collect();
    assert_eq!(present, vec![0, 3, 4]);
    assert!(matches!(&block.slices[4], SliceOpt::Present(v) if v[0] == 2));
    assert!(matches!(&block.slices[3], SliceOpt::Present(v) if v[0] == 1));
    let total: usize = block
        .slices
        .iter()
        .map(|s| match s {
            SliceOpt::Present(v) => v.len(),
            SliceOpt::Absent(n) => *n,
        })
        .sum();
    assert_eq!(total, BLOCK_SIZE);
    assert!(buf.is_empty());
}

#[test]
fn overlay_keeps_absent_segments() {
    let stored = vec![9u8; 3 * SEG_SIZE];
    let data = PartialBlock {
        size: 3 * SEG_SIZE,
        slices: vec![
            SliceOpt::Absent(SEG_SIZE),
            SliceOpt::Present(vec![1u8; SEG_SIZE]),
            SliceOpt::Absent(SEG_SIZE),
        ],
    };
    let out = overlay_partial_block(&stored, &data);
    assert_eq!(out.len(), 3 * SEG_SIZE);
    assert!(out[..SEG_SIZE].iter().all(|b| *b == 9));
    assert!(out[SEG_SIZE..2 * SEG_SIZE].iter().all(|b| *b == 1));
    assert!(out[2 * SEG_SIZE..].iter().all(|b| *b == 9));
}

#[test]
fn push_slice_eviction_carries_buffered_ranges() {
    let mut buf = FixedSizeSliceBuf::connect_to_dev(4 * SEG_SIZE, 3 * SEG_SIZE);
    assert!(buf.push_slice(1, 0, 2 * SEG_SIZE).unwrap().evicted.is_none());
    assert!(buf.push_slice(2, SEG_SIZE, SEG_SIZE).unwrap().evicted.is_none());
    assert_eq!(buf.len(), 3 * SEG_SIZE);
    let plan = buf.push_slice(2, 3 * SEG_SIZE, SEG_SIZE).unwrap();
    let (id, ranges, log) = plan.evicted.unwrap();
    assert_eq!(id, 1);
    assert_eq!(ranges.to_ranges(), vec![0..2 * SEG_SIZE]);
    assert_eq!(log, vec![0, 1]);
    assert_eq!(buf.len(), 2 * SEG_SIZE);
    assert!(buf.len() <= 3 * SEG_SIZE);
}
