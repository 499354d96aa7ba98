use std::cell::Cell;

use segment_index::directory::{FSFile, FsDirectory, CS, MAX_CACHED_BLOCKS};
use segment_index::error::IndexError;

fn contents(len: usize) -> Vec<u8> {
    (0..len).map(|i| (i * 31 % 251) as u8).collect()
}

#[test]
fn directory_keeps_its_root() {
    let directory = FsDirectory::new("/var/index");
    assert_eq!(directory.root(), "/var/index");
    let copy = directory.clone();
    assert_eq!(copy.root(), "/var/index");
}

#[test]
fn block_size_is_four_kibibytes() {
    assert_eq!(CS, 4096);
}

#[test]
fn read_gives_the_range_of_the_file() {
    let file = contents(10_000);
    let reads = Cell::new(0usize);
    let reader = |start: u64, end: u64| {
        reads.set(reads.get() + 1);
        file[start as usize..end as usize].to_vec()
    };
    let mut cache = FSFile::new(file.len() as u64);
    assert_eq!(cache.len(), 10_000);
    for (from, to) in [
        (0u64, 0u64),
        (0, 1),
        (100, 5_000),
        (4_095, 4_097),
        (4_096, 8_192),
        (0, 10_000),
        (8_192, 10_000),
        (9_999, 10_000),
        (10_000, 10_000),
        (4_096, 4_096),
    ] {
        assert_eq!(
            cache.read_bytes(from, to, &reader).unwrap(),
            file[from as usize..to as usize].to_vec()
        );
    }
    // the file has three blocks, each read once
    assert_eq!(reads.get(), 3);
}

#[test]
fn read_of_a_file_of_whole_blocks() {
    let file = contents(8_192);
    let reads = Cell::new(0usize);
    let reader = |start: u64, end: u64| {
        reads.set(reads.get() + 1);
        file[start as usize..end as usize].to_vec()
    };
    let mut cache = FSFile::new(file.len() as u64);
    assert_eq!(cache.read_bytes(0, 8_192, &reader).unwrap(), file);
    // the range ends where a third, empty block would start
    assert_eq!(reads.get(), 3);
    assert_eq!(cache.read_bytes(4_000, 8_192, &reader).unwrap(), file[4_000..].to_vec());
    assert_eq!(reads.get(), 3);
}

#[test]
fn cached_blocks_are_not_read_again() {
    let file = contents(20_000);
    let asked: Cell<Vec<(u64, u64)>> = Cell::new(Vec::new());
    let reader = |start: u64, end: u64| {
        let mut so_far = asked.take();
        so_far.push((start, end));
        asked.set(so_far);
        file[start as usize..end as usize].to_vec()
    };
    let mut cache = FSFile::new(file.len() as u64);
    cache.read_bytes(5_000, 9_000, &reader).unwrap();
    assert_eq!(asked.take(), vec![(4_096, 8_192), (8_192, 12_288)]);
    cache.read_bytes(4_096, 12_287, &reader).unwrap();
    assert_eq!(asked.take(), vec![]);
    cache.read_bytes(0, 20_000, &reader).unwrap();
    assert_eq!(asked.take(), vec![(0, 4_096), (12_288, 16_384), (16_384, 20_000)]);
}

#[test]
fn read_outside_the_file_fails() {
    let file = contents(5_000);
    let reader = |start: u64, end: u64| file[start as usize..end as usize].to_vec();
    let mut cache = FSFile::new(file.len() as u64);
    assert!(matches!(cache.read_bytes(0, 5_001, &reader), Err(IndexError::ReadError(_))));
    assert!(matches!(cache.read_bytes(7, 3, &reader), Err(IndexError::ReadError(_))));
    assert!(matches!(cache.read_bytes(6_000, 6_000, &reader), Err(IndexError::ReadError(_))));
    assert_eq!(cache.read_bytes(4_999, 5_000, &reader).unwrap(), vec![file[4_999]]);
}

#[test]
fn a_block_read_short_fails() {
    let reader = |start: u64, end: u64| vec![1u8; (end - start) as usize / 2];
    let mut cache = FSFile::new(5_000);
    assert!(matches!(cache.read_bytes(0, 10, &reader), Err(IndexError::ReadError(_))));
    let whole = |start: u64, end: u64| vec![2u8; (end - start) as usize];
    assert_eq!(cache.read_bytes(0, 3, &whole).unwrap(), vec![2, 2, 2]);
}

#[test]
fn a_full_cache_is_emptied() {
    let blocks = MAX_CACHED_BLOCKS as u64 + 1;
    let reads = Cell::new(0u64);
    let reader = |start: u64, end: u64| {
        reads.set(reads.get() + 1);
        vec![(start / CS) as u8; (end - start) as usize]
    };
    let mut cache = FSFile::new(blocks * CS);
    for block in 0..MAX_CACHED_BLOCKS as u64 {
        assert_eq!(cache.read_bytes(block * CS, block * CS + 1, &reader).unwrap(), vec![block as u8]);
    }
    assert_eq!(reads.get(), MAX_CACHED_BLOCKS as u64);
    // all of them are cached
    cache.read_bytes(0, 1, &reader).unwrap();
    assert_eq!(reads.get(), MAX_CACHED_BLOCKS as u64);
    // one more block empties the cache, so that the first block is read again
    cache.read_bytes(blocks * CS - 2, blocks * CS - 1, &reader).unwrap();
    cache.read_bytes(0, 1, &reader).unwrap();
    assert_eq!(reads.get(), MAX_CACHED_BLOCKS as u64 + 2);
}
