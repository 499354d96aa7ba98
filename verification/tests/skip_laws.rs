use segment_index::error::IndexError;
use segment_index::skip::builder::SkipListBuilder;
use segment_index::skip::reader::SkipList;

fn keys(n: u32) -> Vec<u32> {
    (0..n).map(|i| 3 * i + 1).collect()
}

fn build_u32(keys: &[u32], period: usize) -> Vec<u8> {
    let mut builder: SkipListBuilder<u32> = SkipListBuilder::new(period);
    for key in keys {
        builder.insert(*key, &(key * 7 + 1)).unwrap();
    }
    let mut output: Vec<u8> = Vec::new();
    builder.write(&mut output).unwrap();
    output
}

fn build_unit(keys: &[u32], period: usize) -> Vec<u8> {
    let mut builder: SkipListBuilder<()> = SkipListBuilder::new(period);
    for key in keys {
        builder.insert(*key, &()).unwrap();
    }
    let mut output: Vec<u8> = Vec::new();
    builder.write(&mut output).unwrap();
    output
}

#[test]
fn iteration_gives_back_what_was_built() {
    for period in [2usize, 3, 4, 10] {
        for n in [0u32, 1, 2, 3, 9, 27, 100] {
            let keys = keys(n);
            let output = build_u32(&keys, period);
            let mut list: SkipList<u32> = SkipList::read(&output).unwrap();
            for key in &keys {
                assert_eq!(list.next(), Some((*key, key * 7 + 1)));
            }
            assert_eq!(list.next(), None);
            assert_eq!(list.next(), None);
        }
    }
}

#[test]
fn seek_lands_on_the_first_key_not_less() {
    for period in [2usize, 3, 5] {
        let keys = keys(60);
        let output = build_u32(&keys, period);
        for target in 0..=(3 * 60 + 2) {
            let mut list: SkipList<u32> = SkipList::read(&output).unwrap();
            let before = list.seek(target);
            let below: Option<u32> = keys.iter().copied().filter(|k| *k < target).last();
            assert_eq!(before, below.map(|k| (k, k * 7 + 1)));
            let wanted: Option<u32> = keys.iter().copied().find(|k| *k >= target);
            assert_eq!(list.next(), wanted.map(|k| (k, k * 7 + 1)));
        }
    }
}

#[test]
fn seeks_with_ascending_targets_keep_landing() {
    let keys = keys(200);
    let output = build_unit(&keys, 3);
    let mut list: SkipList<()> = SkipList::read(&output).unwrap();
    let mut target = 0u32;
    while target < 3 * 200 + 5 {
        list.seek(target);
        let wanted: Option<u32> = keys.iter().copied().find(|k| *k >= target);
        assert_eq!(list.next(), wanted.map(|k| (k, ())));
        target += 17;
    }
    list.seek(3 * 200);
    assert_eq!(list.next(), None);
}

#[test]
fn next_after_seek_is_never_less_than_the_target() {
    let keys = keys(50);
    let output = build_unit(&keys, 2);
    for passed in 0..50usize {
        for target in [0u32, 10, 50, 100, 149, 160] {
            let mut list: SkipList<()> = SkipList::read(&output).unwrap();
            for _ in 0..passed {
                list.next();
            }
            list.seek(target);
            if let Some((key, ())) = list.next() {
                assert!(key >= target);
            }
        }
    }
}

#[test]
fn seek_stays_where_no_layer_points_back() {
    let output = build_unit(&[2, 3, 5, 7, 9], 2);
    let mut list: SkipList<()> = SkipList::read(&output).unwrap();
    for _ in 0..4 {
        list.next();
    }
    list.seek(3);
    list.seek(3);
    assert_eq!(list.next(), Some((9, ())));
}

#[test]
fn seek_past_the_end_leaves_nothing() {
    for period in [2usize, 3, 7] {
        let keys = keys(30);
        let output = build_u32(&keys, period);
        let mut list: SkipList<u32> = SkipList::read(&output).unwrap();
        assert_eq!(list.seek(3 * 30), Some((3 * 29 + 1, (3 * 29 + 1) * 7 + 1)));
        assert_eq!(list.next(), None);
        let mut list: SkipList<u32> = SkipList::read(&output).unwrap();
        list.next();
        list.seek(u32::MAX);
        assert_eq!(list.next(), None);
    }
}

fn unit_list_size(n: usize, period: usize) -> usize {
    if n == 0 {
        return 4;
    }
    let mut layers = 1;
    let mut skip_entries = 0;
    let mut len = n / period;
    while len > 0 {
        layers += 1;
        skip_entries += len;
        len /= period;
    }
    4 + 4 * layers + 4 * n + 8 * skip_entries
}

#[test]
fn unit_list_takes_four_bytes_for_each_key() {
    assert_eq!(unit_list_size(9, 3), 84);
    for period in [2usize, 3, 4, 10] {
        for n in 0..130u32 {
            let output = build_unit(&keys(n), period);
            assert_eq!(output.len(), unit_list_size(n as usize, period));
            if n > 0 {
                // the first cumulative size is that of the data layer
                assert_eq!(&output[4..8], &(4 * n).to_be_bytes());
            }
        }
    }
}

#[test]
fn size_does_not_depend_on_the_keys() {
    let a = build_unit(&[1, 2, 3, 4, 5, 6, 7], 2);
    let b = build_unit(&[10, 200, 3000, 40000, 500000, 6000000, 70000000], 2);
    assert_eq!(a.len(), b.len());
}

#[test]
fn empty_builder_writes_an_empty_vector_of_sizes() {
    let builder: SkipListBuilder<u32> = SkipListBuilder::new(2);
    let mut output: Vec<u8> = vec![0xee];
    builder.write(&mut output).unwrap();
    assert_eq!(output, vec![0xee, 0, 0, 0, 0]);
}

#[test]
fn layers_are_written_lowest_first() {
    let output = build_u32(&[5, 6], 2);
    let expected: Vec<u8> = vec![
        0, 0, 0, 2, // two layers
        0, 0, 0, 16, // the data layer ends at 16
        0, 0, 0, 24, // the skip layer ends at 24
        0, 0, 0, 5, 0, 0, 0, 36, // (5, 36)
        0, 0, 0, 6, 0, 0, 0, 43, // (6, 43)
        0, 0, 0, 6, 0, 0, 0, 8, // the second entry starts at offset 8
    ];
    assert_eq!(output, expected);
}

#[test]
fn promotion_records_the_offset_before_the_entry() {
    let output = build_unit(&[1, 2, 3, 4, 5, 6, 7, 8, 9], 3);
    // the data layer takes 36 bytes, the first skip layer follows the header and the data layer
    let first_skip = 16 + 36;
    assert_eq!(&output[first_skip..first_skip + 8], &[0, 0, 0, 3, 0, 0, 0, 8]);
    assert_eq!(&output[first_skip + 8..first_skip + 16], &[0, 0, 0, 6, 0, 0, 0, 20]);
    assert_eq!(&output[first_skip + 16..first_skip + 24], &[0, 0, 0, 9, 0, 0, 0, 32]);
    // the second skip layer points to the third entry of the first
    assert_eq!(&output[first_skip + 24..], &[0, 0, 0, 9, 0, 0, 0, 16]);
}

#[test]
fn keys_must_ascend() {
    let mut builder: SkipListBuilder<u32> = SkipListBuilder::new(2);
    builder.insert(5, &1).unwrap();
    assert!(matches!(builder.insert(5, &2), Err(IndexError::ContractViolation(_))));
    assert!(matches!(builder.insert(4, &2), Err(IndexError::ContractViolation(_))));
    assert!(matches!(builder.insert(0, &2), Err(IndexError::ContractViolation(_))));
    builder.insert(6, &3).unwrap();
    let mut output: Vec<u8> = Vec::new();
    builder.write(&mut output).unwrap();
    assert_eq!(output, build_raw(&[(5, 1), (6, 3)], 2));
}

fn build_raw(entries: &[(u32, u32)], period: usize) -> Vec<u8> {
    let mut builder: SkipListBuilder<u32> = SkipListBuilder::new(period);
    for (key, value) in entries {
        builder.insert(*key, value).unwrap();
    }
    let mut output: Vec<u8> = Vec::new();
    builder.write(&mut output).unwrap();
    output
}

#[test]
fn the_sentinel_is_no_key() {
    let mut builder: SkipListBuilder<()> = SkipListBuilder::new(2);
    assert!(matches!(builder.insert(u32::MAX, &()), Err(IndexError::ContractViolation(_))));
    builder.insert(u32::MAX - 1, &()).unwrap();
    assert!(matches!(builder.insert(u32::MAX, &()), Err(IndexError::ContractViolation(_))));
    let mut output: Vec<u8> = Vec::new();
    builder.write(&mut output).unwrap();
    let mut list: SkipList<()> = SkipList::read(&output).unwrap();
    assert_eq!(list.next(), Some((u32::MAX - 1, ())));
    assert_eq!(list.next(), None);
}

#[test]
fn read_rejects_a_damaged_header() {
    assert!(matches!(SkipList::<u32>::read(&[]), Err(IndexError::ReadError(_))));
    assert!(matches!(SkipList::<u32>::read(&[0, 0, 0]), Err(IndexError::ReadError(_))));
    // one layer announced, its size missing
    assert!(matches!(SkipList::<u32>::read(&[0, 0, 0, 1, 0, 0]), Err(IndexError::ReadError(_))));
    // a layer of 9 bytes announced, 8 there
    let mut short = vec![0, 0, 0, 1, 0, 0, 0, 9];
    short.extend_from_slice(&[0, 0, 0, 2, 0, 0, 0, 3]);
    assert!(matches!(SkipList::<u32>::read(&short), Err(IndexError::ReadError(_))));
    // sizes that do not ascend
    let mut back = vec![0, 0, 0, 2, 0, 0, 0, 8, 0, 0, 0, 4];
    back.extend_from_slice(&[0, 0, 0, 2, 0, 0, 0, 3]);
    assert!(matches!(SkipList::<u32>::read(&back), Err(IndexError::ReadError(_))));
}

#[test]
fn read_ignores_what_follows_the_layers() {
    let mut output = build_u32(&[2], 10);
    output.extend_from_slice(&[1, 2, 3]);
    let mut list: SkipList<u32> = SkipList::read(&output).unwrap();
    assert_eq!(list.next(), Some((2, 15)));
    assert_eq!(list.next(), None);
}

#[test]
fn a_record_cut_short_ends_the_layer() {
    // one layer of 14 bytes: a whole record, then a key with half a value
    let mut data = vec![0, 0, 0, 1, 0, 0, 0, 14];
    data.extend_from_slice(&[0, 0, 0, 2, 0, 0, 0, 3]);
    data.extend_from_slice(&[0, 0, 0, 4, 0, 0]);
    let mut list: SkipList<u32> = SkipList::read(&data).unwrap();
    assert_eq!(list.next(), Some((2, 3)));
    assert_eq!(list.next(), None);
    assert_eq!(list.next(), None);
    let mut list: SkipList<u32> = SkipList::read(&data).unwrap();
    assert_eq!(list.seek(100), Some((2, 3)));
    assert_eq!(list.next(), None);
}
