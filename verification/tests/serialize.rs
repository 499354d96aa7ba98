use segment_index::error::IndexError;
use segment_index::serialize::{deserialize_vec, serialize_slice, serialize_vec, BinarySerializable};

#[test]
fn u32_is_written_big_endian() {
    let mut out: Vec<u8> = vec![9];
    0x0102_0304u32.serialize(&mut out);
    assert_eq!(out, vec![9, 1, 2, 3, 4]);
    u32::MAX.serialize(&mut out);
    assert_eq!(out, vec![9, 1, 2, 3, 4, 255, 255, 255, 255]);
    0u32.serialize(&mut out);
    assert_eq!(out.len(), 13);
    assert_eq!(&out[9..], &[0, 0, 0, 0]);
}

#[test]
fn u32_is_read_big_endian() {
    let data: Vec<u8> = vec![7, 0, 0, 1, 0, 0xde, 0xad, 0xbe, 0xef];
    assert_eq!(u32::deserialize(&data, 1).unwrap(), (256, 5));
    assert_eq!(u32::deserialize(&data, 5).unwrap(), (0xdead_beef, 9));
    assert_eq!(u32::deserialize(&data, 0).unwrap(), (0x0700_0001, 4));
}

#[test]
fn u32_read_needs_four_bytes() {
    let data: Vec<u8> = vec![1, 2, 3, 4, 5];
    assert!(matches!(u32::deserialize(&data, 2), Err(IndexError::ReadError(_))));
    assert!(matches!(u32::deserialize(&data, 5), Err(IndexError::ReadError(_))));
    assert!(matches!(u32::deserialize(&data, 6), Err(IndexError::ReadError(_))));
    assert!(u32::deserialize(&data, 1).is_ok());
}

#[test]
fn u32_round_trip() {
    for n in [0u32, 1, 255, 256, 65535, 65536, 0x00ff_ff00, 0x8000_0000, u32::MAX] {
        let mut out: Vec<u8> = Vec::new();
        n.serialize(&mut out);
        out.push(0x55);
        assert_eq!(u32::deserialize(&out, 0).unwrap(), (n, 4));
    }
}

#[test]
fn unit_takes_no_bytes() {
    let mut out: Vec<u8> = vec![1, 2];
    ().serialize(&mut out);
    assert_eq!(out, vec![1, 2]);
    assert_eq!(<()>::deserialize(&out, 1).unwrap(), ((), 1));
    assert_eq!(<()>::deserialize(&out, 2).unwrap(), ((), 2));
    assert!(matches!(<()>::deserialize(&out, 3), Err(IndexError::ReadError(_))));
}

#[test]
fn vector_is_length_then_elements() {
    let mut out: Vec<u8> = Vec::new();
    serialize_vec(&vec![1u32, 0x0100], &mut out).unwrap();
    assert_eq!(out, vec![0, 0, 0, 2, 0, 0, 0, 1, 0, 0, 1, 0]);
    let mut empty: Vec<u8> = Vec::new();
    serialize_vec(&Vec::<u32>::new(), &mut empty).unwrap();
    assert_eq!(empty, vec![0, 0, 0, 0]);
    let mut units: Vec<u8> = Vec::new();
    serialize_slice(&[(), (), ()], &mut units).unwrap();
    assert_eq!(units, vec![0, 0, 0, 3]);
}

#[test]
fn vector_round_trip() {
    let values: Vec<u32> = (0..100).map(|i| i * 40_000_000).collect();
    let mut out: Vec<u8> = vec![0xaa];
    serialize_vec(&values, &mut out).unwrap();
    out.push(0xbb);
    let (back, end) = deserialize_vec::<u32>(&out, 1).unwrap();
    assert_eq!(back, values);
    assert_eq!(end, 1 + 4 + 400);
    let (units, end) = deserialize_vec::<()>(&[0, 0, 0, 5], 0).unwrap();
    assert_eq!(units.len(), 5);
    assert_eq!(end, 4);
}

#[test]
fn vector_read_needs_every_element() {
    let data: Vec<u8> = vec![0, 0, 0, 2, 0, 0, 0, 1, 0, 0, 1];
    assert!(matches!(deserialize_vec::<u32>(&data, 0), Err(IndexError::ReadError(_))));
    assert!(matches!(deserialize_vec::<u32>(&data[..3], 0), Err(IndexError::ReadError(_))));
    assert!(matches!(deserialize_vec::<u32>(&data, 20), Err(IndexError::ReadError(_))));
    assert!(matches!(deserialize_vec::<u32>(&data, 4), Err(IndexError::ReadError(_))));
    assert_eq!(deserialize_vec::<u32>(&[9, 0, 0, 0, 0, 9], 1).unwrap(), (vec![], 5));
}

#[test]
fn vector_longer_than_a_u32_can_count_is_not_written() {
    let units = [(); (u32::MAX as usize) + 1];
    let mut out: Vec<u8> = vec![7];
    assert!(matches!(serialize_slice(&units[..], &mut out), Err(IndexError::WriteError(_))));
    assert_eq!(out, vec![7]);
}

#[test]
fn error_carries_its_message() {
    let e = IndexError::WriteError(String::from("disk full"));
    assert_eq!(e.message(), "disk full");
    assert_eq!(IndexError::ReadError(String::from("cut")).message(), "cut");
    assert_eq!(IndexError::ContractViolation(String::from("order")).message(), "order");
}
