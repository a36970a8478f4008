use kip_db::command::{copy_bytes, same_bytes, FRAME_HEADER_LEN};
use kip_db::{CommandData, CommandPackage, CommandPos, ConnectionError, KvsError};

#[test]
fn frame_prefixes_big_endian_length() {
    let framed = CommandPackage::trans_to_vec_u8(&[7u8, 8, 9]);
    assert_eq!(framed, vec![0, 0, 0, 3, 7, 8, 9]);
    let long = vec![1u8; 300];
    let framed = CommandPackage::trans_to_vec_u8(&long);
    assert_eq!(&framed[..FRAME_HEADER_LEN], &[0, 0, 1, 44]);
    assert_eq!(framed.len(), 304);
}

#[test]
fn from_4_bit_reads_big_endian() {
    assert_eq!(CommandPackage::from_4_bit_with_start(&[0, 0, 1, 2]), 258);
    assert_eq!(CommandPackage::from_4_bit_with_start(&[1, 0, 0, 0, 9]), 16777216);
}

#[test]
fn scan_of_frames_gives_payloads_back() {
    let payloads: Vec<Vec<u8>> = vec![vec![1], vec![2, 3], vec![4, 5, 6, 7]];
    let mut bytes = Vec::new();
    for p in &payloads {
        bytes.extend(CommandPackage::trans_to_vec_u8(p));
    }
    assert_eq!(CommandPackage::get_vec_bytes(&bytes), payloads);
    assert_eq!(CommandPackage::get_vec_spans(&bytes), vec![(4, 1), (9, 2), (15, 4)]);
}

#[test]
fn scan_stops_at_inconsistent_header() {
    // a zero length stops the scan
    let mut bytes = CommandPackage::trans_to_vec_u8(&[1, 2]);
    bytes.extend([0, 0, 0, 0, 9]);
    bytes.extend(CommandPackage::trans_to_vec_u8(&[3]));
    assert_eq!(CommandPackage::get_vec_bytes(&bytes), vec![vec![1, 2]]);
    // a length beyond the end stops the scan
    let mut bytes = CommandPackage::trans_to_vec_u8(&[1]);
    bytes.extend([0, 0, 0, 9, 1, 2]);
    assert_eq!(CommandPackage::get_vec_bytes(&bytes), vec![vec![1]]);
    // fewer than five bytes hold no frame
    assert!(CommandPackage::get_vec_bytes(&[0, 0, 0, 1]).is_empty());
    assert!(CommandPackage::get_vec_bytes(&[]).is_empty());
}

#[test]
fn batch_frames_every_shard() {
    let shards = vec![vec![vec![1u8], vec![2u8, 3]], vec![vec![4u8]]];
    let (bytes, lens) = CommandPackage::write_batch_first_pos_with_sharding(&shards);
    assert_eq!(lens, vec![11, 5]);
    assert_eq!(bytes, vec![0, 0, 0, 1, 1, 0, 0, 0, 2, 2, 3, 0, 0, 0, 1, 4]);
}

#[test]
fn payload_span_drops_header() {
    assert_eq!(CommandPackage::payload_span(100, 20), (104, 16));
}

#[test]
fn command_accessors() {
    let set = CommandData::set(b"k".to_vec(), b"value".to_vec());
    assert_eq!(set.get_key(), &b"k".to_vec());
    assert_eq!(set.get_key_clone(), b"k".to_vec());
    assert_eq!(set.get_value(), Some(&b"value".to_vec()));
    assert_eq!(set.get_value_clone(), Some(b"value".to_vec()));
    assert_eq!(set.get_cmd_len_for_rmp(), 10);
    assert_eq!(set.get_data_len_for_rmp(), 16);
    assert_eq!(set.clone().get_value_owner(), Some(b"value".to_vec()));
    assert_eq!(set.get_key_owner(), b"k".to_vec());

    let remove = CommandData::remove(b"ab".to_vec());
    assert_eq!(remove.get_value(), None);
    assert_eq!(remove.get_cmd_len_for_rmp(), 12);
    assert_eq!(remove.get_data_len_for_rmp(), 14);

    let get = CommandData::get(b"abc".to_vec());
    assert_eq!(get.get_value_clone(), None);
    assert_eq!(get.get_data_len_for_rmp(), 12);
}

#[test]
fn lookup_result_of_records() {
    let set = CommandData::set(b"k".to_vec(), b"v".to_vec());
    assert_eq!(set.into_lookup_result(), Ok(b"v".to_vec()));
    let remove = CommandData::remove(b"k".to_vec());
    assert_eq!(remove.into_lookup_result(), Err(KvsError::UnexpectedCommandType));
}

#[test]
fn command_pos_change() {
    let mut pos = CommandPos { gen: 1, pos: 2, len: 3 };
    pos.change(7, 8, 9);
    assert_eq!(pos, CommandPos { gen: 7, pos: 8, len: 9 });
}

#[test]
fn byte_helpers() {
    assert_eq!(copy_bytes(&[1, 2, 3]), vec![1, 2, 3]);
    assert!(same_bytes(&[1, 2], &[1, 2]));
    assert!(!same_bytes(&[1, 2], &[1, 3]));
    assert!(!same_bytes(&[1], &[1, 2]));
}

#[test]
fn connection_error_wraps_store_error() {
    assert_eq!(
        ConnectionError::from(KvsError::KeyNotFound),
        ConnectionError::KvStoreError(KvsError::KeyNotFound)
    );
}

#[test]
fn package_new_keeps_fields() {
    let p = CommandPackage::new(CommandData::get(vec![1]), 5, 6);
    assert_eq!(p.pos, 5);
    assert_eq!(p.len, 6);
    assert_eq!(p.cmd, CommandData::get(vec![1]));
}
