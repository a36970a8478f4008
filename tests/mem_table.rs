use kip_db::mem_table::MemTable;
use kip_db::CommandData;

#[test]
fn memtable_last_write_wins() {
    let mut t = MemTable::new();
    assert!(t.mem_table_is_empty());
    t.insert_data(b"k1".to_vec(), CommandData::set(b"k1".to_vec(), b"v1".to_vec()));
    t.insert_data(b"k2".to_vec(), CommandData::set(b"k2".to_vec(), b"v2".to_vec()));
    t.insert_data(b"k1".to_vec(), CommandData::set(b"k1".to_vec(), b"v3".to_vec()));
    assert_eq!(t.mem_table_len(), 2);
    assert_eq!(
        t.get_cmd_data(b"k1").and_then(|c| c.get_value_owner()),
        Some(b"v3".to_vec())
    );
    t.insert_data(b"k2".to_vec(), CommandData::remove(b"k2".to_vec()));
    assert_eq!(t.get_cmd_data(b"k2"), Some(CommandData::remove(b"k2".to_vec())));
    assert_eq!(t.get_cmd_data(b"k3"), None);
}

#[test]
fn memtable_counts_bytes_and_swaps() {
    let mut t = MemTable::new();
    // 2 key bytes + (2 + 2 + 10) record bytes
    t.insert_data(b"bb".to_vec(), CommandData::set(b"bb".to_vec(), b"vv".to_vec()));
    assert!(t.is_threshold_exceeded_minor(15));
    assert!(!t.is_threshold_exceeded_minor(16));
    t.insert_data(b"aa".to_vec(), CommandData::set(b"aa".to_vec(), b"ww".to_vec()));
    let (keys, values) = t.table_swap();
    assert_eq!(keys, vec![b"aa".to_vec(), b"bb".to_vec()]);
    assert_eq!(values[0], CommandData::set(b"aa".to_vec(), b"ww".to_vec()));
    assert!(t.mem_table_is_empty());
    assert!(!t.is_threshold_exceeded_minor(0));
    // the immutable table still answers reads
    assert_eq!(
        t.get_cmd_data(b"bb").and_then(|c| c.get_value_owner()),
        Some(b"vv".to_vec())
    );
}
