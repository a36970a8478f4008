use kip_db::hash_kv::{Manifest, DEFAULT_COMPACTION_THRESHOLD};
use kip_db::{CommandData, CommandPackage, CommandPos, KvsError};

fn pos(gen: i64, pos: u64, len: usize) -> CommandPos {
    CommandPos { gen, pos, len }
}

#[test]
fn new_manifest_writes_to_last_gen() {
    let m = Manifest::new(DEFAULT_COMPACTION_THRESHOLD, &vec![1, 4, 9]);
    assert_eq!(m.current_gen(), 9);
    assert!(m.has_gen(1) && m.has_gen(4) && m.has_gen(9));
    assert!(!m.has_gen(2));
    assert!(m.is_empty());
    let m = Manifest::new(DEFAULT_COMPACTION_THRESHOLD, &vec![]);
    assert_eq!(m.current_gen(), 0);
    assert!(m.has_gen(0));
}

#[test]
fn basic_round_trip() {
    let mut m = Manifest::new(1024, &vec![]);
    assert!(!m.record_set(b"k1".to_vec(), 4, 10));
    assert!(!m.record_set(b"k2".to_vec(), 18, 10));
    assert_eq!(m.get_pos_with_key(b"k1"), Some(pos(0, 4, 10)));
    assert_eq!(m.get_pos_with_key(b"k2"), Some(pos(0, 18, 10)));
    assert_eq!(m.len(), 2);
    let mut keys = m.clone_index_keys();
    keys.sort();
    assert_eq!(keys, vec![b"k1".to_vec(), b"k2".to_vec()]);
}

#[test]
fn overwrite_keeps_one_entry() {
    let mut m = Manifest::new(1024, &vec![]);
    m.record_set(b"k".to_vec(), 4, 9);
    m.record_set(b"k".to_vec(), 17, 9);
    assert_eq!(m.get_pos_with_key(b"k"), Some(pos(0, 17, 9)));
    assert_eq!(m.len(), 1);
    assert_eq!(m.un_compacted(), 9);
}

#[test]
fn remove_then_remove_again() {
    let mut m = Manifest::new(1024, &vec![]);
    m.record_set(b"k".to_vec(), 4, 9);
    assert_eq!(m.check_remove(b"k"), Ok(()));
    assert_eq!(m.remove_key_with_pos(b"k"), Some(pos(0, 4, 9)));
    assert_eq!(m.get_pos_with_key(b"k"), None);
    assert_eq!(m.check_remove(b"k"), Err(KvsError::KeyNotFound));
    assert_eq!(m.remove_key_with_pos(b"k"), None);
    assert!(m.is_empty());
}

#[test]
fn threshold_trips_on_superseded_bytes() {
    let mut m = Manifest::new(20, &vec![]);
    assert!(!m.record_set(b"a".to_vec(), 4, 15));
    assert!(!m.record_set(b"a".to_vec(), 23, 15));
    assert!(m.record_set(b"a".to_vec(), 42, 15));
    assert!(m.is_threshold_exceeded());
    m.un_compacted_add(u64::MAX);
    assert_eq!(m.un_compacted(), u64::MAX);
}

#[test]
fn load_replays_records_in_order() {
    let mut m = Manifest::new(1024, &vec![3]);
    let packages = vec![
        CommandPackage::new(CommandData::set(b"a".to_vec(), b"1".to_vec()), 4, 8),
        CommandPackage::new(CommandData::set(b"b".to_vec(), b"2".to_vec()), 16, 8),
        CommandPackage::new(CommandData::set(b"a".to_vec(), b"3".to_vec()), 28, 8),
        CommandPackage::new(CommandData::remove(b"b".to_vec()), 40, 6),
        CommandPackage::new(CommandData::get(b"a".to_vec()), 50, 6),
    ];
    m.load(3, &packages);
    assert_eq!(m.get_pos_with_key(b"a"), Some(pos(3, 28, 8)));
    assert_eq!(m.get_pos_with_key(b"b"), None);
    assert_eq!(m.len(), 1);
    // each superseded or dropped entry counts its length plus one
    assert_eq!(m.un_compacted(), 18);
}

#[test]
fn reopen_finds_the_value_set() {
    // a store writes one record, is closed, and is opened again from its log
    let payload = vec![9u8; 12];
    let framed = CommandPackage::trans_to_vec_u8(&payload);
    let mut first = Manifest::new(1024, &vec![]);
    let (p, l) = CommandPackage::payload_span(0, framed.len());
    first.record_set(b"key".to_vec(), p, l);

    let spans = CommandPackage::get_vec_spans(&framed);
    assert_eq!(spans, vec![(4, 12)]);
    let packages: Vec<CommandPackage> = spans
        .iter()
        .map(|&(start, len)| {
            CommandPackage::new(CommandData::set(b"key".to_vec(), b"v".to_vec()), start as u64, len)
        })
        .collect();
    let mut reopened = Manifest::new(1024, &vec![0]);
    reopened.load(0, &packages);
    assert_eq!(reopened.get_pos_with_key(b"key"), first.get_pos_with_key(b"key"));
}

#[test]
fn last_write_wins_over_a_sequence() {
    let mut m = Manifest::new(1 << 20, &vec![]);
    m.record_set(b"x".to_vec(), 4, 5);
    m.remove_key_with_pos(b"x");
    m.record_set(b"x".to_vec(), 20, 5);
    m.record_set(b"y".to_vec(), 30, 5);
    m.remove_key_with_pos(b"y");
    assert_eq!(m.get_pos_with_key(b"x"), Some(pos(0, 20, 5)));
    assert_eq!(m.get_pos_with_key(b"y"), None);
}

#[test]
fn sort_by_last_orders_by_gen_then_pos() {
    let mut m = Manifest::new(1 << 20, &vec![1, 2]);
    m.insert_command_pos(b"c".to_vec(), pos(2, 4, 3));
    m.insert_command_pos(b"a".to_vec(), pos(1, 50, 3));
    m.insert_command_pos(b"b".to_vec(), pos(1, 8, 3));
    let sorted = m.sort_by_last_vec();
    let keys: Vec<Vec<u8>> = sorted.iter().map(|e| e.0.clone()).collect();
    assert_eq!(keys, vec![b"b".to_vec(), b"a".to_vec(), b"c".to_vec()]);
    assert_eq!(sorted[1].1, pos(1, 50, 3));
}

#[test]
fn max_new_pos_finds_first_near_end() {
    let v = vec![pos(0, 0, 4), pos(0, 100, 4), pos(0, 900, 4), pos(0, 1000, 4)];
    assert_eq!(Manifest::get_max_new_pos(&v, 1004, 200), 2);
    assert_eq!(Manifest::get_max_new_pos(&v, 1004, 1), 0);
    assert_eq!(Manifest::get_max_new_pos(&v, 1004, 5000), 0);
    let later = vec![pos(0, 2000, 4)];
    assert_eq!(Manifest::get_max_new_pos(&later, 1004, 1), 0);
}

#[test]
fn compaction_moves_everything_past_old_gens() {
    let threshold = 1024;
    let mut m = Manifest::new(threshold, &vec![]);
    let mut tripped = false;
    let mut at: u64 = 4;
    for round in 0..2 {
        for i in 0..1000 {
            let key = format!("key_{i}").into_bytes();
            let len = if round == 0 { 10 + i % 10 } else { 10 };
            tripped |= m.record_set(key, at, len);
            at += len as u64 + 4;
        }
    }
    assert!(tripped);
    assert_eq!(m.len(), 1000);

    let compact_gen = m.compaction_increment();
    assert_eq!(compact_gen, 1);
    assert_eq!(m.current_gen(), 2);
    let plan = m.sort_by_last_vec();
    assert_eq!(plan.len(), 1000);
    let mut moved = Vec::new();
    let mut new_at: u64 = 4;
    for (key, p) in &plan {
        moved.push((key.clone(), pos(compact_gen, new_at, p.len)));
        new_at += p.len as u64 + 4;
    }
    m.update_positions(&moved);
    let stale = m.retain(compact_gen);
    assert_eq!(stale, vec![0]);
    assert!(!m.has_gen(0) && m.has_gen(1) && m.has_gen(2));
    assert_eq!(m.len(), 1000);
    for i in 0..1000 {
        let key = format!("key_{i}").into_bytes();
        let p = m.get_pos_with_key(&key).unwrap();
        assert!(p.gen >= compact_gen);
        assert_eq!(p.len, 10);
    }
}

#[test]
fn retain_drops_entries_of_stale_gens() {
    let mut m = Manifest::new(1024, &vec![0, 1, 2]);
    m.insert_command_pos(b"old".to_vec(), pos(0, 4, 3));
    m.insert_command_pos(b"new".to_vec(), pos(2, 4, 3));
    let mut stale = m.retain(1);
    stale.sort();
    assert_eq!(stale, vec![0]);
    assert_eq!(m.get_pos_with_key(b"old"), None);
    assert_eq!(m.get_pos_with_key(b"new"), Some(pos(2, 4, 3)));
}

#[test]
fn update_positions_skips_dead_keys() {
    let mut m = Manifest::new(1024, &vec![]);
    m.insert_command_pos(b"live".to_vec(), pos(0, 4, 3));
    m.update_positions(&vec![(b"live".to_vec(), pos(1, 4, 3)), (b"dead".to_vec(), pos(1, 11, 3))]);
    assert_eq!(m.get_pos_with_key(b"live"), Some(pos(1, 4, 3)));
    assert_eq!(m.get_pos_with_key(b"dead"), None);
}
