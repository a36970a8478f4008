use kip_db::io_handler::{log_path, IOHandlerFactory};
use kip_db::lsm::{data_sharding, first_answer, Manifest, MetaInfo, Position, Scope, SsTableInfo, TABLE_META_INFO_SIZE};
use kip_db::{CommandData, CommandPackage, KvsError};

#[test]
fn test_meta_info() {
    let info = MetaInfo { level: 0, version: 0, data_part_len: 0, index_len: 0, crc_code: 0 };
    let vec_u8 = info.to_bytes().unwrap();
    assert_eq!(vec_u8.len(), TABLE_META_INFO_SIZE);
}

#[test]
fn footer_is_little_endian_fixed_width() {
    let info = MetaInfo { level: 1, version: 2, data_part_len: 258, index_len: 4, crc_code: 5 };
    let bytes = info.to_bytes().unwrap();
    assert_eq!(&bytes[0..8], &[1, 0, 0, 0, 0, 0, 0, 0]);
    assert_eq!(&bytes[16..24], &[2, 1, 0, 0, 0, 0, 0, 0]);
    assert_eq!(MetaInfo::from_bytes(&bytes), Ok(info));
    assert_eq!(MetaInfo::from_bytes(&bytes[..39]), Err(KvsError::SerdeBinCode));
}

#[test]
fn footer_crc_is_crc32_of_data() {
    let meta = MetaInfo::for_table(0, 0, b"123456789", 0);
    assert_eq!(meta.crc_code, 0xCBF4_3926);
    assert_eq!(meta.data_part_len, 9);
}

#[test]
fn written_table_opens_again() {
    let data = b"some data block".to_vec();
    let extra = b"extra".to_vec();
    let file = MetaInfo::write_table(&data, &extra, 2, 7).unwrap();
    assert_eq!(file.len(), data.len() + extra.len() + 40);
    let meta = MetaInfo::read_to_file(&file).unwrap();
    assert_eq!(meta.level, 2);
    assert_eq!(meta.version, 7);
    assert_eq!(meta.data_part_len, data.len() as u64);
    assert_eq!(meta.index_len, extra.len() as u64);
}

#[test]
fn corrupted_data_block_is_detected() {
    let data = b"some data block".to_vec();
    let mut file = MetaInfo::write_table(&data, b"idx", 0, 0).unwrap();
    file[3] ^= 0xff;
    assert_eq!(MetaInfo::read_to_file(&file), Err(KvsError::CrcMisMatch));
}

#[test]
fn malformed_table_files_are_refused() {
    assert_eq!(MetaInfo::read_to_file(&[0u8; 10]), Err(KvsError::SerdeBinCode));
    let mut file = MetaInfo::write_table(b"abc", b"", 0, 0).unwrap();
    file.insert(0, 1);
    assert_eq!(MetaInfo::read_to_file(&file), Err(KvsError::CrcMisMatch));
}

#[test]
fn check_crc_compares_with_footer() {
    let meta = MetaInfo { level: 0, version: 0, data_part_len: 0, index_len: 0, crc_code: 42 };
    assert_eq!(meta.check_crc(42), Ok(meta));
    assert_eq!(meta.check_crc(41), Err(KvsError::CrcMisMatch));
}

fn set(key: &[u8]) -> CommandData {
    CommandData::set(key.to_vec(), vec![b'v'])
}

#[test]
fn sharding_splits_at_file_size() {
    // each record is estimated at 1 + 1 + 10 = 12 bytes
    let data = vec![set(b"a"), set(b"b"), set(b"c")];
    let shards = data_sharding(data, 20);
    assert_eq!(shards, vec![vec![set(b"a")], vec![set(b"b"), set(b"c")]]);
    assert!(data_sharding(Vec::new(), 20).is_empty());
    let one = data_sharding(vec![set(b"a"), set(b"b")], 1000);
    assert_eq!(one, vec![vec![set(b"a"), set(b"b")]]);
}

#[test]
fn sharding_sorted_records_gives_disjoint_scopes() {
    let data: Vec<CommandData> = (0..10_000u32)
        .map(|i| CommandData::set(format!("key_{i:06}").into_bytes(), vec![b'x'; 8]))
        .collect();
    let shards = data_sharding(data.clone(), 4096);
    assert!(shards.len() > 1);
    assert_eq!(shards.concat(), data);
    let scopes: Vec<Scope> = shards.iter().map(|s| Scope::from_data(s).unwrap()).collect();
    for w in scopes.windows(2) {
        assert!(w[0].end < w[1].start);
        assert!(!w[0].meet(&w[1]));
    }
}

#[test]
fn scope_bounds_and_meeting() {
    let data = vec![set(b"b"), set(b"d"), set(b"f")];
    let scope = Scope::from_data(&data).unwrap();
    assert_eq!(scope.start, b"b".to_vec());
    assert_eq!(scope.end, b"f".to_vec());
    assert!(scope.contains(b"c"));
    assert!(scope.contains(b"f"));
    assert!(!scope.contains(b"g"));
    assert!(!scope.contains(b"a"));
    assert!(scope.meet(&Scope { start: b"f".to_vec(), end: b"z".to_vec() }));
    assert!(!scope.meet(&Scope { start: b"fa".to_vec(), end: b"z".to_vec() }));
    assert!(scope.meet(&Scope::from_key(b"e")));
    assert!(Scope::from_data(&Vec::new()).is_none());
}

#[test]
fn sparse_index_picks_last_key_not_above() {
    let index = vec![
        (b"a".to_vec(), Position { start: 0, len: 10 }),
        (b"m".to_vec(), Position { start: 10, len: 10 }),
        (b"t".to_vec(), Position { start: 20, len: 10 }),
    ];
    assert_eq!(Position::from_sparse_index_with_key(&index, b"n"), Some(Position { start: 10, len: 10 }));
    assert_eq!(Position::from_sparse_index_with_key(&index, b"m"), Some(Position { start: 10, len: 10 }));
    assert_eq!(Position::from_sparse_index_with_key(&index, b"zz"), Some(Position { start: 20, len: 10 }));
    assert_eq!(Position::from_sparse_index_with_key(&index, b"0"), None);
}

fn table(gen: i64, level: usize, start: &[u8], end: &[u8]) -> SsTableInfo {
    SsTableInfo { gen, level, size_of_disk: 100, scope: Scope { start: start.to_vec(), end: end.to_vec() } }
}

#[test]
fn manifest_rejects_bad_configuration() {
    assert!(matches!(Manifest::new(vec![table(1, 0, b"a", b"b")], 0), Err(KvsError::CacheSizeOverFlow)));
    assert!(matches!(Manifest::new(vec![table(1, 7, b"a", b"b")], 8), Err(KvsError::LevelOver)));
}

#[test]
fn manifest_layers_and_queries_levels() {
    let tables = vec![
        table(1, 0, b"a", b"z"),
        table(2, 1, b"a", b"f"),
        table(3, 1, b"g", b"p"),
        table(4, 0, b"c", b"d"),
        table(5, 2, b"a", b"z"),
    ];
    let mut m = Manifest::new(tables, 16).unwrap();
    assert_eq!(m.get_level_vec(0), &vec![1, 4]);
    assert_eq!(m.get_level_vec(1), &vec![2, 3]);
    assert_eq!(m.get_level_vec(2), &vec![5]);
    assert_eq!(m.get_data_for_ss_tables(b"h"), vec![4, 1, 3, 5]);
    assert_eq!(m.get_data_for_ss_tables(b"b"), vec![4, 1, 2, 5]);
    assert_eq!(m.get_index(1, 3), Some(1));
    assert_eq!(m.get_index(1, 9), None);
    assert_eq!(m.get_ss_table(3).unwrap().scope.start, b"g".to_vec());
    assert!(m.get_ss_table(8).is_none());

    let hit = m.get_meet_scope_ss_tables(1, &Scope { start: b"e".to_vec(), end: b"h".to_vec() });
    assert_eq!(hit, vec![2, 3]);
    // a table is taken at most once per round
    let again = m.get_meet_scope_ss_tables(1, &Scope { start: b"e".to_vec(), end: b"h".to_vec() });
    assert!(again.is_empty());

    m.insert_ss_table_with_index(table(6, 1, b"q", b"s"), 2);
    assert_eq!(m.get_level_vec(1), &vec![2, 3, 6]);
    m.insert_ss_table_with_index_batch(vec![table(7, 2, b"a", b"b"), table(8, 2, b"c", b"d")], 0);
    assert_eq!(m.get_level_vec(2), &vec![7, 8, 5]);

    m.retain_with_vec_gen_and_level(&[2, 5, 1]);
    assert_eq!(m.get_level_vec(0), &vec![4]);
    assert_eq!(m.get_level_vec(1), &vec![3, 6]);
    assert_eq!(m.get_level_vec(2), &vec![7, 8]);
    assert!(m.get_ss_table(2).is_none());
}

#[test]
fn major_threshold_grows_per_level() {
    let tables: Vec<SsTableInfo> = (0..5).map(|g| table(g, 1, b"a", b"b")).collect();
    let m = Manifest::new(tables, 4).unwrap();
    // level 1 holds 5 tables; its bound is 2^1 * 2 = 4
    assert!(m.is_threshold_exceeded_major(2, 1, 2));
    // with 10 as factor the bound is 10 * 1 = 10
    assert!(!m.is_threshold_exceeded_major(10, 1, 1));
    assert!(!m.is_threshold_exceeded_major(usize::MAX, 1, usize::MAX));
    // level 0 is empty
    assert!(!m.is_threshold_exceeded_major(0, 0, 0));
    assert!(m.is_threshold_exceeded_major(0, 1, 7));
}

#[test]
fn log_file_names() {
    assert_eq!(log_path(5), "5.log");
    assert_eq!(log_path(-12), "-12.log");
    let factory = IOHandlerFactory::new("/tmp/data".to_string());
    assert_eq!(factory.get_dir_path(), "/tmp/data");
}

#[test]
fn gen_names_parse_and_sort() {
    let stems: Vec<String> = ["10", "2", "x", "", "+3", "-4", "007", "99999999999999999999", "1a"]
        .iter()
        .map(|s| s.to_string())
        .collect();
    assert_eq!(kip_db::io_handler::sorted_gen_list(&stems), vec![-4, 2, 3, 7, 10]);
}

#[test]
fn deeper_levels_are_ordered_by_least_key() {
    let tables = vec![
        table(1, 1, b"m", b"p"),
        table(2, 1, b"c", b"f"),
        table(3, 0, b"x", b"z"),
        table(4, 1, b"g", b"h"),
        table(5, 0, b"a", b"b"),
    ];
    let m = Manifest::new(tables, 1).unwrap();
    assert_eq!(m.get_level_vec(0), &vec![3, 5]);
    assert_eq!(m.get_level_vec(1), &vec![2, 4, 1]);
    assert_eq!(m.get_vec_ss_table_with_level(1), vec![2, 4, 1]);
    assert_eq!(m.get_data_for_ss_tables(b"g"), vec![5, 3, 4]);
}

#[test]
fn table_records_survive_write_and_open() {
    let payloads: Vec<Vec<u8>> = vec![b"first".to_vec(), b"second".to_vec(), b"third".to_vec()];
    let mut data = Vec::new();
    for p in &payloads {
        data.extend(CommandPackage::trans_to_vec_u8(p));
    }
    let file = MetaInfo::write_table(&data, b"sparse index", 1, 3).unwrap();
    let meta = MetaInfo::read_to_file(&file).unwrap();
    let block = &file[..meta.data_part_len as usize];
    assert_eq!(CommandPackage::get_vec_bytes(block), payloads);
}

#[test]
fn manifest_tracks_disk_size() {
    let mut m = Manifest::new(vec![table(1, 0, b"a", b"b"), table(2, 1, b"a", b"b")], 4).unwrap();
    assert_eq!(m.size_of_disk(), 200);
    m.insert_ss_table_with_index(table(3, 1, b"c", b"d"), 1);
    assert_eq!(m.size_of_disk(), 300);
    m.retain_with_vec_gen_and_level(&[1, 9]);
    assert_eq!(m.size_of_disk(), 200);
}

#[test]
fn merge_keeps_newer_records() {
    let rec = |k: &[u8], v: &[u8]| CommandData::set(k.to_vec(), v.to_vec());
    let newer = vec![rec(b"a", b"1"), CommandData::remove(b"c".to_vec())];
    let older = vec![rec(b"a", b"0"), rec(b"b", b"0"), rec(b"c", b"0"), rec(b"d", b"0")];
    let merged = kip_db::lsm::merge_by_key(newer, older);
    assert_eq!(
        merged,
        vec![rec(b"a", b"1"), rec(b"b", b"0"), CommandData::remove(b"c".to_vec()), rec(b"d", b"0")]
    );
    assert_eq!(kip_db::lsm::merge_by_key(Vec::new(), vec![rec(b"x", b"0")]), vec![rec(b"x", b"0")]);
    assert!(kip_db::lsm::merge_by_key(Vec::new(), Vec::new()).is_empty());
}

#[test]
fn lookup_takes_first_answer() {
        let set = |v: &[u8]| Some(CommandData::set(b"k".to_vec(), v.to_vec()));
    // the newest table answers first
    assert_eq!(first_answer(&vec![None, set(b"new"), set(b"old")]), Some(b"new".to_vec()));
    // a tombstone hides older values
    assert_eq!(first_answer(&vec![Some(CommandData::remove(b"k".to_vec())), set(b"old")]), None);
    assert_eq!(first_answer(&vec![None, None]), None);
    assert_eq!(first_answer(&Vec::new()), None);
}

#[test]
fn block_cache_keeps_recent_blocks() {
    let mut m = Manifest::new(vec![table(1, 0, b"a", b"b")], 1).unwrap();
    let p1 = Position { start: 0, len: 10 };
    let p2 = Position { start: 10, len: 10 };
    assert_eq!(m.cached_block(1, p1), None);
    m.cache_block(1, p1, vec![set(b"a")]);
    assert_eq!(m.cached_block(1, p1), Some(vec![set(b"a")]));
    // capacity one: the new block evicts the old one
    m.cache_block(1, p2, vec![set(b"b")]);
    assert_eq!(m.cached_block(1, p2), Some(vec![set(b"b")]));
    assert_eq!(m.cached_block(1, p1), None);
}

#[test]
fn shards_get_their_generations() {
    let shards = data_sharding(vec![set(b"a"), set(b"b"), set(b"c")], 20);
    let with_gens = kip_db::lsm::assign_gens(shards, &vec![11, 12]);
    assert_eq!(with_gens, vec![(11, vec![set(b"a")]), (12, vec![set(b"b"), set(b"c")])]);
}
