use vstd::prelude::*;
use crate::command::CommandData;
use crate::lsm::lex_lt;

verus! {

/// A sorted map from key to its latest record.
pub type MemMap = skiplist::SkipMap<Vec<u8>, CommandData>;

#[verifier::external_type_specification]
#[verifier::external_body]
#[verifier::reject_recursive_types(K)]
#[verifier::reject_recursive_types(V)]
pub struct ExSkipMap<K, V>(skiplist::SkipMap<K, V>);

/// What a record says about its key: its kind (0 for a `Set`, 1 for a
/// `Remove`, 2 for a `Get`) and the value of a `Set`.
pub open spec fn cmd_model(c: CommandData) -> (int, Option<Seq<u8>>) {
    match c {
        CommandData::Put { value, .. } => (0, Some(value@)),
        CommandData::Remove { .. } => (1, None),
        CommandData::Get { .. } => (2, None),
    }
}

/// What a skip map holds: each key with what its record says.
pub uninterp spec fn mem_contents(m: MemMap) -> Map<Seq<u8>, (int, Option<Seq<u8>>)>;

/// Relies on `SkipMap::new`: a map with no entries.
#[verifier::external_body]
fn mem_map_new() -> (r: MemMap)
    ensures
        mem_contents(r).dom() == Set::<Seq<u8>>::empty(),
{
    skiplist::SkipMap::new()
}

/// Relies on `SkipMap::insert`: the key is bound to the value, replacing
/// what it was bound to; keys are equal when `Ord` says so, which for
/// byte vectors means equal contents.
#[verifier::external_body]
fn mem_map_insert(m: &mut MemMap, key: Vec<u8>, value: CommandData)
    ensures
        mem_contents(*final(m)) == mem_contents(*old(m)).insert(key@, cmd_model(value)),
{
    let _ = m.insert(key, value);
}

/// Relies on `SkipMap::get`: the value bound to the key, if any; the
/// record is handed out as a copy.
#[verifier::external_body]
fn mem_map_get(m: &MemMap, key: &[u8]) -> (r: Option<CommandData>)
    ensures
        match r {
            Some(c) => mem_contents(*m).contains_key(key@) && mem_contents(*m)[key@] == cmd_model(c),
            None => !mem_contents(*m).contains_key(key@),
        },
{
    m.get(key).cloned()
}

/// Relies on `SkipMap::len`: the number of distinct keys.
#[verifier::external_body]
fn mem_map_len(m: &MemMap) -> (r: usize)
    ensures
        r == mem_contents(*m).dom().len(),
{
    m.len()
}

/// Relies on `SkipMap::iter`: every entry once, in ascending key order;
/// keys and records are handed out as copies.
#[verifier::external_body]
fn mem_map_entries(m: &MemMap) -> (r: (Vec<Vec<u8>>, Vec<CommandData>))
    ensures
        r.0@.len() == r.1@.len(),
        r.0@.len() == mem_contents(*m).dom().len(),
        forall|i: int|
            0 <= i < r.0@.len() ==> mem_contents(*m).contains_key((#[trigger] r.0@[i])@)
                && mem_contents(*m)[r.0@[i]@] == cmd_model(r.1@[i]),
        forall|i: int, j: int|
            0 <= i < j < r.0@.len() ==> lex_lt((#[trigger] r.0@[i])@, (#[trigger] r.0@[j])@),
{
    m.iter().map(|(k, v)| (k.clone(), v.clone())).unzip()
}

/// The active table, which takes writes, and the immutable table, which
/// waits to be written out; each with its estimated size in bytes.
pub struct MemTable {
    mem_table: MemMap,
    mem_occupied: u64,
    immut_table: MemMap,
    immut_occupied: u64,
}

/// Estimated bytes that an entry takes: its key and its record.
pub open spec fn entry_len(key: Seq<u8>, value: CommandData) -> int {
    (key.len() + value.data_len_spec()) as int
}

impl MemTable {
    pub closed spec fn active_view(&self) -> Map<Seq<u8>, (int, Option<Seq<u8>>)> {
        mem_contents(self.mem_table)
    }

    pub closed spec fn immutable_view(&self) -> Map<Seq<u8>, (int, Option<Seq<u8>>)> {
        mem_contents(self.immut_table)
    }

    pub closed spec fn occupied_view(&self) -> u64 {
        self.mem_occupied
    }

    /// Estimated size in bytes of the immutable table.
    pub closed spec fn immutable_occupied_view(&self) -> u64 {
        self.immut_occupied
    }

    /// Empty tables.
    pub fn new() -> (r: MemTable)
        ensures
            r.active_view() == Map::<Seq<u8>, (int, Option<Seq<u8>>)>::empty(),
            r.immutable_view() == Map::<Seq<u8>, (int, Option<Seq<u8>>)>::empty(),
            r.occupied_view() == 0,
            r.immutable_occupied_view() == 0,
    {
        let r = MemTable {
            mem_table: mem_map_new(),
            mem_occupied: 0,
            immut_table: mem_map_new(),
            immut_occupied: 0,
        };
        assert(r.active_view() =~= Map::<Seq<u8>, (int, Option<Seq<u8>>)>::empty());
        assert(r.immutable_view() =~= Map::<Seq<u8>, (int, Option<Seq<u8>>)>::empty());
        r
    }

    /// Binds `key` to `value` in the active table and counts its size.
    pub fn insert_data(&mut self, key: Vec<u8>, value: CommandData)
        requires
            entry_len(key@, value) <= usize::MAX,
        ensures
            final(self).active_view() == old(self).active_view().insert(key@, cmd_model(value)),
            final(self).immutable_view() == old(self).immutable_view(),
            final(self).occupied_view() == crate::hash_kv::sat_add(
                old(self).occupied_view(),
                entry_len(key@, value),
            ),
            final(self).immutable_occupied_view() == old(self).immutable_occupied_view(),
    {
        let n = key.len() + value.get_data_len_for_rmp();
        self.mem_occupied = self.mem_occupied.saturating_add(n as u64);
        mem_map_insert(&mut self.mem_table, key, value);
    }

    /// Whether the active table is empty.
    pub fn mem_table_is_empty(&self) -> (r: bool)
        ensures
            r == (self.active_view().dom().len() == 0),
    {
        mem_map_len(&self.mem_table) == 0
    }

    /// Number of keys in the active table.
    pub fn mem_table_len(&self) -> (r: usize)
        ensures
            r == self.active_view().dom().len(),
    {
        mem_map_len(&self.mem_table)
    }

    /// Whether the active table has grown past `threshold_size_with_mem_table` bytes.
    pub fn is_threshold_exceeded_minor(&self, threshold_size_with_mem_table: u64) -> (r: bool)
        ensures
            r == (self.occupied_view() > threshold_size_with_mem_table),
    {
        self.mem_occupied > threshold_size_with_mem_table
    }

    /// Makes the active table the immutable one, starts an empty active
    /// table, and returns the entries of the new immutable table in key order.
    pub fn table_swap(&mut self) -> (r: (Vec<Vec<u8>>, Vec<CommandData>))
        ensures
            final(self).immutable_view() == old(self).active_view(),
            final(self).active_view() == Map::<Seq<u8>, (int, Option<Seq<u8>>)>::empty(),
            final(self).occupied_view() == 0,
            final(self).immutable_occupied_view() == old(self).occupied_view(),
            r.0@.len() == r.1@.len(),
            r.0@.len() == old(self).active_view().dom().len(),
            forall|i: int|
                0 <= i < r.0@.len() ==> old(self).active_view().contains_key((#[trigger] r.0@[i])@)
                    && old(self).active_view()[r.0@[i]@] == cmd_model(r.1@[i]),
            forall|i: int, j: int|
                0 <= i < j < r.0@.len() ==> lex_lt((#[trigger] r.0@[i])@, (#[trigger] r.0@[j])@),
    {
        std::mem::swap(&mut self.mem_table, &mut self.immut_table);
        self.mem_table = mem_map_new();
        self.immut_occupied = self.mem_occupied;
        self.mem_occupied = 0;
        assert(self.active_view() =~= Map::<Seq<u8>, (int, Option<Seq<u8>>)>::empty());
        mem_map_entries(&self.immut_table)
    }

    /// The latest record of `key`: from the active table, else from the immutable one.
    pub fn get_cmd_data(&self, key: &[u8]) -> (r: Option<CommandData>)
        ensures
            match r {
                Some(c) => if self.active_view().contains_key(key@) {
                    self.active_view()[key@] == cmd_model(c)
                } else {
                    self.immutable_view().contains_key(key@) && self.immutable_view()[key@]
                        == cmd_model(c)
                },
                None => !self.active_view().contains_key(key@) && !self.immutable_view().contains_key(
                    key@,
                ),
            },
    {
        match mem_map_get(&self.mem_table, key) {
            Some(c) => Some(c),
            None => mem_map_get(&self.immut_table, key),
        }
    }
}

} // verus!
