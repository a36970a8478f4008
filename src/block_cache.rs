use vstd::prelude::*;
use crate::command::CommandData;

verus! {

/// Decoded blocks of tables, by (generation, block start, block length),
/// evicting the least recently used beyond a fixed capacity.
pub type BlockCache = lru::LruCache<(i64, u64, usize), Vec<CommandData>>;

#[verifier::external_type_specification]
#[verifier::external_body]
#[verifier::reject_recursive_types(K)]
#[verifier::reject_recursive_types(V)]
#[verifier::reject_recursive_types(S)]
pub struct ExLruCache<K, V, S>(lru::LruCache<K, V, S>);

#[verifier::external_type_specification]
#[verifier::external_body]
pub struct ExDefaultHasher(lru::DefaultHasher);

/// What a record says: its kind (0 for a `Set`, 1 for a `Remove`, 2 for a
/// `Get`), its key and the value of a `Set`.
pub open spec fn record_model(c: CommandData) -> (int, Seq<u8>, Option<Seq<u8>>) {
    match c {
        CommandData::Put { key, value } => (0, key@, Some(value@)),
        CommandData::Remove { key } => (1, key@, None),
        CommandData::Get { key } => (2, key@, None),
    }
}

pub open spec fn block_model(b: Seq<CommandData>) -> Seq<(int, Seq<u8>, Option<Seq<u8>>)> {
    b.map_values(|c: CommandData| record_model(c))
}

/// What a cache holds: each key with the records of its block.
pub uninterp spec fn cache_contents(c: BlockCache) -> Map<(i64, u64, usize), Seq<(int, Seq<u8>, Option<Seq<u8>>)>>;

/// Relies on `NonZeroUsize::new` and `LruCache::new`: a cache exists for a
/// capacity above zero only, and starts empty.
#[verifier::external_body]
pub(crate) fn cache_new(cap: usize) -> (r: Option<BlockCache>)
    ensures
        r is Some <==> cap > 0,
        r matches Some(c) ==> cache_contents(c).dom() == Set::<(i64, u64, usize)>::empty(),
{
    std::num::NonZeroUsize::new(cap).map(lru::LruCache::new)
}

/// Relies on `LruCache::get`: the block stored under the key, if it is
/// still held; a lookup only changes which entry is evicted next. The
/// block is handed out as a copy.
#[verifier::external_body]
pub(crate) fn cache_get(c: &mut BlockCache, k: (i64, u64, usize)) -> (r: Option<Vec<CommandData>>)
    ensures
        cache_contents(*final(c)) == cache_contents(*old(c)),
        match r {
            Some(b) => cache_contents(*old(c)).contains_key(k) && cache_contents(*old(c))[k]
                == block_model(b@),
            None => !cache_contents(*old(c)).contains_key(k),
        },
{
    c.get(&k).cloned()
}

/// Relies on `LruCache::put`: the block is stored under the key; other
/// entries stay as they were, but the least recently used may be evicted.
#[verifier::external_body]
pub(crate) fn cache_put(c: &mut BlockCache, k: (i64, u64, usize), b: Vec<CommandData>)
    ensures
        cache_contents(*final(c)).contains_key(k),
        cache_contents(*final(c))[k] == block_model(b@),
        forall|k2: (i64, u64, usize)|
            #[trigger] cache_contents(*final(c)).contains_key(k2) && k2 != k ==> cache_contents(
                *old(c),
            ).contains_key(k2) && cache_contents(*final(c))[k2] == cache_contents(*old(c))[k2],
{
    let _ = c.put(k, b);
}

} // verus!
