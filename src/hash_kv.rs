use vstd::prelude::*;
use crate::command::{copy_bytes, same_bytes, CommandData, CommandPackage, CommandPos};

verus! {

/// Default number of superseded bytes that triggers a compaction: 64 MiB.
pub const DEFAULT_COMPACTION_THRESHOLD: u64 = 67108864;

/// The in-memory state of a hash-indexed log store: which record holds
/// the live value of each key, which segment takes new records, how many
/// bytes on disk belong to superseded records, and which segments are open.
///
/// Every read and write of the segment files is done by the caller; this
/// type decides where records go and what the index says afterwards.
pub struct Manifest {
    keys: Vec<Vec<u8>>,
    positions: Vec<CommandPos>,
    current_gen: i64,
    un_compacted: u64,
    compaction_threshold: u64,
    gens: Vec<i64>,
    index_map: Ghost<Map<Seq<u8>, CommandPos>>,
}

/// `a + b`, or `u64::MAX` where the sum does not fit.
pub open spec fn sat_add(a: u64, b: int) -> u64 {
    if a + b > u64::MAX {
        u64::MAX
    } else {
        (a + b) as u64
    }
}

impl Manifest {
    /// The index: for each live key, where its latest `Set` record lies.
    pub closed spec fn index_view(&self) -> Map<Seq<u8>, CommandPos> {
        self.index_map@
    }

    /// The generations whose segments are open.
    pub closed spec fn gens_view(&self) -> Set<i64> {
        self.gens@.to_set()
    }

    pub closed spec fn current_gen_view(&self) -> i64 {
        self.current_gen
    }

    pub closed spec fn un_compacted_view(&self) -> u64 {
        self.un_compacted
    }

    pub closed spec fn threshold_view(&self) -> u64 {
        self.compaction_threshold
    }

    pub closed spec fn wf(&self) -> bool {
        &&& self.keys@.len() == self.positions@.len()
        &&& forall|i: int, j: int|
            0 <= i < self.keys@.len() && 0 <= j < self.keys@.len() && i != j ==> (
            #[trigger] self.keys@[i])@ != (#[trigger] self.keys@[j])@
        &&& forall|i: int|
            0 <= i < self.keys@.len() ==> self.index_map@.contains_key((#[trigger] self.keys@[i])@)
                && self.index_map@[self.keys@[i]@] == self.positions@[i]
        &&& forall|k: Seq<u8>|
            #[trigger] self.index_map@.contains_key(k) ==> exists|i: int|
                0 <= i < self.keys@.len() && (#[trigger] self.keys@[i])@ == k
        &&& self.index_map@.dom().finite()
        &&& self.index_map@.dom().len() == self.keys@.len()
        &&& self.gens@.contains(self.current_gen)
    }

    /// What a well-formed manifest guarantees: finitely many live keys, and
    /// an open segment for the current generation.
    pub proof fn lemma_wf_facts(&self)
        requires
            self.wf(),
        ensures
            self.index_view().dom().finite(),
            self.gens_view().contains(self.current_gen_view()),
    {
    }

    /// A manifest for the segments `gen_list` (ascending) before any of
    /// them is replayed: new records go to the last of them, or to
    /// generation 0 where there is none.
    pub fn new(compaction_threshold: u64, gen_list: &Vec<i64>) -> (r: Self)
        ensures
            r.wf(),
            r.index_view() == Map::<Seq<u8>, CommandPos>::empty(),
            r.current_gen_view() == if gen_list@.len() == 0 {
                0
            } else {
                gen_list@.last()
            },
            r.gens_view() == gen_list@.to_set().insert(r.current_gen_view()),
            r.un_compacted_view() == 0,
            r.threshold_view() == compaction_threshold,
    {
        let current_gen: i64 = if gen_list.len() == 0 {
            0
        } else {
            gen_list[gen_list.len() - 1]
        };
        let mut gens: Vec<i64> = Vec::new();
        let mut i: usize = 0;
        while i < gen_list.len()
            invariant
                i <= gen_list@.len(),
                gens@ == gen_list@.subrange(0, i as int),
            decreases gen_list@.len() - i,
        {
            gens.push(gen_list[i]);
            i = i + 1;
            assert(gens@ =~= gen_list@.subrange(0, i as int));
        }
        assert(gens@ =~= gen_list@);
        let ghost before = gens@;
        gens.push(current_gen);
        proof {
            assert(gens@.to_set() =~= before.to_set().insert(current_gen)) by {
                assert forall|g: i64| gens@.to_set().contains(g) == before.to_set().insert(
                    current_gen,
                ).contains(g) by {
                    if g != current_gen && gens@.contains(g) {
                        let j = choose|j: int| 0 <= j < gens@.len() && gens@[j] == g;
                        assert(before[j] == g);
                    }
                    if before.contains(g) {
                        let j = choose|j: int| 0 <= j < before.len() && before[j] == g;
                        assert(gens@[j] == g);
                    }
                    if g == current_gen {
                        assert(gens@[gens@.len() - 1] == g);
                    }
                }
            }
            assert(gens@.contains(current_gen)) by {
                assert(gens@[gens@.len() - 1] == current_gen);
            }
        }
        let r = Manifest {
            keys: Vec::new(),
            positions: Vec::new(),
            current_gen,
            un_compacted: 0,
            compaction_threshold,
            gens,
            index_map: Ghost(Map::empty()),
        };
        proof {
            assert(r.index_map@.dom() =~= Set::<Seq<u8>>::empty());
        }
        r
    }

    fn find(&self, key: &[u8]) -> (r: Option<usize>)
        requires
            self.wf(),
        ensures
            match r {
                Some(i) => i < self.keys@.len() && self.keys@[i as int]@ == key@,
                None => !self.index_view().contains_key(key@),
            },
    {
        let mut i: usize = 0;
        while i < self.keys.len()
            invariant
                self.wf(),
                i <= self.keys@.len(),
                forall|j: int| 0 <= j < i ==> (#[trigger] self.keys@[j])@ != key@,
            decreases self.keys@.len() - i,
        {
            if same_bytes(self.keys[i].as_slice(), key) {
                return Some(i);
            }
            i = i + 1;
        }
        None
    }

    /// Where the live record of `key` lies, if the key is live.
    pub fn get_pos_with_key(&self, key: &[u8]) -> (r: Option<CommandPos>)
        requires
            self.wf(),
        ensures
            match r {
                Some(p) => self.index_view().contains_key(key@) && self.index_view()[key@] == p,
                None => !self.index_view().contains_key(key@),
            },
    {
        match self.find(key) {
            Some(i) => Some(self.positions[i]),
            None => None,
        }
    }

    pub fn contains_key_with_pos(&self, key: &[u8]) -> (r: bool)
        requires
            self.wf(),
        ensures
            r == self.index_view().contains_key(key@),
    {
        self.find(key).is_some()
    }

    /// Points `key` at `cmd_pos` and returns where it pointed before.
    pub fn insert_command_pos(&mut self, key: Vec<u8>, cmd_pos: CommandPos) -> (r: Option<
        CommandPos,
    >)
        requires
            old(self).wf(),
        ensures
            final(self).wf(),
            final(self).index_view() == old(self).index_view().insert(key@, cmd_pos),
            match r {
                Some(p) => old(self).index_view().contains_key(key@) && old(self).index_view()[key@]
                    == p,
                None => !old(self).index_view().contains_key(key@),
            },
            final(self).gens_view() == old(self).gens_view(),
            final(self).current_gen_view() == old(self).current_gen_view(),
            final(self).un_compacted_view() == old(self).un_compacted_view(),
            final(self).threshold_view() == old(self).threshold_view(),
    {
        match self.find(key.as_slice()) {
            Some(i) => {
                let before = self.positions[i];
                let ghost k = key@;
                self.positions.set(i, cmd_pos);
                self.index_map = Ghost(self.index_map@.insert(k, cmd_pos));
                proof {
                    assert(self.index_map@.dom() =~= old(self).index_map@.dom());
                    assert forall|j: int| 0 <= j < self.keys@.len() implies self.index_map@.contains_key(
                        (#[trigger] self.keys@[j])@,
                    ) && self.index_map@[self.keys@[j]@] == self.positions@[j] by {
                        if j != i {
                            assert(self.keys@[j]@ != self.keys@[i as int]@);
                        }
                    }
                }
                Some(before)
            },
            None => {
                let ghost k = key@;
                let ghost old_keys = self.keys@;
                self.keys.push(key);
                self.positions.push(cmd_pos);
                self.index_map = Ghost(self.index_map@.insert(k, cmd_pos));
                proof {
                    let n = old_keys.len() as int;
                    assert(self.keys@[n]@ == k);
                    assert forall|a: int, b: int|
                        0 <= a < self.keys@.len() && 0 <= b < self.keys@.len() && a != b implies (
                        #[trigger] self.keys@[a])@ != (#[trigger] self.keys@[b])@ by {
                        if a < n && b < n {
                            assert(self.keys@[a] == old_keys[a] && self.keys@[b] == old_keys[b]);
                        } else if a < n {
                            assert(old(self).index_map@.contains_key(old_keys[a]@));
                        } else if b < n {
                            assert(old(self).index_map@.contains_key(old_keys[b]@));
                        }
                    }
                    assert forall|j: int| 0 <= j < self.keys@.len() implies self.index_map@.contains_key(
                        (#[trigger] self.keys@[j])@,
                    ) && self.index_map@[self.keys@[j]@] == self.positions@[j] by {
                        if j < n {
                            assert(self.keys@[j] == old_keys[j]);
                            assert(old(self).index_map@.contains_key(old_keys[j]@));
                        }
                    }
                    assert forall|q: Seq<u8>| #[trigger] self.index_map@.contains_key(q) implies exists|
                        j: int,
                    | 0 <= j < self.keys@.len() && (#[trigger] self.keys@[j])@ == q by {
                        if q == k {
                            assert(self.keys@[n]@ == q);
                        } else {
                            let j = choose|j: int| 0 <= j < old_keys.len() && (#[trigger] old_keys[j])@ == q;
                            assert(self.keys@[j] == old_keys[j]);
                        }
                    }
                    assert(self.index_map@.dom() =~= old(self).index_map@.dom().insert(k));
                }
                None
            },
        }
    }

    /// Drops `key` from the index and returns where it pointed.
    pub fn remove_key_with_pos(&mut self, key: &[u8]) -> (r: Option<CommandPos>)
        requires
            old(self).wf(),
        ensures
            final(self).wf(),
            final(self).index_view() == old(self).index_view().remove(key@),
            match r {
                Some(p) => old(self).index_view().contains_key(key@) && old(self).index_view()[key@]
                    == p,
                None => !old(self).index_view().contains_key(key@),
            },
            final(self).gens_view() == old(self).gens_view(),
            final(self).current_gen_view() == old(self).current_gen_view(),
            final(self).un_compacted_view() == old(self).un_compacted_view(),
            final(self).threshold_view() == old(self).threshold_view(),
    {
        match self.find(key) {
            Some(i) => {
                let ghost old_keys = self.keys@;
                let ghost old_pos = self.positions@;
                let ghost k = key@;
                let _ = self.keys.remove(i);
                let p = self.positions.remove(i);
                self.index_map = Ghost(self.index_map@.remove(k));
                proof {
                    let n = i as int;
                    assert forall|a: int, b: int|
                        0 <= a < self.keys@.len() && 0 <= b < self.keys@.len() && a != b implies (
                        #[trigger] self.keys@[a])@ != (#[trigger] self.keys@[b])@ by {
                        let a2 = if a < n { a } else { a + 1 };
                        let b2 = if b < n { b } else { b + 1 };
                        assert(self.keys@[a] == old_keys[a2] && self.keys@[b] == old_keys[b2]);
                    }
                    assert forall|j: int| 0 <= j < self.keys@.len() implies self.index_map@.contains_key(
                        (#[trigger] self.keys@[j])@,
                    ) && self.index_map@[self.keys@[j]@] == self.positions@[j] by {
                        let j2 = if j < n { j } else { j + 1 };
                        assert(self.keys@[j] == old_keys[j2] && self.positions@[j] == old_pos[j2]);
                        assert(old_keys[j2]@ != old_keys[n]@);
                    }
                    assert forall|q: Seq<u8>| #[trigger] self.index_map@.contains_key(q) implies exists|
                        j: int,
                    | 0 <= j < self.keys@.len() && (#[trigger] self.keys@[j])@ == q by {
                        let j = choose|j: int| 0 <= j < old_keys.len() && (#[trigger] old_keys[j])@ == q;
                        if j < n {
                            assert(self.keys@[j] == old_keys[j]);
                        } else {
                            assert(j != n);
                            assert(self.keys@[j - 1] == old_keys[j]);
                        }
                    }
                    assert(self.index_map@.dom() =~= old(self).index_map@.dom().remove(k));
                }
                Some(p)
            },
            None => {
                assert(self.index_map@.remove(key@) =~= self.index_map@);
                None
            },
        }
    }

    /// `KeyNotFound` where `key` is not live: a removal of it has nothing to do.
    pub fn check_remove(&self, key: &[u8]) -> (r: Result<(), crate::error::KvsError>)
        requires
            self.wf(),
        ensures
            r == if self.index_view().contains_key(key@) {
                Ok::<(), crate::error::KvsError>(())
            } else {
                Err::<(), crate::error::KvsError>(crate::error::KvsError::KeyNotFound)
            },
    {
        if self.contains_key_with_pos(key) {
            Ok(())
        } else {
            Err(crate::error::KvsError::KeyNotFound)
        }
    }

    /// The live keys, each once.
    pub fn clone_index_keys(&self) -> (r: Vec<Vec<u8>>)
        requires
            self.wf(),
        ensures
            r@.len() == self.index_view().dom().len(),
            forall|i: int| 0 <= i < r@.len() ==> self.index_view().contains_key((#[trigger] r@[i])@),
            forall|k: Seq<u8>|
                #[trigger] self.index_view().contains_key(k) ==> exists|i: int|
                    0 <= i < r@.len() && (#[trigger] r@[i])@ == k,
    {
        let mut r: Vec<Vec<u8>> = Vec::new();
        let mut i: usize = 0;
        while i < self.keys.len()
            invariant
                self.wf(),
                i <= self.keys@.len(),
                r@.len() == i,
                forall|j: int| 0 <= j < i ==> (#[trigger] r@[j])@ == self.keys@[j]@,
            decreases self.keys@.len() - i,
        {
            r.push(copy_bytes(self.keys[i].as_slice()));
            i = i + 1;
        }
        proof {
            assert forall|k: Seq<u8>| #[trigger] self.index_view().contains_key(k) implies exists|
                j: int,
            | 0 <= j < r@.len() && (#[trigger] r@[j])@ == k by {
                let j = choose|j: int| 0 <= j < self.keys@.len() && (#[trigger] self.keys@[j])@ == k;
                assert(r@[j]@ == k);
            }
            assert forall|j: int| 0 <= j < r@.len() implies self.index_view().contains_key(
                (#[trigger] r@[j])@,
            ) by {
                assert(r@[j]@ == self.keys@[j]@);
            }
        }
        r
    }

    /// Number of live keys.
    pub fn len(&self) -> (r: usize)
        requires
            self.wf(),
        ensures
            r == self.index_view().dom().len(),
    {
        self.keys.len()
    }

    pub fn is_empty(&self) -> (r: bool)
        requires
            self.wf(),
        ensures
            r == (self.index_view().dom().len() == 0),
    {
        self.keys.len() == 0
    }

    /// The generation that new records go to.
    pub fn current_gen(&self) -> (r: i64)
        ensures
            r == self.current_gen_view(),
    {
        self.current_gen
    }

    pub fn un_compacted(&self) -> (r: u64)
        ensures
            r == self.un_compacted_view(),
    {
        self.un_compacted
    }

    /// Counts `new_len` more superseded bytes; the count stops at `u64::MAX`.
    pub fn un_compacted_add(&mut self, new_len: u64)
        requires
            old(self).wf(),
        ensures
            final(self).wf(),
            final(self).un_compacted_view() == sat_add(old(self).un_compacted_view(), new_len as int),
            final(self).index_view() == old(self).index_view(),
            final(self).gens_view() == old(self).gens_view(),
            final(self).current_gen_view() == old(self).current_gen_view(),
            final(self).threshold_view() == old(self).threshold_view(),
    {
        let ghost before = *self;
        self.un_compacted = self.un_compacted.saturating_add(new_len);
        assert(self.keys@ == before.keys@ && self.positions@ == before.positions@ && self.gens@
            == before.gens@);
    }

    /// Whether the superseded bytes exceed the compaction threshold.
    pub fn is_threshold_exceeded(&self) -> (r: bool)
        ensures
            r == (self.un_compacted_view() > self.threshold_view()),
    {
        self.un_compacted > self.compaction_threshold
    }

    /// Whether a segment of generation `gen` is open.
    pub fn has_gen(&self, gen: i64) -> (r: bool)
        ensures
            r == self.gens_view().contains(gen),
    {
        let mut i: usize = 0;
        while i < self.gens.len()
            invariant
                i <= self.gens@.len(),
                forall|j: int| 0 <= j < i ==> self.gens@[j] != gen,
            decreases self.gens@.len() - i,
        {
            if self.gens[i] == gen {
                assert(self.gens@[i as int] == gen);
                return true;
            }
            i = i + 1;
        }
        assert(!self.gens@.contains(gen));
        false
    }

    /// Records that a `Set` of `key` was appended to the current segment,
    /// its payload at `pos` with `len` bytes. The record it supersedes, if
    /// any, counts as superseded bytes. Returns whether a compaction is due.
    pub fn record_set(&mut self, key: Vec<u8>, pos: u64, len: usize) -> (r: bool)
        requires
            old(self).wf(),
        ensures
            final(self).wf(),
            final(self).index_view() == old(self).index_view().insert(
                key@,
                CommandPos { gen: old(self).current_gen_view(), pos, len },
            ),
            final(self).un_compacted_view() == if old(self).index_view().contains_key(key@) {
                sat_add(old(self).un_compacted_view(), old(self).index_view()[key@].len as int)
            } else {
                old(self).un_compacted_view()
            },
            r == (final(self).un_compacted_view() > final(self).threshold_view()),
            final(self).gens_view() == old(self).gens_view(),
            final(self).current_gen_view() == old(self).current_gen_view(),
            final(self).threshold_view() == old(self).threshold_view(),
    {
        let cmd_pos = CommandPos { gen: self.current_gen, pos, len };
        if let Some(old_cmd) = self.insert_command_pos(key, cmd_pos) {
            self.un_compacted_add(old_cmd.len as u64);
        }
        self.is_threshold_exceeded()
    }
}


/// The index after one replayed record of segment `gen`: a `Set` points
/// its key at the record, a `Remove` drops its key, a `Get` changes nothing.
pub open spec fn replay_step(m: Map<Seq<u8>, CommandPos>, gen: i64, p: CommandPackage) -> Map<
    Seq<u8>,
    CommandPos,
> {
    match p.cmd {
        CommandData::Put { key, .. } => m.insert(key@, CommandPos { gen, pos: p.pos, len: p.len }),
        CommandData::Remove { key } => m.remove(key@),
        CommandData::Get { .. } => m,
    }
}

/// The index after replaying the records `ps` of segment `gen`, in order.
pub open spec fn replay(m: Map<Seq<u8>, CommandPos>, gen: i64, ps: Seq<CommandPackage>) -> Map<
    Seq<u8>,
    CommandPos,
>
    decreases ps.len(),
{
    if ps.len() == 0 {
        m
    } else {
        replay_step(replay(m, gen, ps.drop_last()), gen, ps.last())
    }
}

/// Bytes that one replayed record makes superseded: the payload length of
/// the entry it replaces or drops, plus one.
pub open spec fn step_waste(m: Map<Seq<u8>, CommandPos>, p: CommandPackage) -> int {
    match p.cmd {
        CommandData::Put { key, .. } => if m.contains_key(key@) {
            m[key@].len + 1
        } else {
            0
        },
        CommandData::Remove { key } => if m.contains_key(key@) {
            m[key@].len + 1
        } else {
            0
        },
        CommandData::Get { .. } => 0,
    }
}

/// The superseded-byte count after replaying `ps`, starting from `u`.
pub open spec fn replay_waste(
    u: u64,
    m: Map<Seq<u8>, CommandPos>,
    gen: i64,
    ps: Seq<CommandPackage>,
) -> u64
    decreases ps.len(),
{
    if ps.len() == 0 {
        u
    } else {
        sat_add(
            replay_waste(u, m, gen, ps.drop_last()),
            step_waste(replay(m, gen, ps.drop_last()), ps.last()),
        )
    }
}

/// Whether record `p` writes key `k` (a `Set` or a `Remove` of it).
pub open spec fn writes_key(p: CommandPackage, k: Seq<u8>) -> bool {
    match p.cmd {
        CommandData::Put { key, .. } => key@ == k,
        CommandData::Remove { key } => key@ == k,
        CommandData::Get { .. } => false,
    }
}

/// The place in `ps` of the last record that writes `k`.
pub open spec fn last_write(ps: Seq<CommandPackage>, k: Seq<u8>) -> Option<int>
    decreases ps.len(),
{
    if ps.len() == 0 {
        None
    } else if writes_key(ps.last(), k) {
        Some(ps.len() - 1)
    } else {
        last_write(ps.drop_last(), k)
    }
}

/// The last write wins: after any sequence of records, a key points at
/// its last `Set` if no `Remove` of it follows, is absent if its last
/// write is a `Remove`, and is as before if no record writes it.
pub proof fn lemma_last_write_wins(
    m: Map<Seq<u8>, CommandPos>,
    gen: i64,
    ps: Seq<CommandPackage>,
    k: Seq<u8>,
)
    ensures
        ({
            let r = replay(m, gen, ps);
            match last_write(ps, k) {
                Some(i) => 0 <= i < ps.len() && match ps[i].cmd {
                    CommandData::Put { .. } => r.contains_key(k) && r[k] == CommandPos {
                        gen,
                        pos: ps[i].pos,
                        len: ps[i].len,
                    },
                    _ => !r.contains_key(k),
                },
                None => r.contains_key(k) == m.contains_key(k) && (m.contains_key(k) ==> r[k]
                    == m[k]),
            }
        }),
    decreases ps.len(),
{
    if ps.len() > 0 {
        lemma_last_write_wins(m, gen, ps.drop_last(), k);
        if !writes_key(ps.last(), k) {
            let prev = last_write(ps.drop_last(), k);
            if let Some(i) = prev {
                assert(ps[i] == ps.drop_last()[i]);
            }
        }
    }
}

impl Manifest {
    /// Replays the records `packages` of segment `gen` into the index, in
    /// order, and counts the bytes they make superseded.
    pub fn load(&mut self, gen: i64, packages: &Vec<CommandPackage>)
        requires
            old(self).wf(),
        ensures
            final(self).wf(),
            final(self).index_view() == replay(old(self).index_view(), gen, packages@),
            final(self).un_compacted_view() == replay_waste(
                old(self).un_compacted_view(),
                old(self).index_view(),
                gen,
                packages@,
            ),
            final(self).gens_view() == old(self).gens_view(),
            final(self).current_gen_view() == old(self).current_gen_view(),
            final(self).threshold_view() == old(self).threshold_view(),
    {
        let ghost m0 = self.index_view();
        let ghost u0 = self.un_compacted_view();
        let mut i: usize = 0;
        while i < packages.len()
            invariant
                self.wf(),
                i <= packages@.len(),
                self.index_view() == replay(m0, gen, packages@.subrange(0, i as int)),
                self.un_compacted_view() == replay_waste(
                    u0,
                    m0,
                    gen,
                    packages@.subrange(0, i as int),
                ),
                self.gens_view() == old(self).gens_view(),
                self.current_gen_view() == old(self).current_gen_view(),
                self.threshold_view() == old(self).threshold_view(),
            decreases packages@.len() - i,
        {
            let package = &packages[i];
            let ghost pre = packages@.subrange(0, i as int);
            let ghost next = packages@.subrange(0, i as int + 1);
            proof {
                assert(next.drop_last() =~= pre);
                assert(next.last() == *package);
            }
            match &package.cmd {
                CommandData::Put { key, .. } => {
                    let cmd_pos = CommandPos { gen, pos: package.pos, len: package.len };
                    if let Some(old_cmd) = self.insert_command_pos(copy_bytes(key.as_slice()), cmd_pos) {
                        self.un_compacted_add((old_cmd.len as u64).saturating_add(1));
                    }
                },
                CommandData::Remove { key } => {
                    if let Some(old_cmd) = self.remove_key_with_pos(key.as_slice()) {
                        self.un_compacted_add((old_cmd.len as u64).saturating_add(1));
                    }
                },
                CommandData::Get { .. } => {},
            }
            i = i + 1;
        }
        assert(packages@.subrange(0, i as int) =~= packages@);
    }

    /// Moves the write position two generations on before a compaction:
    /// the first of them receives the rewritten records, the second the
    /// records written afterwards. Returns the generation of the first.
    pub fn compaction_increment(&mut self) -> (r: i64)
        requires
            old(self).wf(),
            old(self).current_gen_view() <= i64::MAX - 2,
        ensures
            final(self).wf(),
            r == old(self).current_gen_view() + 1,
            final(self).current_gen_view() == old(self).current_gen_view() + 2,
            final(self).gens_view() == old(self).gens_view().insert(r).insert(
                (old(self).current_gen_view() + 2) as i64,
            ),
            final(self).index_view() == old(self).index_view(),
            final(self).un_compacted_view() == old(self).un_compacted_view(),
            final(self).threshold_view() == old(self).threshold_view(),
    {
        let current = self.current_gen;
        let ghost g0 = self.gens@;
        let ghost before = *self;
        self.gens.push(current + 1);
        self.gens.push(current + 2);
        self.current_gen = current + 2;
        proof {
            let g = self.gens@;
            assert(g[g.len() - 1] == current + 2);
            assert(g.contains((current + 2) as i64));
            assert(self.keys@ == before.keys@ && self.positions@ == before.positions@);
            assert(g[g.len() - 2] == current + 1);
            assert(g.to_set() =~= g0.to_set().insert((current + 1) as i64).insert(
                (current + 2) as i64,
            )) by {
                assert forall|x: i64| g.to_set().contains(x) == g0.to_set().insert(
                    (current + 1) as i64,
                ).insert((current + 2) as i64).contains(x) by {
                    if g.contains(x) && x != current + 1 && x != current + 2 {
                        let j = choose|j: int| 0 <= j < g.len() && g[j] == x;
                        assert(g0[j] == x);
                    }
                    if g0.contains(x) {
                        let j = choose|j: int| 0 <= j < g0.len() && g0[j] == x;
                        assert(g[j] == x);
                    }
                }
            }
        }
        current + 1
    }

    /// The live entries, ordered by (generation, position): oldest first.
    pub fn sort_by_last_vec(&self) -> (r: Vec<(Vec<u8>, CommandPos)>)
        requires
            self.wf(),
        ensures
            r@.len() == self.index_view().dom().len(),
            forall|i: int|
                0 <= i < r@.len() ==> self.index_view().contains_key((#[trigger] r@[i]).0@)
                    && self.index_view()[r@[i].0@] == r@[i].1,
            forall|k: Seq<u8>|
                #[trigger] self.index_view().contains_key(k) ==> exists|i: int|
                    0 <= i < r@.len() && (#[trigger] r@[i]).0@ == k,
            forall|i: int, j: int|
                0 <= i < j < r@.len() ==> pos_le((#[trigger] r@[i]).1, (#[trigger] r@[j]).1),
    {
        let mut triples: Vec<(i64, u64, usize)> = Vec::new();
        let mut i: usize = 0;
        while i < self.keys.len()
            invariant
                self.wf(),
                i <= self.keys@.len(),
                triples@.len() == i,
                forall|j: int|
                    0 <= j < i ==> #[trigger] triples@[j] == (
                        self.positions@[j].gen,
                        self.positions@[j].pos,
                        j as usize,
                    ),
            decreases self.keys@.len() - i,
        {
            let p = self.positions[i];
            triples.push((p.gen, p.pos, i));
            i = i + 1;
        }
        let ghost unsorted = triples@;
        let sorted = sort_triples(triples);
        proof {
            broadcast use vstd::seq_lib::to_multiset_contains;
            broadcast use vstd::seq_lib::to_multiset_len;

            assert(sorted@.len() == unsorted.len()) by {
                assert(sorted@.to_multiset().len() == unsorted.to_multiset().len());
            }
            assert forall|j: int| 0 <= j < sorted@.len() implies #[trigger] sorted@[j].2
                < self.keys@.len() && sorted@[j] == unsorted[sorted@[j].2 as int] by {
                assert(sorted@.contains(sorted@[j]));
                assert(sorted@.to_multiset().count(sorted@[j]) > 0);
                assert(unsorted.contains(sorted@[j]));
            }
            assert forall|j: int| 0 <= j < unsorted.len() implies exists|q: int|
                0 <= q < sorted@.len() && #[trigger] sorted@[q] == #[trigger] unsorted[j] by {
                assert(unsorted.contains(unsorted[j]));
                assert(unsorted.to_multiset().count(unsorted[j]) > 0);
                assert(sorted@.contains(unsorted[j]));
            }
        }
        let mut r: Vec<(Vec<u8>, CommandPos)> = Vec::new();
        let mut q: usize = 0;
        while q < sorted.len()
            invariant
                self.wf(),
                q <= sorted@.len(),
                sorted@.len() == self.keys@.len(),
                forall|j: int|
                    0 <= j < sorted@.len() ==> #[trigger] sorted@[j].2 < self.keys@.len()
                        && sorted@[j] == unsorted[sorted@[j].2 as int],
                forall|j: int|
                    0 <= j < unsorted.len() ==> #[trigger] unsorted[j] == (
                        self.positions@[j].gen,
                        self.positions@[j].pos,
                        j as usize,
                    ),
                r@.len() == q,
                forall|j: int|
                    0 <= j < q ==> (#[trigger] r@[j]).0@ == self.keys@[sorted@[j].2 as int]@
                        && r@[j].1 == self.positions@[sorted@[j].2 as int],
            decreases sorted@.len() - q,
        {
            let idx = sorted[q].2;
            r.push((copy_bytes(self.keys[idx].as_slice()), self.positions[idx]));
            q = q + 1;
        }
        proof {
            assert forall|j: int| 0 <= j < r@.len() implies self.index_view().contains_key(
                (#[trigger] r@[j]).0@,
            ) && self.index_view()[r@[j].0@] == r@[j].1 by {
                let idx = sorted@[j].2 as int;
                assert(self.keys@[idx]@ == r@[j].0@);
            }
            assert forall|k: Seq<u8>| #[trigger] self.index_view().contains_key(k) implies exists|
                j: int,
            | 0 <= j < r@.len() && (#[trigger] r@[j]).0@ == k by {
                let e = choose|e: int| 0 <= e < self.keys@.len() && (#[trigger] self.keys@[e])@ == k;
                assert(unsorted[e] == (self.positions@[e].gen, self.positions@[e].pos, e as usize));
                let qq = choose|qq: int| 0 <= qq < sorted@.len() && #[trigger] sorted@[qq] == unsorted[e];
                assert(sorted@[qq].2 == e);
                assert(r@[qq].0@ == k);
            }
            assert forall|a: int, b: int| 0 <= a < b < r@.len() implies pos_le(
                (#[trigger] r@[a]).1,
                (#[trigger] r@[b]).1,
            ) by {
                assert(triple_le(sorted@[a], sorted@[b]));
                let ia = sorted@[a].2 as int;
                let ib = sorted@[b].2 as int;
                assert(unsorted[ia] == sorted@[a]);
                assert(unsorted[ib] == sorted@[b]);
            }
        }
        r
    }

    /// Points each key of `moved` that is still live at its new place;
    /// keys that are no longer live are left out.
    pub fn update_positions(&mut self, moved: &Vec<(Vec<u8>, CommandPos)>)
        requires
            old(self).wf(),
        ensures
            final(self).wf(),
            final(self).index_view() == apply_moves(old(self).index_view(), moves_view(moved@)),
            final(self).gens_view() == old(self).gens_view(),
            final(self).current_gen_view() == old(self).current_gen_view(),
            final(self).un_compacted_view() == old(self).un_compacted_view(),
            final(self).threshold_view() == old(self).threshold_view(),
    {
        let ghost m0 = self.index_view();
        let mut i: usize = 0;
        while i < moved.len()
            invariant
                self.wf(),
                i <= moved@.len(),
                self.index_view() == apply_moves(m0, moves_view(moved@).subrange(0, i as int)),
                self.gens_view() == old(self).gens_view(),
                self.current_gen_view() == old(self).current_gen_view(),
                self.un_compacted_view() == old(self).un_compacted_view(),
                self.threshold_view() == old(self).threshold_view(),
            decreases moved@.len() - i,
        {
            let (key, pos) = (&moved[i].0, moved[i].1);
            proof {
                let next = moves_view(moved@).subrange(0, i as int + 1);
                assert(next.drop_last() =~= moves_view(moved@).subrange(0, i as int));
                assert(next.last() == (key@, pos));
            }
            if self.contains_key_with_pos(key.as_slice()) {
                let _ = self.insert_command_pos(copy_bytes(key.as_slice()), pos);
            }
            i = i + 1;
        }
        assert(moves_view(moved@).subrange(0, i as int) =~= moves_view(moved@));
    }

    /// Closes every segment older than `expired_gen`: the index keeps only
    /// entries in generations from `expired_gen` on, and the generations
    /// that were closed are returned so that their files can be deleted.
    pub fn retain(&mut self, expired_gen: i64) -> (r: Vec<i64>)
        requires
            old(self).wf(),
            expired_gen <= old(self).current_gen_view(),
        ensures
            final(self).wf(),
            final(self).index_view() == retained(old(self).index_view(), expired_gen),
            forall|k: Seq<u8>|
                #[trigger] final(self).index_view().contains_key(k)
                    ==> final(self).index_view()[k].gen >= expired_gen,
            final(self).gens_view() == old(self).gens_view().filter(|g: i64| g >= expired_gen),
            r@.to_set() == old(self).gens_view().filter(|g: i64| g < expired_gen),
            final(self).current_gen_view() == old(self).current_gen_view(),
            final(self).un_compacted_view() == old(self).un_compacted_view(),
            final(self).threshold_view() == old(self).threshold_view(),
    {
        let ghost m0 = self.index_view();
        let mut keys: Vec<Vec<u8>> = Vec::new();
        let mut positions: Vec<CommandPos> = Vec::new();
        let ghost mut m: Map<Seq<u8>, CommandPos> = Map::empty();
        let mut i: usize = 0;
        proof {
            assert(m.dom() =~= Set::<Seq<u8>>::empty());
        }
        while i < self.keys.len()
            invariant
                self.wf(),
                m0 == self.index_view(),
                i <= self.keys@.len(),
                keys@.len() == positions@.len(),
                forall|a: int, b: int|
                    0 <= a < keys@.len() && 0 <= b < keys@.len() && a != b ==> (
                    #[trigger] keys@[a])@ != (#[trigger] keys@[b])@,
                forall|a: int|
                    0 <= a < keys@.len() ==> m.contains_key((#[trigger] keys@[a])@) && m[keys@[a]@]
                        == positions@[a],
                forall|k: Seq<u8>|
                    #[trigger] m.contains_key(k) ==> exists|a: int|
                        0 <= a < keys@.len() && (#[trigger] keys@[a])@ == k,
                m.dom().finite(),
                m.dom().len() == keys@.len(),
                forall|k: Seq<u8>|
                    #[trigger] m.contains_key(k) ==> m0.contains_key(k) && m[k] == m0[k]
                        && m0[k].gen >= expired_gen,
                forall|j: int|
                    0 <= j < i && self.positions@[j].gen >= expired_gen ==> m.contains_key(
                        (#[trigger] self.keys@[j])@,
                    ),
                forall|k: Seq<u8>|
                    #[trigger] m.contains_key(k) ==> exists|j: int|
                        0 <= j < i && (#[trigger] self.keys@[j])@ == k,
            decreases self.keys@.len() - i,
        {
            let p = self.positions[i];
            if p.gen >= expired_gen {
                let ghost k = self.keys@[i as int]@;
                let ghost old_keys = keys@;
                proof {
                    if m.contains_key(k) {
                        let j = choose|j: int| 0 <= j < i && (#[trigger] self.keys@[j])@ == k;
                        assert(self.keys@[j]@ != self.keys@[i as int]@);
                    }
                }
                keys.push(copy_bytes(self.keys[i].as_slice()));
                positions.push(p);
                proof {
                    let n = old_keys.len() as int;
                    let m_old = m;
                    m = m.insert(k, p);
                    assert(keys@[n]@ == k);
                    assert forall|a: int, b: int|
                        0 <= a < keys@.len() && 0 <= b < keys@.len() && a != b implies (
                        #[trigger] keys@[a])@ != (#[trigger] keys@[b])@ by {
                        if a < n && b < n {
                            assert(keys@[a] == old_keys[a] && keys@[b] == old_keys[b]);
                        } else if a < n {
                            assert(keys@[a] == old_keys[a]);
                            assert(m_old.contains_key(old_keys[a]@));
                        } else if b < n {
                            assert(keys@[b] == old_keys[b]);
                            assert(m_old.contains_key(old_keys[b]@));
                        }
                    }
                    assert forall|a: int| 0 <= a < keys@.len() implies m.contains_key(
                        (#[trigger] keys@[a])@,
                    ) && m[keys@[a]@] == positions@[a] by {
                        if a < n {
                            assert(keys@[a] == old_keys[a]);
                            assert(m_old.contains_key(old_keys[a]@));
                        }
                    }
                    assert forall|q: Seq<u8>| #[trigger] m.contains_key(q) implies exists|a: int|
                        0 <= a < keys@.len() && (#[trigger] keys@[a])@ == q by {
                        if q == k {
                            assert(keys@[n]@ == q);
                        } else {
                            let a = choose|a: int| 0 <= a < old_keys.len() && (#[trigger] old_keys[a])@ == q;
                            assert(keys@[a] == old_keys[a]);
                        }
                    }
                    assert(m.dom() =~= m_old.dom().insert(k));
                    assert forall|q: Seq<u8>| #[trigger] m.contains_key(q) implies exists|j: int|
                        0 <= j < i + 1 && (#[trigger] self.keys@[j])@ == q by {
                        if q == k {
                            assert(self.keys@[i as int]@ == q);
                        } else {
                            let j = choose|j: int| 0 <= j < i && (#[trigger] self.keys@[j])@ == q;
                        }
                    }
                }
            }
            i = i + 1;
        }
        proof {
            assert(m =~= retained(m0, expired_gen)) by {
                assert forall|k: Seq<u8>| #[trigger] retained(m0, expired_gen).contains_key(k)
                    implies m.contains_key(k) by {
                    let j = choose|j: int| 0 <= j < self.keys@.len() && (#[trigger] self.keys@[j])@ == k;
                    assert(self.positions@[j] == m0[k]);
                }
            }
        }
        self.keys = keys;
        self.positions = positions;
        self.index_map = Ghost(m);

        let mut gens: Vec<i64> = Vec::new();
        let mut stale: Vec<i64> = Vec::new();
        let mut j: usize = 0;
        while j < self.gens.len()
            invariant
                j <= self.gens@.len(),
                forall|x: i64| #[trigger] gens@.contains(x) <==> exists|q: int|
                    0 <= q < j && self.gens@[q] == x && x >= expired_gen,
                forall|x: i64| #[trigger] stale@.contains(x) <==> exists|q: int|
                    0 <= q < j && self.gens@[q] == x && x < expired_gen,
            decreases self.gens@.len() - j,
        {
            let g = self.gens[j];
            let ghost gens0 = gens@;
            let ghost stale0 = stale@;
            if g >= expired_gen {
                gens.push(g);
                proof {
                    assert forall|x: i64| #[trigger] gens@.contains(x) <==> exists|q: int|
                        0 <= q < j + 1 && self.gens@[q] == x && x >= expired_gen by {
                        if gens@.contains(x) {
                            let a = choose|a: int| 0 <= a < gens@.len() && gens@[a] == x;
                            if a < gens0.len() {
                                assert(gens0[a] == x);
                                assert(gens0.contains(x));
                            } else {
                                assert(self.gens@[j as int] == x);
                            }
                        }
                        if exists|q: int| 0 <= q < j + 1 && self.gens@[q] == x && x >= expired_gen {
                            let q = choose|q: int| 0 <= q < j + 1 && self.gens@[q] == x && x >= expired_gen;
                            if q < j {
                                assert(gens0.contains(x));
                                let a = choose|a: int| 0 <= a < gens0.len() && gens0[a] == x;
                                assert(gens@[a] == x);
                            } else {
                                assert(gens@[gens@.len() - 1] == x);
                            }
                        }
                    }
                    assert forall|x: i64| #[trigger] stale@.contains(x) <==> exists|q: int|
                        0 <= q < j + 1 && self.gens@[q] == x && x < expired_gen by {
                        if exists|q: int| 0 <= q < j + 1 && self.gens@[q] == x && x < expired_gen {
                            let q = choose|q: int| 0 <= q < j + 1 && self.gens@[q] == x && x < expired_gen;
                            assert(q < j);
                        }
                    }
                }
            } else {
                stale.push(g);
                proof {
                    assert forall|x: i64| #[trigger] stale@.contains(x) <==> exists|q: int|
                        0 <= q < j + 1 && self.gens@[q] == x && x < expired_gen by {
                        if stale@.contains(x) {
                            let a = choose|a: int| 0 <= a < stale@.len() && stale@[a] == x;
                            if a < stale0.len() {
                                assert(stale0[a] == x);
                                assert(stale0.contains(x));
                            } else {
                                assert(self.gens@[j as int] == x);
                            }
                        }
                        if exists|q: int| 0 <= q < j + 1 && self.gens@[q] == x && x < expired_gen {
                            let q = choose|q: int| 0 <= q < j + 1 && self.gens@[q] == x && x < expired_gen;
                            if q < j {
                                assert(stale0.contains(x));
                                let a = choose|a: int| 0 <= a < stale0.len() && stale0[a] == x;
                                assert(stale@[a] == x);
                            } else {
                                assert(stale@[stale@.len() - 1] == x);
                            }
                        }
                    }
                    assert forall|x: i64| #[trigger] gens@.contains(x) <==> exists|q: int|
                        0 <= q < j + 1 && self.gens@[q] == x && x >= expired_gen by {
                        if exists|q: int| 0 <= q < j + 1 && self.gens@[q] == x && x >= expired_gen {
                            let q = choose|q: int| 0 <= q < j + 1 && self.gens@[q] == x && x >= expired_gen;
                            assert(q < j);
                        }
                    }
                }
            }
            j = j + 1;
        }
        proof {
            let old_set = self.gens@.to_set();
            assert(gens@.to_set() =~= old_set.filter(|g: i64| g >= expired_gen)) by {
                assert forall|x: i64| #[trigger] gens@.to_set().contains(x) == old_set.filter(
                    |g: i64| g >= expired_gen,
                ).contains(x) by {
                    if old_set.contains(x) && x >= expired_gen {
                        let q = choose|q: int| 0 <= q < self.gens@.len() && self.gens@[q] == x;
                    }
                }
            }
            assert(stale@.to_set() =~= old_set.filter(|g: i64| g < expired_gen)) by {
                assert forall|x: i64| #[trigger] stale@.to_set().contains(x) == old_set.filter(
                    |g: i64| g < expired_gen,
                ).contains(x) by {
                    if old_set.contains(x) && x < expired_gen {
                        let q = choose|q: int| 0 <= q < self.gens@.len() && self.gens@[q] == x;
                    }
                }
            }
            let c = self.current_gen;
            assert(self.gens@.contains(c));
            let q = choose|q: int| 0 <= q < self.gens@.len() && self.gens@[q] == c;
            assert(gens@.contains(c));
        }
        self.gens = gens;
        assert(self.keys@.len() == self.positions@.len());
        assert(self.index_map@.dom().finite());
        assert(self.index_map@.dom().len() == self.keys@.len());
        assert(self.gens@.contains(self.current_gen));
        stale
    }

    /// The first of `vec_cmd_pos` (ordered oldest first) that lies less than
    /// `compaction_threshold` bytes before `last_pos`; 0 where none does.
    pub fn get_max_new_pos(vec_cmd_pos: &[CommandPos], last_pos: u64, compaction_threshold: u64) -> (r:
        usize)
        ensures
            (exists|i: int|
                0 <= i < vec_cmd_pos@.len() && #[trigger] near_end(vec_cmd_pos@[i], last_pos, compaction_threshold))
                ==> r < vec_cmd_pos@.len() && near_end(vec_cmd_pos@[r as int], last_pos, compaction_threshold)
                && forall|j: int| 0 <= j < r ==> !#[trigger] near_end(vec_cmd_pos@[j], last_pos, compaction_threshold),
            (forall|i: int|
                0 <= i < vec_cmd_pos@.len() ==> !#[trigger] near_end(vec_cmd_pos@[i], last_pos, compaction_threshold))
                ==> r == 0,
    {
        let mut i: usize = 0;
        while i < vec_cmd_pos.len()
            invariant
                i <= vec_cmd_pos@.len(),
                forall|j: int| 0 <= j < i ==> !#[trigger] near_end(vec_cmd_pos@[j], last_pos, compaction_threshold),
            decreases vec_cmd_pos@.len() - i,
        {
            let item = vec_cmd_pos[i];
            if item.pos > last_pos || last_pos - item.pos < compaction_threshold {
                assert(near_end(vec_cmd_pos@[i as int], last_pos, compaction_threshold));
                return i;
            }
            i = i + 1;
        }
        0
    }
}

/// Whether record `p` starts less than `threshold` bytes before `last_pos`.
pub open spec fn near_end(p: CommandPos, last_pos: u64, threshold: u64) -> bool {
    last_pos - p.pos < threshold
}

/// Order by generation, then by position.
pub open spec fn pos_le(a: CommandPos, b: CommandPos) -> bool {
    a.gen < b.gen || (a.gen == b.gen && a.pos <= b.pos)
}

/// The lexicographic order of tuples, as std defines `Ord` for them.
pub open spec fn triple_le(a: (i64, u64, usize), b: (i64, u64, usize)) -> bool {
    a.0 < b.0 || (a.0 == b.0 && (a.1 < b.1 || (a.1 == b.1 && a.2 <= b.2)))
}

/// Relies on `Itertools::sorted_unstable`: the same items, in ascending
/// order of the tuples.
#[verifier::external_body]
fn sort_triples(v: Vec<(i64, u64, usize)>) -> (r: Vec<(i64, u64, usize)>)
    ensures
        r@.to_multiset() == v@.to_multiset(),
        forall|i: int, j: int| 0 <= i < j < r@.len() ==> triple_le(#[trigger] r@[i], #[trigger] r@[j]),
{
    itertools::Itertools::sorted_unstable(v.into_iter()).collect()
}

/// The entries of `m` in generations from `g` on.
pub open spec fn retained(m: Map<Seq<u8>, CommandPos>, g: i64) -> Map<Seq<u8>, CommandPos> {
    Map::new(|k: Seq<u8>| m.contains_key(k) && m[k].gen >= g, |k: Seq<u8>| m[k])
}

pub open spec fn moves_view(moved: Seq<(Vec<u8>, CommandPos)>) -> Seq<(Seq<u8>, CommandPos)> {
    moved.map_values(|e: (Vec<u8>, CommandPos)| (e.0@, e.1))
}

/// The index after each moved key that is live is pointed at its new place.
pub open spec fn apply_moves(m: Map<Seq<u8>, CommandPos>, moved: Seq<(Seq<u8>, CommandPos)>) -> Map<
    Seq<u8>,
    CommandPos,
>
    decreases moved.len(),
{
    if moved.len() == 0 {
        m
    } else {
        let prev = apply_moves(m, moved.drop_last());
        if prev.contains_key(moved.last().0) {
            prev.insert(moved.last().0, moved.last().1)
        } else {
            prev
        }
    }
}

} // verus!
