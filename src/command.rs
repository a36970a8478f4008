use vstd::prelude::*;

verus! {

/// Number of bytes of the big-endian length that precedes every payload.
pub const FRAME_HEADER_LEN: usize = 4;

/// A command record: what is appended to a log, one per mutation.
#[derive(Debug, Clone, PartialEq, Eq, Hash)]
#[non_exhaustive]
pub enum CommandData {
    Put { key: Vec<u8>, value: Vec<u8> },
    Remove { key: Vec<u8> },
    Get { key: Vec<u8> },
}

/// Where a record lies on disk: segment generation, payload offset, payload length.
#[derive(Debug, Clone, Copy, PartialEq, Eq, Structural)]
pub struct CommandPos {
    pub gen: i64,
    pub pos: u64,
    pub len: usize,
}

/// A decoded record together with the payload span it was read from.
#[derive(Debug)]
pub struct CommandPackage {
    pub cmd: CommandData,
    pub pos: u64,
    pub len: usize,
}

impl CommandData {
    pub open spec fn key_view(&self) -> Seq<u8> {
        match self {
            CommandData::Put { key, .. } => key@,
            CommandData::Remove { key } => key@,
            CommandData::Get { key } => key@,
        }
    }

    pub open spec fn value_view(&self) -> Option<Seq<u8>> {
        match self {
            CommandData::Put { value, .. } => Some(value@),
            _ => None,
        }
    }

    /// Estimated overhead of the encoding beyond key and value bytes.
    pub open spec fn cmd_len_spec(&self) -> nat {
        match self {
            CommandData::Put { .. } => 10,
            CommandData::Remove { .. } => 12,
            CommandData::Get { .. } => 9,
        }
    }

    /// Estimated encoded size of the record.
    pub open spec fn data_len_spec(&self) -> nat {
        self.key_view().len() + match self.value_view() {
            Some(v) => v.len(),
            None => 0,
        } + self.cmd_len_spec()
    }

    pub fn get_key(&self) -> (r: &Vec<u8>)
        ensures
            r@ == self.key_view(),
    {
        match self {
            CommandData::Put { key, .. } => key,
            CommandData::Remove { key } => key,
            CommandData::Get { key } => key,
        }
    }

    pub fn get_key_clone(&self) -> (r: Vec<u8>)
        ensures
            r@ == self.key_view(),
    {
        copy_bytes(self.get_key().as_slice())
    }

    pub fn get_key_owner(self) -> (r: Vec<u8>)
        ensures
            r@ == self.key_view(),
    {
        match self {
            CommandData::Put { key, .. } => key,
            CommandData::Remove { key } => key,
            CommandData::Get { key } => key,
        }
    }

    pub fn get_value(&self) -> (r: Option<&Vec<u8>>)
        ensures
            match r {
                Some(v) => self.value_view() == Some(v@),
                None => self.value_view() is None,
            },
    {
        match self {
            CommandData::Put { value, .. } => Some(value),
            CommandData::Remove { .. } | CommandData::Get { .. } => None,
        }
    }

    pub fn get_value_clone(&self) -> (r: Option<Vec<u8>>)
        ensures
            match r {
                Some(v) => self.value_view() == Some(v@),
                None => self.value_view() is None,
            },
    {
        match self {
            CommandData::Put { value, .. } => Some(copy_bytes(value.as_slice())),
            CommandData::Remove { .. } | CommandData::Get { .. } => None,
        }
    }

    pub fn get_value_owner(self) -> (r: Option<Vec<u8>>)
        ensures
            match r {
                Some(v) => self.value_view() == Some(v@),
                None => self.value_view() is None,
            },
    {
        match self {
            CommandData::Put { value, .. } => Some(value),
            CommandData::Remove { .. } | CommandData::Get { .. } => None,
        }
    }

    pub fn get_data_len_for_rmp(&self) -> (r: usize)
        requires
            self.data_len_spec() <= usize::MAX,
        ensures
            r == self.data_len_spec(),
    {
        let value_len: usize = match self.get_value() {
            Some(value) => value.len(),
            None => 0,
        };
        self.get_key().len() + value_len + self.get_cmd_len_for_rmp()
    }

    pub fn get_cmd_len_for_rmp(&self) -> (r: usize)
        ensures
            r == self.cmd_len_spec(),
    {
        match self {
            CommandData::Put { .. } => 10,
            CommandData::Remove { .. } => 12,
            CommandData::Get { .. } => 9,
        }
    }

    pub fn set(key: Vec<u8>, value: Vec<u8>) -> (r: Self)
        ensures
            r == (CommandData::Put { key, value }),
    {
        CommandData::Put { key, value }
    }

    pub fn remove(key: Vec<u8>) -> (r: Self)
        ensures
            r == (CommandData::Remove { key }),
    {
        CommandData::Remove { key }
    }

    pub fn get(key: Vec<u8>) -> (r: Self)
        ensures
            r == (CommandData::Get { key }),
    {
        CommandData::Get { key }
    }

    /// What a point lookup answers when the index led to this record:
    /// the value of a `Set`, `UnexpectedCommandType` for any other record.
    pub fn into_lookup_result(self) -> (r: Result<Vec<u8>, crate::error::KvsError>)
        ensures
            match self.value_view() {
                Some(v) => r matches Ok(w) && w@ == v,
                None => r == Err::<Vec<u8>, crate::error::KvsError>(
                    crate::error::KvsError::UnexpectedCommandType,
                ),
            },
    {
        match self {
            CommandData::Put { value, .. } => Ok(value),
            _ => Err(crate::error::KvsError::UnexpectedCommandType),
        }
    }
}

impl CommandPos {
    /// Point this position at a new place.
    pub fn change(&mut self, file_gen: i64, pos: u64, len: usize)
        ensures
            *final(self) == (CommandPos { gen: file_gen, pos, len }),
    {
        self.gen = file_gen;
        self.pos = pos;
        self.len = len;
    }
}

/// A copy of a byte slice.
pub fn copy_bytes(s: &[u8]) -> (r: Vec<u8>)
    ensures
        r@ == s@,
{
    copy_range(s, 0, s.len())
}

/// A copy of `s[start .. start + len]`.
pub fn copy_range(s: &[u8], start: usize, len: usize) -> (r: Vec<u8>)
    requires
        start + len <= s@.len(),
    ensures
        r@ == s@.subrange(start as int, start + len),
{
    let mut r: Vec<u8> = Vec::new();
    let mut i: usize = 0;
    let n = s.len();
    while i < len
        invariant
            i <= len,
            n == s@.len(),
            start + len <= s@.len(),
            r@ == s@.subrange(start as int, start + i),
        decreases len - i,
    {
        r.push(s[start + i]);
        i = i + 1;
        assert(r@ =~= s@.subrange(start as int, start + i));
    }
    r
}

/// Whether two byte strings are equal.
pub fn same_bytes(a: &[u8], b: &[u8]) -> (r: bool)
    ensures
        r == (a@ == b@),
{
    if a.len() != b.len() {
        return false;
    }
    let mut i: usize = 0;
    while i < a.len()
        invariant
            a@.len() == b@.len(),
            i <= a@.len(),
            forall|j: int| 0 <= j < i ==> a@[j] == b@[j],
        decreases a.len() - i,
    {
        if a[i] != b[i] {
            return false;
        }
        i = i + 1;
    }
    assert(a@ =~= b@);
    true
}


/// The four big-endian bytes of `n`.
pub open spec fn be_u32_bytes(n: u32) -> Seq<u8> {
    seq![(n >> 24u32) as u8, (n >> 16u32) as u8, (n >> 8u32) as u8, n as u8]
}

/// The number that the first four bytes of `b` hold, big-endian.
pub open spec fn be_u32_value(b: Seq<u8>) -> u32 {
    (b[0] as u32) << 24u32 | (b[1] as u32) << 16u32 | (b[2] as u32) << 8u32 | (b[3] as u32)
}

/// A payload with its length in front.
pub open spec fn frame_spec(payload: Seq<u8>) -> Seq<u8> {
    be_u32_bytes(payload.len() as u32) + payload
}

/// The frames of `xs`, one after another.
pub open spec fn frames_spec(xs: Seq<Seq<u8>>) -> Seq<u8>
    decreases xs.len(),
{
    if xs.len() == 0 {
        Seq::empty()
    } else {
        frames_spec(xs.drop_last()) + frame_spec(xs.last())
    }
}

/// Whether every payload of `xs` can be framed and found again: it is
/// not empty and its length fits the four-byte header.
pub open spec fn frameable(xs: Seq<Seq<u8>>) -> bool {
    forall|i: int| 0 <= i < xs.len() ==> 1 <= #[trigger] xs[i].len() <= u32::MAX
}

/// The (payload offset, payload length) pairs that a scan of `b` finds from
/// offset `last` on. It stops at the first header that does not fit, that
/// declares zero bytes, or that declares more bytes than remain.
pub open spec fn scan_spans(b: Seq<u8>, last: nat) -> Seq<(nat, nat)>
    decreases b.len() - last,
{
    if last + 4 < b.len() {
        let len = be_u32_value(b.subrange(last as int, (last + 4) as int)) as nat;
        if 1 <= len && last + 4 + len <= b.len() {
            seq![((last + 4) as nat, len)] + scan_spans(b, last + 4 + len)
        } else {
            Seq::empty()
        }
    } else {
        Seq::empty()
    }
}

/// The payloads that a scan of `b` finds.
pub open spec fn scan_spec(b: Seq<u8>) -> Seq<Seq<u8>> {
    scan_spans(b, 0).map_values(|s: (nat, nat)| b.subrange(s.0 as int, (s.0 + s.1) as int))
}

pub open spec fn spans_view(r: Seq<(usize, usize)>) -> Seq<(nat, nat)> {
    r.map_values(|s: (usize, usize)| (s.0 as nat, s.1 as nat))
}

proof fn lemma_be_u32_round_trip(n: u32)
    ensures
        be_u32_value(be_u32_bytes(n)) == n,
{
    let b = be_u32_bytes(n);
    assert(b[0] == (n >> 24u32) as u8 && b[1] == (n >> 16u32) as u8 && b[2] == (n >> 8u32) as u8
        && b[3] == n as u8);
    assert((((n >> 24u32) as u8) as u32) << 24u32 | (((n >> 16u32) as u8) as u32) << 16u32 | (((n
        >> 8u32) as u8) as u32) << 8u32 | ((n as u8) as u32) == n) by (bit_vector);
}

proof fn lemma_frames_first(xs: Seq<Seq<u8>>)
    requires
        xs.len() > 0,
    ensures
        frames_spec(xs) == frame_spec(xs[0]) + frames_spec(xs.drop_first()),
    decreases xs.len(),
{
    if xs.len() == 1 {
        assert(xs.drop_last() =~= Seq::<Seq<u8>>::empty());
        assert(xs.drop_first() =~= Seq::<Seq<u8>>::empty());
        assert(frames_spec(xs) =~= frame_spec(xs[0]) + frames_spec(xs.drop_first()));
    } else {
        lemma_frames_first(xs.drop_last());
        assert(xs.drop_last().drop_first() =~= xs.drop_first().drop_last());
        assert(xs.drop_first().last() == xs.last());
        assert(frames_spec(xs) =~= frame_spec(xs[0]) + frames_spec(xs.drop_first()));
    }
}

proof fn lemma_scan_after_prefix(p: Seq<u8>, xs: Seq<Seq<u8>>)
    requires
        frameable(xs),
    ensures
        ({
            let b = p + frames_spec(xs);
            let sp = scan_spans(b, p.len());
            &&& sp.len() == xs.len()
            &&& forall|i: int|
                0 <= i < xs.len() ==> b.subrange(sp[i].0 as int, (sp[i].0 + sp[i].1) as int) == xs[i]
        }),
    decreases xs.len(),
{
    let b = p + frames_spec(xs);
    if xs.len() == 0 {
        assert(b =~= p);
    } else {
        lemma_frames_first(xs);
        let x0 = xs[0];
        let rest = xs.drop_first();
        let p2 = p + frame_spec(x0);
        assert(b =~= p2 + frames_spec(rest));
        assert(frameable(rest)) by {
            assert forall|i: int| 0 <= i < rest.len() implies 1 <= #[trigger] rest[i].len()
                <= u32::MAX by {
                assert(rest[i] == xs[i + 1]);
            }
        }
        assert(1 <= xs[0].len() <= u32::MAX);
        lemma_scan_after_prefix(p2, rest);
        let last = p.len();
        assert(b.subrange(last as int, (last + 4) as int) =~= be_u32_bytes(x0.len() as u32));
        lemma_be_u32_round_trip(x0.len() as u32);
        assert(b.subrange((last + 4) as int, (last + 4 + x0.len()) as int) =~= x0);
        let sp = scan_spans(b, p.len());
        let sp2 = scan_spans(b, p2.len());
        assert(p2.len() == last + 4 + x0.len());
        assert(sp == seq![((last + 4) as nat, x0.len())] + sp2);
        assert forall|i: int| 0 <= i < xs.len() implies b.subrange(
            sp[i].0 as int,
            (sp[i].0 + sp[i].1) as int,
        ) == xs[i] by {
            if i > 0 {
                assert(sp[i] == sp2[i - 1]);
                assert(xs[i] == rest[i - 1]);
            }
        }
    }
}

/// Scanning framed payloads gives the payloads back: for every list of
/// payloads that are not empty and whose lengths fit the header, scanning
/// the concatenation of their frames yields exactly that list.
pub proof fn lemma_scan_frames(xs: Seq<Seq<u8>>)
    requires
        frameable(xs),
    ensures
        scan_spec(frames_spec(xs)) == xs,
{
    lemma_scan_after_prefix(Seq::empty(), xs);
    let b = frames_spec(xs);
    assert(Seq::<u8>::empty() + b =~= b);
    assert(scan_spec(b) =~= xs);
}

impl CommandPackage {
    pub fn new(cmd: CommandData, pos: u64, len: usize) -> (r: Self)
        ensures
            r.cmd == cmd,
            r.pos == pos,
            r.len == len,
    {
        CommandPackage { cmd, pos, len }
    }

    /// The payload span of a frame that was written at `start` with
    /// `len` bytes in all: the header is left out.
    pub fn payload_span(start: u64, len: usize) -> (r: (u64, usize))
        requires
            len >= 4,
            start + 4 <= u64::MAX,
        ensures
            r == ((start + 4) as u64, (len - 4) as usize),
    {
        (start + 4, len - 4)
    }

    /// The frame of one payload: its length as four big-endian bytes, then the payload.
    pub fn trans_to_vec_u8(payload: &[u8]) -> (r: Vec<u8>)
        requires
            payload@.len() <= u32::MAX,
        ensures
            r@ == frame_spec(payload@),
    {
        let n = payload.len() as u32;
        let mut r: Vec<u8> = Vec::new();
        r.push((n >> 24u32) as u8);
        r.push((n >> 16u32) as u8);
        r.push((n >> 8u32) as u8);
        r.push(n as u8);
        let mut i: usize = 0;
        while i < payload.len()
            invariant
                i <= payload@.len(),
                r@ == be_u32_bytes(n) + payload@.subrange(0, i as int),
            decreases payload@.len() - i,
        {
            r.push(payload[i]);
            i = i + 1;
            assert(r@ =~= be_u32_bytes(n) + payload@.subrange(0, i as int));
        }
        assert(payload@.subrange(0, i as int) =~= payload@);
        r
    }

    /// Frames the payloads of every shard into one byte string, shard after
    /// shard, and reports how many bytes each shard took.
    pub fn write_batch_first_pos_with_sharding(vec_sharding: &Vec<Vec<Vec<u8>>>) -> (r: (
        Vec<u8>,
        Vec<usize>,
    ))
        requires
            forall|i: int|
                0 <= i < vec_sharding@.len() ==> frameable(
                    #[trigger] shard_view(vec_sharding@[i]),
                ),
            batch_spec(shards_view(vec_sharding@)).len() <= usize::MAX,
        ensures
            r.0@ == batch_spec(shards_view(vec_sharding@)),
            r.1@.len() == vec_sharding@.len(),
            forall|i: int|
                0 <= i < vec_sharding@.len() ==> r.1@[i] == frames_spec(
                    #[trigger] shard_view(vec_sharding@[i]),
                ).len(),
    {
        let mut bytes: Vec<u8> = Vec::new();
        let mut lens: Vec<usize> = Vec::new();
        let mut i: usize = 0;
        while i < vec_sharding.len()
            invariant
                i <= vec_sharding@.len(),
                forall|k: int|
                    0 <= k < vec_sharding@.len() ==> frameable(
                        #[trigger] shard_view(vec_sharding@[k]),
                    ),
                batch_spec(shards_view(vec_sharding@)).len() <= usize::MAX,
                bytes@ == batch_spec(shards_view(vec_sharding@).subrange(0, i as int)),
                lens@.len() == i,
                forall|k: int|
                    0 <= k < i ==> lens@[k] == frames_spec(
                        #[trigger] shard_view(vec_sharding@[k]),
                    ).len(),
            decreases vec_sharding@.len() - i,
        {
            let shard = &vec_sharding[i];
            let ghost before = bytes@;
            let start_len = bytes.len();
            proof {
                lemma_batch_prefix_len(shards_view(vec_sharding@), i as int + 1);
                let s = shards_view(vec_sharding@).subrange(0, i as int + 1);
                assert(s.drop_last() =~= shards_view(vec_sharding@).subrange(0, i as int));
                assert(s.last() == shard_view(vec_sharding@[i as int]));
            }
            let mut j: usize = 0;
            while j < shard.len()
                invariant
                    i < vec_sharding@.len(),
                    shard == vec_sharding@[i as int],
                    j <= shard@.len(),
                    frameable(shard_view(*shard)),
                    before.len() + frames_spec(shard_view(*shard)).len() <= usize::MAX,
                    bytes@ == before + frames_spec(shard_view(*shard).subrange(0, j as int)),
                decreases shard@.len() - j,
            {
                let ghost xs = shard_view(*shard).subrange(0, j as int + 1);
                proof {
                    assert(shard_view(*shard)[j as int] == shard@[j as int]@);
                    assert(xs.drop_last() =~= shard_view(*shard).subrange(0, j as int));
                    lemma_frames_prefix_len(shard_view(*shard), j as int + 1);
                }
                let framed = Self::trans_to_vec_u8(shard[j].as_slice());
                let mut k: usize = 0;
                while k < framed.len()
                    invariant
                        k <= framed@.len(),
                        before.len() + frames_spec(shard_view(*shard)).len() <= usize::MAX,
                        frames_spec(xs).len() <= frames_spec(shard_view(*shard)).len(),
                        frames_spec(xs) == frames_spec(xs.drop_last()) + framed@,
                        bytes@ == before + frames_spec(xs.drop_last()) + framed@.subrange(
                            0,
                            k as int,
                        ),
                    decreases framed@.len() - k,
                {
                    bytes.push(framed[k]);
                    k = k + 1;
                    assert(bytes@ =~= before + frames_spec(xs.drop_last()) + framed@.subrange(
                        0,
                        k as int,
                    ));
                }
                assert(framed@.subrange(0, k as int) =~= framed@);
                assert(bytes@ =~= before + frames_spec(xs));
                j = j + 1;
            }
            assert(shard_view(*shard).subrange(0, j as int) =~= shard_view(*shard));
            lens.push(bytes.len() - start_len);
            proof {
                let s = shards_view(vec_sharding@).subrange(0, i as int + 1);
                assert(bytes@ =~= batch_spec(s));
            }
            i = i + 1;
        }
        assert(shards_view(vec_sharding@).subrange(0, i as int) =~= shards_view(vec_sharding@));
        (bytes, lens)
    }

    /// The payload spans of every frame in `bytes`, in order: a scan from
    /// the start that stops at the first inconsistent header.
    pub fn get_vec_spans(bytes: &[u8]) -> (r: Vec<(usize, usize)>)
        ensures
            spans_view(r@) == scan_spans(bytes@, 0),
    {
        let mut r: Vec<(usize, usize)> = Vec::new();
        let mut last: usize = 0;
        let n = bytes.len();
        while n >= 4 && last < n - 4
            invariant
                n == bytes@.len(),
                last <= n,
                spans_view(r@) + scan_spans(bytes@, last as nat) == scan_spans(bytes@, 0),
            decreases n - last,
        {
            let len = Self::be_u32_at(bytes, last) as usize;
            if len < 1 || len > n - last - 4 {
                assert(scan_spans(bytes@, last as nat) =~= Seq::<(nat, nat)>::empty());
                assert(spans_view(r@) =~= spans_view(r@) + scan_spans(bytes@, last as nat));
                return r;
            }
            let ghost old_r = r@;
            r.push((last + 4, len));
            assert(spans_view(r@) =~= spans_view(old_r) + seq![((last + 4) as nat, len as nat)]);
            last = last + 4 + len;
            assert(spans_view(r@) + scan_spans(bytes@, last as nat) =~= spans_view(old_r)
                + scan_spans(bytes@, (last - 4 - len) as nat));
        }
        assert(scan_spans(bytes@, last as nat) =~= Seq::<(nat, nat)>::empty());
        assert(spans_view(r@) =~= spans_view(r@) + scan_spans(bytes@, last as nat));
        r
    }

    /// The payloads of every frame in `bytes`, in order.
    pub fn get_vec_bytes(bytes: &[u8]) -> (r: Vec<Vec<u8>>)
        ensures
            r@.len() == scan_spec(bytes@).len(),
            forall|i: int| 0 <= i < r@.len() ==> (#[trigger] r@[i])@ == scan_spec(bytes@)[i],
    {
        let spans = Self::get_vec_spans(bytes);
        proof {
            lemma_spans_in_bounds(bytes@, 0);
        }
        let mut r: Vec<Vec<u8>> = Vec::new();
        let mut i: usize = 0;
        while i < spans.len()
            invariant
                i <= spans@.len(),
                spans_view(spans@) == scan_spans(bytes@, 0),
                forall|k: int|
                    0 <= k < scan_spans(bytes@, 0).len() ==> #[trigger] scan_spans(bytes@, 0)[k].0
                        + scan_spans(bytes@, 0)[k].1 <= bytes@.len(),
                r@.len() == i,
                forall|k: int| 0 <= k < i ==> (#[trigger] r@[k])@ == scan_spec(bytes@)[k],
            decreases spans@.len() - i,
        {
            let (start, len) = spans[i];
            assert(spans_view(spans@)[i as int] == (start as nat, len as nat));
            let payload = copy_range(bytes, start, len);
            r.push(payload);
            i = i + 1;
        }
        r
    }

    /// The number that four bytes hold, big-endian.
    pub fn from_4_bit_with_start(len_u8: &[u8]) -> (r: usize)
        requires
            len_u8@.len() >= 4,
        ensures
            r == be_u32_value(len_u8@) as usize,
    {
        Self::be_u32_at(len_u8, 0) as usize
    }

    fn be_u32_at(bytes: &[u8], at: usize) -> (r: u32)
        requires
            at + 4 <= bytes@.len(),
        ensures
            r == be_u32_value(bytes@.subrange(at as int, at + 4)),
    {
        (bytes[at] as u32) << 24u32 | (bytes[at + 1] as u32) << 16u32 | (bytes[at + 2] as u32)
            << 8u32 | (bytes[at + 3] as u32)
    }
}

proof fn lemma_spans_in_bounds(b: Seq<u8>, last: nat)
    ensures
        forall|k: int|
            0 <= k < scan_spans(b, last).len() ==> #[trigger] scan_spans(b, last)[k].0 + scan_spans(
                b,
                last,
            )[k].1 <= b.len(),
    decreases b.len() - last,
{
    if last + 4 < b.len() {
        let len = be_u32_value(b.subrange(last as int, (last + 4) as int)) as nat;
        if 1 <= len && last + 4 + len <= b.len() {
            lemma_spans_in_bounds(b, last + 4 + len);
            let rest = scan_spans(b, last + 4 + len);
            assert forall|k: int| 0 <= k < scan_spans(b, last).len() implies #[trigger] scan_spans(
                b,
                last,
            )[k].0 + scan_spans(b, last)[k].1 <= b.len() by {
                if k > 0 {
                    assert(scan_spans(b, last)[k] == rest[k - 1]);
                }
            }
        }
    }
}

/// The payloads of a shard, as byte sequences.
pub open spec fn shard_view(shard: Vec<Vec<u8>>) -> Seq<Seq<u8>> {
    shard@.map_values(|p: Vec<u8>| p@)
}

pub open spec fn shards_view(shards: Seq<Vec<Vec<u8>>>) -> Seq<Seq<Seq<u8>>> {
    shards.map_values(|s: Vec<Vec<u8>>| shard_view(s))
}

/// The frames of every shard, shard after shard.
pub open spec fn batch_spec(shards: Seq<Seq<Seq<u8>>>) -> Seq<u8>
    decreases shards.len(),
{
    if shards.len() == 0 {
        Seq::empty()
    } else {
        batch_spec(shards.drop_last()) + frames_spec(shards.last())
    }
}

proof fn lemma_batch_prefix_len(shards: Seq<Seq<Seq<u8>>>, i: int)
    requires
        0 <= i <= shards.len(),
    ensures
        batch_spec(shards.subrange(0, i)).len() <= batch_spec(shards).len(),
    decreases shards.len(),
{
    if i < shards.len() {
        lemma_batch_prefix_len(shards.drop_last(), i);
        assert(shards.drop_last().subrange(0, i) =~= shards.subrange(0, i));
    } else {
        assert(shards.subrange(0, i) =~= shards);
    }
}

proof fn lemma_frames_prefix_len(xs: Seq<Seq<u8>>, i: int)
    requires
        0 <= i <= xs.len(),
    ensures
        frames_spec(xs.subrange(0, i)).len() <= frames_spec(xs).len(),
    decreases xs.len(),
{
    if i < xs.len() {
        lemma_frames_prefix_len(xs.drop_last(), i);
        assert(xs.drop_last().subrange(0, i) =~= xs.subrange(0, i));
    } else {
        assert(xs.subrange(0, i) =~= xs);
    }
}

} // verus!
