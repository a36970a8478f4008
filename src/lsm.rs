use vstd::prelude::*;
use vstd::bytes::{spec_u64_from_le_bytes, spec_u64_to_le_bytes};
use crate::command::CommandData;
use crate::error::KvsError;
use crate::block_cache::{block_model, cache_contents, cache_get, cache_new, cache_put, BlockCache};

verus! {

/// Size of a table footer: five integers of eight bytes each.
pub const TABLE_META_INFO_SIZE: usize = 40;

/// The footer of a sorted string table.
#[derive(Debug, Clone, Copy, PartialEq, Eq, Structural)]
pub struct MetaInfo {
    pub level: u64,
    pub version: u64,
    pub data_part_len: u64,
    pub index_len: u64,
    pub crc_code: u64,
}

/// The CRC-32 checksum of `data`.
pub uninterp spec fn crc32_of(data: Seq<u8>) -> u32;

/// Relies on `crc32fast::hash`: the CRC-32 of the bytes, which depends on
/// the bytes alone.
#[verifier::external_body]
fn crc32(data: &[u8]) -> (r: u32)
    ensures
        r == crc32_of(data@),
{
    crc32fast::hash(data)
}

/// The footer bytes: each field as eight little-endian bytes, in order.
pub open spec fn footer_spec(m: MetaInfo) -> Seq<u8> {
    spec_u64_to_le_bytes(m.level) + spec_u64_to_le_bytes(m.version) + spec_u64_to_le_bytes(
        m.data_part_len,
    ) + spec_u64_to_le_bytes(m.index_len) + spec_u64_to_le_bytes(m.crc_code)
}

/// The footer that the first forty bytes of `b` hold.
pub open spec fn footer_from(b: Seq<u8>) -> MetaInfo {
    MetaInfo {
        level: spec_u64_from_le_bytes(b.subrange(0, 8)),
        version: spec_u64_from_le_bytes(b.subrange(8, 16)),
        data_part_len: spec_u64_from_le_bytes(b.subrange(16, 24)),
        index_len: spec_u64_from_le_bytes(b.subrange(24, 32)),
        crc_code: spec_u64_from_le_bytes(b.subrange(32, 40)),
    }
}

/// Relies on `bincode::serialize` of a tuple of five `u64`: its default
/// configuration writes each integer as eight little-endian bytes, in
/// order, with nothing around them. It has no size limit and writes into
/// a `Vec`, so it does not fail.
#[verifier::external_body]
fn encode_footer(t: (u64, u64, u64, u64, u64)) -> (r: Option<Vec<u8>>)
    ensures
        r is Some,
        r matches Some(v) ==> v@ == footer_spec(
            MetaInfo { level: t.0, version: t.1, data_part_len: t.2, index_len: t.3, crc_code: t.4 },
        ),
{
    bincode::serialize(&t).ok()
}

/// Relies on `bincode::deserialize` of a tuple of five `u64`: its default
/// configuration reads each integer from eight little-endian bytes, fails
/// where fewer than forty bytes are given, and ignores any bytes after them.
#[verifier::external_body]
fn decode_footer(b: &[u8]) -> (r: Option<(u64, u64, u64, u64, u64)>)
    ensures
        r is Some <==> b@.len() >= 40,
        r matches Some(t) ==> footer_from(b@) == (MetaInfo {
            level: t.0,
            version: t.1,
            data_part_len: t.2,
            index_len: t.3,
            crc_code: t.4,
        }),
{
    bincode::deserialize(b).ok()
}

proof fn lemma_footer_round_trip(m: MetaInfo)
    ensures
        footer_spec(m).len() == 40,
        footer_from(footer_spec(m)) == m,
{
    vstd::bytes::lemma_auto_spec_u64_to_from_le_bytes();
    let b = footer_spec(m);
    assert(b.subrange(0, 8) =~= spec_u64_to_le_bytes(m.level));
    assert(b.subrange(8, 16) =~= spec_u64_to_le_bytes(m.version));
    assert(b.subrange(16, 24) =~= spec_u64_to_le_bytes(m.data_part_len));
    assert(b.subrange(24, 32) =~= spec_u64_to_le_bytes(m.index_len));
    assert(b.subrange(32, 40) =~= spec_u64_to_le_bytes(m.crc_code));
}

/// A table file: data block, extra block, then the footer that describes them.
pub open spec fn table_spec(data: Seq<u8>, extra: Seq<u8>, level: u64, version: u64) -> Seq<u8> {
    data + extra + footer_spec(meta_for(data, extra, level, version))
}

/// The footer of a table with these blocks.
pub open spec fn meta_for(data: Seq<u8>, extra: Seq<u8>, level: u64, version: u64) -> MetaInfo {
    MetaInfo {
        level,
        version,
        data_part_len: data.len() as u64,
        index_len: extra.len() as u64,
        crc_code: crc32_of(data) as u64,
    }
}

/// What opening the table file `b` gives: its footer where the footer
/// fits the file and its checksum matches the data block.
pub open spec fn open_table_spec(b: Seq<u8>) -> Result<MetaInfo, KvsError> {
    if b.len() < 40 {
        Err(KvsError::SerdeBinCode)
    } else {
        let m = footer_from(b.subrange(b.len() - 40, b.len() as int));
        if m.data_part_len + m.index_len + 40 != b.len() {
            Err(KvsError::CrcMisMatch)
        } else if crc32_of(b.subrange(0, m.data_part_len as int)) as u64 != m.crc_code {
            Err(KvsError::CrcMisMatch)
        } else {
            Ok(m)
        }
    }
}

impl MetaInfo {
    /// The forty footer bytes.
    pub fn to_bytes(&self) -> (r: Result<Vec<u8>, KvsError>)
        ensures
            r matches Ok(v) && v@ == footer_spec(*self) && v@.len() == 40,
    {
        proof {
            lemma_footer_round_trip(*self);
        }
        match encode_footer(
            (self.level, self.version, self.data_part_len, self.index_len, self.crc_code),
        ) {
            Some(v) => Ok(v),
            None => Err(KvsError::SerdeBinCode),
        }
    }

    /// The footer that the first forty bytes of `b` hold.
    pub fn from_bytes(b: &[u8]) -> (r: Result<MetaInfo, KvsError>)
        ensures
            b@.len() >= 40 ==> r == Ok::<MetaInfo, KvsError>(footer_from(b@)),
            b@.len() < 40 ==> r == Err::<MetaInfo, KvsError>(KvsError::SerdeBinCode),
    {
        match decode_footer(b) {
            Some(t) => Ok(MetaInfo {
                level: t.0,
                version: t.1,
                data_part_len: t.2,
                index_len: t.3,
                crc_code: t.4,
            }),
            None => Err(KvsError::SerdeBinCode),
        }
    }

    /// The footer of a table whose data block is `data` and whose extra
    /// block has `index_len` bytes.
    pub fn for_table(level: u64, version: u64, data: &[u8], index_len: u64) -> (r: MetaInfo)
        ensures
            r == (MetaInfo {
                level,
                version,
                data_part_len: data@.len() as u64,
                index_len,
                crc_code: crc32_of(data@) as u64,
            }),
    {
        MetaInfo {
            level,
            version,
            data_part_len: data.len() as u64,
            index_len,
            crc_code: crc32(data) as u64,
        }
    }

    /// A whole table file: data block, extra block and footer.
    pub fn write_table(data: &[u8], extra: &[u8], level: u64, version: u64) -> (r: Result<
        Vec<u8>,
        KvsError,
    >)
        requires
            data@.len() + extra@.len() + 40 <= usize::MAX,
        ensures
            r matches Ok(v) && v@ == table_spec(data@, extra@, level, version),
    {
        let meta = Self::for_table(level, version, data, extra.len() as u64);
        let footer = meta.to_bytes()?;
        let mut out: Vec<u8> = Vec::new();
        append_bytes(&mut out, data);
        append_bytes(&mut out, extra);
        append_bytes(&mut out, footer.as_slice());
        assert(meta == meta_for(data@, extra@, level, version));
        Ok(out)
    }

    /// Opens a table file: reads the footer from its last forty bytes and
    /// checks that the footer describes the file and that the checksum
    /// of the data block matches.
    pub fn read_to_file(file: &[u8]) -> (r: Result<MetaInfo, KvsError>)
        ensures
            r == open_table_spec(file@),
    {
        let n = file.len();
        if n < TABLE_META_INFO_SIZE {
            return Err(KvsError::SerdeBinCode);
        }
        let tail = crate::command::copy_range(file, n - TABLE_META_INFO_SIZE, TABLE_META_INFO_SIZE);
        let meta = Self::from_bytes(tail.as_slice())?;
        let body = (n - TABLE_META_INFO_SIZE) as u64;
        if meta.data_part_len > body || meta.index_len != body - meta.data_part_len {
            return Err(KvsError::CrcMisMatch);
        }
        let data = crate::command::copy_range(file, 0, meta.data_part_len as usize);
        meta.check_crc(crc32(data.as_slice()))
    }

    /// The footer itself where `data_crc`, the checksum of the data block,
    /// matches the one it records; `CrcMisMatch` otherwise.
    pub fn check_crc(&self, data_crc: u32) -> (r: Result<MetaInfo, KvsError>)
        ensures
            r == if data_crc as u64 == self.crc_code {
                Ok::<MetaInfo, KvsError>(*self)
            } else {
                Err::<MetaInfo, KvsError>(KvsError::CrcMisMatch)
            },
    {
        if data_crc as u64 == self.crc_code {
            Ok(*self)
        } else {
            Err(KvsError::CrcMisMatch)
        }
    }
}

/// A written table opens again: its footer gives back the level, the
/// version, the sizes of both blocks and the checksum of the data block.
pub proof fn lemma_table_round_trip(data: Seq<u8>, extra: Seq<u8>, level: u64, version: u64)
    requires
        data.len() + extra.len() + 40 <= u64::MAX,
    ensures
        open_table_spec(table_spec(data, extra, level, version)) == Ok::<MetaInfo, KvsError>(
            meta_for(data, extra, level, version),
        ),
{
    let m = meta_for(data, extra, level, version);
    lemma_footer_round_trip(m);
    let b = table_spec(data, extra, level, version);
    assert(b.subrange(b.len() - 40, b.len() as int) =~= footer_spec(m));
    assert(b.subrange(0, data.len() as int) =~= data);
}

/// A table whose data block holds framed records opens again, and a scan
/// of its data block gives back exactly those records.
pub proof fn lemma_table_records_round_trip(
    payloads: Seq<Seq<u8>>,
    extra: Seq<u8>,
    level: u64,
    version: u64,
)
    requires
        crate::command::frameable(payloads),
        crate::command::frames_spec(payloads).len() + extra.len() + 40 <= u64::MAX,
    ensures
        ({
            let data = crate::command::frames_spec(payloads);
            let file = table_spec(data, extra, level, version);
            &&& open_table_spec(file) == Ok::<MetaInfo, KvsError>(meta_for(data, extra, level, version))
            &&& crate::command::scan_spec(file.subrange(0, data.len() as int)) == payloads
        }),
{
    let data = crate::command::frames_spec(payloads);
    lemma_table_round_trip(data, extra, level, version);
    crate::command::lemma_scan_frames(payloads);
    let file = table_spec(data, extra, level, version);
    assert(file.subrange(0, data.len() as int) =~= data);
}

fn append_bytes(out: &mut Vec<u8>, s: &[u8])
    requires
        old(out)@.len() + s@.len() <= usize::MAX,
    ensures
        final(out)@ == old(out)@ + s@,
{
    let mut i: usize = 0;
    while i < s.len()
        invariant
            i <= s@.len(),
            out@ == old(out)@ + s@.subrange(0, i as int),
        decreases s@.len() - i,
    {
        out.push(s[i]);
        i = i + 1;
        assert(out@ =~= old(out)@ + s@.subrange(0, i as int));
    }
    assert(s@.subrange(0, i as int) =~= s@);
}


/// Estimated encoded size of all records of `s`.
pub open spec fn total_len(s: Seq<CommandData>) -> nat
    decreases s.len(),
{
    if s.len() == 0 {
        0
    } else {
        total_len(s.drop_last()) + s.last().data_len_spec()
    }
}

/// The records of all shards, shard after shard.
pub open spec fn flatten(s: Seq<Seq<CommandData>>) -> Seq<CommandData>
    decreases s.len(),
{
    if s.len() == 0 {
        Seq::empty()
    } else {
        flatten(s.drop_last()) + s.last()
    }
}

pub open spec fn shards_view(r: Seq<Vec<CommandData>>) -> Seq<Seq<CommandData>> {
    r.map_values(|v: Vec<CommandData>| v@)
}

/// Lexicographic order of byte strings, as std orders `[u8]`.
pub open spec fn lex_lt(a: Seq<u8>, b: Seq<u8>) -> bool
    decreases a.len(),
{
    if a.len() == 0 {
        b.len() > 0
    } else if b.len() == 0 {
        false
    } else if a[0] != b[0] {
        a[0] < b[0]
    } else {
        lex_lt(a.drop_first(), b.drop_first())
    }
}

/// Keys strictly ascending.
pub open spec fn strictly_sorted(s: Seq<CommandData>) -> bool {
    forall|i: int, j: int|
        0 <= i < j < s.len() ==> lex_lt(#[trigger] s[i].key_view(), #[trigger] s[j].key_view())
}

proof fn lemma_total_len_prefix(s: Seq<CommandData>, k: int)
    requires
        0 <= k <= s.len(),
    ensures
        total_len(s.subrange(0, k)) <= total_len(s),
        k < s.len() ==> total_len(s.subrange(0, k + 1)) == total_len(s.subrange(0, k))
            + s[k].data_len_spec(),
    decreases s.len(),
{
    if k < s.len() {
        let t = s.subrange(0, k + 1);
        assert(t.drop_last() =~= s.subrange(0, k));
        lemma_total_len_prefix(s.drop_last(), k);
        assert(s.drop_last().subrange(0, k) =~= s.subrange(0, k));
        if k + 1 < s.len() {
            lemma_total_len_prefix(s.drop_last(), k + 1);
            assert(s.drop_last().subrange(0, k + 1) =~= t);
        } else {
            assert(t =~= s);
        }
    } else {
        assert(s.subrange(0, k) =~= s);
    }
}

proof fn lemma_total_len_positive(s: Seq<CommandData>)
    ensures
        s.len() > 0 ==> total_len(s) > 0,
    decreases s.len(),
{
    if s.len() > 0 {
        lemma_total_len_positive(s.drop_last());
    }
}

/// Splits records into shards of about `file_size` estimated bytes each,
/// keeping their order: a record that brings a shard to `file_size` opens
/// the next one, and the last shard takes what remains.
pub fn data_sharding(vec_data: Vec<CommandData>, file_size: usize) -> (r: Vec<Vec<CommandData>>)
    requires
        file_size > 0,
        total_len(vec_data@) + file_size <= usize::MAX,
    ensures
        flatten(shards_view(r@)) == vec_data@,
        forall|i: int| 0 <= i < r@.len() ==> (#[trigger] r@[i])@.len() > 0,
        r@.len() <= (total_len(vec_data@) + file_size - 1) / (file_size as int),
        shards_sized(shards_view(r@), file_size as int),
{
    let ghost input = vec_data@;
    let n = vec_data.len();
    let mut total: usize = 0;
    let mut k: usize = 0;
    while k < n
        invariant
            n == input.len(),
            vec_data@ == input,
            k <= n,
            total == total_len(input.subrange(0, k as int)),
            total_len(input) + file_size <= usize::MAX,
        decreases n - k,
    {
        proof {
            lemma_total_len_prefix(input, k as int);
            lemma_total_len_prefix(input, k as int + 1);
        }
        total = total + vec_data[k].get_data_len_for_rmp();
        k = k + 1;
    }
    assert(input.subrange(0, n as int) =~= input);
    let part_size = (total + file_size - 1) / file_size;
    proof {
        lemma_total_len_positive(input);
        if n > 0 {
            assert(part_size >= 1) by (nonlinear_arith)
                requires
                    total > 0,
                    file_size > 0,
                    part_size == (total + file_size - 1) / (file_size as int),
            ;
        }
    }

    let mut src = vec_data;
    let mut stack: Vec<CommandData> = Vec::new();
    while src.len() > 0
        invariant
            n == input.len(),
            src@.len() + stack@.len() == n,
            src@ == input.subrange(0, src@.len() as int),
            forall|j: int| 0 <= j < stack@.len() ==> #[trigger] stack@[j] == input[n - 1 - j],
        decreases src@.len(),
    {
        let x = src.pop().unwrap();
        stack.push(x);
        assert(src@ =~= input.subrange(0, src@.len() as int));
    }

    let mut r: Vec<Vec<CommandData>> = Vec::new();
    let mut carry: Option<CommandData> = None;
    let mut i: usize = 0;
    while i < part_size
        invariant
            n == input.len(),
            stack@.len() <= n,
            forall|j: int| 0 <= j < stack@.len() ==> #[trigger] stack@[j] == input[n - 1 - j],
            flatten(shards_view(r@)) + match carry {
                Some(c) => seq![c],
                None => Seq::empty(),
            } == input.subrange(0, n - stack@.len()),
            forall|j: int| 0 <= j < r@.len() ==> (#[trigger] r@[j])@.len() > 0,
            r@.len() <= i,
            i <= part_size,
            part_size >= 1 || n == 0,
            total == total_len(input),
            total + file_size <= usize::MAX,
            i == part_size ==> stack@.len() == 0 && carry is None,
            i < part_size || stack@.len() == 0,
            file_size > 0,
            shards_sized(shards_view(r@), file_size as int),
            r@.len() > 0 ==> match carry {
                Some(c) => total_len(r@.last()@.drop_first()) < file_size && total_len(r@.last()@)
                    + c.data_len_spec() >= file_size && (r@.len() >= 2 ==> total_len(
                    r@.last()@.drop_first(),
                ) + c.data_len_spec() >= file_size),
                None => stack@.len() == 0,
            },
        decreases part_size - i,
    {
        let mut cur: Vec<CommandData> = Vec::new();
        let prev = carry;
        carry = None;
        let ghost has_head = prev is Some;
        let ghost head_len: int = match &prev {
            Some(c) => c.data_len_spec() as int,
            None => 0,
        };
        match prev {
            Some(c) => {
                cur.push(c);
            },
            None => {},
        }
        assert(flatten(shards_view(r@)) + cur@ == input.subrange(0, n - stack@.len()));
        let mut data_len: usize = 0;
        let mut full = false;
        proof {
            if has_head {
                assert(cur@.drop_first() =~= Seq::<CommandData>::empty());
            } else {
                assert(cur@ =~= Seq::<CommandData>::empty());
            }
        }
        while stack.len() > 0 && !full
            invariant
                n == input.len(),
                stack@.len() <= n,
                forall|j: int| 0 <= j < stack@.len() ==> #[trigger] stack@[j] == input[n - 1 - j],
                !full ==> carry is None,
                full ==> i + 1 < part_size,
                i < part_size,
                flatten(shards_view(r@)) + cur@ + match carry {
                    Some(c) => seq![c],
                    None => Seq::empty(),
                } == input.subrange(0, n - stack@.len()),
                data_len <= total_len(input.subrange(0, n - stack@.len())),
                total == total_len(input),
                total + file_size <= usize::MAX,
                has_head ==> cur@.len() >= 1 && cur@[0].data_len_spec() == head_len,
                data_len == total_len(if has_head {
                    cur@.drop_first()
                } else {
                    cur@
                }),
                i + 1 < part_size ==> data_len < file_size,
                full ==> match carry {
                    Some(c) => data_len + c.data_len_spec() >= file_size,
                    None => false,
                },
            decreases stack@.len(),
        {
            let ghost consumed = (n - stack@.len()) as int;
            let cmd = stack.pop().unwrap();
            assert(cmd == input[consumed]);
            proof {
                lemma_total_len_prefix(input, consumed);
                lemma_total_len_prefix(input, consumed + 1);
                assert(input.subrange(0, consumed + 1) =~= input.subrange(0, consumed).push(cmd));
            }
            let len = cmd.get_data_len_for_rmp();
            if data_len + len >= file_size && i < part_size - 1 {
                carry = Some(cmd);
                full = true;
            } else {
                let ghost before = cur@;
                cur.push(cmd);
                data_len = data_len + len;
                proof {
                    assert(cur@ =~= before.push(cmd));
                    if has_head {
                        assert(cur@.drop_first() =~= before.drop_first().push(cmd));
                        assert(cur@.drop_first().drop_last() =~= before.drop_first());
                    } else {
                        assert(cur@.drop_last() =~= before);
                    }
                }
            }
        }
        let ghost rv = shards_view(r@);
        if cur.len() > 0 {
            proof {
                lemma_total_len_first(cur@);
                if !has_head {
                    lemma_total_len_drop_first_le(cur@);
                }
                if rv.len() > 0 {
                    assert(has_head);
                }
            }
            r.push(cur);
            proof {
                let nv = shards_view(r@);
                assert(nv.drop_last() =~= rv);
                assert(nv.last() == r@.last()@);
                assert forall|j: int| 0 <= j < nv.len() - 1 implies total_len((#[trigger] nv[j]).drop_first())
                    < file_size && (if j == 0 {
                    total_len(nv[j])
                } else {
                    total_len(nv[j].drop_first())
                }) + nv[j + 1][0].data_len_spec() >= file_size by {
                    assert(nv[j] == rv[j]);
                    if j < rv.len() - 1 {
                        assert(nv[j + 1] == rv[j + 1]);
                    } else {
                        assert(rv[j] == r@[j]@);
                    }
                }
            }
        }
        i = i + 1;
    }
    assert(input.subrange(0, n as int) =~= input);
    r
}

/// Each shard but the last stays below `file_size` once its first record
/// is left out, and reaches `file_size` with the first record of the next;
/// from the second shard on, whose first record was carried over, that
/// carried record does not count.
pub open spec fn shards_sized(s: Seq<Seq<CommandData>>, file_size: int) -> bool {
    forall|j: int|
        0 <= j < s.len() - 1 ==> total_len((#[trigger] s[j]).drop_first()) < file_size && (if j == 0 {
            total_len(s[j])
        } else {
            total_len(s[j].drop_first())
        }) + s[j + 1][0].data_len_spec() >= file_size
}

proof fn lemma_total_len_first(s: Seq<CommandData>)
    requires
        s.len() > 0,
    ensures
        total_len(s) == s[0].data_len_spec() + total_len(s.drop_first()),
    decreases s.len(),
{
    if s.len() > 1 {
        lemma_total_len_first(s.drop_last());
        assert(s.drop_last().drop_first() =~= s.drop_first().drop_last());
        assert(s.drop_first().last() == s.last());
    } else {
        assert(s.drop_first() =~= Seq::<CommandData>::empty());
        assert(s.drop_last() =~= Seq::<CommandData>::empty());
    }
}

proof fn lemma_total_len_drop_first_le(s: Seq<CommandData>)
    requires
        s.len() > 0,
    ensures
        total_len(s.drop_first()) <= total_len(s),
{
    lemma_total_len_first(s);
}

proof fn lemma_lex_trans(a: Seq<u8>, b: Seq<u8>, c: Seq<u8>)
    requires
        lex_lt(a, b),
        lex_lt(b, c),
    ensures
        lex_lt(a, c),
    decreases a.len(),
{
    if a.len() > 0 && a[0] == b[0] && b[0] == c[0] {
        lemma_lex_trans(a.drop_first(), b.drop_first(), c.drop_first());
    }
}

proof fn lemma_lex_irrefl(a: Seq<u8>)
    ensures
        !lex_lt(a, a),
    decreases a.len(),
{
    if a.len() > 0 {
        lemma_lex_irrefl(a.drop_first());
    }
}

/// Whether some record of `s` has key `k`.
pub open spec fn has_key(s: Seq<CommandData>, k: Seq<u8>) -> bool {
    exists|j: int| 0 <= j < s.len() && (#[trigger] s[j]).key_view() == k
}

/// What the merge has produced in `r` after taking the first `p` records
/// of `na` and the first `q` of `ob`.
#[verifier::opaque]
spec fn merge_state(na: Seq<CommandData>, ob: Seq<CommandData>, r: Seq<CommandData>, p: int, q: int) -> bool {
    &&& strictly_sorted(r)
    &&& forall|i: int|
        0 <= i < r.len() ==> (exists|j: int| 0 <= j < p && #[trigger] na[j] == r[i])
            || (exists|j: int| 0 <= j < q && #[trigger] ob[j] == r[i])
            && !has_key(na, r[i].key_view())
    &&& forall|j: int| 0 <= j < p ==> r.contains(#[trigger] na[j])
    &&& forall|j: int|
        0 <= j < q && !has_key(na, (#[trigger] ob[j]).key_view()) ==> r.contains(ob[j])
}

/// Merges two runs sorted by key into one sorted run: every record of
/// `newer` is kept, and a record of `older` is kept where `newer` holds no
/// record of its key.
pub fn merge_by_key(newer: Vec<CommandData>, older: Vec<CommandData>) -> (r: Vec<CommandData>)
    requires
        strictly_sorted(newer@),
        strictly_sorted(older@),
    ensures
        strictly_sorted(r@),
        forall|i: int|
            0 <= i < r@.len() ==> (exists|j: int| 0 <= j < newer@.len() && #[trigger] newer@[j] == r@[i])
                || (exists|j: int| 0 <= j < older@.len() && #[trigger] older@[j] == r@[i])
                && !has_key(newer@, r@[i].key_view()),
        forall|j: int| 0 <= j < newer@.len() ==> r@.contains(#[trigger] newer@[j]),
        forall|j: int|
            0 <= j < older@.len() && !has_key(newer@, (#[trigger] older@[j]).key_view()) ==> r@.contains(older@[j]),
{
    let ghost na = newer@;
    let ghost ob = older@;
    let nn = newer.len();
    let no = older.len();
    let mut src = newer;
    let mut sa: Vec<CommandData> = Vec::new();
    while src.len() > 0
        invariant
            nn == na.len(),
            src@.len() + sa@.len() == nn,
            src@ == na.subrange(0, src@.len() as int),
            forall|j: int| 0 <= j < sa@.len() ==> #[trigger] sa@[j] == na[nn - 1 - j],
        decreases src@.len(),
    {
        let x = src.pop().unwrap();
        sa.push(x);
        assert(src@ =~= na.subrange(0, src@.len() as int));
    }
    let mut src = older;
    let mut sb: Vec<CommandData> = Vec::new();
    while src.len() > 0
        invariant
            no == ob.len(),
            src@.len() + sb@.len() == no,
            src@ == ob.subrange(0, src@.len() as int),
            forall|j: int| 0 <= j < sb@.len() ==> #[trigger] sb@[j] == ob[no - 1 - j],
        decreases src@.len(),
    {
        let x = src.pop().unwrap();
        sb.push(x);
        assert(src@ =~= ob.subrange(0, src@.len() as int));
    }
    let mut r: Vec<CommandData> = Vec::new();
    proof {
        reveal(merge_state);
    }
    while sa.len() > 0 || sb.len() > 0
        invariant
            nn == na.len(),
            no == ob.len(),
            strictly_sorted(na),
            strictly_sorted(ob),
            sa@.len() <= nn,
            sb@.len() <= no,
            forall|j: int| 0 <= j < sa@.len() ==> #[trigger] sa@[j] == na[nn - 1 - j],
            forall|j: int| 0 <= j < sb@.len() ==> #[trigger] sb@[j] == ob[no - 1 - j],
            r@.len() > 0 && sa@.len() > 0 ==> lex_lt(r@.last().key_view(), na[nn - sa@.len()].key_view()),
            r@.len() > 0 && sb@.len() > 0 ==> lex_lt(r@.last().key_view(), ob[no - sb@.len()].key_view()),
            merge_state(na, ob, r@, nn - sa@.len(), no - sb@.len()),
        decreases sa@.len() + sb@.len(),
    {
        let ghost p = nn - sa@.len();
        let ghost q = no - sb@.len();
        let ghost r0 = r@;
        // which head goes next: 0 takes the newer one, 1 takes both and keeps
        // the newer one, 2 takes the older one
        let step: u8 = if sa.len() == 0 {
            2
        } else if sb.len() == 0 {
            0
        } else {
            let ka = sa[sa.len() - 1].get_key();
            let kb = sb[sb.len() - 1].get_key();
            if bytes_lt(ka.as_slice(), kb.as_slice()) {
                0
            } else if crate::command::same_bytes(ka.as_slice(), kb.as_slice()) {
                1
            } else {
                proof {
                    lemma_lex_total(ka@, kb@);
                }
                2
            }
        };
        if step == 0 || step == 1 {
            let x = sa.pop().unwrap();
            assert(x == na[p]);
            if step == 1 {
                let _ = sb.pop();
            }
            proof {
                lemma_merge_push(na, ob, r0, x, p, q, step == 1);
            }
            r.push(x);
            proof {
                assert(r@ =~= r0.push(x));
                if sa@.len() > 0 {
                    assert(lex_lt(na[p].key_view(), na[p + 1].key_view()));
                }
                if sb@.len() > 0 {
                    if step == 1 {
                        assert(lex_lt(ob[q].key_view(), ob[q + 1].key_view()));
                    } else {
                        assert(lex_lt(x.key_view(), ob[q].key_view()));
                    }
                }
            }
        } else {
            let x = sb.pop().unwrap();
            assert(x == ob[q]);
            proof {
                lemma_merge_push_older(na, ob, r0, x, p, q);
            }
            r.push(x);
            proof {
                assert(r@ =~= r0.push(x));
                if sb@.len() > 0 {
                    assert(lex_lt(ob[q].key_view(), ob[q + 1].key_view()));
                }
            }
        }
    }
    proof {
        reveal(merge_state);
        assert(na == newer@ && ob == older@);
    }
    r
}

proof fn lemma_push_sorted(r0: Seq<CommandData>, x: CommandData)
    requires
        strictly_sorted(r0),
        r0.len() > 0 ==> lex_lt(r0.last().key_view(), x.key_view()),
    ensures
        strictly_sorted(r0.push(x)),
{
    let r = r0.push(x);
    assert forall|i: int, j: int| 0 <= i < j < r.len() implies lex_lt(
        #[trigger] r[i].key_view(),
        #[trigger] r[j].key_view(),
    ) by {
        if j == r0.len() {
            assert(r[i] == r0[i]);
            if i < r0.len() - 1 {
                lemma_lex_trans(r0[i].key_view(), r0.last().key_view(), x.key_view());
            }
        } else {
            assert(r[i] == r0[i] && r[j] == r0[j]);
        }
    }
}

proof fn lemma_merge_push(
    na: Seq<CommandData>,
    ob: Seq<CommandData>,
    r0: Seq<CommandData>,
    x: CommandData,
    p: int,
    q: int,
    drop_older: bool,
)
    requires
        0 <= p < na.len(),
        0 <= q <= ob.len(),
        x == na[p],
        r0.len() > 0 ==> lex_lt(r0.last().key_view(), na[p].key_view()),
        drop_older ==> q < ob.len() && ob[q].key_view() == x.key_view(),
        merge_state(na, ob, r0, p, q),
    ensures
        merge_state(na, ob, r0.push(x), p + 1, if drop_older { q + 1 } else { q }),
{
    reveal(merge_state);
    let r = r0.push(x);
    let q2 = if drop_older { q + 1 } else { q };
    lemma_push_sorted(r0, x);
    assert forall|i: int| 0 <= i < r.len() implies (exists|j: int| 0 <= j < p + 1 && #[trigger] na[j] == r[i])
        || (exists|j: int| 0 <= j < q2 && #[trigger] ob[j] == r[i]) && !has_key(na, r[i].key_view()) by {
        if i == r0.len() {
            assert(na[p] == r[i]);
        } else {
            assert(r[i] == r0[i]);
        }
    }
    assert forall|j: int| 0 <= j < p + 1 implies r.contains(#[trigger] na[j]) by {
        if j == p {
            assert(r[r0.len() as int] == na[j]);
        } else {
            let i = choose|i: int| 0 <= i < r0.len() && r0[i] == na[j];
            assert(r[i] == na[j]);
        }
    }
    assert forall|j: int| 0 <= j < q2 && !has_key(na, (#[trigger] ob[j]).key_view()) implies r.contains(ob[j]) by {
        if j == q {
            assert(na[p].key_view() == ob[j].key_view());
        } else {
            let i = choose|i: int| 0 <= i < r0.len() && r0[i] == ob[j];
            assert(r[i] == ob[j]);
        }
    }
}

proof fn lemma_older_head_fresh(na: Seq<CommandData>, ob: Seq<CommandData>, r0: Seq<CommandData>, x: CommandData, p: int, q: int)
    requires
        strictly_sorted(na),
        0 <= p <= na.len(),
        r0.len() > 0 ==> lex_lt(r0.last().key_view(), x.key_view()),
        p < na.len() ==> lex_lt(x.key_view(), na[p].key_view()),
        merge_state(na, ob, r0, p, q),
    ensures
        !has_key(na, x.key_view()),
{
    reveal(merge_state);
    if has_key(na, x.key_view()) {
        let j = choose|j: int| 0 <= j < na.len() && (#[trigger] na[j]).key_view() == x.key_view();
        lemma_lex_irrefl(x.key_view());
        if j < p {
            let i = choose|i: int| 0 <= i < r0.len() && r0[i] == na[j];
            if i < r0.len() - 1 {
                lemma_lex_trans(r0[i].key_view(), r0.last().key_view(), x.key_view());
            }
        } else if j > p {
            lemma_lex_trans(x.key_view(), na[p].key_view(), na[j].key_view());
        }
    }
}

proof fn lemma_merge_push_older(
    na: Seq<CommandData>,
    ob: Seq<CommandData>,
    r0: Seq<CommandData>,
    x: CommandData,
    p: int,
    q: int,
)
    requires
        strictly_sorted(na),
        0 <= p <= na.len(),
        0 <= q < ob.len(),
        x == ob[q],
        r0.len() > 0 ==> lex_lt(r0.last().key_view(), ob[q].key_view()),
        p < na.len() ==> lex_lt(x.key_view(), na[p].key_view()),
        merge_state(na, ob, r0, p, q),
    ensures
        merge_state(na, ob, r0.push(x), p, q + 1),
{
    lemma_older_head_fresh(na, ob, r0, x, p, q);
    reveal(merge_state);
    let r = r0.push(x);
    lemma_push_sorted(r0, x);
    assert forall|i: int| 0 <= i < r.len() implies (exists|j: int| 0 <= j < p && #[trigger] na[j] == r[i])
        || (exists|j: int| 0 <= j < q + 1 && #[trigger] ob[j] == r[i]) && !has_key(na, r[i].key_view()) by {
        if i == r0.len() {
            assert(ob[q] == r[i]);
        } else {
            assert(r[i] == r0[i]);
        }
    }
    assert forall|j: int| 0 <= j < p implies r.contains(#[trigger] na[j]) by {
        let i = choose|i: int| 0 <= i < r0.len() && r0[i] == na[j];
        assert(r[i] == na[j]);
    }
    assert forall|j: int| 0 <= j < q + 1 && !has_key(na, (#[trigger] ob[j]).key_view()) implies r.contains(ob[j]) by {
        if j == q {
            assert(r[r0.len() as int] == ob[j]);
        } else {
            let i = choose|i: int| 0 <= i < r0.len() && r0[i] == ob[j];
            assert(r[i] == ob[j]);
        }
    }
}

/// Pairs each shard with the generation of the table it becomes, in order.
pub fn assign_gens(shards: Vec<Vec<CommandData>>, gens: &Vec<i64>) -> (r: Vec<(i64, Vec<CommandData>)>)
    requires
        gens@.len() == shards@.len(),
    ensures
        r@.len() == shards@.len(),
        forall|i: int| 0 <= i < r@.len() ==> (#[trigger] r@[i]).0 == gens@[i] && r@[i].1 == shards@[i],
{
    let ghost input = shards@;
    let n = shards.len();
    let mut src = shards;
    let mut stack: Vec<Vec<CommandData>> = Vec::new();
    while src.len() > 0
        invariant
            n == input.len(),
            src@.len() + stack@.len() == n,
            src@ == input.subrange(0, src@.len() as int),
            forall|j: int| 0 <= j < stack@.len() ==> #[trigger] stack@[j] == input[n - 1 - j],
        decreases src@.len(),
    {
        let x = src.pop().unwrap();
        stack.push(x);
        assert(src@ =~= input.subrange(0, src@.len() as int));
    }
    let mut r: Vec<(i64, Vec<CommandData>)> = Vec::new();
    while stack.len() > 0
        invariant
            n == input.len(),
            gens@.len() == n,
            r@.len() + stack@.len() == n,
            forall|j: int| 0 <= j < stack@.len() ==> #[trigger] stack@[j] == input[n - 1 - j],
            forall|i: int| 0 <= i < r@.len() ==> (#[trigger] r@[i]).0 == gens@[i] && r@[i].1 == input[i],
        decreases stack@.len(),
    {
        let k = r.len();
        let x = stack.pop().unwrap();
        assert(x == input[k as int]);
        r.push((gens[k], x));
    }
    r
}

/// The offset in `flatten(s)` at which shard `a` begins.
pub open spec fn offset(s: Seq<Seq<CommandData>>, a: int) -> int {
    flatten(s.subrange(0, a)).len() as int
}

proof fn lemma_flatten_index(s: Seq<Seq<CommandData>>, a: int, x: int)
    requires
        0 <= a < s.len(),
        0 <= x < s[a].len(),
    ensures
        offset(s, a) + x < flatten(s).len(),
        flatten(s)[offset(s, a) + x] == s[a][x],
    decreases s.len(),
{
    if a == s.len() - 1 {
        assert(s.subrange(0, a) =~= s.drop_last());
    } else {
        lemma_flatten_index(s.drop_last(), a, x);
        assert(s.drop_last().subrange(0, a) =~= s.subrange(0, a));
    }
}

proof fn lemma_offset_step(s: Seq<Seq<CommandData>>, b: int)
    requires
        0 < b <= s.len(),
    ensures
        offset(s, b) == offset(s, b - 1) + s[b - 1].len(),
{
    assert(s.subrange(0, b).drop_last() =~= s.subrange(0, b - 1));
}

proof fn lemma_offset_mono(s: Seq<Seq<CommandData>>, a: int, b: int)
    requires
        0 <= a < b <= s.len(),
    ensures
        offset(s, a) + s[a].len() <= offset(s, b),
    decreases b - a,
{
    lemma_offset_step(s, b);
    if b > a + 1 {
        lemma_offset_mono(s, a, b - 1);
    }
}

/// Shards of records sorted by key cover disjoint key ranges: every key
/// of an earlier shard is below every key of a later one.
pub proof fn lemma_shards_disjoint(shards: Seq<Seq<CommandData>>)
    requires
        strictly_sorted(flatten(shards)),
    ensures
        forall|a: int, b: int, x: int, y: int|
            0 <= a < b < shards.len() && 0 <= x < shards[a].len() && 0 <= y < shards[b].len()
                ==> lex_lt(#[trigger] shards[a][x].key_view(), #[trigger] shards[b][y].key_view()),
{
    assert forall|a: int, b: int, x: int, y: int|
        0 <= a < b < shards.len() && 0 <= x < shards[a].len() && 0 <= y < shards[b].len() implies lex_lt(
        #[trigger] shards[a][x].key_view(),
        #[trigger] shards[b][y].key_view(),
    ) by {
        lemma_flatten_index(shards, a, x);
        lemma_flatten_index(shards, b, y);
        lemma_offset_mono(shards, a, b);
        let f = flatten(shards);
        assert(f[offset(shards, a) + x] == shards[a][x]);
        assert(f[offset(shards, b) + y] == shards[b][y]);
    }
}


/// `a` sorts before `b` or equals it.
pub open spec fn lex_le(a: Seq<u8>, b: Seq<u8>) -> bool {
    lex_lt(a, b) || a == b
}

proof fn lemma_lex_step(a: Seq<u8>, b: Seq<u8>, i: int)
    requires
        0 <= i < a.len(),
        i < b.len(),
        a[i] == b[i],
    ensures
        lex_lt(a.skip(i), b.skip(i)) == lex_lt(a.skip(i + 1), b.skip(i + 1)),
{
    assert(a.skip(i).drop_first() =~= a.skip(i + 1));
    assert(b.skip(i).drop_first() =~= b.skip(i + 1));
}

/// Whether `a` sorts strictly before `b`.
pub fn bytes_lt(a: &[u8], b: &[u8]) -> (r: bool)
    ensures
        r == lex_lt(a@, b@),
{
    let mut i: usize = 0;
    assert(a@.skip(0) =~= a@ && b@.skip(0) =~= b@);
    while i < a.len() && i < b.len()
        invariant
            i <= a@.len(),
            i <= b@.len(),
            lex_lt(a@, b@) == lex_lt(a@.skip(i as int), b@.skip(i as int)),
        decreases a@.len() - i,
    {
        if a[i] != b[i] {
            return a[i] < b[i];
        }
        proof {
            lemma_lex_step(a@, b@, i as int);
        }
        i = i + 1;
    }
    i == a.len() && i < b.len()
}

/// Whether `a` sorts before `b` or equals it.
pub fn bytes_le(a: &[u8], b: &[u8]) -> (r: bool)
    ensures
        r == lex_le(a@, b@),
{
    bytes_lt(a, b) || crate::command::same_bytes(a, b)
}

/// Where a block of records lies in a table file.
#[derive(Debug, Clone, Copy, PartialEq, Eq, Structural, Hash)]
pub struct Position {
    pub start: u64,
    pub len: usize,
}

impl Position {
    /// The block that may hold `key`: the one introduced by the last
    /// sparse-index key that sorts before `key` or equals it.
    pub fn from_sparse_index_with_key(sparse_index: &Vec<(Vec<u8>, Position)>, key: &[u8]) -> (r:
        Option<Position>)
        ensures
            match r {
                Some(p) => exists|i: int|
                    0 <= i < sparse_index@.len() && (#[trigger] sparse_index@[i]).1 == p
                        && lex_le(sparse_index@[i].0@, key@) && forall|j: int|
                        i < j < sparse_index@.len() ==> !lex_le(
                            (#[trigger] sparse_index@[j]).0@,
                            key@,
                        ),
                None => forall|j: int|
                    0 <= j < sparse_index@.len() ==> !lex_le((#[trigger] sparse_index@[j]).0@, key@),
            },
    {
        let mut i: usize = sparse_index.len();
        while i > 0
            invariant
                i <= sparse_index@.len(),
                forall|j: int|
                    i <= j < sparse_index@.len() ==> !lex_le((#[trigger] sparse_index@[j]).0@, key@),
            decreases i,
        {
            i = i - 1;
            if bytes_le(sparse_index[i].0.as_slice(), key) {
                let p = sparse_index[i].1;
                assert(sparse_index@[i as int].1 == p);
                return Some(p);
            }
        }
        None
    }
}

/// The key range of a table: its least and its greatest key.
#[derive(Debug, Clone, PartialEq, Eq)]
pub struct Scope {
    pub start: Vec<u8>,
    pub end: Vec<u8>,
}

impl Scope {
    /// Whether the ranges `[a_start, a_end]` and `[b_start, b_end]` share a key.
    pub open spec fn meets_spec(a_start: Seq<u8>, a_end: Seq<u8>, b_start: Seq<u8>, b_end: Seq<u8>) -> bool {
        lex_le(a_start, b_end) && lex_le(b_start, a_end)
    }

    /// The range that holds `key` alone.
    pub fn from_key(key: &[u8]) -> (r: Scope)
        ensures
            r.start@ == key@,
            r.end@ == key@,
    {
        Scope { start: crate::command::copy_bytes(key), end: crate::command::copy_bytes(key) }
    }

    /// The range of records sorted by key: from the first key to the last.
    pub fn from_data(vec_data: &Vec<CommandData>) -> (r: Option<Scope>)
        ensures
            vec_data@.len() == 0 ==> r is None,
            vec_data@.len() > 0 ==> (r matches Some(sc) && sc.start@ == vec_data@[0].key_view()
                && sc.end@ == vec_data@.last().key_view()),
            strictly_sorted(vec_data@) ==> (r matches Some(sc) ==> forall|i: int|
                0 <= i < vec_data@.len() ==> lex_le(sc.start@, #[trigger] vec_data@[i].key_view())
                    && lex_le(vec_data@[i].key_view(), sc.end@)),
    {
        if vec_data.len() == 0 {
            return None;
        }
        let first = vec_data[0].get_key_clone();
        let last = vec_data[vec_data.len() - 1].get_key_clone();
        Some(Scope { start: first, end: last })
    }

    /// Whether the two ranges share a key.
    pub fn meet(&self, other: &Scope) -> (r: bool)
        ensures
            r == Self::meets_spec(self.start@, self.end@, other.start@, other.end@),
    {
        bytes_le(self.start.as_slice(), other.end.as_slice()) && bytes_le(
            other.start.as_slice(),
            self.end.as_slice(),
        )
    }

    /// Whether `key` lies in the range.
    pub fn contains(&self, key: &[u8]) -> (r: bool)
        ensures
            r == Self::meets_spec(self.start@, self.end@, key@, key@),
    {
        bytes_le(self.start.as_slice(), key) && bytes_le(key, self.end.as_slice())
    }
}


/// The answer of a lookup that asked tables in order and got `answers`:
/// the first table that holds a record of the key decides, a `Set` with
/// its value and any other record with none; no record anywhere gives none.
pub open spec fn first_answer_spec(answers: Seq<Option<CommandData>>) -> Option<Seq<u8>>
    decreases answers.len(),
{
    if answers.len() == 0 {
        None
    } else {
        match answers[0] {
            Some(c) => c.value_view(),
            None => first_answer_spec(answers.drop_first()),
        }
    }
}

proof fn lemma_first_answer_skip(answers: Seq<Option<CommandData>>, i: int)
    requires
        0 <= i <= answers.len(),
        forall|j: int| 0 <= j < i ==> answers[j] is None,
    ensures
        first_answer_spec(answers) == first_answer_spec(answers.skip(i)),
    decreases i,
{
    if i > 0 {
        let d = answers.drop_first();
        assert forall|j: int| 0 <= j < i - 1 implies d[j] is None by {
            assert(d[j] == answers[j + 1]);
        }
        lemma_first_answer_skip(d, i - 1);
        assert(d.skip(i - 1) =~= answers.skip(i));
    } else {
        assert(answers.skip(0) =~= answers);
    }
}

/// The value a lookup returns from the records found for a key, given in
/// the order the places were asked (memtables, then the tables that
/// `get_data_for_ss_tables` lists): the first record decides.
pub fn first_answer(answers: &Vec<Option<CommandData>>) -> (r: Option<Vec<u8>>)
    ensures
        match r {
            Some(v) => first_answer_spec(answers@) == Some(v@),
            None => first_answer_spec(answers@) is None,
        },
{
    let mut i: usize = 0;
    while i < answers.len()
        invariant
            i <= answers@.len(),
            forall|j: int| 0 <= j < i ==> answers@[j] is None,
        decreases answers@.len() - i,
    {
        match &answers[i] {
            Some(c) => {
                proof {
                    lemma_first_answer_skip(answers@, i as int);
                    assert(answers@.skip(i as int)[0] == answers@[i as int]);
                }
                return c.get_value_clone();
            },
            None => {},
        }
        i = i + 1;
    }
    proof {
        lemma_first_answer_skip(answers@, i as int);
        assert(answers@.skip(i as int).len() == 0);
    }
    None
}

/// Number of levels of tables: 0 to 6.
pub const LEVEL_COUNT: usize = 7;

/// What the level structure knows of one table.
#[derive(Debug, Clone)]
pub struct SsTableInfo {
    pub gen: i64,
    pub level: usize,
    pub size_of_disk: u64,
    pub scope: Scope,
}

/// The table of generation `gen` among `ts`; the latest entry wins.
pub open spec fn table_of(ts: Seq<SsTableInfo>, gen: i64) -> Option<SsTableInfo>
    decreases ts.len(),
{
    if ts.len() == 0 {
        None
    } else if ts.last().gen == gen {
        Some(ts.last())
    } else {
        table_of(ts.drop_last(), gen)
    }
}

/// The generations of the tables of `ts` at level `l`, in order.
pub open spec fn gens_at_level(ts: Seq<SsTableInfo>, l: int) -> Seq<i64>
    decreases ts.len(),
{
    if ts.len() == 0 {
        Seq::empty()
    } else if ts.last().level == l {
        gens_at_level(ts.drop_last(), l).push(ts.last().gen)
    } else {
        gens_at_level(ts.drop_last(), l)
    }
}

/// The disk size of all tables of `ts`; the sum stops at `u64::MAX`.
pub open spec fn sum_size(ts: Seq<SsTableInfo>) -> u64
    decreases ts.len(),
{
    if ts.len() == 0 {
        0
    } else {
        crate::hash_kv::sat_add(sum_size(ts.drop_last()), ts.last().size_of_disk as int)
    }
}

pub open spec fn gens_of(ts: Seq<SsTableInfo>) -> Set<i64> {
    ts.map_values(|t: SsTableInfo| t.gen).to_set()
}

/// Whether the table of generation `g` holds `key` in its range.
pub open spec fn may_hold(ts: Seq<SsTableInfo>, g: i64, key: Seq<u8>) -> bool {
    match table_of(ts, g) {
        Some(t) => Scope::meets_spec(t.scope.start@, t.scope.end@, key, key),
        None => false,
    }
}

/// The generations of `gens` that have a table, last first.
pub open spec fn newest_first(ts: Seq<SsTableInfo>, gens: Seq<i64>) -> Seq<i64>
    decreases gens.len(),
{
    if gens.len() == 0 {
        Seq::empty()
    } else if table_of(ts, gens.last()) is Some {
        seq![gens.last()] + newest_first(ts, gens.drop_last())
    } else {
        newest_first(ts, gens.drop_last())
    }
}

/// The last generation of `gens` whose table holds `key` in its range.
pub open spec fn last_holding(ts: Seq<SsTableInfo>, gens: Seq<i64>, key: Seq<u8>) -> Option<i64>
    decreases gens.len(),
{
    if gens.len() == 0 {
        None
    } else if may_hold(ts, gens.last(), key) {
        Some(gens.last())
    } else {
        last_holding(ts, gens.drop_last(), key)
    }
}

/// For each level from `l` to the deepest, the table of that level that may hold `key`.
pub open spec fn deeper_candidates(ts: Seq<SsTableInfo>, levels: Seq<Seq<i64>>, key: Seq<u8>, l: nat) -> Seq<
    i64,
>
    decreases 7 - l,
{
    if l >= 7 {
        Seq::empty()
    } else {
        let here: Seq<i64> = match last_holding(ts, levels[l as int], key) {
            Some(g) => seq![g],
            None => Seq::empty(),
        };
        here + deeper_candidates(ts, levels, key, l + 1)
    }
}

/// Whether no two tables of `ts` share a generation.
pub open spec fn gens_unique(ts: Seq<SsTableInfo>) -> bool {
    forall|a: int, b: int|
        0 <= a < ts.len() && 0 <= b < ts.len() && a != b ==> (#[trigger] ts[a]).gen != (#[trigger] ts[b]).gen
}

/// The least key of the table of generation `g`.
pub open spec fn start_of(ts: Seq<SsTableInfo>, g: i64) -> Seq<u8> {
    match table_of(ts, g) {
        Some(t) => t.scope.start@,
        None => Seq::empty(),
    }
}

/// Whether the tables of `gens` come in ascending order of least key.
pub open spec fn sorted_by_start(ts: Seq<SsTableInfo>, gens: Seq<i64>) -> bool {
    forall|i: int| 0 <= i < gens.len() - 1 ==> lex_le(start_of(ts, #[trigger] gens[i]), start_of(ts, gens[i + 1]))
}

pub open spec fn idx_gens(ts: Seq<SsTableInfo>, idxs: Seq<usize>) -> Seq<i64> {
    idxs.map_values(|k: usize| ts[k as int].gen)
}

proof fn lemma_table_of_unique(ts: Seq<SsTableInfo>, k: int)
    requires
        gens_unique(ts),
        0 <= k < ts.len(),
    ensures
        table_of(ts, ts[k].gen) == Some(ts[k]),
    decreases ts.len(),
{
    if k < ts.len() - 1 {
        let d = ts.drop_last();
        assert(ts.last() == ts[ts.len() - 1]);
        assert(ts[ts.len() - 1].gen != ts[k].gen);
        assert(gens_unique(d)) by {
            assert forall|a: int, b: int|
                0 <= a < d.len() && 0 <= b < d.len() && a != b implies (#[trigger] d[a]).gen != (#[trigger] d[b]).gen by {
                assert(d[a] == ts[a] && d[b] == ts[b]);
            }
        }
        lemma_table_of_unique(d, k);
        assert(d[k] == ts[k]);
    }
}

proof fn lemma_table_of_none(ts: Seq<SsTableInfo>, g: i64)
    requires
        table_of(ts, g) is None,
    ensures
        forall|i: int| 0 <= i < ts.len() ==> (#[trigger] ts[i]).gen != g,
    decreases ts.len(),
{
    if ts.len() > 0 {
        lemma_table_of_none(ts.drop_last(), g);
        assert forall|i: int| 0 <= i < ts.len() implies (#[trigger] ts[i]).gen != g by {
            if i < ts.len() - 1 {
                assert(ts[i] == ts.drop_last()[i]);
            }
        }
    }
}

proof fn lemma_table_of_absent(ts: Seq<SsTableInfo>, g: i64)
    requires
        forall|i: int| 0 <= i < ts.len() ==> (#[trigger] ts[i]).gen != g,
    ensures
        table_of(ts, g) is None,
    decreases ts.len(),
{
    if ts.len() > 0 {
        assert(ts.last() == ts[ts.len() - 1]);
        assert forall|i: int| 0 <= i < ts.len() - 1 implies (#[trigger] ts.drop_last()[i]).gen != g by {
            assert(ts.drop_last()[i] == ts[i]);
        }
        lemma_table_of_absent(ts.drop_last(), g);
    }
}

proof fn lemma_lex_total(a: Seq<u8>, b: Seq<u8>)
    ensures
        !lex_lt(a, b) ==> lex_le(b, a),
    decreases a.len(),
{
    if a.len() == 0 {
        if b.len() == 0 {
            assert(a =~= b);
        }
    } else if b.len() == 0 {
    } else if a[0] != b[0] {
    } else {
        lemma_lex_total(a.drop_first(), b.drop_first());
        if a.drop_first() == b.drop_first() {
            assert(a.len() == b.len());
            assert(a =~= b) by {
                assert forall|i: int| 0 <= i < a.len() implies a[i] == b[i] by {
                    if i > 0 {
                        assert(a[i] == a.drop_first()[i - 1]);
                        assert(b[i] == b.drop_first()[i - 1]);
                    }
                }
            }
        }
    }
}

/// The disk size of the tables of `ts` with generations `gens`; a
/// generation listed twice counts twice, and the sum stops at `u64::MAX`.
pub open spec fn expired_size(ts: Seq<SsTableInfo>, gens: Seq<i64>) -> u64
    decreases gens.len(),
{
    if gens.len() == 0 {
        0
    } else {
        crate::hash_kv::sat_add(
            expired_size(ts, gens.drop_last()),
            match table_of(ts, gens.last()) {
                Some(t) => t.size_of_disk as int,
                None => 0,
            },
        )
    }
}

/// The generations of `ts`, in order.
pub open spec fn gens_seq(ts: Seq<SsTableInfo>) -> Seq<i64> {
    ts.map_values(|t: SsTableInfo| t.gen)
}

/// Level `lv` with the generations of `ts` placed, in order, from `index` on.
pub open spec fn splice_level(lv: Seq<i64>, ts: Seq<SsTableInfo>, index: int) -> Seq<i64> {
    lv.subrange(0, index) + gens_seq(ts) + lv.subrange(index, lv.len() as int)
}

/// Whether a batch of tables fits at `index` of level `lv` in order of
/// least key: ascending within itself, after what precedes `index` and
/// before what follows it.
pub open spec fn batch_fits(old_ts: Seq<SsTableInfo>, lv: Seq<i64>, ts: Seq<SsTableInfo>, index: int) -> bool {
    &&& forall|k: int| 0 <= k < ts.len() - 1 ==> lex_le((#[trigger] ts[k]).scope.start@, ts[k + 1].scope.start@)
    &&& ts.len() > 0 && index > 0 ==> lex_le(start_of(old_ts, lv[index - 1]), ts[0].scope.start@)
    &&& ts.len() > 0 && index < lv.len() ==> lex_le(ts.last().scope.start@, start_of(old_ts, lv[index]))
    &&& forall|j: int, k: int| 0 <= j < lv.len() && 0 <= k < ts.len() ==> (#[trigger] lv[j]) != (#[trigger] ts[k]).gen
}

proof fn lemma_table_of_append(a: Seq<SsTableInfo>, b: Seq<SsTableInfo>, g: i64)
    requires
        forall|k: int| 0 <= k < b.len() ==> (#[trigger] b[k]).gen != g,
    ensures
        table_of(a + b, g) == table_of(a, g),
    decreases b.len(),
{
    if b.len() > 0 {
        assert((a + b).drop_last() =~= a + b.drop_last());
        assert((a + b).last() == b.last());
        assert(b.last() == b[b.len() - 1]);
        lemma_table_of_append(a, b.drop_last(), g);
    } else {
        assert(a + b =~= a);
    }
}

proof fn lemma_batch_sorted(old_ts: Seq<SsTableInfo>, lv: Seq<i64>, ts: Seq<SsTableInfo>, index: int)
    requires
        0 <= index <= lv.len(),
        sorted_by_start(old_ts, lv),
        batch_fits(old_ts, lv, ts, index),
        gens_unique(old_ts + ts),
    ensures
        sorted_by_start(old_ts + ts, splice_level(lv, ts, index)),
{
    let nt = old_ts + ts;
    let out = splice_level(lv, ts, index);
    let n = ts.len() as int;
    assert forall|j: int| 0 <= j < lv.len() implies start_of(nt, #[trigger] lv[j]) == start_of(old_ts, lv[j]) by {
        assert forall|k: int| 0 <= k < ts.len() implies (#[trigger] ts[k]).gen != lv[j] by {}
        lemma_table_of_append(old_ts, ts, lv[j]);
    }
    assert forall|k: int| 0 <= k < n implies start_of(nt, gens_seq(ts)[k]) == (#[trigger] ts[k]).scope.start@ by {
        lemma_table_of_unique(nt, old_ts.len() + k);
        assert(nt[old_ts.len() + k] == ts[k]);
    }
    assert forall|i: int| 0 <= i < out.len() - 1 implies lex_le(start_of(nt, #[trigger] out[i]), start_of(nt, out[i + 1])) by {
        if i < index - 1 {
            assert(out[i] == lv[i] && out[i + 1] == lv[i + 1]);
        } else if i == index - 1 {
            if n > 0 {
                assert(out[i] == lv[i] && out[i + 1] == gens_seq(ts)[0]);
            } else {
                assert(out[i] == lv[i] && out[i + 1] == lv[i + 1]);
            }
        } else if i < index + n - 1 {
            assert(out[i] == gens_seq(ts)[i - index] && out[i + 1] == gens_seq(ts)[i - index + 1]);
        } else if i == index + n - 1 {
            assert(out[i] == gens_seq(ts)[n - 1] && out[i + 1] == lv[index]);
            assert(ts.last() == ts[n - 1]);
        } else {
            assert(out[i] == lv[i - n] && out[i + 1] == lv[i - n + 1]);
        }
    }
}

/// The disk size after the tables of `ts` are added; it stops at `u64::MAX`.
pub open spec fn batch_size(size: u64, ts: Seq<SsTableInfo>) -> u64
    decreases ts.len(),
{
    if ts.len() == 0 {
        size
    } else {
        crate::hash_kv::sat_add(batch_size(size, ts.drop_last()), ts.last().size_of_disk as int)
    }
}

/// The tables and levels of a leveled store, its disk size, and the
/// tables that the current round of merges has not taken yet.
pub struct Manifest {
    ss_tables: Vec<SsTableInfo>,
    level_slice: Vec<Vec<i64>>,
    size_of_disk: u64,
    sync_buffer_of_meet: Vec<i64>,
    position_cache: BlockCache,
}

impl Manifest {
    pub closed spec fn tables_view(&self) -> Seq<SsTableInfo> {
        self.ss_tables@
    }

    /// For each level, the generations of its tables in order.
    pub closed spec fn levels_view(&self) -> Seq<Seq<i64>> {
        self.level_slice@.map_values(|v: Vec<i64>| v@)
    }

    pub closed spec fn size_view(&self) -> u64 {
        self.size_of_disk
    }

    /// The decoded blocks held in the block cache.
    pub closed spec fn cache_view(&self) -> Map<(i64, u64, usize), Seq<(int, Seq<u8>, Option<Seq<u8>>)>> {
        cache_contents(self.position_cache)
    }

    /// The generations that a merge may still take in this round.
    pub closed spec fn meet_view(&self) -> Set<i64> {
        self.sync_buffer_of_meet@.to_set()
    }

    pub closed spec fn wf(&self) -> bool {
        &&& self.level_slice@.len() == LEVEL_COUNT
        &&& gens_unique(self.ss_tables@)
    }

    /// The generations of each level: level 0 in the order of
    /// `ss_tables`, each deeper level ordered by the tables' least keys.
    pub fn level_layered(ss_tables: &Vec<SsTableInfo>) -> (r: Vec<Vec<i64>>)
        ensures
            r@.len() == LEVEL_COUNT,
            r@[0]@ == gens_at_level(ss_tables@, 0),
            forall|l: int|
                1 <= l < LEVEL_COUNT ==> (#[trigger] r@[l])@.to_multiset() == gens_at_level(
                    ss_tables@,
                    l,
                ).to_multiset(),
            gens_unique(ss_tables@) ==> forall|l: int|
                1 <= l < LEVEL_COUNT ==> sorted_by_start(ss_tables@, (#[trigger] r@[l])@),
    {
        let ghost ts = ss_tables@;
        let n = ss_tables.len();
        let mut r: Vec<Vec<i64>> = Vec::new();
        let mut level0: Vec<i64> = Vec::new();
        let mut i: usize = 0;
        while i < n
            invariant
                n == ts.len(),
                ts == ss_tables@,
                i <= n,
                level0@ == gens_at_level(ts.subrange(0, i as int), 0),
            decreases n - i,
        {
            proof {
                assert(ts.subrange(0, i as int + 1).drop_last() =~= ts.subrange(0, i as int));
            }
            if ss_tables[i].level == 0 {
                level0.push(ss_tables[i].gen);
            }
            i = i + 1;
        }
        assert(ts.subrange(0, n as int) =~= ts);
        r.push(level0);
        let mut l: usize = 1;
        while l < LEVEL_COUNT
            invariant
                n == ts.len(),
                ts == ss_tables@,
                1 <= l <= LEVEL_COUNT,
                r@.len() == l,
                r@[0]@ == gens_at_level(ts, 0),
                forall|q: int|
                    1 <= q < l ==> (#[trigger] r@[q])@.to_multiset() == gens_at_level(ts, q).to_multiset(),
                gens_unique(ts) ==> forall|q: int| 1 <= q < l ==> sorted_by_start(ts, (#[trigger] r@[q])@),
            decreases LEVEL_COUNT - l,
        {
            let mut idxs: Vec<usize> = Vec::new();
            let mut i: usize = 0;
            assert(ts.subrange(0, 0) =~= Seq::<SsTableInfo>::empty());
            assert(idx_gens(ts, idxs@) =~= Seq::<i64>::empty());
            while i < n
                invariant
                    n == ts.len(),
                    ts == ss_tables@,
                    i <= n,
                    forall|q: int| 0 <= q < idxs@.len() ==> (#[trigger] idxs@[q]) < i,
                    idx_gens(ts, idxs@).to_multiset() == gens_at_level(ts.subrange(0, i as int), l as int).to_multiset(),
                    forall|q: int|
                        0 <= q < idxs@.len() - 1 ==> lex_le(
                            ts[(#[trigger] idxs@[q]) as int].scope.start@,
                            ts[idxs@[q + 1] as int].scope.start@,
                        ),
                decreases n - i,
            {
                proof {
                    assert(ts.subrange(0, i as int + 1).drop_last() =~= ts.subrange(0, i as int));
                }
                if ss_tables[i].level == l {
                    let key = ss_tables[i].scope.start.as_slice();
                    let mut p: usize = 0;
                    while p < idxs.len() && !bytes_lt(key, ss_tables[idxs[p]].scope.start.as_slice())
                        invariant
                            n == ts.len(),
                            ts == ss_tables@,
                            i < n,
                            key@ == ts[i as int].scope.start@,
                            p <= idxs@.len(),
                            forall|q: int| 0 <= q < idxs@.len() ==> (#[trigger] idxs@[q]) < i,
                            p > 0 ==> !lex_lt(key@, ts[idxs@[p - 1] as int].scope.start@),
                        decreases idxs@.len() - p,
                    {
                        p = p + 1;
                    }
                    let ghost old_idxs = idxs@;
                    idxs.insert(p, i);
                    proof {
                        let x = ts[i as int].scope.start@;
                        if p > 0 {
                            lemma_lex_total(x, ts[old_idxs[p - 1] as int].scope.start@);
                        }
                        if p < old_idxs.len() {
                            assert(lex_lt(x, ts[old_idxs[p as int] as int].scope.start@));
                        }
                        assert forall|q: int|
                            0 <= q < idxs@.len() - 1 implies lex_le(
                                ts[(#[trigger] idxs@[q]) as int].scope.start@,
                                ts[idxs@[q + 1] as int].scope.start@,
                            ) by {
                            if q < p - 1 {
                                assert(idxs@[q] == old_idxs[q] && idxs@[q + 1] == old_idxs[q + 1]);
                            } else if q == p - 1 {
                                assert(idxs@[q] == old_idxs[q] && idxs@[q + 1] == i);
                            } else if q == p {
                                assert(idxs@[q] == i && idxs@[q + 1] == old_idxs[q]);
                            } else {
                                assert(idxs@[q] == old_idxs[q - 1] && idxs@[q + 1] == old_idxs[q]);
                            }
                        }
                        assert forall|q: int| 0 <= q < idxs@.len() implies (#[trigger] idxs@[q]) < i + 1 by {
                            if q < p {
                                assert(idxs@[q] == old_idxs[q]);
                            } else if q > p {
                                assert(idxs@[q] == old_idxs[q - 1]);
                            }
                        }
                        assert(idx_gens(ts, idxs@) =~= idx_gens(ts, old_idxs).insert(p as int, ts[i as int].gen));
                        vstd::seq_lib::to_multiset_insert(idx_gens(ts, old_idxs), p as int, ts[i as int].gen);
                        let nxt = ts.subrange(0, i as int + 1);
                        assert(nxt.last() == ts[i as int]);
                        vstd::seq_lib::to_multiset_build(gens_at_level(ts.subrange(0, i as int), l as int), ts[i as int].gen);
                    }
                }
                i = i + 1;
            }
            assert(ts.subrange(0, n as int) =~= ts);
            let mut gens: Vec<i64> = Vec::new();
            let mut k: usize = 0;
            while k < idxs.len()
                invariant
                    n == ts.len(),
                    ts == ss_tables@,
                    k <= idxs@.len(),
                    forall|q: int| 0 <= q < idxs@.len() ==> (#[trigger] idxs@[q]) < n,
                    gens@ == idx_gens(ts, idxs@.subrange(0, k as int)),
                decreases idxs@.len() - k,
            {
                gens.push(ss_tables[idxs[k]].gen);
                k = k + 1;
                assert(gens@ =~= idx_gens(ts, idxs@.subrange(0, k as int)));
            }
            assert(idxs@.subrange(0, k as int) =~= idxs@);
            proof {
                if gens_unique(ts) {
                    assert forall|q: int| 0 <= q < gens@.len() - 1 implies lex_le(
                        start_of(ts, #[trigger] gens@[q]),
                        start_of(ts, gens@[q + 1]),
                    ) by {
                        lemma_table_of_unique(ts, idxs@[q] as int);
                        lemma_table_of_unique(ts, idxs@[q + 1] as int);
                    }
                }
            }
            r.push(gens);
            proof {
                assert(r@[l as int]@ == gens@);
                assert(r@[0]@ == gens_at_level(ts, 0));
            }
            l = l + 1;
        }
        r
    }

    /// The manifest of the tables `ss_tables`, listed by ascending generation.
    pub fn new(ss_tables: Vec<SsTableInfo>, cache_size: usize) -> (r: Result<Manifest, KvsError>)
        requires
            gens_unique(ss_tables@),
        ensures
            (exists|i: int| 0 <= i < ss_tables@.len() && #[trigger] ss_tables@[i].level >= LEVEL_COUNT)
                ==> r == Err::<Manifest, KvsError>(KvsError::LevelOver),
            (forall|i: int| 0 <= i < ss_tables@.len() ==> #[trigger] ss_tables@[i].level < LEVEL_COUNT)
                && cache_size == 0 ==> r == Err::<Manifest, KvsError>(KvsError::CacheSizeOverFlow),
            (forall|i: int| 0 <= i < ss_tables@.len() ==> #[trigger] ss_tables@[i].level < LEVEL_COUNT)
                && cache_size > 0 ==> (r matches Ok(m) && m.wf() && m.tables_view() == ss_tables@
                && m.levels_view()[0] == gens_at_level(ss_tables@, 0)
                && (forall|l: int| 1 <= l < LEVEL_COUNT ==> (#[trigger] m.levels_view()[l]).to_multiset() == gens_at_level(ss_tables@, l).to_multiset())
                && (forall|l: int| 1 <= l < LEVEL_COUNT ==> sorted_by_start(ss_tables@, #[trigger] m.levels_view()[l]))
                && m.size_view() == sum_size(ss_tables@) && m.meet_view() == gens_of(ss_tables@)
                && m.cache_view().dom() == Set::<(i64, u64, usize)>::empty()),
    {
        let mut i: usize = 0;
        let mut size_of_disk: u64 = 0;
        let mut meet: Vec<i64> = Vec::new();
        while i < ss_tables.len()
            invariant
                i <= ss_tables@.len(),
                forall|j: int| 0 <= j < i ==> #[trigger] ss_tables@[j].level < LEVEL_COUNT,
                size_of_disk == sum_size(ss_tables@.subrange(0, i as int)),
                meet@ == ss_tables@.subrange(0, i as int).map_values(|t: SsTableInfo| t.gen),
            decreases ss_tables@.len() - i,
        {
            if ss_tables[i].level >= LEVEL_COUNT {
                return Err(KvsError::LevelOver);
            }
            proof {
                assert(ss_tables@.subrange(0, i as int + 1).drop_last() =~= ss_tables@.subrange(0, i as int));
            }
            size_of_disk = size_of_disk.saturating_add(ss_tables[i].size_of_disk);
            meet.push(ss_tables[i].gen);
            assert(meet@ =~= ss_tables@.subrange(0, i as int + 1).map_values(|t: SsTableInfo| t.gen));
            i = i + 1;
        }
        assert(ss_tables@.subrange(0, i as int) =~= ss_tables@);
        let position_cache = match cache_new(cache_size) {
            Some(c) => c,
            None => {
                return Err(KvsError::CacheSizeOverFlow);
            },
        };
        let level_slice = Self::level_layered(&ss_tables);
        let m = Manifest { ss_tables, level_slice, size_of_disk, sync_buffer_of_meet: meet, position_cache };
        assert forall|l: int| 0 <= l < LEVEL_COUNT implies #[trigger] m.levels_view()[l] == m.level_slice@[l]@ by {}
        assert(m.levels_view()[0] == m.level_slice@[0]@);
        Ok(m)
    }

    /// The cached block of table `gen` at `pos`, if the cache still holds it.
    pub fn cached_block(&mut self, gen: i64, pos: Position) -> (r: Option<Vec<CommandData>>)
        ensures
            final(self).cache_view() == old(self).cache_view(),
            match r {
                Some(b) => old(self).cache_view().contains_key((gen, pos.start, pos.len))
                    && old(self).cache_view()[(gen, pos.start, pos.len)] == block_model(b@),
                None => !old(self).cache_view().contains_key((gen, pos.start, pos.len)),
            },
            final(self).tables_view() == old(self).tables_view(),
            final(self).levels_view() == old(self).levels_view(),
            final(self).size_view() == old(self).size_view(),
            final(self).meet_view() == old(self).meet_view(),
            old(self).wf() ==> final(self).wf(),
    {
        cache_get(&mut self.position_cache, (gen, pos.start, pos.len))
    }

    /// Keeps the decoded block of table `gen` at `pos` in the cache; the
    /// least recently used block may make room for it.
    pub fn cache_block(&mut self, gen: i64, pos: Position, block: Vec<CommandData>)
        ensures
            final(self).cache_view().contains_key((gen, pos.start, pos.len)),
            final(self).cache_view()[(gen, pos.start, pos.len)] == block_model(block@),
            forall|k: (i64, u64, usize)|
                #[trigger] final(self).cache_view().contains_key(k) && k != (gen, pos.start, pos.len)
                    ==> old(self).cache_view().contains_key(k) && final(self).cache_view()[k]
                    == old(self).cache_view()[k],
            final(self).tables_view() == old(self).tables_view(),
            final(self).levels_view() == old(self).levels_view(),
            final(self).size_view() == old(self).size_view(),
            final(self).meet_view() == old(self).meet_view(),
            old(self).wf() ==> final(self).wf(),
    {
        cache_put(&mut self.position_cache, (gen, pos.start, pos.len), block);
    }

    /// A well-formed manifest has one list of generations per level.
    pub proof fn lemma_wf_levels(&self)
        requires
            self.wf(),
        ensures
            self.levels_view().len() == LEVEL_COUNT,
            gens_unique(self.tables_view()),
    {
    }

    /// Disk size of all tables.
    pub fn size_of_disk(&self) -> (r: u64)
        ensures
            r == self.size_view(),
    {
        self.size_of_disk
    }

    /// The generations at `level`, in order.
    pub fn get_level_vec(&self, level: usize) -> (r: &Vec<i64>)
        requires
            self.wf(),
            level < LEVEL_COUNT,
        ensures
            r@ == self.levels_view()[level as int],
    {
        &self.level_slice[level]
    }

    /// The generations at `level` that have a table, in order.
    pub fn get_vec_ss_table_with_level(&self, level: usize) -> (r: Vec<i64>)
        requires
            self.wf(),
            level < LEVEL_COUNT,
        ensures
            r@ == self.levels_view()[level as int].filter(
                |g: i64| table_of(self.tables_view(), g) is Some,
            ),
    {
        let lv = &self.level_slice[level];
        assert(lv@ == self.levels_view()[level as int]);
        let mut r: Vec<i64> = Vec::new();
        let mut i: usize = 0;
        while i < lv.len()
            invariant
                i <= lv@.len(),
                r@ == lv@.subrange(0, i as int).filter(
                    |g: i64| table_of(self.tables_view(), g) is Some,
                ),
            decreases lv@.len() - i,
        {
            proof {
                reveal(Seq::filter);
                assert(lv@.subrange(0, i as int + 1).drop_last() =~= lv@.subrange(0, i as int));
            }
            if self.get_ss_table(lv[i]).is_some() {
                r.push(lv[i]);
            }
            i = i + 1;
        }
        assert(lv@.subrange(0, i as int) =~= lv@);
        r
    }

    /// The table of generation `gen`.
    pub fn get_ss_table(&self, gen: i64) -> (r: Option<&SsTableInfo>)
        ensures
            match r {
                Some(t) => table_of(self.tables_view(), gen) == Some(*t),
                None => table_of(self.tables_view(), gen) is None,
            },
    {
        let mut i: usize = self.ss_tables.len();
        assert(self.ss_tables@.subrange(0, i as int) =~= self.ss_tables@);
        while i > 0
            invariant
                i <= self.ss_tables@.len(),
                table_of(self.ss_tables@, gen) == table_of(self.ss_tables@.subrange(0, i as int), gen),
            decreases i,
        {
            proof {
                assert(self.ss_tables@.subrange(0, i as int).drop_last() =~= self.ss_tables@.subrange(0, i as int - 1));
            }
            if self.ss_tables[i - 1].gen == gen {
                return Some(&self.ss_tables[i - 1]);
            }
            i = i - 1;
        }
        None
    }

    /// Adds a table and places its generation at `index` of its level.
    pub fn insert_ss_table_with_index(&mut self, ss_table: SsTableInfo, index: usize)
        requires
            old(self).wf(),
            ss_table.level < LEVEL_COUNT,
            index <= old(self).levels_view()[ss_table.level as int].len(),
            table_of(old(self).tables_view(), ss_table.gen) is None,
        ensures
            final(self).wf(),
            final(self).tables_view() == old(self).tables_view().push(ss_table),
            final(self).levels_view() == old(self).levels_view().update(
                ss_table.level as int,
                old(self).levels_view()[ss_table.level as int].insert(index as int, ss_table.gen),
            ),
            final(self).size_view() == crate::hash_kv::sat_add(old(self).size_view(), ss_table.size_of_disk as int),
            final(self).meet_view() == old(self).meet_view().insert(ss_table.gen),
    {
        let gen = ss_table.gen;
        let level = ss_table.level;
        self.size_of_disk = self.size_of_disk.saturating_add(ss_table.size_of_disk);
        proof {
            lemma_table_of_none(self.ss_tables@, gen);
        }
        let ghost before_tables = self.ss_tables@;
        self.ss_tables.push(ss_table);
        proof {
            let t = self.ss_tables@;
            assert forall|a: int, b: int|
                0 <= a < t.len() && 0 <= b < t.len() && a != b implies (#[trigger] t[a]).gen != (#[trigger] t[b]).gen by {
                if a < before_tables.len() && b < before_tables.len() {
                    assert(t[a] == before_tables[a] && t[b] == before_tables[b]);
                } else if a < before_tables.len() {
                    assert(t[a] == before_tables[a]);
                } else {
                    assert(t[b] == before_tables[b]);
                }
            }
        }
        let ghost before = self.level_slice@;
        let mut lv = self.level_slice.remove(level);
        lv.insert(index, gen);
        self.level_slice.insert(level, lv);
        proof {
            assert(self.level_slice@ =~= before.update(level as int, self.level_slice@[level as int]));
            assert(self.levels_view() =~= old(self).levels_view().update(
                level as int,
                old(self).levels_view()[level as int].insert(index as int, gen),
            ));
        }
        let ghost mb = self.sync_buffer_of_meet@;
        self.sync_buffer_of_meet.push(gen);
        proof {
            lemma_push_to_set(mb, gen);
        }
    }

    /// Adds tables of one level and places their generations, in the
    /// order given, from `index` on. Where the batch fits there in order
    /// of least key and generations stay unique, the level stays ordered.
    pub fn insert_ss_table_with_index_batch(&mut self, ss_tables: Vec<SsTableInfo>, index: usize)
        requires
            old(self).wf(),
            ss_tables@.len() > 0,
            ss_tables@[0].level < LEVEL_COUNT,
            forall|i: int| 0 <= i < ss_tables@.len() ==> (#[trigger] ss_tables@[i]).level == ss_tables@[0].level,
            index <= old(self).levels_view()[ss_tables@[0].level as int].len(),
            gens_unique(old(self).tables_view() + ss_tables@),
        ensures
            final(self).wf(),
            final(self).tables_view() == old(self).tables_view() + ss_tables@,
            final(self).meet_view() == old(self).meet_view().union(gens_of(ss_tables@)),
            final(self).levels_view() == old(self).levels_view().update(
                ss_tables@[0].level as int,
                splice_level(old(self).levels_view()[ss_tables@[0].level as int], ss_tables@, index as int),
            ),
            final(self).size_view() == batch_size(old(self).size_view(), ss_tables@),
            ({
                let l = ss_tables@[0].level as int;
                sorted_by_start(old(self).tables_view(), old(self).levels_view()[l])
                    && batch_fits(old(self).tables_view(), old(self).levels_view()[l], ss_tables@, index as int)
                    ==> sorted_by_start(final(self).tables_view(), final(self).levels_view()[l])
            }),
    {
        let level = ss_tables[0].level;
        let ghost l = level as int;
        let ghost lv0 = old(self).levels_view()[l];
        let mut rest = ss_tables;
        let ghost all = rest@;
        let total_n = rest.len();
        let mut stack: Vec<SsTableInfo> = Vec::new();
        while rest.len() > 0
            invariant
                rest@.len() + stack@.len() == all.len(),
                rest@ == all.subrange(0, rest@.len() as int),
                forall|j: int| 0 <= j < stack@.len() ==> #[trigger] stack@[j] == all[all.len() - 1 - j],
            decreases rest@.len(),
        {
            let t = rest.pop().unwrap();
            stack.push(t);
            assert(rest@ =~= all.subrange(0, rest@.len() as int));
        }
        let mut k: usize = 0;
        assert(old(self).levels_view().len() == LEVEL_COUNT);
        assert(splice_level(lv0, all.subrange(0, 0), index as int) =~= lv0);
        assert(old(self).levels_view().update(l, lv0) =~= old(self).levels_view());
        assert(old(self).tables_view() + all.subrange(0, 0) =~= old(self).tables_view());
        assert(all.subrange(0, 0) =~= Seq::<SsTableInfo>::empty());
        assert(gens_of(all.subrange(0, 0)) =~= Set::<i64>::empty());
        assert(old(self).meet_view().union(Set::<i64>::empty()) =~= old(self).meet_view());
        while stack.len() > 0
            invariant
                self.wf(),
                old(self).levels_view().len() == LEVEL_COUNT,
                l == level as int,
                level < LEVEL_COUNT,
                lv0 == old(self).levels_view()[l],
                index <= lv0.len(),
                k + stack@.len() == all.len(),
                total_n == all.len(),
                gens_unique(old(self).tables_view() + all),
                forall|j: int| 0 <= j < stack@.len() ==> #[trigger] stack@[j] == all[all.len() - 1 - j],
                forall|j: int| 0 <= j < all.len() ==> (#[trigger] all[j]).level == level,
                self.tables_view() == old(self).tables_view() + all.subrange(0, k as int),
                self.meet_view() == old(self).meet_view().union(gens_of(all.subrange(0, k as int))),
                self.levels_view() == old(self).levels_view().update(
                    l,
                    splice_level(lv0, all.subrange(0, k as int), index as int),
                ),
                self.size_view() == batch_size(old(self).size_view(), all.subrange(0, k as int)),
            decreases stack@.len(),
        {
            let t = stack.pop().unwrap();
            assert(t == all[k as int]);
            proof {
                let pre = all.subrange(0, k as int);
                let nxt = all.subrange(0, k as int + 1);
                assert(nxt.drop_last() =~= pre);
                assert(nxt =~= pre.push(t));
                assert(old(self).tables_view() + nxt =~= (old(self).tables_view() + pre).push(t));
                lemma_gens_of_push(pre, t);
                assert(old(self).meet_view().union(gens_of(nxt)) =~= old(self).meet_view().union(gens_of(pre)).insert(t.gen));
                assert(splice_level(lv0, nxt, index as int) =~= splice_level(lv0, pre, index as int).insert(
                    index + k,
                    t.gen,
                ));
                assert(self.levels_view()[l] == splice_level(lv0, pre, index as int));
            }
            proof {
                let full = old(self).tables_view() + all;
                let cur = old(self).tables_view() + all.subrange(0, k as int);
                let ot = old(self).tables_view();
                assert forall|i: int| 0 <= i < cur.len() implies (#[trigger] cur[i]).gen != t.gen by {
                    assert(cur[i] == full[i]);
                    assert(full[ot.len() + k] == t);
                }
                lemma_table_of_absent(cur, t.gen);
            }
            let cur_len = self.get_level_vec(level).len();
            assert(cur_len == lv0.len() + k);
            self.insert_ss_table_with_index(t, index + k);
            proof {
                let nxt = all.subrange(0, k as int + 1);
                assert(self.levels_view() =~= old(self).levels_view().update(
                    l,
                    splice_level(lv0, nxt, index as int),
                ));
            }
            k = k + 1;
        }
        assert(all.subrange(0, all.len() as int) =~= all);
        proof {
            if sorted_by_start(old(self).tables_view(), lv0) && batch_fits(old(self).tables_view(), lv0, all, index as int)
                && gens_unique(old(self).tables_view() + all) {
                lemma_batch_sorted(old(self).tables_view(), lv0, all, index as int);
            }
        }
    }

    /// Drops the tables of generations `vec_expired_gen` from the table
    /// list, from every level and from the merge round, and their size from
    /// the disk size.
    pub fn retain_with_vec_gen_and_level(&mut self, vec_expired_gen: &[i64])
        requires
            old(self).wf(),
        ensures
            final(self).wf(),
            final(self).tables_view() == old(self).tables_view().filter(
                |t: SsTableInfo| !vec_expired_gen@.contains(t.gen),
            ),
            forall|l: int| 0 <= l < LEVEL_COUNT ==> #[trigger] final(self).levels_view()[l]
                == old(self).levels_view()[l].filter(|g: i64| !vec_expired_gen@.contains(g)),
            final(self).meet_view() == old(self).meet_view().filter(|g: i64| !vec_expired_gen@.contains(g)),
            final(self).size_view() == if old(self).size_view() >= expired_size(old(self).tables_view(), vec_expired_gen@) {
                old(self).size_view() - expired_size(old(self).tables_view(), vec_expired_gen@)
            } else {
                0
            },
    {
        let mut removed: u64 = 0;
        let mut i: usize = 0;
        while i < vec_expired_gen.len()
            invariant
                i <= vec_expired_gen@.len(),
                removed == expired_size(self.tables_view(), vec_expired_gen@.subrange(0, i as int)),
            decreases vec_expired_gen@.len() - i,
        {
            proof {
                assert(vec_expired_gen@.subrange(0, i as int + 1).drop_last() =~= vec_expired_gen@.subrange(0, i as int));
            }
            if let Some(t) = self.get_ss_table(vec_expired_gen[i]) {
                removed = removed.saturating_add(t.size_of_disk);
            }
            i = i + 1;
        }
        assert(vec_expired_gen@.subrange(0, i as int) =~= vec_expired_gen@);
        self.size_of_disk = self.size_of_disk.saturating_sub(removed);

        let ghost orig = self.ss_tables@;
        assert(gens_unique(orig));
        let n = self.ss_tables.len();
        let mut rest: Vec<SsTableInfo> = Vec::new();
        std::mem::swap(&mut rest, &mut self.ss_tables);
        let mut tables: Vec<SsTableInfo> = Vec::new();
        let mut j: usize = 0;
        while rest.len() > 0
            invariant
                n == orig.len(),
                j <= orig.len(),
                rest@ == orig.subrange(j as int, orig.len() as int),
                tables@ == orig.subrange(0, j as int).filter(
                    |t: SsTableInfo| !vec_expired_gen@.contains(t.gen),
                ),
                gens_unique(orig),
                gens_unique(tables@),
                forall|a: int| 0 <= a < tables@.len() ==> exists|b: int| 0 <= b < j && orig[b].gen == (#[trigger] tables@[a]).gen,
            decreases rest@.len(),
        {
            proof {
                reveal(Seq::filter);
                assert(orig.subrange(0, j as int + 1).drop_last() =~= orig.subrange(0, j as int));
            }
            let t = rest.remove(0);
            assert(t == orig[j as int]);
            if !gen_in(vec_expired_gen, t.gen) {
                let ghost before = tables@;
                tables.push(t);
                proof {
                    let tv = tables@;
                    assert forall|a: int| 0 <= a < before.len() implies (#[trigger] before[a]).gen != t.gen by {
                        let b = choose|b: int| 0 <= b < j && orig[b].gen == before[a].gen;
                        assert(orig[b].gen != orig[j as int].gen);
                    }
                    assert forall|a: int, b: int|
                        0 <= a < tv.len() && 0 <= b < tv.len() && a != b implies (#[trigger] tv[a]).gen != (#[trigger] tv[b]).gen by {
                        if a < before.len() && b < before.len() {
                            assert(tv[a] == before[a] && tv[b] == before[b]);
                        } else if a < before.len() {
                            assert(tv[a] == before[a]);
                        } else {
                            assert(tv[b] == before[b]);
                        }
                    }
                    assert forall|a: int| 0 <= a < tv.len() implies exists|b: int| 0 <= b < j + 1 && orig[b].gen == (#[trigger] tv[a]).gen by {
                        if a < before.len() {
                            assert(tv[a] == before[a]);
                            let b = choose|b: int| 0 <= b < j && orig[b].gen == before[a].gen;
                        } else {
                            assert(orig[j as int].gen == tv[a].gen);
                        }
                    }
                }
            }
            j = j + 1;
            assert(rest@ =~= orig.subrange(j as int, orig.len() as int));
        }
        assert(orig.subrange(0, j as int) =~= orig);
        self.ss_tables = tables;

        let mut levels: Vec<Vec<i64>> = Vec::new();
        let mut l: usize = 0;
        while l < LEVEL_COUNT
            invariant
                self.wf(),
                self.level_slice@ == old(self).level_slice@,
                l <= LEVEL_COUNT,
                levels@.len() == l,
                forall|q: int| 0 <= q < l ==> (#[trigger] levels@[q])@ == old(self).levels_view()[q].filter(
                    |g: i64| !vec_expired_gen@.contains(g),
                ),
            decreases LEVEL_COUNT - l,
        {
            let kept = without_gens(&self.level_slice[l], vec_expired_gen);
            levels.push(kept);
            l = l + 1;
        }
        self.level_slice = levels;
        assert forall|q: int| 0 <= q < LEVEL_COUNT implies #[trigger] self.levels_view()[q]
            == old(self).levels_view()[q].filter(|g: i64| !vec_expired_gen@.contains(g)) by {
            assert(self.levels_view()[q] == self.level_slice@[q]@);
        }

        let ghost mb = self.sync_buffer_of_meet@;
        let meet = without_gens(&self.sync_buffer_of_meet, vec_expired_gen);
        self.sync_buffer_of_meet = meet;
        proof {
            lemma_filter_to_set(mb, |g: i64| !vec_expired_gen@.contains(g));
        }
    }

    /// Whether `level` holds more tables than `sst_size ^ level * sst_magnification`.
    pub fn is_threshold_exceeded_major(&self, sst_size: usize, level: usize, sst_magnification: usize) -> (r: bool)
        requires
            self.wf(),
            level < LEVEL_COUNT,
        ensures
            r == (self.levels_view()[level as int].len() > vstd::arithmetic::power::pow(
                sst_size as int,
                level as nat,
            ) * sst_magnification),
    {
        let count = self.level_slice[level].len();
        assert(self.levels_view()[level as int] == self.level_slice@[level as int]@);
        if sst_size == 0 && level > 0 {
            proof {
                vstd::arithmetic::power::lemma0_pow(level as nat);
                assert(self.levels_view()[level as int] == self.level_slice@[level as int]@);
            }
            return count > 0;
        }
        let mut bound: u128 = sst_magnification as u128;
        let mut e: usize = 0;
        proof {
            vstd::arithmetic::power::lemma_pow0(sst_size as int);
        }
        while e < level
            invariant
                e <= level,
                level < LEVEL_COUNT,
                count == self.levels_view()[level as int].len(),
                sst_size > 0 || level == 0,
                bound == vstd::arithmetic::power::pow(sst_size as int, e as nat) * sst_magnification,
                bound <= usize::MAX,
            decreases level - e,
        {
            proof {
                vstd::arithmetic::power::lemma_pow_adds(sst_size as int, e as nat, 1);
                vstd::arithmetic::power::lemma_pow1(sst_size as int);
                let p = vstd::arithmetic::power::pow(sst_size as int, e as nat);
                assert(p * sst_size * sst_magnification == p * sst_magnification * sst_size) by (nonlinear_arith);
                assert(bound * sst_size <= usize::MAX * usize::MAX) by (nonlinear_arith)
                    requires bound <= usize::MAX, sst_size <= usize::MAX, bound >= 0, sst_size >= 0;
            }
            bound = bound * (sst_size as u128);
            e = e + 1;
            if bound > usize::MAX as u128 {
                proof {
                    vstd::arithmetic::power::lemma_pow_increases(sst_size as nat, e as nat, level as nat);
                    let p1 = vstd::arithmetic::power::pow(sst_size as int, e as nat);
                    let p2 = vstd::arithmetic::power::pow(sst_size as int, level as nat);
                    assert(p2 * sst_magnification >= p1 * sst_magnification) by (nonlinear_arith)
                        requires p2 >= p1, sst_magnification >= 0;
                }
                return false;
            }
        }
        count as u128 > bound
    }

    /// The place of `source_gen` at `level`, if it is there.
    pub fn get_index(&self, level: usize, source_gen: i64) -> (r: Option<usize>)
        requires
            self.wf(),
            level < LEVEL_COUNT,
        ensures
            match r {
                Some(i) => i < self.levels_view()[level as int].len() && self.levels_view()[level as int][i as int] == source_gen
                    && forall|j: int| 0 <= j < i ==> self.levels_view()[level as int][j] != source_gen,
                None => !self.levels_view()[level as int].contains(source_gen),
            },
    {
        let lv = &self.level_slice[level];
        assert(lv@ == self.levels_view()[level as int]);
        let mut i: usize = 0;
        while i < lv.len()
            invariant
                lv@ == self.levels_view()[level as int],
                i <= lv@.len(),
                forall|j: int| 0 <= j < i ==> lv@[j] != source_gen,
            decreases lv@.len() - i,
        {
            if lv[i] == source_gen {
                return Some(i);
            }
            i = i + 1;
        }
        None
    }

    /// The tables of `level`, in order, whose range meets `scope` and that
    /// the current merge round has not taken yet; they are taken now.
    pub fn get_meet_scope_ss_tables(&mut self, level: usize, scope: &Scope) -> (r: Vec<i64>)
        requires
            old(self).wf(),
            level < LEVEL_COUNT,
        ensures
            final(self).wf(),
            forall|i: int| 0 <= i < r@.len() ==> old(self).levels_view()[level as int].contains(#[trigger] r@[i])
                && old(self).meet_view().contains(r@[i]) && match table_of(old(self).tables_view(), r@[i]) {
                    Some(t) => Scope::meets_spec(t.scope.start@, t.scope.end@, scope.start@, scope.end@),
                    None => false,
                },
            forall|g: i64| #[trigger] old(self).meet_view().contains(g) && old(self).levels_view()[level as int].contains(g)
                && (match table_of(old(self).tables_view(), g) {
                    Some(t) => Scope::meets_spec(t.scope.start@, t.scope.end@, scope.start@, scope.end@),
                    None => false,
                }) ==> r@.contains(g),
            forall|g: i64| #[trigger] final(self).meet_view().contains(g) <==> old(self).meet_view().contains(g) && !r@.contains(g),
            r@.no_duplicates(),
            final(self).tables_view() == old(self).tables_view(),
            final(self).levels_view() == old(self).levels_view(),
            final(self).size_view() == old(self).size_view(),
    {
        let mut r: Vec<i64> = Vec::new();
        let lv = copy_gens(&self.level_slice[level]);
        let ghost meet0 = self.meet_view();
        let mut i: usize = 0;
        while i < lv.len()
            invariant
                self.wf(),
                lv@ == old(self).levels_view()[level as int],
                i <= lv@.len(),
                self.tables_view() == old(self).tables_view(),
                self.levels_view() == old(self).levels_view(),
                self.size_view() == old(self).size_view(),
                meet0 == old(self).meet_view(),
                r@.no_duplicates(),
                forall|x: i64| #[trigger] self.meet_view().contains(x) <==> meet0.contains(x) && !r@.contains(x),
                forall|q: int| 0 <= q < r@.len() ==> lv@.contains(#[trigger] r@[q])
                    && meet0.contains(r@[q]) && match table_of(self.tables_view(), r@[q]) {
                        Some(t) => Scope::meets_spec(t.scope.start@, t.scope.end@, scope.start@, scope.end@),
                        None => false,
                    },
                forall|q: int| 0 <= q < i ==> (meet0.contains(#[trigger] lv@[q]) && (match table_of(self.tables_view(), lv@[q]) {
                    Some(t) => Scope::meets_spec(t.scope.start@, t.scope.end@, scope.start@, scope.end@),
                    None => false,
                })) ==> r@.contains(lv@[q]),
            decreases lv@.len() - i,
        {
            let g = lv[i];
            let hit = match self.get_ss_table(g) {
                Some(t) => t.scope.meet(scope),
                None => false,
            };
            let ghost r0 = r@;
            if hit && gen_in(self.sync_buffer_of_meet.as_slice(), g) {
                let ghost mb = self.sync_buffer_of_meet@;
                let ghost mv = self.meet_view();
                proof {
                    assert(mv == mb.to_set());
                    assert(mv.contains(g));
                    assert forall|x: i64| mb.to_set().contains(x) <==> meet0.contains(x) && !r0.contains(x) by {
                        assert(mv.contains(x) <==> meet0.contains(x) && !r0.contains(x));
                    }
                }
                let kept = remove_gen(&self.sync_buffer_of_meet, g);
                self.sync_buffer_of_meet = kept;
                r.push(g);
                proof {
                    assert(!r0.contains(g));
                    assert forall|a: int, b: int| 0 <= a < r@.len() && 0 <= b < r@.len() && a != b implies r@[a] != r@[b] by {
                        if a < r0.len() && b < r0.len() {
                            assert(r@[a] == r0[a] && r@[b] == r0[b]);
                        } else if a < r0.len() {
                            assert(r@[a] == r0[a]);
                        } else {
                            assert(r@[b] == r0[b]);
                        }
                    }
                    assert(lv@.contains(g)) by { assert(lv@[i as int] == g); }
                    assert(r@[r@.len() - 1] == g);
                    assert(meet0.contains(g));
                    assert forall|x: i64| #[trigger] r@.contains(x) <==> r0.contains(x) || x == g by {
                        if r@.contains(x) {
                            let k = choose|k: int| 0 <= k < r@.len() && r@[k] == x;
                            if k < r0.len() { assert(r0[k] == x); }
                        }
                        if r0.contains(x) {
                            let k = choose|k: int| 0 <= k < r0.len() && r0[k] == x;
                            assert(r@[k] == x);
                        }
                    }
                    assert forall|x: i64| #[trigger] self.meet_view().contains(x) <==> meet0.contains(x) && !r@.contains(x) by {
                        assert(mb.to_set().contains(x) <==> meet0.contains(x) && !r0.contains(x));
                        assert(self.sync_buffer_of_meet@.contains(x) <==> mb.contains(x) && x != g);
                    }
                    assert forall|q: int| 0 <= q < r@.len() implies lv@.contains(#[trigger] r@[q])
                        && meet0.contains(r@[q]) && match table_of(self.tables_view(), r@[q]) {
                            Some(t) => Scope::meets_spec(t.scope.start@, t.scope.end@, scope.start@, scope.end@),
                            None => false,
                        } by {
                        if q < r0.len() { assert(r@[q] == r0[q]); }
                    }
                    assert forall|q: int| 0 <= q < i + 1 && (meet0.contains(#[trigger] lv@[q]) && (match table_of(self.tables_view(), lv@[q]) {
                        Some(t) => Scope::meets_spec(t.scope.start@, t.scope.end@, scope.start@, scope.end@),
                        None => false,
                    })) implies r@.contains(lv@[q]) by {
                        if q < i { assert(r0.contains(lv@[q])); } else { assert(lv@[q] == g); }
                    }
                }
            } else {
                proof {
                    if hit && meet0.contains(g) && !r@.contains(g) {
                        assert(self.meet_view().contains(g));
                        assert(self.sync_buffer_of_meet@.contains(g));
                    }
                }
            }
            i = i + 1;
        }
        r
    }

    /// The tables to ask for `key`, in the order to ask them: those of
    /// level 0, newest first, then for each deeper level the table whose
    /// range holds `key`.
    pub fn get_data_for_ss_tables(&self, key: &[u8]) -> (r: Vec<i64>)
        requires
            self.wf(),
        ensures
            r@ == newest_first(self.tables_view(), self.levels_view()[0])
                + deeper_candidates(self.tables_view(), self.levels_view(), key@, 1),
    {
        let mut r: Vec<i64> = Vec::new();
        let l0 = &self.level_slice[0];
        assert(l0@ == self.levels_view()[0]);
        let mut i: usize = l0.len();
        assert(l0@.subrange(0, i as int) =~= l0@);
        assert(r@ + newest_first(self.tables_view(), l0@) =~= newest_first(self.tables_view(), l0@));
        while i > 0
            invariant
                i <= l0@.len(),
                r@ + newest_first(self.tables_view(), l0@.subrange(0, i as int)) == newest_first(self.tables_view(), l0@),
            decreases i,
        {
            let g = l0[i - 1];
            proof {
                let s = l0@.subrange(0, i as int);
                assert(s.drop_last() =~= l0@.subrange(0, i as int - 1));
                assert(s.last() == g);
            }
            if self.get_ss_table(g).is_some() {
                let ghost r0 = r@;
                r.push(g);
                assert(r@ =~= r0 + seq![g]);
                assert(r@ + newest_first(self.tables_view(), l0@.subrange(0, i as int - 1)) =~= r0 + newest_first(self.tables_view(), l0@.subrange(0, i as int)));
            }
            i = i - 1;
        }
        assert(l0@.subrange(0, 0) =~= Seq::<i64>::empty());
        assert(r@ + Seq::<i64>::empty() =~= r@);
        let ghost first = r@;
        let mut level: usize = 1;
        while level < LEVEL_COUNT
            invariant
                self.wf(),
                1 <= level <= LEVEL_COUNT,
                first == newest_first(self.tables_view(), self.levels_view()[0]),
                r@ + deeper_candidates(self.tables_view(), self.levels_view(), key@, level as nat)
                    == first + deeper_candidates(self.tables_view(), self.levels_view(), key@, 1),
            decreases LEVEL_COUNT - level,
        {
            let lv = &self.level_slice[level];
            assert(lv@ == self.levels_view()[level as int]);
            let mut j: usize = lv.len();
            let mut found: Option<i64> = None;
            assert(lv@.subrange(0, j as int) =~= lv@);
            while j > 0 && found.is_none()
                invariant
                    j <= lv@.len(),
                    found is None ==> last_holding(self.tables_view(), lv@, key@) == last_holding(self.tables_view(), lv@.subrange(0, j as int), key@),
                    found is Some ==> last_holding(self.tables_view(), lv@, key@) == found,
                decreases j,
            {
                let g = lv[j - 1];
                proof {
                    let s = lv@.subrange(0, j as int);
                    assert(s.drop_last() =~= lv@.subrange(0, j as int - 1));
                    assert(s.last() == g);
                }
                match self.get_ss_table(g) {
                    Some(t) => {
                        if t.scope.contains(key) {
                            found = Some(g);
                        }
                    },
                    None => {},
                }
                j = j - 1;
            }
            if found.is_none() {
                assert(lv@.subrange(0, j as int) =~= Seq::<i64>::empty());
            }
            let ghost r0 = r@;
            match found {
                Some(g) => {
                    r.push(g);
                },
                None => {},
            }
            proof {
                let d = deeper_candidates(self.tables_view(), self.levels_view(), key@, level as nat);
                let d2 = deeper_candidates(self.tables_view(), self.levels_view(), key@, (level + 1) as nat);
                match found {
                    Some(g) => {
                        assert(d == seq![g] + d2);
                        assert(r@ + d2 =~= r0 + d);
                    },
                    None => {
                        assert(d =~= d2);
                        assert(r@ == r0);
                    },
                }
            }
            level = level + 1;
        }
        r
    }
}

impl SsTableInfo {
    /// A copy of the table's record.
    pub fn clone_info(&self) -> (r: SsTableInfo)
        ensures
            r.gen == self.gen && r.level == self.level && r.size_of_disk == self.size_of_disk
                && r.scope.start@ == self.scope.start@ && r.scope.end@ == self.scope.end@,
    {
        SsTableInfo {
            gen: self.gen,
            level: self.level,
            size_of_disk: self.size_of_disk,
            scope: Scope {
                start: crate::command::copy_bytes(self.scope.start.as_slice()),
                end: crate::command::copy_bytes(self.scope.end.as_slice()),
            },
        }
    }
}

fn gen_in(gens: &[i64], g: i64) -> (r: bool)
    ensures
        r == gens@.contains(g),
{
    let mut i: usize = 0;
    while i < gens.len()
        invariant
            i <= gens@.len(),
            forall|j: int| 0 <= j < i ==> gens@[j] != g,
        decreases gens@.len() - i,
    {
        if gens[i] == g {
            assert(gens@[i as int] == g);
            return true;
        }
        i = i + 1;
    }
    false
}

fn remove_gen(v: &Vec<i64>, g: i64) -> (r: Vec<i64>)
    ensures
        forall|x: i64| #[trigger] r@.contains(x) <==> v@.contains(x) && x != g,
{
    let mut r: Vec<i64> = Vec::new();
    let mut i: usize = 0;
    while i < v.len()
        invariant
            i <= v@.len(),
            forall|x: i64| #[trigger] r@.contains(x) <==> (exists|j: int| 0 <= j < i && v@[j] == x) && x != g,
        decreases v@.len() - i,
    {
        let ghost r0 = r@;
        if v[i] != g {
            r.push(v[i]);
        }
        proof {
            assert forall|x: i64| #[trigger] r@.contains(x) <==> (exists|j: int| 0 <= j < i + 1 && v@[j] == x) && x != g by {
                if r@.contains(x) {
                    let k = choose|k: int| 0 <= k < r@.len() && r@[k] == x;
                    if k < r0.len() {
                        assert(r0[k] == x);
                        assert(r0.contains(x));
                    }
                }
                if (exists|j: int| 0 <= j < i + 1 && v@[j] == x) && x != g {
                    let j = choose|j: int| 0 <= j < i + 1 && v@[j] == x;
                    if j < i {
                        assert(r0.contains(x));
                        let k = choose|k: int| 0 <= k < r0.len() && r0[k] == x;
                        assert(r@[k] == x);
                    } else {
                        assert(r@[r@.len() - 1] == x);
                    }
                }
            }
        }
        i = i + 1;
    }
    r
}

fn copy_gens(v: &Vec<i64>) -> (r: Vec<i64>)
    ensures
        r@ == v@,
{
    let mut r: Vec<i64> = Vec::new();
    let mut i: usize = 0;
    while i < v.len()
        invariant
            i <= v@.len(),
            r@ == v@.subrange(0, i as int),
        decreases v@.len() - i,
    {
        r.push(v[i]);
        i = i + 1;
        assert(r@ =~= v@.subrange(0, i as int));
    }
    assert(v@.subrange(0, i as int) =~= v@);
    r
}

fn without_gens(v: &Vec<i64>, expired: &[i64]) -> (r: Vec<i64>)
    ensures
        r@ == v@.filter(|g: i64| !expired@.contains(g)),
{
    let mut r: Vec<i64> = Vec::new();
    let mut i: usize = 0;
    while i < v.len()
        invariant
            i <= v@.len(),
            r@ == v@.subrange(0, i as int).filter(|g: i64| !expired@.contains(g)),
        decreases v@.len() - i,
    {
        proof {
            reveal(Seq::filter);
            assert(v@.subrange(0, i as int + 1).drop_last() =~= v@.subrange(0, i as int));
        }
        if !gen_in(expired, v[i]) {
            r.push(v[i]);
        }
        i = i + 1;
    }
    assert(v@.subrange(0, i as int) =~= v@);
    r
}

proof fn lemma_push_to_set(s: Seq<i64>, g: i64)
    ensures
        s.push(g).to_set() == s.to_set().insert(g),
{
    let t = s.push(g);
    assert forall|x: i64| t.to_set().contains(x) == s.to_set().insert(g).contains(x) by {
        if t.contains(x) && x != g {
            let j = choose|j: int| 0 <= j < t.len() && t[j] == x;
            assert(s[j] == x);
        }
        if s.contains(x) {
            let j = choose|j: int| 0 <= j < s.len() && s[j] == x;
            assert(t[j] == x);
        }
        if x == g {
            assert(t[t.len() - 1] == g);
        }
    }
    assert(t.to_set() =~= s.to_set().insert(g));
}

proof fn lemma_gens_of_push(s: Seq<SsTableInfo>, t: SsTableInfo)
    ensures
        gens_of(s.push(t)) == gens_of(s).insert(t.gen),
{
    let f = |x: SsTableInfo| x.gen;
    assert(s.push(t).map_values(f) =~= s.map_values(f).push(t.gen));
    lemma_push_to_set(s.map_values(f), t.gen);
}

proof fn lemma_filter_to_set(s: Seq<i64>, p: spec_fn(i64) -> bool)
    ensures
        s.filter(p).to_set() == s.to_set().filter(p),
{
    broadcast use vstd::seq_lib::group_filter_ensures;

    let f = s.filter(p);
    assert forall|x: i64| f.to_set().contains(x) == s.to_set().filter(p).contains(x) by {
        if f.contains(x) {
            let j = choose|j: int| 0 <= j < f.len() && f[j] == x;
            s.lemma_filter_contains_rev(p, x);
            assert(p(f[j]));
        }
        if s.contains(x) && p(x) {
            let j = choose|j: int| 0 <= j < s.len() && s[j] == x;
            assert(f.contains(s[j]));
        }
    }
    assert(f.to_set() =~= s.to_set().filter(p));
}

} // verus!
