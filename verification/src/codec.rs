//! The container codec.
//!
//! Wire layout: a 6-byte outer header (3-byte big-endian decompressed size,
//! 3-byte big-endian compressed size), then the payload. Unequal header
//! fields are the only signal that the payload is one headerless bzip2
//! block; there is no flag byte. The payload holds a 2-byte big-endian
//! entry count, `count` 10-byte descriptors (4-byte key hash and the same
//! two sizes per entry), and the concatenated data blocks, each block again
//! a headerless bzip2 stream exactly when its descriptor's sizes differ.

use vstd::prelude::*;
use crate::archive::{Archive, Entry, entries_map, keys_sorted};
use crate::archive::{lemma_entries_map_index, lemma_entries_map_len, lemma_view_def};
use crate::compress::{bz_deflate, bz_inflate, bz_magic, compress, decompress};
use crate::error::ArchiveError;

verus! {

/// A 2-byte big-endian value at offset `i`.
pub open spec fn be16(s: Seq<u8>, i: int) -> int {
    s[i] * 0x100 + s[i + 1]
}

/// A 3-byte big-endian value at offset `i`.
pub open spec fn be24(s: Seq<u8>, i: int) -> int {
    s[i] * 0x10000 + s[i + 1] * 0x100 + s[i + 2]
}

/// A 4-byte big-endian value at offset `i`.
pub open spec fn be32(s: Seq<u8>, i: int) -> u32 {
    (s[i] * 0x1000000 + s[i + 1] * 0x10000 + s[i + 2] * 0x100 + s[i + 3]) as u32
}

/// The 2-byte big-endian encoding of `v`.
pub open spec fn be16_bytes(v: int) -> Seq<u8> {
    seq![(v / 0x100) as u8, (v % 0x100) as u8]
}

/// The 3-byte big-endian encoding of `v`.
pub open spec fn be24_bytes(v: int) -> Seq<u8> {
    seq![(v / 0x10000) as u8, ((v / 0x100) % 0x100) as u8, (v % 0x100) as u8]
}

/// The 4-byte big-endian encoding of `v`.
pub open spec fn be32_bytes(v: u32) -> Seq<u8> {
    seq![
        (v / 0x1000000) as u8,
        ((v / 0x10000) % 0x100) as u8,
        ((v / 0x100) % 0x100) as u8,
        (v % 0x100) as u8,
    ]
}

proof fn lemma_be16_extract(s: Seq<u8>, i: int, v: int)
    requires
        0 <= i,
        i + 2 <= s.len(),
        0 <= v < 0x10000,
        s.subrange(i, i + 2) =~= be16_bytes(v),
    ensures
        be16(s, i) == v,
{
    vstd::arithmetic::div_mod::lemma_fundamental_div_mod(v, 0x100);
    assert(s[i] == be16_bytes(v)[0]);
    assert(s[i + 1] == be16_bytes(v)[1]);
}

proof fn lemma_be24_extract(s: Seq<u8>, i: int, v: int)
    requires
        0 <= i,
        i + 3 <= s.len(),
        0 <= v < 0x1000000,
        s.subrange(i, i + 3) =~= be24_bytes(v),
    ensures
        be24(s, i) == v,
{
    vstd::arithmetic::div_mod::lemma_fundamental_div_mod(v, 0x10000);
    vstd::arithmetic::div_mod::lemma_mod_breakdown(v, 0x100, 0x100);
    assert(s[i] == be24_bytes(v)[0]);
    assert(s[i + 1] == be24_bytes(v)[1]);
    assert(s[i + 2] == be24_bytes(v)[2]);
}

proof fn lemma_be32_extract(s: Seq<u8>, i: int, v: u32)
    requires
        0 <= i,
        i + 4 <= s.len(),
        s.subrange(i, i + 4) =~= be32_bytes(v),
    ensures
        be32(s, i) == v,
{
    vstd::arithmetic::div_mod::lemma_fundamental_div_mod(v as int, 0x1000000);
    vstd::arithmetic::div_mod::lemma_mod_breakdown(v as int, 0x10000, 0x100);
    vstd::arithmetic::div_mod::lemma_mod_breakdown(v as int, 0x100, 0x100);
    assert(s[i] == be32_bytes(v)[0]);
    assert(s[i + 1] == be32_bytes(v)[1]);
    assert(s[i + 2] == be32_bytes(v)[2]);
    assert(s[i + 3] == be32_bytes(v)[3]);
}

fn read_be16(buf: &Vec<u8>, pos: usize) -> (r: u16)
    requires
        pos + 2 <= buf@.len(),
    ensures
        r == be16(buf@, pos as int),
{
    let n: usize = buf.len();
    assert(pos + 2 <= n);
    let b0: u16 = buf[pos] as u16;
    let b1: u16 = buf[pos + 1] as u16;
    b0 * 0x100 + b1
}

fn read_be24(buf: &Vec<u8>, pos: usize) -> (r: u32)
    requires
        pos + 3 <= buf@.len(),
    ensures
        r == be24(buf@, pos as int),
        r < 0x1000000,
{
    let n: usize = buf.len();
    assert(pos + 3 <= n);
    let b0: u32 = buf[pos] as u32;
    let b1: u32 = buf[pos + 1] as u32;
    let b2: u32 = buf[pos + 2] as u32;
    b0 * 0x10000 + b1 * 0x100 + b2
}

fn read_be32(buf: &Vec<u8>, pos: usize) -> (r: u32)
    requires
        pos + 4 <= buf@.len(),
    ensures
        r == be32(buf@, pos as int),
{
    let n: usize = buf.len();
    assert(pos + 4 <= n);
    let b0: u32 = buf[pos] as u32;
    let b1: u32 = buf[pos + 1] as u32;
    let b2: u32 = buf[pos + 2] as u32;
    let b3: u32 = buf[pos + 3] as u32;
    b0 * 0x1000000 + b1 * 0x10000 + b2 * 0x100 + b3
}

fn push_be16(out: &mut Vec<u8>, v: u16)
    ensures
        final(out)@ == old(out)@ + be16_bytes(v as int),
{
    out.push((v / 0x100) as u8);
    out.push((v % 0x100) as u8);
    proof {
        assert(out@ =~= old(out)@ + be16_bytes(v as int));
    }
}

fn push_be24(out: &mut Vec<u8>, v: u32)
    requires
        v < 0x1000000,
    ensures
        final(out)@ == old(out)@ + be24_bytes(v as int),
{
    out.push((v / 0x10000) as u8);
    out.push((v / 0x100 % 0x100) as u8);
    out.push((v % 0x100) as u8);
    proof {
        assert(out@ =~= old(out)@ + be24_bytes(v as int));
    }
}

fn push_be32(out: &mut Vec<u8>, v: u32)
    ensures
        final(out)@ == old(out)@ + be32_bytes(v),
{
    out.push((v / 0x1000000) as u8);
    out.push((v / 0x10000 % 0x100) as u8);
    out.push((v / 0x100 % 0x100) as u8);
    out.push((v % 0x100) as u8);
    proof {
        assert(out@ =~= old(out)@ + be32_bytes(v));
    }
}

/// Copies `buf[start..end]` into a fresh vector.
fn copy_range(buf: &Vec<u8>, start: usize, end: usize) -> (r: Vec<u8>)
    requires
        start <= end <= buf@.len(),
    ensures
        r@ == buf@.subrange(start as int, end as int),
{
    let mut out: Vec<u8> = Vec::new();
    let mut i: usize = start;
    while i < end
        invariant
            start <= i <= end,
            end <= buf@.len(),
            out@ =~= buf@.subrange(start as int, i as int),
        decreases end - i,
    {
        let b: u8 = buf[i];
        out.push(b);
        i = i + 1;
    }
    proof {
        assert(out@ =~= buf@.subrange(start as int, end as int));
    }
    out
}

/// What the entry loop yields from a descriptor table and a data section:
/// each step reads one 10-byte descriptor, consumes that descriptor's
/// `compressed_size` bytes of data, decompresses them exactly when the
/// descriptor's two sizes differ, and stores the result under the
/// descriptor's hash, later entries overwriting earlier ones.
pub open spec fn spec_read_entries(
    table: Seq<u8>,
    data: Seq<u8>,
    n: nat,
    acc: Map<u32, Seq<u8>>,
) -> Result<Map<u32, Seq<u8>>, ArchiveError>
    decreases n,
{
    if n == 0 {
        Ok(acc)
    } else if table.len() < 10 {
        Err(ArchiveError::TruncatedInput)
    } else {
        let hash = be32(table, 0);
        let dsz = be24(table, 4);
        let csz = be24(table, 7);
        if data.len() < csz {
            Err(ArchiveError::TruncatedInput)
        } else {
            let block = data.take(csz);
            if dsz != csz {
                match bz_inflate(bz_magic() + block) {
                    Some(p) => spec_read_entries(
                        table.skip(10),
                        data.skip(csz),
                        (n - 1) as nat,
                        acc.insert(hash, p),
                    ),
                    None => Err(ArchiveError::DecompressionError),
                }
            } else {
                spec_read_entries(
                    table.skip(10),
                    data.skip(csz),
                    (n - 1) as nat,
                    acc.insert(hash, block),
                )
            }
        }
    }
}

/// What the entry section (entry count, descriptor table, data section)
/// decodes to. The table region is the `count * 10` bytes after the count,
/// clamped to what is there; a short region fails inside the entry loop.
pub open spec fn spec_read_entry_section(s: Seq<u8>) -> Result<Map<u32, Seq<u8>>, ArchiveError> {
    if s.len() < 2 {
        Err(ArchiveError::TruncatedInput)
    } else {
        let n = be16(s, 0);
        let rest = s.skip(2);
        let tlen = if 10 * n <= rest.len() {
            10 * n
        } else {
            rest.len() as int
        };
        spec_read_entries(rest.take(tlen), rest.skip(tlen), n as nat, Map::empty())
    }
}

/// What a whole archive buffer decodes to: the 6-byte outer header, then
/// the entry section, decompressed first exactly when the header's two
/// sizes differ.
pub open spec fn spec_decode(s: Seq<u8>) -> Result<Map<u32, Seq<u8>>, ArchiveError> {
    if s.len() < 6 {
        Err(ArchiveError::TruncatedInput)
    } else {
        let dsz = be24(s, 0);
        let csz = be24(s, 3);
        if dsz != csz {
            match bz_inflate(bz_magic() + s.skip(6)) {
                Some(p) => spec_read_entry_section(p),
                None => Err(ArchiveError::DecompressionError),
            }
        } else {
            spec_read_entry_section(s.skip(6))
        }
    }
}

/// Law of truncated input: a buffer shorter than the 6-byte outer header
/// never decodes, and fails as truncated rather than in any other way.
pub proof fn lemma_short_buffer_truncated(s: Seq<u8>)
    requires
        s.len() < 6,
    ensures
        spec_decode(s) == Err::<Map<u32, Seq<u8>>, ArchiveError>(ArchiveError::TruncatedInput),
{
}

/// Law of the empty archive: a store with no entries is always within the
/// format's size limits, so encoding it succeeds — an empty store still
/// yields a syntactically valid archive.
pub proof fn lemma_empty_store_encodable(a: &Archive)
    requires
        a.well_formed(),
        a@ == Map::<u32, Seq<u8>>::empty(),
    ensures
        a.encodable(),
{
    lemma_view_def(a);
    if a.entries@.len() > 0 {
        lemma_entries_map_index(a.entries@, 0);
        assert(a@.contains_key(a.entries@[0].key));
        assert(false);
    }
}

/// Decodes the entry section of `payload` into a fresh store.
fn read_entry_section(payload: &Vec<u8>) -> (r: Result<Archive, ArchiveError>)
    ensures
        match r {
            Ok(a) => a.well_formed() && spec_read_entry_section(payload@) == Ok::<
                Map<u32, Seq<u8>>,
                ArchiveError,
            >(a@),
            Err(e) => spec_read_entry_section(payload@) == Err::<
                Map<u32, Seq<u8>>,
                ArchiveError,
            >(e),
        },
{
    if payload.len() < 2 {
        return Err(ArchiveError::TruncatedInput);
    }
    let count: usize = read_be16(payload, 0) as usize;
    let rest_len: usize = payload.len() - 2;
    let table_len: usize = if count * 10 <= rest_len {
        count * 10
    } else {
        rest_len
    };
    let data_start: usize = 2 + table_len;
    let ghost rest: Seq<u8> = payload@.skip(2);
    let ghost table: Seq<u8> = rest.take(table_len as int);
    let ghost data: Seq<u8> = rest.skip(table_len as int);
    let mut store: Archive = Archive::new();
    let mut consumed: usize = 0;
    let mut i: usize = 0;
    proof {
        assert(table.skip(0) =~= table);
        assert(data.skip(0) =~= data);
    }
    while i < count
        invariant
            store.well_formed(),
            i <= count,
            10 * i <= table_len,
            consumed <= data.len(),
            count * 10 <= 0xFFFF * 10,
            table_len <= rest_len,
            data_start == 2 + table_len,
            rest_len + 2 == payload@.len(),
            rest == payload@.skip(2),
            table == rest.take(table_len as int),
            data == rest.skip(table_len as int),
            table.len() == table_len,
            data.len() == rest_len - table_len,
            spec_read_entries(
                table.skip(10 * i),
                data.skip(consumed as int),
                (count - i) as nat,
                store@,
            ) == spec_read_entry_section(payload@),
        decreases count - i,
    {
        let ghost t_now: Seq<u8> = table.skip(10 * i as int);
        let ghost d_now: Seq<u8> = data.skip(consumed as int);
        if table_len - 10 * i < 10 {
            return Err(ArchiveError::TruncatedInput);
        }
        let desc: usize = 2 + 10 * i;
        let hash: u32 = read_be32(payload, desc);
        let dsz: u32 = read_be24(payload, desc + 4);
        let csz: u32 = read_be24(payload, desc + 7);
        proof {
            assert forall|j: int| 0 <= j < 10 implies t_now[j] == payload@[desc + j] by {
                assert(t_now[j] == table[10 * (i as int) + j]);
                assert(table[10 * (i as int) + j] == rest[10 * (i as int) + j]);
                assert(rest[10 * (i as int) + j] == payload@[2 + 10 * (i as int) + j]);
            }
            assert(be32(t_now, 0) == be32(payload@, desc as int));
            assert(be24(t_now, 4) == be24(payload@, desc as int + 4));
            assert(be24(t_now, 7) == be24(payload@, desc as int + 7));
        }
        let csz_us: usize = csz as usize;
        if payload.len() - data_start - consumed < csz_us {
            proof {
                assert(d_now.len() == data.len() - consumed);
                assert(d_now.len() < csz);
            }
            return Err(ArchiveError::TruncatedInput);
        }
        let block_start: usize = data_start + consumed;
        let block: Vec<u8> = copy_range(payload, block_start, block_start + csz_us);
        proof {
            assert(d_now.take(csz as int) =~= payload@.subrange(
                block_start as int,
                block_start as int + csz as int,
            ));
        }
        let stored: Vec<u8> = if dsz != csz {
            match decompress(&block) {
                Some(p) => p,
                None => {
                    return Err(ArchiveError::DecompressionError);
                },
            }
        } else {
            block
        };
        store.insert_by_key(hash, stored);
        proof {
            assert(t_now.skip(10) =~= table.skip(10 * (i + 1) as int));
            assert(d_now.skip(csz as int) =~= data.skip(consumed + csz as int));
        }
        consumed = consumed + csz_us;
        i = i + 1;
    }
    proof {
        assert(spec_read_entries(
            table.skip(10 * i as int),
            data.skip(consumed as int),
            0,
            store@,
        ) == Ok::<Map<u32, Seq<u8>>, ArchiveError>(store@));
    }
    Ok(store)
}

/// One entry as it will sit on the wire: its descriptor fields, its data
/// block, and the decoded value the block stands for.
pub struct WireEntry {
    pub key: u32,
    pub dsz: int,
    pub csz: int,
    pub block: Seq<u8>,
    pub val: Seq<u8>,
}

/// The 10 descriptor bytes of one wire entry.
pub open spec fn desc_bytes(w: WireEntry) -> Seq<u8> {
    be32_bytes(w.key) + be24_bytes(w.dsz) + be24_bytes(w.csz)
}

/// A wire entry whose block really decodes to its value: sizes in 24-bit
/// range, block length equal to the compressed size, and the block either
/// raw (sizes equal) or a headerless bzip2 stream for the value.
pub open spec fn wire_entry_ok(w: WireEntry) -> bool {
    &&& 0 <= w.dsz < 0x1000000
    &&& 0 <= w.csz < 0x1000000
    &&& w.block.len() == w.csz
    &&& if w.dsz == w.csz {
        w.val == w.block
    } else {
        bz_inflate(bz_magic() + w.block) == Some(w.val)
    }
}

pub open spec fn wire_ok(ws: Seq<WireEntry>) -> bool {
    forall|k: int| 0 <= k < ws.len() ==> wire_entry_ok(#[trigger] ws[k])
}

/// The concatenated descriptor table of a list of wire entries.
pub open spec fn table_bytes(ws: Seq<WireEntry>) -> Seq<u8>
    decreases ws.len(),
{
    if ws.len() == 0 {
        Seq::empty()
    } else {
        desc_bytes(ws[0]) + table_bytes(ws.drop_first())
    }
}

/// The concatenated data section of a list of wire entries.
pub open spec fn data_bytes(ws: Seq<WireEntry>) -> Seq<u8>
    decreases ws.len(),
{
    if ws.len() == 0 {
        Seq::empty()
    } else {
        ws[0].block + data_bytes(ws.drop_first())
    }
}

/// The store a list of wire entries denotes, later entries overwriting
/// earlier ones, starting from `acc`.
pub(crate) open spec fn wire_map(ws: Seq<WireEntry>, acc: Map<u32, Seq<u8>>) -> Map<u32, Seq<u8>>
    decreases ws.len(),
{
    if ws.len() == 0 {
        acc
    } else {
        wire_map(ws.drop_first(), acc.insert(ws[0].key, ws[0].val))
    }
}

proof fn lemma_table_bytes_push(ws: Seq<WireEntry>, w: WireEntry)
    ensures
        table_bytes(ws.push(w)) == table_bytes(ws) + desc_bytes(w),
    decreases ws.len(),
{
    let t = ws.push(w);
    assert(t.len() == ws.len() + 1);
    if ws.len() == 0 {
        assert(t[0] == w);
        assert(t.drop_first() =~= Seq::<WireEntry>::empty());
        assert(table_bytes(t) == desc_bytes(w) + table_bytes(t.drop_first()));
        assert(desc_bytes(w) + Seq::<u8>::empty() =~= Seq::<u8>::empty() + desc_bytes(w));
    } else {
        assert(t.drop_first() =~= ws.drop_first().push(w));
        assert(t[0] == ws[0]);
        lemma_table_bytes_push(ws.drop_first(), w);
        assert(table_bytes(t) == desc_bytes(ws[0]) + (table_bytes(ws.drop_first()) + desc_bytes(
            w,
        )));
        assert(desc_bytes(ws[0]) + (table_bytes(ws.drop_first()) + desc_bytes(w)) =~= (desc_bytes(
            ws[0],
        ) + table_bytes(ws.drop_first())) + desc_bytes(w));
    }
}

proof fn lemma_data_bytes_push(ws: Seq<WireEntry>, w: WireEntry)
    ensures
        data_bytes(ws.push(w)) == data_bytes(ws) + w.block,
    decreases ws.len(),
{
    let t = ws.push(w);
    assert(t.len() == ws.len() + 1);
    if ws.len() == 0 {
        assert(t[0] == w);
        assert(t.drop_first() =~= Seq::<WireEntry>::empty());
        assert(data_bytes(t) == w.block + data_bytes(t.drop_first()));
        assert(w.block + Seq::<u8>::empty() =~= Seq::<u8>::empty() + w.block);
    } else {
        assert(t.drop_first() =~= ws.drop_first().push(w));
        assert(t[0] == ws[0]);
        lemma_data_bytes_push(ws.drop_first(), w);
        assert(data_bytes(t) == ws[0].block + (data_bytes(ws.drop_first()) + w.block));
        assert(ws[0].block + (data_bytes(ws.drop_first()) + w.block) =~= (ws[0].block + data_bytes(
            ws.drop_first(),
        )) + w.block);
    }
}

proof fn lemma_wire_map_push(ws: Seq<WireEntry>, w: WireEntry, acc: Map<u32, Seq<u8>>)
    ensures
        wire_map(ws.push(w), acc) == wire_map(ws, acc).insert(w.key, w.val),
    decreases ws.len(),
{
    let t = ws.push(w);
    assert(t.len() == ws.len() + 1);
    if ws.len() == 0 {
        assert(t[0] == w);
        assert(t.drop_first() =~= Seq::<WireEntry>::empty());
        assert(wire_map(t, acc) == wire_map(t.drop_first(), acc.insert(w.key, w.val)));
    } else {
        assert(t.drop_first() =~= ws.drop_first().push(w));
        assert(t[0] == ws[0]);
        assert(wire_map(t, acc) == wire_map(
            ws.drop_first().push(w),
            acc.insert(ws[0].key, ws[0].val),
        ));
        lemma_wire_map_push(ws.drop_first(), w, acc.insert(ws[0].key, ws[0].val));
        assert(wire_map(ws, acc) == wire_map(ws.drop_first(), acc.insert(ws[0].key, ws[0].val)));
    }
}

/// Sound wire entries decode, under the entry loop, to exactly the store
/// they denote.
proof fn lemma_wire_decode(ws: Seq<WireEntry>, acc: Map<u32, Seq<u8>>)
    requires
        wire_ok(ws),
    ensures
        spec_read_entries(table_bytes(ws), data_bytes(ws), ws.len() as nat, acc) == Ok::<
            Map<u32, Seq<u8>>,
            ArchiveError,
        >(wire_map(ws, acc)),
    decreases ws.len(),
{
    if ws.len() > 0 {
        let w = ws[0];
        let t = table_bytes(ws);
        let d = data_bytes(ws);
        assert(wire_entry_ok(w));
        assert(t.subrange(0, 4) =~= be32_bytes(w.key));
        lemma_be32_extract(t, 0, w.key);
        assert(t.subrange(4, 7) =~= be24_bytes(w.dsz));
        lemma_be24_extract(t, 4, w.dsz);
        assert(t.subrange(7, 10) =~= be24_bytes(w.csz));
        lemma_be24_extract(t, 7, w.csz);
        assert(d.len() >= w.csz);
        assert(d.take(w.csz) =~= w.block);
        assert(d.skip(w.csz) =~= data_bytes(ws.drop_first()));
        assert(t.skip(10) =~= table_bytes(ws.drop_first()));
        lemma_wire_decode(ws.drop_first(), acc.insert(w.key, w.val));
    }
}

/// The bytes the entry section of `s` takes with every block stored raw:
/// the entry count, and 10 descriptor bytes plus the raw data per entry.
/// Compression can only shrink a block, so this bounds the real section.
pub(crate) open spec fn payload_budget(s: Seq<Entry>) -> int
    decreases s.len(),
{
    if s.len() == 0 {
        2
    } else {
        payload_budget(s.drop_last()) + 10 + s.last().data@.len()
    }
}

proof fn lemma_budget_monotonic(s: Seq<Entry>, i: int)
    requires
        0 <= i <= s.len(),
    ensures
        payload_budget(s.take(i)) <= payload_budget(s),
    decreases s.len(),
{
    if i < s.len() {
        assert(s.drop_last().take(i) =~= s.take(i));
        lemma_budget_monotonic(s.drop_last(), i);
    } else {
        assert(s.take(i) =~= s);
    }
}

/// The block an entry's bytes go out as: the headerless compressed form
/// exactly when it is strictly smaller than the raw bytes, the raw bytes
/// otherwise.
pub open spec fn chosen_block(v: Seq<u8>) -> Seq<u8> {
    if bz_deflate(v).len() - 4 < v.len() {
        bz_deflate(v).skip(4)
    } else {
        v
    }
}

/// Picks how one entry's bytes go on the wire, per [`chosen_block`].
/// Returns the block with the descriptor's decompressed and compressed
/// sizes.
fn encode_block(raw: &Vec<u8>) -> (r: (Vec<u8>, u32, u32))
    requires
        raw@.len() <= 0xFFFFFF,
    ensures
        r.0@ == chosen_block(raw@),
        r.1 as int == raw@.len(),
        r.2 as int == r.0@.len(),
        r.0@.len() <= raw@.len(),
        r.1 == r.2 ==> r.0@ == raw@,
        r.1 != r.2 ==> r.2 < r.1 && bz_inflate(bz_magic() + r.0@) == Some(raw@),
{
    let raw_len: usize = raw.len();
    let c: Vec<u8> = compress(raw);
    proof {
        assert(c@.len() == bz_deflate(raw@).len() - 4);
    }
    if c.len() < raw_len {
        let csz: u32 = c.len() as u32;
        (c, raw_len as u32, csz)
    } else {
        let cp: Vec<u8> = copy_range(raw, 0, raw_len);
        proof {
            assert(cp@ =~= raw@);
        }
        (cp, raw_len as u32, raw_len as u32)
    }
}

/// The entry section `v` in wire form for store `m`: a 2-byte entry count
/// equal to the number of entries, the 10-byte descriptors in strictly
/// ascending key order, and per entry the raw length as decompressed
/// size, the block picked by the compress-if-strictly-smaller policy, and
/// a block that decodes back to the stored bytes.
pub open spec fn section_wire_form(v: Seq<u8>, m: Map<u32, Seq<u8>>, ws: Seq<WireEntry>) -> bool {
    &&& v == be16_bytes(ws.len() as int) + (table_bytes(ws) + data_bytes(ws))
    &&& ws.len() == m.dom().len()
    &&& wire_ok(ws)
    &&& (forall|i: int, j: int| 0 <= i < j < ws.len() ==> ws[i].key < ws[j].key)
    &&& (forall|k: int|
        0 <= k < ws.len() ==> {
            &&& m.contains_key((#[trigger] ws[k]).key)
            &&& ws[k].val == m[ws[k].key]
            &&& ws[k].dsz == ws[k].val.len()
            &&& ws[k].block == chosen_block(ws[k].val)
        })
}

/// A payload behind the 6-byte outer header: compressed as a headerless
/// bzip2 block exactly when that is strictly smaller, the two size fields
/// equal exactly when it is stored raw.
pub open spec fn outer_wrap(section: Seq<u8>) -> Seq<u8> {
    if bz_deflate(section).len() - 4 < section.len() {
        be24_bytes(section.len() as int) + (be24_bytes(bz_deflate(section).len() - 4)
            + bz_deflate(section).skip(4))
    } else {
        be24_bytes(section.len() as int) + (be24_bytes(section.len() as int) + section)
    }
}

impl Archive {
    /// The store fits the format: at most `0xFFFF` entries, each at most
    /// `0xFFFFFF` bytes, and the whole entry section within the 24-bit
    /// outer size fields even with every block stored raw. Capacity is
    /// judged on the raw sizes, so whether encoding succeeds never depends
    /// on how well the data happens to compress.
    pub closed spec fn encodable(&self) -> bool {
        &&& self.entries@.len() <= 0xFFFF
        &&& (forall|i: int|
            0 <= i < self.entries@.len() ==> (#[trigger] self.entries@[i].data@.len()) <= 0xFFFFFF)
        &&& payload_budget(self.entries@) <= 0xFFFFFF
    }

    /// Builds the entry section: entry count, descriptor table, and data
    /// blocks, each block compressed exactly when that is strictly
    /// smaller. Entries go out in ascending key order, so equal stores
    /// produce equal bytes. Returns `None` exactly when the store exceeds
    /// the format's size limits; on success the section decodes back to
    /// this store.
    pub fn generate_data_block(&self) -> (r: Option<Vec<u8>>)
        requires
            self.well_formed(),
        ensures
            r is Some <==> self.encodable(),
            match r {
                Some(v) => {
                    &&& spec_read_entry_section(v@) == Ok::<Map<u32, Seq<u8>>, ArchiveError>(
                        self@,
                    )
                    &&& exists|ws: Seq<WireEntry>| section_wire_form(v@, self@, ws)
                    &&& 2 <= v@.len() <= 0xFFFFFF
                },
                None => true,
            },
    {
        let ghost s: Seq<Entry> = self.entries@;
        let n: usize = self.entries.len();
        if n > 0xFFFF {
            return None;
        }
        let mut budget: usize = 2;
        let mut i: usize = 0;
        proof {
            assert(s.take(0) =~= Seq::<Entry>::empty());
        }
        while i < n
            invariant
                i <= n,
                n == s.len(),
                s == self.entries@,
                budget == payload_budget(s.take(i as int)),
                budget <= 0xFFFFFF,
                forall|j: int| 0 <= j < i ==> (#[trigger] s[j].data@.len()) <= 0xFFFFFF,
            decreases n - i,
        {
            let dlen: usize = self.entries[i].data.len();
            proof {
                assert(s.take(i + 1).drop_last() =~= s.take(i as int));
                assert(s.take(i + 1).last() == s[i as int]);
            }
            if dlen > 0xFFFFFF {
                return None;
            }
            let next: usize = budget + 10 + dlen;
            if next > 0xFFFFFF {
                proof {
                    lemma_budget_monotonic(s, i + 1);
                }
                return None;
            }
            budget = next;
            i = i + 1;
        }
        proof {
            assert(s.take(n as int) =~= s);
            assert(self.encodable());
        }
        let mut body: Vec<u8> = Vec::new();
        push_be16(&mut body, n as u16);
        let mut data: Vec<u8> = Vec::new();
        let ghost mut ws: Seq<WireEntry> = Seq::empty();
        let mut i: usize = 0;
        proof {
            assert(body@ =~= be16_bytes(n as int) + table_bytes(ws));
            assert(data@ =~= data_bytes(ws));
            assert(s.take(0) =~= Seq::<Entry>::empty());
            assert(wire_map(ws, Map::empty()) =~= entries_map(s.take(0)));
        }
        while i < n
            invariant
                i <= n,
                n == s.len(),
                n <= 0xFFFF,
                s == self.entries@,
                self.well_formed(),
                ws.len() == i,
                wire_ok(ws),
                body@ == be16_bytes(n as int) + table_bytes(ws),
                body@.len() == 2 + 10 * i,
                data@ == data_bytes(ws),
                wire_map(ws, Map::empty()) == entries_map(s.take(i as int)),
                body@.len() + data@.len() <= payload_budget(s.take(i as int)),
                payload_budget(s) <= 0xFFFFFF,
                forall|j: int| 0 <= j < n ==> (#[trigger] s[j].data@.len()) <= 0xFFFFFF,
                forall|k: int|
                    0 <= k < i ==> {
                        &&& (#[trigger] ws[k]).key == s[k].key
                        &&& ws[k].val == s[k].data@
                        &&& ws[k].dsz == s[k].data@.len()
                        &&& ws[k].block == chosen_block(ws[k].val)
                    },
            decreases n - i,
        {
            let key: u32 = self.entries[i].key;
            let (block, dsz, csz): (Vec<u8>, u32, u32) = encode_block(&self.entries[i].data);
            push_be32(&mut body, key);
            push_be24(&mut body, dsz);
            push_be24(&mut body, csz);
            let ghost w = WireEntry {
                key: key,
                dsz: dsz as int,
                csz: csz as int,
                block: block@,
                val: s[i as int].data@,
            };
            let mut block_buf: Vec<u8> = block;
            data.append(&mut block_buf);
            proof {
                assert(wire_entry_ok(w));
                lemma_table_bytes_push(ws, w);
                lemma_data_bytes_push(ws, w);
                lemma_wire_map_push(ws, w, Map::empty());
                assert(desc_bytes(w) =~= be32_bytes(key) + be24_bytes(dsz as int) + be24_bytes(
                    csz as int,
                ));
                assert(body@ =~= be16_bytes(n as int) + table_bytes(ws.push(w)));
                assert(s.take(i + 1).drop_last() =~= s.take(i as int));
                assert(s.take(i + 1).last() == s[i as int]);
                assert(payload_budget(s.take(i + 1)) == payload_budget(s.take(i as int)) + 10 + s[
                    i as int
                ].data@.len());
                lemma_budget_monotonic(s, i + 1);
                ws = ws.push(w);
            }
            i = i + 1;
        }
        let mut data_buf: Vec<u8> = data;
        body.append(&mut data_buf);
        proof {
            let out: Seq<u8> = body@;
            assert(out =~= be16_bytes(n as int) + (table_bytes(ws) + data_bytes(ws)));
            assert(out.subrange(0, 2) =~= be16_bytes(n as int));
            lemma_be16_extract(out, 0, n as int);
            let rest = out.skip(2);
            assert(rest =~= table_bytes(ws) + data_bytes(ws));
            assert(table_bytes(ws).len() == 10 * n);
            assert(rest.take(10 * n) =~= table_bytes(ws));
            assert(rest.skip(10 * n) =~= data_bytes(ws));
            lemma_wire_decode(ws, Map::empty());
            assert(s.take(n as int) =~= s);
            lemma_view_def(self);
            assert(spec_read_entry_section(out) == Ok::<Map<u32, Seq<u8>>, ArchiveError>(self@));
            lemma_entries_map_len(s);
            assert(keys_sorted(s));
            assert forall|a: int, b: int| 0 <= a < b < ws.len() implies ws[a].key < ws[b].key by {
                assert(ws[a].key == s[a].key);
                assert(ws[b].key == s[b].key);
            }
            assert forall|k: int| 0 <= k < ws.len() implies {
                &&& self@.contains_key((#[trigger] ws[k]).key)
                &&& ws[k].val == self@[ws[k].key]
            } by {
                lemma_entries_map_index(s, k);
            }
            assert(section_wire_form(out, self@, ws));
        }
        Some(body)
    }

    /// Encodes the store to whole-archive bytes: the entry section from
    /// [`Archive::generate_data_block`], compressed as a headerless bzip2
    /// block when that is strictly smaller, behind the 6-byte outer
    /// header ([`outer_wrap`]). Returns `None` exactly when the store
    /// exceeds the format's size limits; on success the bytes are the
    /// wrapped wire form of the store and decode back to it.
    #[verifier::rlimit(80)]
    pub fn encode(&self) -> (r: Option<Vec<u8>>)
        requires
            self.well_formed(),
        ensures
            r is Some <==> self.encodable(),
            match r {
                Some(v) => {
                    &&& spec_decode(v@) == Ok::<Map<u32, Seq<u8>>, ArchiveError>(self@)
                    &&& exists|section: Seq<u8>, ws: Seq<WireEntry>|
                        #[trigger] section_wire_form(section, self@, ws) && v@ == outer_wrap(
                            section,
                        )
                },
                None => true,
            },
    {
        let section: Vec<u8> = match self.generate_data_block() {
            Some(v) => v,
            None => {
                return None;
            },
        };
        let ghost sec: Seq<u8> = section@;
        let ghost ws0: Seq<WireEntry> = choose|ws: Seq<WireEntry>|
            section_wire_form(sec, self@, ws);
        let slen: usize = section.len();
        let mut out: Vec<u8> = Vec::new();
        let c: Vec<u8> = compress(&section);
        proof {
            assert(c@.len() == bz_deflate(sec).len() - 4);
        }
        if c.len() < slen {
            push_be24(&mut out, slen as u32);
            push_be24(&mut out, c.len() as u32);
            let ghost clen: int = c@.len() as int;
            let ghost cview: Seq<u8> = c@;
            let mut c_buf: Vec<u8> = c;
            out.append(&mut c_buf);
            proof {
                assert(out@.subrange(0, 3) =~= be24_bytes(slen as int));
                lemma_be24_extract(out@, 0, slen as int);
                assert(out@.subrange(3, 6) =~= be24_bytes(clen));
                lemma_be24_extract(out@, 3, clen);
                assert(out@.skip(6) =~= cview);
                assert(out@ =~= be24_bytes(slen as int) + (be24_bytes(clen) + cview));
                assert(out@ == outer_wrap(sec));
                assert(section_wire_form(sec, self@, ws0) && out@ == outer_wrap(sec));
            }
            Some(out)
        } else {
            let r = self.wrap_raw(section);
            proof {
                if let Some(v) = &r {
                    assert(v@ == outer_wrap(sec));
                    assert(section_wire_form(sec, self@, ws0) && v@ == outer_wrap(sec));
                }
            }
            r
        }
    }

    /// Writes the outer header for an uncompressed payload (both size
    /// fields equal) and appends the payload unchanged.
    fn wrap_raw(&self, section: Vec<u8>) -> (r: Option<Vec<u8>>)
        requires
            self.well_formed(),
            section@.len() <= 0xFFFFFF,
            spec_read_entry_section(section@) == Ok::<Map<u32, Seq<u8>>, ArchiveError>(self@),
        ensures
            r is Some,
            match r {
                Some(v) => {
                    &&& spec_decode(v@) == Ok::<Map<u32, Seq<u8>>, ArchiveError>(self@)
                    &&& v@ == be24_bytes(section@.len() as int) + (be24_bytes(
                        section@.len() as int,
                    ) + section@)
                },
                None => false,
            },
    {
        let slen: usize = section.len();
        let ghost sview: Seq<u8> = section@;
        let mut out: Vec<u8> = Vec::new();
        push_be24(&mut out, slen as u32);
        push_be24(&mut out, slen as u32);
        let mut section_buf: Vec<u8> = section;
        out.append(&mut section_buf);
        proof {
            assert(out@.subrange(0, 3) =~= be24_bytes(slen as int));
            lemma_be24_extract(out@, 0, slen as int);
            assert(out@.subrange(3, 6) =~= be24_bytes(slen as int));
            lemma_be24_extract(out@, 3, slen as int);
            assert(out@.skip(6) =~= sview);
            assert(out@ =~= be24_bytes(slen as int) + (be24_bytes(slen as int) + sview));
        }
        Some(out)
    }

    /// Decodes a whole archive buffer and merges the result into this
    /// store, decoded entries overwriting existing ones with the same key.
    ///
    /// All or nothing: on any failure the store is left exactly as it was.
    pub fn read_archive(&mut self, buffer: &Vec<u8>) -> (r: Result<(), ArchiveError>)
        requires
            old(self).well_formed(),
        ensures
            final(self).well_formed(),
            match r {
                Ok(()) => spec_decode(buffer@) matches Ok(m) && final(self)@ == old(
                    self,
                )@.union_prefer_right(m),
                Err(e) => spec_decode(buffer@) == Err::<Map<u32, Seq<u8>>, ArchiveError>(e)
                    && *final(self) == *old(self),
            },
    {
        let decoded: Archive = match Archive::decode(buffer) {
            Ok(a) => a,
            Err(e) => {
                return Err(e);
            },
        };
        proof {
            lemma_view_def(&decoded);
        }
        let mut rest: Vec<Entry> = decoded.entries;
        let ghost s0: Seq<Entry> = rest@;
        let ghost decoded_map: Map<u32, Seq<u8>> = entries_map(s0);
        let total: usize = rest.len();
        let mut k: usize = 0;
        proof {
            assert(s0.take(0) =~= Seq::<Entry>::empty());
            assert(self@.union_prefer_right(entries_map(s0.take(0))) =~= self@);
        }
        while rest.len() > 0
            invariant
                self.well_formed(),
                total == s0.len(),
                k + rest@.len() == s0.len(),
                rest@ == s0.skip(k as int),
                self@ == old(self)@.union_prefer_right(entries_map(s0.take(k as int))),
            decreases rest@.len(),
        {
            let e: Entry = rest.remove(0);
            proof {
                assert(e == s0[k as int]);
                assert(rest@ =~= s0.skip(k + 1));
            }
            self.insert_by_key(e.key, e.data);
            proof {
                assert(s0.take(k + 1).drop_last() =~= s0.take(k as int));
                assert(s0.take(k + 1).last() == s0[k as int]);
                assert(self@ =~= old(self)@.union_prefer_right(entries_map(s0.take(k + 1))));
            }
            k = k + 1;
        }
        proof {
            assert(s0.take(k as int) =~= s0);
        }
        Ok(())
    }

    /// Decodes a whole archive buffer into a fresh store.
    ///
    /// Succeeds exactly when the buffer is structurally sound, and the
    /// resulting store is exactly what [`spec_decode`] assigns the bytes;
    /// on failure the error states which structural step failed.
    pub fn decode(buffer: &Vec<u8>) -> (r: Result<Archive, ArchiveError>)
        ensures
            match r {
                Ok(a) => a.well_formed() && spec_decode(buffer@) == Ok::<
                    Map<u32, Seq<u8>>,
                    ArchiveError,
                >(a@),
                Err(e) => spec_decode(buffer@) == Err::<Map<u32, Seq<u8>>, ArchiveError>(e),
            },
    {
        if buffer.len() < 6 {
            return Err(ArchiveError::TruncatedInput);
        }
        let dsz: u32 = read_be24(buffer, 0);
        let csz: u32 = read_be24(buffer, 3);
        let tail: Vec<u8> = copy_range(buffer, 6, buffer.len());
        proof {
            assert(tail@ =~= buffer@.skip(6));
        }
        if dsz != csz {
            match decompress(&tail) {
                Some(payload) => read_entry_section(&payload),
                None => Err(ArchiveError::DecompressionError),
            }
        } else {
            read_entry_section(&tail)
        }
    }
}

} // verus!
