//! The single-file world store: a 12-byte header (`"SNG\0"`, then the
//! chunk count as a big-endian `u64`) followed by fixed-size chunk records
//! (three big-endian `i32` coordinates, then 4096 big-endian `u16` block
//! codes in (y, z, x) order). The store keeps the file's bytes and an index
//! from position to record offset, and reports each change as writes at
//! offsets for the caller to apply to the file on disk.
use vstd::prelude::*;
use crate::Vector3I;
use crate::codec::{be_bytes, be_value, lemma_be_len, lemma_be_round_trip, lemma_be_value_bound, lemma_pow256_mono, lemma_pow_facts, pow256, Buffer};
use crate::world::{block_code, block_of_code, is_block_code, pos_of, Block, Chunk, CHUNK_VOLUME};

verus! {

pub const HEADER_LEN: usize = 12;

/// Bytes in one chunk record: 12 of coordinates and 2 per block.
pub const RECORD_LEN: usize = 8204;

/// Why a file is not a well-formed world file.
#[derive(Debug, Copy, Clone, PartialEq, Eq, Structural)]
pub enum SngError {
    /// Shorter than the header.
    Truncated,
    /// The first four bytes are not `"SNG\0"`.
    BadMagic,
    /// The length is not the header plus `chunk_count` records.
    BadLength,
    /// A record holds a code that is no block.
    BadBlock,
}

/// Bytes to write at `offset` of the file.
#[derive(Debug)]
pub struct FileWrite {
    pub offset: u64,
    pub bytes: Vec<u8>,
}

pub struct SingleWorldFile {
    pub image: Vec<u8>,
    pub indices: Vec<(Vector3I, usize)>,
    pub current_chunk_count: u64,
}

pub open spec fn magic() -> Seq<u8> {
    seq![0x53u8, 0x4eu8, 0x47u8, 0x00u8]
}

pub open spec fn record_start(i: nat) -> nat {
    12 + 8204 * i
}

pub open spec fn i32_at(img: Seq<u8>, off: int) -> i32 {
    (be_value(img.subrange(off, off + 4)) as u32) as i32
}

/// The position stored in the record at `off`.
pub open spec fn key_at(img: Seq<u8>, off: int) -> Vector3I {
    Vector3I(
        i32_at(img, off) as i64,
        i32_at(img, off + 4) as i64,
        i32_at(img, off + 8) as i64,
    )
}

/// The block codes stored in the record at `off`.
pub open spec fn codes_at(img: Seq<u8>, off: int) -> Seq<u16> {
    Seq::new(
        CHUNK_VOLUME as nat,
        |k: int| be_value(img.subrange(off + 12 + 2 * k, off + 14 + 2 * k)) as u16,
    )
}

/// The chunk count stored in the header.
pub open spec fn count_of(img: Seq<u8>) -> nat {
    be_value(img.subrange(4, 12))
}

pub open spec fn file_ok(img: Seq<u8>) -> bool {
    &&& img.len() >= 12
    &&& img.subrange(0, 4) == magic()
    &&& img.len() == record_start(count_of(img))
}

/// Every code is the code of a block.
pub open spec fn all_block_codes(cs: Seq<u16>) -> bool {
    forall|k: int| 0 <= k < cs.len() ==> is_block_code(#[trigger] cs[k])
}

/// Every one of the first `n` records holds block codes only.
pub open spec fn codes_valid(img: Seq<u8>, n: nat) -> bool {
    forall|i: nat| i < n ==> all_block_codes(#[trigger] codes_at(img, record_start(i) as int))
}

/// The index of the first `n` records: each position maps to the start of
/// the last record that holds it.
pub open spec fn file_index(img: Seq<u8>, n: nat) -> Map<Vector3I, nat>
    decreases n,
{
    if n == 0 {
        Map::empty()
    } else {
        file_index(img, (n - 1) as nat).insert(
            key_at(img, record_start((n - 1) as nat) as int),
            record_start((n - 1) as nat),
        )
    }
}

pub open spec fn blocks_bytes(bs: Seq<Block>) -> Seq<u8>
    decreases bs.len(),
{
    if bs.len() == 0 {
        Seq::empty()
    } else {
        blocks_bytes(bs.drop_last()) + be_bytes(block_code(bs.last()) as nat, 2)
    }
}

/// The bytes of the record of a chunk.
pub open spec fn record_bytes(c: Chunk) -> Seq<u8> {
    be_bytes(c.x as u32 as nat, 4) + be_bytes(c.y as u32 as nat, 4) + be_bytes(c.z as u32 as nat, 4)
        + blocks_bytes(c.blocks@)
}

pub open spec fn chunk_key(c: Chunk) -> Vector3I {
    Vector3I(c.x as i64, c.y as i64, c.z as i64)
}

/// The codes of a sequence of blocks.
pub open spec fn codes_of(bs: Seq<Block>) -> Seq<u16> {
    bs.map_values(|b: Block| block_code(b))
}

/// The blocks a record's codes stand for.
pub open spec fn blocks_of(codes: Seq<u16>) -> Seq<Block> {
    Seq::new(codes.len(), |k: int| block_of_code(codes[k]))
}

pub open spec fn index_lookup(s: Seq<(Vector3I, usize)>, key: Vector3I) -> Option<usize>
    decreases s.len(),
{
    if s.len() == 0 {
        None
    } else if s.last().0 == key {
        Some(s.last().1)
    } else {
        index_lookup(s.drop_last(), key)
    }
}

pub open spec fn index_map(s: Seq<(Vector3I, usize)>) -> Map<Vector3I, nat> {
    Map::new(|k: Vector3I| index_lookup(s, k) is Some, |k: Vector3I| index_lookup(s, k)->Some_0 as nat)
}

pub open spec fn unique_keys(s: Seq<(Vector3I, usize)>) -> bool {
    forall|i: int, j: int| 0 <= i < j < s.len() ==> s[i].0 != s[j].0
}

// ---------------------------------------------------------------------------
// Lemmas
// ---------------------------------------------------------------------------

pub proof fn lemma_index_lookup_in(s: Seq<(Vector3I, usize)>, k: Vector3I)
    ensures
        index_lookup(s, k) is Some <==> exists|i: int| 0 <= i < s.len() && s[i].0 == k,
    decreases s.len(),
{
    if s.len() > 0 {
        lemma_index_lookup_in(s.drop_last(), k);
        if index_lookup(s.drop_last(), k) is Some {
            let i = choose|i: int| 0 <= i < s.drop_last().len() && s.drop_last()[i].0 == k;
            assert(s[i].0 == k);
        }
        if exists|i: int| 0 <= i < s.len() && s[i].0 == k {
            let i = choose|i: int| 0 <= i < s.len() && s[i].0 == k;
            if i < s.len() - 1 {
                assert(s.drop_last()[i].0 == k);
            }
        }
    }
}

pub proof fn lemma_index_update_at(
    s: Seq<(Vector3I, usize)>,
    i: int,
    k: Vector3I,
    v: usize,
    q: Vector3I,
)
    requires
        0 <= i < s.len(),
        s[i].0 == k,
        forall|j: int| i < j < s.len() ==> s[j].0 != k,
    ensures
        index_lookup(s.update(i, (k, v)), q) == (if q == k {
            Some(v)
        } else {
            index_lookup(s, q)
        }),
    decreases s.len(),
{
    let t = s.update(i, (k, v));
    if i < s.len() - 1 {
        assert(t.drop_last() =~= s.drop_last().update(i, (k, v)));
        assert(t.last() == s.last());
        lemma_index_update_at(s.drop_last(), i, k, v, q);
    } else {
        assert(t.drop_last() =~= s.drop_last());
    }
}

pub proof fn lemma_index_update(s: Seq<(Vector3I, usize)>, i: int, k: Vector3I, v: usize)
    requires
        0 <= i < s.len(),
        s[i].0 == k,
        forall|j: int| i < j < s.len() ==> s[j].0 != k,
    ensures
        index_map(s.update(i, (k, v))) == index_map(s).insert(k, v as nat),
{
    assert forall|q: Vector3I| #[trigger] index_lookup(s.update(i, (k, v)), q) == (if q == k {
        Some(v)
    } else {
        index_lookup(s, q)
    }) by {
        lemma_index_update_at(s, i, k, v, q);
    }
    assert(index_map(s.update(i, (k, v))) =~= index_map(s).insert(k, v as nat));
}

pub proof fn lemma_index_push(s: Seq<(Vector3I, usize)>, k: Vector3I, v: usize)
    ensures
        index_map(s.push((k, v))) == index_map(s).insert(k, v as nat),
{
    assert(s.push((k, v)).drop_last() =~= s);
    assert(index_map(s.push((k, v))) =~= index_map(s).insert(k, v as nat));
}

pub proof fn lemma_pow256_two()
    ensures
        pow256(2) == 0x1_0000,
{
    reveal_with_fuel(pow256, 3);
}

/// `file_index` depends only on the keys of its records.
pub proof fn lemma_file_index_same(a: Seq<u8>, b: Seq<u8>, n: nat)
    requires
        forall|i: nat| i < n ==> key_at(a, record_start(i) as int) == key_at(b, record_start(i) as int),
    ensures
        file_index(a, n) == file_index(b, n),
    decreases n,
{
    if n > 0 {
        lemma_file_index_same(a, b, (n - 1) as nat);
        assert(key_at(a, record_start((n - 1) as nat) as int) == key_at(b, record_start((n - 1) as nat) as int));
    }
}

/// Every index entry is the start of a record among the first `n` that
/// holds its key.
pub proof fn lemma_file_index_entry(img: Seq<u8>, n: nat, k: Vector3I)
    requires
        file_index(img, n).contains_key(k),
    ensures
        exists|j: nat| j < n && file_index(img, n)[k] == record_start(j) && key_at(img, record_start(j) as int) == k,
    decreases n,
{
    let last = (n - 1) as nat;
    if key_at(img, record_start(last) as int) != k {
        lemma_file_index_entry(img, last, k);
        let j = choose|j: nat| j < last && file_index(img, last)[k] == record_start(j) && key_at(img, record_start(j) as int) == k;
        assert(j < n && file_index(img, n)[k] == record_start(j));
    } else {
        assert(file_index(img, n)[k] == record_start(last));
    }
}

pub proof fn lemma_blocks_bytes(bs: Seq<Block>, k: int)
    requires
        0 <= k < bs.len(),
    ensures
        blocks_bytes(bs).len() == 2 * bs.len(),
        blocks_bytes(bs).subrange(2 * k, 2 * k + 2) == be_bytes(block_code(bs[k]) as nat, 2),
    decreases bs.len(),
{
    lemma_blocks_bytes_len(bs);
    let t = bs.drop_last();
    lemma_be_len(block_code(bs.last()) as nat, 2);
    lemma_blocks_bytes_len(t);
    if k < bs.len() - 1 {
        lemma_blocks_bytes(t, k);
        assert(blocks_bytes(bs).subrange(2 * k, 2 * k + 2) =~= blocks_bytes(t).subrange(2 * k, 2 * k + 2));
    } else {
        assert(blocks_bytes(bs).subrange(2 * k, 2 * k + 2) =~= be_bytes(block_code(bs.last()) as nat, 2));
    }
}

pub proof fn lemma_blocks_bytes_len(bs: Seq<Block>)
    ensures
        blocks_bytes(bs).len() == 2 * bs.len(),
    decreases bs.len(),
{
    if bs.len() > 0 {
        lemma_blocks_bytes_len(bs.drop_last());
        lemma_be_len(block_code(bs.last()) as nat, 2);
    }
}

pub proof fn lemma_record_key(c: Chunk, img: Seq<u8>, off: int)
    requires
        0 <= off,
        off + 12 <= img.len(),
        img.subrange(off, off + 12) == be_bytes(c.x as u32 as nat, 4) + be_bytes(c.y as u32 as nat, 4)
            + be_bytes(c.z as u32 as nat, 4),
    ensures
        key_at(img, off) == chunk_key(c),
{
    lemma_pow_facts();
    lemma_be_len(c.x as u32 as nat, 4);
    lemma_be_len(c.y as u32 as nat, 4);
    lemma_be_len(c.z as u32 as nat, 4);
    let h = img.subrange(off, off + 12);
    assert(img.subrange(off, off + 4) =~= h.subrange(0, 4));
    assert(img.subrange(off + 4, off + 8) =~= h.subrange(4, 8));
    assert(img.subrange(off + 8, off + 12) =~= h.subrange(8, 12));
    assert(h.subrange(0, 4) =~= be_bytes(c.x as u32 as nat, 4));
    assert(h.subrange(4, 8) =~= be_bytes(c.y as u32 as nat, 4));
    assert(h.subrange(8, 12) =~= be_bytes(c.z as u32 as nat, 4));
    lemma_be_round_trip(c.x as u32 as nat, 4);
    lemma_be_round_trip(c.y as u32 as nat, 4);
    lemma_be_round_trip(c.z as u32 as nat, 4);
    let x = c.x;
    let y = c.y;
    let z = c.z;
    assert((x as u32) as i32 == x) by (bit_vector);
    assert((y as u32) as i32 == y) by (bit_vector);
    assert((z as u32) as i32 == z) by (bit_vector);
}

#[verifier::rlimit(60)]
pub proof fn lemma_record_code_at(bs: Seq<Block>, img: Seq<u8>, off: int, k: int)
    requires
        bs.len() == CHUNK_VOLUME,
        0 <= off,
        0 <= k < CHUNK_VOLUME,
        off + 12 + 2 * CHUNK_VOLUME <= img.len(),
        img.subrange(off + 12, off + 12 + 2 * CHUNK_VOLUME) == blocks_bytes(bs),
    ensures
        codes_at(img, off)[k] == block_code(bs[k]),
{
    lemma_pow256_two();
    let bb = blocks_bytes(bs);
    lemma_blocks_bytes(bs, k);
    let w = img.subrange(off + 12 + 2 * k, off + 14 + 2 * k);
    let e = bb.subrange(2 * k, 2 * k + 2);
    assert(w[0] == img[off + 12 + 2 * k]);
    assert(w[1] == img[off + 13 + 2 * k]);
    assert(e[0] == bb[2 * k]);
    assert(e[1] == bb[2 * k + 1]);
    assert(bb[2 * k] == img.subrange(off + 12, off + 12 + 2 * CHUNK_VOLUME)[2 * k]);
    assert(bb[2 * k + 1] == img.subrange(off + 12, off + 12 + 2 * CHUNK_VOLUME)[2 * k + 1]);
    assert(w =~= e);
    lemma_be_round_trip(block_code(bs[k]) as nat, 2);
}

pub proof fn lemma_record_codes(bs: Seq<Block>, img: Seq<u8>, off: int)
    requires
        bs.len() == CHUNK_VOLUME,
        0 <= off,
        off + 12 + 2 * CHUNK_VOLUME <= img.len(),
        img.subrange(off + 12, off + 12 + 2 * CHUNK_VOLUME) == blocks_bytes(bs),
    ensures
        codes_at(img, off) == codes_of(bs),
{
    assert forall|k: int| 0 <= k < CHUNK_VOLUME implies #[trigger] codes_at(img, off)[k] == block_code(
        bs[k],
    ) by {
        lemma_record_code_at(bs, img, off, k);
    }
    assert(codes_at(img, off) =~= codes_of(bs));
}

/// The record of a chunk reads back as its position and its blocks' codes.
pub proof fn lemma_record_round_trip(c: Chunk, img: Seq<u8>, off: int)
    requires
        c.wf(),
        0 <= off,
        off + 8204 <= img.len(),
        img.subrange(off, off + 8204) == record_bytes(c),
    ensures
        key_at(img, off) == chunk_key(c),
        codes_at(img, off) == codes_of(c.blocks@),
{
    lemma_be_len(c.x as u32 as nat, 4);
    lemma_be_len(c.y as u32 as nat, 4);
    lemma_be_len(c.z as u32 as nat, 4);
    lemma_blocks_bytes_len(c.blocks@);
    let r = record_bytes(c);
    assert(img.subrange(off, off + 12) =~= r.subrange(0, 12));
    assert(r.subrange(0, 12) =~= be_bytes(c.x as u32 as nat, 4) + be_bytes(c.y as u32 as nat, 4)
        + be_bytes(c.z as u32 as nat, 4));
    lemma_record_key(c, img, off);
    assert(img.subrange(off + 12, off + 8204) =~= r.subrange(12, 8204));
    assert(r.subrange(12, 8204) =~= blocks_bytes(c.blocks@));
    lemma_record_codes(c.blocks@, img, off);
}


/// `img` with `w` written at `off`.
pub open spec fn overwritten(img: Seq<u8>, off: int, w: Seq<u8>) -> Seq<u8> {
    Seq::new(img.len(), |p: int| if off <= p < off + w.len() { w[p - off] } else { img[p] })
}

/// Big-endian bytes of the value of `s` are `s` itself.
pub proof fn lemma_be_bytes_of_value(s: Seq<u8>)
    ensures
        be_bytes(be_value(s), s.len()) == s,
    decreases s.len(),
{
    if s.len() > 0 {
        let t = s.drop_last();
        lemma_be_bytes_of_value(t);
        let v = be_value(s);
        assert(v / 256 == be_value(t));
        assert(v % 256 == s.last() as nat);
        assert(be_bytes(v, s.len()) =~= s);
    }
}

pub proof fn lemma_record_disjoint(i: nat, j: nat)
    requires
        i != j,
    ensures
        record_start(i) + 8204 <= record_start(j) || record_start(j) + 8204 <= record_start(i),
{
    if i < j {
        assert(8204 * i + 8204 <= 8204 * j) by (nonlinear_arith)
            requires
                i < j,
        ;
    } else {
        assert(8204 * j + 8204 <= 8204 * i) by (nonlinear_arith)
            requires
                j < i,
        ;
    }
}

pub proof fn lemma_record_in_file(i: nat, n: nat)
    requires
        i < n,
    ensures
        record_start(i) + 8204 <= record_start(n),
{
    assert(8204 * i + 8204 <= 8204 * n) by (nonlinear_arith)
        requires
            i < n,
    ;
}

/// Reads `n` big-endian bytes at `off`.
fn be_at(img: &Vec<u8>, off: usize, n: usize) -> (r: u128)
    requires
        n <= 16,
        off + n <= img@.len(),
    ensures
        r as nat == be_value(img@.subrange(off as int, (off + n) as int)),
{
    let mut acc: u128 = 0;
    let mut i: usize = 0;
    proof {
        lemma_pow_facts();
    }
    while i < n
        invariant
            i <= n,
            n <= 16,
            off + n <= img@.len(),
            img@.len() == img.len(),
            acc as nat == be_value(img@.subrange(off as int, (off + i) as int)),
            (acc as nat) < pow256(i as nat),
            pow256(16) == 0x1_0000_0000_0000_0000_0000_0000_0000_0000,
        decreases n - i,
    {
        proof {
            lemma_pow256_mono(i as nat + 1, 16);
            let p = pow256(i as nat);
            let a = acc as nat;
            let b = img@[off + i] as nat;
            assert(a * 256 + b < 256 * p) by (nonlinear_arith)
                requires
                    a < p,
                    b < 256,
            ;
        }
        assert(pow256(i as nat + 1) == 256 * pow256(i as nat));
        let b = img[off + i];
        acc = acc * 256 + b as u128;
        assert(img@.subrange(off as int, (off + i + 1) as int).drop_last() =~= img@.subrange(
            off as int,
            (off + i) as int,
        ));
        i = i + 1;
    }
    acc
}

fn i32_at_exec(img: &Vec<u8>, off: usize) -> (r: i32)
    requires
        off + 4 <= img@.len(),
    ensures
        r == i32_at(img@, off as int),
{
    let v = be_at(img, off, 4);
    proof {
        lemma_be_value_bound(img@.subrange(off as int, off + 4));
        lemma_pow_facts();
    }
    (v as u32) as i32
}

/// Records `off` for `key`, replacing an earlier offset for it.
fn index_insert(indices: &mut Vec<(Vector3I, usize)>, key: Vector3I, off: usize)
    requires
        unique_keys(old(indices)@),
    ensures
        unique_keys(final(indices)@),
        index_map(final(indices)@) == index_map(old(indices)@).insert(key, off as nat),
{
    let mut i: usize = indices.len();
    while i > 0
        invariant
            i <= indices@.len(),
            indices@ == old(indices)@,
            unique_keys(indices@),
            forall|j: int| i <= j < indices@.len() ==> indices@[j].0 != key,
        decreases i,
    {
        if indices[i - 1].0 == key {
            proof {
                lemma_index_update(indices@, i - 1, key, off);
                let u = indices@.update(i - 1, (key, off));
                assert forall|a: int, b: int| 0 <= a < b < u.len() implies u[a].0 != u[b].0 by {
                    assert(indices@[a].0 != indices@[b].0);
                }
            }
            indices.set(i - 1, (key, off));
            return;
        }
        i = i - 1;
    }
    proof {
        lemma_index_push(indices@, key, off);
    }
    indices.push((key, off));
}

/// The offset recorded for `key`.
fn index_get(indices: &Vec<(Vector3I, usize)>, key: Vector3I) -> (r: Option<usize>)
    ensures
        r == index_lookup(indices@, key),
{
    let mut i: usize = indices.len();
    assert(indices@.take(i as int) =~= indices@);
    while i > 0
        invariant
            i <= indices@.len(),
            index_lookup(indices@, key) == index_lookup(indices@.take(i as int), key),
        decreases i,
    {
        assert(indices@.take(i as int).drop_last() =~= indices@.take(i - 1));
        if indices[i - 1].0 == key {
            return Some(indices[i - 1].1);
        }
        i = i - 1;
    }
    None
}

/// Whether the first `count` records of `bytes` hold block codes only.
fn check_codes(bytes: &Vec<u8>, count: u64) -> (r: bool)
    requires
        bytes@.len() == record_start(count as nat),
    ensures
        r == codes_valid(bytes@, count as nat),
{
    let mut i: u64 = 0;
    while i < count
        invariant
            i <= count,
            bytes@.len() == record_start(count as nat),
            bytes@.len() == bytes.len(),
            codes_valid(bytes@, i as nat),
        decreases count - i,
    {
        proof {
            lemma_record_in_file(i as nat, count as nat);
            lemma_pow256_two();
        }
        let off = HEADER_LEN + RECORD_LEN * (i as usize);
        let ghost cs = codes_at(bytes@, off as int);
        assert(off as int == record_start(i as nat));
        let mut k: usize = 0;
        while k < CHUNK_VOLUME
            invariant
                k <= CHUNK_VOLUME,
                i < count,
                off as int == record_start(i as nat),
                off + 8204 <= bytes@.len(),
                bytes@.len() == bytes.len(),
                cs == codes_at(bytes@, off as int),
                forall|t: int| 0 <= t < k ==> is_block_code(#[trigger] cs[t]),
                pow256(2) == 0x1_0000,
            decreases CHUNK_VOLUME - k,
        {
            let v = be_at(bytes, off + 12 + 2 * k, 2);
            proof {
                lemma_be_value_bound(bytes@.subrange(off + 12 + 2 * k, off + 12 + 2 * k + 2));
            }
            assert(cs[k as int] == v as u16);
            if v != 0 {
                proof {
                    assert(!is_block_code(cs[k as int]));
                    assert(!all_block_codes(codes_at(bytes@, record_start(i as nat) as int)));
                    assert(!codes_valid(bytes@, count as nat));
                }
                return false;
            }
            k = k + 1;
        }
        proof {
            assert(all_block_codes(codes_at(bytes@, record_start(i as nat) as int)));
            assert forall|j: nat| j < i + 1 implies all_block_codes(
                #[trigger] codes_at(bytes@, record_start(j) as int),
            ) by {
                if j < i {
                    assert(codes_valid(bytes@, i as nat));
                }
            }
        }
        i = i + 1;
    }
    true
}

/// The bytes of a fresh world file: the magic and a zero chunk count.
pub fn empty_file() -> (r: Vec<u8>)
    ensures
        r@ == magic() + be_bytes(0, 8),
        r@.len() == 12,
        file_ok(r@),
        count_of(r@) == 0,
{
    let mut b = Buffer::new();
    b.put_bytes(&[0x53u8, 0x4eu8, 0x47u8, 0x00u8]);
    b.write_u64(0);
    proof {
        lemma_pow_facts();
        lemma_be_round_trip(0, 8);
        assert(b@.subrange(4, 12) =~= be_bytes(0, 8));
        assert(b@.subrange(0, 4) =~= magic());
        assert(b@ =~= magic() + be_bytes(0, 8));
    }
    b.bytes
}

impl SingleWorldFile {
    /// Position → start of its record.
    pub open spec fn index(&self) -> Map<Vector3I, nat> {
        index_map(self.indices@)
    }

    /// What the file holds: each indexed position's block codes.
    pub open spec fn stored(&self) -> Map<Vector3I, Seq<u16>> {
        Map::new(
            |k: Vector3I| self.index().contains_key(k),
            |k: Vector3I| codes_at(self.image@, self.index()[k] as int),
        )
    }

    pub open spec fn wf(&self) -> bool {
        &&& file_ok(self.image@)
        &&& count_of(self.image@) == self.current_chunk_count
        &&& self.index() == file_index(self.image@, self.current_chunk_count as nat)
        &&& unique_keys(self.indices@)
        &&& self.image@.len() < 0x1_0000_0000_0000
        &&& codes_valid(self.image@, self.current_chunk_count as nat)
    }

    /// The file's bytes.
    pub fn bytes(&self) -> (r: &Vec<u8>)
        ensures
            r@ == self.image@,
    {
        &self.image
    }

    /// Number of chunk records.
    pub fn chunk_count(&self) -> (r: u64)
        ensures
            r == self.current_chunk_count,
    {
        self.current_chunk_count
    }

    /// Opens a world file from its bytes: checks the magic and that the
    /// length is the header plus the declared number of records, then
    /// indexes every record by position (a later record for a position
    /// replaces an earlier one).
    pub fn open(bytes: Vec<u8>) -> (r: Result<SingleWorldFile, SngError>)
        requires
            bytes@.len() < 0x1_0000_0000_0000,
        ensures
            r is Ok <==> file_ok(bytes@) && codes_valid(bytes@, count_of(bytes@)),
            r is Ok ==> r->Ok_0.wf() && r->Ok_0.image@ == bytes@,
            r is Err ==> (r->Err_0 is BadBlock <==> file_ok(bytes@) && !codes_valid(
                bytes@,
                count_of(bytes@),
            )),
            r is Err ==> (r->Err_0 is Truncated <==> bytes@.len() < 12),
            r is Err ==> (r->Err_0 is BadMagic <==> bytes@.len() >= 12 && bytes@.subrange(0, 4)
                != magic()),
    {
        let len = bytes.len();
        if len < HEADER_LEN {
            return Err(SngError::Truncated);
        }
        if !(bytes[0] == 0x53 && bytes[1] == 0x4e && bytes[2] == 0x47 && bytes[3] == 0x00) {
            proof {
                assert(bytes@.subrange(0, 4) != magic()) by {
                    if bytes@.subrange(0, 4) == magic() {
                        assert(bytes@.subrange(0, 4)[0] == bytes@[0]);
                        assert(bytes@.subrange(0, 4)[1] == bytes@[1]);
                        assert(bytes@.subrange(0, 4)[2] == bytes@[2]);
                        assert(bytes@.subrange(0, 4)[3] == bytes@[3]);
                    }
                }
            }
            return Err(SngError::BadMagic);
        }
        assert(bytes@.subrange(0, 4) =~= magic());
        let count128 = be_at(&bytes, 4, 8);
        proof {
            lemma_be_value_bound(bytes@.subrange(4, 12));
            lemma_pow_facts();
        }
        let count = count128 as u64;
        let rest = len - HEADER_LEN;
        if rest % RECORD_LEN != 0 || (rest / RECORD_LEN) as u64 != count {
            return Err(SngError::BadLength);
        }
        if !check_codes(&bytes, count) {
            return Err(SngError::BadBlock);
        }
        let mut indices: Vec<(Vector3I, usize)> = Vec::new();
        let mut i: u64 = 0;
        assert(index_map(indices@) =~= file_index(bytes@, 0));
        while i < count
            invariant
                i <= count,
                len == bytes@.len(),
                len == record_start(count as nat),
                unique_keys(indices@),
                index_map(indices@) == file_index(bytes@, i as nat),
            decreases count - i,
        {
            proof {
                lemma_record_in_file(i as nat, count as nat);
            }
            let off = HEADER_LEN + RECORD_LEN * (i as usize);
            let x = i32_at_exec(&bytes, off);
            let y = i32_at_exec(&bytes, off + 4);
            let z = i32_at_exec(&bytes, off + 8);
            let key = Vector3I(x as i64, y as i64, z as i64);
            index_insert(&mut indices, key, off);
            i = i + 1;
        }
        Ok(SingleWorldFile { image: bytes, indices, current_chunk_count: count })
    }
}


/// `img` after writing `w` at `off`, where `off` is inside the file or at
/// its end.
pub open spec fn write_at(img: Seq<u8>, off: int, w: Seq<u8>) -> Seq<u8> {
    if off + w.len() <= img.len() {
        overwritten(img, off, w)
    } else {
        img.take(off) + w
    }
}

/// Two files that agree on the bytes of a record agree on its position and
/// codes.
pub proof fn lemma_record_same(a: Seq<u8>, b: Seq<u8>, off: int)
    requires
        0 <= off,
        off + 8204 <= a.len(),
        off + 8204 <= b.len(),
        forall|p: int| off <= p < off + 8204 ==> a[p] == b[p],
    ensures
        key_at(a, off) == key_at(b, off),
        codes_at(a, off) == codes_at(b, off),
{
    assert(a.subrange(off, off + 4) =~= b.subrange(off, off + 4));
    assert(a.subrange(off + 4, off + 8) =~= b.subrange(off + 4, off + 8));
    assert(a.subrange(off + 8, off + 12) =~= b.subrange(off + 8, off + 12));
    assert forall|k: int| 0 <= k < CHUNK_VOLUME implies #[trigger] codes_at(a, off)[k] == codes_at(b, off)[k] by {
        assert(a.subrange(off + 12 + 2 * k, off + 14 + 2 * k) =~= b.subrange(off + 12 + 2 * k, off + 14 + 2 * k));
    }
    assert(codes_at(a, off) =~= codes_at(b, off));
}

/// Blocks saved through their codes read back as themselves.
pub proof fn lemma_saved_blocks_read_back(bs: Seq<Block>)
    ensures
        blocks_of(codes_of(bs)) == bs,
{
    assert forall|k: int| 0 <= k < bs.len() implies #[trigger] blocks_of(codes_of(bs))[k] == bs[k] by {
        match bs[k] {
            Block::Air => {},
        }
    }
    assert(blocks_of(codes_of(bs)) =~= bs);
}

/// The codes of blocks are block codes.
pub proof fn lemma_codes_of_valid(bs: Seq<Block>)
    ensures
        all_block_codes(codes_of(bs)),
{
    assert forall|k: int| 0 <= k < codes_of(bs).len() implies is_block_code(
        #[trigger] codes_of(bs)[k],
    ) by {
        match bs[k] {
            Block::Air => {},
        }
    }
}

/// Reopening: any two well-formed stores over the same bytes have the same
/// index, so they load the same chunks.
pub proof fn lemma_reopen(a: SingleWorldFile, b: SingleWorldFile)
    requires
        a.wf(),
        b.wf(),
        a.image@ == b.image@,
    ensures
        a.index() == b.index(),
        a.current_chunk_count == b.current_chunk_count,
        a.stored() == b.stored(),
{
    assert(a.stored() =~= b.stored());
}

/// The contents after saving `cs` in order into an empty file: each position
/// holds the codes of the last chunk saved there.
pub open spec fn saved_map(cs: Seq<Chunk>) -> Map<Vector3I, Seq<u16>>
    decreases cs.len(),
{
    if cs.len() == 0 {
        Map::empty()
    } else {
        saved_map(cs.drop_last()).insert(chunk_key(cs.last()), codes_of(cs.last().blocks@))
    }
}

/// Saving a sequence of chunks: when each store is the one before after
/// one `save` (as `save` states it), the last store holds `saved_map(cs)`.
pub proof fn lemma_save_sequence(states: Seq<SingleWorldFile>, cs: Seq<Chunk>)
    requires
        states.len() == cs.len() + 1,
        states[0].stored() == Map::<Vector3I, Seq<u16>>::empty(),
        forall|i: int|
            0 <= i < cs.len() ==> #[trigger] states[i + 1].stored() == states[i].stored().insert(
                chunk_key(cs[i]),
                codes_of(cs[i].blocks@),
            ),
    ensures
        states.last().stored() == saved_map(cs),
    decreases cs.len(),
{
    if cs.len() > 0 {
        let n = cs.len() - 1;
        lemma_save_sequence(states.drop_last(), cs.drop_last());
        assert(states[n + 1].stored() == states[n].stored().insert(chunk_key(cs[n]), codes_of(cs[n].blocks@)));
    }
}

/// In `saved_map(cs)` the saved positions are exactly the chunks' positions,
/// and a position holds the codes of the last chunk saved at it.
pub proof fn lemma_saved_map_last(cs: Seq<Chunk>, l: int)
    requires
        0 <= l < cs.len(),
        forall|j: int| l < j < cs.len() ==> chunk_key(#[trigger] cs[j]) != chunk_key(cs[l]),
    ensures
        saved_map(cs).contains_key(chunk_key(cs[l])),
        saved_map(cs)[chunk_key(cs[l])] == codes_of(cs[l].blocks@),
    decreases cs.len(),
{
    if l < cs.len() - 1 {
        let t = cs.drop_last();
        assert forall|j: int| l < j < t.len() implies chunk_key(#[trigger] t[j]) != chunk_key(t[l]) by {
            assert(t[j] == cs[j]);
        }
        lemma_saved_map_last(t, l);
        assert(chunk_key(cs[cs.len() - 1]) != chunk_key(cs[l]));
    }
}

/// The positions in `saved_map(cs)` are those of the chunks in `cs`.
pub proof fn lemma_saved_map_keys(cs: Seq<Chunk>, k: Vector3I)
    ensures
        saved_map(cs).contains_key(k) <==> exists|j: int| 0 <= j < cs.len() && chunk_key(cs[j]) == k,
    decreases cs.len(),
{
    if cs.len() > 0 {
        let t = cs.drop_last();
        lemma_saved_map_keys(t, k);
        if exists|j: int| 0 <= j < t.len() && chunk_key(t[j]) == k {
            let j = choose|j: int| 0 <= j < t.len() && chunk_key(t[j]) == k;
            assert(cs[j] == t[j]);
        }
        if exists|j: int| 0 <= j < cs.len() && chunk_key(cs[j]) == k {
            let j = choose|j: int| 0 <= j < cs.len() && chunk_key(cs[j]) == k;
            if j < cs.len() - 1 {
                assert(t[j] == cs[j]);
            }
        }
    }
}

/// Copies `w` into `img` at `off`.
fn write_into(img: &mut Vec<u8>, off: usize, w: &Vec<u8>)
    requires
        off + w@.len() <= old(img)@.len(),
    ensures
        final(img)@ == overwritten(old(img)@, off as int, w@),
{
    let mut j: usize = 0;
    while j < w.len()
        invariant
            j <= w@.len(),
            off + w@.len() <= img@.len(),
            img@.len() == img.len(),
            img@.len() == old(img)@.len(),
            forall|p: int| 0 <= p < img@.len() ==> #[trigger] img@[p] == (if off <= p < off + j {
                w@[p - off]
            } else {
                old(img)@[p]
            }),
        decreases w@.len() - j,
    {
        img.set(off + j, w[j]);
        j = j + 1;
    }
    assert(img@ =~= overwritten(old(img)@, off as int, w@));
}

/// The record bytes of a chunk.
fn record_of(chunk: &Chunk) -> (r: Vec<u8>)
    requires
        chunk.wf(),
    ensures
        r@ == record_bytes(*chunk),
        r@.len() == RECORD_LEN,
{
    let mut b = Buffer::new();
    b.write_i32(chunk.x);
    b.write_i32(chunk.y);
    b.write_i32(chunk.z);
    let mut k: usize = 0;
    assert(chunk.blocks@.take(0) =~= Seq::<Block>::empty());
    while k < CHUNK_VOLUME
        invariant
            k <= CHUNK_VOLUME,
            chunk.wf(),
            b@ == be_bytes(chunk.x as u32 as nat, 4) + be_bytes(chunk.y as u32 as nat, 4) + be_bytes(
                chunk.z as u32 as nat,
                4,
            ) + blocks_bytes(chunk.blocks@.take(k as int)),
        decreases CHUNK_VOLUME - k,
    {
        let c = chunk.blocks[k].code();
        b.write_u16(c);
        proof {
            let t = chunk.blocks@.take(k + 1);
            assert(t.drop_last() =~= chunk.blocks@.take(k as int));
            assert(t.last() == chunk.blocks@[k as int]);
        }
        k = k + 1;
    }
    assert(chunk.blocks@.take(CHUNK_VOLUME as int) =~= chunk.blocks@);
    proof {
        lemma_be_len(chunk.x as u32 as nat, 4);
        lemma_be_len(chunk.y as u32 as nat, 4);
        lemma_be_len(chunk.z as u32 as nat, 4);
        lemma_blocks_bytes_len(chunk.blocks@);
    }
    b.bytes
}

impl SingleWorldFile {
    /// Saves a chunk: in place over its record when its position is
    /// indexed, else appended as a new record with the chunk count raised
    /// by one. Returns the writes that bring the file on disk to the new
    /// bytes: the record, then the count at offset 4.
    #[verifier::rlimit(100)]
    pub fn save(&mut self, chunk: &Chunk) -> (r: Vec<FileWrite>)
        requires
            old(self).wf(),
            chunk.wf(),
            old(self).image@.len() + RECORD_LEN < 0x1_0000_0000_0000,
        ensures
            final(self).wf(),
            final(self).stored() == old(self).stored().insert(
                chunk_key(*chunk),
                codes_of(chunk.blocks@),
            ),
            ({
                let k = chunk_key(*chunk);
                &&& final(self).index().contains_key(k)
                &&& codes_at(final(self).image@, final(self).index()[k] as int)
                    == codes_of(chunk.blocks@)
                &&& forall|q: Vector3I|
                    q != k && #[trigger] old(self).index().contains_key(q) ==> final(self).index()[q]
                        == old(self).index()[q] && codes_at(
                        final(self).image@,
                        old(self).index()[q] as int,
                    ) == codes_at(old(self).image@, old(self).index()[q] as int)
                &&& if old(self).index().contains_key(k) {
                    &&& final(self).current_chunk_count == old(self).current_chunk_count
                    &&& final(self).index() == old(self).index()
                } else {
                    &&& final(self).current_chunk_count == old(self).current_chunk_count + 1
                    &&& final(self).index() == old(self).index().insert(k, old(self).image@.len())
                }
                &&& r@.len() == 2
                &&& r@[0].offset == final(self).index()[k]
                &&& r@[0].bytes@ == record_bytes(*chunk)
                &&& r@[1].offset == 4
                &&& r@[1].bytes@ == be_bytes(final(self).current_chunk_count as nat, 8)
                &&& final(self).image@ == write_at(
                    write_at(old(self).image@, r@[0].offset as int, r@[0].bytes@),
                    4,
                    r@[1].bytes@,
                )
            }),
    {
        let key = Vector3I(chunk.x as i64, chunk.y as i64, chunk.z as i64);
        let rec = record_of(chunk);
        let ghost old_img = self.image@;
        let ghost n = self.current_chunk_count as nat;
        let off: usize;
        let count: u64;
        match index_get(&self.indices, key) {
            Some(o) => {
                proof {
                    lemma_file_index_entry(old_img, n, key);
                }
                let ghost j = choose|j: nat| j < n && file_index(old_img, n)[key] == record_start(j)
                    && key_at(old_img, record_start(j) as int) == key;
                proof {
                    lemma_record_in_file(j, n);
                }
                write_into(&mut self.image, o, &rec);
                off = o;
                count = self.current_chunk_count;
                proof {
                    let img1 = self.image@;
                    assert(img1.subrange(o as int, o + 8204) =~= rec@);
                    lemma_record_round_trip(*chunk, img1, o as int);
                    assert forall|i: nat| i < n implies key_at(img1, record_start(i) as int) == key_at(
                        old_img,
                        record_start(i) as int,
                    ) by {
                        lemma_record_in_file(i, n);
                        if i != j {
                            lemma_record_disjoint(i, j);
                            lemma_record_same(img1, old_img, record_start(i) as int);
                        }
                    }
                    lemma_file_index_same(img1, old_img, n);
                    lemma_codes_of_valid(chunk.blocks@);
                    assert forall|i: nat| i < n implies all_block_codes(
                        #[trigger] codes_at(img1, record_start(i) as int),
                    ) by {
                        lemma_record_in_file(i, n);
                        if i != j {
                            lemma_record_disjoint(i, j);
                            lemma_record_same(img1, old_img, record_start(i) as int);
                        }
                    }
                }
            },
            None => {
                off = self.image.len();
                let mut tail = rec.clone();
                self.image.append(&mut tail);
                index_insert(&mut self.indices, key, off);
                count = self.current_chunk_count + 1;
                proof {
                    let img1 = self.image@;
                    assert(img1.subrange(off as int, off + 8204) =~= rec@);
                    lemma_record_round_trip(*chunk, img1, off as int);
                    assert forall|i: nat| i < n implies key_at(img1, record_start(i) as int) == key_at(
                        old_img,
                        record_start(i) as int,
                    ) by {
                        lemma_record_in_file(i, n);
                        lemma_record_same(img1, old_img, record_start(i) as int);
                    }
                    lemma_file_index_same(img1, old_img, n);
                    lemma_codes_of_valid(chunk.blocks@);
                    assert forall|i: nat| i < n + 1 implies all_block_codes(
                        #[trigger] codes_at(img1, record_start(i) as int),
                    ) by {
                        if i < n {
                            lemma_record_in_file(i, n);
                            lemma_record_same(img1, old_img, record_start(i) as int);
                        }
                    }
                    assert(8204 * n + 8204 == 8204 * (n + 1)) by (nonlinear_arith);
                    assert(file_index(img1, n + 1) == file_index(img1, n).insert(key, off as nat));
                }
            },
        }
        let ghost img1 = self.image@;
        let mut cb = Buffer::new();
        cb.write_u64(count);
        proof {
            lemma_be_len(count as nat, 8);
            lemma_pow_facts();
            lemma_be_round_trip(count as nat, 8);
        }
        write_into(&mut self.image, 4, &cb.bytes);
        self.current_chunk_count = count;
        proof {
            let img2 = self.image@;
            assert(img2.subrange(4, 12) =~= be_bytes(count as nat, 8));
            assert(img2.subrange(0, 4) =~= old_img.subrange(0, 4));
            let m = count as nat;
            assert forall|i: nat| i < m implies key_at(img2, record_start(i) as int) == key_at(
                img1,
                record_start(i) as int,
            ) by {
                lemma_record_in_file(i, m);
                lemma_record_same(img2, img1, record_start(i) as int);
            }
            lemma_file_index_same(img2, img1, m);
            assert forall|i: nat| i < m implies all_block_codes(
                #[trigger] codes_at(img2, record_start(i) as int),
            ) by {
                lemma_record_in_file(i, m);
                lemma_record_same(img2, img1, record_start(i) as int);
            }
            lemma_record_same(img2, img1, off as int);
            assert forall|q: Vector3I|
                q != key && #[trigger] old(self).index().contains_key(q) implies self.index()[q]
                == old(self).index()[q] && codes_at(img2, old(self).index()[q] as int) == codes_at(
                old_img,
                old(self).index()[q] as int,
            ) by {
                lemma_file_index_entry(old_img, n, q);
                let jq = choose|jq: nat| jq < n && file_index(old_img, n)[q] == record_start(jq)
                    && key_at(old_img, record_start(jq) as int) == q;
                lemma_record_in_file(jq, n);
                lemma_record_same(img2, img1, record_start(jq) as int);
                if record_start(jq) != off {
                    if off < old_img.len() {
                        lemma_file_index_entry(old_img, n, key);
                        let j = choose|j: nat| j < n && file_index(old_img, n)[key] == record_start(j)
                            && key_at(old_img, record_start(j) as int) == key;
                        lemma_record_disjoint(jq, j);
                    }
                    lemma_record_same(img1, old_img, record_start(jq) as int);
                }
            }
        }
        proof {
            assert(self.stored() =~= old(self).stored().insert(key, codes_of(chunk.blocks@)));
        }
        let mut writes: Vec<FileWrite> = Vec::new();
        writes.push(FileWrite { offset: off as u64, bytes: rec });
        writes.push(FileWrite { offset: 4, bytes: cb.bytes });
        proof {
            assert(write_at(old_img, off as int, writes@[0].bytes@) == img1) by {
                if off as int + 8204 > old_img.len() {
                    assert(old_img.take(off as int) =~= old_img);
                }
            }
        }
        writes
    }

    /// The chunk at `(x, y, z)`: its record's blocks when the position is
    /// indexed, else a newly generated chunk.
    pub fn load(&self, x: i32, y: i32, z: i32) -> (r: Chunk)
        requires
            self.wf(),
        ensures
            r.x == x && r.y == y && r.z == z,
            r.wf(),
            self.index().contains_key(pos_of(x, y, z)) ==> r.blocks@ == blocks_of(
                codes_at(self.image@, self.index()[pos_of(x, y, z)] as int),
            ),
            self.stored().contains_key(pos_of(x, y, z)) ==> r.blocks@ == blocks_of(
                self.stored()[pos_of(x, y, z)],
            ),
            !self.index().contains_key(pos_of(x, y, z)) ==> r.blocks@ == Seq::new(
                CHUNK_VOLUME as nat,
                |i: int| Block::Air,
            ),
    {
        let key = Vector3I(x as i64, y as i64, z as i64);
        match index_get(&self.indices, key) {
            None => Chunk::generate_new(x, y, z),
            Some(o) => {
                let ghost n = self.current_chunk_count as nat;
                proof {
                    lemma_file_index_entry(self.image@, n, key);
                    let j = choose|j: nat| j < n && file_index(self.image@, n)[key] == record_start(j)
                        && key_at(self.image@, record_start(j) as int) == key;
                    lemma_record_in_file(j, n);
                    lemma_pow_facts();
                }
                let ghost codes = codes_at(self.image@, o as int);
                let mut chunk = Chunk::new_empty(x, y, z);
                let mut k: usize = 0;
                while k < CHUNK_VOLUME
                    invariant
                        k <= CHUNK_VOLUME,
                        o + 8204 <= self.image@.len(),
                        self.image@.len() == self.image.len(),
                        codes == codes_at(self.image@, o as int),
                        chunk.x == x && chunk.y == y && chunk.z == z,
                        chunk.blocks@.len() == CHUNK_VOLUME,
                        forall|t: int| 0 <= t < k ==> chunk.blocks@[t] == block_of_code(#[trigger] codes[t]),
                        pow256(2) == 0x1_0000,
                    decreases CHUNK_VOLUME - k,
                {
                    let v = be_at(&self.image, o + 12 + 2 * k, 2);
                    proof {
                        lemma_be_value_bound(self.image@.subrange(o + 12 + 2 * k, o + 12 + 2 * k + 2));
                    }
                    let c = v as u16;
                    assert(c == codes[k as int]);
                    chunk.blocks.set(k, Block::from_code(c));
                    k = k + 1;
                }
                assert(chunk.blocks@ =~= blocks_of(codes));
                chunk
            },
        }
    }

    /// Every indexed position, once each.
    pub fn find_all(&self) -> (r: Vec<Vector3I>)
        requires
            self.wf(),
        ensures
            forall|k: Vector3I| r@.contains(k) <==> self.index().contains_key(k),
            forall|k: Vector3I| r@.contains(k) <==> self.stored().contains_key(k),
            r@.no_duplicates(),
    {
        let mut out: Vec<Vector3I> = Vec::new();
        let mut i: usize = 0;
        while i < self.indices.len()
            invariant
                i <= self.indices@.len(),
                out@.len() == i,
                forall|t: int| 0 <= t < i ==> #[trigger] out@[t] == self.indices@[t].0,
            decreases self.indices@.len() - i,
        {
            out.push(self.indices[i].0);
            i = i + 1;
        }
        proof {
            assert forall|k: Vector3I| out@.contains(k) <==> self.index().contains_key(k) by {
                lemma_index_lookup_in(self.indices@, k);
                if out@.contains(k) {
                    let t = choose|t: int| 0 <= t < out@.len() && out@[t] == k;
                    assert(self.indices@[t].0 == k);
                }
                if self.index().contains_key(k) {
                    let t = choose|t: int| 0 <= t < self.indices@.len() && self.indices@[t].0 == k;
                    assert(out@[t] == k);
                }
            }
        }
        out
    }
}

} // verus!
