//! Byte codec primitives: big-endian fixed-width integers, VarInt / VarLong
//! and length-prefixed UTF-8 strings over an in-memory byte buffer.
use vstd::prelude::*;
use vstd::utf8::{decode_utf8, decode_utf8_encode_utf8, encode_utf8, encode_utf8_decode_utf8, encode_utf8_valid_utf8, valid_utf8};

verus! {

/// Errors of the codec, the framing and the connection logic.
#[derive(Debug)]
pub enum Error {
    /// A packet was used in the direction it does not support.
    Refusal,
    /// The source ran out of bytes.
    Disconnected,
    /// A transport failure.
    IoError(std::io::Error),
    /// A second registration for the same `(state, id)`.
    CannotReplace,
    /// No decoder for this id in this state.
    InvalidPacketId(crate::codec::PacketState, u32),
    /// Declared length, the maximum that was given, and what was read.
    StringTooLong(usize, usize, String),
    /// A variable-length integer kept its continuation bit past its bound.
    VarIntTooLong,
    /// String bytes that are not UTF-8.
    InvalidUtf8,
    /// A handshake asked for a state other than Status (1) or Login (2).
    InvalidNextState(i32),
    /// An outbound frame whose length does not fit a 32-bit VarInt.
    FrameTooLong,
}

/// The protocol state of a connection.
#[derive(Debug, Copy, Clone, PartialEq, Eq, Hash, Structural)]
pub enum PacketState {
    Handshake,
    Status,
    Login,
    Play,
}

#[verifier::external_type_specification]
#[verifier::external_body]
pub struct ExIoError(std::io::Error);

// ---------------------------------------------------------------------------
// Mathematical model
// ---------------------------------------------------------------------------

pub open spec fn pow256(n: nat) -> nat
    decreases n,
{
    if n == 0 { 1 } else { 256 * pow256((n - 1) as nat) }
}

/// The `n` low-order bytes of `v`, most significant first.
pub open spec fn be_bytes(v: nat, n: nat) -> Seq<u8>
    decreases n,
{
    if n == 0 {
        Seq::empty()
    } else {
        be_bytes(v / 256, (n - 1) as nat).push((v % 256) as u8)
    }
}

/// The unsigned integer whose big-endian bytes are `s`.
pub open spec fn be_value(s: Seq<u8>) -> nat
    decreases s.len(),
{
    if s.len() == 0 {
        0
    } else {
        be_value(s.drop_last()) * 256 + s.last() as nat
    }
}

/// VarInt groups of `u`: seven bits per byte, low group first, high bit set
/// on every byte but the last.
pub open spec fn var_bytes(u: nat) -> Seq<u8>
    decreases u,
{
    if u < 128 {
        seq![u as u8]
    } else {
        seq![(u % 128 + 128) as u8] + var_bytes(u / 128)
    }
}

/// The integer carried by the seven-bit groups of `s`, low group first.
pub open spec fn var_value(s: Seq<u8>) -> nat
    decreases s.len(),
{
    if s.len() == 0 {
        0
    } else {
        (s[0] % 128) as nat + 128 * var_value(s.drop_first())
    }
}

/// `floor(log_128(u))`, zero for zero.
pub open spec fn log128(u: nat) -> nat
    decreases u,
{
    if u < 128 { 0 } else { 1 + log128(u / 128) }
}

/// Every one of the first `n` bytes has its continuation bit set.
pub open spec fn continues(s: Seq<u8>, n: int) -> bool {
    forall|j: int| 0 <= j < n ==> s[j] >= 128
}

pub open spec fn pow128(n: nat) -> nat
    decreases n,
{
    if n == 0 { 1 } else { 128 * pow128((n - 1) as nat) }
}

/// Index of the first byte without a continuation bit, or the length of `s`
/// when there is none.
pub open spec fn first_final(s: Seq<u8>) -> nat
    decreases s.len(),
{
    if s.len() == 0 {
        0
    } else if s[0] < 128 {
        0
    } else {
        1 + first_final(s.drop_first())
    }
}

/// What reading a variable-length integer of at most `max` bytes from the
/// front of `s` gives.
pub enum VarRead {
    /// The value of the groups and the number of bytes they take.
    Value(nat, nat),
    /// The input ends before a final group.
    Short,
    /// `max` bytes all carry a continuation bit.
    TooLong,
}

pub open spec fn var_read(s: Seq<u8>, max: nat) -> VarRead {
    let k = first_final(s);
    if k < max && k < s.len() {
        VarRead::Value(var_value(s.subrange(0, (k + 1) as int)), k + 1)
    } else if s.len() < max {
        VarRead::Short
    } else {
        VarRead::TooLong
    }
}

/// What reading a string of declared length below `max` from the front of
/// `s` gives: the value, or the error, and the bytes left when it succeeds.
pub enum StrRead {
    Value(Seq<char>, nat),
    TooLong(nat),
    Short,
    BadVarInt,
    NotUtf8,
}

pub open spec fn string_read(s: Seq<u8>, max: nat) -> StrRead {
    match var_read(s, 5) {
        VarRead::Value(v, n) => {
            let len = v % 0x1_0000_0000;
            if len >= max {
                StrRead::TooLong(len)
            } else if s.len() < n + len {
                StrRead::Short
            } else if valid_utf8(s.subrange(n as int, (n + len) as int)) {
                StrRead::Value(decode_utf8(s.subrange(n as int, (n + len) as int)), n + len)
            } else {
                StrRead::NotUtf8
            }
        },
        VarRead::Short => StrRead::Short,
        VarRead::TooLong => StrRead::BadVarInt,
    }
}

/// `e` is the error reading a string of declared length below `max` from
/// the front of `s` gives.
pub open spec fn string_error(s: Seq<u8>, max: nat, e: Error) -> bool {
    match string_read(s, max) {
        StrRead::TooLong(len) => e is StringTooLong && e->StringTooLong_0 == len
            && e->StringTooLong_1 == max,
        StrRead::Short => e is Disconnected,
        StrRead::BadVarInt => e is VarIntTooLong,
        StrRead::NotUtf8 => e is InvalidUtf8,
        StrRead::Value(_, _) => false,
    }
}

// ---------------------------------------------------------------------------
// Laws
// ---------------------------------------------------------------------------

/// Big-endian encoding to `n` bytes and decoding are inverse for every value
/// that fits in `n` bytes.
pub proof fn lemma_be_round_trip(v: nat, n: nat)
    requires
        v < pow256(n),
    ensures
        be_bytes(v, n).len() == n,
        be_value(be_bytes(v, n)) == v,
    decreases n,
{
    if n > 0 {
        let p = pow256((n - 1) as nat);
        assert(v / 256 < p) by (nonlinear_arith)
            requires
                v < 256 * p,
        ;
        lemma_be_round_trip(v / 256, (n - 1) as nat);
        let s = be_bytes(v, n);
        assert(s.drop_last() =~= be_bytes(v / 256, (n - 1) as nat));
    }
}

/// The VarInt encoding of `u` is one final group preceded by continuation
/// groups, `1 + floor(log_128(u))` bytes long, and decodes back to `u`.
pub proof fn lemma_var_round_trip(u: nat)
    ensures
        var_bytes(u).len() == 1 + log128(u),
        var_bytes(u).len() >= 1,
        continues(var_bytes(u), var_bytes(u).len() - 1),
        var_bytes(u).last() < 128,
        var_value(var_bytes(u)) == u,
    decreases u,
{
    if u < 128 {
        assert(var_bytes(u).drop_first() =~= Seq::<u8>::empty());
        assert(var_value(Seq::<u8>::empty()) == 0);
        assert(var_value(var_bytes(u)) == (u % 128) + 128 * var_value(Seq::<u8>::empty()));
    }
    if u >= 128 {
        lemma_var_round_trip(u / 128);
        let s = var_bytes(u);
        let t = var_bytes(u / 128);
        assert(s.drop_first() =~= t);
        assert(((u % 128 + 128) as u8) % 128 == u % 128);
        assert(u % 128 + 128 * (u / 128) == u);
        assert(var_value(s) == (s[0] % 128) as nat + 128 * var_value(t));
        assert forall|j: int| 0 <= j < s.len() - 1 implies s[j] >= 128 by {
            if j > 0 {
                assert(s[j] == t[j - 1]);
            }
        }
    }
}

/// `log_128` of a value below `2^(7k)` is below `k`.
pub proof fn lemma_log128_bound(u: nat, k: nat)
    requires
        u < pow128(k),
        k >= 1,
    ensures
        log128(u) < k,
    decreases k,
{
    if u >= 128 {
        if k == 1 {
            assert(pow128(1) == 128 * pow128(0));
        }
        let p = pow128((k - 1) as nat);
        assert(u / 128 < p) by (nonlinear_arith)
            requires
                u < 128 * p,
        ;
        lemma_log128_bound(u / 128, (k - 1) as nat);
    }
}

/// `first_final` stops at the first byte without a continuation bit.
pub proof fn lemma_first_final(s: Seq<u8>, k: int)
    requires
        0 <= k <= s.len(),
        continues(s, k),
    ensures
        first_final(s) >= k,
        first_final(s) <= s.len(),
        k < s.len() && s[k] < 128 ==> first_final(s) == k,
        k == s.len() ==> first_final(s) == k,
    decreases k,
{
    if k > 0 {
        let t = s.drop_first();
        assert forall|j: int| 0 <= j < k - 1 implies t[j] >= 128 by {
            assert(t[j] == s[j + 1]);
        }
        lemma_first_final(t, k - 1);
    } else {
        lemma_first_final_le(s);
    }
}

pub proof fn lemma_first_final_le(s: Seq<u8>)
    ensures
        first_final(s) <= s.len(),
    decreases s.len(),
{
    if s.len() > 0 {
        lemma_first_final_le(s.drop_first());
    }
}

/// Reading a VarInt back from its encoding, followed by anything, gives the
/// encoded value and consumes exactly the encoding.
pub proof fn lemma_var_read_encoding(u: nat, rest: Seq<u8>, max: nat)
    requires
        var_bytes(u).len() <= max,
    ensures
        var_read(var_bytes(u) + rest, max) == VarRead::Value(u, var_bytes(u).len()),
{
    lemma_var_round_trip(u);
    let e = var_bytes(u);
    let s = e + rest;
    assert forall|j: int| 0 <= j < e.len() - 1 implies s[j] >= 128 by {
        assert(s[j] == e[j]);
    }
    assert(s[e.len() - 1] == e.last());
    lemma_first_final(s, e.len() - 1);
    assert(s.subrange(0, e.len() as int) =~= e);
}

/// VarInt round trip for every `i32`: reading back the encoding of `v`
/// yields the bits of `v`, after `1 + floor(log_128(v as u32))` bytes, at
/// most five.
pub proof fn lemma_var_int_round_trip(v: i32, rest: Seq<u8>)
    ensures
        var_bytes(v as u32 as nat).len() == 1 + log128(v as u32 as nat),
        1 <= var_bytes(v as u32 as nat).len() <= 5,
        var_read(var_bytes(v as u32 as nat) + rest, 5) == VarRead::Value(
            v as u32 as nat,
            var_bytes(v as u32 as nat).len(),
        ),
{
    lemma_pow_facts();
    lemma_var_round_trip(v as u32 as nat);
    lemma_log128_bound(v as u32 as nat, 5);
    lemma_var_read_encoding(v as u32 as nat, rest, 5);
}

/// VarLong round trip for every `i64`, in at most ten bytes.
pub proof fn lemma_var_long_round_trip(v: i64, rest: Seq<u8>)
    ensures
        var_bytes(v as u64 as nat).len() == 1 + log128(v as u64 as nat),
        1 <= var_bytes(v as u64 as nat).len() <= 10,
        var_read(var_bytes(v as u64 as nat) + rest, 10) == VarRead::Value(
            v as u64 as nat,
            var_bytes(v as u64 as nat).len(),
        ),
{
    lemma_pow_facts();
    lemma_var_round_trip(v as u64 as nat);
    lemma_log128_bound(v as u64 as nat, 10);
    lemma_var_read_encoding(v as u64 as nat, rest, 10);
}

/// String round trip: the encoding of `s` reads back as `s` when the bound is
/// above its byte length, and is refused as too long when the bound equals
/// it.
pub proof fn lemma_string_round_trip(s: Seq<char>, rest: Seq<u8>)
    requires
        encode_utf8(s).len() < 0x8000_0000,
    ensures
        ({
            let b = encode_utf8(s);
            let input = var_bytes(b.len()) + b + rest;
            &&& string_read(input, b.len() + 1) == StrRead::Value(
                s,
                var_bytes(b.len()).len() + b.len(),
            )
            &&& string_read(input, b.len()) == StrRead::TooLong(b.len())
        }),
{
    let b = encode_utf8(s);
    let e = var_bytes(b.len());
    let input = e + b + rest;
    lemma_pow_facts();
    lemma_var_round_trip(b.len());
    lemma_log128_bound(b.len(), 5);
    assert(input =~= e + (b + rest));
    lemma_var_read_encoding(b.len(), b + rest, 5);
    assert(input.subrange(e.len() as int, (e.len() + b.len()) as int) =~= b);
    encode_utf8_valid_utf8(s);
    encode_utf8_decode_utf8(s);
}

/// `be_bytes(v, n)` has `n` bytes.
pub proof fn lemma_be_len(v: nat, n: nat)
    ensures
        be_bytes(v, n).len() == n,
    decreases n,
{
    if n > 0 {
        lemma_be_len(v / 256, (n - 1) as nat);
    }
}

/// A VarInt of a 32-bit value takes at most five bytes.
pub proof fn lemma_var_bytes_len(u: nat)
    requires
        u < 0x1_0000_0000,
    ensures
        1 <= var_bytes(u).len() <= 5,
{
    lemma_pow_facts();
    lemma_var_round_trip(u);
    lemma_log128_bound(u, 5);
}

/// The sizes that matter: five groups cover 32 bits, ten cover 64.
pub proof fn lemma_pow_facts()
    ensures
        pow128(5) == 0x8_0000_0000,
        pow128(10) == 0x40_0000_0000_0000_0000,
        pow256(1) == 0x100,
        pow256(2) == 0x1_0000,
        pow256(4) == 0x1_0000_0000,
        pow256(8) == 0x1_0000_0000_0000_0000,
        pow256(16) == 0x1_0000_0000_0000_0000_0000_0000_0000_0000,
{
    reveal_with_fuel(pow128, 11);
    reveal_with_fuel(pow256, 17);
}

/// The value of a bounded sequence of groups fits in its number of groups.
pub proof fn lemma_var_value_bound(s: Seq<u8>)
    ensures
        var_value(s) < pow128(s.len()),
    decreases s.len(),
{
    if s.len() > 0 {
        lemma_var_value_bound(s.drop_first());
        let a = (s[0] % 128) as nat;
        let b = var_value(s.drop_first());
        let p = pow128((s.len() - 1) as nat);
        assert(a + 128 * b < 128 * p) by (nonlinear_arith)
            requires
                a < 128,
                b < p,
        ;
    }
}

// ---------------------------------------------------------------------------
// Byte sinks and sources
// ---------------------------------------------------------------------------

/// A byte sink.
pub trait Writable {
    /// Everything written so far.
    spec fn written(&self) -> Seq<u8>;

    /// Appends `array`; on success returns its length.
    fn write(&mut self, array: &[u8]) -> (r: Result<usize, Error>)
        ensures
            r is Ok ==> final(self).written() == old(self).written() + array@ && r->Ok_0
                == array@.len(),
    ;
}

/// A byte source.
pub trait Readable {
    /// The bytes not yet read.
    spec fn unread(&self) -> Seq<u8>;

    /// Takes the next `len` bytes.
    fn read(&mut self, len: usize) -> (r: Result<Vec<u8>, Error>)
        ensures
            r is Ok ==> len <= old(self).unread().len() && r->Ok_0@ == old(self).unread().take(
                len as int,
            ) && final(self).unread() == old(self).unread().skip(len as int),
    ;
}

// ---------------------------------------------------------------------------
// The buffer
// ---------------------------------------------------------------------------

/// An in-memory byte source and sink: reads consume from the front, writes
/// append at the back.
pub struct Buffer {
    pub bytes: Vec<u8>,
}

impl View for Buffer {
    type V = Seq<u8>;

    open spec fn view(&self) -> Seq<u8> {
        self.bytes@
    }
}

impl Buffer {
    /// An empty buffer.
    pub fn new() -> (r: Buffer)
        ensures
            r@ == Seq::<u8>::empty(),
    {
        Buffer { bytes: Vec::new() }
    }

    /// A buffer holding a copy of `b`.
    pub fn from_slice(b: &[u8]) -> (r: Buffer)
        ensures
            r@ == b@,
    {
        let mut v: Vec<u8> = Vec::new();
        let mut i: usize = 0;
        while i < b.len()
            invariant
                i <= b@.len(),
                v@ == b@.subrange(0, i as int),
            decreases b@.len() - i,
        {
            v.push(b[i]);
            i = i + 1;
            assert(v@ =~= b@.subrange(0, i as int));
        }
        assert(v@ =~= b@);
        Buffer { bytes: v }
    }

    /// Number of unread bytes.
    pub fn len(&self) -> (r: usize)
        ensures
            r == self@.len(),
    {
        self.bytes.len()
    }

    /// Appends `array`; returns its length.
    pub fn put_bytes(&mut self, array: &[u8]) -> (r: usize)
        ensures
            final(self)@ == old(self)@ + array@,
            r == array@.len(),
    {
        let mut i: usize = 0;
        while i < array.len()
            invariant
                i <= array@.len(),
                self@ == old(self)@ + array@.subrange(0, i as int),
            decreases array@.len() - i,
        {
            self.bytes.push(array[i]);
            i = i + 1;
            assert(self@ =~= old(self)@ + array@.subrange(0, i as int));
        }
        assert(array@.subrange(0, i as int) =~= array@);
        array.len()
    }

    /// Removes and returns the first `n` bytes; fails with `Disconnected`,
    /// consuming nothing, when fewer are left.
    pub fn take_bytes(&mut self, n: usize) -> (r: Result<Vec<u8>, Error>)
        ensures
            match r {
                Ok(v) => {
                    &&& n <= old(self)@.len()
                    &&& v@ == old(self)@.subrange(0, n as int)
                    &&& final(self)@ == old(self)@.subrange(n as int, old(self)@.len() as int)
                },
                Err(e) => {
                    &&& n > old(self)@.len()
                    &&& e is Disconnected
                    &&& final(self)@ == old(self)@
                },
            },
    {
        if n > self.bytes.len() {
            return Err(Error::Disconnected);
        }
        let mut head = self.bytes.split_off(n);
        std::mem::swap(&mut self.bytes, &mut head);
        Ok(head)
    }

    /// Appends the `n` low-order bytes of `v`, most significant first.
    fn put_be(&mut self, v: u128, n: usize) -> (r: usize)
        requires
            n <= 16,
        ensures
            final(self)@ == old(self)@ + be_bytes(v as nat, n as nat),
            r == n,
    {
        let mut out: Vec<u8> = vec![0u8; n];
        let mut x: u128 = v;
        let mut k: usize = 0;
        while k < n
            invariant
                k <= n,
                out@.len() == n,
                be_bytes(v as nat, n as nat) == be_bytes(x as nat, (n - k) as nat) + out@.subrange(
                    (n - k) as int,
                    n as int,
                ),
            decreases n - k,
        {
            let ghost old_out = out@;
            let b = (x % 256) as u8;
            out.set(n - k - 1, b);
            assert(out@.subrange((n - k - 1) as int, n as int) =~= seq![b] + old_out.subrange(
                (n - k) as int,
                n as int,
            ));
            assert(be_bytes(x as nat, (n - k) as nat) == be_bytes(
                (x / 256) as nat,
                (n - k - 1) as nat,
            ).push(b));
            x = x / 256;
            k = k + 1;
            assert(be_bytes(v as nat, n as nat) =~= be_bytes(x as nat, (n - k) as nat)
                + out@.subrange((n - k) as int, n as int));
        }
        assert(out@.subrange(0, n as int) =~= out@);
        self.bytes.append(&mut out);
        n
    }

    /// Reads `n` bytes as a big-endian unsigned integer.
    fn take_be(&mut self, n: usize) -> (r: Result<u128, Error>)
        requires
            n <= 16,
        ensures
            match r {
                Ok(v) => {
                    &&& n <= old(self)@.len()
                    &&& v as nat == be_value(old(self)@.subrange(0, n as int))
                    &&& final(self)@ == old(self)@.subrange(n as int, old(self)@.len() as int)
                },
                Err(e) => {
                    &&& n > old(self)@.len()
                    &&& e is Disconnected
                    &&& final(self)@ == old(self)@
                },
            },
    {
        let head = self.take_bytes(n)?;
        let mut acc: u128 = 0;
        let mut i: usize = 0;
        proof {
            lemma_pow_facts();
        }
        while i < n
            invariant
                i <= n,
                n <= 16,
                head@.len() == n,
                acc as nat == be_value(head@.subrange(0, i as int)),
                (acc as nat) < pow256(i as nat),
                pow256(16) == 0x1_0000_0000_0000_0000_0000_0000_0000_0000,
            decreases n - i,
        {
            proof {
                lemma_pow256_mono(i as nat + 1, 16);
                let p = pow256(i as nat);
                let a = acc as nat;
                let b = head@[i as int] as nat;
                assert(a * 256 + b < 256 * p) by (nonlinear_arith)
                    requires
                        a < p,
                        b < 256,
                ;
            }
            acc = acc * 256 + head[i] as u128;
            assert(head@.subrange(0, i + 1).drop_last() =~= head@.subrange(0, i as int));
            i = i + 1;
        }
        assert(head@.subrange(0, n as int) =~= head@);
        Ok(acc)
    }
}

impl Buffer {
    /// Writes `value` as 1 big-endian byte.
    pub fn write_u8(&mut self, value: u8) -> (r: usize)
        ensures
            final(self)@ == old(self)@ + be_bytes(value as nat, 1),
            r == 1,
    {
        self.put_be(value as u128, 1)
    }

    /// Writes `value` as 2 big-endian bytes.
    pub fn write_u16(&mut self, value: u16) -> (r: usize)
        ensures
            final(self)@ == old(self)@ + be_bytes(value as nat, 2),
            r == 2,
    {
        self.put_be(value as u128, 2)
    }

    /// Writes `value` as 4 big-endian bytes.
    pub fn write_u32(&mut self, value: u32) -> (r: usize)
        ensures
            final(self)@ == old(self)@ + be_bytes(value as nat, 4),
            r == 4,
    {
        self.put_be(value as u128, 4)
    }

    /// Writes `value` as 8 big-endian bytes.
    pub fn write_u64(&mut self, value: u64) -> (r: usize)
        ensures
            final(self)@ == old(self)@ + be_bytes(value as nat, 8),
            r == 8,
    {
        self.put_be(value as u128, 8)
    }

    /// Writes `value` as 16 big-endian bytes.
    pub fn write_u128(&mut self, value: u128) -> (r: usize)
        ensures
            final(self)@ == old(self)@ + be_bytes(value as nat, 16),
            r == 16,
    {
        self.put_be(value as u128, 16)
    }

    /// Writes `value` as 1 big-endian byte.
    pub fn write_i8(&mut self, value: i8) -> (r: usize)
        ensures
            final(self)@ == old(self)@ + be_bytes(value as u8 as nat, 1),
            r == 1,
    {
        self.put_be(value as u8 as u128, 1)
    }

    /// Writes `value` as 2 big-endian bytes.
    pub fn write_i16(&mut self, value: i16) -> (r: usize)
        ensures
            final(self)@ == old(self)@ + be_bytes(value as u16 as nat, 2),
            r == 2,
    {
        self.put_be(value as u16 as u128, 2)
    }

    /// Writes `value` as 4 big-endian bytes.
    pub fn write_i32(&mut self, value: i32) -> (r: usize)
        ensures
            final(self)@ == old(self)@ + be_bytes(value as u32 as nat, 4),
            r == 4,
    {
        self.put_be(value as u32 as u128, 4)
    }

    /// Writes `value` as 8 big-endian bytes.
    pub fn write_i64(&mut self, value: i64) -> (r: usize)
        ensures
            final(self)@ == old(self)@ + be_bytes(value as u64 as nat, 8),
            r == 8,
    {
        self.put_be(value as u64 as u128, 8)
    }

    /// Writes `value` as 16 big-endian bytes.
    pub fn write_i128(&mut self, value: i128) -> (r: usize)
        ensures
            final(self)@ == old(self)@ + be_bytes(value as u128 as nat, 16),
            r == 16,
    {
        self.put_be(value as u128 as u128, 16)
    }

    /// Reads 1 big-endian byte.
    pub fn read_u8(&mut self) -> (r: Result<u8, Error>)
        ensures
            r is Ok <==> old(self)@.len() >= 1,
            r is Ok ==> r->Ok_0 as nat == be_value(old(self)@.subrange(0, 1))
                && final(self)@ == old(self)@.subrange(1, old(self)@.len() as int),
            r is Err ==> r->Err_0 is Disconnected && final(self)@ == old(self)@,
    {
        let v = self.take_be(1)?;
        proof {
            lemma_be_value_bound(old(self)@.subrange(0, 1));
            lemma_pow_facts();
        }
        Ok(v as u8)
    }

    /// Reads 2 big-endian bytes.
    pub fn read_u16(&mut self) -> (r: Result<u16, Error>)
        ensures
            r is Ok <==> old(self)@.len() >= 2,
            r is Ok ==> r->Ok_0 as nat == be_value(old(self)@.subrange(0, 2))
                && final(self)@ == old(self)@.subrange(2, old(self)@.len() as int),
            r is Err ==> r->Err_0 is Disconnected && final(self)@ == old(self)@,
    {
        let v = self.take_be(2)?;
        proof {
            lemma_be_value_bound(old(self)@.subrange(0, 2));
            lemma_pow_facts();
        }
        Ok(v as u16)
    }

    /// Reads 4 big-endian bytes.
    pub fn read_u32(&mut self) -> (r: Result<u32, Error>)
        ensures
            r is Ok <==> old(self)@.len() >= 4,
            r is Ok ==> r->Ok_0 as nat == be_value(old(self)@.subrange(0, 4))
                && final(self)@ == old(self)@.subrange(4, old(self)@.len() as int),
            r is Err ==> r->Err_0 is Disconnected && final(self)@ == old(self)@,
    {
        let v = self.take_be(4)?;
        proof {
            lemma_be_value_bound(old(self)@.subrange(0, 4));
            lemma_pow_facts();
        }
        Ok(v as u32)
    }

    /// Reads 8 big-endian bytes.
    pub fn read_u64(&mut self) -> (r: Result<u64, Error>)
        ensures
            r is Ok <==> old(self)@.len() >= 8,
            r is Ok ==> r->Ok_0 as nat == be_value(old(self)@.subrange(0, 8))
                && final(self)@ == old(self)@.subrange(8, old(self)@.len() as int),
            r is Err ==> r->Err_0 is Disconnected && final(self)@ == old(self)@,
    {
        let v = self.take_be(8)?;
        proof {
            lemma_be_value_bound(old(self)@.subrange(0, 8));
            lemma_pow_facts();
        }
        Ok(v as u64)
    }

    /// Reads 16 big-endian bytes.
    pub fn read_u128(&mut self) -> (r: Result<u128, Error>)
        ensures
            r is Ok <==> old(self)@.len() >= 16,
            r is Ok ==> r->Ok_0 as nat == be_value(old(self)@.subrange(0, 16))
                && final(self)@ == old(self)@.subrange(16, old(self)@.len() as int),
            r is Err ==> r->Err_0 is Disconnected && final(self)@ == old(self)@,
    {
        let v = self.take_be(16)?;
        proof {
            lemma_be_value_bound(old(self)@.subrange(0, 16));
            lemma_pow_facts();
        }
        Ok(v as u128)
    }

    /// Reads 1 big-endian byte as a two's complement value.
    pub fn read_i8(&mut self) -> (r: Result<i8, Error>)
        ensures
            r is Ok <==> old(self)@.len() >= 1,
            r is Ok ==> r->Ok_0 as u8 as nat == be_value(old(self)@.subrange(0, 1))
                && final(self)@ == old(self)@.subrange(1, old(self)@.len() as int),
            r is Err ==> r->Err_0 is Disconnected && final(self)@ == old(self)@,
    {
        let v = self.take_be(1)?;
        proof {
            lemma_be_value_bound(old(self)@.subrange(0, 1));
            lemma_pow_facts();
        }
        let u = v as u8;
        let x = u as i8;
        assert(x as u8 == u) by (bit_vector)
            requires
                x == u as i8,
        ;
        Ok(x)
    }

    /// Reads 2 big-endian bytes as a two's complement value.
    pub fn read_i16(&mut self) -> (r: Result<i16, Error>)
        ensures
            r is Ok <==> old(self)@.len() >= 2,
            r is Ok ==> r->Ok_0 as u16 as nat == be_value(old(self)@.subrange(0, 2))
                && final(self)@ == old(self)@.subrange(2, old(self)@.len() as int),
            r is Err ==> r->Err_0 is Disconnected && final(self)@ == old(self)@,
    {
        let v = self.take_be(2)?;
        proof {
            lemma_be_value_bound(old(self)@.subrange(0, 2));
            lemma_pow_facts();
        }
        let u = v as u16;
        let x = u as i16;
        assert(x as u16 == u) by (bit_vector)
            requires
                x == u as i16,
        ;
        Ok(x)
    }

    /// Reads 4 big-endian bytes as a two's complement value.
    pub fn read_i32(&mut self) -> (r: Result<i32, Error>)
        ensures
            r is Ok <==> old(self)@.len() >= 4,
            r is Ok ==> r->Ok_0 as u32 as nat == be_value(old(self)@.subrange(0, 4))
                && final(self)@ == old(self)@.subrange(4, old(self)@.len() as int),
            r is Err ==> r->Err_0 is Disconnected && final(self)@ == old(self)@,
    {
        let v = self.take_be(4)?;
        proof {
            lemma_be_value_bound(old(self)@.subrange(0, 4));
            lemma_pow_facts();
        }
        let u = v as u32;
        let x = u as i32;
        assert(x as u32 == u) by (bit_vector)
            requires
                x == u as i32,
        ;
        Ok(x)
    }

    /// Reads 8 big-endian bytes as a two's complement value.
    pub fn read_i64(&mut self) -> (r: Result<i64, Error>)
        ensures
            r is Ok <==> old(self)@.len() >= 8,
            r is Ok ==> r->Ok_0 as u64 as nat == be_value(old(self)@.subrange(0, 8))
                && final(self)@ == old(self)@.subrange(8, old(self)@.len() as int),
            r is Err ==> r->Err_0 is Disconnected && final(self)@ == old(self)@,
    {
        let v = self.take_be(8)?;
        proof {
            lemma_be_value_bound(old(self)@.subrange(0, 8));
            lemma_pow_facts();
        }
        let u = v as u64;
        let x = u as i64;
        assert(x as u64 == u) by (bit_vector)
            requires
                x == u as i64,
        ;
        Ok(x)
    }

    /// Reads 16 big-endian bytes as a two's complement value.
    pub fn read_i128(&mut self) -> (r: Result<i128, Error>)
        ensures
            r is Ok <==> old(self)@.len() >= 16,
            r is Ok ==> r->Ok_0 as u128 as nat == be_value(old(self)@.subrange(0, 16))
                && final(self)@ == old(self)@.subrange(16, old(self)@.len() as int),
            r is Err ==> r->Err_0 is Disconnected && final(self)@ == old(self)@,
    {
        let v = self.take_be(16)?;
        proof {
            lemma_be_value_bound(old(self)@.subrange(0, 16));
            lemma_pow_facts();
        }
        let u = v as u128;
        let x = u as i128;
        assert(x as u128 == u) by (bit_vector)
            requires
                x == u as i128,
        ;
        Ok(x)
    }
}

impl Buffer {
    /// Appends the VarInt groups of `u`.
    fn put_var(&mut self, u: u64) -> (r: usize)
        ensures
            final(self)@ == old(self)@ + var_bytes(u as nat),
            r == var_bytes(u as nat).len(),
    {
        let mut x: u64 = u;
        let mut count: usize = 0;
        proof {
            lemma_var_round_trip(u as nat);
            lemma_pow_facts();
            lemma_log128_bound(u as nat, 10);
        }
        while x >= 128
            invariant
                old(self)@ + var_bytes(u as nat) == self@ + var_bytes(x as nat),
                count + var_bytes(x as nat).len() == var_bytes(u as nat).len(),
                var_bytes(u as nat).len() <= 10,
            decreases x,
        {
            let b = (x % 128 + 128) as u8;
            proof {
                lemma_var_round_trip(x as nat);
                assert(var_bytes(x as nat) == seq![b] + var_bytes((x / 128) as nat));
                assert(self@ + var_bytes(x as nat) =~= self@.push(b) + var_bytes((x / 128) as nat));
            }
            self.bytes.push(b);
            x = x / 128;
            count = count + 1;
        }
        self.bytes.push(x as u8);
        proof {
            assert(var_bytes(x as nat) == seq![x as u8]);
        }
        count + 1
    }

    /// Appends the VarInt encoding of `value`'s 32 bits, one to five bytes.
    pub fn write_var_int(&mut self, value: i32) -> (r: usize)
        ensures
            final(self)@ == old(self)@ + var_bytes(value as u32 as nat),
            r == var_bytes(value as u32 as nat).len(),
            1 <= r <= 5,
    {
        proof {
            lemma_var_int_round_trip(value, Seq::empty());
        }
        self.put_var(value as u32 as u64)
    }

    /// Appends the VarLong encoding of `value`'s 64 bits, one to ten bytes.
    pub fn write_var_long(&mut self, value: i64) -> (r: usize)
        ensures
            final(self)@ == old(self)@ + var_bytes(value as u64 as nat),
            r == var_bytes(value as u64 as nat).len(),
            1 <= r <= 10,
    {
        proof {
            lemma_var_long_round_trip(value, Seq::empty());
        }
        self.put_var(value as u64)
    }

    /// Reads a variable-length integer of at most `max` bytes from the front;
    /// consumes nothing when it fails.
    fn take_var(&mut self, max: usize) -> (r: Result<u128, Error>)
        requires
            1 <= max <= 10,
        ensures
            match var_read(old(self)@, max as nat) {
                VarRead::Value(v, n) => r is Ok && r->Ok_0 as nat == v && final(self)@
                    == old(self)@.subrange(n as int, old(self)@.len() as int),
                VarRead::Short => r is Err && r->Err_0 is Disconnected && final(self)@ == old(
                    self,
                )@,
                VarRead::TooLong => r is Err && r->Err_0 is VarIntTooLong && final(self)@ == old(
                    self,
                )@,
            },
    {
        let n = self.bytes.len();
        let mut k: usize = 0;
        while k < n && k < max && self.bytes[k] >= 128
            invariant
                k <= n,
                k <= max,
                n == self@.len(),
                continues(self@, k as int),
            decreases n - k,
        {
            k = k + 1;
        }
        proof {
            lemma_first_final(self@, k as int);
        }
        if k == max {
            return Err(Error::VarIntTooLong);
        }
        if k == n {
            return Err(Error::Disconnected);
        }
        let ghost s = self@.subrange(0, k + 1);
        let mut acc: u128 = 0;
        let mut i: usize = k + 1;
        proof {
            lemma_pow_facts();
            assert(s.subrange(i as int, k + 1) =~= Seq::<u8>::empty());
        }
        while i > 0
            invariant
                i <= k + 1,
                k < n,
                k < max,
                max <= 10,
                n == self@.len(),
                s == self@.subrange(0, k + 1),
                acc as nat == var_value(s.subrange(i as int, k + 1)),
                pow128(10) == 0x40_0000_0000_0000_0000,
            decreases i,
        {
            let b = self.bytes[i - 1];
            proof {
                let t = s.subrange(i - 1, k + 1);
                assert(t.drop_first() =~= s.subrange(i as int, k + 1));
                lemma_var_value_bound(t);
                lemma_pow128_mono(t.len(), 10);
                lemma_var_value_bound(s.subrange(i as int, k + 1));
                lemma_pow128_mono((k + 1 - i) as nat, 10);
            }
            acc = (b % 128) as u128 + 128 * acc;
            i = i - 1;
        }
        assert(s.subrange(0, k + 1) =~= s);
        let _ = self.take_bytes(k + 1);
        Ok(acc)
    }

    /// Reads a VarInt: at most five bytes, the groups' low 32 bits.
    pub fn read_var_int(&mut self) -> (r: Result<i32, Error>)
        ensures
            match var_read(old(self)@, 5) {
                VarRead::Value(v, n) => r is Ok && r->Ok_0 as u32 as nat == v % 0x1_0000_0000
                    && final(self)@ == old(self)@.subrange(n as int, old(self)@.len() as int),
                VarRead::Short => r is Err && r->Err_0 is Disconnected && final(self)@ == old(
                    self,
                )@,
                VarRead::TooLong => r is Err && r->Err_0 is VarIntTooLong && final(self)@ == old(
                    self,
                )@,
            },
    {
        let v = self.take_var(5)?;
        let u = (v % 0x1_0000_0000) as u32;
        let x = u as i32;
        assert(x as u32 == u) by (bit_vector)
            requires
                x == u as i32,
        ;
        Ok(x)
    }

    /// Reads a VarLong: at most ten bytes, the groups' low 64 bits.
    pub fn read_var_long(&mut self) -> (r: Result<i64, Error>)
        ensures
            match var_read(old(self)@, 10) {
                VarRead::Value(v, n) => r is Ok && r->Ok_0 as u64 as nat == v
                    % 0x1_0000_0000_0000_0000 && final(self)@ == old(self)@.subrange(
                    n as int,
                    old(self)@.len() as int,
                ),
                VarRead::Short => r is Err && r->Err_0 is Disconnected && final(self)@ == old(
                    self,
                )@,
                VarRead::TooLong => r is Err && r->Err_0 is VarIntTooLong && final(self)@ == old(
                    self,
                )@,
            },
    {
        let v = self.take_var(10)?;
        let u = (v % 0x1_0000_0000_0000_0000) as u64;
        let x = u as i64;
        assert(x as u64 == u) by (bit_vector)
            requires
                x == u as i64,
        ;
        Ok(x)
    }

    /// Writes the VarInt byte length of `value`, then its UTF-8 bytes.
    pub fn write_string(&mut self, value: &str) -> (r: usize)
        requires
            encode_utf8(value@).len() < 0x8000_0000,
        ensures
            final(self)@ == old(self)@ + var_bytes(encode_utf8(value@).len()) + encode_utf8(
                value@,
            ),
            r == var_bytes(encode_utf8(value@).len()).len() + encode_utf8(value@).len(),
    {
        let b = value.as_bytes();
        let n = b.len();
        let c = self.write_var_int(n as i32);
        assert(n as i32 as u32 == n as u32) by (bit_vector)
            requires
                n < 0x8000_0000usize,
        ;
        let d = self.put_bytes(b);
        c + d
    }

    /// Reads a string whose declared byte length must be below `max`.
    pub fn read_string(&mut self, max: usize) -> (r: Result<String, Error>)
        ensures
            match string_read(old(self)@, max as nat) {
                StrRead::Value(s, n) => r is Ok && r->Ok_0@ == s && final(self)@ == old(
                    self,
                )@.subrange(n as int, old(self)@.len() as int) && encode_utf8(s).len() < max,
                StrRead::TooLong(len) => r is Err && r->Err_0 is StringTooLong
                    && r->Err_0->StringTooLong_0 == len && r->Err_0->StringTooLong_1 == max,
                StrRead::Short => r is Err && r->Err_0 is Disconnected,
                StrRead::BadVarInt => r is Err && r->Err_0 is VarIntTooLong,
                StrRead::NotUtf8 => r is Err && r->Err_0 is InvalidUtf8,
            },
    {
        let ghost s0 = self@;
        let declared = self.read_var_int()?;
        let len = declared as u32 as usize;
        if len >= max {
            return Err(Error::StringTooLong(len, max, String::new()));
        }
        let bytes = self.take_bytes(len)?;
        proof {
            if let VarRead::Value(v, n) = var_read(s0, 5) {
                assert(bytes@ =~= s0.subrange(n as int, n + len));
                if valid_utf8(bytes@) {
                    decode_utf8_encode_utf8(bytes@);
                }
            }
        }
        match utf8_string(bytes) {
            Some(text) => Ok(text),
            None => Err(Error::InvalidUtf8),
        }
    }
}

impl Writable for Buffer {
    open spec fn written(&self) -> Seq<u8> {
        self@
    }

    /// Appending to a buffer always succeeds.
    fn write(&mut self, array: &[u8]) -> (r: Result<usize, Error>)
        ensures
            r is Ok,
    {
        Ok(self.put_bytes(array))
    }
}

impl Readable for Buffer {
    open spec fn unread(&self) -> Seq<u8> {
        self@
    }

    /// Fails with `Disconnected`, consuming nothing, when fewer than `len`
    /// bytes are left.
    fn read(&mut self, len: usize) -> (r: Result<Vec<u8>, Error>)
        ensures
            r is Err <==> len > old(self)@.len(),
            r is Err ==> r->Err_0 is Disconnected && final(self)@ == old(self)@,
    {
        let r = self.take_bytes(len);
        proof {
            if r is Ok {
                assert(old(self)@.take(len as int) =~= old(self)@.subrange(0, len as int));
                assert(old(self)@.skip(len as int) =~= old(self)@.subrange(len as int, old(self)@.len() as int));
            }
        }
        r
    }
}

pub proof fn lemma_pow128_mono(a: nat, b: nat)
    requires
        a <= b,
    ensures
        pow128(a) <= pow128(b),
    decreases b,
{
    if a < b {
        lemma_pow128_mono(a, (b - 1) as nat);
    }
}

/// A big-endian value is below `256` to the power of its length.
pub proof fn lemma_be_value_bound(s: Seq<u8>)
    ensures
        be_value(s) < pow256(s.len()),
    decreases s.len(),
{
    if s.len() > 0 {
        lemma_be_value_bound(s.drop_last());
        let a = be_value(s.drop_last());
        let b = s.last() as nat;
        let p = pow256((s.len() - 1) as nat);
        assert(a * 256 + b < 256 * p) by (nonlinear_arith)
            requires
                a < p,
                b < 256,
        ;
    }
}

/// Relies on `String::from_utf8`: it succeeds exactly on well-formed UTF-8,
/// and the string it returns decodes those bytes.
#[verifier::external_body]
fn utf8_string(bytes: Vec<u8>) -> (r: Option<String>)
    ensures
        r is Some <==> valid_utf8(bytes@),
        r is Some ==> r->Some_0@ == decode_utf8(bytes@),
{
    String::from_utf8(bytes).ok()
}

pub proof fn lemma_pow256_mono(a: nat, b: nat)
    requires
        a <= b,
    ensures
        pow256(a) <= pow256(b),
    decreases b,
{
    if a < b {
        lemma_pow256_mono(a, (b - 1) as nat);
    }
}

} // verus!
