//! The byte-level encodings used on the wire: big-endian fixed-width
//! integers, booleans, VarInts, UUIDs, length-prefixed UTF-8 strings and
//! length-prefixed byte arrays.
use vstd::prelude::*;
use vstd::utf8::{decode_utf8, encode_utf8, valid_utf8};

verus! {

/// `256^n`.
pub open spec fn pow256(n: nat) -> nat
    decreases n,
{
    if n == 0 {
        1
    } else {
        256 * pow256((n - 1) as nat)
    }
}

/// The `n`-byte big-endian encoding of `v` (taken modulo `256^n`).
pub open spec fn be_bytes(v: nat, n: nat) -> Seq<u8>
    decreases n,
{
    if n == 0 {
        Seq::empty()
    } else {
        be_bytes(v / 256, (n - 1) as nat).push((v % 256) as u8)
    }
}

/// The number that a big-endian byte sequence denotes.
pub open spec fn be_value(s: Seq<u8>) -> nat
    decreases s.len(),
{
    if s.len() == 0 {
        0
    } else {
        be_value(s.drop_last()) * 256 + s.last() as nat
    }
}

pub proof fn lemma_pow256_positive(n: nat)
    ensures
        pow256(n) >= 1,
    decreases n,
{
    if n > 0 {
        lemma_pow256_positive((n - 1) as nat);
    }
}

pub proof fn lemma_pow256_monotone(a: nat, b: nat)
    requires
        a <= b,
    ensures
        pow256(a) <= pow256(b),
    decreases b,
{
    if a < b {
        lemma_pow256_monotone(a, (b - 1) as nat);
        lemma_pow256_positive((b - 1) as nat);
    }
}

pub proof fn lemma_pow256_values()
    ensures
        pow256(1) == 0x100,
        pow256(2) == 0x10000,
        pow256(4) == 0x1_0000_0000,
        pow256(8) == 0x1_0000_0000_0000_0000,
        pow256(15) == 0x1_0000_0000_0000_0000_0000_0000_0000_00,
        pow256(16) == 0x1_0000_0000_0000_0000_0000_0000_0000_0000,
{
    reveal_with_fuel(pow256, 17);
}

pub proof fn lemma_be_bytes_len(v: nat, n: nat)
    ensures
        be_bytes(v, n).len() == n,
    decreases n,
{
    if n > 0 {
        lemma_be_bytes_len(v / 256, (n - 1) as nat);
    }
}

pub proof fn lemma_be_value_bound(s: Seq<u8>)
    ensures
        be_value(s) < pow256(s.len()),
    decreases s.len(),
{
    if s.len() > 0 {
        lemma_be_value_bound(s.drop_last());
    }
}

/// Decoding a big-endian encoding gives back the number, when it fits.
pub proof fn lemma_be_roundtrip(v: nat, n: nat)
    requires
        v < pow256(n),
    ensures
        be_value(be_bytes(v, n)) == v,
    decreases n,
{
    if n > 0 {
        let m = (n - 1) as nat;
        assert(v / 256 < pow256(m)) by (nonlinear_arith)
            requires
                v < 256 * pow256(m),
        ;
        lemma_be_roundtrip(v / 256, m);
        let s = be_bytes(v, n);
        assert(s.drop_last() =~= be_bytes(v / 256, m));
    }
}

/// Appends the `n`-byte big-endian encoding of `v`.
pub fn put_be(out: &mut Vec<u8>, v: u128, n: usize)
    requires
        n <= 16,
    ensures
        final(out)@ == old(out)@ + be_bytes(v as nat, n as nat),
    decreases n,
{
    if n > 0 {
        put_be(out, v / 256, n - 1);
        out.push((v % 256) as u8);
        proof {
            let a = old(out)@;
            let t = be_bytes((v / 256) as nat, (n - 1) as nat);
            assert(a + be_bytes(v as nat, n as nat) =~= (a + t).push((v % 256) as u8));
        }
    } else {
        assert(old(out)@ + be_bytes(v as nat, 0) =~= old(out)@);
    }
}

/// Reads the `n` bytes at `pos` as a big-endian number.
pub fn get_be(buf: &[u8], pos: usize, n: usize) -> (r: u128)
    requires
        n <= 16,
        pos + n <= buf@.len(),
    ensures
        r as nat == be_value(buf@.subrange(pos as int, pos + n)),
{
    let mut acc: u128 = 0;
    let mut i: usize = 0;
    let len = buf.len();
    proof {
        lemma_pow256_values();
        assert(buf@.subrange(pos as int, pos as int) =~= Seq::<u8>::empty());
    }
    while i < n
        invariant
            i <= n,
            n <= 16,
            pos + n <= buf@.len(),
            len == buf@.len(),
            acc as nat == be_value(buf@.subrange(pos as int, pos + i)),
            acc < pow256(i as nat),
            pow256(16) == 0x1_0000_0000_0000_0000_0000_0000_0000_0000,
        decreases n - i,
    {
        proof {
            let t = buf@.subrange(pos as int, pos + i + 1);
            assert(t.drop_last() =~= buf@.subrange(pos as int, pos + i));
            assert(t.last() == buf@[pos + i]);
            lemma_pow256_monotone((i + 1) as nat, 16);
            assert(pow256((i + 1) as nat) == 256 * pow256(i as nat));
        }
        acc = acc * 256 + buf[pos + i] as u128;
        i = i + 1;
    }
    acc
}


/// A `u32` read as a signed 32-bit two's-complement number is negative.
pub open spec fn u32_is_negative_i32(v: u32) -> bool {
    v >= 0x8000_0000
}

// ---------------------------------------------------------------------------
// Fixed-width values
// ---------------------------------------------------------------------------

pub open spec fn enc_u8(b: u8) -> Seq<u8> {
    seq![b]
}

pub open spec fn bool_byte(b: bool) -> u8 {
    if b {
        1
    } else {
        0
    }
}

pub open spec fn enc_bool(b: bool) -> Seq<u8> {
    seq![bool_byte(b)]
}

/// The two's-complement bit pattern of an `i16`, as a number.
pub open spec fn u_of_i16(v: i16) -> nat {
    if v >= 0 {
        v as nat
    } else {
        (v + 0x1_0000) as nat
    }
}

pub open spec fn i16_of_u(u: nat) -> i16 {
    if u >= 0x8000 {
        (u - 0x1_0000) as i16
    } else {
        u as i16
    }
}

pub open spec fn u_of_i32(v: i32) -> nat {
    if v >= 0 {
        v as nat
    } else {
        (v + 0x1_0000_0000) as nat
    }
}

pub open spec fn i32_of_u(u: nat) -> i32 {
    if u >= 0x8000_0000 {
        (u - 0x1_0000_0000) as i32
    } else {
        u as i32
    }
}

pub open spec fn u_of_i64(v: i64) -> nat {
    if v >= 0 {
        v as nat
    } else {
        (v + 0x1_0000_0000_0000_0000) as nat
    }
}

pub open spec fn i64_of_u(u: nat) -> i64 {
    if u >= 0x8000_0000_0000_0000 {
        (u - 0x1_0000_0000_0000_0000) as i64
    } else {
        u as i64
    }
}

pub open spec fn enc_i16(v: i16) -> Seq<u8> {
    be_bytes(u_of_i16(v), 2)
}

pub open spec fn enc_i32(v: i32) -> Seq<u8> {
    be_bytes(u_of_i32(v), 4)
}

pub open spec fn enc_i64(v: i64) -> Seq<u8> {
    be_bytes(u_of_i64(v), 8)
}

pub open spec fn enc_u64(v: u64) -> Seq<u8> {
    be_bytes(v as nat, 8)
}

/// A UUID travels as its 16 bytes, most significant first.
pub open spec fn enc_uuid(u: u128) -> Seq<u8> {
    be_bytes(u as nat, 16)
}

/// Result of a reader: the value and the number of bytes it took.
pub open spec fn read_u8(s: Seq<u8>) -> Option<(u8, nat)> {
    if s.len() >= 1 {
        Some((s[0], 1))
    } else {
        None
    }
}

/// Any non-zero byte reads as `true`.
pub open spec fn read_bool(s: Seq<u8>) -> Option<(bool, nat)> {
    if s.len() >= 1 {
        Some((s[0] != 0, 1))
    } else {
        None
    }
}

pub open spec fn read_i16(s: Seq<u8>) -> Option<(i16, nat)> {
    if s.len() >= 2 {
        Some((i16_of_u(be_value(s.take(2))), 2))
    } else {
        None
    }
}

pub open spec fn read_i32(s: Seq<u8>) -> Option<(i32, nat)> {
    if s.len() >= 4 {
        Some((i32_of_u(be_value(s.take(4))), 4))
    } else {
        None
    }
}

pub open spec fn read_i64(s: Seq<u8>) -> Option<(i64, nat)> {
    if s.len() >= 8 {
        Some((i64_of_u(be_value(s.take(8))), 8))
    } else {
        None
    }
}

pub open spec fn read_uuid(s: Seq<u8>) -> Option<(u128, nat)> {
    if s.len() >= 16 {
        Some((be_value(s.take(16)) as u128, 16))
    } else {
        None
    }
}

/// What is left of `buf` from `pos` on.
pub open spec fn rest(buf: Seq<u8>, pos: int) -> Seq<u8> {
    buf.subrange(pos, buf.len() as int)
}

pub fn put_u8(out: &mut Vec<u8>, b: u8)
    ensures
        final(out)@ == old(out)@ + enc_u8(b),
{
    out.push(b);
    assert(old(out)@.push(b) =~= old(out)@ + enc_u8(b));
}

pub fn put_bool(out: &mut Vec<u8>, b: bool)
    ensures
        final(out)@ == old(out)@ + enc_bool(b),
{
    let byte: u8 = if b {
        1
    } else {
        0
    };
    out.push(byte);
    assert(old(out)@.push(byte) =~= old(out)@ + enc_bool(b));
}

pub fn put_i16(out: &mut Vec<u8>, v: i16)
    ensures
        final(out)@ == old(out)@ + enc_i16(v),
{
    let u: u128 = if v >= 0 {
        v as u128
    } else {
        (v as i32 + 0x1_0000) as u128
    };
    put_be(out, u, 2);
}

pub fn put_i32(out: &mut Vec<u8>, v: i32)
    ensures
        final(out)@ == old(out)@ + enc_i32(v),
{
    let u: u128 = if v >= 0 {
        v as u128
    } else {
        (v as i64 + 0x1_0000_0000) as u128
    };
    put_be(out, u, 4);
}

pub fn put_i64(out: &mut Vec<u8>, v: i64)
    ensures
        final(out)@ == old(out)@ + enc_i64(v),
{
    let u: u128 = if v >= 0 {
        v as u128
    } else {
        (v as i128 + 0x1_0000_0000_0000_0000) as u128
    };
    put_be(out, u, 8);
}

pub fn put_u64(out: &mut Vec<u8>, v: u64)
    ensures
        final(out)@ == old(out)@ + enc_u64(v),
{
    put_be(out, v as u128, 8);
}

pub fn put_uuid(out: &mut Vec<u8>, u: u128)
    ensures
        final(out)@ == old(out)@ + enc_uuid(u),
{
    put_be(out, u, 16);
}

pub fn get_u8(buf: &[u8], pos: usize) -> (r: Option<(u8, usize)>)
    requires
        pos <= buf@.len(),
    ensures
        match read_u8(rest(buf@, pos as int)) {
            Some((v, n)) => r is Some && r.unwrap().0 == v && r.unwrap().1 == pos + n,
            None => r is None,
        },
{
    if pos < buf.len() {
        Some((buf[pos], pos + 1))
    } else {
        None
    }
}

pub fn get_bool(buf: &[u8], pos: usize) -> (r: Option<(bool, usize)>)
    requires
        pos <= buf@.len(),
    ensures
        match read_bool(rest(buf@, pos as int)) {
            Some((v, n)) => r is Some && r.unwrap().0 == v && r.unwrap().1 == pos + n,
            None => r is None,
        },
{
    if pos < buf.len() {
        Some((buf[pos] != 0, pos + 1))
    } else {
        None
    }
}

pub fn get_i16(buf: &[u8], pos: usize) -> (r: Option<(i16, usize)>)
    requires
        pos <= buf@.len(),
    ensures
        match read_i16(rest(buf@, pos as int)) {
            Some((v, n)) => r is Some && r.unwrap().0 == v && r.unwrap().1 == pos + n,
            None => r is None,
        },
{
    if buf.len() - pos >= 2 {
        let u = get_be(buf, pos, 2);
        proof {
            assert(rest(buf@, pos as int).take(2) =~= buf@.subrange(pos as int, pos + 2));
            lemma_be_value_bound(buf@.subrange(pos as int, pos + 2));
            lemma_pow256_values();
        }
        let v: i16 = if u >= 0x8000 {
            (u as i32 - 0x1_0000) as i16
        } else {
            u as i16
        };
        Some((v, pos + 2))
    } else {
        None
    }
}

pub fn get_i32(buf: &[u8], pos: usize) -> (r: Option<(i32, usize)>)
    requires
        pos <= buf@.len(),
    ensures
        match read_i32(rest(buf@, pos as int)) {
            Some((v, n)) => r is Some && r.unwrap().0 == v && r.unwrap().1 == pos + n,
            None => r is None,
        },
{
    if buf.len() - pos >= 4 {
        let u = get_be(buf, pos, 4);
        proof {
            assert(rest(buf@, pos as int).take(4) =~= buf@.subrange(pos as int, pos + 4));
            lemma_be_value_bound(buf@.subrange(pos as int, pos + 4));
            lemma_pow256_values();
        }
        let v: i32 = if u >= 0x8000_0000 {
            (u as i64 - 0x1_0000_0000) as i32
        } else {
            u as i32
        };
        Some((v, pos + 4))
    } else {
        None
    }
}

pub fn get_i64(buf: &[u8], pos: usize) -> (r: Option<(i64, usize)>)
    requires
        pos <= buf@.len(),
    ensures
        match read_i64(rest(buf@, pos as int)) {
            Some((v, n)) => r is Some && r.unwrap().0 == v && r.unwrap().1 == pos + n,
            None => r is None,
        },
{
    if buf.len() - pos >= 8 {
        let u = get_be(buf, pos, 8);
        proof {
            assert(rest(buf@, pos as int).take(8) =~= buf@.subrange(pos as int, pos + 8));
            lemma_be_value_bound(buf@.subrange(pos as int, pos + 8));
            lemma_pow256_values();
        }
        let v: i64 = if u >= 0x8000_0000_0000_0000 {
            (u as i128 - 0x1_0000_0000_0000_0000) as i64
        } else {
            u as i64
        };
        Some((v, pos + 8))
    } else {
        None
    }
}

pub fn get_uuid(buf: &[u8], pos: usize) -> (r: Option<(u128, usize)>)
    requires
        pos <= buf@.len(),
    ensures
        match read_uuid(rest(buf@, pos as int)) {
            Some((v, n)) => r is Some && r.unwrap().0 == v && r.unwrap().1 == pos + n,
            None => r is None,
        },
{
    if buf.len() - pos >= 16 {
        let u = get_be(buf, pos, 16);
        proof {
            assert(rest(buf@, pos as int).take(16) =~= buf@.subrange(pos as int, pos + 16));
        }
        Some((u, pos + 16))
    } else {
        None
    }
}


// ---------------------------------------------------------------------------
// VarInt: a 32-bit value in groups of 7 bits, least significant group first,
// the high bit of a byte set while more bytes follow; at most 5 bytes.
// ---------------------------------------------------------------------------

pub open spec fn pow128(n: nat) -> nat
    decreases n,
{
    if n == 0 {
        1
    } else {
        128 * pow128((n - 1) as nat)
    }
}

/// The VarInt encoding of `v`.
pub open spec fn varint_bytes(v: nat) -> Seq<u8>
    decreases v,
{
    if v < 128 {
        seq![v as u8]
    } else {
        seq![((v % 128) + 128) as u8] + varint_bytes(v / 128)
    }
}

/// The number that a sequence of VarInt groups denotes.
pub open spec fn varint_value(t: Seq<u8>) -> nat
    decreases t.len(),
{
    if t.len() == 0 {
        0
    } else {
        (t[0] % 128) as nat + 128 * varint_value(t.drop_first())
    }
}

/// The length of the VarInt at the start of `s`, looking from index `i`:
/// one past the first byte below 128, if that byte is among the first five.
pub open spec fn varint_len_from(s: Seq<u8>, i: nat) -> Option<nat>
    decreases 5 - i,
{
    if i >= 5 || i >= s.len() {
        None
    } else if s[i as int] < 128 {
        Some(i + 1)
    } else {
        varint_len_from(s, i + 1)
    }
}

/// Reads a VarInt; a value beyond 32 bits keeps its low 32 bits.
pub open spec fn read_varint(s: Seq<u8>) -> Option<(u32, nat)> {
    match varint_len_from(s, 0) {
        Some(n) => Some(((varint_value(s.take(n as int)) % 0x1_0000_0000) as u32, n)),
        None => None,
    }
}

pub open spec fn enc_varint(v: u32) -> Seq<u8> {
    varint_bytes(v as nat)
}

proof fn lemma_pow128_step(n: nat)
    ensures
        pow128(n + 1) == 128 * pow128(n),
        pow128(n) >= 1,
    decreases n,
{
    if n > 0 {
        lemma_pow128_step((n - 1) as nat);
    }
}

proof fn lemma_pow128_monotone(a: nat, b: nat)
    requires
        a <= b,
    ensures
        pow128(a) <= pow128(b),
    decreases b,
{
    if a < b {
        lemma_pow128_monotone(a, (b - 1) as nat);
        lemma_pow128_step((b - 1) as nat);
    }
}

proof fn lemma_varint_value_bound(t: Seq<u8>)
    ensures
        varint_value(t) < pow128(t.len()),
    decreases t.len(),
{
    if t.len() > 0 {
        let r = t.drop_first();
        lemma_varint_value_bound(r);
        lemma_pow128_step(r.len());
        let a = (t[0] % 128) as nat;
        let b = varint_value(r);
        assert(a + 128 * b < 128 * pow128(r.len())) by (nonlinear_arith)
            requires
                a < 128,
                b < pow128(r.len()),
        ;
    }
}

/// The shape of a VarInt encoding: every byte but the last has its high bit
/// set, the last does not, the groups denote the value, and a value below
/// `128^k` takes at most `k` bytes.
pub proof fn lemma_varint_bytes_shape(v: nat)
    ensures
        varint_bytes(v).len() >= 1,
        forall|j: int| 0 <= j < varint_bytes(v).len() - 1 ==> varint_bytes(v)[j] >= 128,
        varint_bytes(v).last() < 128,
        varint_value(varint_bytes(v)) == v,
        forall|k: nat| k >= 1 && v < #[trigger] pow128(k) ==> varint_bytes(v).len() <= k,
    decreases v,
{
    if v < 128 {
        assert(varint_bytes(v).drop_first() =~= Seq::<u8>::empty());
        assert(varint_value(Seq::<u8>::empty()) == 0);
    } else {
        let q = v / 128;
        lemma_varint_bytes_shape(q);
        let b = varint_bytes(v);
        assert(b.drop_first() =~= varint_bytes(q));
        assert forall|k: nat| k >= 1 && v < #[trigger] pow128(k) implies varint_bytes(v).len()
            <= k by {
            if k == 1 {
                assert(pow128(1) == 128 * pow128(0));
            } else {
                lemma_pow128_step((k - 1) as nat);
                assert(q < pow128((k - 1) as nat)) by (nonlinear_arith)
                    requires
                        v < 128 * pow128((k - 1) as nat),
                        q == v / 128,
                ;
            }
        }
    }
}

proof fn lemma_varint_len_from_prefix(b: Seq<u8>, s: Seq<u8>, i: nat)
    requires
        1 <= b.len() <= 5,
        i < b.len(),
        forall|j: int| 0 <= j < b.len() - 1 ==> b[j] >= 128,
        b.last() < 128,
        b.len() <= s.len(),
        s.take(b.len() as int) == b,
    ensures
        varint_len_from(s, i) == Some(b.len()),
    decreases b.len() - i,
{
    assert(s[i as int] == b[i as int]);
    if i + 1 < b.len() {
        lemma_varint_len_from_prefix(b, s, i + 1);
    }
}

/// Reading a VarInt that was written, whatever follows it, gives back the
/// value and consumes exactly the encoding.
pub proof fn lemma_varint_roundtrip(v: u32, tail: Seq<u8>)
    ensures
        read_varint(enc_varint(v) + tail) == Some((v, enc_varint(v).len())),
        enc_varint(v).len() <= 5,
{
    let b = varint_bytes(v as nat);
    lemma_varint_bytes_shape(v as nat);
    assert(pow128(5) == 0x8_0000_0000) by {
        reveal_with_fuel(pow128, 6);
    }
    let s = b + tail;
    assert(s.take(b.len() as int) =~= b);
    lemma_varint_len_from_prefix(b, s, 0);
}

pub fn put_varint(out: &mut Vec<u8>, v: u32)
    ensures
        final(out)@ == old(out)@ + enc_varint(v),
{
    let mut x: u32 = v;
    let ghost target = old(out)@ + varint_bytes(v as nat);
    while x >= 128
        invariant
            out@ + varint_bytes(x as nat) == target,
        decreases x,
    {
        let byte: u8 = ((x % 128) + 128) as u8;
        proof {
            let before = out@;
            assert(varint_bytes(x as nat) == seq![byte] + varint_bytes((x / 128) as nat));
            assert(before + varint_bytes(x as nat) =~= before.push(byte) + varint_bytes(
                (x / 128) as nat,
            ));
        }
        out.push(byte);
        x = x / 128;
    }
    proof {
        assert(varint_bytes(x as nat) == seq![x as u8]);
        assert(out@ + varint_bytes(x as nat) =~= out@.push(x as u8));
    }
    out.push(x as u8);
}

/// A VarInt found in `s` lies within `s` and takes at most five bytes.
pub proof fn lemma_varint_len_bound(s: Seq<u8>, i: nat)
    ensures
        varint_len_from(s, i) matches Some(n) ==> i < n <= s.len() && n <= 5,
    decreases 5 - i,
{
    if i < 5 && i < s.len() && s[i as int] >= 128 {
        lemma_varint_len_bound(s, i + 1);
    }
}

proof fn lemma_varint_len_from_step(s: Seq<u8>, i: nat)
    requires
        i < 5,
        i < s.len(),
        s[i as int] >= 128,
    ensures
        varint_len_from(s, i) == varint_len_from(s, i + 1),
{
}

pub fn get_varint(buf: &[u8], pos: usize) -> (r: Option<(u32, usize)>)
    requires
        pos <= buf@.len(),
    ensures
        match read_varint(rest(buf@, pos as int)) {
            Some((v, n)) => r is Some && r.unwrap().0 == v && r.unwrap().1 == pos + n,
            None => r is None,
        },
{
    let ghost s = rest(buf@, pos as int);
    let len = buf.len();
    let mut i: usize = 0;
    let mut n: usize = 0;
    while n == 0 && i < 5 && i < len - pos
        invariant
            i <= 5,
            pos <= len,
            len == buf@.len(),
            s == rest(buf@, pos as int),
            n == 0 ==> varint_len_from(s, 0) == varint_len_from(s, i as nat),
            n != 0 ==> varint_len_from(s, 0) == Some(n as nat) && 1 <= n <= 5 && pos + n <= len,
        decreases 5 - i + (if n == 0 {
            1int
        } else {
            0int
        }),
    {
        if buf[pos + i] < 128 {
            n = i + 1;
        } else {
            proof {
                lemma_varint_len_from_step(s, i as nat);
            }
            i = i + 1;
        }
    }
    if n == 0 {
        return None;
    }
    let mut acc: u64 = 0;
    let mut j: usize = n;
    proof {
        assert(s.subrange(n as int, n as int) =~= Seq::<u8>::empty());
        assert(pow128(5) == 0x8_0000_0000) by {
            reveal_with_fuel(pow128, 6);
        }
    }
    while j > 0
        invariant
            j <= n,
            n <= 5,
            pos + n <= len,
            len == buf@.len(),
            s == rest(buf@, pos as int),
            acc as nat == varint_value(s.subrange(j as int, n as int)),
            acc < pow128((n - j) as nat),
            pow128(5) == 0x8_0000_0000,
        decreases j,
    {
        proof {
            let t = s.subrange(j - 1, n as int);
            assert(t.drop_first() =~= s.subrange(j as int, n as int));
            assert(t[0] == buf@[pos + j - 1]);
            lemma_pow128_step((n - j) as nat);
            lemma_pow128_monotone((n - j + 1) as nat, 5);
        }
        j = j - 1;
        acc = acc * 128 + (buf[pos + j] % 128) as u64;
    }
    proof {
        assert(s.subrange(0, n as int) =~= s.take(n as int));
    }
    Some(((acc % 0x1_0000_0000) as u32, pos + n))
}


// ---------------------------------------------------------------------------
// Length-prefixed byte arrays and UTF-8 strings
// ---------------------------------------------------------------------------

/// A length as the VarInt field carries it: the low 32 bits of the count.
pub open spec fn len_field(n: nat) -> nat {
    n % 0x1_0000_0000
}

/// A byte array: its length as a VarInt, then the bytes.
pub open spec fn enc_byte_array(b: Seq<u8>) -> Seq<u8> {
    varint_bytes(len_field(b.len())) + b
}

/// A string: the length of its UTF-8 encoding as a VarInt, then the encoding.
pub open spec fn enc_string(s: Seq<char>) -> Seq<u8> {
    enc_byte_array(encode_utf8(s))
}

/// Reads a byte array; a negative or overlong length is refused.
pub open spec fn read_byte_array(s: Seq<u8>) -> Option<(Seq<u8>, nat)> {
    match read_varint(s) {
        Some((l, n)) => if u32_is_negative_i32(l) || n + l > s.len() {
            None
        } else {
            Some((s.subrange(n as int, n + l), (n + l) as nat))
        },
        None => None,
    }
}

/// Reads a string; bytes that are not UTF-8 are refused.
pub open spec fn read_string(s: Seq<u8>) -> Option<(Seq<char>, nat)> {
    match read_byte_array(s) {
        Some((b, n)) => if valid_utf8(b) {
            Some((decode_utf8(b), n))
        } else {
            None
        },
        None => None,
    }
}

/// Wraps `String::from_utf8` of std: the bytes become a string exactly when
/// they are valid UTF-8, and the string holds the characters they encode.
#[verifier::external_body]
fn string_from_utf8(bytes: Vec<u8>) -> (r: Option<String>)
    ensures
        match r {
            Some(s) => valid_utf8(bytes@) && s@ == decode_utf8(bytes@),
            None => !valid_utf8(bytes@),
        },
{
    match String::from_utf8(bytes) {
        Ok(s) => Some(s),
        Err(_) => None,
    }
}

pub fn put_byte_array(out: &mut Vec<u8>, data: &[u8])
    ensures
        final(out)@ == old(out)@ + enc_byte_array(data@),
{
    let n = data.len() as u64;
    put_varint(out, (n % 0x1_0000_0000) as u32);
    let ghost mid = out@;
    out.extend_from_slice(data);
    assert(out@ =~= mid + data@);
}

pub fn put_string(out: &mut Vec<u8>, s: &str)
    ensures
        final(out)@ == old(out)@ + enc_string(s@),
{
    put_byte_array(out, s.as_bytes());
}

pub fn get_byte_array(buf: &[u8], pos: usize) -> (r: Option<(Vec<u8>, usize)>)
    requires
        pos <= buf@.len(),
    ensures
        match read_byte_array(rest(buf@, pos as int)) {
            Some((b, n)) => r is Some && r.unwrap().0@ == b && r.unwrap().1 == pos + n,
            None => r is None,
        },
{
    proof {
        lemma_varint_len_bound(rest(buf@, pos as int), 0);
    }
    match get_varint(buf, pos) {
        None => None,
        Some((l, p)) => {
            if l >= 0x8000_0000 || (l as usize) > buf.len() - p {
                None
            } else {
                let end = p + l as usize;
                let bytes = vstd::slice::slice_to_vec(vstd::slice::slice_subrange(buf, p, end));
                proof {
                    let s = rest(buf@, pos as int);
                    let n = (p - pos) as nat;
                    assert(s.subrange(n as int, n + l) =~= buf@.subrange(p as int, end as int));
                }
                Some((bytes, end))
            }
        },
    }
}

pub fn get_string(buf: &[u8], pos: usize) -> (r: Option<(String, usize)>)
    requires
        pos <= buf@.len(),
    ensures
        match read_string(rest(buf@, pos as int)) {
            Some((c, n)) => r is Some && r.unwrap().0@ == c && r.unwrap().1 == pos + n,
            None => r is None,
        },
{
    match get_byte_array(buf, pos) {
        None => None,
        Some((bytes, p)) => match string_from_utf8(bytes) {
            Some(s) => Some((s, p)),
            None => None,
        },
    }
}


// ---------------------------------------------------------------------------
// Reading back what was written
// ---------------------------------------------------------------------------

proof fn lemma_take_prefix(a: Seq<u8>, tail: Seq<u8>)
    ensures
        (a + tail).take(a.len() as int) == a,
{
    assert((a + tail).take(a.len() as int) =~= a);
}

/// A written byte reads back, whatever follows it.
pub proof fn lemma_u8_roundtrip(b: u8, tail: Seq<u8>)
    ensures
        read_u8(enc_u8(b) + tail) == Some((b, 1nat)),
{
    assert((enc_u8(b) + tail)[0] == b);
}

/// A written boolean reads back, whatever follows it.
pub proof fn lemma_bool_roundtrip(b: bool, tail: Seq<u8>)
    ensures
        read_bool(enc_bool(b) + tail) == Some((b, 1nat)),
{
    assert((enc_bool(b) + tail)[0] == bool_byte(b));
}

/// A written `i16` reads back, whatever follows it.
pub proof fn lemma_i16_roundtrip(v: i16, tail: Seq<u8>)
    ensures
        read_i16(enc_i16(v) + tail) == Some((v, 2nat)),
{
    lemma_pow256_values();
    lemma_be_bytes_len(u_of_i16(v), 2);
    lemma_be_roundtrip(u_of_i16(v), 2);
    lemma_take_prefix(enc_i16(v), tail);
}

/// A written `i32` reads back, whatever follows it.
pub proof fn lemma_i32_roundtrip(v: i32, tail: Seq<u8>)
    ensures
        read_i32(enc_i32(v) + tail) == Some((v, 4nat)),
{
    lemma_pow256_values();
    lemma_be_bytes_len(u_of_i32(v), 4);
    lemma_be_roundtrip(u_of_i32(v), 4);
    lemma_take_prefix(enc_i32(v), tail);
}

/// A written `i64` reads back, whatever follows it.
pub proof fn lemma_i64_roundtrip(v: i64, tail: Seq<u8>)
    ensures
        read_i64(enc_i64(v) + tail) == Some((v, 8nat)),
{
    lemma_pow256_values();
    lemma_be_bytes_len(u_of_i64(v), 8);
    lemma_be_roundtrip(u_of_i64(v), 8);
    lemma_take_prefix(enc_i64(v), tail);
}

/// A written UUID reads back, whatever follows it.
pub proof fn lemma_uuid_roundtrip(u: u128, tail: Seq<u8>)
    ensures
        read_uuid(enc_uuid(u) + tail) == Some((u, 16nat)),
{
    lemma_pow256_values();
    lemma_be_bytes_len(u as nat, 16);
    lemma_be_roundtrip(u as nat, 16);
    lemma_take_prefix(enc_uuid(u), tail);
}

/// A written byte array reads back, whatever follows it, when its length
/// is below `2^31` (the length field is a signed 32-bit number).
pub proof fn lemma_byte_array_roundtrip(b: Seq<u8>, tail: Seq<u8>)
    requires
        b.len() < 0x8000_0000,
    ensures
        read_byte_array(enc_byte_array(b) + tail) == Some((b, enc_byte_array(b).len())),
{
    let l = b.len() as u32;
    assert(len_field(b.len()) == l as nat);
    let h = enc_varint(l);
    lemma_varint_roundtrip(l, b + tail);
    let s = enc_byte_array(b) + tail;
    assert(s =~= h + (b + tail));
    assert(s.subrange(h.len() as int, h.len() + l) =~= b);
}

/// A written string reads back, whatever follows it, when its UTF-8
/// encoding is shorter than `2^31` bytes.
pub proof fn lemma_string_roundtrip(c: Seq<char>, tail: Seq<u8>)
    requires
        encode_utf8(c).len() < 0x8000_0000,
    ensures
        read_string(enc_string(c) + tail) == Some((c, enc_string(c).len())),
{
    lemma_byte_array_roundtrip(encode_utf8(c), tail);
    vstd::utf8::encode_utf8_valid_utf8(c);
    vstd::utf8::encode_utf8_decode_utf8(c);
}


/// Encoding the number that a byte sequence denotes, in as many bytes,
/// gives back the sequence.
pub proof fn lemma_be_bytes_inverse(b: Seq<u8>)
    ensures
        be_bytes(be_value(b), b.len()) == b,
    decreases b.len(),
{
    if b.len() > 0 {
        let d = b.drop_last();
        lemma_be_bytes_inverse(d);
        let v = be_value(b);
        assert(v / 256 == be_value(d));
        assert(v % 256 == b.last());
        assert(be_bytes(v, b.len()) =~= d.push(b.last()));
        assert(d.push(b.last()) =~= b);
    } else {
        assert(b =~= Seq::<u8>::empty());
    }
}

} // verus!
