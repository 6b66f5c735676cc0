//! Varints
//!
//! Prefix bits of the first byte signal the length of the integer value
//! which follows:
//!
//! | Prefix     | Precision | Total Bytes |
//! |------------|-----------|-------------|
//! | `xxxxxxx1` | 7 bits    | 1 byte      |
//! | `xxxxxx10` | 14 bits   | 2 bytes     |
//! | `xxxxx100` | 21 bits   | 3 bytes     |
//! | `xxxx1000` | 28 bits   | 4 bytes     |
//! | `xxx10000` | 35 bits   | 5 bytes     |
//! | `xx100000` | 42 bits   | 6 bytes     |
//! | `x1000000` | 49 bits   | 7 bytes     |
//! | `10000000` | 56 bits   | 8 bytes     |
//! | `00000000` | 64 bits   | 9 bytes     |
//!
//! A value is never encoded with more than `size_of::<usize>() + 1` bytes:
//! at that length the header byte carries no value bits, and all bytes of
//! the `usize` follow it. The encoding is not meant to be portable between
//! platforms of different pointer sizes.
use vstd::arithmetic::div_mod::lemma_mod_breakdown;
use vstd::arithmetic::power2::{
    lemma2_to64, lemma2_to64_rest, lemma_pow2_adds, lemma_pow2_pos,
    lemma_pow2_strictly_increases, pow2,
};
use vstd::bits::{lemma_u64_shl_is_mul, lemma_u64_shr_is_div};
use vstd::layout::size_of;
use vstd::prelude::*;
use vstd::std_specs::bits::{axiom_u8_trailing_zeros, u8_trailing_zeros};

verus! {

broadcast use vstd::layout::layout_of_primitives;

/// The number of bytes of a `usize`.
pub open spec fn usize_bytes() -> nat {
    size_of::<usize>()
}

/// A `usize` takes four or eight bytes.
pub proof fn lemma_usize_bytes()
    ensures
        usize_bytes() == 4 || usize_bytes() == 8,
{
}

/// The little-endian value of a byte sequence.
pub open spec fn from_le(s: Seq<u8>) -> nat
    decreases s.len(),
{
    if s.len() == 0 {
        0
    } else {
        (from_le(s.drop_last()) + s.last() * pow2((8 * (s.len() - 1)) as nat)) as nat
    }
}

/// The `n` low bytes of `x`, least significant first.
pub open spec fn le_bytes(x: u64, n: nat) -> Seq<u8> {
    Seq::new(n, |i: int| ((x >> ((8 * i) as u64)) & 0xffu64) as u8)
}

/// `value` with a one bit appended below it, shifted up by `length - 1`:
/// its lowest set bit, at `length - 1`, tells the encoded length.
pub open spec fn tagged(value: u64, length: nat) -> u64 {
    ((value << 1u64) | 1u64) << ((length - 1) as u64)
}

/// The header byte used when all bytes of the `usize` follow it.
pub open spec fn spec_max_size_header() -> u8 {
    ((1u64 << (usize_bytes() as u64)) & 0xffu64) as u8
}

/// `value` can be encoded with `length` bytes.
pub open spec fn fits_in(value: usize, length: nat) -> bool {
    ||| length == usize_bytes() + 1
    ||| 1 <= length <= usize_bytes() && (value as nat) < pow2(7 * length)
}

/// The fewest bytes, `n` or more, with which `value` can be encoded.
pub open spec fn shortest_from(value: usize, n: nat) -> nat
    decreases usize_bytes() + 1 - n,
{
    if n >= usize_bytes() + 1 || fits_in(value, n) {
        n
    } else {
        shortest_from(value, n + 1)
    }
}

/// The fewest bytes with which `value` can be encoded.
pub open spec fn spec_encoded_len(value: usize) -> nat {
    shortest_from(value, 1)
}

/// The encoding of `value` with `length` bytes.
pub open spec fn spec_encode(value: usize, length: nat) -> Seq<u8> {
    if length == usize_bytes() + 1 {
        seq![spec_max_size_header()] + le_bytes(value as u64, usize_bytes())
    } else {
        le_bytes(tagged(value as u64, length), length)
    }
}

/// The encoded length announced by a header byte.
pub open spec fn spec_decoded_len(byte: u8) -> nat {
    (u8_trailing_zeros(byte) + 1) as nat
}

/// The value encoded at the start of `input`.
pub open spec fn spec_decode(input: Seq<u8>) -> nat {
    let length = spec_decoded_len(input[0]);
    if length >= usize_bytes() + 1 {
        from_le(input.subrange(1, (usize_bytes() + 1) as int))
    } else {
        from_le(input.take(length as int)) / pow2(length)
    }
}

/// Shifting right by `k` leaves nothing exactly when the value is below `2^k`.
proof fn lemma_shr_zero(v: u64, k: u64)
    requires
        k < 64,
    ensures
        (v >> k) == v as nat / pow2(k as nat),
        (v >> k) == 0 <==> (v as nat) < pow2(k as nat),
{
    lemma_u64_shr_is_div(v, k);
    lemma_pow2_pos(k as nat);
    let d = pow2(k as nat) as int;
    let q = (v >> k) as int;
    assert(q == 0 <==> (v as int) < d) by (nonlinear_arith)
        requires
            d > 0,
            v >= 0,
            q == (v as int) / d,
    ;
}

/// Little-endian bytes decode back to the value, reduced modulo `2^(8n)`.
proof fn lemma_from_le_bytes(x: u64, n: nat)
    requires
        n <= 8,
    ensures
        from_le(le_bytes(x, n)) == (x as nat) % pow2(8 * n),
    decreases n,
{
    if n == 0 {
        assert(le_bytes(x, 0) =~= Seq::<u8>::empty());
        assert(pow2(0) == 1) by {
            lemma2_to64();
        }
    } else {
        let k = (n - 1) as nat;
        lemma_from_le_bytes(x, k);
        assert(le_bytes(x, n).drop_last() =~= le_bytes(x, k));
        let sh = (8 * k) as u64;
        let y = x >> sh;
        assert(y & 0xffu64 == y % 256) by (bit_vector);
        lemma_shr_zero(x, sh);
        lemma_pow2_pos(8 * k);
        lemma2_to64();
        lemma_pow2_adds(8 * k, 8);
        assert(pow2(8 * k) * pow2(8) == pow2(8 * n));
        lemma_mod_breakdown(x as int, pow2(8 * k) as int, 256);
        assert(le_bytes(x, n).last() == (y % 256) as u8);
        assert((x as nat) % pow2(8 * n) == pow2(8 * k) * ((x as nat / pow2(8 * k)) % 256) + (
        x as nat) % pow2(8 * k));
    }
}

/// A value below `2^(8n)` is its own residue.
proof fn lemma_small_residue(x: nat, n: nat)
    requires
        x < pow2(8 * n),
    ensures
        x % pow2(8 * n) == x,
{
    vstd::arithmetic::div_mod::lemma_small_mod(x, pow2(8 * n));
}

/// The bits of a tagged value: it fits in `length` bytes, shifting out the
/// tag gives the value back, and its low byte has its lowest set bit at
/// `length - 1`.
proof fn lemma_tagged_bits(v: u64, len: u64, k7: u64, j: u8)
    requires
        1 <= len <= 8,
        k7 == 7 * len,
        v >> k7 == 0,
    ensures
        len < 8 ==> tagged(v, len as nat) >> ((8 * len) as u64) == 0,
        tagged(v, len as nat) >> len == v,
        ((((tagged(v, len as nat) >> 0u64) & 0xffu64) as u8) >> ((len - 1) as u8)) & 1u8 == 1u8,
        j < len - 1 ==> ((((tagged(v, len as nat) >> 0u64) & 0xffu64) as u8) >> j) & 1u8 == 0u8,
{
    let lm1 = (len - 1) as u64;
    let lb = (len - 1) as u8;
    let k8 = (8 * len) as u64;
    assert(tagged(v, len as nat) == ((v << 1u64) | 1u64) << lm1);
    assert(len < 8 ==> ((((v << 1u64) | 1u64) << lm1) >> k8) == 0) by (bit_vector)
        requires
            1 <= len <= 8,
            lm1 + 1 == len,
            k7 == 7 * len,
            k8 == 8 * len,
            v >> k7 == 0,
    ;
    assert(((((v << 1u64) | 1u64) << lm1) >> len) == v) by (bit_vector)
        requires
            1 <= len <= 8,
            lm1 + 1 == len,
            k7 == 7 * len,
            v >> k7 == 0,
    ;
    assert(((((((v << 1u64) | 1u64) << lm1) >> 0u64) & 0xffu64) as u8 >> lb) & 1u8 == 1u8)
        by (bit_vector)
        requires
            1 <= len <= 8,
            lm1 + 1 == len,
            lb as u64 == lm1,
    ;
    assert(j < lb ==> ((((((v << 1u64) | 1u64) << lm1) >> 0u64) & 0xffu64) as u8 >> j) & 1u8
        == 0u8) by (bit_vector)
        requires
            1 <= len <= 8,
            lm1 + 1 == len,
            lb as u64 == lm1,
    ;
}

/// A byte whose lowest set bit is bit `t` has `t` trailing zeros.
proof fn lemma_trailing_zeros_at(b: u8, t: u8)
    requires
        t < 8,
        (b >> t) & 1u8 == 1u8,
        forall|j: u8| j < t ==> #[trigger] ((b >> j) & 1u8) == 0u8,
    ensures
        u8_trailing_zeros(b) == t,
{
    axiom_u8_trailing_zeros(b);
    assert((b >> t) & 1u8 == 1u8 ==> b != 0) by (bit_vector);
    let z = u8_trailing_zeros(b);
    if z < t as u32 {
        assert(((b >> (z as u8)) & 1u8) == 0u8);
    } else if z > t as u32 {
        assert(((b >> t) & 1u8) == 0u8);
    }
}

/// The full-width header byte announces `size_of::<usize>() + 1` bytes.
proof fn lemma_max_size_header()
    ensures
        spec_decoded_len(spec_max_size_header()) == usize_bytes() + 1,
{
    if usize_bytes() == 8 {
        assert(((1u64 << 8u64) & 0xffu64) as u8 == 0u8) by (bit_vector);
        axiom_u8_trailing_zeros(0u8);
    } else {
        assert(usize_bytes() == 4);
        assert(((1u64 << 4u64) & 0xffu64) as u8 == 16u8) by (bit_vector);
        assert((16u8 >> 4u8) & 1u8 == 1u8) by (bit_vector);
        assert forall|j: u8| j < 4u8 implies #[trigger] ((16u8 >> j) & 1u8) == 0u8 by {
            assert(j < 4u8 ==> ((16u8 >> j) & 1u8) == 0u8) by (bit_vector);
        }
        lemma_trailing_zeros_at(16u8, 4u8);
    }
}

/// Decoding an encoding gives the value back, whatever follows it, and the
/// first byte announces the length that was used.
pub proof fn lemma_vusize_roundtrip(value: usize, length: nat, rest: Seq<u8>)
    requires
        fits_in(value, length),
    ensures
        spec_encode(value, length).len() == length,
        spec_decoded_len(spec_encode(value, length)[0]) == length,
        spec_decode(spec_encode(value, length) + rest) == value,
{
    let s = usize_bytes();
    let enc = spec_encode(value, length);
    let all = enc + rest;
    lemma2_to64();
    lemma2_to64_rest();
    if length == s + 1 {
        lemma_max_size_header();
        assert(all[0] == spec_max_size_header());
        assert(all.subrange(1, (s + 1) as int) =~= le_bytes(value as u64, s));
        lemma_from_le_bytes(value as u64, s);
        assert((value as nat) < pow2(8 * s)) by {
            if s == 8 {
                assert(pow2(64) == 0x1_0000_0000_0000_0000);
            } else {
                assert(pow2(32) == 0x1_0000_0000);
            }
        }
        lemma_small_residue(value as nat, s);
    } else {
        let v = value as u64;
        let len = length as u64;
        let k7 = (7 * len) as u64;
        let t = tagged(v, length);
        lemma_shr_zero(v, k7);
        lemma_tagged_bits(v, len, k7, 0u8);
        let b = ((t >> 0u64) & 0xffu64) as u8;
        assert(enc[0] == b);
        assert forall|j: u8| j < ((len - 1) as u8) implies #[trigger] ((b >> j) & 1u8)
            == 0u8 by {
            lemma_tagged_bits(v, len, k7, j);
        }
        lemma_trailing_zeros_at(b, (len - 1) as u8);
        assert(all.take(length as int) =~= enc);
        lemma_from_le_bytes(t, length);
        if length < 8 {
            lemma_shr_zero(t, (8 * len) as u64);
        } else {
            assert(pow2(64) == 0x1_0000_0000_0000_0000);
        }
        lemma_small_residue(t as nat, length);
        lemma_shr_zero(t, len);
    }
}

/// The header byte used when all bytes of the `usize` follow it.
fn max_size_header() -> (h: u8)
    ensures
        h == spec_max_size_header(),
{
    ((1u64 << (core::mem::size_of::<usize>() as u64)) & 0xff) as u8
}

/// Get the length of an encoded `usize` for the given value in bytes: the
/// fewest bytes that `value` fits in.
pub fn encoded_len(value: usize) -> (n: usize)
    ensures
        n == spec_encoded_len(value),
        1 <= n <= usize_bytes() + 1,
        fits_in(value, n as nat),
        n > 1 ==> !fits_in(value, (n - 1) as nat),
{
    let s = core::mem::size_of::<usize>();
    let v = value as u64;
    let mut n: usize = 1;
    proof {
        lemma2_to64();
    }
    while n <= s && (v >> (7 * n) as u64) != 0
        invariant
            1 <= n <= s + 1,
            s == usize_bytes(),
            s == 4 || s == 8,
            v == value,
            n > 1 ==> (v as nat) >= pow2((7 * (n - 1)) as nat),
            spec_encoded_len(value) == shortest_from(value, n as nat),
        decreases s + 1 - n,
    {
        proof {
            lemma_shr_zero(v, (7 * n) as u64);
            assert(!fits_in(value, n as nat));
        }
        n = n + 1;
    }
    proof {
        if n <= s {
            lemma_shr_zero(v, (7 * n) as u64);
            assert(fits_in(value, n as nat));
        }
        if n > 1 {
            let m = (n - 1) as nat;
            if m >= 2 {
                lemma_pow2_strictly_increases((7 * (m - 1)) as nat, 7 * m);
            }
        }
    }
    n
}

/// Encode the given usize to the `slice`, using `length` bytes for encoding.
///
/// `slice` must hold at least `length` bytes, and `length` must be at least
/// `encoded_len(value)` and at most `size_of::<usize>() + 1`. Bytes of
/// `slice` past `length` are kept.
pub fn encode_usize_to_slice(value: usize, length: usize, slice: &mut [u8])
    requires
        fits_in(value, length as nat),
        length <= old(slice)@.len(),
    ensures
        final(slice)@.len() == old(slice)@.len(),
        final(slice)@.subrange(0, length as int) == spec_encode(value, length as nat),
        final(slice)@.subrange(length as int, old(slice)@.len() as int) == old(slice)@.subrange(
            length as int,
            old(slice)@.len() as int,
        ),
{
    let s = core::mem::size_of::<usize>();
    let ghost old_s = slice@;
    if length >= s + 1 {
        slice[0] = max_size_header();
        let v = value as u64;
        let mut i: usize = 0;
        while i < s
            invariant
                s == usize_bytes(),
                s == 4 || s == 8,
                length == s + 1,
                length <= old_s.len(),
                i <= s,
                slice@.len() == old_s.len(),
                slice@[0] == spec_max_size_header(),
                forall|k: int| 0 <= k < i ==> slice@[1 + k] == le_bytes(v, s as nat)[k],
                forall|k: int| length <= k < old_s.len() ==> slice@[k] == old_s[k],
            decreases s - i,
        {
            slice[1 + i] = ((v >> (8 * i) as u64) & 0xff) as u8;
            i = i + 1;
        }
        assert(slice@.subrange(0, length as int) =~= spec_encode(value, length as nat));
    } else {
        let v = value as u64;
        let t = ((v << 1) | 1) << (length - 1) as u64;
        assert(t == tagged(v, length as nat));
        let mut i: usize = 0;
        while i < length
            invariant
                s == usize_bytes(),
                length <= s,
                1 <= length,
                i <= length,
                length <= old_s.len(),
                t == tagged(v, length as nat),
                v == value,
                slice@.len() == old_s.len(),
                forall|k: int| 0 <= k < i ==> slice@[k] == le_bytes(t, length as nat)[k],
                forall|k: int| length <= k < old_s.len() ==> slice@[k] == old_s[k],
            decreases length - i,
        {
            slice[i] = ((t >> (8 * i) as u64) & 0xff) as u8;
            i = i + 1;
        }
        assert(slice@.subrange(0, length as int) =~= spec_encode(value, length as nat));
    }
    assert(slice@.subrange(length as int, old_s.len() as int) =~= old_s.subrange(
        length as int,
        old_s.len() as int,
    ));
}

/// Determine the size of the encoded value (in bytes) based on the
/// encoded header
pub fn decoded_len(byte: u8) -> (n: usize)
    ensures
        n == spec_decoded_len(byte),
{
    byte.trailing_zeros() as usize + 1
}

/// The little-endian value of `input[start .. start + n]`.
fn le_value(input: &[u8], start: usize, n: usize) -> (r: u64)
    requires
        n <= 8,
        start + n <= input@.len(),
    ensures
        r == from_le(input@.subrange(start as int, start + n)),
        (r as nat) < pow2(8 * n as nat),
{
    let _len = input.len();
    let mut acc: u64 = 0;
    let mut i: usize = 0;
    proof {
        lemma2_to64();
        lemma2_to64_rest();
        assert(input@.subrange(start as int, start as int) =~= Seq::<u8>::empty());
    }
    while i < n
        invariant
            n <= 8,
            i <= n,
            start + n <= input@.len(),
            input@.len() <= usize::MAX,
            acc == from_le(input@.subrange(start as int, start + i)),
            (acc as nat) < pow2(8 * i as nat),
        decreases n - i,
    {
        let b = input[start + i] as u64;
        proof {
            lemma_pow2_pos(8 * i as nat);
            lemma_pow2_adds(8 * i as nat, 8);
            lemma2_to64();
            lemma2_to64_rest();
            if i < 7 {
                lemma_pow2_strictly_increases(8 * i as nat, 56);
            }
            assert(b * pow2(8 * i as nat) <= 255 * pow2(56)) by (nonlinear_arith)
                requires
                    b <= 255,
                    pow2(8 * i as nat) <= pow2(56),
            ;
            lemma_u64_shl_is_mul(b, (8 * i) as u64);
            assert(acc + b * pow2(8 * i as nat) < 256 * pow2(8 * i as nat)) by (nonlinear_arith)
                requires
                    b <= 255,
                    acc < pow2(8 * i as nat),
            ;
            assert(input@.subrange(start as int, start + i + 1).drop_last() =~= input@.subrange(
                start as int,
                start + i,
            ));
        }
        acc = acc + (b << (8 * i) as u64);
        i = i + 1;
    }
    acc
}

/// Decode an encoded usize.
///
/// `input` must hold the whole encoding, whose length the first byte
/// announces, and that length must be at most `size_of::<usize>() + 1`.
pub fn decode_usize(input: &[u8]) -> (r: usize)
    requires
        input@.len() >= 1,
        spec_decoded_len(input@[0]) <= input@.len(),
        spec_decoded_len(input@[0]) <= usize_bytes() + 1,
    ensures
        r == spec_decode(input@),
{
    let length = decoded_len(input[0]);
    let s = core::mem::size_of::<usize>();
    proof {
        lemma2_to64();
        lemma2_to64_rest();
    }
    if length >= s + 1 {
        let acc = le_value(input, 1, s);
        proof {
            if s == 8 {
                assert(pow2(64) == 0x1_0000_0000_0000_0000);
            } else {
                assert(pow2(32) == 0x1_0000_0000);
            }
        }
        acc as usize
    } else {
        let acc = le_value(input, 0, length);
        assert(input@.subrange(0, length as int) =~= input@.take(length as int));
        proof {
            lemma_shr_zero(acc, length as u64);
            lemma_pow2_pos(length as nat);
            if s == 8 {
                assert(pow2(64) == 0x1_0000_0000_0000_0000);
            } else {
                assert(pow2(32) == 0x1_0000_0000);
                if 8 * length < 32 {
                    lemma_pow2_strictly_increases(8 * length as nat, 32);
                }
            }
            assert((acc as nat) / pow2(length as nat) <= acc as nat) by (nonlinear_arith)
                requires
                    pow2(length as nat) > 0,
            ;
        }
        (acc >> length as u64) as usize
    }
}

} // verus!
