//! The integers of the wire format: fixed-width little-endian integers and
//! compact integers.

use vstd::prelude::*;
use vstd::slice::slice_subrange;

verus! {

/// The `n` low-order bytes of `v`, least significant first.
pub open spec fn le_bytes(v: nat, n: nat) -> Seq<u8>
    decreases n,
{
    if n == 0 {
        Seq::empty()
    } else {
        seq![(v % 256) as u8] + le_bytes(v / 256, (n - 1) as nat)
    }
}

/// The number that `s` spells, least significant byte first.
pub open spec fn le_value(s: Seq<u8>) -> nat
    decreases s.len(),
{
    if s.len() == 0 {
        0
    } else {
        s[0] as nat + 256 * le_value(s.skip(1))
    }
}

/// How many bytes it takes to write `v`: one for zero.
pub open spec fn byte_len(v: nat) -> nat
    decreases v,
{
    if v < 256 {
        1
    } else {
        1 + byte_len(v / 256)
    }
}

/// The compact encoding of `v`.
///
/// The two low-order bits of the first byte give the mode. In modes 0, 1
/// and 2 the number, which must be less than 2^6, 2^14 or 2^30, is
/// multiplied by four, the mode is added, and the result is written in 1, 2
/// or 4 bytes. In mode 3 the upper six bits of the first byte give the
/// number of bytes that follow, less four, and those bytes are the number,
/// written with as few bytes as it takes. The least mode that fits is used.
#[verifier::opaque]
pub open spec fn compact(v: nat) -> Seq<u8> {
    if v < 0x40 {
        seq![(4 * v) as u8]
    } else if v < 0x4000 {
        le_bytes(4 * v + 1, 2)
    } else if v < 0x4000_0000 {
        le_bytes(4 * v + 2, 4)
    } else {
        seq![(4 * (byte_len(v) - 4) + 3) as u8] + le_bytes(v, byte_len(v))
    }
}

/// Reading a number of `n` bytes from the front of `s`: the number and `n`,
/// or `None` if `s` is shorter.
pub open spec fn parse_le(s: Seq<u8>, n: nat) -> Option<(nat, int)> {
    if s.len() >= n {
        Some((le_value(s.take(n as int)), n as int))
    } else {
        None
    }
}

/// Reading a compact integer from the front of `s`: the number and the
/// length of its encoding, or `None` if `s` does not begin with the compact
/// encoding of a number below 2^128.
#[verifier::opaque]
pub open spec fn parse_compact(s: Seq<u8>) -> Option<(u128, int)> {
    if exists|v: u128| (#[trigger] compact(v as nat)).is_prefix_of(s) {
        let v = choose|v: u128| (#[trigger] compact(v as nat)).is_prefix_of(s);
        Some((v, compact(v as nat).len() as int))
    } else {
        None
    }
}

/// A number written in `n` bytes takes `n` bytes.
pub proof fn lemma_le_bytes_len(v: nat, n: nat)
    ensures
        le_bytes(v, n).len() == n,
    decreases n,
{
    if n > 0 {
        lemma_le_bytes_len(v / 256, (n - 1) as nat);
    }
}

/// Numbers that fit `n` bytes and are written alike in `n` bytes are equal.
pub proof fn lemma_le_bytes_injective(a: nat, b: nat, n: nat)
    requires
        le_bytes(a, n) == le_bytes(b, n),
        byte_len(a) <= n,
        byte_len(b) <= n,
    ensures
        a == b,
    decreases n,
{
    if n > 0 {
        let ta = le_bytes(a / 256, (n - 1) as nat);
        let tb = le_bytes(b / 256, (n - 1) as nat);
        lemma_le_bytes_len(a / 256, (n - 1) as nat);
        lemma_le_bytes_len(b / 256, (n - 1) as nat);
        assert(le_bytes(a, n)[0] == (a % 256) as u8);
        assert(le_bytes(b, n)[0] == (b % 256) as u8);
        assert(a % 256 == b % 256);
        assert(ta =~= le_bytes(a, n).skip(1));
        assert(tb =~= le_bytes(b, n).skip(1));
        if n == 1 {
            assert(a < 256 && b < 256) by {
                reveal_with_fuel(byte_len, 2);
            }
        } else {
            assert(byte_len(a / 256) <= n - 1);
            assert(byte_len(b / 256) <= n - 1);
            lemma_le_bytes_injective(a / 256, b / 256, (n - 1) as nat);
        }
    }
}

/// Writing a number that fits `n` bytes and reading it back gives the
/// number.
pub proof fn lemma_le_value_of_bytes(v: nat, n: nat)
    requires
        n >= 1,
        byte_len(v) <= n,
    ensures
        le_value(le_bytes(v, n)) == v,
    decreases n,
{
    let tail = le_bytes(v / 256, (n - 1) as nat);
    lemma_le_bytes_len(v / 256, (n - 1) as nat);
    assert(le_bytes(v, n).skip(1) =~= tail);
    assert(le_bytes(v, n)[0] == (v % 256) as u8);
    if n == 1 {
        assert(v < 256) by {
            reveal_with_fuel(byte_len, 2);
        }
        assert(tail.len() == 0);
        assert(le_value(tail) == 0);
    } else {
        assert(byte_len(v / 256) <= n - 1) by {
            reveal_with_fuel(byte_len, 2);
        }
        lemma_le_value_of_bytes(v / 256, (n - 1) as nat);
    }
    assert(le_value(le_bytes(v, n)) == (v % 256) + 256 * le_value(tail));
}

/// Reading a number and writing it in as many bytes as were read gives the
/// bytes, and the number fits them.
pub proof fn lemma_le_bytes_of_value(s: Seq<u8>)
    ensures
        le_bytes(le_value(s), s.len()) == s,
        s.len() >= 1 ==> byte_len(le_value(s)) <= s.len(),
    decreases s.len(),
{
    if s.len() > 0 {
        lemma_le_bytes_of_value(s.skip(1));
        let v = le_value(s);
        let t = le_value(s.skip(1));
        assert(v == s[0] as nat + 256 * t);
        assert(v % 256 == s[0] as nat);
        assert(v / 256 == t);
        assert(le_bytes(v, s.len()) =~= s);
        if s.len() == 1 {
            assert(s.skip(1).len() == 0);
            assert(t == 0);
        }
    }
}

/// A number below 2^128 takes at most 16 bytes, and one from 2^30 upwards
/// at least 4.
pub proof fn lemma_byte_len_range(v: u128)
    ensures
        1 <= byte_len(v as nat) <= 16,
        v >= 0x4000_0000 ==> byte_len(v as nat) >= 4,
{
    reveal_with_fuel(byte_len, 17);
}

/// No two numbers below 2^128 have compact encodings of which one begins
/// the other: a byte string begins with the encoding of at most one number.
pub proof fn lemma_compact_unique(a: u128, b: u128, s: Seq<u8>)
    requires
        compact(a as nat).is_prefix_of(s),
        compact(b as nat).is_prefix_of(s),
    ensures
        a == b,
{
    reveal(compact);
    let ca = compact(a as nat);
    let cb = compact(b as nat);
    lemma_byte_len_range(a);
    lemma_byte_len_range(b);
    lemma_compact_shape(a);
    lemma_compact_shape(b);
    assert(ca[0] == s[0]);
    assert(cb[0] == s[0]);
    if a < 0x40 {
    } else if a < 0x4000 {
        assert(ca =~= s.take(2));
        assert(cb =~= s.take(2));
        assert(byte_len((4 * a + 1) as nat) <= 2) by {
            reveal_with_fuel(byte_len, 3);
        }
        assert(byte_len((4 * b + 1) as nat) <= 2) by {
            reveal_with_fuel(byte_len, 3);
        }
        lemma_le_bytes_injective((4 * a + 1) as nat, (4 * b + 1) as nat, 2);
    } else if a < 0x4000_0000 {
        assert(ca =~= s.take(4));
        assert(cb =~= s.take(4));
        assert(byte_len((4 * a + 2) as nat) <= 4) by {
            reveal_with_fuel(byte_len, 5);
        }
        assert(byte_len((4 * b + 2) as nat) <= 4) by {
            reveal_with_fuel(byte_len, 5);
        }
        lemma_le_bytes_injective((4 * a + 2) as nat, (4 * b + 2) as nat, 4);
    } else {
        let n = byte_len(a as nat);
        assert(byte_len(b as nat) == n);
        lemma_le_bytes_len(a as nat, n);
        lemma_le_bytes_len(b as nat, n);
        assert(le_bytes(a as nat, n) =~= ca.skip(1));
        assert(le_bytes(b as nat, n) =~= cb.skip(1));
        assert(ca.skip(1) =~= s.subrange(1, 1 + n as int));
        assert(cb.skip(1) =~= s.subrange(1, 1 + n as int));
        lemma_le_bytes_injective(a as nat, b as nat, n);
    }
}

/// The length of a compact encoding and what its first byte tells.
pub proof fn lemma_compact_shape(v: u128)
    ensures
        1 <= compact(v as nat).len() <= 17,
        v < 0x40 ==> compact(v as nat).len() == 1 && compact(v as nat)[0] == 4 * v,
        0x40 <= v < 0x4000 ==> compact(v as nat).len() == 2 && compact(v as nat)[0] % 4 == 1,
        0x4000 <= v < 0x4000_0000 ==> compact(v as nat).len() == 4 && compact(v as nat)[0] % 4 == 2,
        v >= 0x4000_0000 ==> compact(v as nat).len() == 1 + byte_len(v as nat) && compact(
            v as nat,
        )[0] == 4 * (byte_len(v as nat) - 4) + 3,
{
    reveal(compact);
    lemma_byte_len_range(v);
    if v < 0x40 {
    } else if v < 0x4000 {
        lemma_le_bytes_len((4 * v + 1) as nat, 2);
        assert(le_bytes((4 * v + 1) as nat, 2)[0] == (((4 * v + 1) as nat) % 256) as u8);
    } else if v < 0x4000_0000 {
        lemma_le_bytes_len((4 * v + 2) as nat, 4);
        assert(le_bytes((4 * v + 2) as nat, 4)[0] == (((4 * v + 2) as nat) % 256) as u8);
    } else {
        lemma_le_bytes_len(v as nat, byte_len(v as nat));
    }
}

/// A byte string that begins with the compact encoding of `v` is read as
/// `v`.
pub proof fn lemma_parse_compact_complete(v: u128, rest: Seq<u8>)
    ensures
        parse_compact(compact(v as nat) + rest) == Some((v, compact(v as nat).len() as int)),
{
    reveal(compact);
    reveal(parse_compact);
    let s = compact(v as nat) + rest;
    assert(s.take(compact(v as nat).len() as int) =~= compact(v as nat));
    assert(compact(v as nat).is_prefix_of(s));
    let w = choose|w: u128| (#[trigger] compact(w as nat)).is_prefix_of(s);
    lemma_compact_unique(v, w, s);
}

/// What is read as a compact integer is the compact encoding of the number
/// read.
pub proof fn lemma_parse_compact_sound(s: Seq<u8>)
    requires
        parse_compact(s).is_some(),
    ensures
        0 < parse_compact(s).unwrap().1 <= s.len(),
        compact(parse_compact(s).unwrap().0 as nat) == s.take(parse_compact(s).unwrap().1),
{
    reveal(compact);
    reveal(parse_compact);
    let v = parse_compact(s).unwrap().0;
    lemma_compact_shape(v);
    assert(compact(v as nat).is_prefix_of(s));
    assert(s.take(compact(v as nat).len() as int) =~= compact(v as nat));
}

/// The compact encoding of `value`, as `parity_scale_codec` produces it
/// for `Compact<u128>`: `Encode::encode` on `Compact(value)`.
#[verifier::external_body]
fn compact_encode(value: u128) -> (out: Vec<u8>)
    ensures
        out@ == compact(value as nat),
{
    parity_scale_codec::Encode::encode(&parity_scale_codec::Compact(value))
}

/// Reads a compact integer from the front of `input` with
/// `parity_scale_codec`: `Decode::decode` for `Compact<u128>`. Returns the
/// number and how many bytes of `input` are left after it. The decoder
/// accepts an encoding only in the shortest form that the number has, so it
/// succeeds exactly if `input` begins with the compact encoding of some
/// number below 2^128.
#[verifier::external_body]
fn compact_decode(input: &[u8]) -> (r: Option<(u128, usize)>)
    ensures
        match r {
            Some((value, left)) => left <= input@.len() && compact(value as nat) == input@.take(
                input@.len() - left,
            ),
            None => forall|v: u128| !(#[trigger] compact(v as nat)).is_prefix_of(input@),
        },
{
    let mut rest: &[u8] = input;
    match <parity_scale_codec::Compact<u128> as parity_scale_codec::Decode>::decode(&mut rest) {
        Ok(value) => Some((value.0, rest.len())),
        Err(_) => None,
    }
}

/// Appends the compact encoding of `value` to `out`.
pub fn put_compact(out: &mut Vec<u8>, value: u128)
    ensures
        final(out)@ == old(out)@ + compact(value as nat),
{
    proof {
        reveal(compact);
    }
    let mut bytes = compact_encode(value);
    out.append(&mut bytes);
}

/// Reads a compact integer at `pos`. Returns the number and the position
/// after it.
pub fn take_compact(input: &[u8], pos: usize) -> (r: Option<(u128, usize)>)
    requires
        pos <= input@.len(),
    ensures
        match r {
            Some((value, next)) => pos < next <= input@.len() && parse_compact(
                input@.skip(pos as int),
            ) == Some((value, next - pos)),
            None => parse_compact(input@.skip(pos as int)).is_none(),
        },
{
    proof {
        reveal(compact);
        reveal(parse_compact);
    }
    let rest = slice_subrange(input, pos, input.len());
    assert(rest@ =~= input@.skip(pos as int));
    match compact_decode(rest) {
        Some((value, left)) => {
            proof {
                let s = input@.skip(pos as int);
                lemma_compact_shape(value);
                assert(compact(value as nat).is_prefix_of(s));
                let w = choose|w: u128| (#[trigger] compact(w as nat)).is_prefix_of(s);
                lemma_compact_unique(value, w, s);
            }
            Some((value, input.len() - left))
        },
        None => None,
    }
}

/// Appends the `n` low-order bytes of `value`, least significant first.
pub fn put_le(out: &mut Vec<u8>, value: u64, n: usize)
    ensures
        final(out)@ == old(out)@ + le_bytes(value as nat, n as nat),
{
    let mut v: u64 = value;
    let mut i: usize = 0;
    let ghost mut written: Seq<u8> = Seq::empty();
    assert(old(out)@ + written =~= old(out)@);
    while i < n
        invariant
            i <= n,
            out@ == old(out)@ + written,
            written.len() == i,
            written + le_bytes(v as nat, (n - i) as nat) == le_bytes(value as nat, n as nat),
        decreases n - i,
    {
        let byte = (v % 256) as u8;
        out.push(byte);
        proof {
            let tail = le_bytes((v / 256) as nat, (n - i - 1) as nat);
            assert(le_bytes(v as nat, (n - i) as nat) =~= seq![byte] + tail);
            assert(written.push(byte) + tail =~= written + (seq![byte] + tail));
            assert(old(out)@ + written.push(byte) =~= (old(out)@ + written).push(byte));
            written = written.push(byte);
        }
        v = v / 256;
        i += 1;
    }
    assert(written + Seq::<u8>::empty() =~= written);
}

/// Reads a number of `n` bytes, at most eight, at `pos`. Returns the number
/// and the position after it.
pub fn take_le(input: &[u8], pos: usize, n: usize) -> (r: Option<(u64, usize)>)
    requires
        pos <= input@.len(),
        1 <= n <= 8,
    ensures
        match r {
            Some((value, next)) => next == pos + n && next <= input@.len() && parse_le(
                input@.skip(pos as int),
                n as nat,
            ) == Some((value as nat, n as int)),
            None => parse_le(input@.skip(pos as int), n as nat).is_none(),
        },
{
    if input.len() - pos < n {
        return None;
    }
    let ghost s = input@.skip(pos as int).take(n as int);
    let mut value: u64 = 0;
    let mut i: usize = n;
    assert(s.skip(n as int) =~= Seq::empty());
    while i > 0
        invariant
            i <= n <= 8,
            pos + n <= input@.len() <= usize::MAX,
            s == input@.skip(pos as int).take(n as int),
            value as nat == le_value(s.skip(i as int)),
            byte_len(value as nat) <= n - i || (value == 0 && i == n),
        decreases i,
    {
        i -= 1;
        let byte = input[pos + i];
        proof {
            let t = s.skip(i as int);
            assert(t[0] == byte);
            assert(t.skip(1) =~= s.skip(i + 1));
            lemma_le_bytes_of_value(t);
            assert(t.len() == n - i);
            assert(le_value(t) == byte as nat + 256 * (value as nat));
            lemma_byte_len_bound(le_value(t), (n - i) as nat);
        }
        value = value * 256 + byte as u64;
    }
    assert(s.skip(0) =~= s);
    Some((value, pos + n))
}

/// A number that takes at most `n` bytes, `n` being at most eight, is
/// below 2^(8n).
pub proof fn lemma_byte_len_bound(v: nat, n: nat)
    requires
        byte_len(v) <= n,
        n <= 8,
    ensures
        n == 1 ==> v < 0x100,
        n == 2 ==> v < 0x1_0000,
        n == 3 ==> v < 0x100_0000,
        n == 4 ==> v < 0x1_0000_0000,
        n == 5 ==> v < 0x100_0000_0000,
        n == 6 ==> v < 0x1_0000_0000_0000,
        n == 7 ==> v < 0x100_0000_0000_0000,
        n == 8 ==> v < 0x1_0000_0000_0000_0000,
{
    reveal_with_fuel(byte_len, 9);
}

/// Reading a 32-bit number, four bytes.
#[verifier::opaque]
pub open spec fn parse_u32(s: Seq<u8>) -> Option<(u32, int)> {
    match parse_le(s, 4) {
        Some((v, n)) => Some((v as u32, n)),
        None => None,
    }
}

/// Reading a 64-bit number, eight bytes.
#[verifier::opaque]
pub open spec fn parse_u64(s: Seq<u8>) -> Option<(u64, int)> {
    match parse_le(s, 8) {
        Some((v, n)) => Some((v as u64, n)),
        None => None,
    }
}

/// The encoding of a truth value: one byte, zero or one.
pub open spec fn enc_bool(b: bool) -> Seq<u8> {
    if b {
        seq![1u8]
    } else {
        seq![0u8]
    }
}

/// Reading a truth value.
pub open spec fn parse_bool(s: Seq<u8>) -> Option<(bool, int)> {
    if s.len() >= 1 && s[0] == 0 {
        Some((false, 1))
    } else if s.len() >= 1 && s[0] == 1 {
        Some((true, 1))
    } else {
        None
    }
}

/// A byte string that begins with the encoding of a 32-bit number is read as that
/// number.
pub proof fn lemma_u32_complete(v: u32, rest: Seq<u8>)
    ensures
        parse_u32(le_bytes(v as nat, 4) + rest) == Some((v, 4int)),
        le_bytes(v as nat, 4).len() == 4,
{
    reveal(parse_u32);
    lemma_le_bytes_len(v as nat, 4);
    assert((le_bytes(v as nat, 4) + rest).take(4) =~= le_bytes(v as nat, 4));
    assert(byte_len(v as nat) <= 4) by {
        reveal_with_fuel(byte_len, 5);
    }
    lemma_le_value_of_bytes(v as nat, 4);
}

/// What is read as a 32-bit number is the encoding of the number read.
pub proof fn lemma_u32_sound(s: Seq<u8>)
    requires
        parse_u32(s).is_some(),
    ensures
        parse_u32(s).unwrap().1 == 4 <= s.len(),
        le_bytes(parse_u32(s).unwrap().0 as nat, 4) == s.take(4),
{
    reveal(parse_u32);
    lemma_le_bytes_of_value(s.take(4));
    lemma_byte_len_bound(le_value(s.take(4)), 4);
}

/// A byte string that begins with the encoding of a 64-bit number is read as that
/// number.
pub proof fn lemma_u64_complete(v: u64, rest: Seq<u8>)
    ensures
        parse_u64(le_bytes(v as nat, 8) + rest) == Some((v, 8int)),
        le_bytes(v as nat, 8).len() == 8,
{
    reveal(parse_u64);
    lemma_le_bytes_len(v as nat, 8);
    assert((le_bytes(v as nat, 8) + rest).take(8) =~= le_bytes(v as nat, 8));
    assert(byte_len(v as nat) <= 8) by {
        reveal_with_fuel(byte_len, 9);
    }
    lemma_le_value_of_bytes(v as nat, 8);
}

/// What is read as a 64-bit number is the encoding of the number read.
pub proof fn lemma_u64_sound(s: Seq<u8>)
    requires
        parse_u64(s).is_some(),
    ensures
        parse_u64(s).unwrap().1 == 8 <= s.len(),
        le_bytes(parse_u64(s).unwrap().0 as nat, 8) == s.take(8),
{
    reveal(parse_u64);
    lemma_le_bytes_of_value(s.take(8));
    lemma_byte_len_bound(le_value(s.take(8)), 8);
}

/// Reads a 32-bit number.
pub fn take_u32(input: &[u8], pos: usize) -> (r: Option<(u32, usize)>)
    requires
        pos <= input@.len(),
    ensures
        match r {
            Some((value, next)) => next == pos + 4 && next <= input@.len() && parse_u32(
                input@.skip(pos as int),
            ) == Some((value, 4int)),
            None => parse_u32(input@.skip(pos as int)).is_none(),
        },
{
    proof {
        reveal(parse_u32);
    }
    match take_le(input, pos, 4) {
        Some((v, next)) => {
            proof {
                let s = input@.skip(pos as int).take(4);
                lemma_le_bytes_of_value(s);
                lemma_byte_len_bound(le_value(s), 4);
            }
            Some((v as u32, next))
        },
        None => None,
    }
}

/// Reads a 64-bit number.
pub fn take_u64(input: &[u8], pos: usize) -> (r: Option<(u64, usize)>)
    requires
        pos <= input@.len(),
    ensures
        match r {
            Some((value, next)) => next == pos + 8 && next <= input@.len() && parse_u64(
                input@.skip(pos as int),
            ) == Some((value, 8int)),
            None => parse_u64(input@.skip(pos as int)).is_none(),
        },
{
    proof {
        reveal(parse_u64);
    }
    take_le(input, pos, 8)
}

/// Reads a truth value.
pub fn take_bool(input: &[u8], pos: usize) -> (r: Option<(bool, usize)>)
    requires
        pos <= input@.len(),
    ensures
        match r {
            Some((value, next)) => next == pos + 1 && next <= input@.len() && parse_bool(
                input@.skip(pos as int),
            ) == Some((value, 1int)),
            None => parse_bool(input@.skip(pos as int)).is_none(),
        },
{
    if pos >= input.len() {
        None
    } else if input[pos] == 0 {
        Some((false, pos + 1))
    } else if input[pos] == 1 {
        Some((true, pos + 1))
    } else {
        None
    }
}

/// Appends the encoding of a truth value.
pub fn put_bool(out: &mut Vec<u8>, b: bool)
    ensures
        final(out)@ == old(out)@ + enc_bool(b),
{
    if b {
        out.push(1);
    } else {
        out.push(0);
    }
    assert(out@ =~= old(out)@ + enc_bool(b));
}

} // verus!
