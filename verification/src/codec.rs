//! The wire encoding of locations, assets and filters.
//!
//! Every kind of value has an encoding, given by a function from the value
//! to its bytes, and a reading, given by a function from bytes to the value
//! that they begin with and the number of bytes that it takes. An enum is
//! written as one byte that tells the variant, followed by the fields; a
//! list as its length, compact, followed by its items.

use crate::location::{Junction, LocationModel, MultiLocation};
use crate::multiasset::{
    views, AssetId, AssetIdModel, AssetInstance, AssetModel, FilterModel, Fungibility, MultiAsset,
    MultiAssetFilter, WildFungibility, WildModel, WildMultiAsset,
};
use crate::wire::{
    compact, lemma_parse_compact_complete, lemma_parse_compact_sound, parse_compact, put_compact,
    take_compact,
};
use vstd::prelude::*;

verus! {

/// Reading a compact integer that must not exceed `max`.
pub open spec fn parse_compact_max(s: Seq<u8>, max: u128) -> Option<(u128, int)> {
    match parse_compact(s) {
        Some((v, n)) => if v <= max {
            Some((v, n))
        } else {
            None
        },
        None => None,
    }
}

/// Reads a compact integer that must not exceed `max`.
pub fn take_compact_max(input: &[u8], pos: usize, max: u128) -> (r: Option<(u128, usize)>)
    requires
        pos <= input@.len(),
    ensures
        match r {
            Some((value, next)) => pos < next <= input@.len() && parse_compact_max(
                input@.skip(pos as int),
                max,
            ) == Some((value, next - pos)),
            None => parse_compact_max(input@.skip(pos as int), max).is_none(),
        },
{
    match take_compact(input, pos) {
        Some((value, next)) => if value <= max {
            Some((value, next))
        } else {
            None
        },
        None => None,
    }
}

/// Reading one byte.
pub open spec fn parse_byte(s: Seq<u8>) -> Option<(u8, int)> {
    if s.len() >= 1 {
        Some((s[0], 1))
    } else {
        None
    }
}

/// Reads one byte.
pub fn take_byte(input: &[u8], pos: usize) -> (r: Option<(u8, usize)>)
    requires
        pos <= input@.len(),
    ensures
        match r {
            Some((value, next)) => next == pos + 1 && next <= input@.len() && parse_byte(
                input@.skip(pos as int),
            ) == Some((value, 1int)),
            None => parse_byte(input@.skip(pos as int)).is_none(),
        },
{
    if pos < input.len() {
        Some((input[pos], pos + 1))
    } else {
        None
    }
}

/// The encoding of a byte string: its length, compact, and the bytes.
#[verifier::opaque]
pub open spec fn enc_bytes(b: Seq<u8>) -> Seq<u8> {
    compact(b.len()) + b
}

/// Reading a byte string.
#[verifier::opaque]
pub open spec fn parse_bytes(s: Seq<u8>) -> Option<(Seq<u8>, int)> {
    match parse_compact(s) {
        Some((len, n)) => if 0 < n && n + len <= s.len() {
            Some((s.subrange(n, n + len), n + len))
        } else {
            None
        },
        None => None,
    }
}

/// A byte string that begins with the encoding of a byte string is read as that
/// byte string.
pub proof fn lemma_bytes_complete(b: Seq<u8>, rest: Seq<u8>)
    requires
        b.len() <= u128::MAX,
    ensures
        parse_bytes(enc_bytes(b) + rest) == Some((b, enc_bytes(b).len() as int)),
{
    reveal(enc_bytes);
    reveal(parse_bytes);
    let s = enc_bytes(b) + rest;
    let c = compact(b.len());
    assert(s =~= c + (b + rest));
    lemma_parse_compact_complete(b.len() as u128, b + rest);
    crate::wire::lemma_compact_shape(b.len() as u128);
    assert(s.subrange(c.len() as int, (c.len() + b.len()) as int) =~= b);
}

/// What is read as a byte string is the encoding of the byte string read.
pub proof fn lemma_bytes_sound(s: Seq<u8>)
    requires
        parse_bytes(s).is_some(),
    ensures
        0 < parse_bytes(s).unwrap().1 <= s.len(),
        enc_bytes(parse_bytes(s).unwrap().0) == s.take(parse_bytes(s).unwrap().1),
{
    reveal(enc_bytes);
    reveal(parse_bytes);
    lemma_parse_compact_sound(s);
    let (len, n) = parse_compact(s).unwrap();
    assert(compact(len as nat) + s.subrange(n, n + len) =~= s.take(n + len));
}

/// Appends the encoding of a byte string.
pub fn put_bytes(out: &mut Vec<u8>, b: &Vec<u8>)
    ensures
        final(out)@ == old(out)@ + enc_bytes(b@),
{
    proof {
        reveal(enc_bytes);
    }
    put_compact(out, b.len() as u128);
    let ghost start = out@;
    let mut i: usize = 0;
    while i < b.len()
        invariant
            i <= b@.len(),
            out@ == start + b@.take(i as int),
        decreases b.len() - i,
    {
        out.push(b[i]);
        assert(start + b@.take(i + 1) =~= (start + b@.take(i as int)).push(b@[i as int]));
        i += 1;
    }
    assert(b@.take(b@.len() as int) =~= b@);
    assert(old(out)@ + enc_bytes(b@) =~= start + b@);
}

/// Reads a byte string.
pub fn take_bytes(input: &[u8], pos: usize) -> (r: Option<(Vec<u8>, usize)>)
    requires
        pos <= input@.len(),
    ensures
        match r {
            Some((value, next)) => pos < next <= input@.len() && parse_bytes(
                input@.skip(pos as int),
            ) == Some((value@, next - pos)),
            None => parse_bytes(input@.skip(pos as int)).is_none(),
        },
{
    proof {
        reveal(parse_bytes);
    }
    match take_compact(input, pos) {
        Some((len, start)) => {
            if len > (input.len() - start) as u128 {
                return None;
            }
            let n: usize = len as usize;
            let mut value: Vec<u8> = Vec::new();
            let mut i: usize = 0;
            while i < n
                invariant
                    i <= n,
                    start + n <= input@.len() <= usize::MAX,
                    value@ == input@.subrange(start as int, start + i),
                decreases n - i,
            {
                value.push(input[start + i]);
                assert(input@.subrange(start as int, start + i + 1) =~= input@.subrange(
                    start as int,
                    start + i,
                ).push(input@[start + i]));
                i += 1;
            }
            assert(input@.skip(pos as int).subrange(start - pos, start - pos + n) =~= value@);
            Some((value, start + n))
        },
        None => None,
    }
}

/// The encoding of a junction.
#[verifier::opaque]
pub open spec fn enc_junction(j: Junction) -> Seq<u8> {
    match j {
        Junction::Parachain(id) => seq![0u8] + compact(id as nat),
        Junction::AccountIndex64(index) => seq![1u8] + compact(index as nat),
        Junction::PalletInstance(instance) => seq![2u8, instance],
        Junction::GeneralIndex(index) => seq![3u8] + compact(index as nat),
        Junction::OnlyChild => seq![4u8],
    }
}

/// Reading a junction.
#[verifier::opaque]
pub open spec fn parse_junction(s: Seq<u8>) -> Option<(Junction, int)> {
    if s.len() == 0 {
        None
    } else if s[0] == 0 {
        match parse_compact_max(s.skip(1), u32::MAX as u128) {
            Some((v, n)) => Some((Junction::Parachain(v as u32), 1 + n)),
            None => None,
        }
    } else if s[0] == 1 {
        match parse_compact_max(s.skip(1), u64::MAX as u128) {
            Some((v, n)) => Some((Junction::AccountIndex64(v as u64), 1 + n)),
            None => None,
        }
    } else if s[0] == 2 {
        match parse_byte(s.skip(1)) {
            Some((b, n)) => Some((Junction::PalletInstance(b), 1 + n)),
            None => None,
        }
    } else if s[0] == 3 {
        match parse_compact(s.skip(1)) {
            Some((v, n)) => Some((Junction::GeneralIndex(v), 1 + n)),
            None => None,
        }
    } else if s[0] == 4 {
        Some((Junction::OnlyChild, 1))
    } else {
        None
    }
}

/// A byte string that begins with the encoding of a junction is read as that
/// junction.
pub proof fn lemma_junction_complete(j: Junction, rest: Seq<u8>)
    ensures
        parse_junction(enc_junction(j) + rest) == Some((j, enc_junction(j).len() as int)),
{
    reveal(enc_junction);
    reveal(parse_junction);
    let s = enc_junction(j) + rest;
    match j {
        Junction::Parachain(id) => {
            assert(s.skip(1) =~= compact(id as nat) + rest);
            lemma_parse_compact_complete(id as u128, rest);
        },
        Junction::AccountIndex64(index) => {
            assert(s.skip(1) =~= compact(index as nat) + rest);
            lemma_parse_compact_complete(index as u128, rest);
        },
        Junction::PalletInstance(instance) => {
            assert(s.skip(1) =~= seq![instance] + rest);
        },
        Junction::GeneralIndex(index) => {
            assert(s.skip(1) =~= compact(index as nat) + rest);
            lemma_parse_compact_complete(index, rest);
        },
        Junction::OnlyChild => {},
    }
}

/// What is read as a junction is the encoding of the junction read.
pub proof fn lemma_junction_sound(s: Seq<u8>)
    requires
        parse_junction(s).is_some(),
    ensures
        0 < parse_junction(s).unwrap().1 <= s.len(),
        enc_junction(parse_junction(s).unwrap().0) == s.take(parse_junction(s).unwrap().1),
{
    reveal(enc_junction);
    reveal(parse_junction);
    let (j, n) = parse_junction(s).unwrap();
    if s[0] == 0 || s[0] == 1 || s[0] == 3 {
        lemma_parse_compact_sound(s.skip(1));
        let (v, k) = parse_compact(s.skip(1)).unwrap();
        assert(seq![s[0]] + s.skip(1).take(k) =~= s.take(1 + k));
    } else if s[0] == 2 {
        assert(seq![2u8, s[1]] =~= s.take(2));
    } else {
        assert(seq![4u8] =~= s.take(1));
    }
}

/// Appends the encoding of a junction.
pub fn put_junction(out: &mut Vec<u8>, j: &Junction)
    ensures
        final(out)@ == old(out)@ + enc_junction(*j),
{
    proof {
        reveal(enc_junction);
    }
    match j {
        Junction::Parachain(id) => {
            out.push(0);
            put_compact(out, *id as u128);
            assert(out@ =~= old(out)@ + enc_junction(*j));
        },
        Junction::AccountIndex64(index) => {
            out.push(1);
            put_compact(out, *index as u128);
            assert(out@ =~= old(out)@ + enc_junction(*j));
        },
        Junction::PalletInstance(instance) => {
            out.push(2);
            out.push(*instance);
            assert(out@ =~= old(out)@ + enc_junction(*j));
        },
        Junction::GeneralIndex(index) => {
            out.push(3);
            put_compact(out, *index);
            assert(out@ =~= old(out)@ + enc_junction(*j));
        },
        Junction::OnlyChild => {
            out.push(4);
            assert(out@ =~= old(out)@ + enc_junction(*j));
        },
    }
}

/// Reads a junction.
pub fn take_junction(input: &[u8], pos: usize) -> (r: Option<(Junction, usize)>)
    requires
        pos <= input@.len(),
    ensures
        match r {
            Some((value, next)) => pos < next <= input@.len() && parse_junction(
                input@.skip(pos as int),
            ) == Some((value, next - pos)),
            None => parse_junction(input@.skip(pos as int)).is_none(),
        },
{
    proof {
        reveal(parse_junction);
    }
    if pos >= input.len() {
        return None;
    }
    let tag = input[pos];
    assert(input@.skip(pos as int).skip(1) =~= input@.skip(pos + 1));
    if tag == 0 {
        match take_compact_max(input, pos + 1, u32::MAX as u128) {
            Some((v, next)) => Some((Junction::Parachain(v as u32), next)),
            None => None,
        }
    } else if tag == 1 {
        match take_compact_max(input, pos + 1, u64::MAX as u128) {
            Some((v, next)) => Some((Junction::AccountIndex64(v as u64), next)),
            None => None,
        }
    } else if tag == 2 {
        match take_byte(input, pos + 1) {
            Some((b, next)) => Some((Junction::PalletInstance(b), next)),
            None => None,
        }
    } else if tag == 3 {
        match take_compact(input, pos + 1) {
            Some((v, next)) => Some((Junction::GeneralIndex(v), next)),
            None => None,
        }
    } else if tag == 4 {
        Some((Junction::OnlyChild, pos + 1))
    } else {
        None
    }
}

/// What has been read of a list, followed by what is read of the rest.
pub open spec fn extend<M>(prefix: Seq<M>, used: int, r: Option<(Seq<M>, int)>) -> Option<
    (Seq<M>, int),
> {
    match r {
        Some((items, n)) => Some((prefix + items, used + n)),
        None => None,
    }
}

/// The encodings of the junctions of a path, one after the other.
pub open spec fn enc_junctions(items: Seq<Junction>) -> Seq<u8>
    decreases items.len(),
{
    if items.len() == 0 {
        Seq::empty()
    } else {
        enc_junction(items[0]) + enc_junctions(items.skip(1))
    }
}

/// Reading `count` junctions.
pub open spec fn parse_junctions(s: Seq<u8>, count: nat) -> Option<(Seq<Junction>, int)>
    decreases count,
{
    if count == 0 {
        Some((Seq::empty(), 0))
    } else {
        match parse_junction(s) {
            Some((j, n)) => extend(seq![j], n, parse_junctions(s.skip(n), (count - 1) as nat)),
            None => None,
        }
    }
}

/// A byte string that begins with the encoding of a path of junctions is read as that
/// junctions.
pub proof fn lemma_junctions_complete(items: Seq<Junction>, rest: Seq<u8>)
    ensures
        parse_junctions(enc_junctions(items) + rest, items.len()) == Some(
            (items, enc_junctions(items).len() as int),
        ),
    decreases items.len(),
{
    if items.len() > 0 {
        let tail = enc_junctions(items.skip(1)) + rest;
        let s = enc_junctions(items) + rest;
        assert(s =~= enc_junction(items[0]) + tail);
        lemma_junction_complete(items[0], tail);
        assert(s.skip(enc_junction(items[0]).len() as int) =~= tail);
        lemma_junctions_complete(items.skip(1), rest);
        assert(seq![items[0]] + items.skip(1) =~= items);
    }
}

/// What is read as a path of junctions is the encoding of the junctions read.
pub proof fn lemma_junctions_sound(s: Seq<u8>, count: nat)
    requires
        parse_junctions(s, count).is_some(),
    ensures
        0 <= parse_junctions(s, count).unwrap().1 <= s.len(),
        parse_junctions(s, count).unwrap().0.len() == count,
        enc_junctions(parse_junctions(s, count).unwrap().0) == s.take(
            parse_junctions(s, count).unwrap().1,
        ),
    decreases count,
{
    if count == 0 {
        assert(s.take(0) =~= Seq::empty());
    } else {
        lemma_junction_sound(s);
        let (j, n) = parse_junction(s).unwrap();
        lemma_junctions_sound(s.skip(n), (count - 1) as nat);
        let (js, k) = parse_junctions(s.skip(n), (count - 1) as nat).unwrap();
        let all = seq![j] + js;
        assert(all.skip(1) =~= js);
        assert(s.take(n) + s.skip(n).take(k) =~= s.take(n + k));
    }
}

/// The encoding of a location: the number of parents, one byte, and the
/// list of junctions.
#[verifier::opaque]
pub open spec fn enc_location(l: LocationModel) -> Seq<u8> {
    seq![l.parents] + compact(l.interior.len()) + enc_junctions(l.interior)
}

/// Reading a location.
#[verifier::opaque]
pub open spec fn parse_location(s: Seq<u8>) -> Option<(LocationModel, int)> {
    match parse_byte(s) {
        Some((parents, _)) => match parse_compact(s.skip(1)) {
            Some((count, n)) => match parse_junctions(s.skip(1 + n), count as nat) {
                Some((interior, k)) => Some((LocationModel { parents, interior }, 1 + n + k)),
                None => None,
            },
            None => None,
        },
        None => None,
    }
}

/// A byte string that begins with the encoding of a location is read as that
/// location.
pub proof fn lemma_location_complete(l: MultiLocation, rest: Seq<u8>)
    ensures
        parse_location(enc_location(l@) + rest) == Some((l@, enc_location(l@).len() as int)),
{
    reveal(enc_location);
    reveal(parse_location);
    let m = l@;
    let s = enc_location(m) + rest;
    let c = compact(m.interior.len());
    let tail = enc_junctions(m.interior) + rest;
    assert(m.interior.len() == l.interior.len());
    assert(s.skip(1) =~= c + tail);
    lemma_parse_compact_complete(m.interior.len() as u128, tail);
    assert(s.skip(1 + c.len() as int) =~= tail);
    lemma_junctions_complete(m.interior, rest);
}

/// What is read as a location is the encoding of the location read.
pub proof fn lemma_location_sound(s: Seq<u8>)
    requires
        parse_location(s).is_some(),
    ensures
        0 < parse_location(s).unwrap().1 <= s.len(),
        enc_location(parse_location(s).unwrap().0) == s.take(parse_location(s).unwrap().1),
{
    reveal(enc_location);
    reveal(parse_location);
    lemma_parse_compact_sound(s.skip(1));
    let (count, n) = parse_compact(s.skip(1)).unwrap();
    lemma_junctions_sound(s.skip(1 + n), count as nat);
    let (interior, k) = parse_junctions(s.skip(1 + n), count as nat).unwrap();
    assert(seq![s[0]] + s.skip(1).take(n) + s.skip(1 + n).take(k) =~= s.take(1 + n + k));
}

/// Appends the encoding of a location.
pub fn put_location(out: &mut Vec<u8>, l: &MultiLocation)
    ensures
        final(out)@ == old(out)@ + enc_location(l@),
{
    proof {
        reveal(enc_location);
    }
    out.push(l.parents);
    put_compact(out, l.interior.len() as u128);
    let ghost target = out@ + enc_junctions(l.interior@);
    let mut i: usize = 0;
    assert(l.interior@.skip(0) =~= l.interior@);
    while i < l.interior.len()
        invariant
            i <= l.interior@.len(),
            out@ + enc_junctions(l.interior@.skip(i as int)) == target,
        decreases l.interior.len() - i,
    {
        let ghost before = out@;
        put_junction(out, &l.interior[i]);
        proof {
            let here = l.interior@.skip(i as int);
            assert(here.skip(1) =~= l.interior@.skip(i + 1));
            assert(before + enc_junctions(here) =~= before + enc_junction(here[0])
                + enc_junctions(here.skip(1)));
        }
        i += 1;
    }
    assert(out@ + Seq::<u8>::empty() =~= out@);
    assert(target =~= old(out)@ + enc_location(l@));
}

/// Reads a location.
pub fn take_location(input: &[u8], pos: usize) -> (r: Option<(MultiLocation, usize)>)
    requires
        pos <= input@.len(),
    ensures
        match r {
            Some((value, next)) => pos < next <= input@.len() && parse_location(
                input@.skip(pos as int),
            ) == Some((value@, next - pos)),
            None => parse_location(input@.skip(pos as int)).is_none(),
        },
{
    proof {
        reveal(parse_location);
    }
    let ghost s = input@.skip(pos as int);
    let (parents, at1) = match take_byte(input, pos) {
        Some(x) => x,
        None => {
            return None;
        },
    };
    assert(s.skip(1) =~= input@.skip(at1 as int));
    let (count, at2) = match take_compact(input, at1) {
        Some(x) => x,
        None => {
            return None;
        },
    };
    assert(s.skip(1 + (at2 - at1)) =~= input@.skip(at2 as int));
    let mut interior: Vec<Junction> = Vec::new();
    let mut cur: usize = at2;
    let mut i: u128 = 0;
    let ghost whole = parse_junctions(input@.skip(at2 as int), count as nat);
    proof {
        if whole.is_some() {
            assert(Seq::<Junction>::empty() + whole.unwrap().0 =~= whole.unwrap().0);
        }
    }
    while i < count
        invariant
            i <= count,
            pos < at2 <= cur <= input@.len(),
            whole == parse_junctions(input@.skip(at2 as int), count as nat),
            parse_location(input@.skip(pos as int)) == match whole {
                Some((interior, k)) => Some(
                    (LocationModel { parents, interior }, at2 - pos + k),
                ),
                None => None,
            },
            extend(
                interior@,
                cur - at2,
                parse_junctions(input@.skip(cur as int), (count - i) as nat),
            ) == parse_junctions(input@.skip(at2 as int), count as nat),
        decreases count - i,
    {
        let ghost here = input@.skip(cur as int);
        match take_junction(input, cur) {
            Some((j, next)) => {
                proof {
                    assert(here.skip(next - cur) =~= input@.skip(next as int));
                    let r = parse_junctions(input@.skip(next as int), (count - i - 1) as nat);
                    if r.is_some() {
                        assert(interior@ + (seq![j] + r.unwrap().0) =~= interior@.push(j)
                            + r.unwrap().0);
                    }
                }
                interior.push(j);
                cur = next;
            },
            None => {
                return None;
            },
        }
        i += 1;
    }
    assert(interior@ + Seq::<Junction>::empty() =~= interior@);
    Some((MultiLocation { parents, interior }, cur))
}

/// The encoding of an instance.
#[verifier::opaque]
pub open spec fn enc_instance(i: AssetInstance) -> Seq<u8> {
    match i {
        AssetInstance::Undefined => seq![0u8],
        AssetInstance::Index(index) => seq![1u8] + compact(index as nat),
    }
}

/// Reading an instance.
#[verifier::opaque]
pub open spec fn parse_instance(s: Seq<u8>) -> Option<(AssetInstance, int)> {
    if s.len() == 0 {
        None
    } else if s[0] == 0 {
        Some((AssetInstance::Undefined, 1))
    } else if s[0] == 1 {
        match parse_compact(s.skip(1)) {
            Some((v, n)) => Some((AssetInstance::Index(v), 1 + n)),
            None => None,
        }
    } else {
        None
    }
}

/// A byte string that begins with the encoding of an instance is read as that
/// instance.
pub proof fn lemma_instance_complete(i: AssetInstance, rest: Seq<u8>)
    ensures
        parse_instance(enc_instance(i) + rest) == Some((i, enc_instance(i).len() as int)),
{
    reveal(enc_instance);
    reveal(parse_instance);
    let s = enc_instance(i) + rest;
    match i {
        AssetInstance::Undefined => {},
        AssetInstance::Index(index) => {
            assert(s.skip(1) =~= compact(index as nat) + rest);
            lemma_parse_compact_complete(index, rest);
        },
    }
}

/// What is read as an instance is the encoding of the instance read.
pub proof fn lemma_instance_sound(s: Seq<u8>)
    requires
        parse_instance(s).is_some(),
    ensures
        0 < parse_instance(s).unwrap().1 <= s.len(),
        enc_instance(parse_instance(s).unwrap().0) == s.take(parse_instance(s).unwrap().1),
{
    reveal(enc_instance);
    reveal(parse_instance);
    if s[0] == 0 {
        assert(seq![0u8] =~= s.take(1));
    } else {
        lemma_parse_compact_sound(s.skip(1));
        let (v, k) = parse_compact(s.skip(1)).unwrap();
        assert(seq![s[0]] + s.skip(1).take(k) =~= s.take(1 + k));
    }
}

/// Appends the encoding of an instance.
pub fn put_instance(out: &mut Vec<u8>, i: &AssetInstance)
    ensures
        final(out)@ == old(out)@ + enc_instance(*i),
{
    proof {
        reveal(enc_instance);
    }
    match i {
        AssetInstance::Undefined => {
            out.push(0);
        },
        AssetInstance::Index(index) => {
            out.push(1);
            put_compact(out, *index);
        },
    }
    assert(out@ =~= old(out)@ + enc_instance(*i));
}

/// Reads an instance.
pub fn take_instance(input: &[u8], pos: usize) -> (r: Option<(AssetInstance, usize)>)
    requires
        pos <= input@.len(),
    ensures
        match r {
            Some((value, next)) => pos < next <= input@.len() && parse_instance(
                input@.skip(pos as int),
            ) == Some((value, next - pos)),
            None => parse_instance(input@.skip(pos as int)).is_none(),
        },
{
    proof {
        reveal(parse_instance);
    }
    if pos >= input.len() {
        return None;
    }
    let tag = input[pos];
    assert(input@.skip(pos as int).skip(1) =~= input@.skip(pos + 1));
    if tag == 0 {
        Some((AssetInstance::Undefined, pos + 1))
    } else if tag == 1 {
        match take_compact(input, pos + 1) {
            Some((v, next)) => Some((AssetInstance::Index(v), next)),
            None => None,
        }
    } else {
        None
    }
}

/// The encoding of an asset identifier.
#[verifier::opaque]
pub open spec fn enc_asset_id(id: AssetIdModel) -> Seq<u8> {
    match id {
        AssetIdModel::Concrete(l) => seq![0u8] + enc_location(l),
        AssetIdModel::Abstract(name) => seq![1u8] + enc_bytes(name),
    }
}

/// Reading an asset identifier.
#[verifier::opaque]
pub open spec fn parse_asset_id(s: Seq<u8>) -> Option<(AssetIdModel, int)> {
    if s.len() == 0 {
        None
    } else if s[0] == 0 {
        match parse_location(s.skip(1)) {
            Some((l, n)) => Some((AssetIdModel::Concrete(l), 1 + n)),
            None => None,
        }
    } else if s[0] == 1 {
        match parse_bytes(s.skip(1)) {
            Some((name, n)) => Some((AssetIdModel::Abstract(name), 1 + n)),
            None => None,
        }
    } else {
        None
    }
}

/// A byte string that begins with the encoding of an asset identifier is read as that
/// identifier.
pub proof fn lemma_asset_id_complete(id: AssetId, rest: Seq<u8>)
    ensures
        parse_asset_id(enc_asset_id(id@) + rest) == Some((id@, enc_asset_id(id@).len() as int)),
{
    reveal(enc_asset_id);
    reveal(parse_asset_id);
    let s = enc_asset_id(id@) + rest;
    match id {
        AssetId::Concrete(l) => {
            assert(s.skip(1) =~= enc_location(l@) + rest);
            lemma_location_complete(l, rest);
        },
        AssetId::Abstract(name) => {
            assert(name@.len() == name.len());
            assert(s.skip(1) =~= enc_bytes(name@) + rest);
            lemma_bytes_complete(name@, rest);
        },
    }
}

/// What is read as an asset identifier is the encoding of the identifier read.
pub proof fn lemma_asset_id_sound(s: Seq<u8>)
    requires
        parse_asset_id(s).is_some(),
    ensures
        0 < parse_asset_id(s).unwrap().1 <= s.len(),
        enc_asset_id(parse_asset_id(s).unwrap().0) == s.take(parse_asset_id(s).unwrap().1),
{
    reveal(enc_asset_id);
    reveal(parse_asset_id);
    if s[0] == 0 {
        lemma_location_sound(s.skip(1));
        let (l, k) = parse_location(s.skip(1)).unwrap();
        assert(seq![s[0]] + s.skip(1).take(k) =~= s.take(1 + k));
    } else {
        lemma_bytes_sound(s.skip(1));
        let (b, k) = parse_bytes(s.skip(1)).unwrap();
        assert(seq![s[0]] + s.skip(1).take(k) =~= s.take(1 + k));
    }
}

/// Appends the encoding of an asset identifier.
pub fn put_asset_id(out: &mut Vec<u8>, id: &AssetId)
    ensures
        final(out)@ == old(out)@ + enc_asset_id(id@),
{
    proof {
        reveal(enc_asset_id);
    }
    match id {
        AssetId::Concrete(l) => {
            out.push(0);
            put_location(out, l);
        },
        AssetId::Abstract(name) => {
            out.push(1);
            put_bytes(out, name);
        },
    }
    assert(out@ =~= old(out)@ + enc_asset_id(id@));
}

/// Reads an asset identifier.
pub fn take_asset_id(input: &[u8], pos: usize) -> (r: Option<(AssetId, usize)>)
    requires
        pos <= input@.len(),
    ensures
        match r {
            Some((value, next)) => pos < next <= input@.len() && parse_asset_id(
                input@.skip(pos as int),
            ) == Some((value@, next - pos)),
            None => parse_asset_id(input@.skip(pos as int)).is_none(),
        },
{
    proof {
        reveal(parse_asset_id);
    }
    if pos >= input.len() {
        return None;
    }
    let tag = input[pos];
    assert(input@.skip(pos as int).skip(1) =~= input@.skip(pos + 1));
    if tag == 0 {
        match take_location(input, pos + 1) {
            Some((l, next)) => Some((AssetId::Concrete(l), next)),
            None => None,
        }
    } else if tag == 1 {
        match take_bytes(input, pos + 1) {
            Some((name, next)) => Some((AssetId::Abstract(name), next)),
            None => None,
        }
    } else {
        None
    }
}

/// The encoding of an amount or instance.
#[verifier::opaque]
pub open spec fn enc_fungibility(f: Fungibility) -> Seq<u8> {
    match f {
        Fungibility::Fungible(amount) => seq![0u8] + compact(amount as nat),
        Fungibility::NonFungible(instance) => seq![1u8] + enc_instance(instance),
    }
}

/// Reading an amount or instance.
#[verifier::opaque]
pub open spec fn parse_fungibility(s: Seq<u8>) -> Option<(Fungibility, int)> {
    if s.len() == 0 {
        None
    } else if s[0] == 0 {
        match parse_compact(s.skip(1)) {
            Some((v, n)) => Some((Fungibility::Fungible(v), 1 + n)),
            None => None,
        }
    } else if s[0] == 1 {
        match parse_instance(s.skip(1)) {
            Some((i, n)) => Some((Fungibility::NonFungible(i), 1 + n)),
            None => None,
        }
    } else {
        None
    }
}

/// A byte string that begins with the encoding of an amount or instance is read as that
/// amount or instance.
pub proof fn lemma_fungibility_complete(f: Fungibility, rest: Seq<u8>)
    ensures
        parse_fungibility(enc_fungibility(f) + rest) == Some((f, enc_fungibility(f).len() as int)),
{
    reveal(enc_fungibility);
    reveal(parse_fungibility);
    let s = enc_fungibility(f) + rest;
    match f {
        Fungibility::Fungible(amount) => {
            assert(s.skip(1) =~= compact(amount as nat) + rest);
            lemma_parse_compact_complete(amount, rest);
        },
        Fungibility::NonFungible(instance) => {
            assert(s.skip(1) =~= enc_instance(instance) + rest);
            lemma_instance_complete(instance, rest);
        },
    }
}

/// What is read as an amount or instance is the encoding of the amount or instance read.
pub proof fn lemma_fungibility_sound(s: Seq<u8>)
    requires
        parse_fungibility(s).is_some(),
    ensures
        0 < parse_fungibility(s).unwrap().1 <= s.len(),
        enc_fungibility(parse_fungibility(s).unwrap().0) == s.take(parse_fungibility(s).unwrap().1),
{
    reveal(enc_fungibility);
    reveal(parse_fungibility);
    if s[0] == 0 {
        lemma_parse_compact_sound(s.skip(1));
        let (v, k) = parse_compact(s.skip(1)).unwrap();
        assert(seq![s[0]] + s.skip(1).take(k) =~= s.take(1 + k));
    } else {
        lemma_instance_sound(s.skip(1));
        let (v, k) = parse_instance(s.skip(1)).unwrap();
        assert(seq![s[0]] + s.skip(1).take(k) =~= s.take(1 + k));
    }
}

/// Appends the encoding of an amount or instance.
pub fn put_fungibility(out: &mut Vec<u8>, f: &Fungibility)
    ensures
        final(out)@ == old(out)@ + enc_fungibility(*f),
{
    proof {
        reveal(enc_fungibility);
    }
    match f {
        Fungibility::Fungible(amount) => {
            out.push(0);
            put_compact(out, *amount);
        },
        Fungibility::NonFungible(instance) => {
            out.push(1);
            put_instance(out, instance);
        },
    }
    assert(out@ =~= old(out)@ + enc_fungibility(*f));
}

/// Reads an amount or instance.
pub fn take_fungibility(input: &[u8], pos: usize) -> (r: Option<(Fungibility, usize)>)
    requires
        pos <= input@.len(),
    ensures
        match r {
            Some((value, next)) => pos < next <= input@.len() && parse_fungibility(
                input@.skip(pos as int),
            ) == Some((value, next - pos)),
            None => parse_fungibility(input@.skip(pos as int)).is_none(),
        },
{
    proof {
        reveal(parse_fungibility);
    }
    if pos >= input.len() {
        return None;
    }
    let tag = input[pos];
    assert(input@.skip(pos as int).skip(1) =~= input@.skip(pos + 1));
    if tag == 0 {
        match take_compact(input, pos + 1) {
            Some((v, next)) => Some((Fungibility::Fungible(v), next)),
            None => None,
        }
    } else if tag == 1 {
        match take_instance(input, pos + 1) {
            Some((i, next)) => Some((Fungibility::NonFungible(i), next)),
            None => None,
        }
    } else {
        None
    }
}

/// The encoding of an asset: its identifier, then its amount or instance.
#[verifier::opaque]
pub open spec fn enc_asset(a: AssetModel) -> Seq<u8> {
    enc_asset_id(a.id) + enc_fungibility(a.fun)
}

/// Reading an asset.
#[verifier::opaque]
pub open spec fn parse_asset(s: Seq<u8>) -> Option<(AssetModel, int)> {
    match parse_asset_id(s) {
        Some((id, n)) => match parse_fungibility(s.skip(n)) {
            Some((fun, k)) => Some((AssetModel { id, fun }, n + k)),
            None => None,
        },
        None => None,
    }
}

/// A byte string that begins with the encoding of an asset is read as that
/// asset.
pub proof fn lemma_asset_complete(a: MultiAsset, rest: Seq<u8>)
    ensures
        parse_asset(enc_asset(a@) + rest) == Some((a@, enc_asset(a@).len() as int)),
{
    reveal(enc_asset);
    reveal(parse_asset);
    let s = enc_asset(a@) + rest;
    let tail = enc_fungibility(a.fun) + rest;
    assert(s =~= enc_asset_id(a.id@) + tail);
    lemma_asset_id_complete(a.id, tail);
    assert(s.skip(enc_asset_id(a.id@).len() as int) =~= tail);
    lemma_fungibility_complete(a.fun, rest);
}

/// What is read as an asset is the encoding of the asset read.
pub proof fn lemma_asset_sound(s: Seq<u8>)
    requires
        parse_asset(s).is_some(),
    ensures
        0 < parse_asset(s).unwrap().1 <= s.len(),
        enc_asset(parse_asset(s).unwrap().0) == s.take(parse_asset(s).unwrap().1),
{
    reveal(enc_asset);
    reveal(parse_asset);
    lemma_asset_id_sound(s);
    let (id, n) = parse_asset_id(s).unwrap();
    lemma_fungibility_sound(s.skip(n));
    let (fun, k) = parse_fungibility(s.skip(n)).unwrap();
    assert(s.take(n) + s.skip(n).take(k) =~= s.take(n + k));
}

/// Appends the encoding of an asset.
pub fn put_asset(out: &mut Vec<u8>, a: &MultiAsset)
    ensures
        final(out)@ == old(out)@ + enc_asset(a@),
{
    proof {
        reveal(enc_asset);
    }
    put_asset_id(out, &a.id);
    put_fungibility(out, &a.fun);
    assert(out@ =~= old(out)@ + enc_asset(a@));
}

/// Reads an asset.
pub fn take_asset(input: &[u8], pos: usize) -> (r: Option<(MultiAsset, usize)>)
    requires
        pos <= input@.len(),
    ensures
        match r {
            Some((value, next)) => pos < next <= input@.len() && parse_asset(
                input@.skip(pos as int),
            ) == Some((value@, next - pos)),
            None => parse_asset(input@.skip(pos as int)).is_none(),
        },
{
    proof {
        reveal(parse_asset);
    }
    match take_asset_id(input, pos) {
        Some((id, at1)) => {
            assert(input@.skip(pos as int).skip(at1 - pos) =~= input@.skip(at1 as int));
            match take_fungibility(input, at1) {
                Some((fun, next)) => Some((MultiAsset { id, fun }, next)),
                None => None,
            }
        },
        None => None,
    }
}

/// The encodings of the assets of a list, one after the other.
pub open spec fn enc_assets(items: Seq<AssetModel>) -> Seq<u8>
    decreases items.len(),
{
    if items.len() == 0 {
        Seq::empty()
    } else {
        enc_asset(items[0]) + enc_assets(items.skip(1))
    }
}

/// Reading `count` assets.
pub open spec fn parse_assets(s: Seq<u8>, count: nat) -> Option<(Seq<AssetModel>, int)>
    decreases count,
{
    if count == 0 {
        Some((Seq::empty(), 0))
    } else {
        match parse_asset(s) {
            Some((a, n)) => extend(seq![a], n, parse_assets(s.skip(n), (count - 1) as nat)),
            None => None,
        }
    }
}

/// The encoding of a list of assets: its length, compact, and the assets.
#[verifier::opaque]
pub open spec fn enc_asset_list(items: Seq<AssetModel>) -> Seq<u8> {
    compact(items.len()) + enc_assets(items)
}

/// Reading a list of assets.
#[verifier::opaque]
pub open spec fn parse_asset_list(s: Seq<u8>) -> Option<(Seq<AssetModel>, int)> {
    match parse_compact(s) {
        Some((count, n)) => extend(Seq::empty(), n, parse_assets(s.skip(n), count as nat)),
        None => None,
    }
}

/// A byte string that begins with the encoding of a number of assets is read as that
/// assets.
pub proof fn lemma_assets_complete(items: Seq<MultiAsset>, rest: Seq<u8>)
    ensures
        parse_assets(enc_assets(views(items)) + rest, items.len()) == Some(
            (views(items), enc_assets(views(items)).len() as int),
        ),
    decreases items.len(),
{
    let models = views(items);
    if items.len() > 0 {
        let tail = enc_assets(models.skip(1)) + rest;
        let s = enc_assets(models) + rest;
        assert(s =~= enc_asset(models[0]) + tail);
        lemma_asset_complete(items[0], tail);
        assert(s.skip(enc_asset(models[0]).len() as int) =~= tail);
        assert(models.skip(1) =~= views(items.skip(1)));
        lemma_assets_complete(items.skip(1), rest);
        assert(seq![models[0]] + models.skip(1) =~= models);
    } else {
        assert(models =~= Seq::empty());
    }
}

/// What is read as a number of assets is the encoding of the assets read.
pub proof fn lemma_assets_sound(s: Seq<u8>, count: nat)
    requires
        parse_assets(s, count).is_some(),
    ensures
        0 <= parse_assets(s, count).unwrap().1 <= s.len(),
        parse_assets(s, count).unwrap().0.len() == count,
        enc_assets(parse_assets(s, count).unwrap().0) == s.take(parse_assets(s, count).unwrap().1),
    decreases count,
{
    if count == 0 {
        assert(s.take(0) =~= Seq::empty());
    } else {
        lemma_asset_sound(s);
        let (a, n) = parse_asset(s).unwrap();
        lemma_assets_sound(s.skip(n), (count - 1) as nat);
        let (rest, k) = parse_assets(s.skip(n), (count - 1) as nat).unwrap();
        let all = seq![a] + rest;
        assert(all.skip(1) =~= rest);
        assert(s.take(n) + s.skip(n).take(k) =~= s.take(n + k));
    }
}

/// A byte string that begins with the encoding of a list of assets is read as that
/// list.
pub proof fn lemma_asset_list_complete(list: Vec<MultiAsset>, rest: Seq<u8>)
    ensures
        parse_asset_list(enc_asset_list(views(list@)) + rest) == Some(
            (views(list@), enc_asset_list(views(list@)).len() as int),
        ),
{
    reveal(enc_asset_list);
    reveal(parse_asset_list);
    let models = views(list@);
    let s = enc_asset_list(models) + rest;
    let c = compact(models.len());
    let tail = enc_assets(models) + rest;
    assert(list@.len() == list.len());
    assert(s =~= c + tail);
    lemma_parse_compact_complete(models.len() as u128, tail);
    assert(s.skip(c.len() as int) =~= tail);
    lemma_assets_complete(list@, rest);
    assert(Seq::<AssetModel>::empty() + models =~= models);
}

/// What is read as a list of assets is the encoding of the list read.
pub proof fn lemma_asset_list_sound(s: Seq<u8>)
    requires
        parse_asset_list(s).is_some(),
    ensures
        0 < parse_asset_list(s).unwrap().1 <= s.len(),
        enc_asset_list(parse_asset_list(s).unwrap().0) == s.take(parse_asset_list(s).unwrap().1),
{
    reveal(enc_asset_list);
    reveal(parse_asset_list);
    lemma_parse_compact_sound(s);
    let (count, n) = parse_compact(s).unwrap();
    lemma_assets_sound(s.skip(n), count as nat);
    let (items, k) = parse_assets(s.skip(n), count as nat).unwrap();
    assert(Seq::<AssetModel>::empty() + items =~= items);
    assert(s.take(n) + s.skip(n).take(k) =~= s.take(n + k));
}

/// Appends the encoding of a list of assets.
pub fn put_asset_list(out: &mut Vec<u8>, list: &Vec<MultiAsset>)
    ensures
        final(out)@ == old(out)@ + enc_asset_list(views(list@)),
{
    proof {
        reveal(enc_asset_list);
    }
    put_compact(out, list.len() as u128);
    let ghost models = views(list@);
    let ghost target = out@ + enc_assets(models);
    let mut i: usize = 0;
    assert(models.skip(0) =~= models);
    while i < list.len()
        invariant
            i <= list@.len(),
            models == views(list@),
            out@ + enc_assets(models.skip(i as int)) == target,
        decreases list.len() - i,
    {
        let ghost before = out@;
        put_asset(out, &list[i]);
        proof {
            let here = models.skip(i as int);
            assert(here.skip(1) =~= models.skip(i + 1));
            assert(before + enc_assets(here) =~= before + enc_asset(here[0]) + enc_assets(
                here.skip(1),
            ));
        }
        i += 1;
    }
    assert(out@ + Seq::<u8>::empty() =~= out@);
    assert(target =~= old(out)@ + enc_asset_list(models));
}

/// Reads a list of assets.
pub fn take_asset_list(input: &[u8], pos: usize) -> (r: Option<(Vec<MultiAsset>, usize)>)
    requires
        pos <= input@.len(),
    ensures
        match r {
            Some((value, next)) => pos < next <= input@.len() && parse_asset_list(
                input@.skip(pos as int),
            ) == Some((views(value@), next - pos)),
            None => parse_asset_list(input@.skip(pos as int)).is_none(),
        },
{
    proof {
        reveal(parse_asset_list);
    }
    let (count, at1) = match take_compact(input, pos) {
        Some(x) => x,
        None => {
            return None;
        },
    };
    assert(input@.skip(pos as int).skip(at1 - pos) =~= input@.skip(at1 as int));
    let mut list: Vec<MultiAsset> = Vec::new();
    let mut cur: usize = at1;
    let mut i: u128 = 0;
    let ghost whole = parse_assets(input@.skip(at1 as int), count as nat);
    proof {
        assert(views(list@) =~= Seq::empty());
        if whole.is_some() {
            assert(Seq::<AssetModel>::empty() + whole.unwrap().0 =~= whole.unwrap().0);
        }
    }
    while i < count
        invariant
            i <= count,
            pos < at1 <= cur <= input@.len(),
            whole == parse_assets(input@.skip(at1 as int), count as nat),
            parse_asset_list(input@.skip(pos as int)) == extend(Seq::empty(), at1 - pos, whole),
            extend(
                views(list@),
                cur - at1,
                parse_assets(input@.skip(cur as int), (count - i) as nat),
            ) == whole,
        decreases count - i,
    {
        let ghost here = input@.skip(cur as int);
        match take_asset(input, cur) {
            Some((a, next)) => {
                proof {
                    assert(here.skip(next - cur) =~= input@.skip(next as int));
                    let r = parse_assets(input@.skip(next as int), (count - i - 1) as nat);
                    assert(views(list@.push(a)) =~= views(list@).push(a@));
                    if r.is_some() {
                        assert(views(list@) + (seq![a@] + r.unwrap().0) =~= views(list@).push(a@)
                            + r.unwrap().0);
                    }
                }
                list.push(a);
                cur = next;
            },
            None => {
                return None;
            },
        }
        i += 1;
    }
    proof {
        assert(views(list@) + Seq::<AssetModel>::empty() =~= views(list@));
        assert(Seq::<AssetModel>::empty() + views(list@) =~= views(list@));
    }
    Some((list, cur))
}

/// The encoding of a choice between the fungible and the non-fungible.
pub open spec fn enc_wild_fungibility(f: WildFungibility) -> Seq<u8> {
    match f {
        WildFungibility::Fungible => seq![0u8],
        WildFungibility::NonFungible => seq![1u8],
    }
}

/// The encoding of a wildcard.
#[verifier::opaque]
pub open spec fn enc_wild(w: WildModel) -> Seq<u8> {
    match w {
        WildModel::All => seq![0u8],
        WildModel::AllOf { id, fun } => seq![1u8] + enc_asset_id(id) + enc_wild_fungibility(fun),
    }
}

/// Reading a wildcard.
#[verifier::opaque]
pub open spec fn parse_wild(s: Seq<u8>) -> Option<(WildModel, int)> {
    if s.len() == 0 {
        None
    } else if s[0] == 0 {
        Some((WildModel::All, 1))
    } else if s[0] == 1 {
        match parse_asset_id(s.skip(1)) {
            Some((id, n)) => match parse_byte(s.skip(1 + n)) {
                Some((b, _)) => if b == 0 {
                    Some((WildModel::AllOf { id, fun: WildFungibility::Fungible }, 2 + n))
                } else if b == 1 {
                    Some((WildModel::AllOf { id, fun: WildFungibility::NonFungible }, 2 + n))
                } else {
                    None
                },
                None => None,
            },
            None => None,
        }
    } else {
        None
    }
}

/// A byte string that begins with the encoding of a wildcard is read as that
/// wildcard.
pub proof fn lemma_wild_complete(w: WildMultiAsset, rest: Seq<u8>)
    ensures
        parse_wild(enc_wild(w@) + rest) == Some((w@, enc_wild(w@).len() as int)),
{
    reveal(enc_wild);
    reveal(parse_wild);
    let s = enc_wild(w@) + rest;
    match w {
        WildMultiAsset::All => {},
        WildMultiAsset::AllOf { id, fun } => {
            let tail = enc_wild_fungibility(fun) + rest;
            assert(s.skip(1) =~= enc_asset_id(id@) + tail);
            lemma_asset_id_complete(id, tail);
            assert(s.skip(1 + enc_asset_id(id@).len() as int) =~= tail);
        },
    }
}

/// What is read as a wildcard is the encoding of the wildcard read.
pub proof fn lemma_wild_sound(s: Seq<u8>)
    requires
        parse_wild(s).is_some(),
    ensures
        0 < parse_wild(s).unwrap().1 <= s.len(),
        enc_wild(parse_wild(s).unwrap().0) == s.take(parse_wild(s).unwrap().1),
{
    reveal(enc_wild);
    reveal(parse_wild);
    if s[0] == 0 {
        assert(seq![0u8] =~= s.take(1));
    } else {
        lemma_asset_id_sound(s.skip(1));
        let (id, n) = parse_asset_id(s.skip(1)).unwrap();
        let b = s.skip(1 + n)[0];
        assert(seq![1u8] + s.skip(1).take(n) + seq![b] =~= s.take(2 + n));
    }
}

/// Appends the encoding of a wildcard.
pub fn put_wild(out: &mut Vec<u8>, w: &WildMultiAsset)
    ensures
        final(out)@ == old(out)@ + enc_wild(w@),
{
    proof {
        reveal(enc_wild);
    }
    match w {
        WildMultiAsset::All => {
            out.push(0);
        },
        WildMultiAsset::AllOf { id, fun } => {
            out.push(1);
            put_asset_id(out, id);
            match fun {
                WildFungibility::Fungible => {
                    out.push(0);
                },
                WildFungibility::NonFungible => {
                    out.push(1);
                },
            }
        },
    }
    assert(out@ =~= old(out)@ + enc_wild(w@));
}

/// Reads a wildcard.
pub fn take_wild(input: &[u8], pos: usize) -> (r: Option<(WildMultiAsset, usize)>)
    requires
        pos <= input@.len(),
    ensures
        match r {
            Some((value, next)) => pos < next <= input@.len() && parse_wild(
                input@.skip(pos as int),
            ) == Some((value@, next - pos)),
            None => parse_wild(input@.skip(pos as int)).is_none(),
        },
{
    proof {
        reveal(parse_wild);
    }
    if pos >= input.len() {
        return None;
    }
    let tag = input[pos];
    assert(input@.skip(pos as int).skip(1) =~= input@.skip(pos + 1));
    if tag == 0 {
        Some((WildMultiAsset::All, pos + 1))
    } else if tag == 1 {
        match take_asset_id(input, pos + 1) {
            Some((id, at1)) => {
                assert(input@.skip(pos as int).skip(at1 - pos) =~= input@.skip(at1 as int));
                match take_byte(input, at1) {
                    Some((b, next)) => if b == 0 {
                        Some((WildMultiAsset::AllOf { id, fun: WildFungibility::Fungible }, next))
                    } else if b == 1 {
                        Some(
                            (WildMultiAsset::AllOf { id, fun: WildFungibility::NonFungible }, next),
                        )
                    } else {
                        None
                    },
                    None => None,
                }
            },
            None => None,
        }
    } else {
        None
    }
}

/// The encoding of a filter.
#[verifier::opaque]
pub open spec fn enc_filter(f: FilterModel) -> Seq<u8> {
    match f {
        FilterModel::Definite(assets) => seq![0u8] + enc_asset_list(assets),
        FilterModel::Wild(w) => seq![1u8] + enc_wild(w),
    }
}

/// Reading a filter.
#[verifier::opaque]
pub open spec fn parse_filter(s: Seq<u8>) -> Option<(FilterModel, int)> {
    if s.len() == 0 {
        None
    } else if s[0] == 0 {
        match parse_asset_list(s.skip(1)) {
            Some((assets, n)) => Some((FilterModel::Definite(assets), 1 + n)),
            None => None,
        }
    } else if s[0] == 1 {
        match parse_wild(s.skip(1)) {
            Some((w, n)) => Some((FilterModel::Wild(w), 1 + n)),
            None => None,
        }
    } else {
        None
    }
}

/// A byte string that begins with the encoding of a filter is read as that
/// filter.
pub proof fn lemma_filter_complete(f: MultiAssetFilter, rest: Seq<u8>)
    ensures
        parse_filter(enc_filter(f@) + rest) == Some((f@, enc_filter(f@).len() as int)),
{
    reveal(enc_filter);
    reveal(parse_filter);
    let s = enc_filter(f@) + rest;
    match f {
        MultiAssetFilter::Definite(assets) => {
            assert(s.skip(1) =~= enc_asset_list(views(assets@)) + rest);
            lemma_asset_list_complete(assets, rest);
        },
        MultiAssetFilter::Wild(w) => {
            assert(s.skip(1) =~= enc_wild(w@) + rest);
            lemma_wild_complete(w, rest);
        },
    }
}

/// What is read as a filter is the encoding of the filter read.
pub proof fn lemma_filter_sound(s: Seq<u8>)
    requires
        parse_filter(s).is_some(),
    ensures
        0 < parse_filter(s).unwrap().1 <= s.len(),
        enc_filter(parse_filter(s).unwrap().0) == s.take(parse_filter(s).unwrap().1),
{
    reveal(enc_filter);
    reveal(parse_filter);
    if s[0] == 0 {
        lemma_asset_list_sound(s.skip(1));
        let (v, k) = parse_asset_list(s.skip(1)).unwrap();
        assert(seq![s[0]] + s.skip(1).take(k) =~= s.take(1 + k));
    } else {
        lemma_wild_sound(s.skip(1));
        let (v, k) = parse_wild(s.skip(1)).unwrap();
        assert(seq![s[0]] + s.skip(1).take(k) =~= s.take(1 + k));
    }
}

/// Appends the encoding of a filter.
pub fn put_filter(out: &mut Vec<u8>, f: &MultiAssetFilter)
    ensures
        final(out)@ == old(out)@ + enc_filter(f@),
{
    proof {
        reveal(enc_filter);
    }
    match f {
        MultiAssetFilter::Definite(assets) => {
            out.push(0);
            put_asset_list(out, assets);
        },
        MultiAssetFilter::Wild(w) => {
            out.push(1);
            put_wild(out, w);
        },
    }
    assert(out@ =~= old(out)@ + enc_filter(f@));
}

/// Reads a filter.
pub fn take_filter(input: &[u8], pos: usize) -> (r: Option<(MultiAssetFilter, usize)>)
    requires
        pos <= input@.len(),
    ensures
        match r {
            Some((value, next)) => pos < next <= input@.len() && parse_filter(
                input@.skip(pos as int),
            ) == Some((value@, next - pos)),
            None => parse_filter(input@.skip(pos as int)).is_none(),
        },
{
    proof {
        reveal(parse_filter);
    }
    if pos >= input.len() {
        return None;
    }
    let tag = input[pos];
    assert(input@.skip(pos as int).skip(1) =~= input@.skip(pos + 1));
    if tag == 0 {
        match take_asset_list(input, pos + 1) {
            Some((assets, next)) => Some((MultiAssetFilter::Definite(assets), next)),
            None => None,
        }
    } else if tag == 1 {
        match take_wild(input, pos + 1) {
            Some((w, next)) => Some((MultiAssetFilter::Wild(w), next)),
            None => None,
        }
    } else {
        None
    }
}

} // verus!
