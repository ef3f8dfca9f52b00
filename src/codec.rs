//! The wire format of the identity program: SCALE, as parity_scale_codec
//! writes it. Enums are a one-byte variant index followed by the variant's
//! fields; sequences and texts carry a compact length prefix.

use parity_scale_codec::{Compact, Decode, Encode};
use vstd::prelude::*;
use vstd::utf8::{encode_utf8, encode_utf8_decode_utf8};

use crate::record::{texts_of, IdentityData, IdentityModel, Region};

verus! {

/// `p` stands in `s` from position `pos` on.
pub open spec fn occurs_at(s: Seq<u8>, pos: int, p: Seq<u8>) -> bool {
    0 <= pos && pos + p.len() <= s.len() && s.subrange(pos, pos + p.len()) == p
}

/// Four bytes of `n`, least significant first.
pub open spec fn le4(n: u32) -> Seq<u8> {
    seq![(n & 0xff) as u8, ((n >> 8u32) & 0xff) as u8, ((n >> 16u32) & 0xff) as u8, (n >> 24u32) as u8]
}

/// The compact encoding of `n`: one, two or four bytes holding `n` shifted
/// left by two with the mode in the low bits, or the byte `3` and `n` in four
/// bytes.
pub open spec fn compact_of(n: u32) -> Seq<u8> {
    if n < 64 {
        seq![(n << 2u32) as u8]
    } else if n < 16384 {
        seq![(((n << 2u32) | 1) & 0xff) as u8, ((n << 2u32) >> 8u32) as u8]
    } else if n < 0x4000_0000 {
        le4((n << 2u32) | 2)
    } else {
        seq![3u8] + le4(n)
    }
}

/// A text is within what the format can hold.
pub open spec fn text_fits(s: Seq<char>) -> bool {
    encode_utf8(s).len() <= u32::MAX
}

/// A text: the compact length of its UTF-8 bytes, then those bytes.
pub open spec fn text_bytes(s: Seq<char>) -> Seq<u8> {
    compact_of(encode_utf8(s).len() as u32) + encode_utf8(s)
}

/// Relies on parity_scale_codec's `Encode` for `Compact<u32>`: the compact
/// encoding of the number.
#[verifier::external_body]
pub(crate) fn encode_compact(n: u32) -> (r: Vec<u8>)
    ensures
        r@ == compact_of(n),
{
    Compact(n).encode()
}

/// Relies on parity_scale_codec's `Decode` for `Compact<u32>` over a byte
/// slice: it accepts exactly the canonical encodings, reads nothing past
/// one, and returns the number with the count of bytes left after it.
#[verifier::external_body]
pub(crate) fn decode_compact(input: &[u8], pos: usize) -> (r: Option<(u32, usize)>)
    requires
        pos <= input@.len(),
    ensures
        match r {
            Some((n, rest)) => occurs_at(input@, pos as int, compact_of(n)) && rest == input@.len()
                - pos - compact_of(n).len(),
            None => forall|n: u32| !occurs_at(input@, pos as int, compact_of(n)),
        },
{
    let mut rest = &input[pos..];
    match <Compact<u32>>::decode(&mut rest) {
        Ok(n) => Some((n.0, rest.len())),
        Err(_) => None,
    }
}

/// Relies on parity_scale_codec's `Encode` for `String`: the compact length
/// of the UTF-8 bytes, then the bytes. It panics on a text longer than
/// `u32::MAX` bytes.
#[verifier::external_body]
pub(crate) fn encode_string(s: &String) -> (r: Vec<u8>)
    requires
        text_fits(s@),
    ensures
        r@ == text_bytes(s@),
{
    s.encode()
}

/// Relies on parity_scale_codec's `Decode` for `String` over a byte slice: a
/// compact length, that many bytes, and a check that they are UTF-8. It
/// returns the text with the count of bytes left after it.
#[verifier::external_body]
pub(crate) fn decode_string(input: &[u8], pos: usize) -> (r: Option<(String, usize)>)
    requires
        pos <= input@.len(),
    ensures
        match r {
            Some((s, rest)) => text_fits(s@) && occurs_at(input@, pos as int, text_bytes(s@))
                && rest == input@.len() - pos - text_bytes(s@).len(),
            None => forall|s: Seq<char>| text_fits(s) ==> !occurs_at(input@, pos as int, text_bytes(s)),
        },
{
    let mut rest = &input[pos..];
    match String::decode(&mut rest) {
        Ok(s) => Some((s, rest.len())),
        Err(_) => None,
    }
}

/// `a + b` stands at `pos` exactly when `a` stands there and `b` right after it.
pub proof fn lemma_occurs_concat(s: Seq<u8>, pos: int, a: Seq<u8>, b: Seq<u8>)
    ensures
        occurs_at(s, pos, a + b) <==> (occurs_at(s, pos, a) && occurs_at(s, pos + a.len(), b)),
{
    if occurs_at(s, pos, a + b) {
        assert(s.subrange(pos, pos + a.len()) =~= (a + b).subrange(0, a.len() as int));
        assert(s.subrange(pos + a.len(), pos + a.len() + b.len()) =~= (a + b).subrange(
            a.len() as int,
            (a + b).len() as int,
        ));
        assert(a =~= (a + b).subrange(0, a.len() as int));
        assert(b =~= (a + b).subrange(a.len() as int, (a + b).len() as int));
    }
    if occurs_at(s, pos, a) && occurs_at(s, pos + a.len(), b) {
        assert(s.subrange(pos, pos + (a + b).len()) =~= a + b) by {
            assert forall|i: int| 0 <= i < (a + b).len() implies s.subrange(
                pos,
                pos + (a + b).len(),
            )[i] == (a + b)[i] by {
                if i < a.len() {
                    assert(s.subrange(pos, pos + a.len())[i] == a[i]);
                } else {
                    assert(s.subrange(pos + a.len(), pos + a.len() + b.len())[i - a.len()]
                        == b[i - a.len()]);
                }
            }
        }
    }
}

proof fn lemma_compact_first_byte(a: u32, b: u32)
    requires
        compact_of(a)[0] == compact_of(b)[0],
    ensures
        compact_of(a).len() == compact_of(b).len(),
{
    let x = compact_of(a)[0];
    assert(a < 64 ==> (((a << 2u32) as u8) & 3) == 0) by (bit_vector);
    assert(b < 64 ==> (((b << 2u32) as u8) & 3) == 0) by (bit_vector);
    assert(64 <= a < 16384 ==> (((((a << 2u32) | 1) & 0xff) as u8) & 3) == 1) by (bit_vector);
    assert(64 <= b < 16384 ==> (((((b << 2u32) | 1) & 0xff) as u8) & 3) == 1) by (bit_vector);
    assert(16384 <= a < 0x4000_0000 ==> (((((a << 2u32) | 2) & 0xff) as u8) & 3) == 2)
        by (bit_vector);
    assert(16384 <= b < 0x4000_0000 ==> (((((b << 2u32) | 2) & 0xff) as u8) & 3) == 2)
        by (bit_vector);
    assert((3u8 & 3) == 3) by (bit_vector);
}

proof fn lemma_compact_injective(a: u32, b: u32)
    requires
        compact_of(a) == compact_of(b),
    ensures
        a == b,
{
    lemma_compact_first_byte(a, b);
    let ca = compact_of(a);
    let cb = compact_of(b);
    assert(ca[0] == cb[0]);
    if a < 64 {
        assert(a < 64 && b < 64 && (a << 2u32) as u8 == (b << 2u32) as u8 ==> a == b)
            by (bit_vector);
        assert((a << 2u32) as u8 == ca[0]);
    }
    assert(64 <= a < 16384 && 64 <= b < 16384 && (((a << 2u32) | 1) & 0xff) as u8 == (((b
        << 2u32) | 1) & 0xff) as u8 && ((a << 2u32) >> 8u32) as u8 == ((b << 2u32) >> 8u32) as u8
        ==> a == b) by (bit_vector);
    assert(16384 <= a < 0x4000_0000 && 16384 <= b < 0x4000_0000 && (((a << 2u32) | 2) & 0xff) as u8
        == (((b << 2u32) | 2) & 0xff) as u8 && ((((a << 2u32) | 2) >> 8u32) & 0xff) as u8 == ((((b
        << 2u32) | 2) >> 8u32) & 0xff) as u8 && ((((a << 2u32) | 2) >> 16u32) & 0xff) as u8 == ((((b
        << 2u32) | 2) >> 16u32) & 0xff) as u8 && (((a << 2u32) | 2) >> 24u32) as u8 == (((b
        << 2u32) | 2) >> 24u32) as u8 ==> a == b) by (bit_vector);
    assert((a & 0xff) as u8 == (b & 0xff) as u8 && ((a >> 8u32) & 0xff) as u8 == ((b >> 8u32)
        & 0xff) as u8 && ((a >> 16u32) & 0xff) as u8 == ((b >> 16u32) & 0xff) as u8 && (a
        >> 24u32) as u8 == (b >> 24u32) as u8 ==> a == b) by (bit_vector);
    if a >= 64 {
        assert(ca[1] == cb[1]);
        if ca.len() >= 4 {
            assert(ca[2] == cb[2]);
            assert(ca[3] == cb[3]);
        }
        if ca.len() == 5 {
            assert(ca[4] == cb[4]);
        }
    }
}

/// No two numbers have compact encodings that stand at the same place.
pub proof fn lemma_compact_unique(s: Seq<u8>, pos: int, a: u32, b: u32)
    requires
        occurs_at(s, pos, compact_of(a)),
        occurs_at(s, pos, compact_of(b)),
    ensures
        a == b,
{
    assert(compact_of(a)[0] == s.subrange(pos, pos + compact_of(a).len())[0]);
    assert(compact_of(b)[0] == s.subrange(pos, pos + compact_of(b).len())[0]);
    lemma_compact_first_byte(a, b);
    lemma_compact_injective(a, b);
}

/// No two texts have encodings that stand at the same place.
pub proof fn lemma_text_unique(s: Seq<u8>, pos: int, a: Seq<char>, b: Seq<char>)
    requires
        text_fits(a),
        text_fits(b),
        occurs_at(s, pos, text_bytes(a)),
        occurs_at(s, pos, text_bytes(b)),
    ensures
        a == b,
{
    let la = encode_utf8(a).len() as u32;
    let lb = encode_utf8(b).len() as u32;
    lemma_occurs_concat(s, pos, compact_of(la), encode_utf8(a));
    lemma_occurs_concat(s, pos, compact_of(lb), encode_utf8(b));
    lemma_compact_unique(s, pos, la, lb);
    assert(encode_utf8(a) == encode_utf8(b));
    encode_utf8_decode_utf8(a);
    encode_utf8_decode_utf8(b);
}

/// The texts of `ks`, one after the other, with no count in front.
pub open spec fn texts_body(ks: Seq<Seq<char>>) -> Seq<u8>
    decreases ks.len(),
{
    if ks.len() == 0 {
        Seq::empty()
    } else {
        texts_body(ks.drop_last()) + text_bytes(ks.last())
    }
}

/// A sequence of texts: the compact count, then each text in order.
pub open spec fn texts_bytes(ks: Seq<Seq<char>>) -> Seq<u8> {
    compact_of(ks.len() as u32) + texts_body(ks)
}

/// A sequence of texts is within what the format can hold.
pub open spec fn texts_fit(ks: Seq<Seq<char>>) -> bool {
    &&& ks.len() <= u32::MAX
    &&& forall|i: int| 0 <= i < ks.len() ==> text_fits(#[trigger] ks[i])
}

/// The byte that stands for a region.
pub open spec fn region_index(r: Region) -> u8 {
    match r {
        Region::Earth => 0,
        Region::Europe => 1,
        Region::LatAm => 2,
    }
}

/// An identity record is within what the format can hold.
pub open spec fn identity_fits(d: IdentityModel) -> bool {
    text_fits(d.name) && text_fits(d.socials) && texts_fit(d.keywords)
}

/// An identity record: name, socials, keywords and region, in that order.
pub open spec fn identity_bytes(d: IdentityModel) -> Seq<u8> {
    text_bytes(d.name) + text_bytes(d.socials) + texts_bytes(d.keywords) + seq![region_index(d.region)]
}

proof fn lemma_texts_body_push(ks: Seq<Seq<char>>, k: Seq<char>)
    ensures
        texts_body(ks.push(k)) == texts_body(ks) + text_bytes(k),
{
    assert(ks.push(k).drop_last() =~= ks);
}

proof fn lemma_texts_prefix(s: Seq<u8>, pos: int, ks: Seq<Seq<char>>, j: int)
    requires
        occurs_at(s, pos, texts_body(ks)),
        0 <= j <= ks.len(),
    ensures
        occurs_at(s, pos, texts_body(ks.take(j))),
    decreases ks.len(),
{
    if j == ks.len() {
        assert(ks.take(j) =~= ks);
    } else {
        lemma_occurs_concat(s, pos, texts_body(ks.drop_last()), text_bytes(ks.last()));
        lemma_texts_prefix(s, pos, ks.drop_last(), j);
        assert(ks.drop_last().take(j) =~= ks.take(j));
    }
}

pub(crate) proof fn lemma_texts_unique(s: Seq<u8>, pos: int, a: Seq<Seq<char>>, b: Seq<Seq<char>>)
    requires
        texts_fit(a),
        texts_fit(b),
        a.len() == b.len(),
        occurs_at(s, pos, texts_body(a)),
        occurs_at(s, pos, texts_body(b)),
    ensures
        a == b,
    decreases a.len(),
{
    if a.len() > 0 {
        lemma_occurs_concat(s, pos, texts_body(a.drop_last()), text_bytes(a.last()));
        lemma_occurs_concat(s, pos, texts_body(b.drop_last()), text_bytes(b.last()));
        lemma_texts_unique(s, pos, a.drop_last(), b.drop_last());
        assert(text_fits(a[a.len() - 1]));
        assert(text_fits(b[b.len() - 1]));
        lemma_text_unique(s, pos + texts_body(a.drop_last()).len(), a.last(), b.last());
        assert(a =~= a.drop_last().push(a.last()));
        assert(b =~= b.drop_last().push(b.last()));
    } else {
        assert(a =~= b);
    }
}

/// Where the encoding of a sequence of texts stands, its count stands first
/// and its texts right after.
pub(crate) proof fn lemma_texts_split(s: Seq<u8>, pos: int, ks: Seq<Seq<char>>)
    ensures
        occurs_at(s, pos, texts_bytes(ks)) <==> (occurs_at(s, pos, compact_of(ks.len() as u32))
            && occurs_at(s, pos + compact_of(ks.len() as u32).len(), texts_body(ks))),
{
    lemma_occurs_concat(s, pos, compact_of(ks.len() as u32), texts_body(ks));
}

/// Where a record's encoding stands, each field's stands in order.
proof fn lemma_identity_split(s: Seq<u8>, pos: int, d: IdentityModel)
    ensures
        occurs_at(s, pos, identity_bytes(d)) <==> {
            &&& occurs_at(s, pos, text_bytes(d.name))
            &&& occurs_at(s, pos + text_bytes(d.name).len(), text_bytes(d.socials))
            &&& occurs_at(
                s,
                pos + text_bytes(d.name).len() + text_bytes(d.socials).len(),
                texts_bytes(d.keywords),
            )
            &&& occurs_at(
                s,
                pos + text_bytes(d.name).len() + text_bytes(d.socials).len() + texts_bytes(
                    d.keywords,
                ).len(),
                seq![region_index(d.region)],
            )
        },
{
    let a = text_bytes(d.name);
    let b = text_bytes(d.socials);
    let c = texts_bytes(d.keywords);
    lemma_occurs_concat(s, pos, a + b + c, seq![region_index(d.region)]);
    lemma_occurs_concat(s, pos, a + b, c);
    lemma_occurs_concat(s, pos, a, b);
}

/// The same record has one encoding only where it stands: the encoding of a
/// record is preceded by no other record's, so reading it back gives the
/// record that was written.
pub proof fn identity_round_trip(d: IdentityModel, m: IdentityModel)
    requires
        identity_fits(d),
        identity_fits(m),
        occurs_at(identity_bytes(d), 0, identity_bytes(m)),
    ensures
        m == d,
{
    let s = identity_bytes(d);
    assert(occurs_at(s, 0, s)) by {
        assert(s.subrange(0, s.len() as int) =~= s);
    }
    lemma_identity_split(s, 0, d);
    lemma_identity_split(s, 0, m);
    lemma_text_unique(s, 0, d.name, m.name);
    let p1 = text_bytes(d.name).len() as int;
    lemma_text_unique(s, p1, d.socials, m.socials);
    let p2 = p1 + text_bytes(d.socials).len();
    lemma_texts_split(s, p2, d.keywords);
    lemma_texts_split(s, p2, m.keywords);
    lemma_compact_unique(s, p2, d.keywords.len() as u32, m.keywords.len() as u32);
    let p3 = p2 + compact_of(d.keywords.len() as u32).len();
    lemma_texts_unique(s, p3, d.keywords, m.keywords);
    let p4 = p2 + texts_bytes(d.keywords).len();
    assert(s[p4] == seq![region_index(d.region)][0]);
    assert(s.subrange(p4, p4 + 1)[0] == seq![region_index(m.region)][0]);
}

/// Every text of `ks` appended to `out`, each behind its length.
fn encode_texts_to(ks: &Vec<String>, out: &mut Vec<u8>)
    requires
        texts_fit(texts_of(ks@)),
    ensures
        final(out)@ == old(out)@ + texts_body(texts_of(ks@)),
{
    let ghost start = out@;
    let mut i: usize = 0;
    while i < ks.len()
        invariant
            i <= ks@.len(),
            texts_fit(texts_of(ks@)),
            out@ == start + texts_body(texts_of(ks@).take(i as int)),
        decreases ks@.len() - i,
    {
        assert(text_fits(texts_of(ks@)[i as int]));
        let mut bytes = encode_string(&ks[i]);
        out.append(&mut bytes);
        proof {
            let ts = texts_of(ks@);
            assert(ts.take(i + 1) =~= ts.take(i as int).push(ts[i as int]));
            lemma_texts_body_push(ts.take(i as int), ts[i as int]);
        }
        i = i + 1;
    }
    assert(texts_of(ks@).take(i as int) =~= texts_of(ks@));
}

/// A sequence of texts appended to `out`: its count, then each text.
pub(crate) fn encode_keywords_to(ks: &Vec<String>, out: &mut Vec<u8>)
    requires
        texts_fit(texts_of(ks@)),
    ensures
        final(out)@ == old(out)@ + texts_bytes(texts_of(ks@)),
{
    let mut head = encode_compact(ks.len() as u32);
    out.append(&mut head);
    encode_texts_to(ks, out);
    assert(final(out)@ =~= old(out)@ + texts_bytes(texts_of(ks@)));
}

pub(crate) fn region_to_byte(r: Region) -> (b: u8)
    ensures
        b == region_index(r),
{
    match r {
        Region::Earth => 0,
        Region::Europe => 1,
        Region::LatAm => 2,
    }
}

/// The wire encoding of an identity record.
pub fn encode_identity(d: &IdentityData) -> (r: Vec<u8>)
    requires
        identity_fits(d@),
    ensures
        r@ == identity_bytes(d@),
{
    let mut out = encode_string(&d.name);
    let mut socials = encode_string(&d.socials);
    out.append(&mut socials);
    encode_keywords_to(&d.keywords, &mut out);
    out.push(region_to_byte(d.region));
    assert(out@ =~= identity_bytes(d@));
    out
}

pub(crate) fn decode_region(input: &[u8], pos: usize) -> (r: Option<(Region, usize)>)
    requires
        pos <= input@.len(),
    ensures
        match r {
            Some((g, p)) => occurs_at(input@, pos as int, seq![region_index(g)]) && p == pos + 1,
            None => forall|g: Region| !occurs_at(input@, pos as int, seq![region_index(g)]),
        },
{
    if pos >= input.len() {
        return None;
    }
    let b = input[pos];
    assert(input@.subrange(pos as int, pos + 1) =~= seq![b]);
    if b == 0 {
        Some((Region::Earth, pos + 1))
    } else if b == 1 {
        Some((Region::Europe, pos + 1))
    } else if b == 2 {
        Some((Region::LatAm, pos + 1))
    } else {
        assert forall|g: Region| !occurs_at(input@, pos as int, seq![region_index(g)]) by {
            if occurs_at(input@, pos as int, seq![region_index(g)]) {
                assert(input@.subrange(pos as int, pos + 1)[0] == region_index(g));
            }
        }
        None
    }
}

/// Reads a sequence of texts that starts at `pos`.
pub(crate) fn decode_keywords(input: &[u8], pos: usize) -> (r: Option<(Vec<String>, usize)>)
    requires
        pos <= input@.len(),
    ensures
        match r {
            Some((ks, p)) => texts_fit(texts_of(ks@)) && occurs_at(
                input@,
                pos as int,
                texts_bytes(texts_of(ks@)),
            ) && p == pos + texts_bytes(texts_of(ks@)).len(),
            None => forall|ks: Seq<Seq<char>>|
                texts_fit(ks) ==> !occurs_at(input@, pos as int, #[trigger] texts_bytes(ks)),
        },
{
    let (n, rest) = match decode_compact(input, pos) {
        Some(x) => x,
        None => {
            assert forall|ks: Seq<Seq<char>>|
                texts_fit(ks) implies !occurs_at(input@, pos as int, #[trigger] texts_bytes(ks)) by {
                lemma_texts_split(input@, pos as int, ks);
            }
            return None;
        },
    };
    let start: usize = input.len() - rest;
    let mut p: usize = start;
    let mut out: Vec<String> = Vec::new();
    let mut i: u32 = 0;
    proof {
        assert(texts_of(out@) =~= Seq::<Seq<char>>::empty());
        assert(input@.subrange(start as int, start as int) =~= Seq::<u8>::empty());
        assert forall|ks: Seq<Seq<char>>| #[trigger] ks.take(0) == texts_of(out@) by {
            assert(ks.take(0) =~= texts_of(out@));
        }
    }
    while i < n
        invariant
            pos <= start <= p <= input@.len(),
            occurs_at(input@, pos as int, compact_of(n)),
            start == pos + compact_of(n).len(),
            i <= n,
            out@.len() == i,
            texts_fit(texts_of(out@)),
            occurs_at(input@, start as int, texts_body(texts_of(out@))),
            p == start + texts_body(texts_of(out@)).len(),
            forall|ks: Seq<Seq<char>>|
                texts_fit(ks) && ks.len() == n && occurs_at(input@, start as int, texts_body(ks))
                    ==> #[trigger] ks.take(i as int) == texts_of(out@),
        decreases n - i,
    {
        match decode_string(input, p) {
            Some((s, rest)) => {
                proof {
                    let old_out = texts_of(out@);
                    lemma_texts_body_push(old_out, s@);
                    lemma_occurs_concat(input@, start as int, texts_body(old_out), text_bytes(s@));
                    assert forall|ks: Seq<Seq<char>>|
                        texts_fit(ks) && ks.len() == n && occurs_at(
                            input@,
                            start as int,
                            texts_body(ks),
                        ) implies #[trigger] ks.take(i + 1) == old_out.push(s@) by {
                        assert(ks.take(i as int) == old_out);
                        lemma_texts_prefix(input@, start as int, ks, i + 1);
                        assert(ks.take(i + 1) =~= ks.take(i as int).push(ks[i as int]));
                        lemma_texts_body_push(ks.take(i as int), ks[i as int]);
                        lemma_occurs_concat(
                            input@,
                            start as int,
                            texts_body(ks.take(i as int)),
                            text_bytes(ks[i as int]),
                        );
                        assert(text_fits(ks[i as int]));
                        lemma_text_unique(input@, p as int, s@, ks[i as int]);
                    }
                }
                let ghost before = out@;
                let ghost text = s@;
                out.push(s);
                proof {
                    assert(out@.drop_last() =~= before);
                    assert(texts_of(out@) =~= texts_of(before).push(text));
                }
                p = input.len() - rest;
                i = i + 1;
            },
            None => {
                assert forall|ks: Seq<Seq<char>>|
                    texts_fit(ks) implies !occurs_at(input@, pos as int, #[trigger] texts_bytes(ks)) by {
                    lemma_texts_split(input@, pos as int, ks);
                    if occurs_at(input@, pos as int, texts_bytes(ks)) {
                        lemma_compact_unique(input@, pos as int, n, ks.len() as u32);
                        assert(ks.take(i as int) == texts_of(out@));
                        lemma_texts_prefix(input@, start as int, ks, i + 1);
                        assert(ks.take(i + 1) =~= ks.take(i as int).push(ks[i as int]));
                        lemma_texts_body_push(ks.take(i as int), ks[i as int]);
                        lemma_occurs_concat(
                            input@,
                            start as int,
                            texts_body(ks.take(i as int)),
                            text_bytes(ks[i as int]),
                        );
                        assert(text_fits(ks[i as int]));
                    }
                }
                return None;
            },
        }
    }
    proof {
        lemma_texts_split(input@, pos as int, texts_of(out@));
    }
    Some((out, p))
}

/// Reads an identity record from the front of `input`; bytes after it are
/// not looked at. `None` exactly when no record's encoding stands there.
pub fn decode_identity(input: &[u8]) -> (r: Option<IdentityData>)
    ensures
        match r {
            Some(d) => identity_fits(d@) && occurs_at(input@, 0, identity_bytes(d@)),
            None => forall|m: IdentityModel|
                identity_fits(m) ==> !occurs_at(input@, 0, #[trigger] identity_bytes(m)),
        },
{
    let (name, rest) = match decode_string(input, 0) {
        Some(x) => x,
        None => {
            assert forall|m: IdentityModel|
                identity_fits(m) implies !occurs_at(input@, 0, #[trigger] identity_bytes(m)) by {
                lemma_identity_split(input@, 0, m);
            }
            return None;
        },
    };
    let p1 = input.len() - rest;
    let (socials, rest) = match decode_string(input, p1) {
        Some(x) => x,
        None => {
            assert forall|m: IdentityModel|
                identity_fits(m) implies !occurs_at(input@, 0, #[trigger] identity_bytes(m)) by {
                lemma_identity_split(input@, 0, m);
                if occurs_at(input@, 0, identity_bytes(m)) {
                    lemma_text_unique(input@, 0, name@, m.name);
                }
            }
            return None;
        },
    };
    let p2 = input.len() - rest;
    let (keywords, p3) = match decode_keywords(input, p2) {
        Some(x) => x,
        None => {
            assert forall|m: IdentityModel|
                identity_fits(m) implies !occurs_at(input@, 0, #[trigger] identity_bytes(m)) by {
                lemma_identity_split(input@, 0, m);
                if occurs_at(input@, 0, identity_bytes(m)) {
                    lemma_text_unique(input@, 0, name@, m.name);
                    lemma_text_unique(input@, p1 as int, socials@, m.socials);
                }
            }
            return None;
        },
    };
    let (region, _p4) = match decode_region(input, p3) {
        Some(x) => x,
        None => {
            assert forall|m: IdentityModel|
                identity_fits(m) implies !occurs_at(input@, 0, #[trigger] identity_bytes(m)) by {
                lemma_identity_split(input@, 0, m);
                if occurs_at(input@, 0, identity_bytes(m)) {
                    lemma_text_unique(input@, 0, name@, m.name);
                    lemma_text_unique(input@, p1 as int, socials@, m.socials);
                    let ks = texts_of(keywords@);
                    lemma_texts_split(input@, p2 as int, ks);
                    lemma_texts_split(input@, p2 as int, m.keywords);
                    lemma_compact_unique(input@, p2 as int, ks.len() as u32, m.keywords.len() as u32);
                    lemma_texts_unique(
                        input@,
                        p2 + compact_of(ks.len() as u32).len(),
                        ks,
                        m.keywords,
                    );
                }
            }
            return None;
        },
    };
    let d = IdentityData { name, socials, keywords, region };
    proof {
        lemma_identity_split(input@, 0, d@);
    }
    Some(d)
}

} // verus!
