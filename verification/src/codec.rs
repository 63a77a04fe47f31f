//! The entry codec: log entries and their compact binary representation.
//!
//! An encoded entry is a one-byte discriminant followed by length-prefixed
//! UTF-8 strings: a key and a value for a single write, or a pair count and
//! that many key/value pairs for a batch. All length prefixes are 32-bit
//! little-endian.

use vstd::bytes::*;
use vstd::prelude::*;
use vstd::string::*;
use vstd::utf8::*;

verus! {

use crate::WalError;

/// Discriminant byte of a single-write entry.
pub const TAG_PUT: u8 = 0;

/// Discriminant byte of a batch entry.
pub const TAG_BATCH: u8 = 1;

/// A mutation recorded in the log: one write, or an atomic batch of writes.
#[derive(Debug, PartialEq)]
pub enum WalEntry {
    Put(String, String),
    Batch(Vec<(String, String)>),
}

/// A read-only projection of an encoded entry, borrowing the string contents
/// straight out of the encoded bytes.
#[derive(Debug)]
pub enum WalEntryView<'a> {
    Put(&'a str, &'a str),
    Batch(Vec<(&'a str, &'a str)>),
}

/// The mathematical shape of a log entry: its string contents alone.
pub enum WalEntryModel {
    Put { key: Seq<char>, value: Seq<char> },
    Batch { pairs: Seq<(Seq<char>, Seq<char>)> },
}

/// The view of a sequence of owned string pairs.
pub open spec fn pairs_view(ps: Seq<(String, String)>) -> Seq<(Seq<char>, Seq<char>)> {
    Seq::new(ps.len(), |i: int| (ps[i].0@, ps[i].1@))
}

impl View for WalEntry {
    type V = WalEntryModel;

    open spec fn view(&self) -> WalEntryModel {
        match self {
            WalEntry::Put(k, v) => WalEntryModel::Put { key: k@, value: v@ },
            WalEntry::Batch(ps) => WalEntryModel::Batch { pairs: pairs_view(ps@) },
        }
    }
}

impl<'a> View for WalEntryView<'a> {
    type V = WalEntryModel;

    open spec fn view(&self) -> WalEntryModel {
        match self {
            WalEntryView::Put(k, v) => WalEntryModel::Put { key: k@, value: v@ },
            WalEntryView::Batch(ps) => WalEntryModel::Batch {
                pairs: Seq::new(ps@.len(), |i: int| (ps@[i].0@, ps@[i].1@)),
            },
        }
    }
}

/// The encoding of one string field: a 32-bit little-endian byte length,
/// then the string's UTF-8 bytes.
pub open spec fn spec_encode_str(s: Seq<char>) -> Seq<u8> {
    spec_u32_to_le_bytes(encode_utf8(s).len() as u32) + encode_utf8(s)
}

/// The concatenated encodings of a sequence of key/value pairs.
pub open spec fn spec_encode_pairs(ps: Seq<(Seq<char>, Seq<char>)>) -> Seq<u8>
    decreases ps.len(),
{
    if ps.len() == 0 {
        Seq::empty()
    } else {
        spec_encode_str(ps[0].0) + spec_encode_str(ps[0].1) + spec_encode_pairs(ps.drop_first())
    }
}

/// The encoding of a whole entry.
pub open spec fn spec_encode(e: WalEntryModel) -> Seq<u8> {
    match e {
        WalEntryModel::Put { key, value } => seq![TAG_PUT] + spec_encode_str(key)
            + spec_encode_str(value),
        WalEntryModel::Batch { pairs } => seq![TAG_BATCH] + spec_u32_to_le_bytes(
            pairs.len() as u32,
        ) + spec_encode_pairs(pairs),
    }
}

/// An encoding fits in a frame only if its length fits the 32-bit length
/// field of the frame header.
pub open spec fn fits_frame(e: WalEntryModel) -> bool {
    spec_encode(e).len() <= u32::MAX
}

/// Parses one length-prefixed string starting at `pos`; yields the decoded
/// characters and the position just past the field.
pub open spec fn parse_str_at(b: Seq<u8>, pos: int) -> Option<(Seq<char>, int)> {
    if 0 <= pos && pos + 4 <= b.len() {
        let n = spec_u32_from_le_bytes(b.subrange(pos, pos + 4)) as int;
        if pos + 4 + n <= b.len() {
            let sb = b.subrange(pos + 4, pos + 4 + n);
            if valid_utf8(sb) {
                Some((decode_utf8(sb), pos + 4 + n))
            } else {
                None
            }
        } else {
            None
        }
    } else {
        None
    }
}

/// Parses `count` key/value pairs starting at `pos`.
pub open spec fn parse_pairs_at(b: Seq<u8>, pos: int, count: int) -> Option<
    (Seq<(Seq<char>, Seq<char>)>, int),
>
    decreases count,
{
    if count <= 0 {
        Some((Seq::empty(), pos))
    } else {
        match parse_str_at(b, pos) {
            None => None,
            Some((k, p1)) => match parse_str_at(b, p1) {
                None => None,
                Some((v, p2)) => match parse_pairs_at(b, p2, count - 1) {
                    None => None,
                    Some((rest, p3)) => Some((seq![(k, v)] + rest, p3)),
                },
            },
        }
    }
}

/// Structural decoding of a payload: `None` exactly on malformed bytes
/// (bad discriminant, short or overlong fields, invalid UTF-8).
pub open spec fn spec_decode(b: Seq<u8>) -> Option<WalEntryModel> {
    if b.len() < 1 {
        None
    } else if b[0] == TAG_PUT {
        match parse_str_at(b, 1) {
            None => None,
            Some((k, p1)) => match parse_str_at(b, p1) {
                None => None,
                Some((v, p2)) => if p2 == b.len() {
                    Some(WalEntryModel::Put { key: k, value: v })
                } else {
                    None
                },
            },
        }
    } else if b[0] == TAG_BATCH {
        if 5 <= b.len() {
            let c = spec_u32_from_le_bytes(b.subrange(1, 5)) as int;
            match parse_pairs_at(b, 5, c) {
                None => None,
                Some((ps, p)) => if p == b.len() {
                    Some(WalEntryModel::Batch { pairs: ps })
                } else {
                    None
                },
            }
        } else {
            None
        }
    } else {
        None
    }
}

/// Appending one more pair extends the encoding of a pair sequence on the
/// right.
pub proof fn lemma_encode_pairs_push(ps: Seq<(Seq<char>, Seq<char>)>, p: (Seq<char>, Seq<char>))
    ensures
        spec_encode_pairs(ps.push(p)) == spec_encode_pairs(ps) + spec_encode_str(p.0)
            + spec_encode_str(p.1),
    decreases ps.len(),
{
    assert(ps.push(p)[ps.len() as int] == p);
    if ps.len() == 0 {
        let ps2 = ps.push(p);
        assert(ps2.len() == 1);
        assert(ps2[0] == p);
        assert(ps2.drop_first() =~= Seq::<(Seq<char>, Seq<char>)>::empty());
        assert(spec_encode_pairs(ps2.drop_first()) == Seq::<u8>::empty());
        assert(spec_encode_pairs(ps2) == spec_encode_str(p.0) + spec_encode_str(p.1)
            + spec_encode_pairs(ps2.drop_first()));
        assert(spec_encode_pairs(ps2) =~= spec_encode_str(p.0) + spec_encode_str(p.1));
        assert(spec_encode_pairs(ps) == Seq::<u8>::empty());
        assert(spec_encode_pairs(ps) + spec_encode_str(p.0) + spec_encode_str(p.1)
            =~= spec_encode_str(p.0) + spec_encode_str(p.1));
    } else {
        assert(ps.push(p).drop_first() =~= ps.drop_first().push(p));
        lemma_encode_pairs_push(ps.drop_first(), p);
        assert(spec_encode_pairs(ps.push(p)) =~= spec_encode_pairs(ps) + spec_encode_str(p.0)
            + spec_encode_str(p.1));
    }
}

/// Every pair contributes at least its own two fields to the length of the
/// encoding of a pair sequence.
pub proof fn lemma_encode_pairs_len(ps: Seq<(Seq<char>, Seq<char>)>)
    ensures
        spec_encode_pairs(ps).len() >= 8 * ps.len(),
        forall|i: int|
            0 <= i < ps.len() ==> spec_encode_pairs(ps).len() >= spec_encode_str(ps[i].0).len()
                + spec_encode_str(ps[i].1).len(),
    decreases ps.len(),
{
    lemma_auto_spec_u32_to_from_le_bytes();
    if ps.len() > 0 {
        lemma_encode_pairs_len(ps.drop_first());
        assert forall|i: int|
            0 <= i < ps.len() implies spec_encode_pairs(ps).len() >= spec_encode_str(
            ps[i].0,
        ).len() + spec_encode_str(ps[i].1).len() by {
            if i > 0 {
                assert(ps.drop_first()[i - 1] == ps[i]);
            }
        }
    }
}

/// Appends one length-prefixed string field to `buf`; fails without touching
/// `buf` when the field's byte length does not fit its 32-bit prefix.
fn push_str_field(buf: &mut Vec<u8>, s: &str) -> (ok: bool)
    ensures
        ok ==> final(buf)@ == old(buf)@ + spec_encode_str(s@) && encode_utf8(s@).len()
            <= u32::MAX,
        !ok ==> final(buf)@ == old(buf)@ && encode_utf8(s@).len() > u32::MAX,
{
    let bytes = s.as_bytes_vec();
    if bytes.len() > u32::MAX as usize {
        return false;
    }
    let mut lenb = u32_to_le_bytes(bytes.len() as u32);
    buf.append(&mut lenb);
    let mut bytes = bytes;
    buf.append(&mut bytes);
    true
}

impl WalEntry {
    /// Encodes the entry into its binary payload. Encoding is deterministic
    /// and fails only when the result would not fit a frame's 32-bit length
    /// field.
    pub fn serialize(&self) -> (r: Result<Vec<u8>, WalError>)
        ensures
            match r {
                Ok(buf) => buf@ == spec_encode(self@) && fits_frame(self@),
                Err(e) => e == WalError::Serialization && !fits_frame(self@),
            },
    {
        let mut buf: Vec<u8> = Vec::new();
        match self {
            WalEntry::Put(k, v) => {
                buf.push(TAG_PUT);
                if !push_str_field(&mut buf, k.as_str()) {
                    return Err(WalError::Serialization);
                }
                if !push_str_field(&mut buf, v.as_str()) {
                    return Err(WalError::Serialization);
                }
                assert(buf@ =~= spec_encode(self@));
            },
            WalEntry::Batch(ps) => {
                let ghost pm = self@->Batch_pairs;
                buf.push(TAG_BATCH);
                if ps.len() > u32::MAX as usize {
                    proof {
                        lemma_encode_pairs_len(pm);
                    }
                    return Err(WalError::Serialization);
                }
                let mut lenb = u32_to_le_bytes(ps.len() as u32);
                buf.append(&mut lenb);
                let n = ps.len();
                assert(buf@ =~= seq![TAG_BATCH] + spec_u32_to_le_bytes(pm.len() as u32)
                    + spec_encode_pairs(pm.take(0)));
                for i in 0..n
                    invariant
                        n == ps@.len(),
                        n <= u32::MAX,
                        pm.len() == n,
                        self@ == (WalEntryModel::Batch { pairs: pm }),
                        forall|j: int| 0 <= j < n ==> pm[j] == (ps@[j].0@, ps@[j].1@),
                        buf@ == seq![TAG_BATCH] + spec_u32_to_le_bytes(pm.len() as u32)
                            + spec_encode_pairs(pm.take(i as int)),
                {
                    let pair = &ps[i];
                    let ghost before = buf@;
                    if !push_str_field(&mut buf, pair.0.as_str()) {
                        proof {
                            lemma_auto_spec_u32_to_from_le_bytes();
                            lemma_encode_pairs_len(pm);
                            assert(spec_encode_str(pm[i as int].0).len() >= 4 + encode_utf8(
                                ps@[i as int].0@,
                            ).len());
                        }
                        return Err(WalError::Serialization);
                    }
                    if !push_str_field(&mut buf, pair.1.as_str()) {
                        proof {
                            lemma_auto_spec_u32_to_from_le_bytes();
                            lemma_encode_pairs_len(pm);
                            assert(spec_encode_str(pm[i as int].1).len() >= 4 + encode_utf8(
                                ps@[i as int].1@,
                            ).len());
                        }
                        return Err(WalError::Serialization);
                    }
                    proof {
                        lemma_encode_pairs_push(pm.take(i as int), pm[i as int]);
                        assert(pm.take(i as int).push(pm[i as int]) =~= pm.take(i + 1));
                        assert(buf@ =~= seq![TAG_BATCH] + spec_u32_to_le_bytes(pm.len() as u32)
                            + spec_encode_pairs(pm.take(i + 1)));
                    }
                }
                proof {
                    assert(pm.take(n as int) =~= pm);
                    assert(buf@ =~= spec_encode(self@));
                }
            },
        }
        if buf.len() > u32::MAX as usize {
            return Err(WalError::Serialization);
        }
        Ok(buf)
    }
}

/// Relies on str::from_utf8: it succeeds exactly on well-formed UTF-8 and
/// yields the string spelled by those bytes.
#[verifier::external_body]
fn str_from_utf8(v: &[u8]) -> (r: Option<&str>)
    ensures
        r is Some <==> valid_utf8(v@),
        r matches Some(s) ==> encode_utf8(s@) == v@,
{
    core::str::from_utf8(v).ok()
}

/// Parses one length-prefixed string field of `b` starting at `pos`.
fn parse_str_field<'a>(b: &'a [u8], pos: usize) -> (r: Result<(&'a str, usize), WalError>)
    requires
        pos <= b@.len(),
    ensures
        match r {
            Ok(sp) => parse_str_at(b@, pos as int) == Some((sp.0@, sp.1 as int)) && pos < sp.1
                <= b@.len(),
            Err(e) => e == WalError::Deserialization && parse_str_at(b@, pos as int) is None,
        },
{
    if b.len() - pos < 4 {
        return Err(WalError::Deserialization);
    }
    let lb = vstd::slice::slice_subrange(b, pos, pos + 4);
    let n = u32_from_le_bytes(lb) as usize;
    if b.len() - pos - 4 < n {
        return Err(WalError::Deserialization);
    }
    let sb = vstd::slice::slice_subrange(b, pos + 4, pos + 4 + n);
    match str_from_utf8(sb) {
        Some(s) => {
            proof {
                encode_utf8_decode_utf8(s@);
            }
            Ok((s, pos + 4 + n))
        },
        None => Err(WalError::Deserialization),
    }
}

impl WalEntry {
    /// Validates `bytes` structurally and returns a read-only projection of
    /// the entry they encode, borrowing the string contents in place.
    pub fn zero_copy<'a>(bytes: &'a [u8]) -> (r: Result<WalEntryView<'a>, WalError>)
        ensures
            match r {
                Ok(v) => spec_decode(bytes@) == Some(v@),
                Err(e) => e == WalError::Deserialization && spec_decode(bytes@) is None,
            },
    {
        if bytes.len() < 1 {
            return Err(WalError::Deserialization);
        }
        let tag = *vstd::slice::slice_index_get(bytes, 0);
        if tag == TAG_PUT {
            let (k, p1) = match parse_str_field(bytes, 1) {
                Ok(x) => x,
                Err(e) => {
                    return Err(e);
                },
            };
            let (v, p2) = match parse_str_field(bytes, p1) {
                Ok(x) => x,
                Err(e) => {
                    return Err(e);
                },
            };
            if p2 != bytes.len() {
                return Err(WalError::Deserialization);
            }
            Ok(WalEntryView::Put(k, v))
        } else if tag == TAG_BATCH {
            if bytes.len() < 5 {
                return Err(WalError::Deserialization);
            }
            let cb = vstd::slice::slice_subrange(bytes, 1, 5);
            let count = u32_from_le_bytes(cb) as usize;
            let ghost c = spec_u32_from_le_bytes(bytes@.subrange(1, 5)) as int;
            let mut acc: Vec<(&'a str, &'a str)> = Vec::new();
            let mut pos: usize = 5;
            for i in 0..count
                invariant
                    count == c,
                    c == spec_u32_from_le_bytes(bytes@.subrange(1, 5)) as int,
                    5 <= pos <= bytes@.len(),
                    bytes@.len() >= 5,
                    bytes@[0] == TAG_BATCH,
                    acc@.len() == i,
                    (match parse_pairs_at(bytes@, pos as int, c - i) {
                        Some(rp) => parse_pairs_at(bytes@, 5, c) == Some(
                            (
                                Seq::new(acc@.len(), |j: int| (acc@[j].0@, acc@[j].1@)) + rp.0,
                                rp.1,
                            ),
                        ),
                        None => parse_pairs_at(bytes@, 5, c) is None,
                    }),
            {
                let ghost am = Seq::new(acc@.len(), |j: int| (acc@[j].0@, acc@[j].1@));
                let (k, p1) = match parse_str_field(bytes, pos) {
                    Ok(x) => x,
                    Err(e) => {
                        proof {
                            assert(c - i > 0);
                            assert(parse_pairs_at(bytes@, pos as int, c - i) is None);
                            assert(spec_decode(bytes@) is None);
                        }
                        return Err(e);
                    },
                };
                let (v, p2) = match parse_str_field(bytes, p1) {
                    Ok(x) => x,
                    Err(e) => {
                        proof {
                            assert(c - i > 0);
                            assert(parse_pairs_at(bytes@, pos as int, c - i) is None);
                            assert(spec_decode(bytes@) is None);
                        }
                        return Err(e);
                    },
                };
                acc.push((k, v));
                proof {
                    let am2 = Seq::new(acc@.len(), |j: int| (acc@[j].0@, acc@[j].1@));
                    assert(am2 =~= am.push((k@, v@)));
                    match parse_pairs_at(bytes@, p2 as int, c - i - 1) {
                        Some(rp) => {
                            assert(parse_pairs_at(bytes@, pos as int, c - i) == Some(
                                (seq![(k@, v@)] + rp.0, rp.1),
                            ));
                            assert(am + (seq![(k@, v@)] + rp.0) =~= am2 + rp.0);
                        },
                        None => {
                            assert(parse_pairs_at(bytes@, pos as int, c - i) is None);
                        },
                    }
                }
                pos = p2;
            }
            proof {
                let am = Seq::new(acc@.len(), |j: int| (acc@[j].0@, acc@[j].1@));
                assert(parse_pairs_at(bytes@, pos as int, 0) == Some(
                    (Seq::<(Seq<char>, Seq<char>)>::empty(), pos as int),
                ));
                assert(am + Seq::<(Seq<char>, Seq<char>)>::empty() =~= am);
            }
            if pos != bytes.len() {
                return Err(WalError::Deserialization);
            }
            Ok(WalEntryView::Batch(acc))
        } else {
            Err(WalError::Deserialization)
        }
    }

    /// Fully decodes an encoded payload into an owned entry.
    pub fn deserialize(bytes: &[u8]) -> (r: Result<WalEntry, WalError>)
        ensures
            match r {
                Ok(e) => spec_decode(bytes@) == Some(e@),
                Err(e) => e == WalError::Deserialization && spec_decode(bytes@) is None,
            },
    {
        let view = match Self::zero_copy(bytes) {
            Ok(v) => v,
            Err(e) => {
                return Err(e);
            },
        };
        match view {
            WalEntryView::Put(k, v) => Ok(WalEntry::Put(k.to_owned(), v.to_owned())),
            WalEntryView::Batch(ps) => {
                let mut pairs: Vec<(String, String)> = Vec::new();
                let n = ps.len();
                for i in 0..n
                    invariant
                        n == ps@.len(),
                        pairs@.len() == i,
                        forall|j: int|
                            0 <= j < i ==> pairs@[j].0@ == ps@[j].0@ && pairs@[j].1@ == ps@[j].1@,
                {
                    let p = &ps[i];
                    pairs.push((p.0.to_owned(), p.1.to_owned()));
                }
                let e = WalEntry::Batch(pairs);
                proof {
                    assert(Seq::new(pairs@.len(), |j: int| (pairs@[j].0@, pairs@[j].1@)) =~= Seq::new(
                        ps@.len(),
                        |j: int| (ps@[j].0@, ps@[j].1@),
                    ));
                }
                Ok(e)
            },
        }
    }
}

/// A string field encoded at `pos` parses back to the same characters.
proof fn lemma_parse_str_encode(b: Seq<u8>, pos: int, s: Seq<char>)
    requires
        encode_utf8(s).len() <= u32::MAX,
        0 <= pos,
        pos + spec_encode_str(s).len() <= b.len(),
        b.subrange(pos, pos + spec_encode_str(s).len()) == spec_encode_str(s),
    ensures
        parse_str_at(b, pos) == Some((s, pos + spec_encode_str(s).len())),
{
    lemma_auto_spec_u32_to_from_le_bytes();
    let n = encode_utf8(s).len() as int;
    let e = spec_encode_str(s);
    assert(e.len() == 4 + n);
    assert(b.subrange(pos, pos + 4) =~= e.subrange(0, 4));
    assert(e.subrange(0, 4) =~= spec_u32_to_le_bytes(n as u32));
    assert(spec_u32_from_le_bytes(b.subrange(pos, pos + 4)) == n as u32);
    assert(b.subrange(pos + 4, pos + 4 + n) =~= e.subrange(4, 4 + n));
    assert(e.subrange(4, 4 + n) =~= encode_utf8(s));
    encode_utf8_valid_utf8(s);
    encode_utf8_decode_utf8(s);
}

/// A pair sequence encoded at `pos` parses back to the same pairs.
proof fn lemma_parse_pairs_encode(b: Seq<u8>, pos: int, ps: Seq<(Seq<char>, Seq<char>)>)
    requires
        forall|i: int|
            0 <= i < ps.len() ==> encode_utf8(ps[i].0).len() <= u32::MAX && encode_utf8(
                ps[i].1,
            ).len() <= u32::MAX,
        0 <= pos,
        pos + spec_encode_pairs(ps).len() <= b.len(),
        b.subrange(pos, pos + spec_encode_pairs(ps).len()) == spec_encode_pairs(ps),
    ensures
        parse_pairs_at(b, pos, ps.len() as int) == Some((ps, pos + spec_encode_pairs(ps).len())),
    decreases ps.len(),
{
    lemma_auto_spec_u32_to_from_le_bytes();
    if ps.len() == 0 {
    } else {
        let e0 = spec_encode_str(ps[0].0);
        let e1 = spec_encode_str(ps[0].1);
        let rest = spec_encode_pairs(ps.drop_first());
        let ep = spec_encode_pairs(ps);
        assert(ep == e0 + e1 + rest);
        assert(b.subrange(pos, pos + e0.len()) =~= ep.subrange(0, e0.len() as int));
        assert(ep.subrange(0, e0.len() as int) =~= e0);
        lemma_parse_str_encode(b, pos, ps[0].0);
        let p1 = pos + e0.len();
        assert(b.subrange(p1, p1 + e1.len()) =~= ep.subrange(
            e0.len() as int,
            e0.len() + e1.len() as int,
        ));
        assert(ep.subrange(e0.len() as int, e0.len() + e1.len() as int) =~= e1);
        lemma_parse_str_encode(b, p1, ps[0].1);
        let p2 = p1 + e1.len();
        assert(b.subrange(p2, p2 + rest.len()) =~= ep.subrange(
            e0.len() + e1.len() as int,
            ep.len() as int,
        ));
        assert(ep.subrange(e0.len() + e1.len() as int, ep.len() as int) =~= rest);
        lemma_parse_pairs_encode(b, p2, ps.drop_first());
        assert(seq![(ps[0].0, ps[0].1)] + ps.drop_first() =~= ps);
        assert(parse_pairs_at(b, pos, ps.len() as int) == Some((ps, p2 + rest.len())));
    }
}

/// Round-trip: structurally decoding an encoded entry yields that entry, for
/// every entry whose encoding fits a frame.
pub proof fn lemma_codec_round_trip(e: WalEntryModel)
    requires
        fits_frame(e),
    ensures
        spec_decode(spec_encode(e)) == Some(e),
{
    lemma_auto_spec_u32_to_from_le_bytes();
    let b = spec_encode(e);
    match e {
        WalEntryModel::Put { key, value } => {
            let e0 = spec_encode_str(key);
            let e1 = spec_encode_str(value);
            assert(b == seq![TAG_PUT] + e0 + e1);
            assert(b[0] == TAG_PUT);
            assert(b.subrange(1, 1 + e0.len() as int) =~= e0);
            lemma_parse_str_encode(b, 1, key);
            assert(b.subrange(1 + e0.len() as int, 1 + e0.len() + e1.len() as int) =~= e1);
            lemma_parse_str_encode(b, 1 + e0.len() as int, value);
        },
        WalEntryModel::Batch { pairs } => {
            lemma_encode_pairs_len(pairs);
            let ep = spec_encode_pairs(pairs);
            assert(b == seq![TAG_BATCH] + spec_u32_to_le_bytes(pairs.len() as u32) + ep);
            assert(b[0] == TAG_BATCH);
            assert(b.subrange(1, 5) =~= spec_u32_to_le_bytes(pairs.len() as u32));
            assert(spec_u32_from_le_bytes(b.subrange(1, 5)) == pairs.len() as u32);
            assert forall|i: int|
                0 <= i < pairs.len() implies encode_utf8(pairs[i].0).len() <= u32::MAX
                && encode_utf8(pairs[i].1).len() <= u32::MAX by {
                assert(ep.len() >= spec_encode_str(pairs[i].0).len() + spec_encode_str(
                    pairs[i].1,
                ).len());
            }
            assert(b.subrange(5, 5 + ep.len() as int) =~= ep);
            lemma_parse_pairs_encode(b, 5, pairs);
        },
    }
}

} // verus!
