//! Binary database codec.
//!
//! The on-disk database is a zstd-compressed envelope around one serialized
//! payload: the hash -> posting-list map (count, then pairs of hash and bit
//! set, in ascending hash order), followed by the ordinal -> identifier
//! vector (count, then length-prefixed UTF-8 strings). Integers use a
//! variable-length encoding: values below 251 are a single byte, larger
//! values are a marker byte followed by eight little-endian bytes.

use vstd::prelude::*;
use crate::index::{Record, ReverseIndex};
use crate::kmer_bitset::KmerBitSet;
use crate::errors::AppError;

verus! {

/// Marker byte announcing a full eight-byte little-endian integer.
pub open spec fn wide_marker() -> u8 {
    253
}

/// The eight little-endian bytes of `v`.
pub open spec fn le_bytes8(v: u64) -> Seq<u8> {
    seq![
        (v & 0xff) as u8,
        ((v >> 8) & 0xff) as u8,
        ((v >> 16) & 0xff) as u8,
        ((v >> 24) & 0xff) as u8,
        ((v >> 32) & 0xff) as u8,
        ((v >> 40) & 0xff) as u8,
        ((v >> 48) & 0xff) as u8,
        ((v >> 56) & 0xff) as u8,
    ]
}

/// The value of the eight little-endian bytes at `p`.
pub open spec fn le_val8(s: Seq<u8>, p: int) -> u64 {
    (s[p] as u64) | ((s[p + 1] as u64) << 8) | ((s[p + 2] as u64) << 16) | ((s[p + 3] as u64)
        << 24) | ((s[p + 4] as u64) << 32) | ((s[p + 5] as u64) << 40) | ((s[p + 6] as u64) << 48)
        | ((s[p + 7] as u64) << 56)
}

/// Variable-length encoding of one integer.
pub open spec fn enc_u64(v: u64) -> Seq<u8> {
    if v < 251 {
        seq![v as u8]
    } else {
        seq![wide_marker()] + le_bytes8(v)
    }
}

/// Decode one integer at `pos`; `None` on truncated or malformed input.
/// On success, returns the value and the position just past it.
pub open spec fn dec_u64(s: Seq<u8>, pos: int) -> Option<(u64, int)> {
    if !(0 <= pos < s.len()) {
        None
    } else if s[pos] < 251 {
        Some(((s[pos] as u64), pos + 1))
    } else if s[pos] == wide_marker() && pos + 9 <= s.len() {
        Some((le_val8(s, pos + 1), pos + 9))
    } else {
        None
    }
}

/// Decoding an encoded integer embedded at `pos` yields it back.
pub proof fn lemma_dec_enc_u64(s: Seq<u8>, pos: int, v: u64)
    requires
        0 <= pos,
        pos + enc_u64(v).len() <= s.len(),
        s.subrange(pos, pos + enc_u64(v).len() as int) == enc_u64(v),
    ensures
        dec_u64(s, pos) == Some((v, pos + enc_u64(v).len())),
{
    if v < 251 {
        assert(s[pos] == enc_u64(v)[0]);
    } else {
        assert(s[pos] == enc_u64(v)[0]);
        assert(s[pos] == wide_marker());
        let b0 = (v & 0xff) as u8;
        let b1 = ((v >> 8) & 0xff) as u8;
        let b2 = ((v >> 16) & 0xff) as u8;
        let b3 = ((v >> 24) & 0xff) as u8;
        let b4 = ((v >> 32) & 0xff) as u8;
        let b5 = ((v >> 40) & 0xff) as u8;
        let b6 = ((v >> 48) & 0xff) as u8;
        let b7 = ((v >> 56) & 0xff) as u8;
        assert(s[pos + 1] == b0 && s[pos + 2] == b1 && s[pos + 3] == b2 && s[pos + 4] == b3 && s[
            pos + 5
        ] == b4 && s[pos + 6] == b5 && s[pos + 7] == b6 && s[pos + 8] == b7) by {
            assert(s.subrange(pos, pos + 9)[1] == b0);
            assert(s.subrange(pos, pos + 9)[2] == b1);
            assert(s.subrange(pos, pos + 9)[3] == b2);
            assert(s.subrange(pos, pos + 9)[4] == b3);
            assert(s.subrange(pos, pos + 9)[5] == b4);
            assert(s.subrange(pos, pos + 9)[6] == b5);
            assert(s.subrange(pos, pos + 9)[7] == b6);
            assert(s.subrange(pos, pos + 9)[8] == b7);
        }
        lemma_le8_roundtrip(v);
    }
}

/// Reassembling the eight little-endian bytes of `v` gives `v` back.
pub proof fn lemma_le8_roundtrip(v: u64)
    ensures
        le_val8(le_bytes8(v), 0) == v,
{
    assert(((((v & 0xff) as u8) as u64) | ((((v >> 8) & 0xff) as u8) as u64) << 8 | ((((v >> 16)
        & 0xff) as u8) as u64) << 16 | ((((v >> 24) & 0xff) as u8) as u64) << 24 | ((((v >> 32)
        & 0xff) as u8) as u64) << 32 | ((((v >> 40) & 0xff) as u8) as u64) << 40 | ((((v >> 48)
        & 0xff) as u8) as u64) << 48 | ((((v >> 56) & 0xff) as u8) as u64) << 56) == v)
        by (bit_vector);
}

/// Append the variable-length encoding of `v`.
pub fn push_u64(out: &mut Vec<u8>, v: u64)
    ensures
        final(out)@ == old(out)@ + enc_u64(v),
{
    if v < 251 {
        out.push(v as u8);
        proof {
            assert(out@ =~= old(out)@ + enc_u64(v));
        }
    } else {
        out.push(253u8);
        out.push((v & 0xff) as u8);
        out.push(((v >> 8) & 0xff) as u8);
        out.push(((v >> 16) & 0xff) as u8);
        out.push(((v >> 24) & 0xff) as u8);
        out.push(((v >> 32) & 0xff) as u8);
        out.push(((v >> 40) & 0xff) as u8);
        out.push(((v >> 48) & 0xff) as u8);
        out.push(((v >> 56) & 0xff) as u8);
        proof {
            assert(out@ =~= old(out)@ + enc_u64(v));
        }
    }
}

/// Read one variable-length integer at `pos`, exactly as [`dec_u64`] does.
pub fn read_u64(bytes: &Vec<u8>, pos: usize) -> (r: Option<(u64, usize)>)
    ensures
        match r {
            Some(vp) => dec_u64(bytes@, pos as int) == Some((vp.0, vp.1 as int)) && pos < vp.1
                <= bytes@.len(),
            None => dec_u64(bytes@, pos as int) is None,
        },
{
    if pos >= bytes.len() {
        return None;
    }
    let b = bytes[pos];
    if b < 251 {
        Some((b as u64, pos + 1))
    } else if b == 253 && bytes.len() - pos >= 9 {
        let v = (bytes[pos + 1] as u64) | ((bytes[pos + 2] as u64) << 8) | ((bytes[pos + 3] as u64)
            << 16) | ((bytes[pos + 4] as u64) << 24) | ((bytes[pos + 5] as u64) << 32) | ((bytes[
            pos + 6
        ] as u64) << 40) | ((bytes[pos + 7] as u64) << 48) | ((bytes[pos + 8] as u64) << 56);
        Some((v, pos + 9))
    } else {
        None
    }
}

/// Encoding of a run of words, first word first.
pub open spec fn enc_words(ws: Seq<u64>) -> Seq<u8>
    decreases ws.len(),
{
    if ws.len() == 0 {
        Seq::empty()
    } else {
        enc_u64(ws.first()) + enc_words(ws.drop_first())
    }
}

/// Encoding of one posting list: capacity, word count, words.
pub open spec fn enc_bitset(cap: u64, ws: Seq<u64>) -> Seq<u8> {
    enc_u64(cap) + enc_u64(ws.len() as u64) + enc_words(ws)
}

/// Encoding of the map entries, one hash and posting list each.
pub open spec fn enc_entries(entries: Seq<(u64, u64, Seq<u64>)>) -> Seq<u8>
    decreases entries.len(),
{
    if entries.len() == 0 {
        Seq::empty()
    } else {
        enc_u64(entries.first().0) + enc_bitset(entries.first().1, entries.first().2) + enc_entries(
            entries.drop_first(),
        )
    }
}

/// Encoding of the identifier vector as length-prefixed byte strings.
pub open spec fn enc_ids(idbs: Seq<Seq<u8>>) -> Seq<u8>
    decreases idbs.len(),
{
    if idbs.len() == 0 {
        Seq::empty()
    } else {
        enc_u64(idbs.first().len() as u64) + idbs.first() + enc_ids(idbs.drop_first())
    }
}

/// The whole uncompressed payload.
pub open spec fn enc_payload(entries: Seq<(u64, u64, Seq<u64>)>, idbs: Seq<Seq<u8>>) -> Seq<u8> {
    enc_u64(entries.len() as u64) + enc_entries(entries) + enc_u64(idbs.len() as u64) + enc_ids(
        idbs,
    )
}

/// Appending one word extends the word encoding at the end.
pub proof fn lemma_enc_words_push(ws: Seq<u64>, w: u64)
    ensures
        enc_words(ws.push(w)) == enc_words(ws) + enc_u64(w),
    decreases ws.len(),
{
    reveal_with_fuel(enc_words, 3);
    if ws.len() == 0 {
        assert(ws.push(w).drop_first() =~= Seq::<u64>::empty());
        assert(enc_words(ws.push(w)) =~= enc_u64(w));
        assert(enc_words(ws) + enc_u64(w) =~= enc_u64(w));
    } else {
        assert(ws.push(w).drop_first() =~= ws.drop_first().push(w));
        assert(ws.push(w).first() == ws.first());
        lemma_enc_words_push(ws.drop_first(), w);
        assert(enc_words(ws.push(w)) =~= enc_words(ws) + enc_u64(w));
    }
}

/// Appending one entry extends the entry encoding at the end.
pub proof fn lemma_enc_entries_push(es: Seq<(u64, u64, Seq<u64>)>, e: (u64, u64, Seq<u64>))
    ensures
        enc_entries(es.push(e)) == enc_entries(es) + enc_u64(e.0) + enc_bitset(e.1, e.2),
    decreases es.len(),
{
    reveal_with_fuel(enc_entries, 3);
    if es.len() == 0 {
        assert(es.push(e).drop_first() =~= Seq::<(u64, u64, Seq<u64>)>::empty());
        assert(enc_entries(es.push(e)) =~= enc_entries(es) + enc_u64(e.0) + enc_bitset(e.1, e.2));
    } else {
        assert(es.push(e).drop_first() =~= es.drop_first().push(e));
        assert(es.push(e).first() == es.first());
        lemma_enc_entries_push(es.drop_first(), e);
        assert(enc_entries(es.push(e)) =~= enc_entries(es) + enc_u64(e.0) + enc_bitset(e.1, e.2));
    }
}

/// Appending one identifier extends the identifier encoding at the end.
pub proof fn lemma_enc_ids_push(idbs: Seq<Seq<u8>>, b: Seq<u8>)
    ensures
        enc_ids(idbs.push(b)) == enc_ids(idbs) + enc_u64(b.len() as u64) + b,
    decreases idbs.len(),
{
    reveal_with_fuel(enc_ids, 3);
    if idbs.len() == 0 {
        assert(idbs.push(b).drop_first() =~= Seq::<Seq<u8>>::empty());
        assert(enc_ids(idbs.push(b)) =~= enc_ids(idbs) + enc_u64(b.len() as u64) + b);
    } else {
        assert(idbs.push(b).drop_first() =~= idbs.drop_first().push(b));
        assert(idbs.push(b).first() == idbs.first());
        lemma_enc_ids_push(idbs.drop_first(), b);
        assert(enc_ids(idbs.push(b)) =~= enc_ids(idbs) + enc_u64(b.len() as u64) + b);
    }
}

/// Decode `count` words starting at `pos`.
pub open spec fn dec_words(s: Seq<u8>, pos: int, count: nat) -> Option<(Seq<u64>, int)>
    decreases count,
{
    if count == 0 {
        Some((Seq::empty(), pos))
    } else {
        match dec_u64(s, pos) {
            None => None,
            Some(wp) => match dec_words(s, wp.1, (count - 1) as nat) {
                None => None,
                Some(rest) => Some((seq![wp.0] + rest.0, rest.1)),
            },
        }
    }
}

/// Decode one posting list (capacity, word count, words) at `pos`.
pub open spec fn dec_bitset(s: Seq<u8>, pos: int) -> Option<((u64, Seq<u64>), int)> {
    match dec_u64(s, pos) {
        None => None,
        Some(cp) => match dec_u64(s, cp.1) {
            None => None,
            Some(np) => match dec_words(s, np.1, np.0 as nat) {
                None => None,
                Some(wp) => Some(((cp.0, wp.0), wp.1)),
            },
        },
    }
}

/// Decode `count` map entries at `pos`.
pub open spec fn dec_entries(s: Seq<u8>, pos: int, count: nat) -> Option<
    (Seq<(u64, u64, Seq<u64>)>, int),
>
    decreases count,
{
    if count == 0 {
        Some((Seq::empty(), pos))
    } else {
        match dec_u64(s, pos) {
            None => None,
            Some(hp) => match dec_bitset(s, hp.1) {
                None => None,
                Some(bp) => match dec_entries(s, bp.1, (count - 1) as nat) {
                    None => None,
                    Some(rest) => Some(
                        (seq![(hp.0, bp.0.0, bp.0.1)] + rest.0, rest.1),
                    ),
                },
            },
        }
    }
}

/// Decode `count` length-prefixed identifier byte strings at `pos`.
pub open spec fn dec_ids(s: Seq<u8>, pos: int, count: nat) -> Option<(Seq<Seq<u8>>, int)>
    decreases count,
{
    if count == 0 {
        Some((Seq::empty(), pos))
    } else {
        match dec_u64(s, pos) {
            None => None,
            Some(lp) => if lp.1 + lp.0 <= s.len() {
                match dec_ids(s, lp.1 + lp.0 as int, (count - 1) as nat) {
                    None => None,
                    Some(rest) => Some(
                        (seq![s.subrange(lp.1, lp.1 + lp.0 as int)] + rest.0, rest.1),
                    ),
                }
            } else {
                None
            },
        }
    }
}

/// Decode a whole payload; the input must be consumed exactly.
pub open spec fn dec_payload(s: Seq<u8>) -> Option<(Seq<(u64, u64, Seq<u64>)>, Seq<Seq<u8>>)> {
    match dec_u64(s, 0) {
        None => None,
        Some(cp) => match dec_entries(s, cp.1, cp.0 as nat) {
            None => None,
            Some(ep) => match dec_u64(s, ep.1) {
                None => None,
                Some(ip) => match dec_ids(s, ip.1, ip.0 as nat) {
                    None => None,
                    Some(dp) => if dp.1 == s.len() {
                        Some((ep.0, dp.0))
                    } else {
                        None
                    },
                },
            },
        },
    }
}

/// Splitting a decoded region that holds a concatenation.
proof fn lemma_subrange_concat(s: Seq<u8>, pos: int, a: Seq<u8>, b: Seq<u8>)
    requires
        0 <= pos,
        pos + a.len() + b.len() <= s.len(),
        s.subrange(pos, pos + a.len() + b.len()) == a + b,
    ensures
        s.subrange(pos, pos + a.len() as int) == a,
        s.subrange(pos + a.len() as int, pos + a.len() + b.len()) == b,
{
    let ab = s.subrange(pos, pos + a.len() + b.len() as int);
    assert(s.subrange(pos, pos + a.len() as int) =~= ab.subrange(0, a.len() as int));
    assert(ab.subrange(0, a.len() as int) =~= a);
    assert(s.subrange(pos + a.len() as int, pos + a.len() + b.len() as int) =~= ab.subrange(
        a.len() as int,
        a.len() + b.len() as int,
    ));
    assert(ab.subrange(a.len() as int, a.len() + b.len() as int) =~= b);
}

/// Decoding an embedded word-run encoding yields the words back.
proof fn lemma_dec_enc_words(s: Seq<u8>, pos: int, ws: Seq<u64>)
    requires
        0 <= pos,
        pos + enc_words(ws).len() <= s.len(),
        s.subrange(pos, pos + enc_words(ws).len() as int) == enc_words(ws),
    ensures
        dec_words(s, pos, ws.len()) == Some((ws, pos + enc_words(ws).len())),
    decreases ws.len(),
{
    if ws.len() == 0 {
        assert(ws =~= Seq::<u64>::empty());
    } else {
        let a = enc_u64(ws.first());
        let b = enc_words(ws.drop_first());
        assert(enc_words(ws) == a + b);
        lemma_subrange_concat(s, pos, a, b);
        lemma_dec_enc_u64(s, pos, ws.first());
        lemma_dec_enc_words(s, pos + a.len(), ws.drop_first());
        assert(seq![ws.first()] + ws.drop_first() =~= ws);
    }
}

/// Decoding an embedded posting-list encoding yields it back.
proof fn lemma_dec_enc_bitset(s: Seq<u8>, pos: int, cap: u64, ws: Seq<u64>)
    requires
        0 <= pos,
        ws.len() <= u64::MAX,
        pos + enc_bitset(cap, ws).len() <= s.len(),
        s.subrange(pos, pos + enc_bitset(cap, ws).len() as int) == enc_bitset(cap, ws),
    ensures
        dec_bitset(s, pos) == Some(((cap, ws), pos + enc_bitset(cap, ws).len())),
{
    let a = enc_u64(cap);
    let b = enc_u64(ws.len() as u64);
    let c = enc_words(ws);
    assert(enc_bitset(cap, ws) == a + b + c);
    assert(a + b + c =~= a + (b + c));
    lemma_subrange_concat(s, pos, a, b + c);
    lemma_dec_enc_u64(s, pos, cap);
    lemma_subrange_concat(s, pos + a.len(), b, c);
    lemma_dec_enc_u64(s, pos + a.len(), ws.len() as u64);
    lemma_dec_enc_words(s, pos + a.len() + b.len(), ws);
}

/// Decoding an embedded entry-run encoding yields the entries back.
proof fn lemma_dec_enc_entries(s: Seq<u8>, pos: int, es: Seq<(u64, u64, Seq<u64>)>)
    requires
        0 <= pos,
        forall|t: int| 0 <= t < es.len() ==> (#[trigger] es[t].2).len() <= u64::MAX,
        pos + enc_entries(es).len() <= s.len(),
        s.subrange(pos, pos + enc_entries(es).len() as int) == enc_entries(es),
    ensures
        dec_entries(s, pos, es.len()) == Some((es, pos + enc_entries(es).len())),
    decreases es.len(),
{
    if es.len() == 0 {
        assert(es =~= Seq::<(u64, u64, Seq<u64>)>::empty());
    } else {
        let e = es.first();
        let a = enc_u64(e.0);
        let b = enc_bitset(e.1, e.2);
        let c = enc_entries(es.drop_first());
        assert(enc_entries(es) == a + b + c);
        assert(a + b + c =~= a + (b + c));
        lemma_subrange_concat(s, pos, a, b + c);
        lemma_dec_enc_u64(s, pos, e.0);
        lemma_subrange_concat(s, pos + a.len(), b, c);
        lemma_dec_enc_bitset(s, pos + a.len(), e.1, e.2);
        lemma_dec_enc_entries(s, pos + a.len() + b.len(), es.drop_first());
        assert(seq![(e.0, e.1, e.2)] + es.drop_first() =~= es);
    }
}

/// Decoding an embedded identifier-run encoding yields the byte strings
/// back.
proof fn lemma_dec_enc_ids(s: Seq<u8>, pos: int, idbs: Seq<Seq<u8>>)
    requires
        0 <= pos,
        forall|t: int| 0 <= t < idbs.len() ==> (#[trigger] idbs[t]).len() <= u64::MAX,
        pos + enc_ids(idbs).len() <= s.len(),
        s.subrange(pos, pos + enc_ids(idbs).len() as int) == enc_ids(idbs),
    ensures
        dec_ids(s, pos, idbs.len()) == Some((idbs, pos + enc_ids(idbs).len())),
    decreases idbs.len(),
{
    if idbs.len() == 0 {
        assert(idbs =~= Seq::<Seq<u8>>::empty());
    } else {
        let d = idbs.first();
        let a = enc_u64(d.len() as u64);
        let b = d;
        let c = enc_ids(idbs.drop_first());
        assert(enc_ids(idbs) == a + b + c);
        assert(a + b + c =~= a + (b + c));
        lemma_subrange_concat(s, pos, a, b + c);
        lemma_dec_enc_u64(s, pos, d.len() as u64);
        lemma_subrange_concat(s, pos + a.len(), b, c);
        lemma_dec_enc_ids(s, pos + a.len() + b.len(), idbs.drop_first());
        assert(seq![d] + idbs.drop_first() =~= idbs);
        assert(s.subrange(pos + a.len(), pos + a.len() + d.len() as int) == d);
    }
}

/// Database round trip at the payload level: decoding an encoded payload
/// yields exactly the encoded entries and identifiers.
#[verifier::rlimit(100)]
pub proof fn lemma_payload_roundtrip(es: Seq<(u64, u64, Seq<u64>)>, idbs: Seq<Seq<u8>>)
    requires
        es.len() <= u64::MAX,
        idbs.len() <= u64::MAX,
        forall|t: int| 0 <= t < es.len() ==> (#[trigger] es[t].2).len() <= u64::MAX,
        forall|t: int| 0 <= t < idbs.len() ==> (#[trigger] idbs[t]).len() <= u64::MAX,
    ensures
        dec_payload(enc_payload(es, idbs)) == Some((es, idbs)),
{
    let s = enc_payload(es, idbs);
    let a = enc_u64(es.len() as u64);
    let b = enc_entries(es);
    let c = enc_u64(idbs.len() as u64);
    let d = enc_ids(idbs);
    assert(s == a + b + c + d);
    assert(a + b + c + d =~= a + (b + (c + d)));
    assert(s.subrange(0, s.len() as int) =~= s);
    lemma_subrange_concat(s, 0, a, b + (c + d));
    lemma_dec_enc_u64(s, 0, es.len() as u64);
    lemma_subrange_concat(s, a.len() as int, b, c + d);
    lemma_dec_enc_entries(s, a.len() as int, es);
    lemma_subrange_concat(s, a.len() + b.len() as int, c, d);
    lemma_dec_enc_u64(s, a.len() + b.len() as int, idbs.len() as u64);
    lemma_dec_enc_ids(s, a.len() + b.len() + c.len() as int, idbs);
}

/// An in-memory database: the inverted index plus the ordinal -> identifier
/// vector.
pub struct Database {
    /// Hash -> posting list map.
    pub index: ReverseIndex,
    /// Ordinal -> reference identifier.
    pub ids: Vec<String>,
}

impl Database {
    /// The index is well-formed and sized to the identifier vector.
    pub open spec fn wf(&self) -> bool {
        &&& self.index.wf()
        &&& self.index.num_records == self.ids@.len()
    }

    /// Structural equality: same hash set, same bits per hash, same
    /// identifier sequence.
    pub open spec fn equivalent(&self, other: &Database) -> bool {
        &&& forall|h: u64| self.index.contains_hash(h) <==> other.index.contains_hash(h)
        &&& forall|h: u64, i: int|
            #![trigger self.index.posting_bit(h, i)]
            #![trigger other.index.posting_bit(h, i)]
            self.index.posting_bit(h, i) <==> other.index.posting_bit(h, i)
        &&& self.ids@.len() == other.ids@.len()
        &&& forall|t: int| 0 <= t < self.ids@.len() ==> self.ids@[t]@ == other.ids@[t]@
    }
}

/// The entry triples (hash, capacity, words) of the index in the order of
/// `sorted`.
pub open spec fn entries_of(ri: ReverseIndex, sorted: Seq<u64>) -> Seq<(u64, u64, Seq<u64>)> {
    Seq::new(
        sorted.len(),
        |t: int|
            (
                sorted[t],
                ri.posting(sorted[t]).spec_capacity() as u64,
                ri.posting(sorted[t]).spec_words(),
            ),
    )
}

/// The identifier byte strings of an identifier vector.
pub open spec fn ids_bytes_of(ids: Seq<String>) -> Seq<Seq<u8>> {
    Seq::new(ids.len(), |t: int| vstd::utf8::encode_utf8(ids[t]@))
}

/// A hash sequence in strictly ascending order.
pub open spec fn strictly_sorted(s: Seq<u64>) -> bool {
    forall|a: int, b: int| 0 <= a < b < s.len() ==> s[a] < s[b]
}

/// Sort a duplicate-free hash vector into ascending order.
#[verifier::rlimit(100)]
fn sort_hashes(v: &Vec<u64>) -> (r: Vec<u64>)
    requires
        v@.no_duplicates(),
    ensures
        r@.to_set() == v@.to_set(),
        r@.len() == v@.len(),
        strictly_sorted(r@),
{
    let mut r: Vec<u64> = Vec::new();
    let mut i: usize = 0;
    proof {
        assert(v@.subrange(0, 0) =~= Seq::<u64>::empty());
        assert(r@.to_set() =~= v@.subrange(0, 0).to_set());
    }
    while i < v.len()
        invariant
            v@.no_duplicates(),
            i <= v@.len(),
            r@.len() == i,
            strictly_sorted(r@),
            r@.to_set() == v@.subrange(0, i as int).to_set(),
        decreases v@.len() - i,
    {
        let x = v[i];
        proof {
            // x has not been inserted yet
            if r@.to_set().contains(x) {
                assert(v@.subrange(0, i as int).contains(x));
                let w = choose|w: int|
                    #![trigger v@.subrange(0, i as int)[w]]
                    0 <= w < i && v@.subrange(0, i as int)[w] == x;
                assert(v@[w] == x && v@[i as int] == x && w != i);
            }
            assert(!r@.contains(x)) by {
                if r@.contains(x) {
                    assert(r@.to_set().contains(x));
                }
            }
        }
        let mut p: usize = 0;
        while p < r.len() && r[p] < x
            invariant
                p <= r@.len(),
                forall|t: int| 0 <= t < p ==> r@[t] < x,
                strictly_sorted(r@),
            decreases r@.len() - p,
        {
            p = p + 1;
        }
        let ghost r0 = r@;
        r.insert(p, x);
        proof {
            // sortedness with the new element in place
            assert forall|a: int, b: int| 0 <= a < b < r@.len() implies r@[a] < r@[b] by {
                if a == p {
                    assert(r@[b] == r0[b - 1]);
                    assert(!r0.contains(x)) by {
                        if r0.contains(x) {
                            assert(r0.to_set().contains(x));
                        }
                    }
                    assert(r0[b - 1] != x) by {
                        if r0[b - 1] == x {
                            assert(r0.contains(x));
                        }
                    }
                } else if b == p {
                    assert(r@[a] == r0[a]);
                } else {
                    let a0: int = if a < p {
                        a
                    } else {
                        a - 1
                    };
                    let b0: int = if b < p {
                        b
                    } else {
                        b - 1
                    };
                    assert(r@[a] == r0[a0] && r@[b] == r0[b0]);
                }
            }
            assert(v@.subrange(0, i + 1 as int).drop_last() =~= v@.subrange(0, i as int));
            assert(v@.subrange(0, i + 1 as int).last() == x);
            assert forall|y: u64| r@.to_set().contains(y) <==> v@.subrange(
                0,
                i + 1 as int,
            ).to_set().contains(y) by {
                let pre = v@.subrange(0, i + 1 as int);
                if r@.to_set().contains(y) {
                    let w = choose|w: int| #![trigger r@[w]] 0 <= w < r@.len() && r@[w] == y;
                    if w == p {
                        assert(pre[i as int] == y);
                    } else if w < p {
                        assert(r0[w] == y);
                        assert(r0.to_set().contains(y));
                        assert(v@.subrange(0, i as int).to_set().contains(y));
                        let u = choose|u: int|
                            #![trigger v@.subrange(0, i as int)[u]]
                            0 <= u < i && v@.subrange(0, i as int)[u] == y;
                        assert(pre[u] == y);
                    } else {
                        assert(r0[w - 1] == y);
                        assert(r0.to_set().contains(y));
                        assert(v@.subrange(0, i as int).to_set().contains(y));
                        let u = choose|u: int|
                            #![trigger v@.subrange(0, i as int)[u]]
                            0 <= u < i && v@.subrange(0, i as int)[u] == y;
                        assert(pre[u] == y);
                    }
                }
                if pre.to_set().contains(y) {
                    let u = choose|u: int| #![trigger pre[u]] 0 <= u <= i && pre[u] == y;
                    if u == i {
                        assert(r@[p as int] == y);
                    } else {
                        assert(v@.subrange(0, i as int)[u] == y);
                        assert(v@.subrange(0, i as int).to_set().contains(y));
                        assert(r0.to_set().contains(y));
                        let w = choose|w: int| #![trigger r0[w]] 0 <= w < r0.len() && r0[w] == y;
                        if w < p {
                            assert(r@[w] == y);
                        } else {
                            assert(r@[w + 1] == y);
                        }
                    }
                }
            }
            assert(r@.to_set() =~= v@.subrange(0, i + 1 as int).to_set());
        }
        i = i + 1;
    }
    proof {
        assert(v@.subrange(0, v@.len() as int) =~= v@);
    }
    r
}

/// Serialize a database into its uncompressed payload: the map entries in
/// ascending hash order, then the identifier vector.
pub fn encode_payload(db: &Database) -> (r: Vec<u8>)
    requires
        db.wf(),
    ensures
        exists|sorted: Seq<u64>|
            #![trigger enc_payload(entries_of(db.index, sorted), ids_bytes_of(db.ids@))]
            strictly_sorted(sorted) && sorted.to_set() == db.index.map@.dom() && sorted.len()
                == db.index.hashes@.len() && r@ == enc_payload(
                entries_of(db.index, sorted),
                ids_bytes_of(db.ids@),
            ),
{
    let sorted = sort_hashes(&db.index.hashes);
    let ghost es = entries_of(db.index, sorted@);
    let ghost idbs = ids_bytes_of(db.ids@);
    proof {
        assert forall|h: u64| sorted@.to_set().contains(h) <==> db.index.map@.dom().contains(
            h,
        ) by {
            assert(sorted@.to_set().contains(h) <==> db.index.hashes@.to_set().contains(h));
            assert(db.index.hashes@.to_set().contains(h) <==> db.index.hashes@.contains(h));
        }
        assert(sorted@.to_set() =~= db.index.map@.dom());
    }
    let mut out: Vec<u8> = Vec::new();
    push_u64(&mut out, sorted.len() as u64);
    let ghost base0 = out@;
    let mut t: usize = 0;
    proof {
        assert(es.subrange(0, 0) =~= Seq::<(u64, u64, Seq<u64>)>::empty());
        assert(out@ =~= base0 + enc_entries(es.subrange(0, 0)));
    }
    while t < sorted.len()
        invariant
            db.wf(),
            t <= sorted@.len(),
            es == entries_of(db.index, sorted@),
            es.len() == sorted@.len(),
            forall|u: int| 0 <= u < sorted@.len() ==> db.index.map@.dom().contains(sorted@[u]),
            out@ == base0 + enc_entries(es.subrange(0, t as int)),
        decreases sorted@.len() - t,
    {
        let h = sorted[t];
        match db.index.get(h) {
            Some(bs) => {
                push_u64(&mut out, h);
                push_u64(&mut out, bs.capacity() as u64);
                let ws = bs.words();
                push_u64(&mut out, ws.len() as u64);
                let ghost base1 = out@;
                let mut k: usize = 0;
                proof {
                    assert(ws@.subrange(0, 0) =~= Seq::<u64>::empty());
                    assert(out@ =~= base1 + enc_words(ws@.subrange(0, 0)));
                }
                while k < ws.len()
                    invariant
                        k <= ws@.len(),
                        out@ == base1 + enc_words(ws@.subrange(0, k as int)),
                    decreases ws@.len() - k,
                {
                    push_u64(&mut out, ws[k]);
                    proof {
                        assert(ws@.subrange(0, k + 1 as int) =~= ws@.subrange(0, k as int).push(
                            ws@[k as int],
                        ));
                        lemma_enc_words_push(ws@.subrange(0, k as int), ws@[k as int]);
                        assert(out@ =~= base1 + enc_words(ws@.subrange(0, k + 1 as int)));
                    }
                    k = k + 1;
                }
                proof {
                    assert(ws@.subrange(0, ws@.len() as int) =~= ws@);
                    let e = es[t as int];
                    assert(e == (h, bs.spec_capacity() as u64, bs.spec_words()));
                    assert(es.subrange(0, t + 1 as int) =~= es.subrange(0, t as int).push(e));
                    lemma_enc_entries_push(es.subrange(0, t as int), e);
                    assert(base1 + enc_words(ws@) =~= base0 + enc_entries(
                        es.subrange(0, t as int),
                    ) + enc_u64(e.0) + enc_bitset(e.1, e.2));
                    assert(out@ =~= base0 + enc_entries(es.subrange(0, t + 1 as int)));
                }
            },
            None => {
                proof {
                    assert(false);
                }
            },
        }
        t = t + 1;
    }
    proof {
        assert(es.subrange(0, es.len() as int) =~= es);
    }
    push_u64(&mut out, db.ids.len() as u64);
    let ghost base2 = out@;
    let mut t2: usize = 0;
    proof {
        assert(idbs.subrange(0, 0) =~= Seq::<Seq<u8>>::empty());
        assert(out@ =~= base2 + enc_ids(idbs.subrange(0, 0)));
    }
    while t2 < db.ids.len()
        invariant
            t2 <= db.ids@.len(),
            idbs == ids_bytes_of(db.ids@),
            idbs.len() == db.ids@.len(),
            out@ == base2 + enc_ids(idbs.subrange(0, t2 as int)),
        decreases db.ids@.len() - t2,
    {
        let b = db.ids[t2].as_str().as_bytes();
        let ghost idb = idbs[t2 as int];
        proof {
            assert(b@ == idb);
        }
        push_u64(&mut out, b.len() as u64);
        let ghost base3 = out@;
        let mut k: usize = 0;
        proof {
            assert(b@.subrange(0, 0) =~= Seq::<u8>::empty());
            assert(out@ =~= base3 + b@.subrange(0, 0));
        }
        while k < b.len()
            invariant
                k <= b@.len(),
                out@ == base3 + b@.subrange(0, k as int),
            decreases b@.len() - k,
        {
            let byte = b[k];
            out.push(byte);
            proof {
                assert(b@.subrange(0, k + 1 as int) =~= b@.subrange(0, k as int).push(
                    b@[k as int],
                ));
                assert(out@ =~= base3 + b@.subrange(0, k + 1 as int));
            }
            k = k + 1;
        }
        proof {
            assert(b@.subrange(0, b@.len() as int) =~= b@);
            assert(idbs.subrange(0, t2 + 1 as int) =~= idbs.subrange(0, t2 as int).push(idb));
            lemma_enc_ids_push(idbs.subrange(0, t2 as int), idb);
            assert(base3 + b@ =~= base2 + enc_ids(idbs.subrange(0, t2 as int)) + enc_u64(
                idb.len() as u64,
            ) + idb);
            assert(out@ =~= base2 + enc_ids(idbs.subrange(0, t2 + 1 as int)));
        }
        t2 = t2 + 1;
    }
    proof {
        assert(idbs.subrange(0, idbs.len() as int) =~= idbs);
        assert(out@ =~= enc_payload(es, idbs));
    }
    out
}

/// The entry triples of a raw parsed entry vector.
pub open spec fn raw_entries_view(s: Seq<(u64, u64, Vec<u64>)>) -> Seq<(u64, u64, Seq<u64>)> {
    Seq::new(s.len(), |t: int| (s[t].0, s[t].1, s[t].2@))
}

/// The byte-string views of a vector of byte vectors.
pub open spec fn bytes_view(s: Seq<Vec<u8>>) -> Seq<Seq<u8>> {
    Seq::new(s.len(), |t: int| s[t]@)
}

/// Parse `count` words at `pos`, mirroring [`dec_words`].
fn parse_words(bytes: &Vec<u8>, pos: usize, count: usize) -> (r: Option<(Vec<u64>, usize)>)
    requires
        pos <= bytes@.len(),
    ensures
        match r {
            Some(wp) => dec_words(bytes@, pos as int, count as nat) == Some(
                (wp.0@, wp.1 as int),
            ) && pos <= wp.1 <= bytes@.len(),
            None => dec_words(bytes@, pos as int, count as nat) is None,
        },
    decreases count,
{
    if count == 0 {
        return Some((Vec::new(), pos));
    }
    match read_u64(bytes, pos) {
        None => None,
        Some((w, p1)) => match parse_words(bytes, p1, count - 1) {
            None => None,
            Some((mut ws, p2)) => {
                let ghost ws0 = ws@;
                ws.insert(0, w);
                proof {
                    assert(ws@ =~= seq![w] + ws0);
                }
                Some((ws, p2))
            },
        },
    }
}

/// Parse `count` map entries at `pos`, mirroring [`dec_entries`].
fn parse_entries(bytes: &Vec<u8>, pos: usize, count: usize) -> (r: Option<
    (Vec<(u64, u64, Vec<u64>)>, usize),
>)
    requires
        pos <= bytes@.len(),
    ensures
        match r {
            Some(ep) => dec_entries(bytes@, pos as int, count as nat) == Some(
                (raw_entries_view(ep.0@), ep.1 as int),
            ) && pos <= ep.1 <= bytes@.len(),
            None => dec_entries(bytes@, pos as int, count as nat) is None,
        },
    decreases count,
{
    let blen = bytes.len();
    if count == 0 {
        let r: Vec<(u64, u64, Vec<u64>)> = Vec::new();
        proof {
            assert(raw_entries_view(r@) =~= Seq::<(u64, u64, Seq<u64>)>::empty());
        }
        return Some((r, pos));
    }
    match read_u64(bytes, pos) {
        None => None,
        Some((h, p1)) => match read_u64(bytes, p1) {
            None => None,
            Some((cap, p2)) => match read_u64(bytes, p2) {
                None => None,
                Some((wcount, p3)) => {
                    if wcount > usize::MAX as u64 {
                        proof {
                            // more words than addressable bytes cannot fit
                            lemma_dec_words_len(bytes@, p3 as int, wcount as nat);
                        }
                        return None;
                    }
                    match parse_words(bytes, p3, wcount as usize) {
                        None => None,
                        Some((ws, p4)) => match parse_entries(bytes, p4, count - 1) {
                            None => None,
                            Some((mut es, p5)) => {
                                let ghost es0 = es@;
                                es.insert(0, (h, cap, ws));
                                proof {
                                    assert(raw_entries_view(es@) =~= seq![
                                        (h, cap, ws@),
                                    ] + raw_entries_view(es0));
                                }
                                Some((es, p5))
                            },
                        },
                    }
                },
            },
        },
    }
}

/// A word run longer than the byte buffer cannot decode.
proof fn lemma_dec_words_len(s: Seq<u8>, pos: int, count: nat)
    requires
        pos <= s.len(),
    ensures
        dec_words(s, pos, count) matches Some(wp) ==> wp.0.len() == count && pos <= wp.1
            <= s.len() && wp.1 - pos >= count,
    decreases count,
{
    if count > 0 {
        match dec_u64(s, pos) {
            Some(vp) => {
                lemma_dec_words_len(s, vp.1, (count - 1) as nat);
            },
            None => {},
        }
    }
}

/// Parse `count` identifier byte strings at `pos`, mirroring [`dec_ids`].
fn parse_ids(bytes: &Vec<u8>, pos: usize, count: usize) -> (r: Option<(Vec<Vec<u8>>, usize)>)
    requires
        pos <= bytes@.len(),
    ensures
        match r {
            Some(ip) => dec_ids(bytes@, pos as int, count as nat) == Some(
                (bytes_view(ip.0@), ip.1 as int),
            ) && pos <= ip.1 <= bytes@.len(),
            None => dec_ids(bytes@, pos as int, count as nat) is None,
        },
    decreases count,
{
    if count == 0 {
        let r: Vec<Vec<u8>> = Vec::new();
        proof {
            assert(bytes_view(r@) =~= Seq::<Seq<u8>>::empty());
        }
        return Some((r, pos));
    }
    match read_u64(bytes, pos) {
        None => None,
        Some((l, p1)) => {
            if l > (bytes.len() - p1) as u64 {
                return None;
            }
            let llen = l as usize;
            let mut b: Vec<u8> = Vec::new();
            let mut k: usize = 0;
            while k < llen
                invariant
                    k <= llen,
                    p1 + llen <= bytes@.len(),
                    bytes@.len() <= usize::MAX,
                    b@ =~= bytes@.subrange(p1 as int, p1 + k as int),
                decreases llen - k,
            {
                b.push(bytes[p1 + k]);
                proof {
                    assert(b@ =~= bytes@.subrange(p1 as int, p1 + k + 1 as int));
                }
                k = k + 1;
            }
            match parse_ids(bytes, p1 + llen, count - 1) {
                None => None,
                Some((mut ids, p2)) => {
                    let ghost ids0 = ids@;
                    ids.insert(0, b);
                    proof {
                        assert(bytes_view(ids@) =~= seq![
                            bytes@.subrange(p1 as int, p1 + llen as int),
                        ] + bytes_view(ids0));
                    }
                    Some((ids, p2))
                },
            }
        },
    }
}

/// A decoded payload that describes a well-formed database: counts fit the
/// machine, hashes are strictly ascending, every posting list matches some
/// well-formed bit set over exactly the identifier count, and every
/// identifier is valid UTF-8.
/// Some well-formed bit set over `n` ordinals has exactly this entry's
/// words.
pub open spec fn entry_realizable(e: (u64, u64, Seq<u64>), n: nat) -> bool {
    exists|bs: KmerBitSet| bs.wf() && bs.spec_capacity() == n && bs.spec_words() == e.2
}

pub open spec fn valid_content(es: Seq<(u64, u64, Seq<u64>)>, idbs: Seq<Seq<u8>>) -> bool {
    &&& es.len() <= usize::MAX
    &&& idbs.len() + 63 < usize::MAX
    &&& forall|a: int, b: int| 0 <= a < b < es.len() ==> es[a].0 < es[b].0
    &&& forall|t: int| 0 <= t < es.len() ==> (#[trigger] es[t]).1 == idbs.len()
    &&& forall|t: int| 0 <= t < es.len() ==> entry_realizable(#[trigger] es[t], idbs.len())
    &&& forall|t: int| 0 <= t < idbs.len() ==> vstd::utf8::valid_utf8(#[trigger] idbs[t])
}

/// The database `db` holds exactly the decoded content.
pub open spec fn content_matches(
    db: Database,
    es: Seq<(u64, u64, Seq<u64>)>,
    idbs: Seq<Seq<u8>>,
) -> bool {
    &&& db.index.num_records == idbs.len()
    &&& db.ids@.len() == idbs.len()
    &&& db.index.hashes@ == Seq::new(es.len(), |t: int| es[t].0)
    &&& forall|t: int|
        0 <= t < es.len() ==> db.index.contains_hash((#[trigger] es[t]).0) && db.index.posting(
            es[t].0,
        ).spec_capacity() == es[t].1 && db.index.posting(es[t].0).spec_words() == es[t].2
    &&& forall|t: int|
        0 <= t < idbs.len() ==> vstd::utf8::encode_utf8(db.ids@[t]@) == #[trigger] idbs[t]
}

/// Relies on `String::from_utf8`: it succeeds exactly on valid UTF-8 input
/// and returns the string those bytes spell.
#[verifier::external_body]
fn string_from_utf8(bytes: Vec<u8>) -> (r: Option<String>)
    ensures
        r is Some <==> vstd::utf8::valid_utf8(bytes@),
        r matches Some(s) ==> vstd::utf8::encode_utf8(s@) == bytes@,
{
    String::from_utf8(bytes).ok()
}

/// Parse and validate an uncompressed payload into a database.
///
/// Succeeds exactly on the byte strings that decode to valid content, and
/// then returns the database holding that content.
#[verifier::rlimit(100)]
pub fn decode_payload(bytes: &Vec<u8>) -> (r: Result<Database, AppError>)
    ensures
        r matches Ok(db) ==> db.wf() && (match dec_payload(bytes@) {
            Some(c) => valid_content(c.0, c.1) && content_matches(db, c.0, c.1),
            None => false,
        }),
        r is Err ==> (match dec_payload(bytes@) {
            Some(c) => !valid_content(c.0, c.1),
            None => true,
        }),
{
    let blen = bytes.len();
    let ecount = match read_u64(bytes, 0) {
        None => {
            return Err(AppError::DatabaseDecodeError);
        },
        Some((c, p)) => (c, p),
    };
    if ecount.0 > usize::MAX as u64 {
        proof {
            match dec_entries(bytes@, ecount.1 as int, ecount.0 as nat) {
                Some(ep) => {
                    lemma_dec_entries_len(bytes@, ecount.1 as int, ecount.0 as nat);
                },
                None => {},
            }
        }
        return Err(AppError::DatabaseDecodeError);
    }
    let entries = match parse_entries(bytes, ecount.1, ecount.0 as usize) {
        None => {
            return Err(AppError::DatabaseDecodeError);
        },
        Some(ep) => ep,
    };
    let icount = match read_u64(bytes, entries.1) {
        None => {
            return Err(AppError::DatabaseDecodeError);
        },
        Some(cp) => cp,
    };
    if icount.0 >= (usize::MAX - 63) as u64 {
        proof {
            match dec_ids(bytes@, icount.1 as int, icount.0 as nat) {
                Some(ip) => {
                    lemma_dec_ids_len(bytes@, icount.1 as int, icount.0 as nat);
                },
                None => {},
            }
        }
        return Err(AppError::DatabaseDecodeError);
    }
    let idbs = match parse_ids(bytes, icount.1, icount.0 as usize) {
        None => {
            return Err(AppError::DatabaseDecodeError);
        },
        Some(ip) => ip,
    };
    if idbs.1 != blen {
        return Err(AppError::DatabaseDecodeError);
    }
    let ghost es = raw_entries_view(entries.0@);
    let ghost idbv = bytes_view(idbs.0@);
    proof {
        assert(dec_payload(bytes@) == Some((es, idbv)));
        lemma_dec_ids_len(bytes@, icount.1 as int, icount.0 as nat);
        lemma_dec_entries_len(bytes@, ecount.1 as int, ecount.0 as nat);
        assert(idbv.len() == icount.0);
        assert(es.len() == ecount.0);
    }
    // rebuild the identifier vector
    let raw_ids = idbs.0;
    let n = raw_ids.len();
    let mut ids: Vec<String> = Vec::new();
    let mut t: usize = 0;
    while t < n
        invariant
            t <= n,
            n == idbv.len(),
            dec_payload(bytes@) == Some((es, idbv)),
            idbv == bytes_view(raw_ids@),
            raw_ids@.len() == n,
            ids@.len() == t,
            forall|u: int|
                0 <= u < t ==> vstd::utf8::encode_utf8(#[trigger] ids@[u]@) == idbv[u],
        decreases n - t,
    {
        let mut b: Vec<u8> = Vec::new();
        let rb = &raw_ids[t];
        let mut k: usize = 0;
        while k < rb.len()
            invariant
                k <= rb@.len(),
                b@ =~= rb@.subrange(0, k as int),
            decreases rb@.len() - k,
        {
            b.push(rb[k]);
            proof {
                assert(b@ =~= rb@.subrange(0, k + 1 as int));
            }
            k = k + 1;
        }
        proof {
            assert(b@ =~= rb@);
        }
        match string_from_utf8(b) {
            None => {
                proof {
                    assert(!vstd::utf8::valid_utf8(idbv[t as int]));
                }
                return Err(AppError::DatabaseDecodeError);
            },
            Some(sid) => {
                ids.push(sid);
            },
        }
        t = t + 1;
    }
    // rebuild the inverted index, insisting on strictly ascending hashes
    let raw_entries = entries.0;
    let ecnt = raw_entries.len();
    let mut index = ReverseIndex {
        map: std::collections::HashMap::new(),
        hashes: Vec::new(),
        num_records: n,
    };
    let mut t2: usize = 0;
    while t2 < ecnt
        invariant
            t2 <= ecnt,
            ecnt == raw_entries@.len(),
            es == raw_entries_view(raw_entries@),
            es.len() == ecnt,
            n + 63 < usize::MAX,
            idbv.len() == n,
            dec_payload(bytes@) == Some((es, idbv)),
            index.num_records == n,
            index.wf(),
            index.hashes@ =~= Seq::new(t2 as int as nat, |u: int| es[u].0),
            forall|a: int, b: int| 0 <= a < b < t2 ==> es[a].0 < es[b].0,
            forall|u: int|
                0 <= u < t2 ==> index.contains_hash((#[trigger] es[u]).0) && index.posting(
                    es[u].0,
                ).spec_capacity() == es[u].1 && index.posting(es[u].0).spec_words() == es[u].2
                    && es[u].1 == n,
            forall|h: u64|
                #[trigger] index.contains_hash(h) ==> exists|u: int|
                    0 <= u < t2 && es[u].0 == h,
        decreases ecnt - t2,
    {
        let h = raw_entries[t2].0;
        let cap = raw_entries[t2].1;
        if t2 > 0 {
            let prev = raw_entries[t2 - 1].0;
            if h <= prev {
                proof {
                    assert(es[t2 - 1].0 == prev && es[t2 as int].0 == h);
                    assert(!(es[t2 - 1].0 < es[t2 as int].0));
                    assert(!valid_content(es, idbv));
                }
                return Err(AppError::DatabaseDecodeError);
            }
        }
        if cap != n as u64 {
            proof {
                assert(es[t2 as int].1 == cap);
                assert(idbv.len() == n);
                assert(!valid_content(es, idbv));
            }
            return Err(AppError::DatabaseDecodeError);
        }
        proof {
            // every hash stored so far lies strictly below the current one
            assert(h == es[t2 as int].0);
            assert forall|a: int| 0 <= a < t2 implies (#[trigger] es[a]).0 < es[t2 as int].0 by {
                if t2 > 0 && a < t2 - 1 {
                    assert(es[a].0 < es[t2 - 1].0);
                }
            }
        }
        let mut words: Vec<u64> = Vec::new();
        let rw = &raw_entries[t2].2;
        let mut k: usize = 0;
        while k < rw.len()
            invariant
                k <= rw@.len(),
                words@ =~= rw@.subrange(0, k as int),
            decreases rw@.len() - k,
        {
            words.push(rw[k]);
            proof {
                assert(words@ =~= rw@.subrange(0, k + 1 as int));
            }
            k = k + 1;
        }
        proof {
            assert(words@ =~= rw@);
        }
        let ghost wsv = words@;
        match KmerBitSet::from_words(n, words) {
            None => {
                proof {
                    assert(!entry_realizable(es[t2 as int], idbv.len())) by {
                        if entry_realizable(es[t2 as int], idbv.len()) {
                            let bs = choose|bs: KmerBitSet|
                                bs.wf() && bs.spec_capacity() == idbv.len() && bs.spec_words()
                                    == es[t2 as int].2;
                            assert(bs.wf() && bs.spec_capacity() == n && bs.spec_words() == wsv);
                        }
                    }
                    assert(!valid_content(es, idbv));
                }
                return Err(AppError::DatabaseDecodeError);
            },
            Some(bs) => {
                let ghost map0 = index.map@;
                let ghost hashes0 = index.hashes@;
                proof {
                    // h exceeds every stored hash, so it is fresh
                    if index.contains_hash(h) {
                        let u = choose|u: int| 0 <= u < t2 && es[u].0 == h;
                        assert(es[u].0 < es[t2 as int - 1].0 || u == t2 - 1);
                    }
                    assert(!index.map@.contains_key(h));
                }
                index.map.insert(h, bs);
                index.hashes.push(h);
                proof {
                    assert(index.hashes@.drop_last() =~= hashes0);
                    assert forall|x: u64| index.hashes@.contains(x) <==> index.map@.contains_key(
                        x,
                    ) by {
                        if index.hashes@.contains(x) && x != h {
                            let w = choose|w: int|
                                #![trigger index.hashes@[w]]
                                0 <= w < index.hashes@.len() && index.hashes@[w] == x;
                            assert(hashes0[w] == x);
                            assert(hashes0.contains(x));
                        }
                        if map0.contains_key(x) {
                            assert(hashes0.contains(x));
                            let w = choose|w: int|
                                #![trigger hashes0[w]]
                                0 <= w < hashes0.len() && hashes0[w] == x;
                            assert(index.hashes@[w] == x);
                        }
                        assert(index.hashes@[index.hashes@.len() - 1] == h);
                    }
                    assert forall|a: int, b: int|
                        0 <= a < b < index.hashes@.len() && a != b implies index.hashes@[a]
                        != index.hashes@[b] by {
                        if b < index.hashes@.len() - 1 {
                            assert(hashes0[a] == index.hashes@[a]);
                            assert(hashes0[b] == index.hashes@[b]);
                        } else {
                            assert(index.hashes@[a] == es[a].0);
                            assert(es[a].0 < es[t2 as int].0 || t2 == 0);
                        }
                    }
                    assert(index.hashes@.no_duplicates());
                    assert(index.hashes@ =~= Seq::new((t2 + 1) as nat, |u: int| es[u].0));
                    assert forall|u: int|
                        0 <= u < t2 + 1 implies index.contains_hash((#[trigger] es[u]).0)
                            && index.posting(es[u].0).spec_capacity() == es[u].1 && index.posting(
                            es[u].0,
                        ).spec_words() == es[u].2 && es[u].1 == n by {
                        if u < t2 {
                            assert(es[u].0 < h);
                            assert(index.map@[es[u].0] == map0[es[u].0]);
                        } else {
                            assert(index.map@[h] == bs);
                        }
                    }
                    assert forall|x: u64| #[trigger] index.contains_hash(x) implies exists|u: int|
                        0 <= u < t2 + 1 && es[u].0 == x by {
                        if x == h {
                            assert(0 <= t2 < t2 + 1 && es[t2 as int].0 == x);
                        } else {
                            assert(map0.contains_key(x));
                            let u = choose|u: int| 0 <= u < t2 && es[u].0 == x;
                            assert(0 <= u < t2 + 1 && es[u].0 == x);
                        }
                    }
                }
            },
        }
        t2 = t2 + 1;
    }
    let db = Database { index, ids };
    proof {
        assert(db.wf());
        assert forall|u: int| 0 <= u < es.len() implies entry_realizable(
            #[trigger] es[u],
            idbv.len(),
        ) by {
            let bs = db.index.posting(es[u].0);
            assert(bs.wf() && bs.spec_capacity() == idbv.len() && bs.spec_words() == es[u].2);
        }
        assert forall|u: int| 0 <= u < idbv.len() implies vstd::utf8::valid_utf8(
            #[trigger] idbv[u],
        ) by {
            vstd::utf8::encode_utf8_valid_utf8(db.ids@[u]@);
        }
        assert(valid_content(es, idbv));
        assert(content_matches(db, es, idbv));
    }
    Ok(db)
}

/// A decoded entry run has exactly `count` entries, each past its
/// predecessor.
proof fn lemma_dec_entries_len(s: Seq<u8>, pos: int, count: nat)
    requires
        pos <= s.len(),
    ensures
        dec_entries(s, pos, count) matches Some(ep) ==> ep.0.len() == count && ep.1 - pos
            >= count && ep.1 <= s.len(),
    decreases count,
{
    if count > 0 {
        match dec_u64(s, pos) {
            Some(hp) => {
                match dec_bitset(s, hp.1) {
                    Some(bp) => {
                        lemma_dec_bitset_len(s, hp.1);
                        lemma_dec_entries_len(s, bp.1, (count - 1) as nat);
                    },
                    None => {},
                }
            },
            None => {},
        }
    }
}

/// A decoded posting list consumes at least one byte.
proof fn lemma_dec_bitset_len(s: Seq<u8>, pos: int)
    requires
        pos <= s.len(),
    ensures
        dec_bitset(s, pos) matches Some(bp) ==> pos < bp.1 <= s.len(),
{
    match dec_u64(s, pos) {
        Some(cp) => {
            match dec_u64(s, cp.1) {
                Some(np) => {
                    lemma_dec_words_len(s, np.1, np.0 as nat);
                },
                None => {},
            }
        },
        None => {},
    }
}

/// A decoded identifier run has exactly `count` identifiers, each past its
/// predecessor.
proof fn lemma_dec_ids_len(s: Seq<u8>, pos: int, count: nat)
    requires
        pos <= s.len(),
    ensures
        dec_ids(s, pos, count) matches Some(ip) ==> ip.0.len() == count && ip.1 - pos >= count
            && ip.1 <= s.len(),
    decreases count,
{
    if count > 0 {
        match dec_u64(s, pos) {
            Some(lp) => {
                if lp.1 + lp.0 <= s.len() {
                    lemma_dec_ids_len(s, lp.1 + lp.0 as int, (count - 1) as nat);
                }
            },
            None => {},
        }
    }
}

/// Database round trip, assembled: any well-formed database holding the
/// content that `db` serializes is structurally equal to `db` — the same
/// hash set, the same bits per posting list, the same identifier sequence.
///
/// Together with [`lemma_payload_roundtrip`] this says that decoding an
/// encoded database restores it: [`encode_payload`] emits
/// `enc_payload(entries_of(db.index, sorted), ids_bytes_of(db.ids@))`,
/// decoding that payload yields exactly those entries and identifier
/// bytes, and [`decode_payload`] then returns a database matching them.
pub proof fn lemma_database_roundtrip(db: Database, db2: Database, sorted: Seq<u64>)
    requires
        db.wf(),
        db2.wf(),
        strictly_sorted(sorted),
        sorted.to_set() == db.index.map@.dom(),
        content_matches(db2, entries_of(db.index, sorted), ids_bytes_of(db.ids@)),
    ensures
        db2.equivalent(&db),
{
    let es = entries_of(db.index, sorted);
    let idbs = ids_bytes_of(db.ids@);
    assert forall|h: u64| db2.index.contains_hash(h) <==> db.index.contains_hash(h) by {
        if db2.index.contains_hash(h) {
            assert(db2.index.hashes@.contains(h));
            let t = choose|t: int|
                #![trigger db2.index.hashes@[t]]
                0 <= t < db2.index.hashes@.len() && db2.index.hashes@[t] == h;
            assert(es[t].0 == h);
            assert(sorted[t] == h);
            assert(sorted.to_set().contains(h));
        }
        if db.index.contains_hash(h) {
            assert(sorted.to_set().contains(h));
            let t = choose|t: int| #![trigger sorted[t]] 0 <= t < sorted.len() && sorted[t] == h;
            assert(db2.index.hashes@[t] == h);
            assert(db2.index.hashes@.contains(h));
        }
    }
    assert forall|h: u64, i: int|
        #![trigger db2.index.posting_bit(h, i)]
        #![trigger db.index.posting_bit(h, i)]
        db2.index.posting_bit(h, i) <==> db.index.posting_bit(h, i) by {
        if db.index.contains_hash(h) {
            assert(sorted.to_set().contains(h));
            let t = choose|t: int| #![trigger sorted[t]] 0 <= t < sorted.len() && sorted[t] == h;
            assert(es[t].0 == h);
            assert(db2.index.posting(h).spec_words() == db.index.posting(h).spec_words());
            assert(db2.index.posting(h).spec_capacity() == es[t].1);
            assert(db.index.posting(h).spec_capacity() == es[t].1);
        }
    }
    assert forall|t: int| 0 <= t < db.ids@.len() implies db2.ids@[t]@ == db.ids@[t]@ by {
        assert(vstd::utf8::encode_utf8(db2.ids@[t]@) == idbs[t]);
        assert(vstd::utf8::encode_utf8(db.ids@[t]@) == idbs[t]);
        vstd::utf8::encode_utf8_decode_utf8(db2.ids@[t]@);
        vstd::utf8::encode_utf8_decode_utf8(db.ids@[t]@);
    }
}

/// The zstd frame produced for a payload at the fixed compression level.
pub uninterp spec fn compressed_of(payload: Seq<u8>) -> Seq<u8>;

/// Relies on `zstd::stream::encode_all` at a fixed level: compressing an
/// in-memory buffer is a deterministic function of its bytes alone, and it
/// always succeeds — the only error source is the `io::Write` sink, and
/// writing into the `Vec` that `encode_all` allocates cannot fail.
#[verifier::external_body]
fn zstd_compress(bytes: &Vec<u8>) -> (r: Vec<u8>)
    ensures
        r@ == compressed_of(bytes@),
{
    zstd::stream::encode_all(bytes.as_slice(), 3)
        .expect("compressing into a memory buffer does not fail")
}

/// Relies on `zstd::stream::decode_all`: decompression inverts compression,
/// so the frame of a payload decompresses to exactly that payload, and a
/// valid frame never fails to decompress.
#[verifier::external_body]
fn zstd_decompress(bytes: &Vec<u8>) -> (r: Option<Vec<u8>>)
    ensures
        match r {
            Some(o) => forall|x: Seq<u8>| bytes@ == compressed_of(x) ==> o@ == x,
            None => forall|x: Seq<u8>| bytes@ != compressed_of(x),
        },
{
    match zstd::stream::decode_all(bytes.as_slice()) {
        Ok(v) => Some(v),
        Err(_) => None,
    }
}

/// Serialize and compress a database into the on-disk byte envelope.
///
/// Encoding a well-formed database always succeeds, and the bytes are the
/// frame of its payload: a pure function of the index contents and the
/// identifier vector.
pub fn encode_database(db: &Database) -> (r: Result<Vec<u8>, AppError>)
    requires
        db.wf(),
    ensures
        r matches Ok(bytes) && (exists|sorted: Seq<u64>|
            #![trigger entries_of(db.index, sorted)]
            strictly_sorted(sorted) && sorted.to_set() == db.index.map@.dom() && bytes@
                == compressed_of(
                enc_payload(entries_of(db.index, sorted), ids_bytes_of(db.ids@)),
            )),
{
    let payload = encode_payload(db);
    Ok(zstd_compress(&payload))
}

/// Decompress and parse an on-disk byte envelope into a database.
///
/// When the input is the frame of some payload, the result is exactly what
/// [`decode_payload`] yields on that payload.
pub fn load_database(bytes: &Vec<u8>) -> (r: Result<Database, AppError>)
    ensures
        r matches Ok(db) ==> db.wf(),
        forall|p: Seq<u8>|
            bytes@ == compressed_of(p) ==> (match r {
                Ok(db) => db.wf() && (match dec_payload(p) {
                    Some(c) => valid_content(c.0, c.1) && content_matches(db, c.0, c.1),
                    None => false,
                }),
                Err(e) => (match dec_payload(p) {
                    Some(c) => !valid_content(c.0, c.1),
                    None => true,
                }),
            }),
{
    match zstd_decompress(bytes) {
        None => Err(AppError::DatabaseDecodeError),
        Some(payload) => decode_payload(&payload),
    }
}

/// Build the inverted index over `records` and serialize it, returning the
/// compressed database bytes. On valid parameters the build always
/// succeeds; per-record concerns (parse failures) are settled before this
/// point, when the record stream is materialized.
pub fn build_database(records: &Vec<Record>, kmer_size: u16, downsampling_factor: u64) -> (r:
    Result<Vec<u8>, AppError>)
    requires
        crate::utils::valid_kmer_params(kmer_size as usize, downsampling_factor),
        records@.len() + 63 < usize::MAX,
    ensures
        r matches Ok(bytes) && (exists|db: Database, sorted: Seq<u64>|
            #![trigger entries_of(db.index, sorted)]
            {
                &&& db.wf()
                &&& db.index.num_records == records@.len()
                &&& db.ids@.len() == records@.len()
                &&& forall|i: int| 0 <= i < records@.len() ==> db.ids@[i]@ == records@[i].id@
                &&& forall|h: u64, i: int|
                    0 <= i < records@.len() ==> (#[trigger] db.index.posting_bit(h, i)
                        <==> crate::kmers::kmer_hash_set(
                        records@[i].seq@,
                        kmer_size as int,
                        downsampling_factor,
                    ).contains(h))
                &&& strictly_sorted(sorted)
                &&& sorted.to_set() == db.index.map@.dom()
                &&& bytes@ == compressed_of(
                    enc_payload(entries_of(db.index, sorted), ids_bytes_of(db.ids@)),
                )
            }),
{
    let built = crate::index::build_reverse_index(
        records,
        kmer_size as usize,
        downsampling_factor,
    );
    let db = Database { index: built.0, ids: built.1 };
    encode_database(&db)
}

} // verus!
