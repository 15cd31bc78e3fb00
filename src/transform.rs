use vstd::prelude::*;

use crate::index::ShapeId;

verus! {

/// The six parameters of a 2D affine transform, `x' = a*x + c*y + e`,
/// `y' = b*x + d*y + f`, each held as the bit pattern of a single-precision
/// value so that it can be carried through without change.
#[derive(Debug, Clone, Copy, PartialEq, Eq, Structural)]
pub struct Affine {
    pub a: u32,
    pub b: u32,
    pub c: u32,
    pub d: u32,
    pub e: u32,
    pub f: u32,
}

/// An element's identifier with the transform to apply to it.
#[derive(Debug, Clone, Copy, PartialEq, Eq, Structural)]
pub struct TransformEntry {
    pub id: ShapeId,
    pub transform: Affine,
}

/// Length of an encoded `TransformEntry`.
pub const ENTRY_SIZE: usize = 40;

/// The little-endian bytes of a 32-bit word.
pub open spec fn word_bytes(w: u32) -> Seq<u8> {
    seq![(w & 0xff) as u8, ((w >> 8u32) & 0xff) as u8, ((w >> 16u32) & 0xff) as u8, (w >> 24u32) as u8]
}

/// The 32-bit word whose little-endian bytes start at `i`.
pub open spec fn word_at(b: Seq<u8>, i: int) -> u32 {
    (b[i] as u32) | ((b[i + 1] as u32) << 8u32) | ((b[i + 2] as u32) << 16u32) | ((b[i + 3] as u32)
        << 24u32)
}

/// The identifier split in four 32-bit words, most significant first.
pub open spec fn id_words(id: u128) -> Seq<u32> {
    seq![(id >> 96u128) as u32, (id >> 64u128) as u32, (id >> 32u128) as u32, id as u32]
}

/// The identifier made of four 32-bit words, most significant first.
pub open spec fn id_of_words(w0: u32, w1: u32, w2: u32, w3: u32) -> u128 {
    ((w0 as u128) << 96u128) | ((w1 as u128) << 64u128) | ((w2 as u128) << 32u128) | (w3 as u128)
}

/// The ten words of an entry in encoding order: the identifier, then
/// `a, b, c, d, e, f`.
pub open spec fn entry_words(t: TransformEntry) -> Seq<u32> {
    id_words(t.id) + seq![
        t.transform.a,
        t.transform.b,
        t.transform.c,
        t.transform.d,
        t.transform.e,
        t.transform.f,
    ]
}

/// The encoding of an entry: each of its ten words in little-endian order.
pub open spec fn entry_bytes(t: TransformEntry) -> Seq<u8> {
    let w = entry_words(t);
    Seq::new(40, |i: int| word_bytes(w[i / 4])[i % 4])
}

/// The entry that 40 bytes encode.
pub open spec fn entry_of(b: Seq<u8>) -> TransformEntry {
    TransformEntry {
        id: id_of_words(word_at(b, 0), word_at(b, 4), word_at(b, 8), word_at(b, 12)),
        transform: Affine {
            a: word_at(b, 16),
            b: word_at(b, 20),
            c: word_at(b, 24),
            d: word_at(b, 28),
            e: word_at(b, 32),
            f: word_at(b, 36),
        },
    }
}

/// Reading back the bytes of a word gives the word.
proof fn lemma_word_round_trip(w: u32)
    ensures
        word_at(word_bytes(w), 0) == w,
{
    let b0 = (w & 0xff) as u8;
    let b1 = ((w >> 8u32) & 0xff) as u8;
    let b2 = ((w >> 16u32) & 0xff) as u8;
    let b3 = (w >> 24u32) as u8;
    assert((b0 as u32) | ((b1 as u32) << 8u32) | ((b2 as u32) << 16u32) | ((b3 as u32) << 24u32)
        == w) by (bit_vector)
        requires
            b0 == (w & 0xff) as u8,
            b1 == ((w >> 8u32) & 0xff) as u8,
            b2 == ((w >> 16u32) & 0xff) as u8,
            b3 == (w >> 24u32) as u8,
    ;
}

/// Writing out the word that four bytes read as gives the bytes.
proof fn lemma_bytes_round_trip(b0: u8, b1: u8, b2: u8, b3: u8)
    ensures
        word_bytes(word_at(seq![b0, b1, b2, b3], 0)) == seq![b0, b1, b2, b3],
{
    let s = seq![b0, b1, b2, b3];
    let w = word_at(s, 0);
    assert(w == (b0 as u32) | ((b1 as u32) << 8u32) | ((b2 as u32) << 16u32) | ((b3 as u32)
        << 24u32));
    assert((w & 0xff) as u8 == b0 && ((w >> 8u32) & 0xff) as u8 == b1 && ((w >> 16u32) & 0xff) as u8
        == b2 && (w >> 24u32) as u8 == b3) by (bit_vector)
        requires
            w == (b0 as u32) | ((b1 as u32) << 8u32) | ((b2 as u32) << 16u32) | ((b3 as u32)
                << 24u32),
    ;
    assert(word_bytes(w) =~= s);
}

/// Joining the words of an identifier gives the identifier.
proof fn lemma_id_round_trip(id: u128)
    ensures
        id_of_words(id_words(id)[0], id_words(id)[1], id_words(id)[2], id_words(id)[3]) == id,
{
    let w0 = (id >> 96u128) as u32;
    let w1 = (id >> 64u128) as u32;
    let w2 = (id >> 32u128) as u32;
    let w3 = id as u32;
    assert(((w0 as u128) << 96u128) | ((w1 as u128) << 64u128) | ((w2 as u128) << 32u128) | (w3 as u128)
        == id) by (bit_vector)
        requires
            w0 == (id >> 96u128) as u32,
            w1 == (id >> 64u128) as u32,
            w2 == (id >> 32u128) as u32,
            w3 == id as u32,
    ;
}

/// Splitting the identifier made of four words gives the words.
proof fn lemma_words_round_trip(w0: u32, w1: u32, w2: u32, w3: u32)
    ensures
        id_words(id_of_words(w0, w1, w2, w3)) == seq![w0, w1, w2, w3],
{
    let id = id_of_words(w0, w1, w2, w3);
    assert((id >> 96u128) as u32 == w0 && (id >> 64u128) as u32 == w1 && (id >> 32u128) as u32 == w2
        && id as u32 == w3) by (bit_vector)
        requires
            id == ((w0 as u128) << 96u128) | ((w1 as u128) << 64u128) | ((w2 as u128) << 32u128) | (
            w3 as u128),
    ;
    assert(id_words(id) =~= seq![w0, w1, w2, w3]);
}

/// The little-endian bytes of a word.
fn put_word(w: u32) -> (r: [u8; 4])
    ensures
        r@ == word_bytes(w),
{
    let r = [(w & 0xff) as u8, ((w >> 8) & 0xff) as u8, ((w >> 16) & 0xff) as u8, (w >> 24) as u8];
    assert(r@ =~= word_bytes(w));
    r
}

/// The word whose little-endian bytes start at `i`.
fn get_word(b: &[u8; 40], i: usize) -> (r: u32)
    requires
        i + 4 <= 40,
    ensures
        r == word_at(b@, i as int),
{
    (b[i] as u32) | ((b[i + 1] as u32) << 8) | ((b[i + 2] as u32) << 16) | ((b[i + 3] as u32) << 24)
}

impl TransformEntry {
    /// An entry for the element and transform.
    pub fn new(id: ShapeId, transform: Affine) -> (r: Self)
        ensures
            r.id == id,
            r.transform == transform,
    {
        TransformEntry { id, transform }
    }

    /// Decodes the fixed layout written by `as_bytes`.
    pub fn from_bytes(bytes: [u8; 40]) -> (r: Self)
        ensures
            r == entry_of(bytes@),
    {
        let w0 = get_word(&bytes, 0);
        let w1 = get_word(&bytes, 4);
        let w2 = get_word(&bytes, 8);
        let w3 = get_word(&bytes, 12);
        let id = ((w0 as u128) << 96) | ((w1 as u128) << 64) | ((w2 as u128) << 32) | (w3 as u128);
        let transform = Affine {
            a: get_word(&bytes, 16),
            b: get_word(&bytes, 20),
            c: get_word(&bytes, 24),
            d: get_word(&bytes, 28),
            e: get_word(&bytes, 32),
            f: get_word(&bytes, 36),
        };
        TransformEntry { id, transform }
    }

    /// Encodes the entry: the identifier as four 32-bit words, most
    /// significant first, then `a, b, c, d, e, f`, each word little-endian.
    pub fn as_bytes(&self) -> (r: [u8; 40])
        ensures
            r@ == entry_bytes(*self),
    {
        let id = self.id;
        let t = self.transform;
        let w0 = put_word((id >> 96) as u32);
        let w1 = put_word((id >> 64) as u32);
        let w2 = put_word((id >> 32) as u32);
        let w3 = put_word(id as u32);
        let w4 = put_word(t.a);
        let w5 = put_word(t.b);
        let w6 = put_word(t.c);
        let w7 = put_word(t.d);
        let w8 = put_word(t.e);
        let w9 = put_word(t.f);
        let r = [w0[0], w0[1], w0[2], w0[3], w1[0], w1[1], w1[2], w1[3], w2[0], w2[1], w2[2], w2[3], w3[0], w3[1], w3[2], w3[3], w4[0], w4[1], w4[2], w4[3], w5[0], w5[1], w5[2], w5[3], w6[0], w6[1], w6[2], w6[3], w7[0], w7[1], w7[2], w7[3], w8[0], w8[1], w8[2], w8[3], w9[0], w9[1], w9[2], w9[3]];
        proof {
            let ws = entry_words(*self);
            assert(ws =~= seq![
                (id >> 96u128) as u32,
                (id >> 64u128) as u32,
                (id >> 32u128) as u32,
                id as u32,
                t.a,
                t.b,
                t.c,
                t.d,
                t.e,
                t.f,
            ]);
            let all = seq![w0@, w1@, w2@, w3@, w4@, w5@, w6@, w7@, w8@, w9@];
            assert forall|k: int| 0 <= k < 10 implies #[trigger] all[k] == word_bytes(ws[k]) by {}
            assert forall|i: int| 0 <= i < 40 implies #[trigger] r@[i] == all[i / 4][i % 4] by {}
            assert(r@ =~= entry_bytes(*self));
        }
        r
    }
}

/// Decoding an encoded entry gives back the same identifier and transform.
pub proof fn lemma_entry_round_trip(t: TransformEntry)
    ensures
        entry_of(entry_bytes(t)) == t,
{
    let b = entry_bytes(t);
    let w = entry_words(t);
    assert forall|k: int| 0 <= k < 10 implies word_at(b, 4 * k) == #[trigger] w[k] by {
        lemma_word_round_trip(w[k]);
        assert(b.subrange(4 * k, 4 * k + 4) =~= word_bytes(w[k]));
        assert(word_at(b, 4 * k) == word_at(b.subrange(4 * k, 4 * k + 4), 0));
    }
    lemma_id_round_trip(t.id);
    assert(word_at(b, 0) == w[0]);
    assert(word_at(b, 4) == w[1]);
    assert(word_at(b, 8) == w[2]);
    assert(word_at(b, 12) == w[3]);
    assert(word_at(b, 16) == w[4]);
    assert(word_at(b, 20) == w[5]);
    assert(word_at(b, 24) == w[6]);
    assert(word_at(b, 28) == w[7]);
    assert(word_at(b, 32) == w[8]);
    assert(word_at(b, 36) == w[9]);
}

/// Every 40 bytes are the encoding of the entry they decode to.
pub proof fn lemma_bytes_round_trip_entry(b: Seq<u8>)
    requires
        b.len() == 40,
    ensures
        entry_bytes(entry_of(b)) == b,
{
    let t = entry_of(b);
    let w = entry_words(t);
    lemma_words_round_trip(word_at(b, 0), word_at(b, 4), word_at(b, 8), word_at(b, 12));
    assert forall|k: int| 0 <= k < 10 implies #[trigger] w[k] == word_at(b, 4 * k) by {
        if k < 4 {
            assert(id_words(t.id)[k] == w[k]);
        }
    }
    assert forall|k: int| 0 <= k < 10 implies #[trigger] word_bytes(w[k]) == b.subrange(4 * k, 4 * k + 4) by {
        let s = b.subrange(4 * k, 4 * k + 4);
        lemma_bytes_round_trip(s[0], s[1], s[2], s[3]);
        assert(s =~= seq![s[0], s[1], s[2], s[3]]);
        assert(word_at(b, 4 * k) == word_at(s, 0));
    }
    assert forall|i: int| 0 <= i < 40 implies #[trigger] entry_bytes(t)[i] == b[i] by {
        let k = i / 4;
        assert(word_bytes(w[k]) == b.subrange(4 * k, 4 * k + 4));
    }
    assert(entry_bytes(t) =~= b);
}

} // verus!
