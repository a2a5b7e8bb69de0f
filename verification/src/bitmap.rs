//! Bitmap index reader.
//!
//! One index class stores one key per present document: the class key with
//! the document identifier in the trailing four bytes. Reading the index is
//! one bounded key-only scan over the class's key range; every returned key
//! of exactly the expected length contributes its trailing document id to a
//! compressed bitmap. An empty result is reported as "no index", not as an
//! empty bitmap.
use vstd::prelude::*;

verus! {

use roaring::RoaringBitmap;
use crate::codec::{BitmapKey, be_u32_of, be_u32_seq, U32_LEN, read_be_u32_at};
use crate::store::{Snapshot, Row, range_entries};

#[verifier::external_type_specification]
#[verifier::external_body]
pub struct ExRoaringBitmap(RoaringBitmap);

/// The set of 32-bit values a roaring bitmap holds.
pub uninterp spec fn bitmap_set(b: RoaringBitmap) -> Set<u32>;

/// Relies on roaring's RoaringBitmap::new: a fresh bitmap holds no value.
#[verifier::external_body]
pub fn bitmap_new() -> (r: RoaringBitmap)
    ensures
        bitmap_set(r) == Set::<u32>::empty(),
{
    RoaringBitmap::new()
}

/// Relies on roaring's RoaringBitmap::insert: adds one value; the result says
/// whether the value was previously absent.
#[verifier::external_body]
pub fn bitmap_insert(b: &mut RoaringBitmap, value: u32) -> (r: bool)
    ensures
        bitmap_set(*final(b)) == bitmap_set(*old(b)).insert(value),
        r == !bitmap_set(*old(b)).contains(value),
{
    b.insert(value)
}

/// Relies on roaring's RoaringBitmap::contains.
#[verifier::external_body]
pub fn bitmap_contains(b: &RoaringBitmap, value: u32) -> (r: bool)
    ensures
        r == bitmap_set(*b).contains(value),
{
    b.contains(value)
}

/// Relies on roaring's RoaringBitmap::is_empty.
#[verifier::external_body]
pub fn bitmap_is_empty(b: &RoaringBitmap) -> (r: bool)
    ensures
        r == bitmap_set(*b).is_empty(),
{
    b.is_empty()
}

/// The document id encoded in the trailing four bytes of a presence key.
pub open spec fn doc_id_of(key: Seq<u8>) -> u32 {
    be_u32_of(key.skip(key.len() - U32_LEN))
}

/// The document ids aggregated from a scanned key sequence: keys of exactly
/// the expected length contribute their trailing id; foreign keys of another
/// length are skipped.
pub open spec fn doc_ids_of(keys: Seq<Seq<u8>>, key_len: nat) -> Set<u32>
    decreases keys.len(),
{
    if keys.len() == 0 {
        Set::empty()
    } else {
        let rest = doc_ids_of(keys.drop_last(), key_len);
        if keys.last().len() == key_len && key_len >= U32_LEN {
            rest.insert(doc_id_of(keys.last()))
        } else {
            rest
        }
    }
}

/// The end of a class's scan range: the class key with the largest document
/// id. The scan range is half-open, `[begin, end)`.
pub open spec fn bitmap_range_end(key: BitmapKey) -> Seq<u8> {
    seq![key.subspace] + key.class@ + be_u32_seq(u32::MAX)
}

/// Materializes the bitmap index of one class from the snapshot: one bounded
/// key-only scan of at most `max_keys` keys, aggregating the document id of
/// every key of the class's exact length. Returns `None` when no document is
/// present.
pub fn get_bitmap(snapshot: &Snapshot, key: &BitmapKey, max_keys: usize) -> (r: Option<
    RoaringBitmap,
>)
    requires
        snapshot.wf(),
    ensures
        ({
            let begin = key.serialized_spec(true);
            let ks = range_entries(snapshot@, begin, bitmap_range_end(*key)).map_values(
                |e: Row| e.0,
            );
            let scanned = if max_keys as int <= ks.len() {
                ks.take(max_keys as int)
            } else {
                ks
            };
            let docs = doc_ids_of(scanned, begin.len());
            match r {
                Some(bm) => bitmap_set(bm) == docs && !docs.is_empty(),
                None => docs.is_empty(),
            }
        }),
{
    let (begin, end) = bitmap_scan_range(key);
    let key_len = begin.len();
    proof {
        assert(be_u32_seq(key.document_id).len() == U32_LEN);
        assert(begin@.len() >= U32_LEN);
    }
    let keys = snapshot.scan_keys(&begin, &end, max_keys);
    aggregate_doc_ids(&keys, key_len)
}

/// Builds the scan range `[begin, end)` of one class: the class key as
/// given, and the class key with the largest document id. Both carry the
/// subspace byte, so `begin` is at least five bytes long.
pub fn bitmap_scan_range(key: &BitmapKey) -> (r: (Vec<u8>, Vec<u8>))
    ensures
        r.0@ == key.serialized_spec(true),
        r.1@ == bitmap_range_end(*key),
        r.0@.len() >= U32_LEN + 1,
{
    let begin = key.serialize(true);
    let end_key = BitmapKey {
        subspace: key.subspace,
        class: crate::store::copy_bytes(&key.class),
        document_id: u32::MAX,
    };
    let end = end_key.serialize(true);
    proof {
        assert(end@ =~= bitmap_range_end(*key));
        assert(be_u32_seq(key.document_id).len() == U32_LEN);
    }
    (begin, end)
}

/// Aggregates the trailing document ids of every scanned key of exactly
/// `key_len` bytes into a bitmap, skipping foreign keys of another length.
/// Returns `None` when nothing of the right length was scanned.
pub fn aggregate_doc_ids(keys: &Vec<Vec<u8>>, key_len: usize) -> (r: Option<RoaringBitmap>)
    requires
        key_len >= U32_LEN,
    ensures
        ({
            let docs = doc_ids_of(keys@.map_values(|k: Vec<u8>| k@), key_len as nat);
            match r {
                Some(bm) => bitmap_set(bm) == docs && !docs.is_empty(),
                None => docs.is_empty(),
            }
        }),
{
    let ghost scanned = keys@.map_values(|k: Vec<u8>| k@);
    let mut bm = bitmap_new();
    let mut i: usize = 0;
    while i < keys.len()
        invariant
            i <= keys@.len(),
            key_len >= U32_LEN,
            scanned == keys@.map_values(|k: Vec<u8>| k@),
            bitmap_set(bm) == doc_ids_of(scanned.take(i as int), key_len as nat),
        decreases keys@.len() - i,
    {
        let k = &keys[i];
        proof {
            assert(scanned.take(i + 1).drop_last() =~= scanned.take(i as int));
            assert(scanned.take(i + 1).last() == k@);
        }
        if k.len() == key_len {
            let d = read_be_u32_at(k, key_len - U32_LEN);
            proof {
                assert(k@.subrange(key_len - U32_LEN, key_len - U32_LEN + U32_LEN) =~= k@.skip(
                    k@.len() - U32_LEN,
                ));
            }
            bitmap_insert(&mut bm, d);
        }
        i += 1;
    }
    proof {
        assert(scanned.take(keys@.len() as int) =~= scanned);
    }
    if bitmap_is_empty(&bm) {
        None
    } else {
        Some(bm)
    }
}

/// Bitmap round trip: aggregating exactly the presence keys written for a
/// sequence of document ids yields exactly that set of ids.
pub proof fn lemma_bitmap_round_trip(prefix: Seq<u8>, docs: Seq<u32>)
    ensures
        doc_ids_of(
            docs.map_values(|d: u32| prefix + be_u32_seq(d)),
            prefix.len() + U32_LEN as nat,
        ) == docs.to_set(),
    decreases docs.len(),
{
    let enc = |d: u32| prefix + be_u32_seq(d);
    let keys = docs.map_values(enc);
    if docs.len() == 0 {
        assert(docs.to_set() =~= Set::<u32>::empty());
    } else {
        lemma_bitmap_round_trip(prefix, docs.drop_last());
        let d = docs.last();
        assert(keys.drop_last() =~= docs.drop_last().map_values(enc));
        assert(keys.last() == prefix + be_u32_seq(d));
        assert(keys.last().len() == prefix.len() + U32_LEN);
        assert(keys.last().skip(keys.last().len() - U32_LEN) =~= be_u32_seq(d));
        lemma_be_u32_round_trip(d);
        assert(doc_id_of(keys.last()) == d);
        assert(docs.to_set() =~= docs.drop_last().to_set().insert(d)) by {
            assert forall|x: u32| docs.to_set().contains(x) implies docs.drop_last(
            ).to_set().insert(d).contains(x) by {
                let i = choose|i: int| 0 <= i < docs.len() && docs[i] == x;
                if i < docs.len() - 1 {
                    assert(docs.drop_last()[i] == x);
                    assert(docs.drop_last().to_set().contains(x));
                }
            }
            assert forall|x: u32| docs.drop_last().to_set().insert(d).contains(x) implies docs.to_set().contains(
                x,
            ) by {
                if x == d {
                    assert(docs[docs.len() - 1] == x);
                } else {
                    let i = choose|i: int|
                        0 <= i < docs.drop_last().len() && docs.drop_last()[i] == x;
                    assert(docs[i] == x);
                }
            }
        }
    }
}

/// Decoding the four big-endian bytes of an encoded document id gives the id
/// back.
pub proof fn lemma_be_u32_round_trip(d: u32)
    ensures
        be_u32_of(be_u32_seq(d)) == d,
{
    let s = be_u32_seq(d);
    assert(s[0] as int == d as int / 0x1000000 % 256);
    assert(s[1] as int == d as int / 0x10000 % 256);
    assert(s[2] as int == d as int / 0x100 % 256);
    assert(s[3] as int == d as int % 256);
    assert(s[0] as int * 0x1000000 + s[1] as int * 0x10000 + s[2] as int * 0x100 + s[3] as int
        == d as int) by (nonlinear_arith)
        requires
            s[0] as int == d as int / 0x1000000 % 256,
            s[1] as int == d as int / 0x10000 % 256,
            s[2] as int == d as int / 0x100 % 256,
            s[3] as int == d as int % 256,
            0 <= d as int,
            d as int <= 0xffffffff,
    ;
}

/// Length filtering: a scanned key of a foreign length contributes nothing to
/// the aggregated document set.
pub proof fn lemma_length_filtering(keys: Seq<Seq<u8>>, foreign: Seq<u8>, key_len: nat)
    requires
        foreign.len() != key_len,
    ensures
        doc_ids_of(keys.push(foreign), key_len) == doc_ids_of(keys, key_len),
{
    assert(keys.push(foreign).drop_last() =~= keys);
}

} // verus!
