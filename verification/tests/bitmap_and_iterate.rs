//! Tests of bitmap aggregation and range iteration.
use store_read::bitmap::{aggregate_doc_ids, bitmap_contains, bitmap_is_empty, get_bitmap};
use store_read::codec::{deserialize_be_u32, serialize_be_u32, BitmapKey};
use store_read::iterate::{iterate, CollectRows, FailAfter, IterateParams, StopAfter};
use store_read::store::Store;
use store_read::ReadError;

const SUBSPACE: u8 = 5;

fn presence_key(class: &[u8], doc: u32) -> Vec<u8> {
    let mut k = vec![SUBSPACE];
    k.extend_from_slice(class);
    k.append(&mut serialize_be_u32(doc));
    k
}

fn store_with_docs(class: &[u8], docs: &[u32]) -> Store {
    let mut store = Store::new();
    for &d in docs {
        store.insert(presence_key(class, d), Vec::new());
    }
    store
}

fn class_key(class: &[u8], doc: u32) -> BitmapKey {
    BitmapKey { subspace: SUBSPACE, class: class.to_vec(), document_id: doc }
}

#[test]
fn bitmap_round_trip() {
    let class = [2u8, 9];
    let docs = [0u32, 1, 7, 300, 70_000, 4_000_000_000];
    let store = store_with_docs(&class, &docs);
    let snap = store.snapshot();
    let bm = get_bitmap(&snap, &class_key(&class, 0), 1000).expect("documents are present");
    for &d in &docs {
        assert!(bitmap_contains(&bm, d));
    }
    assert!(!bitmap_contains(&bm, 2));
    assert!(!bitmap_contains(&bm, 299));
    assert!(!bitmap_is_empty(&bm));
}

#[test]
fn bitmap_empty_class_is_none() {
    let store = store_with_docs(&[2, 9], &[]);
    let snap = store.snapshot();
    assert!(get_bitmap(&snap, &class_key(&[2, 9], 0), 1000).is_none());
}

#[test]
fn bitmap_key_length_filtering() {
    let class = [2u8, 9];
    let mut store = store_with_docs(&class, &[4, 10]);
    // Foreign keys sharing the class prefix but of another length fall inside
    // the scan range; they must not contribute document ids.
    let mut longer = presence_key(&class, 6);
    longer.push(0xee);
    store.insert(longer, Vec::new());
    let mut shorter = vec![SUBSPACE];
    shorter.extend_from_slice(&class);
    shorter.extend_from_slice(&[0, 0, 1]);
    store.insert(shorter, Vec::new());
    let snap = store.snapshot();
    let bm = get_bitmap(&snap, &class_key(&class, 0), 1000).expect("documents are present");
    assert!(bitmap_contains(&bm, 4));
    assert!(bitmap_contains(&bm, 10));
    assert!(!bitmap_contains(&bm, 6));
    assert!(!bitmap_contains(&bm, 1));
}

#[test]
fn aggregate_skips_foreign_lengths() {
    let keys = vec![
        presence_key(&[2, 9], 3),
        vec![SUBSPACE, 2, 9, 0, 0], // too short
        presence_key(&[2, 9], 8),
    ];
    let key_len = presence_key(&[2, 9], 0).len();
    let bm = aggregate_doc_ids(&keys, key_len).expect("two well-formed keys");
    assert!(bitmap_contains(&bm, 3));
    assert!(bitmap_contains(&bm, 8));
    assert!(!bitmap_contains(&bm, 0));
}

#[test]
fn be_u32_codec_round_trip() {
    for &v in &[0u32, 1, 255, 256, 0x01020304, u32::MAX] {
        let bytes = serialize_be_u32(v);
        assert_eq!(bytes.len(), 4);
        assert_eq!(deserialize_be_u32(&bytes, 0), Ok(v));
    }
    assert_eq!(serialize_be_u32(0x01020304), vec![1, 2, 3, 4]);
    assert_eq!(
        deserialize_be_u32(&vec![1, 2, 3], 0),
        Err(ReadError::Deserialization)
    );
    assert_eq!(
        deserialize_be_u32(&vec![1, 2, 3, 4], 1),
        Err(ReadError::Deserialization)
    );
}

fn iteration_store() -> Store {
    let mut store = Store::new();
    store.insert(vec![SUBSPACE, 1], vec![10]);
    store.insert(vec![SUBSPACE, 2], vec![20]);
    store.insert(vec![SUBSPACE, 3], vec![30]);
    store.insert(vec![SUBSPACE, 4], vec![40]);
    store.insert(vec![6, 1], vec![99]); // outside the range
    store
}

fn params(ascending: bool, first: bool) -> IterateParams {
    IterateParams {
        begin: vec![SUBSPACE, 1],
        end: vec![SUBSPACE, 0xff],
        ascending,
        first,
    }
}

#[test]
fn iteration_order_ascending_and_descending() {
    let store = iteration_store();
    let snap = store.snapshot();
    let mut up = CollectRows::new();
    assert_eq!(iterate(&snap, &params(true, false), 1000, &mut up), Ok(()));
    let up_rows = up.rows;
    let mut down = CollectRows::new();
    assert_eq!(iterate(&snap, &params(false, false), 1000, &mut down), Ok(()));
    let down_rows = down.rows;
    // Subspace byte stripped, ascending key order.
    let expect: Vec<(Vec<u8>, Vec<u8>)> = vec![
        (vec![1], vec![10]),
        (vec![2], vec![20]),
        (vec![3], vec![30]),
        (vec![4], vec![40]),
    ];
    assert_eq!(up_rows, expect);
    let mut reversed = down_rows.clone();
    reversed.reverse();
    assert_eq!(reversed, expect);
}

#[test]
fn iteration_first_only() {
    let store = iteration_store();
    let snap = store.snapshot();
    let mut first_up = CollectRows::new();
    assert_eq!(iterate(&snap, &params(true, true), 1000, &mut first_up), Ok(()));
    assert_eq!(first_up.rows, vec![(vec![1u8], vec![10u8])]);
    let mut first_down = CollectRows::new();
    assert_eq!(iterate(&snap, &params(false, true), 1000, &mut first_down), Ok(()));
    assert_eq!(first_down.rows, vec![(vec![4u8], vec![40u8])]);
}

#[test]
fn iteration_early_stop() {
    let store = iteration_store();
    let snap = store.snapshot();
    let mut two = StopAfter::new(2);
    assert_eq!(iterate(&snap, &params(true, false), 1000, &mut two), Ok(()));
    assert_eq!(two.rows, vec![(vec![1u8], vec![10u8]), (vec![2u8], vec![20u8])]);
}

#[test]
fn iteration_callback_error_aborts() {
    let store = iteration_store();
    let snap = store.snapshot();
    let mut failing = FailAfter::new(2);
    assert_eq!(
        iterate(&snap, &params(true, false), 1000, &mut failing),
        Err(ReadError::Callback)
    );
    // The error aborts the scan: no invocation after the failing one.
    assert_eq!(failing.rows, vec![(vec![1u8], vec![10u8]), (vec![2u8], vec![20u8])]);
}

#[test]
fn iteration_empty_range_succeeds() {
    let store = iteration_store();
    let snap = store.snapshot();
    let mut rows = CollectRows::new();
    let empty = IterateParams {
        begin: vec![9, 0],
        end: vec![9, 0xff],
        ascending: true,
        first: false,
    };
    assert_eq!(iterate(&snap, &empty, 1000, &mut rows), Ok(()));
    assert!(rows.rows.is_empty());
}
