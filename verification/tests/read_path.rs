//! End-to-end tests of the read path over the in-memory backend double.
use store_read::chunks::{
    begin_reassembly, get_value, next_chunk_key, read_chunked_value, write_value, ChunkStart,
    ChunkedValue,
};
use store_read::counter::get_counter;
use store_read::store::Store;
use store_read::ReadError;

const MAX: usize = 8;

fn key(bytes: &[u8]) -> Vec<u8> {
    bytes.to_vec()
}

#[test]
fn chunk_round_trip_empty() {
    let mut store = Store::new();
    let k = key(&[1, 10]);
    let v: Vec<u8> = Vec::new();
    write_value(&mut store, &k, &v, MAX);
    let snap = store.snapshot();
    assert_eq!(get_value(&snap, &k, MAX), Some(v));
}

#[test]
fn chunk_round_trip_one_under_max() {
    let mut store = Store::new();
    let k = key(&[1, 10]);
    let v: Vec<u8> = (0..(MAX - 1) as u8).collect();
    write_value(&mut store, &k, &v, MAX);
    let snap = store.snapshot();
    assert_eq!(get_value(&snap, &k, MAX), Some(v.clone()));
    match read_chunked_value(&snap, &k, MAX) {
        ChunkedValue::Single(bytes) => assert_eq!(bytes, v),
        _ => panic!("a value under the maximum is stored whole"),
    }
}

#[test]
fn chunk_round_trip_exactly_max() {
    let mut store = Store::new();
    let k = key(&[1, 10]);
    let v: Vec<u8> = (0..MAX as u8).collect();
    write_value(&mut store, &k, &v, MAX);
    let snap = store.snapshot();
    match read_chunked_value(&snap, &k, MAX) {
        ChunkedValue::Chunked { n_chunks, bytes } => {
            assert_eq!(bytes, v);
            // One continuation chunk: the empty terminal chunk.
            assert_eq!(n_chunks, 1);
        },
        _ => panic!("a value at the maximum is chunked"),
    }
}

#[test]
fn chunk_round_trip_three_max_plus_seven() {
    let mut store = Store::new();
    let k = key(&[1, 10]);
    let len = 3 * MAX + 7;
    let v: Vec<u8> = (0..len as u8).map(|b| b.wrapping_mul(7)).collect();
    write_value(&mut store, &k, &v, MAX);
    let snap = store.snapshot();
    match read_chunked_value(&snap, &k, MAX) {
        ChunkedValue::Chunked { n_chunks, bytes } => {
            assert_eq!(bytes, v);
            assert_eq!(n_chunks as usize, len / MAX);
        },
        _ => panic!("a value above the maximum is chunked"),
    }
    assert_eq!(get_value(&snap, &k, MAX), Some(v));
}

#[test]
fn chunk_round_trip_two_max_exactly() {
    let mut store = Store::new();
    let k = key(&[1, 10]);
    let v: Vec<u8> = (0..(2 * MAX) as u8).collect();
    write_value(&mut store, &k, &v, MAX);
    let snap = store.snapshot();
    match read_chunked_value(&snap, &k, MAX) {
        ChunkedValue::Chunked { n_chunks, bytes } => {
            assert_eq!(bytes, v);
            assert_eq!(n_chunks, 2);
        },
        _ => panic!("a value above the maximum is chunked"),
    }
}

#[test]
fn write_replaces_previous_single_value() {
    let mut store = Store::new();
    let k = key(&[1, 10]);
    write_value(&mut store, &k, &vec![1, 2, 3], MAX);
    write_value(&mut store, &k, &vec![9], MAX);
    let snap = store.snapshot();
    assert_eq!(get_value(&snap, &k, MAX), Some(vec![9]));
}

#[test]
fn absent_value_is_none() {
    let store = Store::new();
    let snap = store.snapshot();
    assert_eq!(get_value(&snap, &key(&[9, 9, 9]), MAX), None);
    assert!(matches!(
        read_chunked_value(&snap, &key(&[9]), MAX),
        ChunkedValue::Absent
    ));
}

#[test]
fn missing_chunk_terminates_defensively() {
    // A full-size base entry with no chunk entries at all: reassembly stops
    // at the missing chunk and returns what it has.
    let mut store = Store::new();
    let k = key(&[1, 10]);
    let v: Vec<u8> = vec![42; MAX];
    store.insert(k.clone(), v.clone());
    let snap = store.snapshot();
    match read_chunked_value(&snap, &k, MAX) {
        ChunkedValue::Chunked { n_chunks, bytes } => {
            assert_eq!(bytes, v);
            assert_eq!(n_chunks, 0);
        },
        _ => panic!("a full-size base entry reads as chunked"),
    }
}

#[test]
fn step_machine_matches_direct_reassembly() {
    // Drive the fetch-loop step machine by hand against the same snapshot a
    // direct read uses; both must reassemble identically.
    let mut store = Store::new();
    let k = key(&[1, 10]);
    let len = 3 * MAX + 7;
    let v: Vec<u8> = (0..len as u8).collect();
    write_value(&mut store, &k, &v, MAX);
    let snap = store.snapshot();
    let stepped = match begin_reassembly(k.clone(), snap.get(&k), MAX) {
        ChunkStart::Done(value) => value,
        ChunkStart::Continue(mut assembly, first_key) => {
            let mut next = first_key;
            loop {
                match assembly.on_chunk(snap.get(&next)) {
                    Some(nk) => next = nk,
                    None => break assembly.finish(),
                }
            }
        },
    };
    match (stepped, read_chunked_value(&snap, &k, MAX)) {
        (
            ChunkedValue::Chunked { n_chunks: a, bytes: b },
            ChunkedValue::Chunked { n_chunks: c, bytes: d },
        ) => {
            assert_eq!(a, c);
            assert_eq!(b, d);
            assert_eq!(b, v);
        },
        _ => panic!("both reads see a chunked value"),
    }
}

#[test]
fn step_machine_short_and_absent_base() {
    let mut store = Store::new();
    store.insert(key(&[1]), vec![7, 8]);
    let snap = store.snapshot();
    assert!(matches!(
        begin_reassembly(key(&[1]), snap.get(&key(&[1])), MAX),
        ChunkStart::Done(ChunkedValue::Single(_))
    ));
    assert!(matches!(
        begin_reassembly(key(&[2]), snap.get(&key(&[2])), MAX),
        ChunkStart::Done(ChunkedValue::Absent)
    ));
    assert_eq!(next_chunk_key(&key(&[1, 2]), 3), vec![1, 2, 3]);
}

#[test]
fn counter_default_is_zero() {
    let store = Store::new();
    let snap = store.snapshot();
    assert_eq!(get_counter(&snap, &key(&[3, 1])), Ok(0));
}

#[test]
fn counter_reads_negative_five() {
    let mut store = Store::new();
    let k = key(&[3, 1]);
    store.insert(
        k.clone(),
        vec![0xfb, 0xff, 0xff, 0xff, 0xff, 0xff, 0xff, 0xff],
    );
    let snap = store.snapshot();
    assert_eq!(get_counter(&snap, &k), Ok(-5));
}

#[test]
fn counter_reads_positive_and_extremes() {
    let mut store = Store::new();
    store.insert(key(&[1]), vec![0x2a, 0, 0, 0, 0, 0, 0, 0]);
    store.insert(key(&[2]), vec![0xff; 8]);
    store.insert(key(&[3]), vec![0, 0, 0, 0, 0, 0, 0, 0x80]);
    let snap = store.snapshot();
    assert_eq!(get_counter(&snap, &key(&[1])), Ok(42));
    assert_eq!(get_counter(&snap, &key(&[2])), Ok(-1));
    assert_eq!(get_counter(&snap, &key(&[3])), Ok(i64::MIN));
}

#[test]
fn counter_wrong_length_is_deserialization_error() {
    let mut store = Store::new();
    let k = key(&[3, 1]);
    store.insert(k.clone(), vec![1, 2, 3]);
    let snap = store.snapshot();
    assert_eq!(get_counter(&snap, &k), Err(ReadError::Deserialization));
}

#[test]
fn snapshot_consistency_under_concurrent_write() {
    let mut store = Store::new();
    let k = key(&[7, 7]);
    store.insert(k.clone(), vec![1]);
    let snap = store.snapshot();
    let first_read = snap.get(&k);
    // A concurrent writer commits between the two reads.
    store.insert(k.clone(), vec![2]);
    store.insert(key(&[7, 8]), vec![3]);
    let second_read = snap.get(&k);
    assert_eq!(first_read, Some(vec![1]));
    assert_eq!(second_read, Some(vec![1]));
    // A snapshot taken after the writes observes them.
    let later = store.snapshot();
    assert_eq!(later.get(&k), Some(vec![2]));
}
