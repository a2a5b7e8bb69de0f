//! Counter reader.
//!
//! A counter is one key mapping to a little-endian signed 64-bit accumulator.
//! Absence of the key is the valid zero state, not an error.
use vstd::prelude::*;

verus! {

use crate::ReadError;
use crate::codec::{deserialize_i64_le, le_i64_of, I64_LEN};
use crate::store::{Snapshot, lookup};

/// Reads the counter stored under `key`: zero when the key was never written,
/// its little-endian signed 64-bit value when present, and a deserialization
/// error when the stored payload is not exactly eight bytes.
pub fn get_counter(snapshot: &Snapshot, key: &Vec<u8>) -> (r: Result<i64, ReadError>)
    ensures
        match lookup(snapshot@, key@) {
            Option::None => r == Ok::<i64, ReadError>(0i64),
            Option::Some(b) => if b.len() == I64_LEN {
                r matches Ok(v) && v as int == le_i64_of(b)
            } else {
                r == Err::<i64, ReadError>(ReadError::Deserialization)
            },
        },
{
    match snapshot.get(key) {
        None => Ok(0),
        Some(bytes) => deserialize_i64_le(&bytes),
    }
}

} // verus!
