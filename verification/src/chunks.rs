//! Chunked-value reassembly.
//!
//! A logical value at or above the backend's maximum single-value size is
//! stored as the base entry (holding the first slice) followed by chunk
//! entries keyed `base_key ++ [index]`, the index starting at zero and
//! incrementing by one. A chunk shorter than the maximum is the final chunk;
//! a missing chunk also terminates reassembly defensively. The concatenation
//! of the base entry and the chunk payloads in index order is the logical
//! value.
use vstd::prelude::*;

verus! {

use crate::store::{Snapshot, Store, Row, lookup, copy_bytes};

/// A value as the reassembler reports it.
pub enum ChunkedValue {
    /// No entry under the base key.
    Absent,
    /// A value stored whole, strictly under the maximum single-value size.
    Single(Vec<u8>),
    /// A value reassembled from the base entry and `n_chunks` chunk entries.
    Chunked { n_chunks: u8, bytes: Vec<u8> },
}

/// The concatenation of the chunk payloads from index `i` on, following the
/// termination rule: stop after a chunk shorter than `max`, or at a missing
/// chunk, or past the one-byte index space.
pub open spec fn chunks_from(s: Seq<Row>, base: Seq<u8>, i: int, max: nat) -> Seq<u8>
    decreases 256 - i,
{
    if i < 0 || i >= 256 {
        Seq::empty()
    } else {
        match lookup(s, base.push(i as u8)) {
            Option::None => Seq::empty(),
            Option::Some(b) => b + if b.len() < max {
                Seq::<u8>::empty()
            } else {
                chunks_from(s, base, i + 1, max)
            },
        }
    }
}

/// How many chunk entries reassembly from index `i` on consumes.
pub open spec fn chunk_count_from(s: Seq<Row>, base: Seq<u8>, i: int, max: nat) -> int
    decreases 256 - i,
{
    if i < 0 || i >= 256 {
        0
    } else {
        match lookup(s, base.push(i as u8)) {
            Option::None => 0,
            Option::Some(b) => 1 + if b.len() < max {
                0
            } else {
                chunk_count_from(s, base, i + 1, max)
            },
        }
    }
}

/// The logical value stored under `key`: the base entry when it is short,
/// otherwise the base entry followed by its chunk sequence.
pub open spec fn stored_value(s: Seq<Row>, key: Seq<u8>, max: nat) -> Option<Seq<u8>> {
    match lookup(s, key) {
        Option::None => Option::None,
        Option::Some(b) => Option::Some(
            if b.len() < max {
                b
            } else {
                b + chunks_from(s, key, 0, max)
            },
        ),
    }
}

/// The chunk entries from index `i` on hold exactly `rem`, sliced into
/// maximum-sized payloads with a final short payload.
pub open spec fn chunk_chain(s: Seq<Row>, base: Seq<u8>, max: nat, i: int, rem: Seq<u8>) -> bool
    decreases 256 - i,
{
    if rem.len() < max {
        0 <= i < 256 && lookup(s, base.push(i as u8)) == Option::Some(rem)
    } else {
        &&& 0 <= i < 255
        &&& lookup(s, base.push(i as u8)) == Option::Some(rem.take(max as int))
        &&& chunk_chain(s, base, max, i + 1, rem.skip(max as int))
    }
}

/// Round-trip chunking: in a state whose base entry and chunk chain lay out
/// `value` under `key`, reassembly yields exactly `value`, and the chunk
/// count of a value at or above the maximum is `value.len() / max`.
pub proof fn lemma_chunk_round_trip(s: Seq<Row>, key: Seq<u8>, value: Seq<u8>, max: nat)
    requires
        max > 0,
        if value.len() < max {
            lookup(s, key) == Option::Some(value)
        } else {
            lookup(s, key) == Option::Some(value.take(max as int)) && chunk_chain(
                s,
                key,
                max,
                0,
                value.skip(max as int),
            )
        },
    ensures
        stored_value(s, key, max) == Option::Some(value),
        value.len() >= max ==> chunk_count_from(s, key, 0, max) == value.len() as int / max as int,
{
    if value.len() < max {
    } else {
        lemma_chunk_chain_reassembles(s, key, max, 0, value.skip(max as int));
        assert(value.take(max as int) + value.skip(max as int) =~= value);
        assert(value.skip(max as int).len() as int / max as int + 1 == value.len() as int
            / max as int) by (nonlinear_arith)
            requires
                max > 0,
                value.len() >= max,
                value.skip(max as int).len() == value.len() - max,
        ;
    }
}

/// A chunk chain for `rem` reassembles to `rem` and is `rem.len() / max + 1`
/// chunks long.
proof fn lemma_chunk_chain_reassembles(s: Seq<Row>, base: Seq<u8>, max: nat, i: int, rem: Seq<u8>)
    requires
        max > 0,
        chunk_chain(s, base, max, i, rem),
    ensures
        chunks_from(s, base, i, max) == rem,
        chunk_count_from(s, base, i, max) == rem.len() as int / max as int + 1,
    decreases 256 - i,
{
    if rem.len() < max {
        assert(rem.len() as int / max as int == 0) by (nonlinear_arith)
            requires
                max > 0,
                0 <= rem.len() < max,
        ;
    } else {
        lemma_chunk_chain_reassembles(s, base, max, i + 1, rem.skip(max as int));
        assert(rem.take(max as int).len() == max);
        assert(rem.take(max as int) + rem.skip(max as int) =~= rem);
        assert(rem.skip(max as int).len() as int / max as int + 1 == rem.len() as int
            / max as int) by (nonlinear_arith)
            requires
                max > 0,
                rem.len() >= max,
                rem.skip(max as int).len() == rem.len() - max,
        ;
    }
}

/// Reassembles the value stored under `key`, issuing one read per chunk
/// through the one snapshot, so every chunk is observed at the same point in
/// time.
pub fn read_chunked_value(snapshot: &Snapshot, key: &Vec<u8>, max_value_size: usize) -> (r:
    ChunkedValue)
    requires
        max_value_size > 0,
    ensures
        ({
            let max = max_value_size as nat;
            match lookup(snapshot@, key@) {
                Option::None => r is Absent,
                Option::Some(b) => if b.len() < max {
                    r matches ChunkedValue::Single(v) && v@ == b
                } else {
                    r matches ChunkedValue::Chunked { n_chunks, bytes } && bytes@ == b
                        + chunks_from(snapshot@, key@, 0, max) && ({
                        let cnt = chunk_count_from(snapshot@, key@, 0, max);
                        n_chunks as int == if cnt <= 255 {
                            cnt
                        } else {
                            255
                        }
                    })
                },
            }
        }),
{
    let ghost s = snapshot@;
    let ghost max = max_value_size as nat;
    match snapshot.get(key) {
        None => ChunkedValue::Absent,
        Some(first) => {
            if first.len() < max_value_size {
                ChunkedValue::Single(first)
            } else {
                let ghost b0 = first@;
                let mut bytes = first;
                let mut idx: u8 = 0;
                let mut count: usize = 0;
                let mut done = false;
                while !done
                    invariant
                        snapshot@ == s,
                        max == max_value_size as nat,
                        max_value_size > 0,
                        count <= 256,
                        !done ==> count == idx as int,
                        !done ==> bytes@ + chunks_from(s, key@, idx as int, max) == b0
                            + chunks_from(s, key@, 0, max),
                        !done ==> count + chunk_count_from(s, key@, idx as int, max)
                            == chunk_count_from(s, key@, 0, max),
                        done ==> bytes@ == b0 + chunks_from(s, key@, 0, max),
                        done ==> count == chunk_count_from(s, key@, 0, max),
                    decreases 256 - idx as int, if done {
                        0int
                    } else {
                        1int
                    },
                {
                    let mut ck = copy_bytes(key);
                    ck.push(idx);
                    proof {
                        assert(ck@ == key@.push(idx));
                    }
                    match snapshot.get(&ck) {
                        None => {
                            proof {
                                assert(chunks_from(s, key@, idx as int, max) =~= Seq::<
                                    u8,
                                >::empty());
                                assert(bytes@ + Seq::<u8>::empty() =~= bytes@);
                                assert(chunk_count_from(s, key@, idx as int, max) == 0);
                            }
                            done = true;
                        },
                        Some(chunk) => {
                            let short = chunk.len() < max_value_size;
                            let ghost prev = bytes@;
                            let mut chunk = chunk;
                            bytes.append(&mut chunk);
                            count += 1;
                            proof {
                                let cf = chunks_from(s, key@, idx as int, max);
                                if short {
                                    assert(prev + cf =~= bytes@);
                                    assert(chunk_count_from(s, key@, idx as int, max) == 1);
                                } else {
                                    assert(prev + cf =~= bytes@ + chunks_from(
                                        s,
                                        key@,
                                        idx as int + 1,
                                        max,
                                    ));
                                    assert(chunk_count_from(s, key@, idx as int, max) == 1
                                        + chunk_count_from(s, key@, idx as int + 1, max));
                                }
                            }
                            if short {
                                done = true;
                            } else if idx == 255 {
                                proof {
                                    assert(chunks_from(s, key@, 256, max) =~= Seq::<u8>::empty());
                                    assert(bytes@ + Seq::<u8>::empty() =~= bytes@);
                                    assert(chunk_count_from(s, key@, 256, max) == 0);
                                }
                                done = true;
                            } else {
                                idx += 1;
                            }
                        },
                    }
                }
                let n_chunks: u8 = if count > 255 {
                    255
                } else {
                    count as u8
                };
                ChunkedValue::Chunked { n_chunks, bytes }
            }
        },
    }
}

/// Fetches the logical value stored under `key`: `None` when the base key is
/// absent, otherwise the fully reassembled bytes.
pub fn get_value(snapshot: &Snapshot, key: &Vec<u8>, max_value_size: usize) -> (r: Option<Vec<u8>>)
    requires
        max_value_size > 0,
    ensures
        match r {
            Some(v) => stored_value(snapshot@, key@, max_value_size as nat) == Option::Some(v@),
            None => stored_value(snapshot@, key@, max_value_size as nat) is None,
        },
{
    match read_chunked_value(snapshot, key, max_value_size) {
        ChunkedValue::Absent => None,
        ChunkedValue::Single(bytes) => Some(bytes),
        ChunkedValue::Chunked { n_chunks: _, bytes } => Some(bytes),
    }
}

/// Writes `value` under `key` in the backend's chunked layout: the write-path
/// double that round-trip reasoning and tests go through. Requires that no
/// stale chunk entries sit under `key` from an earlier, longer value.
pub fn write_value(store: &mut Store, key: &Vec<u8>, value: &Vec<u8>, max_value_size: usize)
    requires
        old(store).wf(),
        max_value_size > 0,
        value@.len() < max_value_size * 256,
        forall|j: int| 0 <= j < 256 ==> lookup(old(store)@, #[trigger] key@.push(j as u8)) is None,
    ensures
        final(store).wf(),
        stored_value(final(store)@, key@, max_value_size as nat) == Option::Some(value@),
        value@.len() >= max_value_size ==> chunk_count_from(
            final(store)@,
            key@,
            0,
            max_value_size as nat,
        ) == value@.len() as int / max_value_size as int,
{
    if value.len() < max_value_size {
        store.insert(copy_bytes(key), copy_bytes(value));
        proof {
            lemma_chunk_round_trip(store@, key@, value@, max_value_size as nat);
        }
    } else {
        let base = copy_slice(value, 0, max_value_size);
        store.insert(copy_bytes(key), base);
        proof {
            assert forall|j: int| 0 <= j < 256 implies lookup(
                store@,
                #[trigger] key@.push(j as u8),
            ) is None by {
                assert(key@.push(j as u8).len() != key@.len());
            }
            assert(value@.subrange(0, max_value_size as int) == value@.take(
                max_value_size as int,
            ));
        }
        write_chunks(store, key, 0, value, max_value_size, max_value_size);
        proof {
            assert forall|j: int| 0 <= j < 256 implies key@ != #[trigger] key@.push(j as u8) by {
                assert(key@.push(j as u8).len() != key@.len());
            }
            assert(lookup(store@, key@) == Option::Some(value@.take(max_value_size as int)));
            lemma_chunk_round_trip(store@, key@, value@, max_value_size as nat);
        }
    }
}

/// The outcome of inspecting a fetched base entry: either the final result,
/// or a reassembly in progress together with the first chunk key to fetch.
pub enum ChunkStart {
    Done(ChunkedValue),
    Continue(ChunkAssembly, Vec<u8>),
}

/// Incremental chunk reassembly for a driver that performs the fetches
/// itself (an asynchronous backend loop): the driver feeds each fetched
/// chunk in and receives the next chunk key, so every decision of the
/// termination rule — short chunk, absent chunk, exhausted index space — is
/// taken here, by the same rule `read_chunked_value` is verified against.
pub struct ChunkAssembly {
    base_key: Vec<u8>,
    max_value_size: usize,
    bytes: Vec<u8>,
    next_idx: u8,
    count: usize,
    finished: bool,
}

impl ChunkAssembly {
    /// The base key whose chunks are being reassembled.
    pub closed spec fn base(&self) -> Seq<u8> {
        self.base_key@
    }

    /// The maximum single-value size the termination rule compares against.
    pub closed spec fn max(&self) -> nat {
        self.max_value_size as nat
    }

    /// The bytes accumulated so far.
    pub closed spec fn bytes_view(&self) -> Seq<u8> {
        self.bytes@
    }

    /// The index of the chunk whose key was last handed out.
    pub closed spec fn next_index(&self) -> int {
        self.next_idx as int
    }

    /// How many chunk entries have been fed in.
    pub closed spec fn chunk_count(&self) -> int {
        self.count as int
    }

    /// Whether the termination rule has ended the reassembly.
    pub closed spec fn is_finished(&self) -> bool {
        self.finished
    }

    /// While unfinished, exactly the chunks before `next_index` were fed in.
    pub closed spec fn wf(&self) -> bool {
        !self.finished ==> self.count == self.next_idx as int
    }

    /// Feeds the outcome of fetching chunk `next_index()`: an absent chunk
    /// ends reassembly; a present chunk's payload is appended, and
    /// reassembly continues with the returned next chunk key unless the
    /// chunk was short or the one-byte index space is exhausted.
    pub fn on_chunk(&mut self, fetched: Option<Vec<u8>>) -> (r: Option<Vec<u8>>)
        requires
            old(self).wf(),
            !old(self).is_finished(),
        ensures
            final(self).wf(),
            final(self).base() == old(self).base(),
            final(self).max() == old(self).max(),
            r is Some ==> !final(self).is_finished(),
            r is None ==> final(self).is_finished(),
            match fetched {
                Option::None => {
                    &&& final(self).bytes_view() == old(self).bytes_view()
                    &&& final(self).chunk_count() == old(self).chunk_count()
                    &&& r is None
                },
                Option::Some(c) => {
                    &&& final(self).bytes_view() == old(self).bytes_view() + c@
                    &&& final(self).chunk_count() == old(self).chunk_count() + 1
                    &&& match r {
                        Option::Some(k) => c@.len() >= old(self).max() && old(self).next_index()
                            < 255 && k@ == old(self).base().push((old(self).next_index() + 1) as u8)
                            && final(self).next_index() == old(self).next_index() + 1,
                        Option::None => c@.len() < old(self).max() || old(self).next_index()
                            == 255,
                    }
                },
            },
    {
        match fetched {
            None => {
                self.finished = true;
                None
            },
            Some(mut c) => {
                let short = c.len() < self.max_value_size;
                self.bytes.append(&mut c);
                self.count += 1;
                if short || self.next_idx == 255 {
                    self.finished = true;
                    None
                } else {
                    self.next_idx += 1;
                    Some(next_chunk_key(&self.base_key, self.next_idx))
                }
            },
        }
    }

    /// The reassembled result: the accumulated bytes, with the number of
    /// chunk entries consumed (capped at the one-byte maximum).
    pub fn finish(self) -> (r: ChunkedValue)
        ensures
            (r matches ChunkedValue::Chunked { n_chunks, bytes } && bytes@ == self.bytes_view()
                && n_chunks as int == if self.chunk_count() <= 255 {
                self.chunk_count()
            } else {
                255
            }),
    {
        let n_chunks: u8 = if self.count > 255 {
            255
        } else {
            self.count as u8
        };
        ChunkedValue::Chunked { n_chunks, bytes: self.bytes }
    }
}

/// Classifies a fetched base entry: absent and short values are final;
/// a value at or above the maximum starts a chunk reassembly whose first
/// fetch is chunk 0.
pub fn begin_reassembly(base_key: Vec<u8>, fetched: Option<Vec<u8>>, max_value_size: usize) -> (r:
    ChunkStart)
    requires
        max_value_size > 0,
    ensures
        match fetched {
            Option::None => r matches ChunkStart::Done(ChunkedValue::Absent),
            Option::Some(b) => if b@.len() < max_value_size {
                r matches ChunkStart::Done(ChunkedValue::Single(v)) && v@ == b@
            } else {
                r matches ChunkStart::Continue(assembly, k) && assembly.wf() && !assembly.is_finished()
                    && assembly.base() == base_key@ && assembly.max() == max_value_size as nat
                    && assembly.bytes_view() == b@ && assembly.next_index() == 0 && assembly.chunk_count() == 0
                    && k@ == base_key@.push(0u8)
            },
        },
{
    match fetched {
        None => ChunkStart::Done(ChunkedValue::Absent),
        Some(b) => {
            if b.len() < max_value_size {
                ChunkStart::Done(ChunkedValue::Single(b))
            } else {
                let k = next_chunk_key(&base_key, 0);
                let assembly = ChunkAssembly {
                    base_key,
                    max_value_size,
                    bytes: b,
                    next_idx: 0,
                    count: 0,
                    finished: false,
                };
                ChunkStart::Continue(assembly, k)
            }
        },
    }
}

/// Derives the key of chunk `idx` from the base key: the base key with the
/// one-byte chunk index appended.
pub fn next_chunk_key(base: &Vec<u8>, idx: u8) -> (r: Vec<u8>)
    ensures
        r@ == base@.push(idx),
{
    let mut r = copy_bytes(base);
    r.push(idx);
    r
}

/// Copies `v[from..to]` into a fresh vector.
fn copy_slice(v: &Vec<u8>, from: usize, to: usize) -> (r: Vec<u8>)
    requires
        from <= to <= v@.len(),
    ensures
        r@ == v@.subrange(from as int, to as int),
{
    let mut r: Vec<u8> = Vec::new();
    let mut i: usize = from;
    while i < to
        invariant
            from <= i <= to <= v@.len(),
            r@ == v@.subrange(from as int, i as int),
        decreases to - i,
    {
        r.push(v[i]);
        i += 1;
        proof {
            assert(v@.subrange(from as int, i as int) =~= v@.subrange(from as int, i - 1).push(
                v@[i - 1],
            ));
        }
    }
    r
}

/// Writes the chunk entries for `value[off..]` starting at chunk index `idx`,
/// one maximum-sized payload per index and a final short payload.
fn write_chunks(
    store: &mut Store,
    key: &Vec<u8>,
    idx: u8,
    value: &Vec<u8>,
    off: usize,
    max_value_size: usize,
)
    requires
        old(store).wf(),
        max_value_size > 0,
        off <= value@.len(),
        value@.len() - off < max_value_size * (256 - idx as int),
        forall|j: int|
            idx as int <= j < 256 ==> lookup(old(store)@, #[trigger] key@.push(j as u8)) is None,
    ensures
        final(store).wf(),
        chunk_chain(
            final(store)@,
            key@,
            max_value_size as nat,
            idx as int,
            value@.skip(off as int),
        ),
        forall|k: Seq<u8>|
            (forall|j: int| idx as int <= j < 256 ==> k != #[trigger] key@.push(j as u8))
                ==> #[trigger] lookup(final(store)@, k) == lookup(old(store)@, k),
    decreases 256 - idx as int,
{
    let ghost rem = value@.skip(off as int);
    let rem_len = value.len() - off;
    if rem_len < max_value_size {
        let payload = copy_slice(value, off, value.len());
        let mut ck = copy_bytes(key);
        ck.push(idx);
        store.insert(ck, payload);
        proof {
            assert(value@.subrange(off as int, value@.len() as int) =~= rem);
        }
    } else {
        proof {
            assert((idx as int) < 255) by (nonlinear_arith)
                requires
                    max_value_size > 0,
                    value@.len() - off >= max_value_size,
                    value@.len() - off < max_value_size * (256 - idx as int),
                    idx as int <= 255,
            ;
            assert(value@.len() - (off + max_value_size) < max_value_size * (256 - (idx as int
                + 1))) by (nonlinear_arith)
                requires
                    value@.len() - off < max_value_size * (256 - idx as int),
            ;
        }
        let payload = copy_slice(value, off, off + max_value_size);
        let mut ck = copy_bytes(key);
        ck.push(idx);
        let ghost mid = *store;
        store.insert(ck, payload);
        proof {
            assert forall|j: int| idx as int + 1 <= j < 256 implies lookup(
                store@,
                #[trigger] key@.push(j as u8),
            ) is None by {
                assert(key@.push(j as u8).last() != key@.push(idx).last());
                assert(key@.push(j as u8) != key@.push(idx));
            }
        }
        let ghost before_rec = *store;
        write_chunks(store, key, idx + 1, value, off + max_value_size, max_value_size);
        proof {
            assert forall|j: int| idx as int + 1 <= j < 256 implies key@.push(idx)
                != #[trigger] key@.push(j as u8) by {
                assert(key@.push(j as u8).last() != key@.push(idx).last());
            }
            assert(lookup(store@, key@.push(idx)) == lookup(before_rec@, key@.push(idx)));
            assert(value@.subrange(off as int, off + max_value_size as int) =~= rem.take(
                max_value_size as int,
            ));
            assert(value@.skip(off + max_value_size as int) =~= rem.skip(max_value_size as int));
        }
    }
}

} // verus!
