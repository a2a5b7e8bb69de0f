//! Point-in-time snapshot model of the backend key-value state.
//!
//! A [`Store`] is the mutable current state (used by callers as a test double
//! for the backend and as the state a snapshot is taken of); a [`Snapshot`]
//! is an immutable copy bound to the moment it was acquired, so every read
//! issued through one snapshot observes the same state, however many round
//! trips an operation takes.
use vstd::prelude::*;

verus! {

use crate::order::{lex_lt, lex_le, lemma_lex_irrefl, lemma_lex_total, lemma_lex_trans, bytes_lt,
    bytes_le};

/// One key-value entry as it appears in contracts.
pub type Row = (Seq<u8>, Seq<u8>);

/// The entries of an entry vector, as sequences of bytes.
pub open spec fn rows_view(v: Seq<(Vec<u8>, Vec<u8>)>) -> Seq<Row> {
    v.map_values(|e: (Vec<u8>, Vec<u8>)| (e.0@, e.1@))
}

/// Keys strictly ascend in lexicographic order; in particular they are
/// pairwise distinct.
pub open spec fn sorted_keys(s: Seq<Row>) -> bool {
    forall|i: int, j: int| 0 <= i < j < s.len() ==> lex_lt(#[trigger] s[i].0, #[trigger] s[j].0)
}

/// The value stored under `key`, if any: the first entry carrying that key.
pub open spec fn lookup(s: Seq<Row>, key: Seq<u8>) -> Option<Seq<u8>>
    decreases s.len(),
{
    if s.len() == 0 {
        None
    } else if s[0].0 == key {
        Some(s[0].1)
    } else {
        lookup(s.drop_first(), key)
    }
}

/// A key lies in the half-open scan range `[begin, end)`.
pub open spec fn in_range(key: Seq<u8>, begin: Seq<u8>, end: Seq<u8>) -> bool {
    lex_le(begin, key) && lex_lt(key, end)
}

/// The entries of `s` whose keys lie in `[begin, end)`, in the order of `s`.
pub open spec fn range_entries(s: Seq<Row>, begin: Seq<u8>, end: Seq<u8>) -> Seq<Row> {
    s.filter(|e: Row| in_range(e.0, begin, end))
}

pub proof fn lemma_lookup_found(s: Seq<Row>, key: Seq<u8>, i: int)
    requires
        0 <= i < s.len(),
        s[i].0 == key,
        forall|j: int| 0 <= j < i ==> (#[trigger] s[j]).0 != key,
    ensures
        lookup(s, key) == Some(s[i].1),
    decreases i,
{
    if i > 0 {
        lemma_lookup_found(s.drop_first(), key, i - 1);
    }
}

pub proof fn lemma_lookup_absent(s: Seq<Row>, key: Seq<u8>)
    requires
        forall|j: int| 0 <= j < s.len() ==> (#[trigger] s[j]).0 != key,
    ensures
        lookup(s, key) is None,
    decreases s.len(),
{
    if s.len() > 0 {
        lemma_lookup_absent(s.drop_first(), key);
    }
}

/// Filtering a key-sorted sequence keeps it sorted, and yields only entries
/// of the input sequence.
pub proof fn lemma_filter_sorted(s: Seq<Row>, pred: spec_fn(Row) -> bool)
    requires
        sorted_keys(s),
    ensures
        sorted_keys(s.filter(pred)),
        forall|i: int| 0 <= i < s.filter(pred).len() ==> s.contains(#[trigger] s.filter(pred)[i]),
    decreases s.len(),
{
    reveal_with_fuel(Seq::filter, 2);
    if s.len() == 0 {
    } else {
        let sub = s.drop_last();
        assert(sorted_keys(sub)) by {
            assert forall|i: int, j: int| 0 <= i < j < sub.len() implies lex_lt(
                sub[i].0,
                sub[j].0,
            ) by {
                assert(sub[i] == s[i] && sub[j] == s[j]);
            }
        }
        lemma_filter_sorted(sub, pred);
        let f = s.filter(pred);
        assert forall|i: int| 0 <= i < f.len() implies s.contains(#[trigger] f[i]) by {
            if pred(s.last()) {
                assert(f == sub.filter(pred).push(s.last()));
                if i < f.len() - 1 {
                    assert(f[i] == sub.filter(pred)[i]);
                    let w = choose|w: int| 0 <= w < sub.len() && sub[w] == sub.filter(pred)[i];
                    assert(s[w] == f[i]);
                } else {
                    assert(s[s.len() - 1] == f[i]);
                }
            } else {
                assert(f == sub.filter(pred));
                let w = choose|w: int| 0 <= w < sub.len() && sub[w] == f[i];
                assert(s[w] == f[i]);
            }
        }
        assert forall|i: int, j: int| 0 <= i < j < f.len() implies lex_lt(f[i].0, f[j].0) by {
            if pred(s.last()) && j == f.len() - 1 {
                assert(f[i] == sub.filter(pred)[i]);
                let w = choose|w: int| 0 <= w < sub.len() && sub[w] == f[i];
                assert(lex_lt(s[w].0, s[s.len() - 1].0));
            }
        }
    }
}

/// Iteration order: the entries of a scan range are strictly ascending by
/// key; their reversal, which a descending scan visits, is strictly
/// descending; and both carry the same set of rows.
pub proof fn lemma_iteration_order(s: Seq<Row>, begin: Seq<u8>, end: Seq<u8>)
    requires
        sorted_keys(s),
    ensures
        sorted_keys(range_entries(s, begin, end)),
        forall|i: int, j: int|
            0 <= i < j < range_entries(s, begin, end).len() ==> lex_lt(
                (#[trigger] range_entries(s, begin, end).reverse()[j]).0,
                (#[trigger] range_entries(s, begin, end).reverse()[i]).0,
            ),
        range_entries(s, begin, end).reverse().to_set() == range_entries(s, begin, end).to_set(),
{
    lemma_filter_sorted(s, |e: Row| in_range(e.0, begin, end));
    let f = range_entries(s, begin, end);
    let r = f.reverse();
    assert forall|i: int, j: int| 0 <= i < j < f.len() implies lex_lt(
        (#[trigger] r[j]).0,
        (#[trigger] r[i]).0,
    ) by {
        assert(r[i] == f[f.len() - 1 - i]);
        assert(r[j] == f[f.len() - 1 - j]);
    }
    assert(r.to_set() =~= f.to_set()) by {
        assert forall|x: Row| r.to_set().contains(x) implies f.to_set().contains(x) by {
            let i = choose|i: int| 0 <= i < r.len() && r[i] == x;
            assert(f[f.len() - 1 - i] == x);
        }
        assert forall|x: Row| f.to_set().contains(x) implies r.to_set().contains(x) by {
            let i = choose|i: int| 0 <= i < f.len() && f[i] == x;
            assert(r[f.len() - 1 - i] == x);
        }
    }
}

/// Snapshot consistency: any two reads of one key through the same snapshot
/// observe the same value, because a read's result is a function of the
/// snapshot's fixed view alone.
pub proof fn lemma_snapshot_consistent(
    s: Seq<Row>,
    key: Seq<u8>,
    first_read: Option<Seq<u8>>,
    second_read: Option<Seq<u8>>,
)
    requires
        first_read == lookup(s, key),
        second_read == lookup(s, key),
    ensures
        first_read == second_read,
{
}

/// Tests two byte vectors for equality.
pub fn bytes_eq(a: &Vec<u8>, b: &Vec<u8>) -> (r: bool)
    ensures
        r == (a@ == b@),
{
    if a.len() != b.len() {
        return false;
    }
    let mut i: usize = 0;
    while i < a.len()
        invariant
            i <= a@.len(),
            a@.len() == b@.len(),
            forall|j: int| 0 <= j < i ==> a@[j] == b@[j],
        decreases a@.len() - i,
    {
        if a[i] != b[i] {
            return false;
        }
        i += 1;
    }
    proof {
        assert(a@ =~= b@);
    }
    true
}

/// Copies a byte vector.
pub fn copy_bytes(v: &Vec<u8>) -> (r: Vec<u8>)
    ensures
        r@ == v@,
{
    let mut r: Vec<u8> = Vec::new();
    let mut i: usize = 0;
    while i < v.len()
        invariant
            i <= v@.len(),
            r@ == v@.take(i as int),
        decreases v@.len() - i,
    {
        r.push(v[i]);
        i += 1;
        proof {
            assert(v@.take(i as int) =~= v@.take(i - 1).push(v@[i - 1]));
        }
    }
    proof {
        assert(v@.take(v@.len() as int) =~= v@);
    }
    r
}

/// A read-only handle onto one fixed state of the key space.
pub struct Snapshot {
    entries: Vec<(Vec<u8>, Vec<u8>)>,
}

/// The mutable current state of the key space.
///
/// It doubles as the backend stand-in for tests: writes go here, and
/// [`Store::snapshot`] hands out the fixed view that all read operations work
/// on.
pub struct Store {
    entries: Vec<(Vec<u8>, Vec<u8>)>,
}

impl View for Snapshot {
    type V = Seq<Row>;

    closed spec fn view(&self) -> Seq<Row> {
        rows_view(self.entries@)
    }
}

impl View for Store {
    type V = Seq<Row>;

    closed spec fn view(&self) -> Seq<Row> {
        rows_view(self.entries@)
    }
}

impl Snapshot {
    /// The snapshot's entries are sorted strictly ascending by key.
    pub open spec fn wf(&self) -> bool {
        sorted_keys(self@)
    }

    /// Reads the value stored under `key`; absence is a result, not an error.
    pub fn get(&self, key: &Vec<u8>) -> (r: Option<Vec<u8>>)
        ensures
            match r {
                Some(v) => lookup(self@, key@) == Some(v@),
                None => lookup(self@, key@) is None,
            },
    {
        let n = self.entries.len();
        let mut i: usize = 0;
        while i < n
            invariant
                i <= n,
                n == self@.len(),
                self@ == rows_view(self.entries@),
                forall|j: int| 0 <= j < i ==> (#[trigger] self@[j]).0 != key@,
            decreases n - i,
        {
            if bytes_eq(&self.entries[i].0, key) {
                proof {
                    assert(self@[i as int].0 =~= key@);
                    lemma_lookup_found(self@, key@, i as int);
                }
                return Some(copy_bytes(&self.entries[i].1));
            }
            proof {
                assert(self@[i as int].0 == self.entries@[i as int].0@);
                if self@[i as int].0 == key@ {
                    assert(self.entries@[i as int].0@ =~= key@);
                }
            }
            i += 1;
        }
        proof {
            lemma_lookup_absent(self@, key@);
        }
        None
    }

    /// Scans the entries whose keys lie in `[begin, end)`, in ascending or
    /// descending key order, returning at most `limit` of them (counted from
    /// the scan's starting end).
    pub fn scan(&self, begin: &Vec<u8>, end: &Vec<u8>, ascending: bool, limit: usize) -> (r: Vec<
        (Vec<u8>, Vec<u8>),
    >)
        requires
            self.wf(),
        ensures
            ({
                let dir = if ascending {
                    range_entries(self@, begin@, end@)
                } else {
                    range_entries(self@, begin@, end@).reverse()
                };
                rows_view(r@) == if limit as int <= dir.len() {
                    dir.take(limit as int)
                } else {
                    dir
                }
            }),
    {
        let ghost pred = |e: Row| in_range(e.0, begin@, end@);
        let n = self.entries.len();
        let mut asc: Vec<(Vec<u8>, Vec<u8>)> = Vec::new();
        let mut i: usize = 0;
        while i < n
            invariant
                i <= n,
                n == self@.len(),
                self@ == rows_view(self.entries@),
                rows_view(asc@) == self@.take(i as int).filter(pred),
                pred == (|e: Row| in_range(e.0, begin@, end@)),
            decreases n - i,
        {
            let ghost prev = rows_view(asc@);
            let e = &self.entries[i];
            proof {
                reveal_with_fuel(Seq::filter, 2);
                assert(self@.take(i + 1).drop_last() =~= self@.take(i as int));
                assert(self@.take(i + 1).last() == self@[i as int]);
            }
            if bytes_le(begin, &e.0) && bytes_lt(&e.0, end) {
                let row = (copy_bytes(&e.0), copy_bytes(&e.1));
                asc.push(row);
                proof {
                    reveal_with_fuel(Seq::filter, 2);
                    assert(rows_view(asc@) =~= prev.push((e.0@, e.1@)));
                    assert((e.0@, e.1@) == self@[i as int]);
                    assert(pred(self@.take(i + 1).last()));
                    assert(self@.take(i + 1).filter(pred) == self@.take(i + 1).drop_last().filter(
                        pred,
                    ).push(self@.take(i + 1).last()));
                }
            } else {
                proof {
                    reveal_with_fuel(Seq::filter, 2);
                    assert(!pred(self@.take(i + 1).last()));
                    assert(self@.take(i + 1).filter(pred) == self@.take(i + 1).drop_last().filter(
                        pred,
                    ));
                }
            }
            i += 1;
        }
        proof {
            assert(self@.take(n as int) =~= self@);
        }
        let mut dir: Vec<(Vec<u8>, Vec<u8>)> = Vec::new();
        if ascending {
            dir = asc;
        } else {
            let ghost full = rows_view(asc@);
            while asc.len() > 0
                invariant
                    rows_view(asc@) + rows_view(dir@).reverse() =~= full,
                decreases asc@.len(),
            {
                let ghost asc_prev = rows_view(asc@);
                let ghost dir_prev = rows_view(dir@);
                let e = asc.pop().unwrap();
                dir.push(e);
                proof {
                    assert(rows_view(asc@) =~= asc_prev.drop_last());
                    assert(rows_view(dir@) =~= dir_prev.push(asc_prev.last()));
                    assert(rows_view(dir@).reverse() =~= seq![asc_prev.last()]
                        + dir_prev.reverse());
                    assert(rows_view(asc@) + rows_view(dir@).reverse() =~= asc_prev
                        + dir_prev.reverse());
                }
            }
            proof {
                assert(rows_view(dir@).reverse() =~= full);
                assert(rows_view(dir@) =~= full.reverse());
            }
        }
        if dir.len() > limit {
            dir.truncate(limit);
        }
        dir
    }

    /// Scans the keys in `[begin, end)` ascending, values dropped, at most
    /// `limit` of them. This is the key-only scan the bitmap reader uses.
    pub fn scan_keys(&self, begin: &Vec<u8>, end: &Vec<u8>, limit: usize) -> (r: Vec<Vec<u8>>)
        requires
            self.wf(),
        ensures
            ({
                let ks = range_entries(self@, begin@, end@).map_values(|e: Row| e.0);
                r@.map_values(|k: Vec<u8>| k@) == if limit as int <= ks.len() {
                    ks.take(limit as int)
                } else {
                    ks
                }
            }),
    {
        let rows = self.scan(begin, end, true, limit);
        let mut r: Vec<Vec<u8>> = Vec::new();
        let mut i: usize = 0;
        while i < rows.len()
            invariant
                i <= rows@.len(),
                r@.map_values(|k: Vec<u8>| k@) == rows_view(rows@).map_values(|e: Row| e.0).take(
                    i as int,
                ),
            decreases rows@.len() - i,
        {
            r.push(copy_bytes(&rows[i].0));
            i += 1;
            proof {
                let full = rows_view(rows@).map_values(|e: Row| e.0);
                assert(full.take(i as int) =~= full.take(i - 1).push(full[i - 1]));
                assert(r@.map_values(|k: Vec<u8>| k@) =~= full.take(i as int));
            }
        }
        proof {
            let full = rows_view(rows@).map_values(|e: Row| e.0);
            assert(full.take(full.len() as int) =~= full);
            let ks = range_entries(self@, begin@, end@).map_values(|e: Row| e.0);
            if limit as int <= range_entries(self@, begin@, end@).len() {
                assert(rows_view(rows@) == range_entries(self@, begin@, end@).take(limit as int));
                assert(full =~= ks.take(limit as int));
            } else {
                assert(full =~= ks);
            }
        }
        r
    }
}

impl Store {
    /// An empty key space.
    pub fn new() -> (r: Store)
        ensures
            r@ == Seq::<Row>::empty(),
            r.wf(),
    {
        let r = Store { entries: Vec::new() };
        proof {
            assert(r@ =~= Seq::<Row>::empty());
        }
        r
    }

    /// The store's entries are sorted strictly ascending by key.
    pub open spec fn wf(&self) -> bool {
        sorted_keys(self@)
    }

    /// Acquires a point-in-time snapshot of the current state. Later writes
    /// to the store leave the snapshot untouched.
    pub fn snapshot(&self) -> (r: Snapshot)
        ensures
            r@ == self@,
            self.wf() ==> r.wf(),
    {
        let n = self.entries.len();
        let mut entries: Vec<(Vec<u8>, Vec<u8>)> = Vec::new();
        let mut i: usize = 0;
        while i < n
            invariant
                i <= n,
                n == self.entries@.len(),
                rows_view(entries@) == rows_view(self.entries@).take(i as int),
            decreases n - i,
        {
            let e = &self.entries[i];
            entries.push((copy_bytes(&e.0), copy_bytes(&e.1)));
            i += 1;
            proof {
                let full = rows_view(self.entries@);
                assert(full.take(i as int) =~= full.take(i - 1).push(full[i - 1]));
                assert(rows_view(entries@) =~= full.take(i as int));
            }
        }
        let r = Snapshot { entries };
        proof {
            assert(rows_view(self.entries@).take(n as int) =~= rows_view(self.entries@));
        }
        r
    }

    /// Writes `value` under `key`, replacing any previous value. The write
    /// path proper is outside this adapter; this is the backend double that
    /// round-trip reasoning and tests write through.
    pub fn insert(&mut self, key: Vec<u8>, value: Vec<u8>)
        requires
            old(self).wf(),
        ensures
            final(self).wf(),
            lookup(final(self)@, key@) == Some(value@),
            forall|k: Seq<u8>| k != key@ ==> lookup(final(self)@, k) == lookup(old(self)@, k),
            final(self)@.len() <= old(self)@.len() + 1,
    {
        let n = self.entries.len();
        let mut p: usize = 0;
        while p < n && bytes_lt(&self.entries[p].0, &key)
            invariant
                p <= n,
                n == self@.len(),
                self@ == rows_view(self.entries@),
                forall|j: int| 0 <= j < p ==> lex_lt((#[trigger] self@[j]).0, key@),
            decreases n - p,
        {
            p += 1;
        }
        let ghost prior = self@;
        proof {
            lemma_lex_irrefl(key@);
        }
        if p < n && bytes_eq(&self.entries[p].0, &key) {
            proof {
                assert(self@[p as int].0 =~= key@);
            }
            self.entries.remove(p);
            self.entries.insert(p, (key, value));
            proof {
                assert(rows_view(self.entries@) =~= prior.update(p as int, (key@, value@)));
                let cur = self@;
                assert forall|i: int, j: int| 0 <= i < j < cur.len() implies lex_lt(
                    cur[i].0,
                    cur[j].0,
                ) by {
                    assert(prior[i].0 == cur[i].0 || i == p);
                    assert(prior[j].0 == cur[j].0 || j == p);
                    assert(lex_lt(prior[i].0, prior[j].0));
                }
                Self::lemma_insert_lookup(prior, cur, key@, value@, p as int);
            }
        } else {
            proof {
                if p < n {
                    lemma_lex_total(self@[p as int].0, key@);
                    assert(self@[p as int].0 != key@);
                    assert(lex_lt(key@, self@[p as int].0));
                }
            }
            self.entries.insert(p, (key, value));
            proof {
                let cur = self@;
                assert(cur =~= prior.take(p as int) + seq![(key@, value@)] + prior.skip(p as int));
                assert forall|i: int, j: int| 0 <= i < j < cur.len() implies lex_lt(
                    cur[i].0,
                    cur[j].0,
                ) by {
                    let pi = p as int;
                    if i < pi && j == pi {
                        assert(cur[i] == prior[i]);
                    } else if i == pi && j > pi {
                        assert(cur[j] == prior[j - 1]);
                        assert(lex_lt(key@, prior[pi].0));
                        if j - 1 > pi {
                            assert(lex_lt(prior[pi].0, prior[j - 1].0));
                            lemma_lex_trans(key@, prior[pi].0, prior[j - 1].0);
                        }
                    } else if i < pi && j > pi {
                        assert(cur[i] == prior[i]);
                        assert(cur[j] == prior[j - 1]);
                        assert(lex_lt(prior[i].0, prior[j - 1].0));
                    } else if j < pi {
                        assert(cur[i] == prior[i]);
                        assert(cur[j] == prior[j]);
                    } else if i > pi {
                        assert(cur[i] == prior[i - 1]);
                        assert(cur[j] == prior[j - 1]);
                    }
                }
                Self::lemma_insert_lookup(prior, cur, key@, value@, p as int);
            }
        }
    }

    /// After placing `(key, value)` at position `p` of a sorted sequence
    /// (replacing or inserting), `lookup` reads the new value under `key` and
    /// is unchanged under every other key.
    proof fn lemma_insert_lookup(prior: Seq<Row>, cur: Seq<Row>, key: Seq<u8>, value: Seq<u8>, p: int)
        requires
            sorted_keys(prior),
            sorted_keys(cur),
            0 <= p < cur.len(),
            cur[p] == (key, value),
            forall|j: int| 0 <= j < p ==> #[trigger] cur[j] == prior[j],
            forall|j: int|
                p < j < cur.len() ==> #[trigger] cur[j] == prior[j + prior.len() - cur.len()],
            cur.len() == prior.len() || cur.len() == prior.len() + 1,
            cur.len() == prior.len() ==> prior[p].0 == key,
            cur.len() == prior.len() + 1 ==> (forall|j: int|
                0 <= j < prior.len() ==> (#[trigger] prior[j]).0 != key),
        ensures
            lookup(cur, key) == Some(value),
            forall|k: Seq<u8>| k != key ==> lookup(cur, k) == lookup(prior, k),
    {
        assert forall|j: int| 0 <= j < p implies (#[trigger] cur[j]).0 != key by {
            lemma_lex_irrefl(key);
            assert(lex_lt(cur[j].0, cur[p].0));
            if cur[j].0 == key {
                assert(lex_lt(key, key));
            }
        }
        lemma_lookup_found(cur, key, p);
        assert forall|k: Seq<u8>| k != key implies lookup(cur, k) == lookup(prior, k) by {
            lemma_lex_irrefl(k);
            if exists|i: int| 0 <= i < prior.len() && (#[trigger] prior[i]).0 == k {
                let i = choose|i: int| 0 <= i < prior.len() && (#[trigger] prior[i]).0 == k;
                assert forall|j: int| 0 <= j < i implies (#[trigger] prior[j]).0 != k by {
                    if prior[j].0 == k {
                        assert(lex_lt(prior[j].0, prior[i].0));
                    }
                }
                lemma_lookup_found(prior, k, i);
                let i2 = if i < p || cur.len() == prior.len() && i == p {
                    i
                } else if cur.len() == prior.len() {
                    i
                } else {
                    i + 1
                };
                assert(cur.len() == prior.len() ==> i != p);
                assert(cur[i2] == prior[i]);
                assert forall|j: int| 0 <= j < i2 implies (#[trigger] cur[j]).0 != k by {
                    if cur[j].0 == k {
                        assert(lex_lt(cur[j].0, cur[i2].0));
                    }
                }
                lemma_lookup_found(cur, k, i2);
            } else {
                lemma_lookup_absent(prior, k);
                assert forall|j: int| 0 <= j < cur.len() implies (#[trigger] cur[j]).0 != k by {
                    if j != p {
                        let jp = if j < p {
                            j
                        } else {
                            j + prior.len() - cur.len()
                        };
                        assert(cur[j] == prior[jp]);
                    }
                }
                lemma_lookup_absent(cur, k);
            }
        }
    }
}

} // verus!
