//! Ordered range iteration with early termination.
//!
//! An iteration scans a bounded key range ascending or descending and hands
//! each entry — its key stripped of the leading subspace byte — to a
//! caller-supplied row handler. The handler's continuation signal stops the
//! iteration early; a `first` iteration visits at most the extremal entry of
//! the requested direction.
use vstd::prelude::*;

verus! {

use crate::ReadError;
use crate::store::{Snapshot, Row, rows_view, range_entries, copy_bytes};

/// The bounds and mode of one range iteration. `begin` and `end` are
/// serialized keys carrying their subspace byte; the scanned range is
/// `[begin, end)`.
pub struct IterateParams {
    pub begin: Vec<u8>,
    pub end: Vec<u8>,
    pub ascending: bool,
    pub first: bool,
}

/// A caller-supplied callback invoked once per visited row.
///
/// `rows()` is the log of rows the handler has been invoked on, oldest
/// first. `policy()` is its continuation rule: applied to the log, it says
/// whether the handler asks for more rows; `on_row`'s continuation signal
/// must agree with it, which is what lets iteration contracts predict how far
/// a scan runs. `may_fail()` says whether the handler can report an error at
/// all — a handler that cannot is owed a successful iteration — and
/// `error()` is the error it reports when it does, so a failure is
/// propagated verbatim.
pub trait RowHandler: Sized {
    spec fn rows(&self) -> Seq<Row>;

    spec fn policy(&self) -> spec_fn(Seq<Row>) -> bool;

    spec fn may_fail(&self) -> bool;

    spec fn error(&self) -> ReadError;

    fn on_row(&mut self, key: &Vec<u8>, value: &Vec<u8>) -> (r: Result<bool, ReadError>)
        ensures
            final(self).policy() == old(self).policy(),
            final(self).may_fail() == old(self).may_fail(),
            final(self).error() == old(self).error(),
            r is Ok ==> final(self).rows() == old(self).rows().push((key@, value@)),
            r matches Ok(b) ==> b == (final(self).policy())(final(self).rows()),
            r is Err ==> final(self).rows() == old(self).rows(),
            r matches Err(e) ==> old(self).may_fail() && e == old(self).error(),
    ;
}

/// A key with its leading subspace byte removed; an empty key stays empty.
pub open spec fn strip_subspace(k: Seq<u8>) -> Seq<u8> {
    if k.len() >= 1 {
        k.drop_first()
    } else {
        k
    }
}

/// Rows as the handler sees them: keys stripped of their subspace byte.
pub open spec fn stripped_rows(s: Seq<Row>) -> Seq<Row> {
    s.map_values(|e: Row| (strip_subspace(e.0), e.1))
}

/// The rows an iteration offers to the handler, in visit order: the range's
/// entries in the requested direction, cut to one entry in `first` mode and
/// to `limit` entries otherwise, keys stripped.
pub open spec fn visible_entries(
    s: Seq<Row>,
    begin: Seq<u8>,
    end: Seq<u8>,
    ascending: bool,
    first: bool,
    limit: nat,
) -> Seq<Row> {
    let f = range_entries(s, begin, end);
    let d = if ascending {
        f
    } else {
        f.reverse()
    };
    let cap = if first {
        1nat
    } else {
        limit
    };
    let cut = if cap <= d.len() {
        d.take(cap as int)
    } else {
        d
    };
    stripped_rows(cut)
}

/// The rows a handler with continuation rule `policy` and prior log `prior`
/// is invoked on when offered `entries` in order: a handler is always offered
/// the next row while it asks for more, and the row on which it declines is
/// the last one it sees.
pub open spec fn visited_rows(
    policy: spec_fn(Seq<Row>) -> bool,
    prior: Seq<Row>,
    entries: Seq<Row>,
) -> Seq<Row>
    decreases entries.len(),
{
    if entries.len() == 0 {
        Seq::empty()
    } else {
        let e = entries[0];
        if policy(prior.push(e)) {
            seq![e] + visited_rows(policy, prior.push(e), entries.drop_first())
        } else {
            seq![e]
        }
    }
}

/// Copies `k` without its leading subspace byte; an empty key is passed
/// through as an empty key.
pub fn strip_key(k: &Vec<u8>) -> (r: Vec<u8>)
    ensures
        r@ == strip_subspace(k@),
{
    let mut r: Vec<u8> = Vec::new();
    let mut i: usize = if k.len() >= 1 {
        1
    } else {
        0
    };
    let ghost from = i as int;
    while i < k.len()
        invariant
            0 <= from <= i as int <= k@.len(),
            from == if k@.len() >= 1 {
                1int
            } else {
                0int
            },
            r@ == k@.subrange(from, i as int),
        decreases k@.len() - i,
    {
        r.push(k[i]);
        i += 1;
        proof {
            assert(k@.subrange(from, i as int) =~= k@.subrange(from, i - 1).push(k@[i - 1]));
        }
    }
    proof {
        assert(r@ =~= strip_subspace(k@));
    }
    r
}

/// Scans `[params.begin, params.end)` in the requested direction and invokes
/// `handler` once per entry, at most once in `first` mode and on at most
/// `max_kv_pairs` entries otherwise, stopping early when the handler
/// declines or fails. The handler's log afterwards extends its prior log by
/// exactly the visited rows. An error can only be the handler's own,
/// propagated verbatim the moment it occurs, and leaves the log a strict
/// prefix of the offered rows; a handler that cannot fail — and in
/// particular any handler over an empty range — is owed success.
pub fn iterate<H: RowHandler>(
    snapshot: &Snapshot,
    params: &IterateParams,
    max_kv_pairs: usize,
    handler: &mut H,
) -> (r: Result<(), ReadError>)
    requires
        snapshot.wf(),
    ensures
        final(handler).policy() == old(handler).policy(),
        final(handler).may_fail() == old(handler).may_fail(),
        !old(handler).may_fail() ==> r is Ok,
        ({
            let ents = visible_entries(
                snapshot@,
                params.begin@,
                params.end@,
                params.ascending,
                params.first,
                max_kv_pairs as nat,
            );
            match r {
                Ok(()) => final(handler).rows() == old(handler).rows() + visited_rows(
                    old(handler).policy(),
                    old(handler).rows(),
                    ents,
                ),
                Err(e) => old(handler).may_fail() && e == old(handler).error() && exists|n: int|
                    0 <= n < ents.len() && final(handler).rows() == old(handler).rows()
                        + #[trigger] ents.take(n),
            }
        }),
{
    let limit: usize = if params.first {
        1
    } else {
        max_kv_pairs
    };
    let rows = snapshot.scan(&params.begin, &params.end, params.ascending, limit);
    let ghost ents = visible_entries(
        snapshot@,
        params.begin@,
        params.end@,
        params.ascending,
        params.first,
        max_kv_pairs as nat,
    );
    proof {
        assert(ents =~= stripped_rows(rows_view(rows@)));
    }
    let ghost policy = old(handler).policy();
    let ghost prior = old(handler).rows();
    let n = rows.len();
    let mut i: usize = 0;
    proof {
        assert(ents.take(0) =~= Seq::<Row>::empty());
        assert(prior + ents.take(0) =~= prior);
        assert(ents.skip(0) =~= ents);
    }
    while i < n
        invariant
            n == rows@.len(),
            i <= n,
            ents == stripped_rows(rows_view(rows@)),
            ents == visible_entries(
                snapshot@,
                params.begin@,
                params.end@,
                params.ascending,
                params.first,
                max_kv_pairs as nat,
            ),
            policy == old(handler).policy(),
            prior == old(handler).rows(),
            handler.policy() == policy,
            handler.may_fail() == old(handler).may_fail(),
            handler.error() == old(handler).error(),
            handler.rows() == prior + ents.take(i as int),
            visited_rows(policy, prior, ents) == ents.take(i as int) + visited_rows(
                policy,
                handler.rows(),
                ents.skip(i as int),
            ),
        decreases n - i,
    {
        let key = strip_key(&rows[i].0);
        let value = copy_bytes(&rows[i].1);
        let ghost log_before = handler.rows();
        proof {
            assert(ents[i as int] == (key@, value@));
            assert(ents.skip(i as int)[0] == ents[i as int]);
            assert(ents.skip(i as int).drop_first() =~= ents.skip(i + 1));
            assert(ents.take(i + 1) =~= ents.take(i as int).push(ents[i as int]));
        }
        match handler.on_row(&key, &value) {
            Ok(true) => {
                proof {
                    assert(handler.rows() == log_before.push(ents[i as int]));
                    assert(handler.rows() =~= prior + ents.take(i + 1));
                    assert(visited_rows(policy, log_before, ents.skip(i as int)) == seq![
                        ents[i as int],
                    ] + visited_rows(policy, handler.rows(), ents.skip(i + 1)));
                    assert(ents.take(i as int) + (seq![ents[i as int]] + visited_rows(
                        policy,
                        handler.rows(),
                        ents.skip(i + 1),
                    )) =~= ents.take(i + 1) + visited_rows(policy, handler.rows(), ents.skip(i + 1)));
                }
            },
            Ok(false) => {
                proof {
                    assert(handler.rows() == log_before.push(ents[i as int]));
                    assert(visited_rows(policy, log_before, ents.skip(i as int)) == seq![
                        ents[i as int],
                    ]);
                    assert(visited_rows(policy, prior, ents) =~= ents.take(i as int) + seq![
                        ents[i as int],
                    ]);
                    assert(handler.rows() =~= prior + visited_rows(policy, prior, ents));
                }
                return Ok(());
            },
            Err(e) => {
                proof {
                    assert(ents.len() == rows_view(rows@).len());
                    assert((i as int) < ents.len());
                    assert(handler.rows() == prior + ents.take(i as int));
                }
                return Err(e);
            },
        }
        i += 1;
    }
    proof {
        assert(ents.take(n as int) =~= ents);
        assert(ents.skip(n as int) =~= Seq::<Row>::empty());
        assert(visited_rows(policy, handler.rows(), ents.skip(n as int)) =~= Seq::<Row>::empty());
        assert(handler.rows() =~= prior + visited_rows(policy, prior, ents));
    }
    Ok(())
}

/// A handler that records every visited row and never stops early.
pub struct CollectRows {
    pub rows: Vec<(Vec<u8>, Vec<u8>)>,
}

impl CollectRows {
    pub fn new() -> (r: CollectRows)
        ensures
            r.rows@.len() == 0,
    {
        CollectRows { rows: Vec::new() }
    }
}

impl RowHandler for CollectRows {
    open spec fn rows(&self) -> Seq<Row> {
        rows_view(self.rows@)
    }

    open spec fn policy(&self) -> spec_fn(Seq<Row>) -> bool {
        |log: Seq<Row>| true
    }

    open spec fn may_fail(&self) -> bool {
        false
    }

    open spec fn error(&self) -> ReadError {
        ReadError::Callback
    }

    fn on_row(&mut self, key: &Vec<u8>, value: &Vec<u8>) -> (r: Result<bool, ReadError>) {
        let ghost before = rows_view(self.rows@);
        self.rows.push((copy_bytes(key), copy_bytes(value)));
        proof {
            assert(rows_view(self.rows@) =~= before.push((key@, value@)));
        }
        Ok(true)
    }
}

/// A handler that records rows and asks to stop once it has seen `limit` of
/// them.
pub struct StopAfter {
    pub limit: usize,
    pub rows: Vec<(Vec<u8>, Vec<u8>)>,
}

impl StopAfter {
    pub fn new(limit: usize) -> (r: StopAfter)
        ensures
            r.limit == limit,
            r.rows@.len() == 0,
    {
        StopAfter { limit, rows: Vec::new() }
    }
}

impl RowHandler for StopAfter {
    open spec fn rows(&self) -> Seq<Row> {
        rows_view(self.rows@)
    }

    open spec fn policy(&self) -> spec_fn(Seq<Row>) -> bool {
        let lim = self.limit as int;
        |log: Seq<Row>| log.len() < lim
    }

    open spec fn may_fail(&self) -> bool {
        false
    }

    open spec fn error(&self) -> ReadError {
        ReadError::Callback
    }

    fn on_row(&mut self, key: &Vec<u8>, value: &Vec<u8>) -> (r: Result<bool, ReadError>) {
        let ghost before = rows_view(self.rows@);
        self.rows.push((copy_bytes(key), copy_bytes(value)));
        proof {
            assert(rows_view(self.rows@) =~= before.push((key@, value@)));
        }
        Ok(self.rows.len() < self.limit)
    }
}

/// A handler that records `limit` rows and then reports a callback error,
/// aborting the iteration.
pub struct FailAfter {
    pub limit: usize,
    pub rows: Vec<(Vec<u8>, Vec<u8>)>,
}

impl FailAfter {
    pub fn new(limit: usize) -> (r: FailAfter)
        ensures
            r.limit == limit,
            r.rows@.len() == 0,
    {
        FailAfter { limit, rows: Vec::new() }
    }
}

impl RowHandler for FailAfter {
    open spec fn rows(&self) -> Seq<Row> {
        rows_view(self.rows@)
    }

    open spec fn policy(&self) -> spec_fn(Seq<Row>) -> bool {
        |log: Seq<Row>| true
    }

    open spec fn may_fail(&self) -> bool {
        true
    }

    open spec fn error(&self) -> ReadError {
        ReadError::Callback
    }

    fn on_row(&mut self, key: &Vec<u8>, value: &Vec<u8>) -> (r: Result<bool, ReadError>) {
        if self.rows.len() >= self.limit {
            return Err(ReadError::Callback);
        }
        let ghost before = rows_view(self.rows@);
        self.rows.push((copy_bytes(key), copy_bytes(value)));
        proof {
            assert(rows_view(self.rows@) =~= before.push((key@, value@)));
        }
        Ok(true)
    }
}

/// Full coverage: a handler that always asks for more is offered every
/// entry, in order. With the range's order law this settles that an
/// unrestricted ascending and descending iteration visit the same rows, each
/// direction in its own order.
pub proof fn lemma_visit_all(policy: spec_fn(Seq<Row>) -> bool, prior: Seq<Row>, entries: Seq<Row>)
    requires
        forall|log: Seq<Row>| #[trigger] policy(log),
    ensures
        visited_rows(policy, prior, entries) == entries,
    decreases entries.len(),
{
    if entries.len() == 0 {
        assert(visited_rows(policy, prior, entries) =~= entries);
    } else {
        let e = entries[0];
        lemma_visit_all(policy, prior.push(e), entries.drop_first());
        assert(seq![e] + entries.drop_first() =~= entries);
    }
}

/// First-only iteration invokes the handler at most once, whatever the range
/// holds and whatever the handler answers.
pub proof fn lemma_first_only(
    policy: spec_fn(Seq<Row>) -> bool,
    prior: Seq<Row>,
    s: Seq<Row>,
    begin: Seq<u8>,
    end: Seq<u8>,
    ascending: bool,
    limit: nat,
)
    ensures
        visited_rows(policy, prior, visible_entries(s, begin, end, ascending, true, limit)).len()
            <= 1,
{
    let ents = visible_entries(s, begin, end, ascending, true, limit);
    assert(ents.len() <= 1);
    if ents.len() == 1 {
        let e = ents[0];
        assert(ents.drop_first().len() == 0);
        assert(visited_rows(policy, prior.push(e), ents.drop_first()) =~= Seq::<Row>::empty());
    }
}

/// Early stop: a handler that declines once its log reaches `limit` rows is
/// invoked on exactly `limit` rows (or on the whole range when it is
/// shorter), however large the range.
pub proof fn lemma_early_stop(limit: int, prior: Seq<Row>, entries: Seq<Row>)
    requires
        prior.len() < limit,
    ensures
        ({
            let policy = |log: Seq<Row>| log.len() < limit;
            visited_rows(policy, prior, entries).len() == if limit - prior.len()
                <= entries.len() {
                limit - prior.len()
            } else {
                entries.len() as int
            }
        }),
    decreases entries.len(),
{
    let policy = |log: Seq<Row>| log.len() < limit;
    if entries.len() == 0 {
    } else {
        let e = entries[0];
        if policy(prior.push(e)) {
            lemma_early_stop(limit, prior.push(e), entries.drop_first());
        }
    }
}

} // verus!
