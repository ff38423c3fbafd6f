//! The version resolver.
//!
//! An entity's history is a chain of update records pointing back at the
//! record each one supersedes.  Concurrent writers may append several
//! updates against the same record, so the forward direction branches; the
//! resolver walks it with a deterministic tie-break — the successor with the
//! *earliest* declared timestamp wins, and on equal timestamps the one
//! encountered first in input order wins.  That rule, not wall-clock
//! observation order, defines the canonical latest version.

use vstd::prelude::*;
use crate::errors::UtilsError;
use crate::store::{RecordKind, Store};

verus! {

/// The winning candidate among `(timestamp, address)` pairs: the earliest
/// timestamp, the first-encountered pair on ties.
pub open spec fn winner(s: Seq<(u64, usize)>) -> (u64, usize)
    recommends
        s.len() > 0,
    decreases s.len(),
{
    if s.len() <= 1 {
        s[0]
    } else {
        let w = winner(s.drop_last());
        if s.last().0 < w.0 {
            s.last()
        } else {
            w
        }
    }
}

/// What `find_earliest` returns: the address of the winning candidate, or
/// nothing when there are no candidates.
pub open spec fn find_earliest_spec(s: Seq<(u64, usize)>) -> Option<usize> {
    if s.len() == 0 {
        None
    } else {
        Some(winner(s).1)
    }
}

/// The winner is one of the candidates, carries the minimal timestamp, and
/// is the first candidate to carry it.
pub proof fn lemma_winner_is_first_min(s: Seq<(u64, usize)>)
    requires
        s.len() > 0,
    ensures
        exists|j: int|
            0 <= j < s.len() && s[j] == winner(s) && forall|k: int|
                0 <= k < j ==> s[k].0 > winner(s).0,
        forall|k: int| 0 <= k < s.len() ==> winner(s).0 <= #[trigger] s[k].0,
    decreases s.len(),
{
    if s.len() == 1 {
        assert(s[0] == winner(s));
        assert(forall|k: int| 0 <= k < 0 ==> s[k].0 > winner(s).0);
    } else {
        let d = s.drop_last();
        lemma_winner_is_first_min(d);
        let last = s.len() - 1;
        if s.last().0 < winner(d).0 {
            assert(winner(s) == s[last]);
            assert forall|k: int| 0 <= k < last implies s[k].0 > winner(s).0 by {
                assert(d[k] == s[k]);
            }
            assert(s[last] == winner(s) && forall|k: int| 0 <= k < last ==> s[k].0 > winner(s).0);
        } else {
            assert(winner(s) == winner(d));
            let j = choose|j: int|
                0 <= j < d.len() && d[j] == winner(d) && forall|k: int|
                    0 <= k < j ==> d[k].0 > winner(d).0;
            assert(s[j] == d[j]);
            assert forall|k: int| 0 <= k < j implies s[k].0 > winner(s).0 by {
                assert(d[k] == s[k]);
            }
            assert(s[j] == winner(s) && forall|k: int| 0 <= k < j ==> s[k].0 > winner(s).0);
        }
        assert forall|k: int| 0 <= k < s.len() implies winner(s).0 <= #[trigger] s[k].0 by {
            if k < last {
                assert(d[k] == s[k]);
            }
        }
    }
}

/// Deterministic resolution of true concurrency: if one candidate's
/// timestamp is strictly earlier than every other, it wins, whatever its
/// position in the input.
pub proof fn lemma_find_earliest_strict_min(s: Seq<(u64, usize)>, i: int)
    requires
        0 <= i < s.len(),
        forall|k: int| 0 <= k < s.len() && k != i ==> s[i].0 < #[trigger] s[k].0,
    ensures
        find_earliest_spec(s) == Some(s[i].1),
{
    lemma_winner_is_first_min(s);
    let j = choose|j: int|
        0 <= j < s.len() && s[j] == winner(s) && forall|k: int|
            0 <= k < j ==> s[k].0 > winner(s).0;
    if j != i {
        assert(s[i].0 < s[j].0);
        assert(winner(s).0 <= s[i].0);
    }
    assert(winner(s) == s[i]);
}

/// Deterministic resolution of exact ties: when every candidate carries the
/// same timestamp, the first one in input order wins.
pub proof fn lemma_find_earliest_all_tied(s: Seq<(u64, usize)>)
    requires
        s.len() > 0,
        forall|k: int| 0 <= k < s.len() ==> #[trigger] s[k].0 == s[0].0,
    ensures
        find_earliest_spec(s) == Some(s[0].1),
{
    lemma_winner_is_first_min(s);
    let j = choose|j: int|
        0 <= j < s.len() && s[j] == winner(s) && forall|k: int|
            0 <= k < j ==> s[k].0 > winner(s).0;
    if j != 0 {
        assert(s[0].0 > winner(s).0);
        assert(winner(s).0 <= s[0].0);
        assert(s[j].0 == s[0].0);
    }
    assert(winner(s) == s[0]);
}

/// Apply the tie-break rule to a list of `(timestamp, address)` candidates:
/// the earliest timestamp wins; on exact equality the first-encountered
/// candidate in input order wins.  This input-order rule is deliberate, not
/// incidental — it decides the outcome on true concurrent writes.
pub fn find_earliest(candidates: &Vec<(u64, usize)>) -> (r: Option<usize>)
    ensures
        r == find_earliest_spec(candidates@),
{
    if candidates.len() == 0 {
        return None;
    }
    let (mut best_t, mut best_a): (u64, usize) = candidates[0];
    let mut i: usize = 1;
    while i < candidates.len()
        invariant
            1 <= i <= candidates@.len(),
            candidates@.len() > 0,
            (best_t, best_a) == winner(candidates@.take(i as int)),
        decreases candidates@.len() - i,
    {
        let (t, a) = candidates[i];
        proof {
            assert(candidates@.take(i as int + 1).drop_last() =~= candidates@.take(i as int));
            assert(candidates@.take(i as int + 1).last() == candidates@[i as int]);
        }
        if t < best_t {
            best_t = t;
            best_a = a;
        }
        i += 1;
    }
    proof {
        assert(candidates@.take(candidates@.len() as int) =~= candidates@);
    }
    Some(best_a)
}

impl Store {
    /// The direct successors of record `a` among the first `n` records: the
    /// `(timestamp, address)` of every update record whose `original` is
    /// `a`, in address order.
    pub open spec fn successors_up_to(self, a: int, n: int) -> Seq<(u64, usize)>
        decreases n,
    {
        if n <= 0 {
            Seq::empty()
        } else {
            let p = self.successors_up_to(a, n - 1);
            match self.records@[n - 1].kind {
                RecordKind::Update { slot, entry, original } => {
                    if original == a {
                        p.push((self.records@[n - 1].timestamp, (n - 1) as usize))
                    } else {
                        p
                    }
                },
                _ => p,
            }
        }
    }

    /// All direct successors of record `a`, in address order.
    pub open spec fn successors(self, a: int) -> Seq<(u64, usize)> {
        self.successors_up_to(a, self.records@.len() as int)
    }

    /// Every successor of `a` lies strictly after `a`, is an update record
    /// against `a`, and carries its own timestamp.
    pub proof fn lemma_successors_bounds(self, a: int, n: int)
        requires
            self.wf(),
            n <= self.records@.len(),
        ensures
            forall|k: int|
                0 <= k < self.successors_up_to(a, n).len() ==> {
                    let p = #[trigger] self.successors_up_to(a, n)[k];
                    &&& a < p.1 < n
                    &&& self.records@[p.1 as int].kind matches RecordKind::Update { original, .. }
                        && original == a
                    &&& p.0 == self.records@[p.1 as int].timestamp
                },
        decreases n,
    {
        if n > 0 {
            self.lemma_successors_bounds(a, n - 1);
            assert(self.record_wf(n - 1));
            let prev = self.successors_up_to(a, n - 1);
            let cur = self.successors_up_to(a, n);
            assert forall|k: int|
                0 <= k < cur.len() implies {
                let p = #[trigger] cur[k];
                &&& a < p.1 < n
                &&& self.records@[p.1 as int].kind matches RecordKind::Update { original, .. }
                    && original == a
                &&& p.0 == self.records@[p.1 as int].timestamp
            } by {
                if k < prev.len() {
                    assert(cur[k] == prev[k]);
                    let q = prev[k];
                    assert(a < q.1 < n - 1);
                    assert(self.records@[q.1 as int].kind matches RecordKind::Update {
                        original,
                        ..
                    } && original == a);
                    assert(q.0 == self.records@[q.1 as int].timestamp);
                } else {
                    assert(k == prev.len());
                    assert(self.records@[n - 1].kind matches RecordKind::Update { original, .. }
                        && original == a);
                    assert(self.records.len() == self.records@.len());
                    assert(cur[k].1 == n - 1);
                    assert(cur[k].0 == self.records@[n - 1].timestamp);
                    assert(a < n - 1);
                }
            }
        }
    }

    /// A record that nothing updates has no successors.
    pub proof fn lemma_successors_empty(self, a: int, n: int)
        requires
            forall|i: int|
                0 <= i < n ==> !(#[trigger] self.records@[i].kind matches RecordKind::Update {
                    original,
                    ..
                } && original == a),
        ensures
            self.successors_up_to(a, n).len() == 0,
        decreases n,
    {
        if n > 0 {
            self.lemma_successors_empty(a, n - 1);
            assert(!(self.records@[n - 1].kind matches RecordKind::Update { original, .. }
                && original == a));
        }
    }

    /// The canonical next version of record `a`: the tie-break winner among
    /// its direct successors, or nothing if `a` has none and is itself the
    /// canonical latest.
    pub open spec fn next_version(self, a: int) -> Option<usize> {
        find_earliest_spec(self.successors(a))
    }

    /// The canonical evolution of record `a`: `a` itself, then the chain of
    /// canonical next versions until a record without successors.
    pub open spec fn evolution_path(self, a: int) -> Seq<usize>
        decreases self.records@.len() - a,
        when self.wf() && 0 <= a < self.records@.len()
        via Self::evolution_path_decreases
    {
        match self.next_version(a) {
            None => seq![a as usize],
            Some(nx) => seq![a as usize] + self.evolution_path(nx as int),
        }
    }

    #[via_fn]
    proof fn evolution_path_decreases(self, a: int) {
        match self.next_version(a) {
            None => {},
            Some(nx) => {
                lemma_winner_is_first_min(self.successors(a));
                self.lemma_successors_bounds(a, self.records@.len() as int);
                let j = choose|j: int|
                    0 <= j < self.successors(a).len() && self.successors(a)[j] == winner(
                        self.successors(a),
                    ) && forall|k: int| 0 <= k < j ==> self.successors(a)[k].0 > winner(
                        self.successors(a),
                    ).0;
                assert(a < nx < self.records@.len());
            },
        }
    }

    /// The canonical next version lies strictly between `a` and the end of
    /// the store.
    pub proof fn lemma_next_version_bounds(self, a: int)
        requires
            self.wf(),
            0 <= a < self.records@.len(),
            self.next_version(a) is Some,
        ensures
            a < self.next_version(a).unwrap() < self.records@.len(),
            self.records@[self.next_version(a).unwrap() as int].kind matches RecordKind::Update {
                original,
                ..
            } && original == a,
    {
        lemma_winner_is_first_min(self.successors(a));
        self.lemma_successors_bounds(a, self.records@.len() as int);
        let s = self.successors(a);
        let j = choose|j: int|
            0 <= j < s.len() && s[j] == winner(s) && forall|k: int| 0 <= k < j ==> s[k].0 > winner(
                s,
            ).0;
        assert(s[j].1 == self.next_version(a).unwrap());
    }

    /// The canonical latest version reachable from `a`: the end of its
    /// evolution path.
    pub open spec fn latest_of(self, a: int) -> usize {
        self.evolution_path(a).last()
    }

    /// Every address on an evolution path is a record address; every one
    /// after the first is an update record.
    pub proof fn lemma_evolution_path_wf(self, a: int)
        requires
            self.wf(),
            0 <= a < self.records@.len(),
        ensures
            self.evolution_path(a).len() >= 1,
            self.evolution_path(a)[0] == a,
            forall|k: int|
                0 <= k < self.evolution_path(a).len() ==> (#[trigger] self.evolution_path(a)[k]
                    as int) < self.records@.len(),
            forall|k: int|
                1 <= k < self.evolution_path(a).len() ==> self.records@[#[trigger] self.evolution_path(
                    a,
                )[k] as int].kind matches RecordKind::Update { .. },
        decreases self.records@.len() - a,
    {
        assert(self.records.len() == self.records@.len());
        match self.next_version(a) {
            None => {
                assert(self.evolution_path(a) == seq![a as usize]);
            },
            Some(nx) => {
                self.lemma_next_version_bounds(a);
                assert(self.evolution_path(a) == seq![a as usize] + self.evolution_path(nx as int));
                assert(self.evolution_path(a)[0] == a as usize);
                self.lemma_evolution_path_wf(nx as int);
                let p = self.evolution_path(a);
                let q = self.evolution_path(nx as int);
                assert forall|k: int|
                    1 <= k < p.len() implies self.records@[#[trigger] p[k] as int].kind matches RecordKind::Update {
                    ..
                } by {
                    assert(p[k] == q[k - 1]);
                    if k > 1 {
                        assert(self.records@[q[k - 1] as int].kind matches RecordKind::Update {
                            ..
                        });
                    }
                }
                assert forall|k: int|
                    0 <= k < p.len() implies (#[trigger] p[k] as int) < self.records@.len() by {
                    if k > 0 {
                        assert(p[k] == q[k - 1]);
                    }
                }
            },
        }
    }

    /// The backward history of record `a`: `(record address, content
    /// address)` pairs from `a` back to its root create record, newest
    /// first, oldest last.  `Err` carries the address of a record that is
    /// neither a create nor an update — a malformed chain.
    pub open spec fn chain_result(self, a: int) -> Result<Seq<(usize, usize)>, usize>
        decreases a,
        when self.wf() && 0 <= a < self.records@.len()
        via Self::chain_result_decreases
    {
        match self.records@[a].kind {
            RecordKind::Create { slot, entry } => Ok(seq![(a as usize, entry)]),
            RecordKind::Update { slot, entry, original } => {
                match self.chain_result(original as int) {
                    Ok(c) => Ok(seq![(a as usize, entry)] + c),
                    Err(d) => Err(d),
                }
            },
            RecordKind::Delete { target } => Err(a as usize),
        }
    }

    #[via_fn]
    proof fn chain_result_decreases(self, a: int) {
        assert(self.record_wf(a));
    }

    /// The shape of a well-traced history: it starts at the record it was
    /// asked about, every pair carries that record's content address, every
    /// hop but the last is an update, and the last is the root create.
    pub proof fn lemma_chain_shape(self, a: int)
        requires
            self.wf(),
            0 <= a < self.records@.len(),
            self.chain_result(a) is Ok,
        ensures
            self.chain_result(a).unwrap().len() >= 1,
            self.chain_result(a).unwrap()[0].0 == a,
            forall|k: int|
                0 <= k < self.chain_result(a).unwrap().len() ==> (
                #[trigger] self.chain_result(a).unwrap()[k].0 as int) < self.records@.len(),
            forall|k: int|
                0 <= k < self.chain_result(a).unwrap().len() - 1
                    ==> self.records@[#[trigger] self.chain_result(a).unwrap()[k].0 as int].kind
                    matches RecordKind::Update { .. },
            self.records@[self.chain_result(a).unwrap().last().0 as int].kind matches RecordKind::Create {
                ..
            },
        decreases a,
    {
        assert(self.records.len() == self.records@.len());
        assert(self.record_wf(a));
        let c = self.chain_result(a).unwrap();
        match self.records@[a].kind {
            RecordKind::Create { slot, entry } => {
                assert(c == seq![(a as usize, entry)]);
            },
            RecordKind::Update { slot, entry, original } => {
                self.lemma_chain_shape(original as int);
                let t = self.chain_result(original as int).unwrap();
                assert(c == seq![(a as usize, entry)] + t);
                assert(c.last() == t.last());
                assert forall|k: int|
                    0 <= k < c.len() implies (#[trigger] c[k].0 as int) < self.records@.len() by {
                    if k > 0 {
                        assert(c[k] == t[k - 1]);
                    }
                }
                assert forall|k: int|
                    0 <= k < c.len() - 1 implies self.records@[#[trigger] c[k].0 as int].kind
                    matches RecordKind::Update { .. } by {
                    if k > 0 {
                        assert(c[k] == t[k - 1]);
                    }
                }
            },
            RecordKind::Delete { target } => {},
        }
    }

    /// List the direct successor records of `addr`: the store's
    /// version-detail query.
    pub fn fetch_record_details(&self, addr: usize) -> (r: Vec<(u64, usize)>)
        ensures
            r@ == self.successors(addr as int),
    {
        let n = self.records.len();
        let mut r: Vec<(u64, usize)> = Vec::new();
        let mut i: usize = 0;
        while i < n
            invariant
                n == self.records@.len(),
                i <= n,
                r@ == self.successors_up_to(addr as int, i as int),
            decreases n - i,
        {
            let rec = self.records[i];
            match rec.kind {
                RecordKind::Update { slot: _, entry: _, original } => {
                    if original == addr {
                        r.push((rec.timestamp, i));
                    }
                },
                _ => {},
            }
            i += 1;
        }
        r
    }
}

/// Follow the canonical chain of updates forward from `addr`: repeatedly
/// fetch the direct successors, pick the canonical one by the earliest
/// tie-break, and stop at the first record that has none.  Returns the full
/// path, starting at `addr`, canonical latest last.  Iterative, so chains of
/// arbitrary depth cannot exhaust the stack.
///
/// Resolution is deterministic in the set of visible successors.  Observers
/// whose stores hold different subsets of a still-replicating history may
/// transiently resolve different versions; that divergence is expected and
/// tolerated, not a sign of corruption, and disappears once they see the
/// same records.
pub fn follow_updates(store: &Store, addr: usize) -> (r: Result<Vec<usize>, UtilsError>)
    requires
        store.wf(),
    ensures
        store.has_record(addr as int) ==> (r matches Ok(path) && path@ == store.evolution_path(
            addr as int,
        )),
        !store.has_record(addr as int) ==> r == Err::<Vec<usize>, UtilsError>(
            UtilsError::ActionNotFoundError(addr),
        ),
{
    if addr >= store.records.len() {
        return Err(UtilsError::ActionNotFoundError(addr));
    }
    let mut path: Vec<usize> = Vec::new();
    path.push(addr);
    let mut cur: usize = addr;
    loop
        invariant
            store.wf(),
            store.has_record(addr as int),
            store.has_record(cur as int),
            path@.len() >= 1,
            path@.last() == cur,
            store.evolution_path(addr as int) == path@.drop_last() + store.evolution_path(
                cur as int,
            ),
        decreases store.records@.len() - cur,
    {
        let succ = store.fetch_record_details(cur);
        match find_earliest(&succ) {
            None => {
                proof {
                    assert(store.evolution_path(cur as int) =~= seq![cur]);
                    assert(store.evolution_path(addr as int) =~= path@);
                }
                return Ok(path);
            },
            Some(nx) => {
                let ghost p0 = path@;
                proof {
                    store.lemma_next_version_bounds(cur as int);
                    assert(store.evolution_path(cur as int) == seq![cur]
                        + store.evolution_path(nx as int));
                }
                path.push(nx);
                proof {
                    assert(path@.drop_last() =~= p0);
                    assert(p0.drop_last().push(cur) =~= p0);
                    assert(store.evolution_path(addr as int) == p0.drop_last() + (seq![cur]
                        + store.evolution_path(nx as int)));
                    assert(p0.drop_last() + (seq![cur] + store.evolution_path(nx as int))
                        =~= p0 + store.evolution_path(nx as int));
                    assert(store.evolution_path(addr as int) == path@.drop_last()
                        + store.evolution_path(nx as int));
                }
                cur = nx;
            },
        }
    }
}

/// Trace the history of the record at `addr` backward: follow `original`
/// references through update records until the root create record, and
/// return the `(record address, content address)` chain, newest first,
/// oldest last.  A hop onto a record that is neither a create nor an update
/// is a malformed chain and a hard error — an incomplete chain is never
/// passed off as a short one.  Iterative, so chains of arbitrary depth
/// cannot exhaust the stack.
pub fn trace_history(store: &Store, addr: usize) -> (r: Result<Vec<(usize, usize)>, UtilsError>)
    requires
        store.wf(),
    ensures
        !store.has_record(addr as int) ==> r == Err::<Vec<(usize, usize)>, UtilsError>(
            UtilsError::ActionNotFoundError(addr),
        ),
        store.has_record(addr as int) ==> match store.chain_result(addr as int) {
            Ok(c) => r matches Ok(v) && v@ == c,
            Err(d) => r == Err::<Vec<(usize, usize)>, UtilsError>(UtilsError::RecordHasNoEntry(d)),
        },
{
    if addr >= store.records.len() {
        return Err(UtilsError::ActionNotFoundError(addr));
    }
    let mut acc: Vec<(usize, usize)> = Vec::new();
    let mut cur: usize = addr;
    loop
        invariant
            store.wf(),
            store.has_record(addr as int),
            store.has_record(cur as int),
            match store.chain_result(cur as int) {
                Ok(c) => store.chain_result(addr as int) == Ok::<Seq<(usize, usize)>, usize>(
                    acc@ + c,
                ),
                Err(d) => store.chain_result(addr as int) == Err::<Seq<(usize, usize)>, usize>(d),
            },
        decreases cur,
    {
        proof {
            assert(store.record_wf(cur as int));
        }
        let rec = store.records[cur];
        match rec.kind {
            RecordKind::Create { slot: _, entry } => {
                let ghost a0 = acc@;
                acc.push((cur, entry));
                proof {
                    let c = store.chain_result(cur as int).unwrap();
                    assert(c == seq![(cur, entry)]);
                    assert(a0 + c =~= acc@);
                }
                return Ok(acc);
            },
            RecordKind::Update { slot: _, entry, original } => {
                let ghost a0 = acc@;
                acc.push((cur, entry));
                proof {
                    match store.chain_result(original as int) {
                        Ok(t) => {
                            assert(store.chain_result(cur as int) == Ok::<
                                Seq<(usize, usize)>,
                                usize,
                            >(seq![(cur, entry)] + t));
                            assert(a0 + (seq![(cur, entry)] + t) =~= acc@ + t);
                        },
                        Err(d) => {},
                    }
                }
                cur = original;
            },
            RecordKind::Delete { target: _ } => {
                proof {
                    assert(store.chain_result(cur as int) == Err::<Seq<(usize, usize)>, usize>(
                        cur,
                    ));
                }
                return Err(UtilsError::RecordHasNoEntry(cur));
            },
        }
    }
}

/// The stable identity behind the record at `addr`: the address of the root
/// create record its history traces back to.
pub fn origin_of(store: &Store, addr: usize) -> (r: Result<usize, UtilsError>)
    requires
        store.wf(),
    ensures
        !store.has_record(addr as int) ==> r == Err::<usize, UtilsError>(
            UtilsError::ActionNotFoundError(addr),
        ),
        store.has_record(addr as int) ==> match store.chain_result(addr as int) {
            Ok(c) => r == Ok::<usize, UtilsError>(c.last().0),
            Err(d) => r == Err::<usize, UtilsError>(UtilsError::RecordHasNoEntry(d)),
        },
{
    let chain = match trace_history(store, addr) {
        Ok(c) => c,
        Err(e) => {
            return Err(e);
        },
    };
    proof {
        store.lemma_chain_shape(addr as int);
    }
    let last = chain[chain.len() - 1];
    Ok(last.0)
}

impl Store {
    /// Concurrency law, strict case: when one direct successor of `a`
    /// declares a strictly earlier timestamp than every other, it is the
    /// canonical next version — independent of the order the successors
    /// were appended or observed in.
    pub proof fn lemma_next_version_strict_min(self, a: int, i: int)
        requires
            0 <= i < self.successors(a).len(),
            forall|k: int|
                0 <= k < self.successors(a).len() && k != i ==> self.successors(a)[i].0 < (
                #[trigger] self.successors(a)[k]).0,
        ensures
            self.next_version(a) == Some(self.successors(a)[i].1),
    {
        lemma_find_earliest_strict_min(self.successors(a), i);
    }

    /// Concurrency law, tie case: when every direct successor of `a`
    /// declares the same timestamp, the first in address order is the
    /// canonical next version — a stable, repeatable resolution for a fixed
    /// input ordering.
    pub proof fn lemma_next_version_all_tied(self, a: int)
        requires
            self.successors(a).len() > 0,
            forall|k: int|
                0 <= k < self.successors(a).len() ==> (#[trigger] self.successors(a)[k]).0
                    == self.successors(a)[0].0,
        ensures
            self.next_version(a) == Some(self.successors(a)[0].1),
    {
        lemma_find_earliest_all_tied(self.successors(a));
    }

    /// Helper for the sequential-history law: from position `i` on, a
    /// straight-line chain is its own evolution path.
    proof fn lemma_sequential_path_from(self, chain: Seq<usize>, i: int)
        requires
            self.wf(),
            chain.len() >= 1,
            0 <= i < chain.len(),
            forall|k: int| 0 <= k < chain.len() ==> (#[trigger] chain[k] as int)
                < self.records@.len(),
            forall|k: int|
                0 <= k < chain.len() - 1 ==> self.successors(#[trigger] chain[k] as int) == seq![
                    (self.records@[chain[k + 1] as int].timestamp, chain[k + 1]),
                ],
            self.successors(chain.last() as int) == Seq::<(u64, usize)>::empty(),
        ensures
            self.evolution_path(chain[i] as int) == chain.skip(i),
        decreases chain.len() - i,
    {
        if i == chain.len() - 1 {
            assert(chain[i] == chain.last());
            assert(self.next_version(chain[i] as int) is None);
            assert(self.evolution_path(chain[i] as int) == seq![chain[i]]);
            assert(chain.skip(i) =~= seq![chain[i]]);
        } else {
            let succ = self.successors(chain[i] as int);
            assert(succ == seq![(self.records@[chain[i + 1] as int].timestamp, chain[i + 1])]);
            assert(winner(succ) == succ[0]);
            assert(self.next_version(chain[i] as int) == Some(chain[i + 1]));
            self.lemma_sequential_path_from(chain, i + 1);
            assert(self.evolution_path(chain[i] as int) == seq![chain[i]] + chain.skip(i + 1));
            assert(seq![chain[i]] + chain.skip(i + 1) =~= chain.skip(i));
        }
    }

    /// Helper for the sequential-history law: tracing backward from
    /// position `i` of a straight-line chain yields exactly `i + 1` hops.
    proof fn lemma_sequential_chain_to(self, chain: Seq<usize>, i: int)
        requires
            self.wf(),
            chain.len() >= 1,
            0 <= i < chain.len(),
            forall|k: int| 0 <= k < chain.len() ==> (#[trigger] chain[k] as int)
                < self.records@.len(),
            self.records@[chain[0] as int].kind matches RecordKind::Create { .. },
            forall|k: int|
                0 <= k < chain.len() - 1 ==> (self.records@[#[trigger] chain[k + 1] as int].kind
                    matches RecordKind::Update { original, .. } && original == chain[k]),
        ensures
            self.chain_result(chain[i] as int) is Ok,
            self.chain_result(chain[i] as int).unwrap().len() == i + 1,
        decreases i,
    {
        if i == 0 {
        } else {
            let j = i - 1;
            assert(self.records@[chain[j + 1] as int].kind matches RecordKind::Update {
                original,
                ..
            } && original == chain[j]);
            self.lemma_sequential_chain_to(chain, i - 1);
        }
    }

    /// The sequential-history law: when one origin receives a straight line
    /// of updates — every link in `chain` is the sole successor of the one
    /// before it, and the last has none — the canonical evolution of the
    /// origin is exactly that chain, the canonical latest version is its
    /// last element, and tracing history backward from the last element
    /// counts every update plus the originating create.
    pub proof fn lemma_sequential_updates(self, chain: Seq<usize>)
        requires
            self.wf(),
            chain.len() >= 1,
            forall|k: int| 0 <= k < chain.len() ==> (#[trigger] chain[k] as int)
                < self.records@.len(),
            self.records@[chain[0] as int].kind matches RecordKind::Create { .. },
            forall|k: int|
                0 <= k < chain.len() - 1 ==> self.successors(#[trigger] chain[k] as int) == seq![
                    (self.records@[chain[k + 1] as int].timestamp, chain[k + 1]),
                ],
            self.successors(chain.last() as int) == Seq::<(u64, usize)>::empty(),
        ensures
            self.evolution_path(chain[0] as int) == chain,
            self.latest_of(chain[0] as int) == chain.last(),
            self.chain_result(chain.last() as int) is Ok,
            self.chain_result(chain.last() as int).unwrap().len() == chain.len(),
    {
        self.lemma_sequential_path_from(chain, 0);
        assert(chain.skip(0) =~= chain);
        assert forall|k: int|
            0 <= k < chain.len() - 1 implies self.records@[#[trigger] chain[k + 1] as int].kind
            matches RecordKind::Update { original, .. } && original == chain[k] by {
            let succ = self.successors(chain[k] as int);
            self.lemma_successors_bounds(chain[k] as int, self.records@.len() as int);
            assert(succ[0] == (self.records@[chain[k + 1] as int].timestamp, chain[k + 1]));
        }
        self.lemma_sequential_chain_to(chain, chain.len() - 1);
        assert(chain[chain.len() - 1] == chain.last());
    }
}

} // verus!
