//! The model of the append-only, content-addressed store.
//!
//! Addresses are indices: a record address indexes `records`, a content
//! address indexes `entries`, and an edge address indexes `links`.  Records
//! and edges are never removed; "deleting" marks them retired, which only
//! affects liveness checks, never the data itself.  Entries are interned, so
//! equal content always receives the same content address.

use vstd::prelude::*;

verus! {

/// Identifies the structural type of an entry: which definition in which
/// namespace the content claims to be.
#[derive(Clone, Copy, Debug, PartialEq, Eq, Structural)]
pub struct TypeSlot {
    /// The namespace (integrity-zome) index.
    pub zome: u32,
    /// The entry-definition index within the namespace.
    pub entry_def: u32,
}

/// What a record does: start a new entity, extend one, or retire one.
#[derive(Clone, Copy, Debug, PartialEq, Eq, Structural)]
pub enum RecordKind {
    /// Begins a new entity; `entry` is the content address of its value.
    Create { slot: TypeSlot, entry: usize },
    /// Replaces the value of the record at `original`.
    Update { slot: TypeSlot, entry: usize, original: usize },
    /// Retires the record at `target`.
    Delete { target: usize },
}

/// An immutable unit in the store, carrying the logical timestamp its
/// author assigned to it.
#[derive(Clone, Copy, Debug, PartialEq, Eq, Structural)]
pub struct Record {
    pub timestamp: u64,
    pub kind: RecordKind,
}

/// Something an edge can hang off: a record address, or an anchor outside
/// the record space (an agent, a collection root).
#[derive(Clone, Copy, Debug, PartialEq, Eq, Structural)]
pub enum Anchor {
    Action(usize),
    External(u64),
}

/// A typed, tagged directed edge between two anchors.
#[derive(Clone, Debug, PartialEq, Eq)]
pub struct Link {
    pub base: Anchor,
    pub target: Anchor,
    pub link_type: u64,
    pub tag: Vec<u8>,
    pub timestamp: u64,
}

/// An edge query: all live edges under `base` of type `link_type` whose tag
/// starts with `tag_prefix` (no prefix matches every tag).
#[derive(Clone, Debug)]
pub struct GetLinksInput {
    pub base: Anchor,
    pub link_type: u64,
    pub tag_prefix: Option<Vec<u8>>,
}

/// The append-only store.  `retired` and `links_retired` run parallel to
/// `records` and `links`; `now` is the logical clock stamped onto whatever
/// the store appends next.
pub struct Store {
    pub records: Vec<Record>,
    pub retired: Vec<bool>,
    pub entries: Vec<Vec<u8>>,
    pub links: Vec<Link>,
    pub links_retired: Vec<bool>,
    pub now: u64,
}

impl Store {
    /// Internal consistency of one record: its content address resolves, and
    /// every record it references was appended strictly before it.
    pub open spec fn record_wf(self, i: int) -> bool {
        match self.records@[i].kind {
            RecordKind::Create { slot, entry } => entry < self.entries@.len(),
            RecordKind::Update { slot, entry, original } => {
                &&& entry < self.entries@.len()
                &&& original < i
            },
            RecordKind::Delete { target } => target < i,
        }
    }

    /// Well-formedness of the whole store: parallel columns line up, every
    /// record is internally consistent, and entries are interned (pairwise
    /// distinct), which is what makes content addresses content-derived.
    pub open spec fn wf(self) -> bool {
        &&& self.retired@.len() == self.records@.len()
        &&& self.links_retired@.len() == self.links@.len()
        &&& forall|i: int| 0 <= i < self.records@.len() ==> self.record_wf(i)
        &&& forall|i: int, j: int|
            0 <= i < j < self.entries@.len() ==> self.entries@[i]@ != self.entries@[j]@
    }

    /// The record address `a` exists in the store.
    pub open spec fn has_record(self, a: int) -> bool {
        0 <= a < self.records@.len()
    }

    /// The record address `a` exists and has not been retired.
    pub open spec fn live(self, a: int) -> bool {
        self.has_record(a) && !self.retired@[a]
    }

    /// The record at address `a`.
    pub open spec fn record_at(self, a: int) -> Record {
        self.records@[a]
    }

    /// The edge address `a` exists and has not been retired.
    pub open spec fn link_live(self, a: int) -> bool {
        0 <= a < self.links@.len() && !self.links_retired@[a]
    }

    /// An empty store.
    pub fn new() -> (s: Store)
        ensures
            s.wf(),
            s.records@.len() == 0,
            s.entries@.len() == 0,
            s.links@.len() == 0,
            s.now == 0,
    {
        Store {
            records: Vec::new(),
            retired: Vec::new(),
            entries: Vec::new(),
            links: Vec::new(),
            links_retired: Vec::new(),
            now: 0,
        }
    }

    /// Fetch a live record: the store's point lookup.  Retired records are
    /// invisible here, which is how deletion is observed.
    pub fn fetch_record(&self, addr: usize) -> (r: Option<Record>)
        requires
            self.wf(),
        ensures
            r == if self.live(addr as int) {
                Some(self.record_at(addr as int))
            } else {
                None::<Record>
            },
    {
        if addr < self.records.len() && !self.retired[addr] {
            Some(self.records[addr])
        } else {
            None
        }
    }

    /// Fetch a record whether or not it was retired: records are immutable
    /// and never removed, so history stays traceable across deletion.
    pub fn fetch_action(&self, addr: usize) -> (r: Option<Record>)
        ensures
            r == if self.has_record(addr as int) {
                Some(self.record_at(addr as int))
            } else {
                None::<Record>
            },
    {
        if addr < self.records.len() {
            Some(self.records[addr])
        } else {
            None
        }
    }

    /// The stored contents as plain byte sequences.
    pub open spec fn entries_view(self) -> Seq<Seq<u8>> {
        self.entries@.map_values(|v: Vec<u8>| v@)
    }

    /// Some entry already holds exactly these bytes.
    pub open spec fn has_entry(self, b: Seq<u8>) -> bool {
        exists|i: int| 0 <= i < self.entries@.len() && self.entries@[i]@ == b
    }

    /// The content address these bytes have, or would receive on the next
    /// submission: the entry holding them if one exists (unique, because
    /// entries are interned), else the next free entry index.
    pub open spec fn content_address(self, b: Seq<u8>) -> int {
        if self.has_entry(b) {
            choose|i: int| 0 <= i < self.entries@.len() && self.entries@[i]@ == b
        } else {
            self.entries@.len() as int
        }
    }

    /// The bytes at content address `e`.
    pub open spec fn entry_bytes(self, e: int) -> Seq<u8> {
        self.entries@[e]@
    }
}

/// `post` holds the same entries as `pre` with `b` interned: nothing changes
/// if the content was already present, else `b` is appended.
pub open spec fn interned(pre: Store, post: Store, b: Seq<u8>) -> bool {
    if pre.has_entry(b) {
        post.entries_view() == pre.entries_view()
    } else {
        post.entries_view() == pre.entries_view().push(b)
    }
}

/// The record appended by a create submission of `(slot, b)` against `pre`.
pub open spec fn created_record(pre: Store, slot: TypeSlot, b: Seq<u8>) -> Record {
    Record {
        timestamp: pre.now,
        kind: RecordKind::Create { slot, entry: pre.content_address(b) as usize },
    }
}

/// The record appended by an update submission of `(original, slot, b)`.
pub open spec fn updated_record(pre: Store, original: usize, slot: TypeSlot, b: Seq<u8>) -> Record {
    Record {
        timestamp: pre.now,
        kind: RecordKind::Update { slot, entry: pre.content_address(b) as usize, original },
    }
}

/// How a create submission relates the store before to the store after.
pub open spec fn submitted_create(pre: Store, post: Store, slot: TypeSlot, b: Seq<u8>, addr: usize) -> bool {
    &&& addr == pre.records@.len()
    &&& post.records@ == pre.records@.push(created_record(pre, slot, b))
    &&& post.retired@ == pre.retired@.push(false)
    &&& interned(pre, post, b)
    &&& post.links@ == pre.links@
    &&& post.links_retired@ == pre.links_retired@
    &&& post.now == pre.now
}

/// How an update submission relates the store before to the store after.
pub open spec fn submitted_update(
    pre: Store,
    post: Store,
    original: usize,
    slot: TypeSlot,
    b: Seq<u8>,
    addr: usize,
) -> bool {
    &&& addr == pre.records@.len()
    &&& post.records@ == pre.records@.push(updated_record(pre, original, slot, b))
    &&& post.retired@ == pre.retired@.push(false)
    &&& interned(pre, post, b)
    &&& post.links@ == pre.links@
    &&& post.links_retired@ == pre.links_retired@
    &&& post.now == pre.now
}

/// How a delete submission relates the store before to the store after: a
/// delete record is appended and the target is retired.
pub open spec fn submitted_delete(pre: Store, post: Store, target: usize, addr: usize) -> bool {
    &&& addr == pre.records@.len()
    &&& post.records@ == pre.records@.push(
        Record { timestamp: pre.now, kind: RecordKind::Delete { target } },
    )
    &&& post.retired@ == pre.retired@.update(target as int, true).push(false)
    &&& post.entries_view() == pre.entries_view()
    &&& post.links@ == pre.links@
    &&& post.links_retired@ == pre.links_retired@
    &&& post.now == pre.now
}

/// How an edge creation relates the store before to the store after.
pub open spec fn edge_created(
    pre: Store,
    post: Store,
    base: Anchor,
    target: Anchor,
    link_type: u64,
    tag: Seq<u8>,
    addr: usize,
) -> bool {
    &&& addr == pre.links@.len()
    &&& post.links@.len() == pre.links@.len() + 1
    &&& forall|i: int| 0 <= i < pre.links@.len() ==> post.links@[i] == pre.links@[i]
    &&& post.links@[addr as int].base == base
    &&& post.links@[addr as int].target == target
    &&& post.links@[addr as int].link_type == link_type
    &&& post.links@[addr as int].tag@ == tag
    &&& post.links@[addr as int].timestamp == pre.now
    &&& post.links_retired@ == pre.links_retired@.push(false)
    &&& post.records@ == pre.records@
    &&& post.retired@ == pre.retired@
    &&& post.entries_view() == pre.entries_view()
    &&& post.now == pre.now
}

/// How an edge deletion relates the store before to the store after: the
/// edge is retired, nothing else moves.
pub open spec fn edge_deleted(pre: Store, post: Store, addr: usize) -> bool {
    &&& post.links@ == pre.links@
    &&& post.links_retired@ == pre.links_retired@.update(addr as int, true)
    &&& post.records@ == pre.records@
    &&& post.retired@ == pre.retired@
    &&& post.entries_view() == pre.entries_view()
    &&& post.now == pre.now
}

impl GetLinksInput {
    /// The tag filter as a plain byte sequence, if one was given.
    pub open spec fn tag_prefix_view(self) -> Option<Seq<u8>> {
        match self.tag_prefix {
            Option::None => None,
            Option::Some(v) => Some(v@),
        }
    }
}

/// Whether a tag passes a prefix filter; no filter passes everything.
pub open spec fn tag_matches(tag: Seq<u8>, pref: Option<Seq<u8>>) -> bool {
    match pref {
        Option::None => true,
        Option::Some(p) => p.is_prefix_of(tag),
    }
}

/// The tag an edge receives from an optional tag input: the bytes given,
/// or the empty tag.
pub open spec fn tag_view(t: Option<Vec<u8>>) -> Seq<u8> {
    match t {
        Option::None => Seq::empty(),
        Option::Some(v) => v@,
    }
}

/// An optional tag input read as an optional byte-sequence filter.
pub open spec fn tag_pref_view(t: Option<Vec<u8>>) -> Option<Seq<u8>> {
    match t {
        Option::None => None,
        Option::Some(v) => Some(v@),
    }
}

/// Anchor comparison.
pub fn anchor_eq(a: &Anchor, b: &Anchor) -> (r: bool)
    ensures
        r == (a == b),
{
    match (a, b) {
        (Anchor::Action(x), Anchor::Action(y)) => x == y,
        (Anchor::External(x), Anchor::External(y)) => x == y,
        _ => false,
    }
}

/// Whether `p` is a byte-for-byte prefix of `t`.
pub fn is_prefix(p: &Vec<u8>, t: &Vec<u8>) -> (r: bool)
    ensures
        r == p@.is_prefix_of(t@),
{
    if p.len() > t.len() {
        return false;
    }
    let mut i: usize = 0;
    while i < p.len()
        invariant
            i <= p@.len(),
            p@.len() <= t@.len(),
            forall|j: int| 0 <= j < i ==> p@[j] == t@[j],
        decreases p@.len() - i,
    {
        if p[i] != t[i] {
            proof {
                assert(t@.subrange(0, p@.len() as int)[i as int] == t@[i as int]);
            }
            return false;
        }
        i += 1;
    }
    proof {
        assert(p@ =~= t@.subrange(0, p@.len() as int));
    }
    true
}

/// Byte-for-byte copy of a content value.
pub fn bytes_clone(v: &Vec<u8>) -> (r: Vec<u8>)
    ensures
        r@ == v@,
{
    let mut r: Vec<u8> = Vec::new();
    let mut i: usize = 0;
    while i < v.len()
        invariant
            i <= v@.len(),
            r@ == v@.take(i as int),
        decreases v@.len() - i,
    {
        r.push(v[i]);
        proof {
            assert(r@ =~= v@.take(i as int + 1));
        }
        i += 1;
    }
    proof {
        assert(v@.take(v@.len() as int) =~= v@);
    }
    r
}

/// Byte-for-byte comparison of two content values.
fn bytes_eq(a: &Vec<u8>, b: &Vec<u8>) -> (r: bool)
    ensures
        r == (a@ == b@),
{
    if a.len() != b.len() {
        proof {
            assert(a@ != b@);
        }
        return false;
    }
    let mut i: usize = 0;
    while i < a.len()
        invariant
            i <= a@.len(),
            a@.len() == b@.len(),
            forall|j: int| 0 <= j < i ==> a@[j] == b@[j],
        decreases a@.len() - i,
    {
        if a[i] != b[i] {
            return false;
        }
        i += 1;
    }
    proof {
        assert(a@ =~= b@);
    }
    true
}

impl Store {
    /// Intern content bytes: the address already holding them, or a fresh
    /// entry if the content is new.  Either way the returned address is the
    /// content address of `b`.
    fn intern(&mut self, b: Vec<u8>) -> (r: usize)
        requires
            old(self).wf(),
        ensures
            final(self).wf(),
            r == old(self).content_address(b@),
            interned(*old(self), *final(self), b@),
            final(self).records@ == old(self).records@,
            final(self).retired@ == old(self).retired@,
            final(self).links@ == old(self).links@,
            final(self).links_retired@ == old(self).links_retired@,
            final(self).now == old(self).now,
            final(self).has_entry(b@),
            final(self).entry_bytes(r as int) == b@,
            r < final(self).entries@.len(),
    {
        let n = self.entries.len();
        let mut i: usize = 0;
        while i < n
            invariant
                old(self).wf(),
                *self == *old(self),
                n == self.entries@.len(),
                i <= n,
                forall|j: int| 0 <= j < i ==> self.entries@[j]@ != b@,
            decreases n - i,
        {
            if bytes_eq(&self.entries[i], &b) {
                proof {
                    assert(self.entries@[i as int]@ == b@);
                    assert(self.has_entry(b@));
                    let w = choose|k: int|
                        0 <= k < self.entries@.len() && self.entries@[k]@ == b@;
                    if w < i as int {
                        assert(self.entries@[w]@ != self.entries@[i as int]@);
                    } else if (i as int) < w {
                        assert(self.entries@[i as int]@ != self.entries@[w]@);
                    }
                    assert(w == i as int);
                    assert(self.entries_view() =~= old(self).entries_view());
                }
                return i;
            }
            i += 1;
        }
        proof {
            assert(!self.has_entry(b@));
        }
        self.entries.push(b);
        proof {
            assert(self.entries_view() =~= old(self).entries_view().push(b@));
            assert(self.entries@[n as int]@ == b@);
            assert forall|x: int, y: int|
                0 <= x < y < self.entries@.len() implies self.entries@[x]@ != self.entries@[y]@ by {
                if y < n {
                    assert(old(self).wf());
                    assert(old(self).entries@[x]@ != old(self).entries@[y]@);
                } else {
                    assert(y == n);
                    assert(self.entries@[x]@ == old(self).entries@[x]@);
                    assert(old(self).entries@[x]@ != b@);
                    assert(self.entries@[y]@ == b@);
                }
            }
            assert forall|k: int| 0 <= k < self.records@.len() implies self.record_wf(k) by {
                assert(old(self).record_wf(k));
            }
            assert(self.wf());
        }
        n
    }

    /// Append a create record with the given declared slot and content
    /// bytes; returns the new record's address.
    pub fn submit_create(&mut self, slot: TypeSlot, content: Vec<u8>) -> (r: usize)
        requires
            old(self).wf(),
        ensures
            final(self).wf(),
            submitted_create(*old(self), *final(self), slot, content@, r),
    {
        let ghost pre = *self;
        let entry = self.intern(content);
        let rec = Record { timestamp: self.now, kind: RecordKind::Create { slot, entry } };
        let r = self.records.len();
        self.records.push(rec);
        self.retired.push(false);
        proof {
            assert(pre.entries_view().len() == pre.entries@.len());
            assert(self.entries_view().len() == self.entries@.len());
            assert(pre.entries@.len() <= self.entries@.len());
            assert forall|k: int| 0 <= k < self.records@.len() implies self.record_wf(k) by {
                if k < r as int {
                    assert(pre.record_wf(k));
                }
            }
            assert(self.wf());
        }
        r
    }

    /// Append an update record whose `original` names the record it
    /// supersedes; returns the new record's address.
    pub fn submit_update(&mut self, original: usize, slot: TypeSlot, content: Vec<u8>) -> (r: usize)
        requires
            old(self).wf(),
            old(self).has_record(original as int),
        ensures
            final(self).wf(),
            submitted_update(*old(self), *final(self), original, slot, content@, r),
    {
        let ghost pre = *self;
        let entry = self.intern(content);
        let rec = Record {
            timestamp: self.now,
            kind: RecordKind::Update { slot, entry, original },
        };
        let r = self.records.len();
        self.records.push(rec);
        self.retired.push(false);
        proof {
            assert(pre.entries_view().len() == pre.entries@.len());
            assert(self.entries_view().len() == self.entries@.len());
            assert(pre.entries@.len() <= self.entries@.len());
            assert forall|k: int| 0 <= k < self.records@.len() implies self.record_wf(k) by {
                if k < r as int {
                    assert(pre.record_wf(k));
                }
            }
            assert(self.wf());
        }
        r
    }

    /// Append a delete record and retire its target; returns the delete
    /// record's address.
    pub fn submit_delete(&mut self, target: usize) -> (r: usize)
        requires
            old(self).wf(),
            old(self).has_record(target as int),
        ensures
            final(self).wf(),
            submitted_delete(*old(self), *final(self), target, r),
    {
        let ghost pre = *self;
        let rec = Record { timestamp: self.now, kind: RecordKind::Delete { target } };
        let r = self.records.len();
        self.records.push(rec);
        self.retired[target] = true;
        self.retired.push(false);
        proof {
            assert forall|k: int| 0 <= k < self.records@.len() implies self.record_wf(k) by {
                if k < r as int {
                    assert(pre.record_wf(k));
                }
            }
            assert(self.retired@ =~= pre.retired@.update(target as int, true).push(false));
        }
        r
    }

    /// Append a new edge; returns its address.
    pub fn create_edge(&mut self, base: Anchor, target: Anchor, link_type: u64, tag: Vec<u8>) -> (r: usize)
        requires
            old(self).wf(),
        ensures
            final(self).wf(),
            edge_created(*old(self), *final(self), base, target, link_type, tag@, r),
    {
        let r = self.links.len();
        let link = Link { base, target, link_type, tag, timestamp: self.now };
        self.links.push(link);
        self.links_retired.push(false);
        proof {
            assert forall|k: int| 0 <= k < self.records@.len() implies self.record_wf(k) by {
                assert(old(self).record_wf(k));
            }
            assert(self.entries_view() =~= old(self).entries_view());
            assert(self.wf());
        }
        r
    }

    /// Retire an edge.  Retired edges never match a query again.
    pub fn delete_edge(&mut self, addr: usize)
        requires
            old(self).wf(),
            addr < old(self).links@.len(),
        ensures
            final(self).wf(),
            edge_deleted(*old(self), *final(self), addr),
    {
        self.links_retired[addr] = true;
        proof {
            assert(self.links_retired@ =~= old(self).links_retired@.update(addr as int, true));
            assert forall|k: int| 0 <= k < self.records@.len() implies self.record_wf(k) by {
                assert(old(self).record_wf(k));
            }
            assert(self.entries_view() =~= old(self).entries_view());
            assert(self.wf());
        }
    }

    /// Whether edge `i` answers a query: live, hanging off the queried
    /// base, of the queried type, and tagged with the queried prefix.
    pub open spec fn edge_matches(self, i: int, base: Anchor, lt: u64, pref: Option<Seq<u8>>) -> bool {
        &&& self.link_live(i)
        &&& self.links@[i].base == base
        &&& self.links@[i].link_type == lt
        &&& tag_matches(self.links@[i].tag@, pref)
    }

    /// The addresses of the matching edges among the first `n`, in address
    /// order.
    pub open spec fn edges_matching_up_to(self, base: Anchor, lt: u64, pref: Option<Seq<u8>>, n: int) -> Seq<usize>
        decreases n,
    {
        if n <= 0 {
            Seq::empty()
        } else {
            let p = self.edges_matching_up_to(base, lt, pref, n - 1);
            if self.edge_matches(n - 1, base, lt, pref) {
                p.push((n - 1) as usize)
            } else {
                p
            }
        }
    }

    /// The addresses of all matching edges, in address order.
    pub open spec fn edges_matching(self, base: Anchor, lt: u64, pref: Option<Seq<u8>>) -> Seq<usize> {
        self.edges_matching_up_to(base, lt, pref, self.links@.len() as int)
    }

    /// Every matching edge address lies among the first `n` and matches.
    pub proof fn lemma_edges_matching_bounds(self, base: Anchor, lt: u64, pref: Option<Seq<u8>>, n: int)
        ensures
            forall|k: int|
                0 <= k < self.edges_matching_up_to(base, lt, pref, n).len() ==> {
                    let l = #[trigger] self.edges_matching_up_to(base, lt, pref, n)[k];
                    &&& (l as int) < n
                    &&& 0 <= (l as int)
                    &&& self.edge_matches(l as int, base, lt, pref)
                },
        decreases n,
    {
        if n > 0 {
            self.lemma_edges_matching_bounds(base, lt, pref, n - 1);
            let prev = self.edges_matching_up_to(base, lt, pref, n - 1);
            let cur = self.edges_matching_up_to(base, lt, pref, n);
            assert forall|k: int|
                0 <= k < cur.len() implies {
                let l = #[trigger] cur[k];
                &&& (l as int) < n
                &&& 0 <= (l as int)
                &&& self.edge_matches(l as int, base, lt, pref)
            } by {
                if k < prev.len() {
                    assert(cur[k] == prev[k]);
                    let q = prev[k];
                    assert((q as int) < n - 1 && self.edge_matches(q as int, base, lt, pref));
                } else {
                    assert(self.links.len() == self.links@.len());
                    assert(self.edge_matches(n - 1, base, lt, pref));
                    assert(cur[k] == (n - 1) as usize);
                }
            }
        }
    }

    /// The first matching edge at address `k` or beyond that points at
    /// `target`, if any.
    pub open spec fn first_edge_to_from(
        self,
        base: Anchor,
        lt: u64,
        pref: Option<Seq<u8>>,
        target: Anchor,
        k: int,
    ) -> Option<usize>
        decreases self.links@.len() - k,
    {
        if k < 0 || k >= self.links@.len() {
            None
        } else if self.edge_matches(k, base, lt, pref) && self.links@[k].target == target {
            Some(k as usize)
        } else {
            self.first_edge_to_from(base, lt, pref, target, k + 1)
        }
    }

    /// The first matching edge that points at `target`, if any.
    pub open spec fn first_edge_to(self, base: Anchor, lt: u64, pref: Option<Seq<u8>>, target: Anchor) -> Option<usize> {
        self.first_edge_to_from(base, lt, pref, target, 0)
    }

    /// Like `first_edge_to_from`, but pretending the edge at `ex` is
    /// already gone — the state of the index right after that edge is
    /// deleted, without naming the intermediate store.
    pub open spec fn first_edge_to_except_from(
        self,
        base: Anchor,
        lt: u64,
        pref: Option<Seq<u8>>,
        target: Anchor,
        ex: usize,
        k: int,
    ) -> Option<usize>
        decreases self.links@.len() - k,
    {
        if k < 0 || k >= self.links@.len() {
            None
        } else if k != ex && self.edge_matches(k, base, lt, pref) && self.links@[k].target
            == target {
            Some(k as usize)
        } else {
            self.first_edge_to_except_from(base, lt, pref, target, ex, k + 1)
        }
    }

    /// The first matching edge pointing at `target`, not counting `ex`.
    pub open spec fn first_edge_to_except(
        self,
        base: Anchor,
        lt: u64,
        pref: Option<Seq<u8>>,
        target: Anchor,
        ex: usize,
    ) -> Option<usize> {
        self.first_edge_to_except_from(base, lt, pref, target, ex, 0)
    }

    /// What `first_edge_to_from` finds, characterized: the minimal matching
    /// address at or beyond `k`, or nothing when no edge matches.
    pub proof fn lemma_first_edge_char(
        self,
        base: Anchor,
        lt: u64,
        pref: Option<Seq<u8>>,
        target: Anchor,
        k: int,
    )
        requires
            0 <= k,
        ensures
            match self.first_edge_to_from(base, lt, pref, target, k) {
                Some(m) => {
                    &&& k <= m < self.links@.len()
                    &&& self.edge_matches(m as int, base, lt, pref)
                    &&& self.links@[m as int].target == target
                    &&& forall|i: int|
                        k <= i < m ==> !(self.edge_matches(i, base, lt, pref) && self.links@[i].target
                            == target)
                },
                None => forall|i: int|
                    k <= i < self.links@.len() ==> !(self.edge_matches(i, base, lt, pref)
                        && self.links@[i].target == target),
            },
        decreases self.links@.len() - k,
    {
        assert(self.links.len() == self.links@.len());
        if k < self.links@.len() {
            if !(self.edge_matches(k, base, lt, pref) && self.links@[k].target == target) {
                self.lemma_first_edge_char(base, lt, pref, target, k + 1);
            }
        }
    }

    /// What `first_edge_to_except_from` finds, characterized in the same
    /// way, with `ex` excluded.
    pub proof fn lemma_first_edge_except_char(
        self,
        base: Anchor,
        lt: u64,
        pref: Option<Seq<u8>>,
        target: Anchor,
        ex: usize,
        k: int,
    )
        requires
            0 <= k,
        ensures
            match self.first_edge_to_except_from(base, lt, pref, target, ex, k) {
                Some(m) => {
                    &&& k <= m < self.links@.len()
                    &&& m != ex
                    &&& self.edge_matches(m as int, base, lt, pref)
                    &&& self.links@[m as int].target == target
                    &&& forall|i: int|
                        k <= i < m ==> !(i != ex && self.edge_matches(i, base, lt, pref)
                            && self.links@[i].target == target)
                },
                None => forall|i: int|
                    k <= i < self.links@.len() ==> !(i != ex && self.edge_matches(i, base, lt, pref)
                        && self.links@[i].target == target),
            },
        decreases self.links@.len() - k,
    {
        assert(self.links.len() == self.links@.len());
        if k < self.links@.len() {
            if !(k != ex && self.edge_matches(k, base, lt, pref) && self.links@[k].target
                == target) {
                self.lemma_first_edge_except_char(base, lt, pref, target, ex, k + 1);
            }
        }
    }

    /// Query the live edges under a base, filtered by type and tag prefix.
    /// Returns their addresses in address order.
    pub fn query_edges(&self, q: &GetLinksInput) -> (r: Vec<usize>)
        requires
            self.wf(),
        ensures
            r@ == self.edges_matching(q.base, q.link_type, q.tag_prefix_view()),
    {
        let n = self.links.len();
        let mut r: Vec<usize> = Vec::new();
        let mut i: usize = 0;
        while i < n
            invariant
                self.wf(),
                n == self.links@.len(),
                i <= n,
                r@ == self.edges_matching_up_to(q.base, q.link_type, q.tag_prefix_view(), i as int),
            decreases n - i,
        {
            let link = &self.links[i];
            let live = !self.links_retired[i];
            let tag_ok = match &q.tag_prefix {
                Option::None => true,
                Option::Some(p) => is_prefix(p, &link.tag),
            };
            if live && anchor_eq(&link.base, &q.base) && link.link_type == q.link_type && tag_ok {
                r.push(i);
            }
            i += 1;
        }
        r
    }

    /// Borrow the edge at an address.
    pub fn get_link(&self, addr: usize) -> (r: &Link)
        requires
            addr < self.links@.len(),
        ensures
            *r == self.links@[addr as int],
    {
        &self.links[addr]
    }
}

} // verus!
