//! Entities: the mutable-looking, identifiable view reconstructed over an
//! immutable record chain, and the typed link index between them.

use vstd::prelude::*;
use crate::errors::UtilsError;
use crate::store::{
    Anchor, Store, TypeSlot, edge_created, edge_deleted, tag_matches, tag_pref_view, tag_view,
    anchor_eq, is_prefix,
};

verus! {

/// The capability a content type must supply to live in the store: it
/// declares the type slot it owns, names itself, and converts to and from
/// the store's wire representation.
pub trait EntryModel: Sized {
    /// The structural-type slot this type owns.
    spec fn slot_spec() -> TypeSlot;

    /// The type's name.
    spec fn name_spec() -> Seq<char>;

    /// The type tag carried by entities of this content type.
    spec fn ctype_spec() -> Seq<char>;

    /// The wire form of a value.
    spec fn wire_spec(self) -> Seq<u8>;

    /// What a byte sequence deserializes to, if anything.
    spec fn parse_spec(b: Seq<u8>) -> Option<Self>;

    /// The round trip law every content type owes: a value serialized and
    /// deserialized again is the same value.
    proof fn lemma_wire_roundtrip(v: Self)
        ensures
            Self::parse_spec(v.wire_spec()) == Some(v),
    ;

    /// The slot this type owns.
    fn type_slot() -> (s: TypeSlot)
        ensures
            s == Self::slot_spec(),
    ;

    /// The type's name.
    fn name() -> (r: String)
        ensures
            r@ == Self::name_spec(),
    ;

    /// The type tag for an entity holding this value.
    fn get_type(&self) -> (s: String)
        ensures
            s@ == Self::ctype_spec(),
    ;

    /// Serialize into the store's wire representation.
    fn to_wire(&self) -> (b: Vec<u8>)
        ensures
            b@ == self.wire_spec(),
    ;

    /// Deserialize from the store's wire representation.
    fn from_wire(b: &Vec<u8>) -> (r: Option<Self>)
        ensures
            r == Self::parse_spec(b@),
    ;
}

/// The context and content of a specific entry: the externally visible,
/// recomputed-on-every-read projection of a record chain.
#[derive(Clone, Debug, PartialEq, Eq)]
pub struct Entity<T> {
    /// The address of the original create record.  Never changes for the
    /// lifetime of the entity.
    pub id: usize,
    /// The create or update record behind the currently-read state.
    pub action: usize,
    /// The content address of the currently-read value.
    pub address: usize,
    /// An identifier for the content's type and structure, derived from the
    /// content itself.
    pub ctype: String,
    /// The entity's current value.
    pub content: T,
}

/// A content type for reads where the content itself is irrelevant: any
/// bytes deserialize to it.
#[derive(Clone, Copy, Debug, PartialEq, Eq, Structural)]
pub struct Empty {}

/// A general-use entity for deserializing any entity when the content is
/// not relevant.
pub type EmptyEntity = Entity<Empty>;

impl EntryModel for Empty {
    open spec fn slot_spec() -> TypeSlot {
        TypeSlot { zome: 0, entry_def: 0 }
    }

    open spec fn name_spec() -> Seq<char> {
        "Empty"@
    }

    open spec fn ctype_spec() -> Seq<char> {
        "empty"@
    }

    open spec fn wire_spec(self) -> Seq<u8> {
        Seq::empty()
    }

    open spec fn parse_spec(b: Seq<u8>) -> Option<Empty> {
        Some(Empty {})
    }

    proof fn lemma_wire_roundtrip(v: Empty) {
    }

    fn type_slot() -> TypeSlot {
        TypeSlot { zome: 0, entry_def: 0 }
    }

    fn name() -> String {
        "Empty".to_owned()
    }

    fn get_type(&self) -> String {
        "empty".to_owned()
    }

    fn to_wire(&self) -> Vec<u8> {
        Vec::new()
    }

    fn from_wire(b: &Vec<u8>) -> Option<Empty> {
        Some(Empty {})
    }
}

/// A one-byte counter: the simplest content type with a fallible wire form.
/// Its wire representation is exactly one byte.
#[derive(Clone, Copy, Debug, PartialEq, Eq, Structural)]
pub struct CounterEntry {
    pub count: u8,
}

impl EntryModel for CounterEntry {
    open spec fn slot_spec() -> TypeSlot {
        TypeSlot { zome: 1, entry_def: 0 }
    }

    open spec fn name_spec() -> Seq<char> {
        "Counter"@
    }

    open spec fn ctype_spec() -> Seq<char> {
        "counter"@
    }

    open spec fn wire_spec(self) -> Seq<u8> {
        seq![self.count]
    }

    open spec fn parse_spec(b: Seq<u8>) -> Option<CounterEntry> {
        if b.len() == 1 {
            Some(CounterEntry { count: b[0] })
        } else {
            None
        }
    }

    proof fn lemma_wire_roundtrip(v: CounterEntry) {
    }

    fn type_slot() -> TypeSlot {
        TypeSlot { zome: 1, entry_def: 0 }
    }

    fn name() -> String {
        "Counter".to_owned()
    }

    fn get_type(&self) -> String {
        "counter".to_owned()
    }

    fn to_wire(&self) -> (b: Vec<u8>)
        ensures
            b@ == self.wire_spec(),
    {
        let mut b: Vec<u8> = Vec::new();
        b.push(self.count);
        proof {
            assert(b@ =~= seq![self.count]);
        }
        b
    }

    fn from_wire(b: &Vec<u8>) -> Option<CounterEntry> {
        if b.len() == 1 {
            Some(CounterEntry { count: b[0] })
        } else {
            None
        }
    }
}

/// A one-byte gauge, deliberately wire-compatible with [`CounterEntry`]
/// while owning a different slot: bytes that deserialize as one also
/// deserialize as the other, and only the declared slot tells them apart.
#[derive(Clone, Copy, Debug, PartialEq, Eq, Structural)]
pub struct GaugeEntry {
    pub level: u8,
}

impl EntryModel for GaugeEntry {
    open spec fn slot_spec() -> TypeSlot {
        TypeSlot { zome: 1, entry_def: 1 }
    }

    open spec fn name_spec() -> Seq<char> {
        "Gauge"@
    }

    open spec fn ctype_spec() -> Seq<char> {
        "gauge"@
    }

    open spec fn wire_spec(self) -> Seq<u8> {
        seq![self.level]
    }

    open spec fn parse_spec(b: Seq<u8>) -> Option<GaugeEntry> {
        if b.len() == 1 {
            Some(GaugeEntry { level: b[0] })
        } else {
            None
        }
    }

    proof fn lemma_wire_roundtrip(v: GaugeEntry) {
    }

    fn type_slot() -> TypeSlot {
        TypeSlot { zome: 1, entry_def: 1 }
    }

    fn name() -> String {
        "Gauge".to_owned()
    }

    fn get_type(&self) -> String {
        "gauge".to_owned()
    }

    fn to_wire(&self) -> (b: Vec<u8>)
        ensures
            b@ == self.wire_spec(),
    {
        let mut b: Vec<u8> = Vec::new();
        b.push(self.level);
        proof {
            assert(b@ =~= seq![self.level]);
        }
        b
    }

    fn from_wire(b: &Vec<u8>) -> Option<GaugeEntry> {
        if b.len() == 1 {
            Some(GaugeEntry { level: b[0] })
        } else {
            None
        }
    }
}

/// Scan for the first live edge matching `(base, link_type, tag_prefix)`
/// whose target is `target`, in address order.
fn find_edge_to(
    store: &Store,
    base: &Anchor,
    link_type: u64,
    tag_prefix: &Option<Vec<u8>>,
    target: &Anchor,
) -> (r: Option<usize>)
    requires
        store.wf(),
    ensures
        r == store.first_edge_to(*base, link_type, opt_bytes_view(*tag_prefix), *target),
{
    let ghost pref = opt_bytes_view(*tag_prefix);
    let n = store.links.len();
    let mut i: usize = 0;
    while i < n
        invariant
            store.wf(),
            pref == opt_bytes_view(*tag_prefix),
            n == store.links@.len(),
            i <= n,
            forall|j: int|
                0 <= j < i ==> !(store.edge_matches(j, *base, link_type, pref)
                    && store.links@[j].target == *target),
        decreases n - i,
    {
        let link = store.get_link(i);
        let live = !store.links_retired[i];
        let tag_ok = match tag_prefix {
            Option::None => true,
            Option::Some(p) => is_prefix(p, &link.tag),
        };
        if live && anchor_eq(&link.base, base) && link.link_type == link_type && tag_ok
            && anchor_eq(&link.target, target) {
            proof {
                assert(store.link_live(i as int));
                assert(store.links@[i as int].base == *base);
                assert(store.links@[i as int].link_type == link_type);
                assert(tag_matches(store.links@[i as int].tag@, pref));
                assert(store.edge_matches(i as int, *base, link_type, pref));
                assert(store.links@[i as int].target == *target);
                store.lemma_first_edge_char(*base, link_type, pref, *target, 0);
                match store.first_edge_to(*base, link_type, pref, *target) {
                    Some(m) => {
                        if (m as int) < i as int {
                            assert(!(store.edge_matches(m as int, *base, link_type, pref)
                                && store.links@[m as int].target == *target));
                        }
                        if (i as int) < m as int {
                            assert(!(store.edge_matches(i as int, *base, link_type, pref)
                                && store.links@[i as int].target == *target));
                        }
                        assert(m == i);
                    },
                    None => {
                        assert(!(store.edge_matches(i as int, *base, link_type, pref)
                            && store.links@[i as int].target == *target));
                    },
                }
            }
            return Some(i);
        }
        i += 1;
    }
    proof {
        store.lemma_first_edge_char(*base, link_type, pref, *target, 0);
        match store.first_edge_to(*base, link_type, pref, *target) {
            Some(m) => {
                assert(!(store.edge_matches(m as int, *base, link_type, pref)
                    && store.links@[m as int].target == *target));
            },
            None => {},
        }
    }
    None
}

/// An optional byte vector read as an optional byte-sequence filter.
pub open spec fn opt_bytes_view(t: Option<Vec<u8>>) -> Option<Seq<u8>> {
    tag_pref_view(t)
}

/// How a completed re-base that had to append a fresh edge relates the
/// store before to the store after: the stale edge `f` is retired, and one
/// new edge from `base` to `target` is appended.
pub open spec fn relinked_new(
    pre: Store,
    post: Store,
    f: usize,
    base: Anchor,
    target: Anchor,
    lt: u64,
    tag: Seq<u8>,
    r: usize,
) -> bool {
    &&& r == pre.links@.len()
    &&& post.links@.len() == pre.links@.len() + 1
    &&& (forall|i: int| 0 <= i < pre.links@.len() ==> post.links@[i] == pre.links@[i])
    &&& post.links@[r as int].base == base
    &&& post.links@[r as int].target == target
    &&& post.links@[r as int].link_type == lt
    &&& post.links@[r as int].tag@ == tag
    &&& post.links@[r as int].timestamp == pre.now
    &&& post.links_retired@ == pre.links_retired@.update(f as int, true).push(false)
    &&& post.records@ == pre.records@
    &&& post.retired@ == pre.retired@
    &&& post.entries_view() == pre.entries_view()
    &&& post.now == pre.now
}

impl<T> Entity<T> {
    /// Link this entity under the given base anchor: creates an edge from
    /// `base` to the entity's identity, with the given tag.
    pub fn link_from(
        &self,
        store: &mut Store,
        base: &Anchor,
        link_type: u64,
        tag_input: Option<Vec<u8>>,
    ) -> (r: usize)
        requires
            old(store).wf(),
        ensures
            final(store).wf(),
            edge_created(
                *old(store),
                *final(store),
                *base,
                Anchor::Action(self.id),
                link_type,
                tag_view(tag_input),
                r,
            ),
    {
        let tag: Vec<u8> = match tag_input {
            Option::None => Vec::new(),
            Option::Some(t) => t,
        };
        store.create_edge(*base, Anchor::Action(self.id), link_type, tag)
    }

    /// Link the given target under this entity: creates an edge from the
    /// entity's identity to `target`, with the given tag.
    pub fn link_to(
        &self,
        store: &mut Store,
        target: &Anchor,
        link_type: u64,
        tag_input: Option<Vec<u8>>,
    ) -> (r: usize)
        requires
            old(store).wf(),
        ensures
            final(store).wf(),
            edge_created(
                *old(store),
                *final(store),
                Anchor::Action(self.id),
                *target,
                link_type,
                tag_view(tag_input),
                r,
            ),
    {
        let tag: Vec<u8> = match tag_input {
            Option::None => Vec::new(),
            Option::Some(t) => t,
        };
        store.create_edge(Anchor::Action(self.id), *target, link_type, tag)
    }

    /// Move this entity's edge from one base anchor to another.
    ///
    /// Looks up the edges under `current_base` matching the type and tag
    /// filter; the first one pointing at this entity is deleted.  If none
    /// points at it, the move fails with `UnexpectedState` — a consistency
    /// violation, never a silent create — and the store is untouched.  Then,
    /// if an edge to this entity already hangs under `new_base`, its address
    /// is returned as a no-op (idempotent convergence); otherwise a fresh
    /// edge is created there.  The delete and the create are two separate
    /// store submissions: a concurrent reader may observe the entity
    /// attached to neither base in between.  That window is inherited from
    /// the store's append-only interface and deliberately left open.
    pub fn move_link_from(
        &self,
        store: &mut Store,
        link_type: u64,
        tag_input: Option<Vec<u8>>,
        current_base: &Anchor,
        new_base: &Anchor,
    ) -> (r: Result<usize, UtilsError>)
        requires
            old(store).wf(),
        ensures
            final(store).wf(),
            ({
                let me = Anchor::Action(self.id);
                let pref = opt_bytes_view(tag_input);
                match old(store).first_edge_to(*current_base, link_type, pref, me) {
                    None => r == Err::<usize, UtilsError>(UtilsError::UnexpectedState)
                        && *final(store) == *old(store),
                    Some(f) => match old(store).first_edge_to_except(
                        *new_base,
                        link_type,
                        pref,
                        me,
                        f,
                    ) {
                        Some(e) => r == Ok::<usize, UtilsError>(e) && edge_deleted(
                            *old(store),
                            *final(store),
                            f,
                        ),
                        None => (r matches Ok(nl) && relinked_new(
                            *old(store),
                            *final(store),
                            f,
                            *new_base,
                            me,
                            link_type,
                            tag_view(tag_input),
                            nl,
                        )),
                    },
                }
            }),
    {
        let me = Anchor::Action(self.id);
        let ghost pref = opt_bytes_view(tag_input);
        let found = find_edge_to(store, current_base, link_type, &tag_input, &me);
        let f = match found {
            Option::None => {
                return Err(UtilsError::UnexpectedState);
            },
            Option::Some(f) => f,
        };
        proof {
            old(store).lemma_first_edge_char(*current_base, link_type, pref, me, 0);
        }
        store.delete_edge(f);
        let ghost mid = *store;
        let existing = find_edge_to(store, new_base, link_type, &tag_input, &me);
        proof {
            lemma_first_edge_after_delete(*old(store), mid, f, *new_base, link_type, pref, me);
        }
        match existing {
            Option::Some(e) => Ok(e),
            Option::None => {
                let nl = self.link_from(store, new_base, link_type, tag_input);
                proof {
                    assert(store.links_retired@ =~= old(store).links_retired@.update(
                        f as int,
                        true,
                    ).push(false));
                }
                Ok(nl)
            },
        }
    }
}

/// Deleting one edge shifts nothing: what a query-and-pick finds afterwards
/// is exactly what it would have found before with that edge excluded.
pub proof fn lemma_first_edge_after_delete(
    pre: Store,
    post: Store,
    f: usize,
    base: Anchor,
    lt: u64,
    pref: Option<Seq<u8>>,
    target: Anchor,
)
    requires
        pre.wf(),
        (f as int) < pre.links@.len(),
        edge_deleted(pre, post, f),
    ensures
        post.first_edge_to(base, lt, pref, target) == pre.first_edge_to_except(
            base,
            lt,
            pref,
            target,
            f,
        ),
{
    pre.lemma_first_edge_except_char(base, lt, pref, target, f, 0);
    post.lemma_first_edge_char(base, lt, pref, target, 0);
    assert(forall|i: int|
        0 <= i < post.links@.len() && i != f ==> post.edge_matches(i, base, lt, pref)
            == pre.edge_matches(i, base, lt, pref));
    assert(!post.link_live(f as int));
    match post.first_edge_to(base, lt, pref, target) {
        Some(m) => {
            assert(m != f);
            assert(pre.edge_matches(m as int, base, lt, pref));
            match pre.first_edge_to_except(base, lt, pref, target, f) {
                Some(e) => {
                    assert(post.edge_matches(e as int, base, lt, pref));
                    if e < m {
                        assert(!(e != f && pre.edge_matches(e as int, base, lt, pref)
                            && pre.links@[e as int].target == target));
                    }
                    if m < e {
                        assert(!(m != f && pre.edge_matches(m as int, base, lt, pref)
                            && pre.links@[m as int].target == target));
                    }
                    assert(e == m);
                },
                None => {
                    assert(!(m != f && pre.edge_matches(m as int, base, lt, pref)
                        && pre.links@[m as int].target == target));
                },
            }
        },
        None => {
            match pre.first_edge_to_except(base, lt, pref, target, f) {
                Some(e) => {
                    assert(post.edge_matches(e as int, base, lt, pref));
                    assert(!(post.edge_matches(e as int, base, lt, pref)
                        && post.links@[e as int].target == target));
                },
                None => {},
            }
        },
    }
}

/// The re-base idempotence law.
///
/// Setting: the entity hangs under `new_base` already (edge `e`), while
/// stale edges to it still hang under `cur_base`.  A re-base finds stale
/// edge `f` and deletes it, then returns the existing edge `e` under
/// `new_base` without creating anything.  A second re-base in that state —
/// possible whenever another stale edge `f2` still hangs under `cur_base` —
/// again returns exactly `e`, and the set of edges from `new_base` to the
/// entity after both calls is still exactly `{e}`: re-basing converges
/// instead of piling up edges.
pub proof fn lemma_rebase_idempotent(
    s0: Store,
    s1: Store,
    s2: Store,
    me: Anchor,
    cur_base: Anchor,
    new_base: Anchor,
    lt: u64,
    pref: Option<Seq<u8>>,
    f: usize,
    e: usize,
    f2: usize,
)
    requires
        s0.wf(),
        cur_base != new_base,
        s0.first_edge_to(cur_base, lt, pref, me) == Some(f),
        s0.first_edge_to_except(new_base, lt, pref, me, f) == Some(e),
        forall|i: int|
            s0.edge_matches(i, new_base, lt, pref) && s0.links@[i].target == me ==> i == e,
        edge_deleted(s0, s1, f),
        s1.first_edge_to(cur_base, lt, pref, me) == Some(f2),
        edge_deleted(s1, s2, f2),
    ensures
        s1.first_edge_to_except(new_base, lt, pref, me, f2) == Some(e),
        forall|i: int|
            (s2.edge_matches(i, new_base, lt, pref) && s2.links@[i].target == me) <==> i == e,
{
    s0.lemma_first_edge_char(cur_base, lt, pref, me, 0);
    s0.lemma_first_edge_except_char(new_base, lt, pref, me, f, 0);
    s1.lemma_first_edge_char(cur_base, lt, pref, me, 0);
    s1.lemma_first_edge_except_char(new_base, lt, pref, me, f2, 0);
    // The stale edges hang under the old base, so neither can be `e`.
    assert(s0.links@[f as int].base == cur_base);
    assert(s1.links@[f2 as int].base == cur_base);
    assert(s0.edge_matches(e as int, new_base, lt, pref));
    assert(s0.links@[e as int].base == new_base);
    assert(e != f && e != f2);
    // Deleting edges under the old base leaves the new base's edges alone.
    assert(s1.links@ == s0.links@);
    assert(s2.links@ == s0.links@);
    assert(s1.edge_matches(e as int, new_base, lt, pref));
    assert(s2.edge_matches(e as int, new_base, lt, pref));
    // The second call again finds exactly `e` under the new base.
    match s1.first_edge_to_except(new_base, lt, pref, me, f2) {
        Some(m) => {
            assert(s1.edge_matches(m as int, new_base, lt, pref));
            assert(s0.edge_matches(m as int, new_base, lt, pref));
            assert(m == e);
        },
        None => {
            assert(!(e != f2 && s1.edge_matches(e as int, new_base, lt, pref)
                && s1.links@[e as int].target == me));
        },
    }
    // After both deletions, the new base still holds exactly `e`.
    assert forall|i: int|
        (s2.edge_matches(i, new_base, lt, pref) && s2.links@[i].target == me) <==> i == e by {
        if s2.edge_matches(i, new_base, lt, pref) && s2.links@[i].target == me {
            assert(s0.edge_matches(i, new_base, lt, pref));
        }
    }
}

/// The re-base relocation law.
///
/// Setting: exactly one edge under `cur_base` points at the entity, and
/// none under `new_base`.  A successful re-base deletes the one stale edge
/// and appends one fresh edge.  Afterwards exactly the fresh edge hangs
/// under `new_base`, and nothing under `cur_base` points at the entity any
/// more: the edge has moved, not multiplied.
pub proof fn lemma_rebase_moves(
    s0: Store,
    s1: Store,
    me: Anchor,
    cur_base: Anchor,
    new_base: Anchor,
    lt: u64,
    pref: Option<Seq<u8>>,
    tag: Seq<u8>,
    f: usize,
    nl: usize,
)
    requires
        s0.wf(),
        cur_base != new_base,
        tag_matches(tag, pref),
        s0.first_edge_to(cur_base, lt, pref, me) == Some(f),
        s0.first_edge_to_except(new_base, lt, pref, me, f) == None::<usize>,
        forall|i: int|
            s0.edge_matches(i, cur_base, lt, pref) && s0.links@[i].target == me ==> i == f,
        relinked_new(s0, s1, f, new_base, me, lt, tag, nl),
    ensures
        forall|i: int|
            (s1.edge_matches(i, new_base, lt, pref) && s1.links@[i].target == me) <==> i == nl,
        forall|i: int|
            !(s1.edge_matches(i, cur_base, lt, pref) && s1.links@[i].target == me),
{
    s0.lemma_first_edge_char(cur_base, lt, pref, me, 0);
    s0.lemma_first_edge_except_char(new_base, lt, pref, me, f, 0);
    assert(s0.links.len() == s0.links@.len());
    assert(s1.links_retired@.len() == s1.links@.len());
    assert(s1.link_live(nl as int));
    assert(s1.edge_matches(nl as int, new_base, lt, pref));
    assert forall|i: int|
        (s1.edge_matches(i, new_base, lt, pref) && s1.links@[i].target == me) <==> i == nl by {
        if i != nl && s1.edge_matches(i, new_base, lt, pref) && s1.links@[i].target == me {
            assert(0 <= i < s0.links@.len());
            assert(s1.links@[i] == s0.links@[i]);
            assert(s1.links_retired@[i] == s0.links_retired@[i]);
            assert(s0.edge_matches(i, new_base, lt, pref));
            assert(!(i != f && s0.edge_matches(i, new_base, lt, pref) && s0.links@[i].target
                == me));
            assert(i == f);
            assert(s0.links@[f as int].base == cur_base);
        }
    }
    assert forall|i: int|
        !(s1.edge_matches(i, cur_base, lt, pref) && s1.links@[i].target == me) by {
        if s1.edge_matches(i, cur_base, lt, pref) && s1.links@[i].target == me {
            if i == nl {
                assert(s1.links@[i].base == new_base);
            } else {
                assert(0 <= i < s0.links@.len());
                assert(s1.links@[i] == s0.links@[i]);
                if i == f {
                    assert(s1.links_retired@[f as int]);
                } else {
                    assert(s1.links_retired@[i] == s0.links_retired@[i]);
                    assert(s0.edge_matches(i, cur_base, lt, pref));
                }
            }
        }
    }
}

/// The address of the most recently stamped edge among `es`: the maximum
/// timestamp wins, and on exact equality the first-encountered edge in
/// input order wins.
pub open spec fn latest_winner(s: Store, es: Seq<usize>) -> usize
    recommends
        es.len() > 0,
    decreases es.len(),
{
    if es.len() <= 1 {
        es[0]
    } else {
        let w = latest_winner(s, es.drop_last());
        if s.links@[es.last() as int].timestamp > s.links@[w as int].timestamp {
            es.last()
        } else {
            w
        }
    }
}

/// What `find_latest` returns: the winning edge address, or nothing when
/// there are no edges.
pub open spec fn find_latest_spec(s: Store, es: Seq<usize>) -> Option<usize> {
    if es.len() == 0 {
        None
    } else {
        Some(latest_winner(s, es))
    }
}

/// The latest winner is one of the edges, carries the maximal timestamp,
/// and is the first edge to carry it.
pub proof fn lemma_latest_winner_is_first_max(s: Store, es: Seq<usize>)
    requires
        es.len() > 0,
    ensures
        exists|j: int|
            0 <= j < es.len() && es[j] == latest_winner(s, es) && forall|k: int|
                0 <= k < j ==> s.links@[#[trigger] es[k] as int].timestamp < s.links@[latest_winner(
                    s,
                    es,
                ) as int].timestamp,
        forall|k: int|
            0 <= k < es.len() ==> s.links@[#[trigger] es[k] as int].timestamp <= s.links@[latest_winner(
                s,
                es,
            ) as int].timestamp,
    decreases es.len(),
{
    let w = latest_winner(s, es);
    if es.len() == 1 {
        assert(es[0] == w);
    } else {
        let d = es.drop_last();
        lemma_latest_winner_is_first_max(s, d);
        let last = es.len() - 1;
        if s.links@[es.last() as int].timestamp > s.links@[latest_winner(s, d) as int].timestamp {
            assert(w == es[last]);
            assert forall|k: int|
                0 <= k < last implies s.links@[#[trigger] es[k] as int].timestamp < s.links@[w as int].timestamp by {
                assert(d[k] == es[k]);
            }
            assert(es[last] == w && forall|k: int|
                0 <= k < last ==> s.links@[#[trigger] es[k] as int].timestamp < s.links@[w as int].timestamp);
        } else {
            assert(w == latest_winner(s, d));
            let j = choose|j: int|
                0 <= j < d.len() && d[j] == latest_winner(s, d) && forall|k: int|
                    0 <= k < j ==> s.links@[#[trigger] d[k] as int].timestamp < s.links@[latest_winner(
                        s,
                        d,
                    ) as int].timestamp;
            assert(es[j] == d[j]);
            assert forall|k: int|
                0 <= k < j implies s.links@[#[trigger] es[k] as int].timestamp < s.links@[w as int].timestamp by {
                assert(d[k] == es[k]);
            }
            assert(es[j] == w && forall|k: int|
                0 <= k < j ==> s.links@[#[trigger] es[k] as int].timestamp < s.links@[w as int].timestamp);
        }
        assert forall|k: int|
            0 <= k < es.len() implies s.links@[#[trigger] es[k] as int].timestamp <= s.links@[w as int].timestamp by {
            if k < last {
                assert(d[k] == es[k]);
            }
        }
    }
}

/// Among duplicate edges, select the one with the maximum timestamp — used
/// when a caller wants edge-uniqueness-by-recency semantics.  On equal
/// timestamps the first edge in input order wins, so the selection is
/// stable for a fixed input ordering.
pub fn find_latest(store: &Store, edges: &Vec<usize>) -> (r: Option<usize>)
    requires
        forall|k: int| 0 <= k < edges@.len() ==> (#[trigger] edges@[k] as int) < store.links@.len(),
    ensures
        r == find_latest_spec(*store, edges@),
{
    if edges.len() == 0 {
        return None;
    }
    let mut best: usize = edges[0];
    let mut i: usize = 1;
    while i < edges.len()
        invariant
            1 <= i <= edges@.len(),
            edges@.len() > 0,
            forall|k: int| 0 <= k < edges@.len() ==> (#[trigger] edges@[k] as int)
                < store.links@.len(),
            best == latest_winner(*store, edges@.take(i as int)),
            (best as int) < store.links@.len(),
        decreases edges@.len() - i,
    {
        let a = edges[i];
        proof {
            assert(edges@.take(i as int + 1).drop_last() =~= edges@.take(i as int));
            assert(edges@.take(i as int + 1).last() == edges@[i as int]);
        }
        if store.get_link(a).timestamp > store.get_link(best).timestamp {
            best = a;
        }
        i += 1;
    }
    proof {
        assert(edges@.take(edges@.len() as int) =~= edges@);
    }
    Some(best)
}

} // verus!
