//! A CRUD layer over an append-only, content-addressed record store.
//!
//! The store itself (replication, validation, persistence) is an external
//! collaborator; this crate models it as an explicit [`store::Store`] value
//! and verifies the logic built on top of it: resolving the canonical latest
//! version of an entity whose history may branch into concurrent updates,
//! guarding reads against cross-type deserialization, and maintaining a
//! typed, tagged link index between entities.
//!
//! An entity's identity is the address of its originating create record —
//! one of the two conventions found in this design's history, adopted here
//! throughout: content addresses change with every content change, record
//! addresses do not.

use vstd::prelude::*;

pub mod entities;
pub mod errors;
pub mod resolver;
pub mod store;
pub mod utils;

pub use entities::{Empty, EmptyEntity, Entity, EntryModel};
pub use errors::{UtilsError, UtilsResult};
pub use store::Store;
pub use utils::{create_link_input, now, to_entry_type};

use crate::store::{Anchor, Record, RecordKind};
use crate::store::{submitted_create, submitted_delete, submitted_update};
use crate::utils::{checked_value, type_check_ok, type_check_result};

verus! {

/// The wire input of a read request: the entity's identity.
#[derive(Clone, Copy, Debug, PartialEq, Eq, Structural)]
pub struct GetEntityInput {
    pub id: usize,
}

/// The wire input of an update request: the record to supersede, and the
/// new properties.
#[derive(Clone, Debug, PartialEq, Eq)]
pub struct UpdateEntityInput<T> {
    pub base: usize,
    pub properties: T,
}

impl<T> UpdateEntityInput<T> {
    /// Bundle an update request.
    pub fn new(base: usize, properties: T) -> (r: UpdateEntityInput<T>)
        ensures
            r.base == base,
            r.properties == properties,
    {
        UpdateEntityInput { base, properties }
    }
}

/// Whether reading the entity identified by `id` as `T` succeeds: the
/// identity is a live create record, the canonical latest version is live,
/// and its content type-checks as `T`.
pub open spec fn get_ok<T: EntryModel>(s: Store, id: int) -> bool {
    &&& s.live(id)
    &&& s.record_at(id).kind matches RecordKind::Create { .. }
    &&& s.live(s.latest_of(id) as int)
    &&& type_check_ok::<T>(s, s.latest_of(id) as int)
}

/// What a successful read of the entity identified by `id` returns: its
/// stable identity, the canonical latest record and its content address,
/// and the deserialized, type-checked value.
pub open spec fn entity_matches<T: EntryModel>(s: Store, id: int, e: Entity<T>) -> bool {
    let latest = s.latest_of(id) as int;
    &&& e.id == id
    &&& e.action == s.latest_of(id)
    &&& (s.record_entry_info(latest) matches Some(info) && e.address == info.1)
    &&& e.ctype@ == T::ctype_spec()
    &&& e.content == checked_value::<T>(s, latest)
}

/// Create a new entity: computes the content address of `entry`, submits a
/// create record, and returns the entity.  The new record is both the
/// entity's identity and its current action.  No link is attached here;
/// callers attach links explicitly.
pub fn create_entity<T: EntryModel>(store: &mut Store, entry: T) -> (e: Entity<T>)
    requires
        old(store).wf(),
    ensures
        final(store).wf(),
        submitted_create(*old(store), *final(store), T::slot_spec(), entry.wire_spec(), e.action),
        e.id == e.action,
        e.action == old(store).records@.len(),
        e.address == old(store).content_address(entry.wire_spec()),
        e.ctype@ == T::ctype_spec(),
        e.content == entry,
{
    let wire = entry.to_wire();
    let addr = store.submit_create(T::type_slot(), wire);
    let address = match store.records[addr].kind {
        RecordKind::Create { slot: _, entry } => entry,
        RecordKind::Update { slot: _, entry, original: _ } => entry,
        RecordKind::Delete { target: _ } => {
            proof {
                assert(false);
            }
            0
        },
    };
    proof {
        assert(old(store).entries@.len() == old(store).entries.len());
        assert(0 <= old(store).content_address(entry.wire_spec())
            <= old(store).entries@.len());
    }
    let ctype = entry.get_type();
    Entity { id: addr, action: addr, address, ctype, content: entry }
}

/// The creation law: a freshly created entity read back by its identity is
/// returned unchanged — same identity, same action, same content address,
/// same type tag, same content.  Holds in the store as `create_entity` left
/// it, for every content type and every value.
pub proof fn lemma_create_then_get<T: EntryModel>(pre: Store, post: Store, v: T, e: Entity<T>)
    requires
        pre.wf(),
        post.wf(),
        submitted_create(pre, post, T::slot_spec(), v.wire_spec(), e.action),
        e.id == e.action,
        e.address == pre.content_address(v.wire_spec()),
        e.ctype@ == T::ctype_spec(),
        e.content == v,
    ensures
        get_ok::<T>(post, e.id as int),
        entity_matches::<T>(post, e.id as int, e),
{
    let id = e.id as int;
    let b = v.wire_spec();
    assert(pre.records.len() == pre.records@.len());
    assert(pre.retired.len() == pre.retired@.len());
    assert(post.records@[id].kind == RecordKind::Create {
        slot: T::slot_spec(),
        entry: pre.content_address(b) as usize,
    });
    assert(post.retired@[id] == false);
    assert(post.live(id));
    // Nothing updates the new record, so it is its own canonical latest.
    assert forall|i: int|
        0 <= i < post.records@.len() implies !(#[trigger] post.records@[i].kind
        matches RecordKind::Update { original, .. } && original == id) by {
        if i < id {
            assert(pre.record_wf(i));
            assert(post.records@[i] == pre.records@[i]);
        }
    }
    post.lemma_successors_empty(id, post.records@.len() as int);
    assert(post.next_version(id) is None);
    assert(post.evolution_path(id) == seq![id as usize]);
    assert(post.latest_of(id) == e.id);
    // The interned content reads back as the value that was written.
    assert(pre.entries.len() == pre.entries@.len());
    let ca = pre.content_address(b);
    if pre.has_entry(b) {
        assert(pre.entries@[ca]@ == b);
        assert(pre.entries_view()[ca] == pre.entries@[ca]@);
        assert(post.entries_view() == pre.entries_view());
    } else {
        assert(pre.entries_view().len() == pre.entries@.len());
        assert(post.entries_view() == pre.entries_view().push(b));
        assert(post.entries_view()[ca] == b);
    }
    assert(post.entries_view().len() == post.entries@.len());
    assert(0 <= ca < post.entries@.len());
    assert(post.entries_view()[ca] == post.entries@[ca]@);
    assert(post.entry_bytes(ca) == b);
    T::lemma_wire_roundtrip(v);
    assert(post.record_entry_info(id) == Some((T::slot_spec(), ca as usize)));
    assert(type_check_ok::<T>(post, id));
    assert(checked_value::<T>(post, id) == v);
}

/// The sequential-history law at the read boundary: when one origin
/// carries a straight line of updates, reading the origin succeeds and
/// returns exactly the content of the last update — nothing earlier,
/// nothing else.
pub proof fn lemma_sequential_get<T: EntryModel>(s: Store, chain: Seq<usize>)
    requires
        s.wf(),
        chain.len() >= 1,
        forall|k: int| 0 <= k < chain.len() ==> (#[trigger] chain[k] as int) < s.records@.len(),
        s.records@[chain[0] as int].kind matches RecordKind::Create { .. },
        forall|k: int|
            0 <= k < chain.len() - 1 ==> s.successors(#[trigger] chain[k] as int) == seq![
                (s.records@[chain[k + 1] as int].timestamp, chain[k + 1]),
            ],
        s.successors(chain.last() as int) == Seq::<(u64, usize)>::empty(),
        s.live(chain[0] as int),
        s.live(chain.last() as int),
        type_check_ok::<T>(s, chain.last() as int),
    ensures
        get_ok::<T>(s, chain[0] as int),
        forall|e: Entity<T>|
            #[trigger] entity_matches::<T>(s, chain[0] as int, e) ==> e.action == chain.last()
                && e.content == checked_value::<T>(s, chain.last() as int),
{
    s.lemma_sequential_updates(chain);
    assert(s.latest_of(chain[0] as int) == chain.last());
}

/// Get an entity by its identity.
///
/// The identity must be a live create record; the canonical latest version
/// is resolved through the version resolver, fetched, and type-checked as
/// `T`.  Fails `ActionNotFoundError` when the identity or the resolved
/// record is unreachable (absent or deleted), `NotOriginEntryError` when
/// the identity is not a create record, and with the type guard's errors
/// when the content does not check out.
pub fn get_entity<T: EntryModel>(store: &Store, id: usize) -> (r: Result<Entity<T>, UtilsError>)
    requires
        store.wf(),
    ensures
        r is Ok <==> get_ok::<T>(*store, id as int),
        (r matches Ok(e) ==> entity_matches::<T>(*store, id as int, e)),
        !store.live(id as int) ==> r == Err::<Entity<T>, UtilsError>(
            UtilsError::ActionNotFoundError(id),
        ),
        store.live(id as int) && !(store.record_at(id as int).kind matches RecordKind::Create {
            ..
        }) ==> r == Err::<Entity<T>, UtilsError>(UtilsError::NotOriginEntryError(id)),
        (store.live(id as int) && store.record_at(id as int).kind matches RecordKind::Create { .. })
            ==> {
            let latest = store.latest_of(id as int);
            &&& !store.live(latest as int) ==> r == Err::<Entity<T>, UtilsError>(
                UtilsError::ActionNotFoundError(latest),
            )
            &&& store.live(latest as int) ==> match r {
                Ok(e) => type_check_result::<T>(*store, latest as int, Ok(e.content)),
                Err(x) => type_check_result::<T>(*store, latest as int, Err(x)),
            }
        },
{
    // The identity record must exist and must not have been deleted.
    match store.fetch_record(id) {
        Option::None => {
            return Err(UtilsError::ActionNotFoundError(id));
        },
        Option::Some(rec) => {
            // The identity must be a create record.
            match rec.kind {
                RecordKind::Create { slot: _, entry: _ } => {},
                _ => {
                    return Err(UtilsError::NotOriginEntryError(id));
                },
            }
        },
    }
    // Resolve the canonical latest version.
    let path = match resolver::follow_updates(store, id) {
        Ok(p) => p,
        Err(_) => {
            proof {
                assert(false);
            }
            return Err(UtilsError::ActionNotFoundError(id));
        },
    };
    proof {
        store.lemma_evolution_path_wf(id as int);
    }
    let latest = path[path.len() - 1];
    // The resolved record must itself still be reachable.
    let lrec = match store.fetch_record(latest) {
        Option::None => {
            return Err(UtilsError::ActionNotFoundError(latest));
        },
        Option::Some(rec) => rec,
    };
    // Type-check the content.
    let content: T = match to_entry_type::<T>(store, latest) {
        Ok(v) => v,
        Err(e) => {
            return Err(e);
        },
    };
    let address = match lrec.kind {
        RecordKind::Create { slot: _, entry } => entry,
        RecordKind::Update { slot: _, entry, original: _ } => entry,
        RecordKind::Delete { target: _ } => {
            proof {
                assert(false);
            }
            0
        },
    };
    let ctype = content.get_type();
    Ok(Entity { id, action: latest, address, ctype, content })
}

/// Update an entity.
///
/// The record at `addr` must exist, trace back to a create record, still be
/// reachable, and type-check as `T`.  The caller-supplied `callback`
/// receives the current value and its record and produces the new value —
/// it is the only place business rules live; this engine is policy-free.
/// On success an update record superseding `addr` is submitted and the new
/// entity is returned, its identity inherited from the chain's origin.
pub fn update_entity<T: EntryModel, F: FnOnce(T, Record) -> Result<T, UtilsError>>(
    store: &mut Store,
    addr: usize,
    callback: F,
) -> (r: Result<Entity<T>, UtilsError>)
    requires
        old(store).wf(),
        forall|v: T, rec: Record| call_requires(callback, (v, rec)),
    ensures
        final(store).wf(),
        !old(store).has_record(addr as int) ==> r == Err::<Entity<T>, UtilsError>(
            UtilsError::ActionNotFoundError(addr),
        ) && *final(store) == *old(store),
        old(store).has_record(addr as int) ==> match old(store).chain_result(addr as int) {
            Err(d) => r == Err::<Entity<T>, UtilsError>(UtilsError::RecordHasNoEntry(d))
                && *final(store) == *old(store),
            Ok(c) => {
                &&& !old(store).live(addr as int) ==> r == Err::<Entity<T>, UtilsError>(
                    UtilsError::ActionNotFoundError(addr),
                ) && *final(store) == *old(store)
                &&& (old(store).live(addr as int) && !type_check_ok::<T>(
                    *old(store),
                    addr as int,
                )) ==> (r matches Err(x) && type_check_result::<T>(*old(store), addr as int, Err(x))
                    && *final(store) == *old(store))
                &&& (old(store).live(addr as int) && type_check_ok::<T>(*old(store), addr as int))
                    ==> {
                    let cur = checked_value::<T>(*old(store), addr as int);
                    let rec = old(store).record_at(addr as int);
                    match r {
                        Ok(e) => {
                            &&& call_ensures(callback, (cur, rec), Ok::<T, UtilsError>(e.content))
                            &&& e.id == c.last().0
                            &&& e.action == old(store).records@.len()
                            &&& e.address == old(store).content_address(e.content.wire_spec())
                            &&& e.ctype@ == T::ctype_spec()
                            &&& submitted_update(
                                *old(store),
                                *final(store),
                                addr,
                                T::slot_spec(),
                                e.content.wire_spec(),
                                e.action,
                            )
                        },
                        Err(x) => call_ensures(callback, (cur, rec), Err::<T, UtilsError>(x))
                            && *final(store) == *old(store),
                    }
                }
            },
        },
{
    // Trace the update chain back to the entity's identity.
    let id = match resolver::origin_of(store, addr) {
        Ok(o) => o,
        Err(e) => {
            return Err(e);
        },
    };
    // The record being superseded must still be reachable.
    let rec = match store.fetch_record(addr) {
        Option::None => {
            return Err(UtilsError::ActionNotFoundError(addr));
        },
        Option::Some(rec) => rec,
    };
    // Type-check the current content and let the caller produce the new one.
    let current: T = match to_entry_type::<T>(store, addr) {
        Ok(v) => v,
        Err(e) => {
            return Err(e);
        },
    };
    let updated: T = match callback(current, rec) {
        Ok(v) => v,
        Err(e) => {
            return Err(e);
        },
    };
    let wire = updated.to_wire();
    let action = store.submit_update(addr, T::type_slot(), wire);
    let address = match store.records[action].kind {
        RecordKind::Create { slot: _, entry } => entry,
        RecordKind::Update { slot: _, entry, original: _ } => entry,
        RecordKind::Delete { target: _ } => {
            proof {
                assert(false);
            }
            0
        },
    };
    proof {
        assert(old(store).entries@.len() == old(store).entries.len());
    }
    let ctype = updated.get_type();
    Ok(Entity { id, action, address, ctype, content: updated })
}

/// Delete an entity.
///
/// Only a validly-traceable identity may be deleted: the address must hold
/// a reachable create record whose content type-checks as `T`.  Submits a
/// delete record retiring the identity and returns the delete record's
/// address.
pub fn delete_entity<T: EntryModel>(store: &mut Store, id: usize) -> (r: Result<usize, UtilsError>)
    requires
        old(store).wf(),
    ensures
        final(store).wf(),
        !old(store).has_record(id as int) ==> r == Err::<usize, UtilsError>(
            UtilsError::ActionNotFoundError(id),
        ) && *final(store) == *old(store),
        (old(store).has_record(id as int) && !(old(store).record_at(id as int).kind
            matches RecordKind::Create { .. })) ==> r == Err::<usize, UtilsError>(
            UtilsError::NotOriginEntryError(id),
        ) && *final(store) == *old(store),
        (old(store).has_record(id as int) && (old(store).record_at(id as int).kind
            matches RecordKind::Create { .. }) && !old(store).live(id as int)) ==> r == Err::<
            usize,
            UtilsError,
        >(UtilsError::ActionNotFoundError(id)) && *final(store) == *old(store),
        (old(store).live(id as int) && (old(store).record_at(id as int).kind
            matches RecordKind::Create { .. })) ==> {
            if type_check_ok::<T>(*old(store), id as int) {
                r == Ok::<usize, UtilsError>(old(store).records@.len() as usize)
                    && submitted_delete(
                    *old(store),
                    *final(store),
                    id,
                    old(store).records@.len() as usize,
                )
            } else {
                (r matches Err(x) && type_check_result::<T>(*old(store), id as int, Err(x))
                    && *final(store) == *old(store))
            }
        },
{
    // The identity must exist and be a create record.
    match store.fetch_action(id) {
        Option::None => {
            return Err(UtilsError::ActionNotFoundError(id));
        },
        Option::Some(rec) => {
            match rec.kind {
                RecordKind::Create { slot: _, entry: _ } => {},
                _ => {
                    return Err(UtilsError::NotOriginEntryError(id));
                },
            }
        },
    }
    // It must not already have been deleted.
    match store.fetch_record(id) {
        Option::None => {
            return Err(UtilsError::ActionNotFoundError(id));
        },
        Option::Some(_) => {},
    }
    // Its content must type-check as the claimed entry type.
    match to_entry_type::<T>(store, id) {
        Ok(v) => {
            let _: T = v;
        },
        Err(e) => {
            return Err(e);
        },
    }
    proof {
        assert(old(store).records@.len() == old(store).records.len());
    }
    let d = store.submit_delete(id);
    Ok(d)
}

/// The listing returned for a row of resolved identities: pairwise, each
/// entity is the successful read of its identity.
pub open spec fn entities_match_ids<T: EntryModel>(s: Store, ids: Seq<usize>, out: Seq<Entity<T>>) -> bool {
    &&& out.len() == ids.len()
    &&& forall|k: int|
        0 <= k < out.len() ==> get_ok::<T>(s, (#[trigger] ids[k]) as int) && entity_matches::<T>(
            s,
            ids[k] as int,
            out[k],
        )
}

/// The identities that survive resolving each edge in `edges`: the targets
/// that are record addresses and read successfully as `T`, in edge order.
pub open spec fn resolved_ids<T: EntryModel>(s: Store, edges: Seq<usize>) -> Seq<usize>
    decreases edges.len(),
{
    if edges.len() == 0 {
        Seq::empty()
    } else {
        let init = resolved_ids::<T>(s, edges.drop_last());
        let l = edges.last();
        if (l as int) < s.links@.len() {
            match s.links@[l as int].target {
                Anchor::Action(a) => if get_ok::<T>(s, a as int) {
                    init.push(a)
                } else {
                    init
                },
                Anchor::External(x) => init,
            }
        } else {
            init
        }
    }
}

/// Get every entity of type `T` linked under `base` with the given edge
/// type and optional tag filter.
///
/// Edges whose target is not a record address, and targets that no longer
/// resolve — deleted concurrently, or never readable as `T` — are silently
/// dropped rather than failing the whole call.  This best-effort filtering
/// is deliberate policy: a listing survives the deletion of its members.
pub fn get_entities<T: EntryModel>(
    store: &Store,
    base: &Anchor,
    link_type: u64,
    tag: Option<Vec<u8>>,
) -> (r: Vec<Entity<T>>)
    requires
        store.wf(),
    ensures
        entities_match_ids::<T>(
            *store,
            resolved_ids::<T>(
                *store,
                store.edges_matching(*base, link_type, store::tag_pref_view(tag)),
            ),
            r@,
        ),
        forall|k: int| 0 <= k < r@.len() ==> store.live(#[trigger] r@[k].id as int),
{
    let ghost pref = store::tag_pref_view(tag);
    let q = create_link_input(base, &link_type, &tag);
    let edges = store.query_edges(&q);
    proof {
        store.lemma_edges_matching_bounds(*base, link_type, pref, store.links@.len() as int);
    }
    let mut out: Vec<Entity<T>> = Vec::new();
    let mut j: usize = 0;
    while j < edges.len()
        invariant
            store.wf(),
            j <= edges@.len(),
            edges@ == store.edges_matching(*base, link_type, pref),
            forall|k: int|
                0 <= k < edges@.len() ==> (#[trigger] edges@[k] as int) < store.links@.len(),
            entities_match_ids::<T>(*store, resolved_ids::<T>(*store, edges@.take(j as int)), out@),
        decreases edges@.len() - j,
    {
        let ghost jj = j;
        let ghost ids0 = resolved_ids::<T>(*store, edges@.take(j as int));
        proof {
            assert(entities_match_ids::<T>(*store, ids0, out@));
            assert(edges@.take(j as int + 1).drop_last() =~= edges@.take(j as int));
            assert(edges@.take(j as int + 1).last() == edges@[j as int]);
        }
        let l = edges[j];
        let link = store.get_link(l);
        match link.target {
            Anchor::Action(a) => {
                match get_entity::<T>(store, a) {
                    Ok(e) => {
                        let ghost out0 = out@;
                        out.push(e);
                        proof {
                            let ids1 = resolved_ids::<T>(*store, edges@.take(jj as int + 1));
                            assert(ids1 == ids0.push(a));
                            assert forall|k: int|
                                0 <= k < out@.len() implies get_ok::<T>(
                                *store,
                                (#[trigger] ids1[k]) as int,
                            ) && entity_matches::<T>(*store, ids1[k] as int, out@[k]) by {
                                if k < out@.len() - 1 {
                                    assert(ids1[k] == ids0[k]);
                                    assert(out@[k] == out0[k]);
                                    assert(get_ok::<T>(*store, (ids0[k]) as int)
                                        && entity_matches::<T>(*store, ids0[k] as int, out0[k]));
                                } else {
                                    assert(ids1[k] == a);
                                    assert(out@[k] == e);
                                }
                            }
                            assert(entities_match_ids::<T>(*store, ids1, out@));
                        }
                    },
                    Err(_) => {
                        proof {
                            assert(resolved_ids::<T>(*store, edges@.take(jj as int + 1)) == ids0);
                        }
                    },
                }
            },
            Anchor::External(_) => {
                proof {
                    assert(resolved_ids::<T>(*store, edges@.take(jj as int + 1)) == ids0);
                }
            },
        }
        j += 1;
        proof {
            assert(edges@.take(j as int) == edges@.take(jj as int + 1));
            assert(entities_match_ids::<T>(
                *store,
                resolved_ids::<T>(*store, edges@.take(j as int)),
                out@,
            ));
        }
    }
    proof {
        assert(edges@.take(edges@.len() as int) =~= edges@);
        let ids = resolved_ids::<T>(*store, edges@);
        assert(entities_match_ids::<T>(*store, ids, out@));
        assert forall|k: int|
            0 <= k < out@.len() implies store.live(#[trigger] out@[k].id as int) by {
            let w = ids[k];
            assert(get_ok::<T>(*store, ids[k] as int) && entity_matches::<T>(
                *store,
                ids[k] as int,
                out@[k],
            ));
        }
    }
    out
}

} // verus!
