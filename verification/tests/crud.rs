use hc_crud::entities::{CounterEntry, Empty, Entity, EntryModel, GaugeEntry};
use hc_crud::errors::UtilsError;
use hc_crud::resolver::{find_earliest, follow_updates, origin_of, trace_history};
use hc_crud::store::{Store, TypeSlot};
use hc_crud::{create_entity, delete_entity, get_entity, now, update_entity};
use hc_crud::{GetEntityInput, UpdateEntityInput};

#[test]
fn entity_test() {
    let bytes: usize = 32;
    let ahash = bytes;
    let ehash = bytes;
    let hhash = bytes;

    let item = Entity {
        id: ahash,
        action: hhash,
        address: ehash,
        ctype: String::from("boolean"),
        content: true,
    };

    assert_eq!(item.ctype, String::from("boolean"));
}

#[test]
fn create_then_get_returns_same_entity() {
    let mut store = Store::new();
    store.now = 11;
    let e = create_entity(&mut store, CounterEntry { count: 7 });
    assert_eq!(e.id, e.action);
    assert_eq!(e.ctype, "counter");
    assert_eq!(e.content, CounterEntry { count: 7 });

    let g = get_entity::<CounterEntry>(&store, e.id).unwrap();
    assert_eq!(g.id, e.id);
    assert_eq!(g.action, e.action);
    assert_eq!(g.address, e.address);
    assert_eq!(g.ctype, e.ctype);
    assert_eq!(g.content, e.content);
}

#[test]
fn equal_content_shares_content_address() {
    let mut store = Store::new();
    let a = create_entity(&mut store, CounterEntry { count: 5 });
    let b = create_entity(&mut store, CounterEntry { count: 5 });
    let c = create_entity(&mut store, CounterEntry { count: 6 });
    assert_ne!(a.id, b.id);
    assert_eq!(a.address, b.address);
    assert_ne!(a.address, c.address);
}

#[test]
fn sequential_updates_resolve_to_last() {
    let mut store = Store::new();
    store.now = 1;
    let e = create_entity(&mut store, CounterEntry { count: 0 });
    store.now = 2;
    let u1 = update_entity::<CounterEntry, _>(&mut store, e.action, |cur, _rec| {
        Ok(CounterEntry { count: cur.count + 1 })
    })
    .unwrap();
    assert_eq!(u1.id, e.id);
    store.now = 3;
    let u2 = update_entity::<CounterEntry, _>(&mut store, u1.action, |cur, _rec| {
        Ok(CounterEntry { count: cur.count + 1 })
    })
    .unwrap();
    assert_eq!(u2.id, e.id);
    assert_eq!(u2.content, CounterEntry { count: 2 });

    // Reading the origin yields exactly the content of the last update.
    let g = get_entity::<CounterEntry>(&store, e.id).unwrap();
    assert_eq!(g.content, CounterEntry { count: 2 });
    assert_eq!(g.action, u2.action);

    // The history from the last update counts both updates plus the create.
    let chain = trace_history(&store, u2.action).unwrap();
    assert_eq!(chain.len(), 3);
    // Newest first, oldest (the create) last.
    assert_eq!(chain[0].0, u2.action);
    assert_eq!(chain[2].0, e.id);
    assert_eq!(origin_of(&store, u2.action).unwrap(), e.id);

    let path = follow_updates(&store, e.id).unwrap();
    assert_eq!(path, vec![e.id, u1.action, u2.action]);
}

#[test]
fn concurrent_updates_resolve_to_earliest_timestamp() {
    // Two writers update the same origin; the one with the earlier declared
    // timestamp wins, whatever order the records were appended in.
    let mut store = Store::new();
    let e = create_entity(&mut store, CounterEntry { count: 0 });
    let slot = CounterEntry::type_slot();
    store.now = 20;
    let late = store.submit_update(e.action, slot, vec![10]);
    store.now = 10;
    let early = store.submit_update(e.action, slot, vec![20]);

    let path = follow_updates(&store, e.id).unwrap();
    assert_eq!(path, vec![e.id, early]);
    let g = get_entity::<CounterEntry>(&store, e.id).unwrap();
    assert_eq!(g.action, early);
    assert_eq!(g.content, CounterEntry { count: 20 });
    assert_ne!(g.action, late);

    // The same two timestamps in the opposite append order: still the
    // earlier timestamp wins.
    let mut store2 = Store::new();
    let e2 = create_entity(&mut store2, CounterEntry { count: 0 });
    store2.now = 10;
    let early2 = store2.submit_update(e2.action, slot, vec![20]);
    store2.now = 20;
    let _late2 = store2.submit_update(e2.action, slot, vec![10]);
    let path2 = follow_updates(&store2, e2.id).unwrap();
    assert_eq!(path2, vec![e2.id, early2]);
}

#[test]
fn tied_updates_resolve_to_first_in_order() {
    let mut store = Store::new();
    let e = create_entity(&mut store, CounterEntry { count: 0 });
    let slot = CounterEntry::type_slot();
    store.now = 5;
    let first = store.submit_update(e.action, slot, vec![1]);
    let _second = store.submit_update(e.action, slot, vec![2]);

    // Resolution is stable and repeatable for a fixed input ordering.
    let once = follow_updates(&store, e.id).unwrap();
    let twice = follow_updates(&store, e.id).unwrap();
    assert_eq!(once, twice);
    assert_eq!(once, vec![e.id, first]);
}

#[test]
fn find_earliest_picks_min_timestamp_first_on_tie() {
    let none: Vec<(u64, usize)> = vec![];
    assert_eq!(find_earliest(&none), None);
    assert_eq!(find_earliest(&vec![(5, 10)]), Some(10));
    assert_eq!(find_earliest(&vec![(5, 10), (3, 11), (4, 12)]), Some(11));
    assert_eq!(find_earliest(&vec![(5, 10), (3, 11), (3, 12)]), Some(11));
    assert_eq!(find_earliest(&vec![(7, 1), (7, 2), (7, 3)]), Some(1));
}

#[test]
fn get_missing_or_deleted_fails_not_found() {
    let mut store = Store::new();
    assert_eq!(
        get_entity::<CounterEntry>(&store, 0),
        Err(UtilsError::ActionNotFoundError(0))
    );

    let e = create_entity(&mut store, CounterEntry { count: 1 });
    let d = delete_entity::<CounterEntry>(&mut store, e.id).unwrap();
    assert_eq!(d, e.id + 1);
    assert_eq!(
        get_entity::<CounterEntry>(&store, e.id),
        Err(UtilsError::ActionNotFoundError(e.id))
    );
}

#[test]
fn get_on_update_address_fails_not_origin() {
    let mut store = Store::new();
    let e = create_entity(&mut store, CounterEntry { count: 1 });
    let u = update_entity::<CounterEntry, _>(&mut store, e.action, |_cur, _rec| {
        Ok(CounterEntry { count: 2 })
    })
    .unwrap();
    assert_eq!(
        get_entity::<CounterEntry>(&store, u.action),
        Err(UtilsError::NotOriginEntryError(u.action))
    );
}

#[test]
fn wrong_slot_is_rejected_even_when_bytes_parse() {
    // Counter and gauge records are byte-for-byte compatible; only the
    // declared slot tells them apart, and the type guard checks it.
    let mut store = Store::new();
    let e = create_entity(&mut store, CounterEntry { count: 9 });
    let r = get_entity::<GaugeEntry>(&store, e.id);
    assert_eq!(
        r,
        Err(UtilsError::WrongEntryTypeError(
            TypeSlot { zome: 1, entry_def: 1 },
            TypeSlot { zome: 1, entry_def: 0 },
        ))
    );
}

#[test]
fn undeserializable_bytes_fail_deserialization() {
    // An empty entry is no one-byte counter: deserialization itself fails,
    // reported distinctly from a slot mismatch.
    let mut store = Store::new();
    let e = create_entity(&mut store, Empty {});
    let r = get_entity::<CounterEntry>(&store, e.id);
    assert_eq!(
        r,
        Err(UtilsError::DeserializationError(
            String::from("Counter"),
            Some(TypeSlot { zome: 0, entry_def: 0 }),
        ))
    );
}

#[test]
fn empty_reads_any_content() {
    let mut store = Store::new();
    let e = create_entity(&mut store, Empty {});
    let g = get_entity::<Empty>(&store, e.id).unwrap();
    assert_eq!(g.ctype, "empty");
    assert_eq!(g.content, Empty {});
}

#[test]
fn trace_through_delete_record_is_malformed() {
    let mut store = Store::new();
    let e = create_entity(&mut store, CounterEntry { count: 1 });
    let d = delete_entity::<CounterEntry>(&mut store, e.id).unwrap();
    // The delete record itself carries no entry, so a trace starting there
    // reports a malformed chain rather than a shortened one.
    assert_eq!(trace_history(&store, d), Err(UtilsError::RecordHasNoEntry(d)));
    assert_eq!(
        trace_history(&store, 999),
        Err(UtilsError::ActionNotFoundError(999))
    );
}

#[test]
fn delete_rejects_non_origin_and_missing() {
    let mut store = Store::new();
    assert_eq!(
        delete_entity::<CounterEntry>(&mut store, 3),
        Err(UtilsError::ActionNotFoundError(3))
    );
    let e = create_entity(&mut store, CounterEntry { count: 1 });
    let u = update_entity::<CounterEntry, _>(&mut store, e.action, |_cur, _rec| {
        Ok(CounterEntry { count: 2 })
    })
    .unwrap();
    assert_eq!(
        delete_entity::<CounterEntry>(&mut store, u.action),
        Err(UtilsError::NotOriginEntryError(u.action))
    );
    // Deleting twice: the identity is already retired.
    delete_entity::<CounterEntry>(&mut store, e.id).unwrap();
    assert_eq!(
        delete_entity::<CounterEntry>(&mut store, e.id),
        Err(UtilsError::ActionNotFoundError(e.id))
    );
}

#[test]
fn update_callback_error_leaves_store_unchanged() {
    let mut store = Store::new();
    let e = create_entity(&mut store, CounterEntry { count: 1 });
    let records_before = store.records.len();
    let r = update_entity::<CounterEntry, _>(&mut store, e.action, |_cur, _rec| {
        Err(UtilsError::UnexpectedState)
    });
    assert_eq!(r, Err(UtilsError::UnexpectedState));
    assert_eq!(store.records.len(), records_before);
    let g = get_entity::<CounterEntry>(&store, e.id).unwrap();
    assert_eq!(g.content, CounterEntry { count: 1 });
}

#[test]
fn update_callback_sees_current_value_and_record() {
    let mut store = Store::new();
    store.now = 42;
    let e = create_entity(&mut store, CounterEntry { count: 3 });
    let u = update_entity::<CounterEntry, _>(&mut store, e.action, |cur, rec| {
        assert_eq!(cur, CounterEntry { count: 3 });
        assert_eq!(rec.timestamp, 42);
        Ok(CounterEntry { count: cur.count * 2 })
    })
    .unwrap();
    assert_eq!(u.content, CounterEntry { count: 6 });
    assert_eq!(u.id, e.id);
}

#[test]
fn input_wrappers_carry_their_fields() {
    let g = GetEntityInput { id: 4 };
    assert_eq!(g.id, 4);
    let u = UpdateEntityInput::new(9, CounterEntry { count: 1 });
    assert_eq!(u.base, 9);
    assert_eq!(u.properties, CounterEntry { count: 1 });
}

#[test]
fn now_reads_the_store_clock() {
    let mut store = Store::new();
    assert_eq!(now(&store), 0);
    store.now = 123;
    assert_eq!(now(&store), 123);
}
