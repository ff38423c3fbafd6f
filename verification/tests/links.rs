use hc_crud::entities::{find_latest, CounterEntry};
use hc_crud::errors::UtilsError;
use hc_crud::store::{Anchor, Store};
use hc_crud::{create_entity, create_link_input, delete_entity, get_entities};

const MEMBER: u64 = 1;

#[test]
fn get_entities_lists_linked_targets() {
    let mut store = Store::new();
    let base = Anchor::External(100);
    let a = create_entity(&mut store, CounterEntry { count: 1 });
    let b = create_entity(&mut store, CounterEntry { count: 2 });
    a.link_from(&mut store, &base, MEMBER, None);
    b.link_from(&mut store, &base, MEMBER, None);

    let list = get_entities::<CounterEntry>(&store, &base, MEMBER, None);
    assert_eq!(list.len(), 2);
    assert_eq!(list[0].id, a.id);
    assert_eq!(list[1].id, b.id);
    assert_eq!(list[0].content, CounterEntry { count: 1 });
}

#[test]
fn get_entities_filters_deleted_targets() {
    // Deleted targets are silently dropped from a listing, never an error.
    let mut store = Store::new();
    let base = Anchor::External(100);
    let a = create_entity(&mut store, CounterEntry { count: 1 });
    let b = create_entity(&mut store, CounterEntry { count: 2 });
    a.link_from(&mut store, &base, MEMBER, None);
    b.link_from(&mut store, &base, MEMBER, None);
    delete_entity::<CounterEntry>(&mut store, a.id).unwrap();

    let list = get_entities::<CounterEntry>(&store, &base, MEMBER, None);
    assert_eq!(list.len(), 1);
    assert_eq!(list[0].id, b.id);
}

#[test]
fn get_entities_filters_by_type_and_tag_prefix() {
    let mut store = Store::new();
    let base = Anchor::External(100);
    let a = create_entity(&mut store, CounterEntry { count: 1 });
    let b = create_entity(&mut store, CounterEntry { count: 2 });
    a.link_from(&mut store, &base, MEMBER, Some(vec![1, 2, 3]));
    b.link_from(&mut store, &base, MEMBER, Some(vec![9]));
    b.link_from(&mut store, &base, 2, Some(vec![1, 2]));

    // A tag filter matches by prefix.
    let list = get_entities::<CounterEntry>(&store, &base, MEMBER, Some(vec![1, 2]));
    assert_eq!(list.len(), 1);
    assert_eq!(list[0].id, a.id);
    // No filter matches every tag of the right type.
    let all = get_entities::<CounterEntry>(&store, &base, MEMBER, None);
    assert_eq!(all.len(), 2);
}

#[test]
fn link_to_points_away_from_the_entity() {
    let mut store = Store::new();
    let a = create_entity(&mut store, CounterEntry { count: 1 });
    let target = Anchor::External(7);
    let l = a.link_to(&mut store, &target, MEMBER, None);
    assert_eq!(store.links[l].base, Anchor::Action(a.id));
    assert_eq!(store.links[l].target, target);
}

#[test]
fn move_link_relocates_the_edge() {
    let mut store = Store::new();
    let old_base = Anchor::External(100);
    let new_base = Anchor::External(200);
    let a = create_entity(&mut store, CounterEntry { count: 1 });
    a.link_from(&mut store, &old_base, MEMBER, None);

    let moved = a
        .move_link_from(&mut store, MEMBER, None, &old_base, &new_base)
        .unwrap();
    assert_eq!(store.links[moved].base, new_base);
    assert_eq!(store.links[moved].target, Anchor::Action(a.id));

    let under_old = get_entities::<CounterEntry>(&store, &old_base, MEMBER, None);
    assert_eq!(under_old.len(), 0);
    let under_new = get_entities::<CounterEntry>(&store, &new_base, MEMBER, None);
    assert_eq!(under_new.len(), 1);
}

#[test]
fn move_link_is_idempotent_when_target_base_holds_the_edge() {
    // Two stale edges under the old base, one edge under the new base:
    // re-basing twice returns the same existing edge address both times and
    // leaves exactly one edge under the new base.
    let mut store = Store::new();
    let old_base = Anchor::External(100);
    let new_base = Anchor::External(200);
    let a = create_entity(&mut store, CounterEntry { count: 1 });
    a.link_from(&mut store, &old_base, MEMBER, None);
    a.link_from(&mut store, &old_base, MEMBER, None);
    let existing = a.link_from(&mut store, &new_base, MEMBER, None);

    let first = a
        .move_link_from(&mut store, MEMBER, None, &old_base, &new_base)
        .unwrap();
    let second = a
        .move_link_from(&mut store, MEMBER, None, &old_base, &new_base)
        .unwrap();
    assert_eq!(first, existing);
    assert_eq!(second, existing);

    let q = create_link_input(&new_base, &MEMBER, &None);
    let under_new = store.query_edges(&q);
    assert_eq!(under_new, vec![existing]);
}

#[test]
fn move_link_without_existing_edge_fails_and_creates_nothing() {
    let mut store = Store::new();
    let old_base = Anchor::External(100);
    let new_base = Anchor::External(200);
    let a = create_entity(&mut store, CounterEntry { count: 1 });

    let links_before = store.links.len();
    let r = a.move_link_from(&mut store, MEMBER, None, &old_base, &new_base);
    assert_eq!(r, Err(UtilsError::UnexpectedState));
    assert_eq!(store.links.len(), links_before);
    let under_new = get_entities::<CounterEntry>(&store, &new_base, MEMBER, None);
    assert_eq!(under_new.len(), 0);
}

#[test]
fn find_latest_picks_max_timestamp_first_on_tie() {
    let mut store = Store::new();
    let base = Anchor::External(100);
    let a = create_entity(&mut store, CounterEntry { count: 1 });
    store.now = 5;
    let l0 = a.link_from(&mut store, &base, MEMBER, None);
    store.now = 9;
    let l1 = a.link_from(&mut store, &base, MEMBER, None);
    store.now = 9;
    let l2 = a.link_from(&mut store, &base, MEMBER, None);

    let none: Vec<usize> = vec![];
    assert_eq!(find_latest(&store, &none), None);
    assert_eq!(find_latest(&store, &vec![l0]), Some(l0));
    // Maximum timestamp wins; on a tie the first in input order wins.
    assert_eq!(find_latest(&store, &vec![l0, l1, l2]), Some(l1));
    assert_eq!(find_latest(&store, &vec![l2, l0, l1]), Some(l2));
}
