//! Utilities: the type guard that keeps structurally similar content types
//! from aliasing, the store's clock, and edge-query construction.

use vstd::prelude::*;
use crate::entities::EntryModel;
use crate::errors::UtilsError;
use crate::store::{Anchor, GetLinksInput, RecordKind, Store, TypeSlot, bytes_clone, tag_pref_view};

verus! {

impl Store {
    /// The declared slot and content address of the record at `a`, if its
    /// action carries an entry (creates and updates do, deletes do not).
    pub open spec fn record_entry_info(self, a: int) -> Option<(TypeSlot, usize)> {
        match self.records@[a].kind {
            RecordKind::Create { slot, entry } => Some((slot, entry)),
            RecordKind::Update { slot, entry, original } => Some((slot, entry)),
            RecordKind::Delete { target } => None,
        }
    }
}

/// The value the record at `a` holds when read as `T`, assuming the read
/// type-checks.
pub open spec fn checked_value<T: EntryModel>(s: Store, a: int) -> T
    recommends
        type_check_ok::<T>(s, a),
{
    T::parse_spec(s.entry_bytes(s.record_entry_info(a).unwrap().1 as int)).unwrap()
}

/// Whether reading the record at `a` as `T` succeeds: the record carries an
/// entry, the bytes deserialize as `T`, and the record's declared slot is
/// the slot `T` owns.
pub open spec fn type_check_ok<T: EntryModel>(s: Store, a: int) -> bool {
    match s.record_entry_info(a) {
        None => false,
        Some((slot, e)) => {
            &&& T::parse_spec(s.entry_bytes(e as int)) is Some
            &&& slot == T::slot_spec()
        },
    }
}

/// The full behaviour of the type guard on the record at `a`, as a relation
/// on its result: exactly one outcome is allowed for every store and
/// address, and the two failure modes — bytes that do not deserialize, and
/// bytes that do but under a foreign slot — stay distinct.
pub open spec fn type_check_result<T: EntryModel>(s: Store, a: int, r: Result<T, UtilsError>) -> bool {
    match s.record_entry_info(a) {
        None => r == Err::<T, UtilsError>(UtilsError::RecordHasNoEntry(a as usize)),
        Some((slot, e)) => match T::parse_spec(s.entry_bytes(e as int)) {
            None => (r matches Err(x) && (x matches UtilsError::DeserializationError(n, os)
                && n@ == T::name_spec() && os == Some(slot))),
            Some(v) => if slot == T::slot_spec() {
                r == Ok::<T, UtilsError>(v)
            } else {
                r == Err::<T, UtilsError>(UtilsError::WrongEntryTypeError(T::slot_spec(), slot))
            },
        },
    }
}

/// The aliasing law: bytes that happen to deserialize as `T` while their
/// record declares a different slot are rejected as `WrongEntryTypeError` —
/// never passed off as a success, and never confused with a
/// deserialization failure.
pub proof fn lemma_wrong_slot_never_aliases<T: EntryModel>(
    s: Store,
    a: int,
    r: Result<T, UtilsError>,
)
    requires
        type_check_result::<T>(s, a, r),
        s.record_entry_info(a) matches Some(info) && T::parse_spec(s.entry_bytes(info.1 as int))
            is Some && info.0 != T::slot_spec(),
    ensures
        r == Err::<T, UtilsError>(
            UtilsError::WrongEntryTypeError(T::slot_spec(), s.record_entry_info(a).unwrap().0),
        ),
{
}

/// Verify that the record at `addr` holds an entry of the expected type
/// `T`, and return the deserialized value.
///
/// The check is double: deserialization may fail outright (wrong shape),
/// and a deserialization that succeeds by coincidence is still rejected
/// when the record's declared slot is not the one `T` owns.  The two
/// failures are reported as distinct errors.
pub fn to_entry_type<T: EntryModel>(store: &Store, addr: usize) -> (r: Result<T, UtilsError>)
    requires
        store.wf(),
        store.has_record(addr as int),
    ensures
        type_check_result::<T>(*store, addr as int, r),
        r is Ok <==> type_check_ok::<T>(*store, addr as int),
        r matches Ok(v) ==> v == checked_value::<T>(*store, addr as int),
{
    let rec = store.records[addr];
    let (slot, entry) = match rec.kind {
        RecordKind::Create { slot, entry } => (slot, entry),
        RecordKind::Update { slot, entry, original: _ } => (slot, entry),
        RecordKind::Delete { target: _ } => {
            return Err(UtilsError::RecordHasNoEntry(addr));
        },
    };
    proof {
        assert(store.record_wf(addr as int));
    }
    let bytes = &store.entries[entry];
    let content = match T::from_wire(bytes) {
        Option::Some(v) => v,
        Option::None => {
            return Err(UtilsError::DeserializationError(T::name(), Some(slot)));
        },
    };
    let expected = T::type_slot();
    if slot == expected {
        Ok(content)
    } else {
        Err(UtilsError::WrongEntryTypeError(expected, slot))
    }
}

/// The store's logical clock: the timestamp it will stamp onto the next
/// submission.
pub fn now(store: &Store) -> (t: u64)
    ensures
        t == store.now,
{
    store.now
}

/// Build an edge query for the given base, edge type and optional tag
/// prefix.
pub fn create_link_input(base: &Anchor, link_type: &u64, tag_input: &Option<Vec<u8>>) -> (q: GetLinksInput)
    ensures
        q.base == *base,
        q.link_type == *link_type,
        q.tag_prefix_view() == tag_pref_view(*tag_input),
{
    let tag_prefix: Option<Vec<u8>> = match tag_input {
        Option::None => Option::None,
        Option::Some(t) => Option::Some(bytes_clone(t)),
    };
    GetLinksInput { base: *base, link_type: *link_type, tag_prefix }
}

} // verus!
