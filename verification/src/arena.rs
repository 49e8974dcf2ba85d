//! Generational keys and key-indexed links, backed by the `slotmap` crate.
//!
//! Nothing in this file is proved. Each function states what the `slotmap`
//! source shows of the call in its body; the rest of the crate is verified
//! against these statements. Keys cross the boundary in the 64-bit form of
//! `KeyData::as_ffi`: the slot index in the low half, the version above it.
//!
//! A slot map is used here for what it issues: keys that stay valid until
//! they are removed and that no later key equals while the slot's version
//! has not wrapped around. What is stored under a key is kept by the caller,
//! in a map of its own under the key's 64-bit form.

use slotmap::DefaultKey;
use slotmap::Key;
use slotmap::KeyData;
use slotmap::SecondaryMap;
use slotmap::SlotMap;
use vstd::prelude::*;

verus! {

/// A `slotmap::SlotMap` without values: the keys that it has issued and not
/// yet taken back.
#[verifier::external_body]
pub struct KeyArena {
    slots: SlotMap<DefaultKey, ()>,
}

/// A `slotmap::SecondaryMap` from keys to keys, both in 64-bit form.
#[verifier::external_body]
pub struct LinkTable {
    links: SecondaryMap<DefaultKey, u64>,
}

/// The keys that are live in the arena.
pub uninterp spec fn arena_keys(arena: KeyArena) -> Set<u64>;

/// The entries of the table.
pub uninterp spec fn table_links(table: LinkTable) -> Map<u64, u64>;

/// The slot that a key addresses: its low 32 bits.
pub open spec fn slot_index(key: u64) -> int {
    key as int % 0x1_0000_0000
}

/// The version that a key carries: its high 32 bits.
pub open spec fn key_version(key: u64) -> int {
    key as int / 0x1_0000_0000
}

/// The form of every key that a slot map issues: an odd version, and a slot
/// that is neither the sentinel slot nor the slot of the null key.
pub open spec fn issued_form(key: u64) -> bool {
    &&& key_version(key) % 2 == 1
    &&& 0 < slot_index(key) < 0xffff_ffff
}

/// What holds of the live keys of any slot map: there are finitely many, each
/// has the issued form, and no two of them share a slot.
pub open spec fn live_key_set(keys: Set<u64>) -> bool {
    &&& keys.finite()
    &&& forall|k: u64| keys.contains(k) ==> issued_form(k)
    &&& forall|a: u64, b: u64|
        keys.contains(a) && keys.contains(b) && slot_index(a) == slot_index(b) ==> a == b
}

/// The order in which `slotmap` walks its slots: by rising slot index.
pub open spec fn slot_ordered(keys: Seq<u64>) -> bool {
    forall|i: int, j: int| 0 <= i < j < keys.len() ==> slot_index(keys[i]) < slot_index(keys[j])
}

/// Calls `SlotMap::new`. The new map holds no key.
#[verifier::external_body]
pub(crate) fn arena_new() -> (arena: KeyArena)
    ensures
        arena_keys(arena) == Set::<u64>::empty(),
{
    KeyArena { slots: SlotMap::new() }
}

/// Calls `SlotMap::insert`. The key that comes back was not live before and
/// is the one key added; it has the issued form and its slot was free.
/// `insert` panics once 2^32 - 2 keys are live, which `requires` leaves out.
#[verifier::external_body]
pub(crate) fn arena_insert(arena: &mut KeyArena) -> (key: u64)
    requires
        live_key_set(arena_keys(*old(arena))),
        arena_keys(*old(arena)).len() < 0xffff_fffe,
    ensures
        !arena_keys(*old(arena)).contains(key),
        arena_keys(*final(arena)) == arena_keys(*old(arena)).insert(key),
        live_key_set(arena_keys(*final(arena))),
{
    arena.slots.insert(()).data().as_ffi()
}

/// Calls `SlotMap::remove` with a live key, which then leaves the map; the
/// other keys stay.
#[verifier::external_body]
pub(crate) fn arena_remove(arena: &mut KeyArena, key: u64)
    requires
        arena_keys(*old(arena)).contains(key),
    ensures
        arena_keys(*final(arena)) == arena_keys(*old(arena)).remove(key),
{
    arena.slots.remove(DefaultKey::from(KeyData::from_ffi(key)));
}

/// Calls `SlotMap::keys`. The iterator walks the slots by rising index and
/// yields the key of each occupied one, so every live key comes once, and the
/// keys come in the order of their slots.
#[verifier::external_body]
pub(crate) fn arena_key_list(arena: &KeyArena) -> (keys: Vec<u64>)
    ensures
        keys@.to_set() == arena_keys(*arena),
        slot_ordered(keys@),
{
    arena.slots.keys().map(|k| k.data().as_ffi()).collect()
}

/// Calls `SlotMap::clone`, which copies the slots and the free list: the copy
/// has the same live keys.
#[verifier::external_body]
pub(crate) fn arena_clone(arena: &KeyArena) -> (copy: KeyArena)
    ensures
        arena_keys(copy) == arena_keys(*arena),
{
    KeyArena { slots: arena.slots.clone() }
}

/// Calls `SecondaryMap::new`. The new table has no entry.
#[verifier::external_body]
pub(crate) fn table_new() -> (table: LinkTable)
    ensures
        table_links(table).dom() == Set::<u64>::empty(),
{
    LinkTable { links: SecondaryMap::new() }
}

/// Calls `SecondaryMap::insert`. Where no entry with another version holds
/// the key's slot, the entry for the key is set and no other entry changes.
/// (With such an entry, `insert` keeps whichever version is newer; for the
/// null key it does nothing. `requires` leaves both out.) The map grows to
/// the key's slot, so the key is to come from a slot map.
#[verifier::external_body]
pub(crate) fn table_insert(table: &mut LinkTable, key: u64, value: u64)
    requires
        issued_form(key),
        forall|k: u64|
            table_links(*old(table)).contains_key(k) && slot_index(k) == slot_index(key) ==> k
                == key,
    ensures
        table_links(*final(table)) == table_links(*old(table)).insert(key, value),
{
    table.links.insert(DefaultKey::from(KeyData::from_ffi(key)), value);
}

/// Calls `SecondaryMap::get`, which finds an entry only under the very key
/// it was stored with.
#[verifier::external_body]
pub(crate) fn table_get(table: &LinkTable, key: u64) -> (value: Option<u64>)
    requires
        issued_form(key),
    ensures
        value == if table_links(*table).contains_key(key) {
            Some(table_links(*table)[key])
        } else {
            None::<u64>
        },
{
    table.links.get(DefaultKey::from(KeyData::from_ffi(key))).copied()
}

/// Calls `SecondaryMap::remove`. The entry of the key, if there is one,
/// leaves the table and its value comes back.
#[verifier::external_body]
pub(crate) fn table_remove(table: &mut LinkTable, key: u64) -> (value: Option<u64>)
    requires
        issued_form(key),
    ensures
        table_links(*final(table)) == table_links(*old(table)).remove(key),
        value == if table_links(*old(table)).contains_key(key) {
            Some(table_links(*old(table))[key])
        } else {
            None::<u64>
        },
{
    table.links.remove(DefaultKey::from(KeyData::from_ffi(key)))
}

/// Calls `SecondaryMap::iter`. The iterator walks the slots by rising index
/// and yields each entry once, so the entries come in the order of their
/// keys' slots.
#[verifier::external_body]
pub(crate) fn table_entries(table: &LinkTable) -> (entries: Vec<(u64, u64)>)
    ensures
        entries@.map_values(|e: (u64, u64)| e.0).to_set() == table_links(*table).dom(),
        slot_ordered(entries@.map_values(|e: (u64, u64)| e.0)),
        forall|i: int| 0 <= i < entries.len() ==> entries[i].1 == table_links(*table)[entries[i].0],
{
    table.links.iter().map(|(k, v)| (k.data().as_ffi(), *v)).collect()
}

/// Calls `SecondaryMap::clone`. The copy has the same entries.
#[verifier::external_body]
pub(crate) fn table_clone(table: &LinkTable) -> (copy: LinkTable)
    ensures
        table_links(copy) == table_links(*table),
{
    LinkTable { links: table.links.clone() }
}

} // verus!
