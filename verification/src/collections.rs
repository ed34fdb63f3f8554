//! The hashed collections and the inline vector that the edge index is built from.
//!
//! Nothing in this file is proved. Each collection is an opaque handle on a
//! collection of `bevy_utils` or `smallvec`; its contents are named by a
//! specification function without a body, and each operation states over that
//! name what the underlying crate documents. Every other module reasons from
//! these contracts alone.
//!
//! The hashed collections are keyed by integers and pairs of integers, for
//! which equality and hashing agree. As with the collections of the standard
//! library, the contracts say nothing of a collection that outgrows the
//! address space.

use vstd::prelude::*;

verus! {

/// An entity identifier, as handed out by the entity store.
pub type Entity = u64;

/// The identifier under which a relation type was registered.
pub type RelationId = u64;

/// The number of payloads beyond which a storage does not grow: the largest
/// length from which `smallvec::SmallVec` can still reserve room for one
/// more `u64`, whatever the width of the address space. A storage of this
/// length fills a sixteenth of that space.
pub const MAX_SLOTS: usize = usize::MAX / 32;

/// One cascade bucket of an entity's forward index: `(relation, target)` to
/// slot. Holds a `bevy_utils::HashMap`.
#[verifier::external_body]
pub struct TargetMap {
    inner: bevy_utils::HashMap<(u64, u64), usize>,
}

/// The entries of a target map.
pub uninterp spec fn target_entries(m: TargetMap) -> Map<(RelationId, Entity), usize>;

/// `HashMap::default`: a map without entries.
#[verifier::external_body]
pub(crate) fn target_map_new() -> (m: TargetMap)
    ensures
        target_entries(m) == (Map::<(RelationId, Entity), usize>::empty()),
{
    TargetMap { inner: bevy_utils::HashMap::default() }
}

/// `HashMap::get`: the slot stored under `key`, if the map has that key.
#[verifier::external_body]
pub(crate) fn target_map_get(m: &TargetMap, key: (RelationId, Entity)) -> (slot: Option<usize>)
    ensures
        slot == (if target_entries(*m).contains_key(key) {
            Some(target_entries(*m)[key])
        } else {
            None
        }),
{
    m.inner.get(&key).copied()
}

/// `HashMap::insert`: afterwards `key` maps to `slot`; every other entry is
/// as before.
#[verifier::external_body]
pub(crate) fn target_map_insert(m: &mut TargetMap, key: (RelationId, Entity), slot: usize)
    ensures
        target_entries(*final(m)) == target_entries(*old(m)).insert(key, slot),
{
    m.inner.insert(key, slot);
}

/// `HashMap::remove`: afterwards `key` is absent; every other entry is as
/// before.
#[verifier::external_body]
pub(crate) fn target_map_remove(m: &mut TargetMap, key: (RelationId, Entity))
    ensures
        target_entries(*final(m)) == target_entries(*old(m)).remove(key),
{
    m.inner.remove(&key);
}

/// `HashMap::iter`, collected: every entry exactly once, in the order in
/// which the map happens to walk them.
#[verifier::external_body]
pub(crate) fn target_map_items(m: &TargetMap) -> (items: Vec<((RelationId, Entity), usize)>)
    ensures
        forall|i: int|
            0 <= i < items.len() ==> #[trigger] target_entries(*m).contains_key(items[i].0)
                && target_entries(*m)[items[i].0] == items[i].1,
        forall|k: (RelationId, Entity)|
            target_entries(*m).contains_key(k) ==> exists|i: int|
                0 <= i < items.len() && (#[trigger] items[i]).0 == k,
        forall|i: int, j: int|
            0 <= i < j < items.len() ==> (#[trigger] items[i]).0 != (#[trigger] items[j]).0,
{
    m.inner.iter().map(|(k, v)| (*k, *v)).collect()
}

/// An entity's reverse index: the `(relation, foster)` pairs that point at
/// it. Holds a `bevy_utils::HashSet`.
#[verifier::external_body]
pub struct FosterSet {
    inner: bevy_utils::HashSet<(u64, u64)>,
}

/// The members of a foster set.
pub uninterp spec fn foster_entries(s: FosterSet) -> Set<(RelationId, Entity)>;

/// `HashSet::default`: a set without members.
#[verifier::external_body]
pub(crate) fn foster_set_new() -> (s: FosterSet)
    ensures
        foster_entries(s) == Set::<(RelationId, Entity)>::empty(),
{
    FosterSet { inner: bevy_utils::HashSet::default() }
}

/// `HashSet::insert`: afterwards `pair` is a member; the others are as
/// before.
#[verifier::external_body]
pub(crate) fn foster_set_insert(s: &mut FosterSet, pair: (RelationId, Entity))
    ensures
        foster_entries(*final(s)) == foster_entries(*old(s)).insert(pair),
{
    s.inner.insert(pair);
}

/// `HashSet::remove`: afterwards `pair` is no member; the others are as
/// before.
#[verifier::external_body]
pub(crate) fn foster_set_remove(s: &mut FosterSet, pair: (RelationId, Entity))
    ensures
        foster_entries(*final(s)) == foster_entries(*old(s)).remove(pair),
{
    s.inner.remove(&pair);
}

/// `HashSet::iter`, collected: every member exactly once, in the order in
/// which the set happens to walk them.
#[verifier::external_body]
pub(crate) fn foster_set_items(s: &FosterSet) -> (items: Vec<(RelationId, Entity)>)
    ensures
        forall|i: int| 0 <= i < items.len() ==> foster_entries(*s).contains(#[trigger] items[i]),
        forall|p: (RelationId, Entity)|
            foster_entries(*s).contains(p) ==> exists|i: int|
                0 <= i < items.len() && #[trigger] items[i] == p,
        forall|i: int, j: int|
            0 <= i < j < items.len() ==> #[trigger] items[i] != #[trigger] items[j],
{
    s.inner.iter().copied().collect()
}

/// A set of entities. Holds a `bevy_utils::HashSet`.
#[verifier::external_body]
pub struct EntitySet {
    inner: bevy_utils::HashSet<u64>,
}

/// The members of an entity set.
pub uninterp spec fn entity_set_members(s: EntitySet) -> Set<Entity>;

/// `HashSet::default`: a set without members.
#[verifier::external_body]
pub(crate) fn entity_set_new() -> (s: EntitySet)
    ensures
        entity_set_members(s) == Set::<Entity>::empty(),
{
    EntitySet { inner: bevy_utils::HashSet::default() }
}

/// `HashSet::contains`: whether `entity` is a member.
#[verifier::external_body]
pub(crate) fn entity_set_contains(s: &EntitySet, entity: Entity) -> (found: bool)
    ensures
        found == entity_set_members(*s).contains(entity),
{
    s.inner.contains(&entity)
}

/// `HashSet::insert`: afterwards `entity` is a member; the others are as
/// before.
#[verifier::external_body]
pub(crate) fn entity_set_insert(s: &mut EntitySet, entity: Entity)
    ensures
        entity_set_members(*final(s)) == entity_set_members(*old(s)).insert(entity),
{
    s.inner.insert(entity);
}

/// The memo of an ancestor search: `(entity, relation)` to the foster found
/// for it, with the slot of the edge that leads there, or to `None` where the
/// entity has no foster to climb to. Holds a `bevy_utils::HashMap`.
#[verifier::external_body]
pub struct AncestorMap {
    inner: bevy_utils::HashMap<(u64, u64), Option<(u64, usize)>>,
}

/// The entries of an ancestor memo.
pub uninterp spec fn ancestor_entries(m: AncestorMap) -> Map<
    (Entity, RelationId),
    Option<(Entity, usize)>,
>;

/// `HashMap::default`: a memo without entries.
#[verifier::external_body]
pub(crate) fn ancestor_map_new() -> (m: AncestorMap)
    ensures
        ancestor_entries(m) == (Map::<(Entity, RelationId), Option<(Entity, usize)>>::empty()),
{
    AncestorMap { inner: bevy_utils::HashMap::default() }
}

/// `HashMap::get`: the entry stored under `key`, if the memo has that key.
#[verifier::external_body]
pub(crate) fn ancestor_map_get(m: &AncestorMap, key: (Entity, RelationId)) -> (entry: Option<
    Option<(Entity, usize)>,
>)
    ensures
        entry == (if ancestor_entries(*m).contains_key(key) {
            Some(ancestor_entries(*m)[key])
        } else {
            None
        }),
{
    m.inner.get(&key).copied()
}

/// `HashMap::insert`: afterwards `key` maps to `entry`; every other entry is
/// as before.
#[verifier::external_body]
pub(crate) fn ancestor_map_insert(
    m: &mut AncestorMap,
    key: (Entity, RelationId),
    entry: Option<(Entity, usize)>,
)
    ensures
        ancestor_entries(*final(m)) == ancestor_entries(*old(m)).insert(key, entry),
{
    m.inner.insert(key, entry);
}

/// The payloads that one entity holds for one relation type, addressed by
/// slot. Holds a `smallvec::SmallVec` with room for one payload inline.
#[verifier::external_body]
pub struct Storage {
    values: smallvec::SmallVec<[u64; 1]>,
}

/// The payloads of a storage, by slot.
pub uninterp spec fn storage_values(s: Storage) -> Seq<u64>;

/// `SmallVec::new`: a storage without payloads.
#[verifier::external_body]
pub(crate) fn storage_new() -> (s: Storage)
    ensures
        storage_values(s) == Seq::<u64>::empty(),
{
    Storage { values: smallvec::SmallVec::new() }
}

/// `SmallVec::len`: the number of slots.
#[verifier::external_body]
pub(crate) fn storage_len(s: &Storage) -> (len: usize)
    ensures
        len == storage_values(*s).len(),
{
    s.values.len()
}

/// `SmallVec::push`: appends `value` in a new last slot. The bound keeps the
/// grown allocation within what `push` can reserve.
#[verifier::external_body]
pub(crate) fn storage_push(s: &mut Storage, value: u64)
    requires
        storage_values(*old(s)).len() < MAX_SLOTS,
    ensures
        storage_values(*final(s)) == storage_values(*old(s)).push(value),
{
    s.values.push(value)
}

/// Indexing a `SmallVec` for reading: the payload in `slot`.
#[verifier::external_body]
pub(crate) fn storage_get(s: &Storage, slot: usize) -> (value: u64)
    requires
        slot < storage_values(*s).len(),
    ensures
        value == storage_values(*s)[slot as int],
{
    s.values[slot]
}

/// Indexing a `SmallVec` for writing: `slot` now holds `value`; the other
/// slots are as before.
#[verifier::external_body]
pub(crate) fn storage_set(s: &mut Storage, slot: usize, value: u64)
    requires
        slot < storage_values(*old(s)).len(),
    ensures
        storage_values(*final(s)) == storage_values(*old(s)).update(slot as int, value),
{
    s.values[slot] = value;
}

} // verus!
