//! Storage with stable, generation-based identifiers.
//!
//! [`SlotTable`] is a slot map of the `slotmap` crate from keys to positions;
//! [`Arena`] keeps the items themselves at those positions. A key is the
//! number that `slotmap` gives for it: the slot's index in the lower half, the
//! slot's generation, always odd, in the upper half.
use ron::Value;
use slotmap::{DefaultKey, Key, KeyData, SlotMap};
use vstd::prelude::*;

verus! {

/// Largest number of items of one slot map that can be written and read again.
pub const MAX_SLOTS: usize = 0xffff_fffd;

/// A slot map from keys to positions.
#[verifier::external_body]
pub struct SlotTable {
    map: SlotMap<DefaultKey, usize>,
}

/// What a slot map holds: the position under each key.
pub uninterp spec fn slot_contents(table: SlotTable) -> Map<u64, usize>;

/// The keys that the vacant slots of a slot map give out, in the order in
/// which these slots are occupied.
pub uninterp spec fn slot_vacant(table: SlotTable) -> Seq<u64>;

/// Index of the slot that a key names.
pub open spec fn slot_index(key: u64) -> u64 {
    key % 0x1_0000_0000
}

/// Whether a number has the form of a key: its generation is odd.
pub open spec fn is_slot_key(key: u64) -> bool {
    (key / 0x1_0000_0000) % 2 == 1
}

/// Whether an item can have the key: there is such a slot.
pub open spec fn is_item_key(key: u64) -> bool {
    is_slot_key(key) && 1 <= slot_index(key) < 0xffff_ffff
}

/// The key of a slot and a generation.
pub open spec fn slot_key(index: int, generation: u32) -> u64 {
    (generation as int * 0x1_0000_0000 + index) as u64
}

/// The key of a slot that was never occupied before.
pub open spec fn fresh_key(index: int) -> u64 {
    (0x1_0000_0000 + index) as u64
}

/// The key that a slot gives out after the given one.
pub open spec fn next_key(key: u64) -> u64 {
    if key / 0x1_0000_0000 < 0xffff_ffff {
        (key + 0x2_0000_0000) as u64
    } else {
        fresh_key(slot_index(key) as int)
    }
}

/// One of the keys is the last that its slot can give out before it begins
/// again.
pub open spec fn has_last_key<V>(held: Map<u64, V>) -> bool {
    exists|k: u64| #[trigger] held.contains_key(k) && k / 0x1_0000_0000 == 0xffff_ffff
}

/// `keys` holds exactly the keys of `dom`, by ascending slot index.
pub open spec fn in_slot_order(keys: Seq<u64>, dom: Set<u64>) -> bool {
    &&& forall|i: int, j: int|
        0 <= i < j < keys.len() ==> slot_index(#[trigger] keys[i]) < slot_index(#[trigger] keys[j])
    &&& forall|k: u64| #[trigger] dom.contains(k) <==> keys.contains(k)
}

/// The keys of `dom` by ascending slot index.
pub open spec fn slot_order(dom: Set<u64>) -> Seq<u64> {
    choose|keys: Seq<u64>| in_slot_order(keys, dom)
}

/// Two lists of the same keys in slot order are the same list.
pub proof fn lemma_slot_order_unique(a: Seq<u64>, b: Seq<u64>, dom: Set<u64>)
    requires
        in_slot_order(a, dom),
        in_slot_order(b, dom),
    ensures
        a == b,
    decreases a.len(),
{
    if a.len() == 0 {
        if b.len() > 0 {
            assert(b.contains(b[0]));
            assert(dom.contains(b[0]));
            assert(a.contains(b[0]));
        }
        assert(a =~= b);
    } else {
        let la = a.last();
        assert(a.contains(la));
        assert(dom.contains(la));
        assert(b.contains(la));
        assert(b.len() > 0);
        let lb = b.last();
        assert(b.contains(lb));
        assert(dom.contains(lb));
        assert(a.contains(lb));
        let i = choose|i: int| 0 <= i < a.len() && a[i] == lb;
        let j = choose|j: int| 0 <= j < b.len() && b[j] == la;
        if i < a.len() - 1 {
            assert(slot_index(a[i]) < slot_index(a[a.len() - 1]));
            if j < b.len() - 1 {
                assert(slot_index(b[j]) < slot_index(b[b.len() - 1]));
            }
        }
        assert(la == lb);
        let a0 = a.drop_last();
        let b0 = b.drop_last();
        let d0 = dom.remove(la);
        assert(in_slot_order(a0, d0)) by {
            lemma_slot_order_drop_last(a, dom);
        }
        assert(in_slot_order(b0, d0)) by {
            lemma_slot_order_drop_last(b, dom);
        }
        lemma_slot_order_unique(a0, b0, d0);
        assert(a =~= a0.push(la));
        assert(b =~= b0.push(lb));
    }
}

proof fn lemma_slot_order_drop_last(a: Seq<u64>, dom: Set<u64>)
    requires
        in_slot_order(a, dom),
        a.len() > 0,
    ensures
        in_slot_order(a.drop_last(), dom.remove(a.last())),
{
    let a0 = a.drop_last();
    let d0 = dom.remove(a.last());
    assert forall|k: u64| #[trigger] d0.contains(k) <==> a0.contains(k) by {
        if d0.contains(k) {
            assert(dom.contains(k));
            assert(a.contains(k));
            let i = choose|i: int| 0 <= i < a.len() && a[i] == k;
            assert(a0[i] == k);
        }
        if a0.contains(k) {
            let i = choose|i: int| 0 <= i < a0.len() && a0[i] == k;
            assert(a[i] == k);
            assert(a.contains(k));
            assert(slot_index(a[i]) < slot_index(a[a.len() - 1]));
        }
    }
}

/// Where a key belongs in a list in slot order.
proof fn lemma_slot_place(keys: Seq<u64>, key: u64) -> (place: int)
    requires
        forall|i: int, j: int|
            0 <= i < j < keys.len() ==> slot_index(#[trigger] keys[i]) < slot_index(
                #[trigger] keys[j],
            ),
        forall|i: int| 0 <= i < keys.len() ==> slot_index(#[trigger] keys[i]) != slot_index(key),
    ensures
        0 <= place <= keys.len(),
        forall|i: int| 0 <= i < place ==> slot_index(#[trigger] keys[i]) < slot_index(key),
        forall|i: int| place <= i < keys.len() ==> slot_index(key) < slot_index(#[trigger] keys[i]),
    decreases keys.len(),
{
    if keys.len() == 0 {
        0
    } else if slot_index(keys.last()) < slot_index(key) {
        assert forall|i: int| 0 <= i < keys.len() implies slot_index(#[trigger] keys[i])
            < slot_index(key) by {
            if i < keys.len() - 1 {
                assert(slot_index(keys[i]) < slot_index(keys[keys.len() - 1]));
            }
        }
        keys.len() as int
    } else {
        let rest = keys.drop_last();
        let place = lemma_slot_place(rest, key);
        assert forall|i: int| 0 <= i < place implies slot_index(#[trigger] keys[i]) < slot_index(
            key,
        ) by {
            assert(rest[i] == keys[i]);
        }
        assert forall|i: int| place <= i < keys.len() implies slot_index(key) < slot_index(
            #[trigger] keys[i],
        ) by {
            if i < rest.len() {
                assert(rest[i] == keys[i]);
            } else {
                assert(slot_index(keys[i]) != slot_index(key));
            }
        }
        place
    }
}

/// Keys of different slots can be listed in slot order.
proof fn lemma_slot_order_exists(dom: Set<u64>) -> (keys: Seq<u64>)
    requires
        dom.finite(),
        forall|k: u64, l: u64|
            #![trigger dom.contains(k), dom.contains(l)]
            dom.contains(k) && dom.contains(l) && slot_index(k) == slot_index(l) ==> k == l,
    ensures
        in_slot_order(keys, dom),
    decreases dom.len(),
{
    if dom.len() == 0 {
        assert(dom =~= Set::empty());
        seq![]
    } else {
        let key = dom.choose();
        let rest = dom.remove(key);
        assert forall|k: u64, l: u64|
            #![trigger rest.contains(k), rest.contains(l)]
            rest.contains(k) && rest.contains(l) && slot_index(k) == slot_index(l) implies k
            == l by {
            assert(dom.contains(k) && dom.contains(l));
        }
        let some = lemma_slot_order_exists(rest);
        assert forall|i: int| 0 <= i < some.len() implies slot_index(#[trigger] some[i])
            != slot_index(key) by {
            assert(some.contains(some[i]));
            assert(rest.contains(some[i]));
            assert(dom.contains(some[i]) && dom.contains(key));
        }
        let place = lemma_slot_place(some, key);
        let all = some.insert(place, key);
        assert forall|i: int, j: int| 0 <= i < j < all.len() implies slot_index(#[trigger] all[i])
            < slot_index(#[trigger] all[j]) by {
            let a = if i < place {
                i
            } else {
                i - 1
            };
            let b = if j < place {
                j
            } else {
                j - 1
            };
            if i != place {
                assert(all[i] == some[a]);
            }
            if j != place {
                assert(all[j] == some[b]);
            }
        }
        assert forall|k: u64| #[trigger] dom.contains(k) <==> all.contains(k) by {
            if k == key {
                assert(all[place] == k);
            } else if dom.contains(k) {
                assert(rest.contains(k));
                let i = choose|i: int| 0 <= i < some.len() && some[i] == k;
                if i < place {
                    assert(all[i] == k);
                } else {
                    assert(all[i + 1] == k);
                }
            }
            if all.contains(k) && k != key {
                let i = choose|i: int| 0 <= i < all.len() && all[i] == k;
                if i < place {
                    assert(some[i] == k);
                } else {
                    assert(some[i - 1] == k);
                }
                assert(some.contains(k));
                assert(rest.contains(k));
            }
        }
        all
    }
}

/// A list in slot order is the one that `slot_order` names.
pub proof fn lemma_slot_order_is(keys: Seq<u64>, dom: Set<u64>)
    requires
        in_slot_order(keys, dom),
    ensures
        slot_order(dom) == keys,
{
    lemma_slot_order_unique(slot_order(dom), keys, dom);
}

/// A list in slot order names no key twice.
pub proof fn lemma_slot_order_distinct(keys: Seq<u64>, dom: Set<u64>)
    requires
        in_slot_order(keys, dom),
    ensures
        keys.no_duplicates(),
{
    assert forall|i: int, j: int| 0 <= i < keys.len() && 0 <= j < keys.len() && i != j implies keys[i]
        != keys[j] by {
        if i < j {
            assert(slot_index(keys[i]) < slot_index(keys[j]));
        } else {
            assert(slot_index(keys[j]) < slot_index(keys[i]));
        }
    }
}

/// `SlotMap::new`: the new map holds nothing and has no slots.
#[verifier::external_body]
fn slot_new() -> (table: SlotTable)
    ensures
        slot_contents(table) =~= map![],
        slot_vacant(table) =~= seq![],
{
    SlotTable { map: SlotMap::new() }
}

/// `SlotMap::insert` and `KeyData::as_ffi`: adds the position under a key that
/// no item has, and returns that key. It is the key of the first vacant slot;
/// if every slot is occupied, that of a new slot behind the others. The map
/// must not be full.
#[verifier::external_body]
fn slot_insert(table: &mut SlotTable, position: usize) -> (key: u64)
    requires
        slot_contents(*old(table)).dom().finite(),
        slot_contents(*old(table)).len() < MAX_SLOTS,
    ensures
        is_item_key(key),
        !slot_contents(*old(table)).contains_key(key),
        slot_contents(*final(table)) == slot_contents(*old(table)).insert(key, position),
        slot_vacant(*old(table)).len() > 0 ==> key == slot_vacant(*old(table))[0],
        slot_vacant(*old(table)).len() > 0 ==> slot_vacant(*final(table)) == slot_vacant(
            *old(table),
        ).drop_first(),
        slot_vacant(*old(table)).len() == 0 ==> key == fresh_key(
            slot_contents(*old(table)).len() as int + 1,
        ),
        slot_vacant(*old(table)).len() == 0 ==> slot_vacant(*final(table)) =~= seq![],
{
    table.map.insert(position).data().as_ffi()
}

/// `SlotMap::get` after `KeyData::from_ffi`: the position under the key, if
/// there is one.
#[verifier::external_body]
fn slot_get(table: &SlotTable, key: u64) -> (position: Option<usize>)
    requires
        is_slot_key(key),
    ensures
        position == (if slot_contents(*table).contains_key(key) {
            Some(slot_contents(*table)[key])
        } else {
            None
        }),
{
    table.map.get(DefaultKey::from(KeyData::from_ffi(key))).copied()
}

/// `SlotMap::index_mut`: replaces the position under a key that the map holds,
/// and nothing else.
#[verifier::external_body]
fn slot_set(table: &mut SlotTable, key: u64, position: usize)
    requires
        is_slot_key(key),
        slot_contents(*old(table)).contains_key(key),
    ensures
        slot_contents(*final(table)) == slot_contents(*old(table)).insert(key, position),
        slot_vacant(*final(table)) == slot_vacant(*old(table)),
{
    table.map[DefaultKey::from(KeyData::from_ffi(key))] = position;
}

/// `SlotMap::remove`: takes the key and its position out, and returns the
/// position if there was one. The slot stays and is the next to be occupied,
/// under the key that follows.
#[verifier::external_body]
fn slot_remove(table: &mut SlotTable, key: u64) -> (position: Option<usize>)
    requires
        is_slot_key(key),
    ensures
        position == (if slot_contents(*old(table)).contains_key(key) {
            Some(slot_contents(*old(table))[key])
        } else {
            None
        }),
        slot_contents(*final(table)) == slot_contents(*old(table)).remove(key),
        position is Some ==> slot_vacant(*final(table)) == seq![next_key(key)] + slot_vacant(
            *old(table),
        ),
        position is None ==> slot_vacant(*final(table)) == slot_vacant(*old(table)),
{
    table.map.remove(DefaultKey::from(KeyData::from_ffi(key)))
}

/// `SlotMap::keys`: all keys of the map, by ascending slot index.
#[verifier::external_body]
fn slot_keys(table: &SlotTable) -> (keys: Vec<u64>)
    ensures
        in_slot_order(keys@, slot_contents(*table).dom()),
{
    table.map.keys().map(|key| key.data().as_ffi()).collect()
}

/// `SlotMap::clone`: a map with the same contents, whose vacant slots give out
/// the same keys in the same order.
#[verifier::external_body]
fn slot_clone(table: &SlotTable) -> (copy: SlotTable)
    ensures
        slot_contents(copy) == slot_contents(*table),
        slot_vacant(copy) == slot_vacant(*table),
{
    SlotTable { map: table.map.clone() }
}

/// `SlotMap::deserialize`, which reads a slot map from its slots, handed these
/// as a `Value` of `ron`: refuses lists that cannot be those of a slot map, and
/// else gives the map with the positions under their keys. Its vacant slots
/// are occupied from the last to the first.
#[verifier::external_body]
fn slot_restore(slots: &Vec<(Option<usize>, u32)>) -> (table: Option<SlotTable>)
    ensures
        table is Some <==> are_slots(slots@),
        table matches Some(table) ==> slot_contents(table) == stored(slots@),
        table matches Some(table) ==> is_vacancy(slots@, slot_vacant(table)),
{
    let slot = |place: &Option<usize>, generation: &u32| {
        let place = place.map(|position| position as u64);
        Value::Seq(vec![Value::from(place), Value::from(*generation)])
    };
    let list: Vec<Value> = slots.iter().map(|(place, generation)| slot(place, generation)).collect();
    let map: Option<SlotMap<DefaultKey, usize>> = Value::Seq(list).into_rust().ok();
    map.map(|map| SlotTable { map })
}

/// Items under stable keys.
pub struct Arena<V> {
    table: SlotTable,
    items: Vec<(u64, V)>,
    // number of slots, occupied or vacant
    slots: usize,
}

impl<V> View for Arena<V> {
    type V = Map<u64, V>;

    closed spec fn view(&self) -> Map<u64, V> {
        Map::new(
            |key: u64| slot_contents(self.table).contains_key(key),
            |key: u64| self.items@[slot_contents(self.table)[key] as int].1,
        )
    }
}

/// The slot map and the items name each other.
spec fn is_indexed<V>(held: Map<u64, usize>, items: Seq<(u64, V)>) -> bool {
    &&& held.dom().finite()
    &&& held.len() == items.len()
    &&& held.len() <= MAX_SLOTS
    &&& forall|key: u64| #[trigger]
        held.contains_key(key) ==> {
            &&& is_item_key(key)
            &&& held[key] < items.len()
            &&& items[held[key] as int].0 == key
        }
    &&& forall|i: int|
        0 <= i < items.len() ==> {
            &&& held.contains_key(#[trigger] items[i].0)
            &&& held[items[i].0] == i
        }
}

/// Each slot has one key: the one that is held, or the one that it gives out.
spec fn is_slotted(held: Map<u64, usize>, vacant: Seq<u64>, slots: int) -> bool {
    &&& slots == held.len() + vacant.len()
    &&& slots <= MAX_SLOTS
    &&& vacant.no_duplicates()
    &&& forall|k: u64| #[trigger] held.contains_key(k) ==> 1 <= slot_index(k) <= slots
    &&& forall|k: u64| #[trigger]
        vacant.contains(k) ==> is_item_key(k) && slot_index(k) <= slots && !held.contains_key(k)
    &&& forall|k: u64, l: u64|
        #![trigger slot_index(k), slot_index(l)]
        (held.contains_key(k) || vacant.contains(k)) && (held.contains_key(l) || vacant.contains(l))
            && slot_index(k) == slot_index(l) ==> k == l
}

impl<V> Arena<V> {
    /// The slot map and the items name each other, and each slot has one key.
    pub closed spec fn wf(&self) -> bool {
        &&& is_indexed(slot_contents(self.table), self.items@)
        &&& is_slotted(slot_contents(self.table), slot_vacant(self.table), self.slots as int)
    }

    /// The keys that the vacant slots give out, in the order in which these
    /// slots are occupied.
    pub closed spec fn vacant(&self) -> Seq<u64> {
        slot_vacant(self.table)
    }

    /// The key is the present one of its slot: an item has it, or the next
    /// item in that slot gets it.
    pub open spec fn is_current(&self, key: u64) -> bool {
        self@.contains_key(key) || self.vacant().contains(key)
    }

    /// The key was given out and taken back: its slot has come to a later
    /// generation.
    pub open spec fn is_retired(&self, key: u64) -> bool {
        exists|k: u64| #[trigger]
            self.is_current(k) && slot_index(k) == slot_index(key) && key < k
    }

    /// An item has the last key that its slot can give out before it begins
    /// again.
    pub open spec fn is_worn(&self) -> bool {
        has_last_key(self@)
    }

    /// The key that the next item gets.
    pub open spec fn next(&self) -> u64 {
        if self.vacant().len() > 0 {
            self.vacant()[0]
        } else {
            fresh_key(self@.len() as int + 1)
        }
    }

    proof fn lemma_dom(&self)
        ensures
            self@.dom() == slot_contents(self.table).dom(),
    {
        assert(self@.dom() =~= slot_contents(self.table).dom());
    }

    /// What holds of the contents of every arena.
    pub proof fn lemma_contents(&self)
        requires
            self.wf(),
        ensures
            self@.dom().finite(),
            self@.len() <= MAX_SLOTS,
            forall|key: u64| #[trigger] self@.contains_key(key) ==> is_item_key(key),
    {
        self.lemma_dom();
    }

    /// The keys of every arena can be listed in slot order.
    pub proof fn lemma_order(&self)
        requires
            self.wf(),
        ensures
            in_slot_order(slot_order(self@.dom()), self@.dom()),
    {
        self.lemma_dom();
        assert forall|k: u64, l: u64|
            #![trigger self@.dom().contains(k), self@.dom().contains(l)]
            self@.dom().contains(k) && self@.dom().contains(l) && slot_index(k) == slot_index(
                l,
            ) implies k == l by {
            assert(slot_contents(self.table).contains_key(k));
            assert(slot_contents(self.table).contains_key(l));
        }
        let keys = lemma_slot_order_exists(self@.dom());
        assert(in_slot_order(keys, self@.dom()));
    }

    /// No item has a retired key, and the next item does not get one.
    pub proof fn lemma_retired(&self, key: u64)
        requires
            self.wf(),
            self.is_retired(key),
        ensures
            !self@.contains_key(key),
            self@.len() < MAX_SLOTS ==> self.next() != key,
    {
        let k = choose|k: u64| #[trigger]
            self.is_current(k) && slot_index(k) == slot_index(key) && key < k;
        assert(self.is_current(k));
        self.lemma_dom();
        if self.is_current(key) {
            assert(slot_index(k) == slot_index(key));
        }
        if self.vacant().len() > 0 {
            assert(self.vacant().contains(self.vacant()[0]));
            assert(self.is_current(self.next()));
        }
    }

    /// An arena without items.
    pub fn new() -> (arena: Self)
        ensures
            arena.wf(),
            arena@ == Map::<u64, V>::empty(),
            arena.vacant() =~= seq![],
    {
        let arena = Arena { table: slot_new(), items: Vec::new(), slots: 0 };
        assert(arena@ =~= Map::<u64, V>::empty());
        arena
    }

    /// Number of items.
    pub fn len(&self) -> (count: usize)
        requires
            self.wf(),
        ensures
            count == self@.len(),
    {
        proof {
            self.lemma_dom();
        }
        self.items.len()
    }

    fn position(&self, key: u64) -> (position: Option<usize>)
        requires
            self.wf(),
        ensures
            position == (if slot_contents(self.table).contains_key(key) {
                Some(slot_contents(self.table)[key])
            } else {
                None
            }),
    {
        if (key / 0x1_0000_0000) % 2 == 1 {
            slot_get(&self.table, key)
        } else {
            None
        }
    }

    /// Whether an item has the key.
    pub fn contains(&self, key: u64) -> (found: bool)
        requires
            self.wf(),
        ensures
            found == self@.contains_key(key),
    {
        self.position(key).is_some()
    }

    /// The item under a key.
    pub fn get(&self, key: u64) -> (item: Option<&V>)
        requires
            self.wf(),
        ensures
            item == (if self@.contains_key(key) {
                Some(&self@[key])
            } else {
                None
            }),
    {
        match self.position(key) {
            Some(i) => Some(&self.items[i].1),
            None => None,
        }
    }

    /// The item under a key that the arena holds.
    pub fn at(&self, key: u64) -> (item: &V)
        requires
            self.wf(),
            self@.contains_key(key),
        ensures
            *item == self@[key],
    {
        match self.position(key) {
            Some(i) => &self.items[i].1,
            None => &self.items[0].1,
        }
    }

    /// Adds an item and returns its new key, which no item had before.
    pub fn insert(&mut self, item: V) -> (key: u64)
        requires
            old(self).wf(),
            old(self)@.len() < MAX_SLOTS,
        ensures
            final(self).wf(),
            is_slot_key(key),
            !old(self)@.contains_key(key),
            final(self)@ == old(self)@.insert(key, item),
            key == old(self).next(),
            !old(self).is_retired(key),
            final(self).vacant() == (if old(self).vacant().len() > 0 {
                old(self).vacant().drop_first()
            } else {
                seq![]
            }),
            keeps_keys(*old(self), *final(self)),
    {
        proof {
            self.lemma_dom();
        }
        let ghost held = slot_contents(self.table);
        let ghost vacant = slot_vacant(self.table);
        let position: usize = self.items.len();
        let fresh = self.items.len() == self.slots;
        let key = slot_insert(&mut self.table, position);
        self.items.push((key, item));
        if fresh {
            self.slots = self.slots + 1;
        }
        assert(self@ =~= old(self)@.insert(key, item));
        proof {
            let after = slot_vacant(self.table);
            if vacant.len() > 0 {
                assert(vacant[0] == key);
                assert(vacant.contains(key));
                assert forall|k: u64| #[trigger] after.contains(k) <==> vacant.contains(k) && k
                    != key by {
                    if after.contains(k) {
                        let i = choose|i: int| 0 <= i < after.len() && after[i] == k;
                        assert(vacant[i + 1] == k);
                    }
                    if vacant.contains(k) && k != key {
                        let i = choose|i: int| 0 <= i < vacant.len() && vacant[i] == k;
                        assert(after[i - 1] == k);
                    }
                }
                assert forall|i: int, j: int|
                    0 <= i < after.len() && 0 <= j < after.len() && i != j implies after[i]
                    != after[j] by {
                    assert(after[i] == vacant[i + 1]);
                    assert(after[j] == vacant[j + 1]);
                }
            } else {
                assert(slot_index(key) == self.slots);
            }
            assert(is_slotted(slot_contents(self.table), after, self.slots as int));
            lemma_stay_retired(*old(self), *self);
            if old(self).is_retired(key) {
                old(self).lemma_retired(key);
            }
        }
        key
    }

    /// Replaces the item under a key that the arena holds.
    pub fn set(&mut self, key: u64, item: V)
        requires
            old(self).wf(),
            old(self)@.contains_key(key),
        ensures
            final(self).wf(),
            final(self)@ == old(self)@.insert(key, item),
            final(self).vacant() == old(self).vacant(),
    {
        if let Some(i) = self.position(key) {
            self.items.set(i, (key, item));
        }
        assert(self@ =~= old(self)@.insert(key, item));
    }

    /// Mutable access to the item under a key.
    pub fn get_mut(&mut self, key: u64) -> (item: Option<&mut V>)
        requires
            old(self).wf(),
        ensures
            item is Some <==> old(self)@.contains_key(key),
            item is None ==> final(self)@ == old(self)@,
            item matches Some(place) ==> *place == old(self)@[key] && final(self)@ == old(
                self,
            )@.insert(key, *final(place)),
            final(self).wf(),
            final(self).vacant() == old(self).vacant(),
    {
        match self.position(key) {
            Some(i) => Some(&mut self.items[i].1),
            None => None,
        }
    }

    /// Takes the item under a key out. The key is retired, and so is every
    /// key that was, unless the generations of the slot are used up.
    pub fn remove(&mut self, key: u64) -> (item: Option<V>)
        requires
            old(self).wf(),
        ensures
            final(self).wf(),
            item == (if old(self)@.contains_key(key) {
                Some(old(self)@[key])
            } else {
                None
            }),
            final(self)@ == old(self)@.remove(key),
            final(self).vacant() == (if old(self)@.contains_key(key) {
                seq![next_key(key)] + old(self).vacant()
            } else {
                old(self).vacant()
            }),
            !(old(self)@.contains_key(key) && key / 0x1_0000_0000 == 0xffff_ffff) ==> keeps_keys(
                *old(self),
                *final(self),
            ),
            !old(self).is_worn() ==> keeps_keys(*old(self), *final(self)) && !final(self).is_worn(),
    {
        let ghost held = slot_contents(self.table);
        let ghost vacant = slot_vacant(self.table);
        if (key / 0x1_0000_0000) % 2 == 1 {
            match slot_remove(&mut self.table, key) {
                Some(i) => {
                    let (_, item) = self.items.swap_remove(i);
                    if i < self.items.len() {
                        let moved = self.items[i].0;
                        slot_set(&mut self.table, moved, i);
                    }
                    assert(self@ =~= old(self)@.remove(key));
                    proof {
                        let after = slot_vacant(self.table);
                        let next = next_key(key);
                        assert(slot_contents(self.table).dom() =~= held.dom().remove(key));
                        lemma_next_key(key);
                        assert(!vacant.contains(next)) by {
                            if vacant.contains(next) {
                                assert(slot_index(next) == slot_index(key));
                            }
                        }
                        assert(!slot_contents(self.table).contains_key(next)) by {
                            if held.contains_key(next) {
                                assert(slot_index(next) == slot_index(key));
                            }
                        }
                        assert(after[0] == next);
                        assert forall|k: u64| #[trigger] after.contains(k) <==> vacant.contains(k)
                            || k == next by {
                            if vacant.contains(k) {
                                let j = choose|j: int| 0 <= j < vacant.len() && vacant[j] == k;
                                assert(after[j + 1] == k);
                            }
                        }
                        assert(is_slotted(slot_contents(self.table), after, self.slots as int));
                        assert(self.is_current(next));
                        lemma_fewer_worn(*old(self), *self);
                        assert(old(self)@.contains_key(key));
                        if key / 0x1_0000_0000 < 0xffff_ffff {
                            assert(self.is_retired(key));
                            assert forall|k: u64| #[trigger] old(self).is_retired(
                                k,
                            ) implies self.is_retired(k) by {
                                let l = choose|l: u64| #[trigger]
                                    old(self).is_current(l) && slot_index(l) == slot_index(k) && k
                                        < l;
                                if l == key {
                                    assert(self.is_current(next));
                                } else {
                                    assert(self.is_current(l));
                                }
                            }
                        }
                    }
                    Some(item)
                },
                None => {
                    assert(slot_contents(self.table) =~= slot_contents(old(self).table));
                    assert(self@ =~= old(self)@.remove(key));
                    proof {
                        lemma_stay_retired(*old(self), *self);
                        lemma_fewer_worn(*old(self), *self);
                    }
                    None
                },
            }
        } else {
            assert(self@ =~= old(self)@.remove(key));
            proof {
                lemma_stay_retired(*old(self), *self);
                lemma_fewer_worn(*old(self), *self);
            }
            None
        }
    }

    /// All keys, by ascending slot index.
    pub fn keys(&self) -> (keys: Vec<u64>)
        ensures
            in_slot_order(keys@, self@.dom()),
            keys@ == slot_order(self@.dom()),
    {
        let keys = slot_keys(&self.table);
        proof {
            self.lemma_dom();
            lemma_slot_order_is(keys@, self@.dom());
        }
        keys
    }

    /// An arena with the same keys, whose items `copy` makes from the items.
    pub fn duplicate_with<F: Fn(&V) -> V>(&self, copy: F) -> (arena: Self)
        requires
            self.wf(),
            forall|key: u64| #[trigger]
                self@.contains_key(key) ==> call_requires(copy, (&self@[key],)),
        ensures
            arena.wf(),
            arena@.dom() == self@.dom(),
            arena.vacant() == self.vacant(),
            forall|key: u64| #[trigger]
                self@.contains_key(key) ==> call_ensures(copy, (&self@[key],), arena@[key]),
    {
        let mut items: Vec<(u64, V)> = Vec::new();
        let mut i: usize = 0;
        while i < self.items.len()
            invariant
                self.wf(),
                forall|key: u64| #[trigger]
                    self@.contains_key(key) ==> call_requires(copy, (&self@[key],)),
                i <= self.items@.len(),
                items@.len() == i,
                forall|j: int|
                    0 <= j < i ==> (#[trigger] items@[j]).0 == self.items@[j].0 && call_ensures(
                        copy,
                        (&self.items@[j].1,),
                        items@[j].1,
                    ),
            decreases self.items@.len() - i,
        {
            assert(self@.contains_key(self.items@[i as int].0));
            let item = copy(&self.items[i].1);
            items.push((self.items[i].0, item));
            i = i + 1;
        }
        let arena = Arena { table: slot_clone(&self.table), items, slots: self.slots };
        proof {
            arena.lemma_dom();
            self.lemma_dom();
            assert forall|key: u64| #[trigger] self@.contains_key(key) implies call_ensures(
                copy,
                (&self@[key],),
                arena@[key],
            ) by {
                let i = slot_contents(self.table)[key] as int;
                assert(items@[i].0 == self.items@[i].0);
            }
            assert forall|i: int| 0 <= i < arena.items@.len() implies slot_contents(
                arena.table,
            ).contains_key(#[trigger] arena.items@[i].0) && slot_contents(
                arena.table,
            )[arena.items@[i].0] == i by {
                assert(arena.items@[i].0 == self.items@[i].0);
            }
        }
        arena
    }
}

/// No key comes back: what is retired stays so, and the key of what is gone is
/// retired.
pub open spec fn keeps_keys<V>(before: Arena<V>, after: Arena<V>) -> bool {
    &&& forall|k: u64| #[trigger] before.is_retired(k) ==> after.is_retired(k)
    &&& forall|k: u64| #[trigger]
        before@.contains_key(k) && !after@.contains_key(k) ==> after.is_retired(k)
}

/// What keeps the keys twice keeps them.
pub proof fn lemma_keeps_keys<V>(a: Arena<V>, b: Arena<V>, c: Arena<V>)
    requires
        keeps_keys(a, b),
        keeps_keys(b, c),
    ensures
        keeps_keys(a, c),
{
    assert forall|k: u64| #[trigger] a@.contains_key(k) && !c@.contains_key(k) implies c.is_retired(
        k,
    ) by {
        if b@.contains_key(k) {
            assert(c.is_retired(k));
        } else {
            assert(b.is_retired(k));
        }
    }
}

/// A change of the items alone keeps the keys.
pub proof fn lemma_same_keys<V>(before: Arena<V>, after: Arena<V>)
    requires
        after@.dom() == before@.dom(),
        after.vacant() == before.vacant(),
    ensures
        keeps_keys(before, after),
{
    assert forall|k: u64| before.is_current(k) implies #[trigger] after.is_current(k) by {
        assert(before@.dom().contains(k) == after@.dom().contains(k));
    }
    lemma_stay_retired(before, after);
    assert forall|k: u64| #[trigger] before@.contains_key(k) implies after@.contains_key(k) by {
        assert(after@.dom().contains(k));
    }
}

proof fn lemma_fewer_worn<V>(before: Arena<V>, after: Arena<V>)
    requires
        forall|k: u64| #[trigger] after@.contains_key(k) ==> before@.contains_key(k),
    ensures
        after.is_worn() ==> before.is_worn(),
{
    if after.is_worn() {
        let k = choose|k: u64| #[trigger]
            after@.contains_key(k) && k / 0x1_0000_0000 == 0xffff_ffff;
        assert(before@.contains_key(k));
    }
}

proof fn lemma_stay_retired<V>(before: Arena<V>, after: Arena<V>)
    requires
        forall|k: u64| #[trigger] before.is_current(k) ==> after.is_current(k),
    ensures
        forall|k: u64| #[trigger] before.is_retired(k) ==> after.is_retired(k),
{
    assert forall|k: u64| #[trigger] before.is_retired(k) implies after.is_retired(k) by {
        let l = choose|l: u64| #[trigger]
            before.is_current(l) && slot_index(l) == slot_index(k) && k < l;
        assert(after.is_current(l));
    }
}

/// A slot gives out another key of its own, and a later one unless its
/// generations are used up.
proof fn lemma_next_key(key: u64)
    requires
        is_item_key(key),
    ensures
        is_item_key(next_key(key)),
        slot_index(next_key(key)) == slot_index(key),
        key / 0x1_0000_0000 < 0xffff_ffff ==> key < next_key(key),
        key / 0x1_0000_0000 == 0xffff_ffff ==> next_key(key) < key,
{
    if key / 0x1_0000_0000 < 0xffff_ffff {
        assert(key / 0x1_0000_0000 <= 0xffff_fffd);
        assert(key + 0x2_0000_0000 <= u64::MAX);
    }
}

fn copy_item<V: Copy>(item: &V) -> (copy: V)
    ensures
        copy == *item,
{
    *item
}

impl<V: Copy> Arena<V> {
    /// An arena with the same keys and items.
    pub fn duplicate(&self) -> (arena: Self)
        requires
            self.wf(),
        ensures
            arena.wf(),
            arena@ == self@,
            arena.vacant() == self.vacant(),
    {
        let arena = self.duplicate_with(copy_item);
        assert(arena@ =~= self@);
        arena
    }
}

/// The slots of a store as a list: the item of a slot if it is occupied, and
/// the generation of the slot. The first slot is never occupied; a slot is
/// occupied if and only if its generation is odd.
pub open spec fn are_slots<V>(slots: Seq<(Option<V>, u32)>) -> bool {
    &&& 0 < slots.len() < u32::MAX
    &&& slots[0].0 is None
    &&& forall|i: int|
        0 <= i < slots.len() ==> ((#[trigger] slots[i]).0 is Some <==> slots[i].1 % 2 == 1)
}

/// The list has an item under the key.
pub open spec fn holds<V>(slots: Seq<(Option<V>, u32)>, key: u64) -> bool {
    &&& slot_index(key) < slots.len()
    &&& slots[slot_index(key) as int].0 is Some
    &&& slots[slot_index(key) as int].1 == key / 0x1_0000_0000
}

/// The items of a list of slots under their keys.
pub open spec fn stored<V>(slots: Seq<(Option<V>, u32)>) -> Map<u64, V> {
    Map::new(|key: u64| holds(slots, key), |key: u64| slots[slot_index(key) as int].0->0)
}

/// The list has a vacant slot that gives out the key, with the generation that
/// follows.
pub open spec fn gives_out<V>(slots: Seq<(Option<V>, u32)>, key: u64) -> bool {
    let i = slot_index(key) as int;
    &&& 1 <= i < slots.len()
    &&& slots[i].0 is None
    &&& key / 0x1_0000_0000 == slots[i].1 + 1
}

/// The keys that the vacant slots of a list give out, from the last slot to
/// the first.
pub open spec fn is_vacancy<V>(slots: Seq<(Option<V>, u32)>, vacant: Seq<u64>) -> bool {
    &&& forall|i: int, j: int|
        0 <= i < j < vacant.len() ==> slot_index(#[trigger] vacant[j]) < slot_index(
            #[trigger] vacant[i],
        )
    &&& forall|k: u64| #[trigger] vacant.contains(k) <==> gives_out(slots, k)
}

/// The list has the generation of each vacant slot of the arena.
pub open spec fn keeps_vacancy<V, D>(arena: Arena<V>, slots: Seq<(Option<D>, u32)>) -> bool {
    forall|k: u64| #[trigger]
        arena.vacant().contains(k) ==> {
            &&& slot_index(k) < slots.len()
            &&& slots[slot_index(k) as int].0 is None
            &&& slots[slot_index(k) as int].1 == k / 0x1_0000_0000 - 1
        }
}

/// A key is retired in what is restored from a list of slots if it was in the
/// arena that was listed.
pub proof fn lemma_retired_restored<V, D, W>(
    arena: Arena<V>,
    slots: Seq<(Option<D>, u32)>,
    back: Arena<W>,
    key: u64,
)
    requires
        arena.wf(),
        arena.is_retired(key),
        forall|k: u64| #[trigger] arena@.contains_key(k) <==> holds(slots, k),
        keeps_vacancy(arena, slots),
        back@.dom() == stored(slots).dom(),
        is_vacancy(slots, back.vacant()),
    ensures
        back.is_retired(key),
{
    let k = choose|k: u64| #[trigger]
        arena.is_current(k) && slot_index(k) == slot_index(key) && key < k;
    if arena@.contains_key(k) {
        assert(stored(slots).dom().contains(k));
        assert(back@.contains_key(k));
        assert(back.is_current(k));
    } else {
        assert(arena.vacant().contains(k));
        assert(is_item_key(k));
        assert(gives_out(slots, k));
        assert(back.vacant().contains(k));
        assert(back.is_current(k));
    }
}

/// The parts of a key.
pub proof fn lemma_slot_key(index: int, generation: u32)
    requires
        0 <= index < 0x1_0000_0000,
    ensures
        slot_index(slot_key(index, generation)) == index,
        slot_key(index, generation) / 0x1_0000_0000 == generation,
        slot_key(index, generation) == generation as int * 0x1_0000_0000 + index,
{
    let key = generation as int * 0x1_0000_0000 + index;
    assert(key <= u64::MAX);
}

impl<V> Arena<V> {
    /// The keys that the vacant slots give out.
    fn vacant_keys(&self) -> (keys: Vec<u64>)
        requires
            self.wf(),
        ensures
            keys@ == self.vacant(),
    {
        let ghost vacant = self.vacant();
        let mut table = slot_clone(&self.table);
        let mut keys: Vec<u64> = Vec::new();
        let count: usize = self.slots - self.items.len();
        assert(vacant.skip(0) =~= vacant);
        while keys.len() < count
            invariant
                self.wf(),
                count == self.slots - self.items@.len(),
                vacant == self.vacant(),
                count == vacant.len(),
                keys@.len() <= count,
                keys@ == vacant.take(keys@.len() as int),
                slot_vacant(table) == vacant.skip(keys@.len() as int),
                slot_contents(table).dom().finite(),
                slot_contents(table).len() == self.items@.len() + keys@.len(),
            decreases count - keys@.len(),
        {
            let ghost done = keys@.len() as int;
            let key = slot_insert(&mut table, 0);
            keys.push(key);
            proof {
                assert(vacant.skip(done)[0] == vacant[done]);
                assert(vacant.skip(done).drop_first() =~= vacant.skip(done + 1));
                assert(vacant.take(done + 1) =~= vacant.take(done).push(vacant[done]));
            }
        }
        assert(vacant.take(count as int) =~= vacant);
        keys
    }

    /// The slots of the arena as a list, with what `describe` makes of the
    /// items.
    pub fn slots_with<D, F: Fn(&V) -> D>(&self, describe: F) -> (slots: Vec<(Option<D>, u32)>)
        requires
            self.wf(),
            forall|key: u64| #[trigger]
                self@.contains_key(key) ==> call_requires(describe, (&self@[key],)),
        ensures
            are_slots(slots@),
            forall|key: u64| #[trigger] self@.contains_key(key) <==> holds(slots@, key),
            forall|key: u64| #[trigger]
                self@.contains_key(key) ==> call_ensures(
                    describe,
                    (&self@[key],),
                    stored(slots@)[key],
                ),
            keeps_vacancy(*self, slots@),
    {
        let mut slots: Vec<(Option<D>, u32)> = Vec::new();
        slots.push((None, 0));
        let mut i: usize = 0;
        while i < self.slots
            invariant
                i <= self.slots,
                self.slots <= MAX_SLOTS,
                slots@.len() == i + 1,
                forall|x: int| 0 <= x < slots@.len() ==> #[trigger] slots@[x] == (None::<D>, 0u32),
            decreases self.slots - i,
        {
            slots.push((None, 0));
            i = i + 1;
        }
        let mut j: usize = 0;
        while j < self.items.len()
            invariant
                self.wf(),
                forall|key: u64| #[trigger]
                    self@.contains_key(key) ==> call_requires(describe, (&self@[key],)),
                j <= self.items@.len(),
                slots@.len() == self.slots + 1,
                are_slots(slots@),
                forall|x: int|
                    0 <= x < slots@.len() && (#[trigger] slots@[x]).0 is Some ==> is_listed_at(
                        self.items@,
                        j as int,
                        x,
                    ),
                forall|a: int|
                    0 <= a < j ==> is_written(describe, #[trigger] self.items@[a], slots@),
            decreases self.items@.len() - j,
        {
            let ghost before = slots@;
            let key = self.items[j].0;
            assert(self.items@[j as int].0 == key);
            assert(slot_contents(self.table).contains_key(key));
            assert(self@.contains_key(key));
            let index: usize = (key % 0x1_0000_0000) as usize;
            let generation: u32 = (key / 0x1_0000_0000) as u32;
            let item = describe(&self.items[j].1);
            slots.set(index, (Some(item), generation));
            proof {
                assert forall|x: int|
                    0 <= x < slots@.len() && (#[trigger] slots@[x]).0 is Some implies is_listed_at(
                    self.items@,
                    j + 1,
                    x,
                ) by {
                    if x == index {
                        assert(slot_index(self.items@[j as int].0) == x);
                    } else {
                        assert(before[x].0 is Some);
                        let a = choose|a: int|
                            0 <= a < j && slot_index((#[trigger] self.items@[a]).0) == x;
                        assert(slot_index(self.items@[a].0) == x);
                    }
                }
                assert forall|a: int| 0 <= a < j + 1 implies is_written(
                    describe,
                    #[trigger] self.items@[a],
                    slots@,
                ) by {
                    if a < j {
                        assert(is_written(describe, self.items@[a], before));
                        assert(slot_contents(self.table).contains_key(self.items@[a].0));
                        if slot_index(self.items@[a].0) == slot_index(key) {
                            assert(self.items@[a].0 == key);
                        }
                    }
                }
            }
            j = j + 1;
        }
        let vacant = self.vacant_keys();
        let mut v: usize = 0;
        while v < vacant.len()
            invariant
                self.wf(),
                vacant@ == self.vacant(),
                v <= vacant@.len(),
                slots@.len() == self.slots + 1,
                are_slots(slots@),
                forall|x: int|
                    0 <= x < slots@.len() && (#[trigger] slots@[x]).0 is Some ==> is_listed_at(
                        self.items@,
                        self.items@.len() as int,
                        x,
                    ),
                forall|a: int|
                    0 <= a < self.items@.len() ==> is_written(
                        describe,
                        #[trigger] self.items@[a],
                        slots@,
                    ),
                forall|a: int|
                    0 <= a < v ==> slots@[slot_index(#[trigger] vacant@[a]) as int].0 is None
                        && slots@[slot_index(vacant@[a]) as int].1 == vacant@[a] / 0x1_0000_0000
                        - 1,
            decreases vacant@.len() - v,
        {
            let ghost before = slots@;
            let key = vacant[v];
            assert(self.vacant()[v as int] == key);
            assert(self.vacant().contains(key));
            let index: usize = (key % 0x1_0000_0000) as usize;
            let generation: u32 = (key / 0x1_0000_0000 - 1) as u32;
            slots.set(index, (None, generation));
            proof {
                assert forall|a: int| 0 <= a < self.items@.len() implies is_written(
                    describe,
                    #[trigger] self.items@[a],
                    slots@,
                ) by {
                    assert(is_written(describe, self.items@[a], before));
                    assert(slot_contents(self.table).contains_key(self.items@[a].0));
                    if slot_index(self.items@[a].0) == slot_index(key) {
                        assert(self.items@[a].0 == key);
                    }
                }
                assert forall|x: int|
                    0 <= x < slots@.len() && (#[trigger] slots@[x]).0 is Some implies is_listed_at(
                    self.items@,
                    self.items@.len() as int,
                    x,
                ) by {
                    assert(before[x].0 is Some);
                }
                assert forall|a: int| 0 <= a < v + 1 implies slots@[slot_index(
                    #[trigger] vacant@[a],
                ) as int].0 is None && slots@[slot_index(vacant@[a]) as int].1 == vacant@[a]
                    / 0x1_0000_0000 - 1 by {
                    assert(self.vacant().contains(vacant@[a]));
                    if slot_index(vacant@[a]) == slot_index(key) {
                        assert(vacant@[a] == key);
                    }
                }
            }
            v = v + 1;
        }
        proof {
            assert forall|key: u64| #[trigger] self@.contains_key(key) <==> holds(slots@, key) by {
                if self@.contains_key(key) {
                    let a = slot_contents(self.table)[key] as int;
                    assert(is_written(describe, self.items@[a], slots@));
                }
                if holds(slots@, key) {
                    let x = slot_index(key) as int;
                    assert(slots@[x].0 is Some);
                    let a = choose|a: int|
                        0 <= a < self.items@.len() && slot_index((#[trigger] self.items@[a]).0)
                            == x;
                    assert(is_written(describe, self.items@[a], slots@));
                    assert(self.items@[a].0 == key);
                    assert(slot_contents(self.table).contains_key(self.items@[a].0));
                }
            }
            assert forall|key: u64| #[trigger] self@.contains_key(key) implies call_ensures(
                describe,
                (&self@[key],),
                stored(slots@)[key],
            ) by {
                let a = slot_contents(self.table)[key] as int;
                assert(is_written(describe, self.items@[a], slots@));
            }
            assert forall|k: u64| #[trigger] self.vacant().contains(k) implies slot_index(k)
                < slots@.len() && slots@[slot_index(k) as int].0 is None && slots@[slot_index(
                k,
            ) as int].1 == k / 0x1_0000_0000 - 1 by {
                let a = choose|a: int| 0 <= a < vacant@.len() && vacant@[a] == k;
                assert(slots@[slot_index(vacant@[a]) as int].0 is None);
            }
        }
        slots
    }
}

/// What is made of the first slots of a list: the items with their keys, the
/// slots with places in that list, and the keys that the vacant slots give out.
spec fn is_taken<V>(
    slots: Seq<(Option<V>, u32)>,
    n: int,
    items: Seq<(u64, V)>,
    places: Seq<(Option<usize>, u32)>,
    spare: Seq<u64>,
) -> bool {
    &&& places.len() == n
    &&& items.len() + spare.len() == n - 1
    &&& forall|i: int|
        0 <= i < n ==> {
            &&& (#[trigger] places[i]).1 == slots[i].1
            &&& places[i].0 is Some <==> slots[i].0 is Some
            &&& places[i].0 matches Some(p) ==> p < items.len() && items[p as int] == (
                slot_key(i, slots[i].1),
                slots[i].0->0,
            )
        }
    &&& forall|p: int|
        0 <= p < items.len() ==> {
            let i = slot_index((#[trigger] items[p]).0) as int;
            &&& 1 <= i < n
            &&& places[i].0 == Some(p as usize)
            &&& items[p].0 / 0x1_0000_0000 == slots[i].1
        }
    &&& forall|s: int|
        0 <= s < spare.len() ==> {
            let i = slot_index(#[trigger] spare[s]) as int;
            &&& 1 <= i < n
            &&& slots[i].0 is None
            &&& spare[s] == slot_key(i, (slots[i].1 + 1) as u32)
        }
    &&& forall|s: int, t: int|
        0 <= s < t < spare.len() ==> slot_index(#[trigger] spare[s]) < slot_index(
            #[trigger] spare[t],
        )
    &&& forall|i: int|
        1 <= i < n && (#[trigger] slots[i]).0 is None ==> spare.contains(
            slot_key(i, (slots[i].1 + 1) as u32),
        )
}

proof fn lemma_taken_item<V>(
    slots: Seq<(Option<V>, u32)>,
    n: int,
    items: Seq<(u64, V)>,
    places: Seq<(Option<usize>, u32)>,
    spare: Seq<u64>,
)
    requires
        is_taken(slots, n, items, places, spare),
        1 <= n < slots.len() < u32::MAX,
        slots[n].0 is Some,
        items.len() <= usize::MAX,
    ensures
        is_taken(
            slots,
            n + 1,
            items.push((slot_key(n, slots[n].1), slots[n].0->0)),
            places.push((Some(items.len() as usize), slots[n].1)),
            spare,
        ),
{
    lemma_slot_key(n, slots[n].1);
    let key = slot_key(n, slots[n].1);
    let longer = items.push((key, slots[n].0->0));
    let more = places.push((Some(items.len() as usize), slots[n].1));
    assert forall|i: int| 0 <= i < n + 1 implies (#[trigger] more[i]).1 == slots[i].1 && (
    more[i].0 is Some <==> slots[i].0 is Some) && (more[i].0 matches Some(p) ==> p < longer.len()
        && longer[p as int] == (slot_key(i, slots[i].1), slots[i].0->0)) by {
        if i < n {
            assert(more[i] == places[i]);
        }
    }
    assert forall|p: int| 0 <= p < longer.len() implies ({
        let i = slot_index((#[trigger] longer[p]).0) as int;
        &&& 1 <= i < n + 1
        &&& more[i].0 == Some(p as usize)
        &&& longer[p].0 / 0x1_0000_0000 == slots[i].1
    }) by {
        if p < items.len() {
            assert(longer[p] == items[p]);
            assert(more[slot_index(items[p].0) as int] == places[slot_index(items[p].0) as int]);
        }
    }
}

proof fn lemma_taken_spare<V>(
    slots: Seq<(Option<V>, u32)>,
    n: int,
    items: Seq<(u64, V)>,
    places: Seq<(Option<usize>, u32)>,
    spare: Seq<u64>,
)
    requires
        is_taken(slots, n, items, places, spare),
        1 <= n < slots.len() < u32::MAX,
        slots[n].0 is None,
    ensures
        is_taken(
            slots,
            n + 1,
            items,
            places.push((None, slots[n].1)),
            spare.push(slot_key(n, (slots[n].1 + 1) as u32)),
        ),
{
    let key = slot_key(n, (slots[n].1 + 1) as u32);
    lemma_slot_key(n, (slots[n].1 + 1) as u32);
    let longer = spare.push(key);
    let more = places.push((None, slots[n].1));
    assert forall|i: int| 0 <= i < n + 1 implies (#[trigger] more[i]).1 == slots[i].1 && (
    more[i].0 is Some <==> slots[i].0 is Some) && (more[i].0 matches Some(p) ==> p < items.len()
        && items[p as int] == (slot_key(i, slots[i].1), slots[i].0->0)) by {
        if i < n {
            assert(more[i] == places[i]);
        }
    }
    assert forall|p: int| 0 <= p < items.len() implies ({
        let i = slot_index((#[trigger] items[p]).0) as int;
        &&& 1 <= i < n + 1
        &&& more[i].0 == Some(p as usize)
        &&& items[p].0 / 0x1_0000_0000 == slots[i].1
    }) by {
        assert(more[slot_index(items[p].0) as int] == places[slot_index(items[p].0) as int]);
    }
    assert forall|s: int, t: int| 0 <= s < t < longer.len() implies slot_index(#[trigger] longer[s])
        < slot_index(#[trigger] longer[t]) by {
        assert(longer[s] == spare[s]);
        if t < spare.len() {
            assert(longer[t] == spare[t]);
        }
    }
    assert forall|i: int| 1 <= i < n + 1 && (#[trigger] slots[i]).0 is None implies longer.contains(
        slot_key(i, (slots[i].1 + 1) as u32),
    ) by {
        if i < n {
            let other = slot_key(i, (slots[i].1 + 1) as u32);
            let s = choose|s: int| 0 <= s < spare.len() && spare[s] == other;
            assert(longer[s] == other);
        } else {
            assert(longer[spare.len() as int] == key);
        }
    }
    assert forall|s: int| 0 <= s < longer.len() implies ({
        let i = slot_index(#[trigger] longer[s]) as int;
        &&& 1 <= i < n + 1
        &&& slots[i].0 is None
        &&& longer[s] == slot_key(i, (slots[i].1 + 1) as u32)
    }) by {
        if s < spare.len() {
            assert(longer[s] == spare[s]);
        }
    }
}

/// The items stand under the keys of their slots.
proof fn lemma_taken_held<V>(
    slots: Seq<(Option<V>, u32)>,
    items: Seq<(u64, V)>,
    places: Seq<(Option<usize>, u32)>,
    spare: Seq<u64>,
)
    requires
        are_slots(slots),
        is_taken(slots, slots.len() as int, items, places, spare),
    ensures
        is_indexed(stored(places), items),
        forall|k: u64| #[trigger] stored(places).contains_key(k) <==> holds(slots, k),
        forall|k: u64| #[trigger]
            stored(places).contains_key(k) ==> slots[slot_index(k) as int].0 == Some(
                items[stored(places)[k] as int].1,
            ),
{
    let held = stored(places);
    assert forall|k: u64| #[trigger] held.contains_key(k) <==> holds(slots, k) by {
        let i = slot_index(k) as int;
        if i < slots.len() {
            assert(places[i].1 == slots[i].1);
        }
    }
    assert forall|k: u64| #[trigger] held.contains_key(k) implies is_item_key(k) && held[k]
        < items.len() && items[held[k] as int].0 == k && slots[slot_index(k) as int].0 == Some(
        items[held[k] as int].1,
    ) by {
        let i = slot_index(k) as int;
        assert(holds(slots, k));
        assert(places[i].0 is Some);
        lemma_slot_key(i, slots[i].1);
        assert(slots[i].0 is Some <==> slots[i].1 % 2 == 1);
        assert(i != 0);
    }
    assert forall|p: int| 0 <= p < items.len() implies held.contains_key(#[trigger] items[p].0)
        && held[items[p].0] == p by {
        let entry = items[p];
        let i = slot_index(entry.0) as int;
        assert(places[i].0 == Some(p as usize));
        assert(places[i].1 == slots[i].1);
    }
    let keys = items.map_values(|item: (u64, V)| item.0);
    assert(keys.no_duplicates()) by {
        assert forall|p: int, q: int|
            0 <= p < keys.len() && 0 <= q < keys.len() && p != q implies keys[p] != keys[q] by {
            assert(keys[p] == items[p].0 && keys[q] == items[q].0);
            assert(held[items[p].0] == p);
            assert(held[items[q].0] == q);
        }
    }
    assert(held.dom() =~= keys.to_set()) by {
        assert forall|k: u64| held.dom().contains(k) <==> keys.to_set().contains(k) by {
            if held.contains_key(k) {
                assert(keys[held[k] as int] == k);
            }
            if keys.contains(k) {
                let p = choose|p: int| 0 <= p < keys.len() && keys[p] == k;
                assert(held.contains_key(items[p].0));
            }
        }
    }
    keys.unique_seq_to_set();
}

/// Each slot has one key.
proof fn lemma_taken_slotted<V>(
    slots: Seq<(Option<V>, u32)>,
    items: Seq<(u64, V)>,
    places: Seq<(Option<usize>, u32)>,
    spare: Seq<u64>,
    vacant: Seq<u64>,
)
    requires
        are_slots(slots),
        is_taken(slots, slots.len() as int, items, places, spare),
        is_vacancy(places, vacant),
    ensures
        is_slotted(stored(places), vacant, slots.len() - 1),
        is_vacancy(slots, vacant),
{
    lemma_taken_held(slots, items, places, spare);
    let held = stored(places);
    assert forall|k: u64| #[trigger] vacant.contains(k) <==> gives_out(slots, k) by {
        let i = slot_index(k) as int;
        if i < slots.len() {
            assert(places[i].1 == slots[i].1);
        }
        assert(vacant.contains(k) <==> gives_out(places, k));
    }
    assert forall|k: u64| #[trigger] vacant.contains(k) <==> spare.contains(k) by {
        if vacant.contains(k) {
            let i = slot_index(k) as int;
            assert(slots[i].0 is Some <==> slots[i].1 % 2 == 1);
            lemma_slot_key(i, (slots[i].1 + 1) as u32);
            assert(spare.contains(slot_key(i, (slots[i].1 + 1) as u32)));
        }
        if spare.contains(k) {
            let s = choose|s: int| 0 <= s < spare.len() && spare[s] == k;
            let i = slot_index(spare[s]) as int;
            assert(slots[i].0 is Some <==> slots[i].1 % 2 == 1);
            lemma_slot_key(i, (slots[i].1 + 1) as u32);
            assert(gives_out(slots, k));
        }
    }
    assert(vacant.no_duplicates()) by {
        assert forall|i: int, j: int|
            0 <= i < vacant.len() && 0 <= j < vacant.len() && i != j implies vacant[i]
            != vacant[j] by {
            if i < j {
                assert(slot_index(vacant[j]) < slot_index(vacant[i]));
            } else {
                assert(slot_index(vacant[i]) < slot_index(vacant[j]));
            }
        }
    }
    assert(spare.no_duplicates()) by {
        assert forall|i: int, j: int|
            0 <= i < spare.len() && 0 <= j < spare.len() && i != j implies spare[i] != spare[j] by {
            if i < j {
                assert(slot_index(spare[i]) < slot_index(spare[j]));
            } else {
                assert(slot_index(spare[j]) < slot_index(spare[i]));
            }
        }
    }
    assert(vacant.to_set() =~= spare.to_set()) by {
        assert forall|k: u64| vacant.to_set().contains(k) <==> spare.to_set().contains(k) by {
            assert(vacant.contains(k) <==> spare.contains(k));
        }
    }
    vacant.unique_seq_to_set();
    spare.unique_seq_to_set();
    assert forall|k: u64| #[trigger] vacant.contains(k) implies is_item_key(k) && slot_index(k)
        <= slots.len() - 1 && !held.contains_key(k) by {
        let i = slot_index(k) as int;
        assert(gives_out(slots, k));
        assert(slots[i].0 is Some <==> slots[i].1 % 2 == 1);
        assert(held.contains_key(k) <==> holds(slots, k));
    }
    assert forall|k: u64, l: u64|
        #![trigger slot_index(k), slot_index(l)]
        (held.contains_key(k) || vacant.contains(k)) && (held.contains_key(l) || vacant.contains(l))
            && slot_index(k) == slot_index(l) implies k == l by {
        let i = slot_index(k) as int;
        assert(held.contains_key(k) <==> holds(slots, k));
        assert(held.contains_key(l) <==> holds(slots, l));
        assert(vacant.contains(k) <==> gives_out(slots, k));
        assert(vacant.contains(l) <==> gives_out(slots, l));
    }
}

impl<V> Arena<V> {
    /// An arena with the items of a list of slots under their keys, whose
    /// vacant slots have the generations of the list; `None` if that cannot
    /// be the list of a store.
    pub fn restore(slots: Vec<(Option<V>, u32)>) -> (arena: Option<Self>)
        ensures
            arena is Some <==> are_slots(slots@),
            arena matches Some(arena) ==> arena.wf() && arena@ == stored(slots@),
            arena matches Some(arena) ==> is_vacancy(slots@, arena.vacant()),
    {
        let ghost all = slots@;
        if slots.len() == 0 || slots.len() >= u32::MAX as usize || slots[0].0.is_some() {
            return None;
        }
        let mut rest = slots;
        let (_, first) = rest.remove(0);
        let mut items: Vec<(u64, V)> = Vec::new();
        let mut places: Vec<(Option<usize>, u32)> = Vec::new();
        let ghost mut spare: Seq<u64> = seq![];
        places.push((None, first));
        let mut index: usize = 1;
        assert(all =~= all.take(1) + rest@);
        while rest.len() > 0
            invariant
                all == all.take(index as int) + rest@,
                index + rest@.len() == all.len(),
                1 <= index <= all.len() < u32::MAX,
                all[0].0 is None,
                is_taken(all, index as int, items@, places@, spare),
            decreases rest@.len(),
        {
            assert(rest@[0] == all[index as int]);
            let (item, generation) = rest.remove(0);
            assert(all =~= all.take(index + 1) + rest@);
            match item {
                Some(item) => {
                    proof {
                        lemma_slot_key(index as int, generation);
                        lemma_taken_item(all, index as int, items@, places@, spare);
                    }
                    places.push((Some(items.len()), generation));
                    items.push((generation as u64 * 0x1_0000_0000 + index as u64, item));
                },
                None => {
                    proof {
                        lemma_taken_spare(all, index as int, items@, places@, spare);
                        spare = spare.push(slot_key(index as int, (generation + 1) as u32));
                    }
                    places.push((None, generation));
                },
            }
            index = index + 1;
        }
        assert(are_slots(places@) == are_slots(all)) by {
            if are_slots(all) {
                assert forall|i: int| 0 <= i < places@.len() implies ((#[trigger] places@[i]).0 is Some
                    <==> places@[i].1 % 2 == 1) by {
                    assert(all[i].0 is Some <==> all[i].1 % 2 == 1);
                }
            }
            if are_slots(places@) {
                assert forall|i: int| 0 <= i < all.len() implies ((#[trigger] all[i]).0 is Some
                    <==> all[i].1 % 2 == 1) by {
                    assert(places@[i].0 is Some <==> places@[i].1 % 2 == 1);
                }
            }
        }
        let table = match slot_restore(&places) {
            Some(table) => table,
            None => {
                return None;
            },
        };
        let arena = Arena { table, items, slots: index - 1 };
        proof {
            lemma_taken_held(all, items@, places@, spare);
            lemma_taken_slotted(all, items@, places@, spare, slot_vacant(table));
            let held = slot_contents(table);
            assert(arena@ =~= stored(all)) by {
                assert forall|key: u64| #[trigger] arena@.contains_key(key) <==> stored(
                    all,
                ).contains_key(key) by {
                    assert(held.contains_key(key) <==> holds(all, key));
                }
                assert forall|key: u64| arena@.contains_key(key) implies #[trigger] arena@[key]
                    == stored(all)[key] by {
                    assert(held.contains_key(key));
                }
            }
        }
        Some(arena)
    }
}

/// One of the first items is in the slot.
spec fn is_listed_at<V>(items: Seq<(u64, V)>, n: int, slot: int) -> bool {
    exists|a: int| 0 <= a < n && slot_index((#[trigger] items[a]).0) == slot
}

/// The list has what was made of an item in the slot of the item.
spec fn is_written<V, D, F: Fn(&V) -> D>(
    describe: F,
    item: (u64, V),
    slots: Seq<(Option<D>, u32)>,
) -> bool {
    &&& slot_index(item.0) < slots.len()
    &&& slots[slot_index(item.0) as int].0 is Some
    &&& slots[slot_index(item.0) as int].1 == item.0 / 0x1_0000_0000
    &&& call_ensures(describe, (&item.1,), slots[slot_index(item.0) as int].0->0)
}

impl<V: Copy> Arena<V> {
    /// The slots of the arena as a list.
    pub fn slots(&self) -> (slots: Vec<(Option<V>, u32)>)
        requires
            self.wf(),
        ensures
            are_slots(slots@),
            stored(slots@) == self@,
            keeps_vacancy(*self, slots@),
    {
        let slots = self.slots_with(copy_item);
        assert(stored(slots@) =~= self@);
        slots
    }
}

} // verus!
