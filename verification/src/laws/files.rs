//! Laws of documents as plain data.
use vstd::prelude::*;

use crate::document::{DocumentData, FeatureData, FeatureView};

use crate::sketch::SketchData;
use crate::slots::{are_slots, stored};

verus! {

/// What a list of slots stores: the item of each slot with an odd generation,
/// under the key that has the generation in its upper half and the place of the
/// slot in its lower half, and nothing else.
pub proof fn lemma_slots<V>(slots: Seq<(Option<V>, u32)>, i: int, generation: u32)
    requires
        are_slots(slots),
        0 <= i < slots.len(),
    ensures
        ({
            let key = (generation as int * 0x1_0000_0000 + i) as u64;
            &&& key as int == generation as int * 0x1_0000_0000 + i
            &&& stored(slots).contains_key(key) <==> generation == slots[i].1 && generation % 2 == 1
            &&& stored(slots).contains_key(key) ==> slots[i].0 == Some(stored(slots)[key])
        }),
        forall|k: u64| #[trigger]
            stored(slots).contains_key(k) ==> 1 <= k % 0x1_0000_0000 < slots.len(),
{
    let key = (generation as int * 0x1_0000_0000 + i) as u64;
    assert(0 <= generation as int * 0x1_0000_0000 + i < 0x1_0000_0000_0000_0000);
    assert(key / 0x1_0000_0000 == generation);
    assert(key % 0x1_0000_0000 == i);
    assert(slots[i].0 is Some <==> slots[i].1 % 2 == 1);
}

/// The key of a slot with its generation.
pub open spec fn key_at(i: int, generation: u32) -> u64 {
    (generation as int * 0x1_0000_0000 + i) as u64
}

/// The data of a document list its history in order, and hold each feature as it
/// is, in the slot that its key names.
pub proof fn lemma_document_data<T>(data: DocumentData<T>, i: int)
    requires
        data.valid(),
        0 <= i < data.store@.len(),
    ensures
        data@.features == data.features@,
        data.store@[i].0 matches Some(feature) ==> {
            let key = key_at(i, data.store@[i].1);
            &&& data@.store.contains_key(key)
            &&& match (feature, data@.store[key]) {
                (FeatureData::Sketch(p, s), FeatureView::Sketch(plane, sketch)) => plane == p
                    && sketch == s@,
                (FeatureData::Extrude(e), FeatureView::Extrude(there)) => there == e,
                (FeatureData::Revolve(r), FeatureView::Revolve(there)) => there == r,
                _ => false,
            }
        },
        forall|k: u64| #[trigger]
            data@.store.contains_key(k) ==> {
                let j = (k % 0x1_0000_0000) as int;
                &&& 1 <= j < data.store@.len()
                &&& data.store@[j].0 is Some
                &&& k == key_at(j, data.store@[j].1)
            },
{
    lemma_slots(data.store@, i, data.store@[i].1);
    assert forall|k: u64| #[trigger] data@.store.contains_key(k) implies {
        let j = (k % 0x1_0000_0000) as int;
        &&& 1 <= j < data.store@.len()
        &&& data.store@[j].0 is Some
        &&& k == key_at(j, data.store@[j].1)
    } by {
        assert(stored(data.store@).contains_key(k));
    }
}

/// The data of a sketch hold the values of its variables in order, and each
/// point, entity, constraint and dimension as it is, in the slot that its key
/// names.
pub proof fn lemma_sketch_data<T>(data: SketchData<T>, i: int)
    requires
        data.valid(),
        0 <= i,
    ensures
        data@.vars == data.vars@,
        i < data.points@.len() ==> (data.points@[i].0 matches Some(point) ==> {
            let key = key_at(i, data.points@[i].1);
            data@.points.contains_key(key) && data@.points[key] == point
        }),
        i < data.entities@.len() ==> (data.entities@[i].0 matches Some(entity) ==> {
            let key = key_at(i, data.entities@[i].1);
            data@.entities.contains_key(key) && data@.entities[key] == entity
        }),
        i < data.constraints@.len() ==> (data.constraints@[i].0 matches Some(c) ==> {
            let key = key_at(i, data.constraints@[i].1);
            data@.constraints.contains_key(key) && data@.constraints[key] == c
        }),
        i < data.dimensions@.len() ==> (data.dimensions@[i].0 matches Some(d) ==> {
            let key = key_at(i, data.dimensions@[i].1);
            data@.dimensions.contains_key(key) && data@.dimensions[key] == d
        }),
{
    if i < data.points@.len() {
        lemma_slots(data.points@, i, data.points@[i].1);
    }
    if i < data.entities@.len() {
        lemma_slots(data.entities@, i, data.entities@[i].1);
    }
    if i < data.constraints@.len() {
        lemma_slots(data.constraints@, i, data.constraints@[i].1);
    }
    if i < data.dimensions@.len() {
        lemma_slots(data.dimensions@, i, data.dimensions@[i].1);
    }
}

} // verus!
