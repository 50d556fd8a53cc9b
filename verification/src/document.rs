//! The document: an ordered history of features.
use vstd::prelude::*;

use crate::geometry::Plane;
use crate::ids::FeatureId;
use crate::rings::after;
use crate::sketch::{Sketch, SketchData, SketchView};
use crate::slots::{
    Arena, MAX_SLOTS, are_slots, gives_out, has_last_key, holds, in_slot_order, is_vacancy, keeps_keys,
    keeps_vacancy, lemma_keeps_keys, lemma_retired_restored, lemma_same_keys, lemma_slot_key,
    slot_index, slot_key, stored,
};

verus! {

/// A standard plane through the origin.
#[derive(Debug, Clone, Copy, PartialEq, Eq, Structural)]
pub enum SketchPlane {
    /// The plane of the first two axes, seen from the third.
    XY,
    /// The plane of the first and third axis, seen against the second.
    XZ,
    /// The plane of the last two axes, seen from the first.
    YZ,
}

/// The axes `(u, v, normal)` of a plane.
pub open spec fn axes_spec(plane: SketchPlane) -> ([i64; 3], [i64; 3], [i64; 3]) {
    match plane {
        SketchPlane::XY => ([1, 0, 0], [0, 1, 0], [0, 0, 1]),
        SketchPlane::XZ => ([1, 0, 0], [0, 0, 1], [0, (-1) as i64, 0]),
        SketchPlane::YZ => ([0, 1, 0], [0, 0, 1], [1, 0, 0]),
    }
}

/// The name of a plane.
pub open spec fn label_spec(plane: SketchPlane) -> Seq<char> {
    match plane {
        SketchPlane::XY => "XY"@,
        SketchPlane::XZ => "XZ"@,
        SketchPlane::YZ => "YZ"@,
    }
}

impl SketchPlane {
    /// All standard planes.
    pub const ALL: [SketchPlane; 3] = [SketchPlane::XY, SketchPlane::XZ, SketchPlane::YZ];

    /// The name that is shown.
    pub fn label(self) -> (name: &'static str)
        ensures
            name@ == label_spec(self),
    {
        match self {
            SketchPlane::XY => "XY",
            SketchPlane::XZ => "XZ",
            SketchPlane::YZ => "YZ",
        }
    }

    /// The axes `(u, v, normal)` of the plane in space.
    pub fn axes(self) -> (axes: ([i64; 3], [i64; 3], [i64; 3]))
        ensures
            axes == axes_spec(self),
    {
        match self {
            SketchPlane::XY => ([1, 0, 0], [0, 1, 0], [0, 0, 1]),
            SketchPlane::XZ => ([1, 0, 0], [0, 0, 1], [0, -1, 0]),
            SketchPlane::YZ => ([0, 1, 0], [0, 0, 1], [1, 0, 0]),
        }
    }

    /// The plane in space.
    pub fn to_geom(self) -> (plane: Plane<i64>)
        ensures
            plane == (Plane { origin: [0i64, 0, 0], u: axes_spec(self).0, v: axes_spec(self).1 }),
    {
        let (u, v, _) = self.axes();
        Plane { origin: [0, 0, 0], u, v }
    }
}

/// The axes of every plane are right-handed: `u` cross `v` is the normal. They
/// have length one and stand perpendicular to each other.
pub proof fn lemma_axes_right_handed(plane: SketchPlane, i: int)
    requires
        0 <= i < 3,
    ensures
        ({
            let (u, v, n) = axes_spec(plane);
            let (j, k) = (after(3, i), after(3, after(3, i)));
            &&& n[i] == u[j] * v[k] - u[k] * v[j]
            &&& u[0] * u[0] + u[1] * u[1] + u[2] * u[2] == 1
            &&& v[0] * v[0] + v[1] * v[1] + v[2] * v[2] == 1
            &&& u[0] * v[0] + u[1] * v[1] + u[2] * v[2] == 0
        }),
{
    let (u, v, n) = axes_spec(plane);
    assert(i == 0 || i == 1 || i == 2);
    let (j, k) = (after(3, i), after(3, after(3, i)));
    lemma_unit_product(u[j] as int, v[k] as int);
    lemma_unit_product(u[k] as int, v[j] as int);
    lemma_unit_product(u[0] as int, u[0] as int);
    lemma_unit_product(u[1] as int, u[1] as int);
    lemma_unit_product(u[2] as int, u[2] as int);
    lemma_unit_product(v[0] as int, v[0] as int);
    lemma_unit_product(v[1] as int, v[1] as int);
    lemma_unit_product(v[2] as int, v[2] as int);
    lemma_unit_product(u[0] as int, v[0] as int);
    lemma_unit_product(u[1] as int, v[1] as int);
    lemma_unit_product(u[2] as int, v[2] as int);
}

proof fn lemma_unit_product(a: int, b: int)
    ensures
        a == 0 ==> a * b == 0,
        a == 1 ==> a * b == b,
{
    assert(0 * b == 0) by (nonlinear_arith);
    assert(1 * b == b) by (nonlinear_arith);
}

/// A sketch on a plane.
pub struct SketchFeature<T> {
    /// The plane.
    pub plane: SketchPlane,
    /// The sketch.
    pub sketch: Sketch<T>,
}

/// The extrusion of a profile; against the normal of the plane where the
/// distance is negative.
#[derive(Debug, Clone, Copy, PartialEq)]
pub struct ExtrudeFeature<T> {
    /// The feature that holds the sketch.
    pub sketch: FeatureId,
    /// Which of the profiles of the sketch.
    pub profile: usize,
    /// The distance.
    pub distance: T,
}

/// An axis through the origin of a sketch.
#[derive(Debug, Clone, Copy, PartialEq, Eq, Structural)]
pub enum RevolveAxis {
    /// The first axis of the plane.
    U,
    /// The second axis of the plane.
    V,
}

/// The revolution of a profile.
#[derive(Debug, Clone, Copy, PartialEq)]
pub struct RevolveFeature<T> {
    /// The feature that holds the sketch.
    pub sketch: FeatureId,
    /// Which of the profiles of the sketch.
    pub profile: usize,
    /// The axis.
    pub axis: RevolveAxis,
    /// The angle in radians.
    pub angle: T,
}

/// A feature of the history.
pub enum Feature<T> {
    /// A sketch on a plane.
    Sketch(SketchFeature<T>),
    /// The extrusion of a profile.
    Extrude(ExtrudeFeature<T>),
    /// The revolution of a profile.
    Revolve(RevolveFeature<T>),
}

/// What a feature holds.
pub enum FeatureView<T> {
    /// A sketch on a plane.
    Sketch(SketchPlane, SketchView<T>),
    /// The extrusion of a profile.
    Extrude(ExtrudeFeature<T>),
    /// The revolution of a profile.
    Revolve(RevolveFeature<T>),
}

impl<T> View for Feature<T> {
    type V = FeatureView<T>;

    open spec fn view(&self) -> FeatureView<T> {
        match *self {
            Feature::Sketch(s) => FeatureView::Sketch(s.plane, s.sketch@),
            Feature::Extrude(e) => FeatureView::Extrude(e),
            Feature::Revolve(r) => FeatureView::Revolve(r),
        }
    }
}

impl<T> FeatureView<T> {
    /// The feature that holds the sketch which this one refers to.
    pub open spec fn sketch_ref(self) -> Option<FeatureId> {
        match self {
            FeatureView::Sketch(..) => None,
            FeatureView::Extrude(e) => Some(e.sketch),
            FeatureView::Revolve(r) => Some(r.sketch),
        }
    }

    /// A sketch whose entities are attached to points that exist, or no
    /// sketch.
    pub open spec fn linked(self) -> bool {
        self matches FeatureView::Sketch(_, sketch) ==> sketch.linked()
    }
}

impl<T> Feature<T> {
    /// The sketch is in order, if there is one.
    pub open spec fn wf(&self) -> bool {
        *self matches Feature::Sketch(s) ==> s.sketch.wf()
    }

    /// No id of the sketch comes back in the later one.
    pub open spec fn keeps_ids(&self, later: Feature<T>) -> bool {
        *self matches Feature::Sketch(s) ==> (later matches Feature::Sketch(t)
            ==> s.sketch.keeps_ids(t.sketch))
    }

    /// The data have the generations of the vacant slots of the sketch.
    pub open spec fn is_listed_by(&self, data: FeatureData<T>) -> bool {
        *self matches Feature::Sketch(s) ==> (data matches FeatureData::Sketch(_, d)
            ==> s.sketch.is_listed_by(d))
    }

    /// The vacant slots of the sketch go on from the generations of the data.
    pub open spec fn goes_on_from(&self, data: FeatureData<T>) -> bool {
        *self matches Feature::Sketch(s) ==> (data matches FeatureData::Sketch(_, d)
            ==> s.sketch.goes_on_from(d))
    }

    /// The name of the kind of feature.
    pub fn type_label(&self) -> (name: &'static str)
        ensures
            name@ == (match self@ {
                FeatureView::Sketch(..) => "Skizze"@,
                FeatureView::Extrude(_) => "Extrude"@,
                FeatureView::Revolve(_) => "Revolve"@,
            }),
    {
        match self {
            Feature::Sketch(_) => "Skizze",
            Feature::Extrude(_) => "Extrude",
            Feature::Revolve(_) => "Revolve",
        }
    }

    /// The feature that holds the sketch which this one refers to.
    pub fn sketch_ref(&self) -> (sketch: Option<FeatureId>)
        ensures
            sketch == self@.sketch_ref(),
    {
        match self {
            Feature::Sketch(_) => None,
            Feature::Extrude(e) => Some(e.sketch),
            Feature::Revolve(r) => Some(r.sketch),
        }
    }
}

impl<T: Copy> Feature<T> {
    /// A feature with the same contents.
    pub fn duplicate(&self) -> (copy: Self)
        requires
            self.wf(),
        ensures
            copy.wf(),
            copy@ == self@,
            self.keeps_ids(copy),
    {
        match self {
            Feature::Sketch(s) => Feature::Sketch(
                SketchFeature { plane: s.plane, sketch: s.sketch.duplicate() },
            ),
            Feature::Extrude(e) => Feature::Extrude(*e),
            Feature::Revolve(r) => Feature::Revolve(*r),
        }
    }
}

/// The document: an ordered history of features.
pub struct Document<T> {
    features: Vec<FeatureId>,
    store: Arena<Feature<T>>,
}

/// What a document holds.
#[verifier::ext_equal]
pub struct DocumentView<T> {
    /// The features, in the order of the history.
    pub features: Seq<FeatureId>,
    /// The features themselves.
    pub store: Map<u64, FeatureView<T>>,
}

/// The contents of stored features.
pub open spec fn feature_views<T>(store: Map<u64, Feature<T>>) -> Map<u64, FeatureView<T>> {
    Map::new(|k: u64| store.contains_key(k), |k: u64| store[k]@)
}

impl<T> DocumentView<T> {
    /// The document without features.
    pub open spec fn empty() -> DocumentView<T> {
        DocumentView { features: Seq::empty(), store: Map::empty() }
    }

    /// What holds of every document that is modelled: the history lists every
    /// stored feature, and each once.
    pub open spec fn sound(self) -> bool {
        &&& self.features.no_duplicates()
        &&& forall|id: FeatureId| #[trigger]
            self.features.contains(id) <==> self.store.contains_key(id.raw)
    }

    /// Every feature of the history exists.
    pub open spec fn listed(self) -> bool {
        forall|id: FeatureId| #[trigger]
            self.features.contains(id) ==> self.store.contains_key(id.raw)
    }

    /// Every feature of the history exists, and all that a sketch names does.
    pub open spec fn linked(self) -> bool {
        &&& self.listed()
        &&& forall|k: u64| #[trigger] self.store.contains_key(k) ==> self.store[k].linked()
    }

    /// The document with one more feature at the end.
    pub open spec fn with_feature(self, id: FeatureId, feature: FeatureView<T>) -> DocumentView<T> {
        DocumentView {
            features: self.features.push(id),
            store: self.store.insert(id.raw, feature),
        }
    }

    /// The feature goes when `id` is removed: it is that feature, or it refers
    /// to it.
    pub open spec fn goes_with(self, id: FeatureId, other: FeatureId) -> bool {
        other == id || self.store[other.raw].sketch_ref() == Some(id)
    }

    /// `from` is the first place of the history whose feature goes when `id` is
    /// removed; the end of the history if there is no such feature.
    pub open spec fn is_first_affected(self, id: FeatureId, from: int) -> bool {
        if self.features.contains(id) {
            &&& 0 <= from < self.features.len()
            &&& self.goes_with(id, self.features[from])
            &&& forall|j: int|
                0 <= j < from ==> !self.goes_with(id, #[trigger] self.features[j])
        } else {
            from == self.features.len()
        }
    }

    /// The document without a feature and all of the history that refer to it.
    pub open spec fn without(self, id: FeatureId) -> DocumentView<T> {
        if self.features.contains(id) {
            DocumentView {
                features: self.features.filter(|f: FeatureId| !self.goes_with(id, f)),
                store: self.store.restrict(
                    Set::new(
                        |k: u64|
                            self.store.contains_key(k) && !(self.features.contains(
                                FeatureId { raw: k },
                            ) && self.goes_with(id, FeatureId { raw: k })),
                    ),
                ),
            }
        } else {
            self
        }
    }

    /// Every feature refers to an earlier one, if to any.
    pub open spec fn refers_backwards(self) -> bool {
        forall|i: int, j: int|
            0 <= i < self.features.len() && 0 <= j < self.features.len()
                && self.store[(#[trigger] self.features[i]).raw].sketch_ref() == Some(
                #[trigger] self.features[j],
            ) ==> j < i
    }
}

impl<T> View for Document<T> {
    type V = DocumentView<T>;

    closed spec fn view(&self) -> DocumentView<T> {
        DocumentView { features: self.features@, store: feature_views(self.store@) }
    }
}

impl<T> Document<T> {
    /// The store is in order, and so is every sketch.
    pub closed spec fn wf(&self) -> bool {
        &&& self.store.wf()
        &&& forall|k: u64| #[trigger] self.store@.contains_key(k) ==> self.store@[k].wf()
    }

    /// What holds of the contents of every document.
    pub proof fn lemma_wf(&self)
        requires
            self.wf(),
        ensures
            self@.store.dom().finite(),
            self@.store.len() <= MAX_SLOTS,
    {
        self.store.lemma_contents();
        assert(self@.store.dom() =~= self.store@.dom());
    }

    /// A history that lists every stored feature once is as long as the store
    /// is large.
    pub proof fn lemma_count(&self)
        requires
            self.wf(),
            self@.sound(),
        ensures
            self@.store.len() == self@.features.len(),
    {
        let raws = self.features@.map_values(|f: FeatureId| f.raw);
        self.lemma_wf();
        assert(raws.no_duplicates()) by {
            assert forall|i: int, j: int|
                0 <= i < raws.len() && 0 <= j < raws.len() && i != j implies raws[i]
                != raws[j] by {
                assert(self.features@[i] != self.features@[j]);
            }
        }
        assert(raws.to_set() =~= self@.store.dom()) by {
            assert forall|k: u64| raws.to_set().contains(k) <==> self@.store.dom().contains(k) by {
                if raws.to_set().contains(k) {
                    assert(raws.contains(k));
                    let i = choose|i: int| 0 <= i < raws.len() && raws[i] == k;
                    assert(self@.features.contains(self.features@[i]));
                }
                if self@.store.dom().contains(k) {
                    let id = FeatureId { raw: k };
                    assert(self@.store.contains_key(id.raw));
                    assert(self@.features.contains(id));
                    let i = choose|i: int| 0 <= i < self.features@.len() && self.features@[i] == id;
                    assert(raws[i] == k);
                    assert(raws.contains(k));
                }
            }
        }
        raws.unique_seq_to_set();
    }

    /// What a stored feature is.
    pub proof fn lemma_feature_at(&self, id: FeatureId)
        requires
            self.wf(),
            self@.store.contains_key(id.raw),
        ensures
            self.feature_at(id).wf(),
            self.feature_at(id)@ == self@.store[id.raw],
    {
        assert(self.store@.contains_key(id.raw));
    }

    /// A stored feature.
    pub closed spec fn feature_at(&self, id: FeatureId) -> Feature<T> {
        self.store@[id.raw]
    }

    /// No id of a sketch comes back in the sketch under the same id of the
    /// later document.
    pub open spec fn keeps_sketch_ids(&self, later: Document<T>) -> bool {
        forall|id: FeatureId| #[trigger]
            self@.store.contains_key(id.raw) && later@.store.contains_key(id.raw)
                ==> self.feature_at(id).keeps_ids(later.feature_at(id))
    }

    /// The id was given out to a feature that is gone.
    pub closed spec fn is_retired(&self, id: FeatureId) -> bool {
        self.store.is_retired(id.raw)
    }

    /// A feature has the last id that its slot can give out before it begins
    /// again.
    pub open spec fn is_worn(&self) -> bool {
        has_last_key(self@.store)
    }

    /// No id comes back in the later document: what is retired stays so, and
    /// the id of what is gone is retired.
    pub open spec fn keeps_ids(&self, later: Document<T>) -> bool {
        &&& forall|id: FeatureId| #[trigger] self.is_retired(id) ==> later.is_retired(id)
        &&& forall|id: FeatureId| #[trigger]
            self@.store.contains_key(id.raw) && !later@.store.contains_key(id.raw)
                ==> later.is_retired(id)
    }

    /// The ids that the vacant slots give out next.
    pub closed spec fn vacancy(&self) -> Seq<u64> {
        self.store.vacant()
    }

    /// No id comes back where the features change and their ids do not.
    pub proof fn lemma_same_ids(&self, later: Document<T>)
        requires
            later@.store.dom() == self@.store.dom(),
            later.vacancy() == self.vacancy(),
        ensures
            self.keeps_ids(later),
    {
        assert(self@.store.dom() =~= self.store@.dom());
        assert(later@.store.dom() =~= later.store@.dom());
        lemma_same_keys(self.store, later.store);
        self.lemma_keeps_ids(later);
    }

    /// What is stored in both documents is the same, but for one feature.
    pub open spec fn shares(&self, later: Document<T>, but: Option<FeatureId>) -> bool {
        forall|id: FeatureId|
            self@.store.contains_key(id.raw) && later@.store.contains_key(id.raw) && Some(id) != but
                ==> #[trigger] later.feature_at(id) == self.feature_at(id)
    }

    /// No id of a sketch comes back where the sketches are the same.
    pub proof fn lemma_shares(&self, later: Document<T>)
        requires
            self.shares(later, None),
        ensures
            self.keeps_sketch_ids(later),
    {
        assert forall|id: FeatureId| #[trigger]
            self@.store.contains_key(id.raw) && later@.store.contains_key(
                id.raw,
            ) implies self.feature_at(id).keeps_ids(later.feature_at(id)) by {
            assert(later.feature_at(id) == self.feature_at(id));
            if let Feature::Sketch(s) = self.feature_at(id) {
                s.sketch.lemma_keeps_ids_here();
            }
        }
    }

    /// The lists have the generations of the vacant slots of the document and
    /// of its sketches.
    pub closed spec fn is_listed_by(&self, data: DocumentData<T>) -> bool {
        &&& keeps_vacancy(self.store, data.store@)
        &&& forall|k: u64| #[trigger]
            self.store@.contains_key(k) ==> self.store@[k].is_listed_by(stored(data.store@)[k])
    }

    /// The vacant slots of the document and of its sketches go on from the
    /// generations of the lists.
    pub closed spec fn goes_on_from(&self, data: DocumentData<T>) -> bool {
        &&& is_vacancy(data.store@, self.store.vacant())
        &&& forall|k: u64| #[trigger]
            self.store@.contains_key(k) ==> self.store@[k].goes_on_from(stored(data.store@)[k])
    }

    /// No id of a feature, and no id of a sketch, comes back in what is made
    /// from the lists of a document.
    pub proof fn lemma_retired_read(&self, data: DocumentData<T>, back: Document<T>)
        requires
            self.wf(),
            back.wf(),
            data@ == self@,
            self.is_listed_by(data),
            back@ == data@,
            back.goes_on_from(data),
        ensures
            self.keeps_ids(back),
            self.keeps_sketch_ids(back),
    {
        assert forall|id: FeatureId| #[trigger]
            self@.store.contains_key(id.raw) && back@.store.contains_key(
                id.raw,
            ) implies self.feature_at(id).keeps_ids(back.feature_at(id)) by {
            let k = id.raw;
            assert(self.store@.contains_key(k) && back.store@.contains_key(k));
            let described = stored(data.store@)[k];
            assert(data@.store[k] == described@);
            assert(self@.store[k] == self.store@[k]@);
            assert(back@.store[k] == back.store@[k]@);
            if let Feature::Sketch(s) = self.store@[k] {
                if let Feature::Sketch(t) = back.store@[k] {
                    if let FeatureData::Sketch(_, d) = described {
                        s.sketch.lemma_retired_read(d, t.sketch);
                    }
                }
            }
        }
        assert forall|k: u64| #[trigger] self.store@.contains_key(k) <==> holds(data.store@, k) by {
            assert(self@.store.contains_key(k) <==> self.store@.contains_key(k));
            assert(data@.store.contains_key(k) <==> holds(data.store@, k));
        }
        assert(back.store@.dom() =~= stored(data.store@).dom()) by {
            assert forall|k: u64| #[trigger] back.store@.dom().contains(k) <==> stored(
                data.store@,
            ).dom().contains(k) by {
                assert(back@.store.contains_key(k) <==> back.store@.contains_key(k));
                assert(data@.store.contains_key(k) <==> holds(data.store@, k));
            }
        }
        assert forall|id: FeatureId| #[trigger] self.is_retired(id) implies back.is_retired(id) by {
            lemma_retired_restored(self.store, data.store@, back.store, id.raw);
        }
    }

    proof fn lemma_keeps_ids(&self, later: Document<T>)
        requires
            keeps_keys(self.store, later.store),
        ensures
            self.keeps_ids(later),
    {
        assert forall|id: FeatureId| #[trigger]
            self@.store.contains_key(id.raw) && !later@.store.contains_key(
                id.raw,
            ) implies later.is_retired(id) by {
            assert(self.store@.contains_key(id.raw));
        }
    }

    /// The document without features.
    pub fn new() -> (doc: Self)
        ensures
            doc.wf(),
            doc@ == DocumentView::<T>::empty(),
            doc@.sound(),
            doc@.linked(),
    {
        let doc = Document { features: Vec::new(), store: Arena::new() };
        assert(doc@ =~= DocumentView::<T>::empty());
        doc
    }

    fn push(&mut self, feature: Feature<T>) -> (id: FeatureId)
        requires
            old(self).wf(),
            feature.wf(),
            old(self)@.store.len() < MAX_SLOTS,
        ensures
            final(self).wf(),
            !old(self)@.store.contains_key(id.raw),
            final(self)@ == old(self)@.with_feature(id, feature@),
            old(self)@.sound() ==> final(self)@.sound(),
            old(self)@.linked() && feature@.linked() ==> final(self)@.linked(),
            !old(self).is_retired(id),
            old(self).keeps_ids(*final(self)),
            old(self).shares(*final(self), None),
            final(self).feature_at(id) == feature,
    {
        let ghost before = self.features@;
        proof {
            assert(self@.store.dom() =~= self.store@.dom());
        }
        let id = FeatureId { raw: self.store.insert(feature) };
        assert(!old(self).store@.contains_key(id.raw));
        self.features.push(id);
        proof {
            assert(self@ =~= old(self)@.with_feature(id, feature@));
            assert forall|other: FeatureId| #[trigger] self@.features.contains(other)
                <==> before.contains(other) || other == id by {
                if before.contains(other) {
                    let i = choose|i: int| 0 <= i < before.len() && before[i] == other;
                    assert(self.features@[i] == other);
                }
                if other == id {
                    assert(self.features@[before.len() as int] == other);
                }
            }
            if old(self)@.sound() {
                assert(!old(self)@.features.contains(id));
                assert(self.features@.no_duplicates()) by {
                    assert forall|i: int, j: int|
                        0 <= i < self.features@.len() && 0 <= j < self.features@.len() && i
                            != j implies self.features@[i] != self.features@[j] by {
                        if i < before.len() && j < before.len() {
                            assert(before[i] != before[j]);
                        } else if i < before.len() {
                            assert(before.contains(before[i]));
                        } else {
                            assert(before.contains(before[j]));
                        }
                    }
                }
                assert forall|other: FeatureId| #[trigger]
                    self@.features.contains(other) <==> self@.store.contains_key(other.raw) by {
                    assert(old(self)@.features.contains(other)
                        <==> old(self)@.store.contains_key(other.raw));
                }
            }
            if old(self)@.linked() && feature@.linked() {
                assert forall|other: FeatureId| #[trigger]
                    self@.features.contains(other) implies self@.store.contains_key(other.raw) by {
                    if before.contains(other) {
                        assert(old(self)@.features.contains(other));
                    }
                }
                assert forall|k: u64| #[trigger] self@.store.contains_key(
                    k,
                ) implies self@.store[k].linked() by {
                    if k != id.raw {
                        assert(old(self)@.store.contains_key(k));
                    }
                }
            }
        }
        proof {
            old(self).lemma_keeps_ids(*self);
        }
        id
    }

    /// Adds a sketch at the end of the history.
    pub fn add_sketch(&mut self, plane: SketchPlane, sketch: Sketch<T>) -> (id: FeatureId)
        requires
            old(self).wf(),
            sketch.wf(),
            old(self)@.store.len() < MAX_SLOTS,
        ensures
            final(self).wf(),
            !old(self)@.store.contains_key(id.raw),
            final(self)@ == old(self)@.with_feature(id, FeatureView::Sketch(plane, sketch@)),
            old(self)@.sound() ==> final(self)@.sound(),
            old(self)@.linked() && sketch@.linked() ==> final(self)@.linked(),
            !old(self).is_retired(id),
            old(self).keeps_ids(*final(self)),
            old(self).shares(*final(self), None),
            final(self).feature_at(id) == Feature::Sketch(SketchFeature { plane, sketch }),
    {
        self.push(Feature::Sketch(SketchFeature { plane, sketch }))
    }

    /// Adds an extrusion at the end of the history.
    pub fn add_extrude(&mut self, sketch: FeatureId, profile: usize, distance: T) -> (id: FeatureId)
        requires
            old(self).wf(),
            old(self)@.store.len() < MAX_SLOTS,
        ensures
            final(self).wf(),
            !old(self)@.store.contains_key(id.raw),
            final(self)@ == old(self)@.with_feature(
                id,
                FeatureView::Extrude(ExtrudeFeature { sketch, profile, distance }),
            ),
            old(self)@.sound() ==> final(self)@.sound(),
            old(self)@.linked() ==> final(self)@.linked(),
            !old(self).is_retired(id),
            old(self).keeps_ids(*final(self)),
            old(self).shares(*final(self), None),
    {
        self.push(Feature::Extrude(ExtrudeFeature { sketch, profile, distance }))
    }

    /// Adds a revolution at the end of the history.
    pub fn add_revolve(&mut self, sketch: FeatureId, profile: usize, axis: RevolveAxis, angle: T) -> (
        id: FeatureId)
        requires
            old(self).wf(),
            old(self)@.store.len() < MAX_SLOTS,
        ensures
            final(self).wf(),
            !old(self)@.store.contains_key(id.raw),
            final(self)@ == old(self)@.with_feature(
                id,
                FeatureView::Revolve(RevolveFeature { sketch, profile, axis, angle }),
            ),
            old(self)@.sound() ==> final(self)@.sound(),
            old(self)@.linked() ==> final(self)@.linked(),
            !old(self).is_retired(id),
            old(self).keeps_ids(*final(self)),
            old(self).shares(*final(self), None),
    {
        self.push(Feature::Revolve(RevolveFeature { sketch, profile, axis, angle }))
    }

    /// A feature, if it exists.
    pub fn feature(&self, id: FeatureId) -> (feature: Option<&Feature<T>>)
        requires
            self.wf(),
        ensures
            match feature {
                Some(f) => self@.store.contains_key(id.raw) && f@ == self@.store[id.raw] && f.wf()
                    && *f == self.feature_at(id),
                None => !self@.store.contains_key(id.raw),
            },
    {
        self.store.get(id.raw)
    }

    /// Mutable access to a feature. What is put in its place must be in order
    /// for the document to stay so.
    pub fn feature_mut(&mut self, id: FeatureId) -> (feature: Option<&mut Feature<T>>)
        requires
            old(self).wf(),
        ensures
            feature is Some <==> old(self)@.store.contains_key(id.raw),
            feature is None ==> final(self).wf() && final(self)@ == old(self)@,
            feature matches Some(place) ==> *place == old(self).feature_at(id) && place@ == old(
                self,
            )@.store[id.raw] && place.wf() && final(self).feature_at(id) == *final(place)
                && final(self)@ == (DocumentView {
                store: old(self)@.store.insert(id.raw, final(place)@),
                ..old(self)@
            }) && (final(place).wf() ==> final(self).wf()),
            final(self).vacancy() == old(self).vacancy(),
            old(self).shares(*final(self), Some(id)),
    {
        self.store.get_mut(id.raw)
    }

    /// Place of a feature in the history.
    pub fn index_of(&self, id: FeatureId) -> (index: Option<usize>)
        ensures
            match index {
                Some(i) => i < self@.features.len() && self@.features[i as int] == id && forall|
                    j: int,
                |
                    0 <= j < i ==> #[trigger] self@.features[j] != id,
                None => !self@.features.contains(id),
            },
    {
        let mut i: usize = 0;
        while i < self.features.len()
            invariant
                i <= self.features@.len(),
                forall|j: int| 0 <= j < i ==> self.features@[j] != id,
            decreases self.features@.len() - i,
        {
            if self.features[i] == id {
                return Some(i);
            }
            i = i + 1;
        }
        None
    }

    /// Number of features.
    pub fn len(&self) -> (count: usize)
        ensures
            count == self@.features.len(),
    {
        self.features.len()
    }

    /// Number of stored features.
    pub fn stored_count(&self) -> (count: usize)
        requires
            self.wf(),
        ensures
            count == self@.store.len(),
    {
        assert(self@.store.dom() =~= self.store@.dom());
        self.store.len()
    }

    /// Whether the history is empty.
    pub fn is_empty(&self) -> (empty: bool)
        ensures
            empty == (self@.features.len() == 0),
    {
        self.features.len() == 0
    }

    /// The feature at a place of the history.
    pub fn id_at(&self, i: usize) -> (id: FeatureId)
        requires
            i < self@.features.len(),
        ensures
            id == self@.features[i as int],
    {
        self.features[i]
    }

    /// The features in the order of the history.
    pub fn features(&self) -> (list: Vec<(FeatureId, &Feature<T>)>)
        requires
            self.wf(),
            self@.listed(),
        ensures
            list@.len() == self@.features.len(),
            forall|i: int|
                0 <= i < list@.len() ==> (#[trigger] list@[i]).0 == self@.features[i]
                    && list@[i].1@ == self@.store[self@.features[i].raw] && list@[i].1.wf(),
    {
        let mut list: Vec<(FeatureId, &Feature<T>)> = Vec::new();
        let mut i: usize = 0;
        while i < self.features.len()
            invariant
                self.wf(),
                self@.listed(),
                i <= self.features@.len(),
                list@.len() == i,
                forall|j: int|
                    0 <= j < i ==> (#[trigger] list@[j]).0 == self@.features[j] && list@[j].1@
                        == self@.store[self@.features[j].raw] && list@[j].1.wf(),
            decreases self.features@.len() - i,
        {
            let id = self.features[i];
            assert(self@.features.contains(id)) by {
                assert(self@.features[i as int] == id);
            }
            assert(self@.store.contains_key(id.raw));
            list.push((id, self.store.at(id.raw)));
            i = i + 1;
        }
        list
    }

    /// All sketches in the order of the history.
    pub fn sketch_features(&self) -> (list: Vec<(FeatureId, &SketchFeature<T>)>)
        requires
            self.wf(),
            self@.listed(),
        ensures
            list@.map_values(|e: (FeatureId, &SketchFeature<T>)| e.0) == self@.features.filter(
                |f: FeatureId| self@.store[f.raw] is Sketch,
            ),
            forall|i: int|
                0 <= i < list@.len() ==> (self@.store[(#[trigger] list@[i]).0.raw]
                    == FeatureView::Sketch(list@[i].1.plane, list@[i].1.sketch@))
                    && list@[i].1.sketch.wf(),
    {
        let ghost wanted = |f: FeatureId| self@.store[f.raw] is Sketch;
        let ghost name = |e: (FeatureId, &SketchFeature<T>)| e.0;
        let mut list: Vec<(FeatureId, &SketchFeature<T>)> = Vec::new();
        let mut i: usize = 0;
        proof {
            reveal(Seq::filter);
            assert(list@.map_values(name) =~= self@.features.take(0).filter(wanted));
        }
        while i < self.features.len()
            invariant
                self.wf(),
                self@.listed(),
                i <= self.features@.len(),
                wanted == (|f: FeatureId| self@.store[f.raw] is Sketch),
                name == (|e: (FeatureId, &SketchFeature<T>)| e.0),
                list@.map_values(name) == self@.features.take(i as int).filter(wanted),
                forall|j: int|
                    0 <= j < list@.len() ==> (self@.store[(#[trigger] list@[j]).0.raw]
                        == FeatureView::Sketch(list@[j].1.plane, list@[j].1.sketch@))
                        && list@[j].1.sketch.wf(),
            decreases self.features@.len() - i,
        {
            let id = self.features[i];
            let ghost before = list@;
            proof {
                reveal(Seq::filter);
                assert(self@.features[i as int] == id);
                assert(self@.features.contains(id));
                assert(self@.store.contains_key(id.raw));
                assert(self@.features.take(i + 1).drop_last() =~= self@.features.take(i as int));
            }
            if let Feature::Sketch(s) = self.store.at(id.raw) {
                list.push((id, s));
                assert(list@.map_values(name) =~= before.map_values(name).push(id));
            }
            i = i + 1;
        }
        assert(self@.features.take(i as int) =~= self@.features);
        list
    }

    /// Removes a feature and all of the history that refer to it. Returns the
    /// first place of the history that is affected. The ids of what is gone
    /// are retired.
    pub fn remove(&mut self, id: FeatureId) -> (from: usize)
        requires
            old(self).wf(),
            old(self)@.features.contains(id) ==> old(self)@.listed(),
        ensures
            final(self).wf(),
            final(self)@ == old(self)@.without(id),
            old(self)@.is_first_affected(id, from as int),
            old(self)@.sound() ==> final(self)@.sound(),
            old(self)@.linked() ==> final(self)@.linked(),
            !old(self).is_worn() ==> old(self).keeps_ids(*final(self)),
            old(self).shares(*final(self), None),
    {
        proof {
            lemma_same_keys(old(self).store, self.store);
        }
        let place = match self.index_of(id) {
            Some(i) => i,
            None => {
                proof {
                    old(self).lemma_keeps_ids(*self);
                }
                return self.features.len();
            },
        };
        let ghost before = self@;
        let ghost stored = self.store@;
        let ghost stays = |f: FeatureId| !before.goes_with(id, f);
        assert(before.features[place as int] == id);
        assert(before.features.contains(id));
        let mut from: usize = place;
        let mut kept: Vec<FeatureId> = Vec::new();
        let mut gone: Vec<FeatureId> = Vec::new();
        let mut i: usize = 0;
        proof {
            reveal(Seq::filter);
            assert(kept@ =~= before.features.take(0).filter(stays));
        }
        while i < self.features.len()
            invariant
                *self == *old(self),
                self.wf(),
                before == self@,
                before.listed(),
                stays == (|f: FeatureId| !before.goes_with(id, f)),
                i <= self.features@.len(),
                from <= place < before.features.len(),
                before.features[place as int] == id,
                before.goes_with(id, before.features[from as int]),
                from == place || from < i,
                forall|j: int|
                    0 <= j < i && j < from ==> !before.goes_with(id, #[trigger] before.features[j]),
                kept@ == before.features.take(i as int).filter(stays),
                forall|f: FeatureId| #[trigger]
                    gone@.contains(f) <==> before.features.take(i as int).contains(f) && !stays(f),
            decreases self.features@.len() - i,
        {
            let other = self.features[i];
            let ghost shorter = before.features.take(i as int);
            let ghost longer = before.features.take(i + 1);
            let ghost went = gone@;
            proof {
                reveal(Seq::filter);
                assert(before.features[i as int] == other);
                assert(before.features.contains(other));
                assert(before.store.contains_key(other.raw));
                assert(longer.drop_last() =~= shorter);
                assert(longer =~= shorter.push(other));
                assert forall|f: FeatureId| #[trigger]
                    longer.contains(f) <==> shorter.contains(f) || f == other by {
                    if shorter.contains(f) {
                        let j = choose|j: int| 0 <= j < shorter.len() && shorter[j] == f;
                        assert(longer[j] == f);
                    }
                    if f == other {
                        assert(longer[i as int] == f);
                    }
                }
            }
            let goes = if other == id {
                true
            } else {
                match self.store.at(other.raw).sketch_ref() {
                    Some(sketch) => sketch == id,
                    None => false,
                }
            };
            assert(goes == !stays(other));
            if goes {
                if i < from {
                    from = i;
                }
                gone.push(other);
            } else {
                kept.push(other);
            }
            proof {
                assert forall|f: FeatureId| #[trigger]
                    gone@.contains(f) <==> longer.contains(f) && !stays(f) by {
                    if went.contains(f) {
                        let j = choose|j: int| 0 <= j < went.len() && went[j] == f;
                        assert(gone@[j] == f);
                    }
                    if f == other && goes {
                        assert(gone@[went.len() as int] == f);
                    }
                    if gone@.contains(f) && !(goes && f == other) {
                        let j = choose|j: int| 0 <= j < gone@.len() && gone@[j] == f;
                        assert(went[j] == f);
                    }
                    assert(longer.contains(f) <==> shorter.contains(f) || f == other);
                    assert(went.contains(f) <==> shorter.contains(f) && !stays(f));
                }
            }
            i = i + 1;
        }
        assert(before.features.take(i as int) =~= before.features);
        let mut g: usize = 0;
        while g < gone.len()
            invariant
                g <= gone@.len(),
                self.features@ == before.features,
                self.store.wf(),
                stored == old(self).store@,
                before == old(self)@,
                self.store@.submap_of(stored),
                !old(self).is_worn() ==> keeps_keys(old(self).store, self.store),
                forall|k: u64| #[trigger]
                    self.store@.contains_key(k) <==> stored.contains_key(k) && !gone@.take(
                        g as int,
                    ).contains(FeatureId { raw: k }),
            decreases gone@.len() - g,
        {
            let ghost earlier = self.store;
            let other = gone[g];
            self.store.remove(other.raw);
            proof {
                let shorter = gone@.take(g as int);
                let longer = gone@.take(g + 1);
                assert(longer =~= shorter.push(other));
                assert forall|k: u64| #[trigger]
                    self.store@.contains_key(k) <==> stored.contains_key(k) && !longer.contains(
                        FeatureId { raw: k },
                    ) by {
                    let f = FeatureId { raw: k };
                    if shorter.contains(f) {
                        let j = choose|j: int| 0 <= j < shorter.len() && shorter[j] == f;
                        assert(longer[j] == f);
                    }
                    assert(longer[g as int] == other);
                    if longer.contains(f) && f != other {
                        let j = choose|j: int| 0 <= j < longer.len() && longer[j] == f;
                        assert(shorter[j] == f);
                    }
                    assert(earlier@.contains_key(k) <==> stored.contains_key(k)
                        && !shorter.contains(f));
                }
                if !old(self).is_worn() {
                    assert(earlier@.contains_key(other.raw) ==> old(self)@.store.contains_key(
                        other.raw,
                    ));
                    lemma_keeps_keys(old(self).store, earlier, self.store);
                }
            }
            g = g + 1;
        }
        self.features = kept;
        proof {
            assert(gone@.take(g as int) =~= gone@);
            let after = before.without(id);
            assert(feature_views(self.store@) =~= after.store) by {
                assert forall|k: u64| feature_views(self.store@).contains_key(k)
                    <==> after.store.contains_key(k) by {
                    let f = FeatureId { raw: k };
                    assert(gone@.contains(f) <==> before.features.contains(f) && !stays(f));
                }
            }
            assert(self@ =~= after);
            lemma_filtered_ids(before.features, stays, kept@);
            if before.sound() {
                assert forall|f: FeatureId| #[trigger]
                    kept@.contains(f) <==> after.store.contains_key(f.raw) by {
                    assert(FeatureId { raw: f.raw } == f);
                    assert(before.features.contains(f) <==> before.store.contains_key(f.raw));
                }
            }
            if before.linked() {
                assert forall|f: FeatureId| #[trigger] kept@.contains(
                    f,
                ) implies after.store.contains_key(f.raw) by {
                    assert(FeatureId { raw: f.raw } == f);
                    assert(before.features.contains(f));
                }
                assert forall|k: u64| #[trigger] after.store.contains_key(
                    k,
                ) implies after.store[k].linked() by {
                    assert(before.store.contains_key(k));
                }
            }
            if !old(self).is_worn() {
                old(self).lemma_keeps_ids(*self);
            }
        }
        from
    }
}

/// What a filtered list holds.
proof fn lemma_filtered_ids(
    list: Seq<FeatureId>,
    stays: spec_fn(FeatureId) -> bool,
    kept: Seq<FeatureId>,
)
    requires
        kept == list.filter(stays),
    ensures
        list.no_duplicates() ==> kept.no_duplicates(),
        forall|f: FeatureId| #[trigger] kept.contains(f) <==> list.contains(f) && stays(f),
    decreases list.len(),
{
    reveal(Seq::filter);
    if list.len() > 0 {
        let rest = list.drop_last();
        lemma_filtered_ids(rest, stays, rest.filter(stays));
        let some = rest.filter(stays);
        let last = list.last();
        assert forall|f: FeatureId| #[trigger] list.contains(f) <==> rest.contains(f) || f
            == last by {
            if rest.contains(f) {
                let i = choose|i: int| 0 <= i < rest.len() && rest[i] == f;
                assert(list[i] == f);
            }
            if f == last {
                assert(list[list.len() - 1] == f);
            }
            if list.contains(f) && f != last {
                let i = choose|i: int| 0 <= i < list.len() && list[i] == f;
                assert(rest[i] == f);
            }
        }
        assert forall|f: FeatureId| #[trigger] kept.contains(f) <==> list.contains(f) && stays(
            f,
        ) by {
            if some.contains(f) {
                let i = choose|i: int| 0 <= i < some.len() && some[i] == f;
                assert(kept[i] == f);
            }
            if f == last && stays(last) {
                assert(kept[some.len() as int] == f);
            }
        }
        if list.no_duplicates() {
            assert(!rest.contains(last)) by {
                if rest.contains(last) {
                    let i = choose|i: int| 0 <= i < rest.len() && rest[i] == last;
                    assert(list[i] == list[list.len() - 1]);
                }
            }
            assert(rest.no_duplicates());
            assert(!some.contains(last));
            assert forall|i: int, j: int|
                0 <= i < kept.len() && 0 <= j < kept.len() && i != j implies kept[i] != kept[j] by {
                if i < some.len() && j < some.len() {
                    assert(some[i] != some[j]);
                } else if i < some.len() {
                    assert(some[i] != last);
                } else {
                    assert(some[j] != last);
                }
            }
        }
    }
}

impl<T: Copy> Document<T> {
    /// A document with the same contents.
    pub fn duplicate(&self) -> (copy: Self)
        requires
            self.wf(),
        ensures
            copy.wf(),
            copy@ == self@,
            self.keeps_ids(copy),
            self.keeps_sketch_ids(copy),
    {
        let mut features: Vec<FeatureId> = Vec::new();
        let mut i: usize = 0;
        while i < self.features.len()
            invariant
                i <= self.features@.len(),
                features@ == self.features@.take(i as int),
            decreases self.features@.len() - i,
        {
            features.push(self.features[i]);
            assert(self.features@.take(i + 1) =~= self.features@.take(i as int).push(
                self.features@[i as int],
            ));
            i = i + 1;
        }
        assert(self.features@.take(i as int) =~= self.features@);
        let store = self.store.duplicate_with(copy_feature);
        let copy = Document { features, store };
        assert(copy@ =~= self@) by {
            assert(feature_views(store@) =~= feature_views(self.store@)) by {
                assert forall|k: u64| feature_views(self.store@).contains_key(k) implies
                    feature_views(store@)[k] == feature_views(self.store@)[k] by {
                    assert(self.store@.contains_key(k));
                }
            }
        }
        proof {
            assert forall|k: u64| #[trigger] copy.store@.contains_key(
                k,
            ) implies copy.store@[k].wf() by {
                assert(self.store@.contains_key(k));
            }
            lemma_same_keys(self.store, copy.store);
            self.lemma_keeps_ids(copy);
        }
        copy
    }
}

fn copy_feature<T: Copy>(feature: &Feature<T>) -> (copy: Feature<T>)
    requires
        feature.wf(),
    ensures
        copy.wf(),
        copy@ == feature@,
        feature.keeps_ids(copy),
{
    feature.duplicate()
}

/// After a feature is removed, nothing that is left refers to it.
pub proof fn lemma_remove_leaves_no_reference<T>(doc: DocumentView<T>, id: FeatureId, k: u64)
    requires
        doc.sound(),
        doc.features.contains(id),
        doc.without(id).store.contains_key(k),
    ensures
        k != id.raw,
        doc.without(id).store[k].sketch_ref() != Some(id),
{
}

/// Removing a feature leaves all before the first place that is affected as
/// they are. If every feature refers backwards, that is the place of the
/// feature itself.
pub proof fn lemma_remove_keeps_prefix<T>(doc: DocumentView<T>, id: FeatureId, from: int)
    requires
        doc.listed(),
        doc.is_first_affected(id, from),
    ensures
        doc.without(id).features.len() >= from,
        doc.without(id).features.take(from) == doc.features.take(from),
        forall|j: int|
            0 <= j < from ==> doc.without(id).store[(#[trigger] doc.features[j]).raw]
                == doc.store[doc.features[j].raw],
        doc.refers_backwards() && doc.features.contains(id) ==> doc.features[from] == id,
{
    let stays = |f: FeatureId| !doc.goes_with(id, f);
    if doc.features.contains(id) {
        let place = doc.features.index_of(id);
        assert forall|j: int| 0 <= j < from implies stays(#[trigger] doc.features[j]) by {}
        lemma_filter_prefix(doc.features, stays, from);
        assert(doc.features[place] == id);
        assert forall|j: int| 0 <= j < from implies doc.without(id).store[(
        #[trigger] doc.features[j]).raw] == doc.store[doc.features[j].raw] by {
            assert(doc.features.contains(doc.features[j]));
            assert(FeatureId { raw: doc.features[j].raw } == doc.features[j]);
        }
    }
}

proof fn lemma_filter_prefix(list: Seq<FeatureId>, stays: spec_fn(FeatureId) -> bool, i: int)
    requires
        0 <= i <= list.len(),
        forall|j: int| 0 <= j < i ==> stays(#[trigger] list[j]),
    ensures
        list.filter(stays).len() >= i,
        list.filter(stays).take(i) == list.take(i),
    decreases list.len(),
{
    reveal(Seq::filter);
    if list.len() > 0 {
        let rest = list.drop_last();
        if i == list.len() {
            assert(stays(list[i - 1]));
            lemma_filter_prefix(rest, stays, i - 1);
            assert(rest.take(i - 1) =~= rest);
            assert(rest.filter(stays) =~= rest) by {
                lemma_filter_all(rest, stays);
            }
            assert(list.filter(stays).take(i) =~= list.take(i));
        } else {
            lemma_filter_prefix(rest, stays, i);
            assert(list.filter(stays).take(i) =~= rest.filter(stays).take(i));
            assert(list.take(i) =~= rest.take(i));
        }
    }
}

proof fn lemma_filter_all(list: Seq<FeatureId>, stays: spec_fn(FeatureId) -> bool)
    requires
        forall|j: int| 0 <= j < list.len() ==> stays(#[trigger] list[j]),
    ensures
        list.filter(stays) == list,
    decreases list.len(),
{
    reveal(Seq::filter);
    if list.len() > 0 {
        let rest = list.drop_last();
        assert forall|j: int| 0 <= j < rest.len() implies stays(#[trigger] rest[j]) by {
            assert(rest[j] == list[j]);
        }
        lemma_filter_all(rest, stays);
        assert(stays(list[list.len() - 1]));
        assert(list =~= rest.push(list.last()));
    }
}

/// A feature as plain data.
#[derive(Debug, Clone, PartialEq)]
pub enum FeatureData<T> {
    /// A sketch on a plane.
    Sketch(SketchPlane, SketchData<T>),
    /// An extrusion.
    Extrude(ExtrudeFeature<T>),
    /// A revolution.
    Revolve(RevolveFeature<T>),
}

impl<T> View for FeatureData<T> {
    type V = FeatureView<T>;

    open spec fn view(&self) -> FeatureView<T> {
        match *self {
            FeatureData::Sketch(plane, sketch) => FeatureView::Sketch(plane, sketch@),
            FeatureData::Extrude(e) => FeatureView::Extrude(e),
            FeatureData::Revolve(r) => FeatureView::Revolve(r),
        }
    }
}

impl<T> FeatureData<T> {
    /// The data describe a feature.
    pub open spec fn valid(&self) -> bool {
        *self matches FeatureData::Sketch(_, sketch) ==> sketch.valid()
    }
}

/// A document as plain lists: the history, and the slots of the store.
#[derive(Debug, Clone, PartialEq)]
pub struct DocumentData<T> {
    /// The features, in the order of the history.
    pub features: Vec<FeatureId>,
    /// The features themselves.
    pub store: Vec<(Option<FeatureData<T>>, u32)>,
}

/// The contents of described features.
pub open spec fn data_views<T>(store: Map<u64, FeatureData<T>>) -> Map<u64, FeatureView<T>> {
    Map::new(|k: u64| store.contains_key(k), |k: u64| store[k]@)
}

impl<T> View for DocumentData<T> {
    type V = DocumentView<T>;

    open spec fn view(&self) -> DocumentView<T> {
        DocumentView { features: self.features@, store: data_views(stored(self.store@)) }
    }
}

impl<T> DocumentData<T> {
    /// The lists describe a document: the slots can be those of a store, and
    /// every feature is described.
    pub open spec fn valid(&self) -> bool {
        &&& are_slots(self.store@)
        &&& forall|i: int|
            0 <= i < self.store@.len() ==> ((#[trigger] self.store@[i]).0 matches Some(feature)
                ==> feature.valid())
    }
}

fn feature_data<T: Copy>(feature: &Feature<T>) -> (data: FeatureData<T>)
    requires
        feature.wf(),
    ensures
        data.valid(),
        data@ == feature@,
        feature.is_listed_by(data),
{
    match feature {
        Feature::Sketch(s) => FeatureData::Sketch(s.plane, s.sketch.to_data()),
        Feature::Extrude(e) => FeatureData::Extrude(*e),
        Feature::Revolve(r) => FeatureData::Revolve(*r),
    }
}

fn feature_from<T: Copy>(data: FeatureData<T>) -> (feature: Option<Feature<T>>)
    ensures
        feature is Some <==> data.valid(),
        feature matches Some(feature) ==> feature.wf() && feature@ == data@
            && feature.goes_on_from(data),
{
    match data {
        FeatureData::Sketch(plane, sketch) => match Sketch::from_data(sketch) {
            Some(sketch) => Some(Feature::Sketch(SketchFeature { plane, sketch })),
            None => None,
        },
        FeatureData::Extrude(e) => Some(Feature::Extrude(e)),
        FeatureData::Revolve(r) => Some(Feature::Revolve(r)),
    }
}

/// A slot with the feature that is described in a slot.
spec fn is_restored<T>(
    described: (Option<FeatureData<T>>, u32),
    slot: (Option<Feature<T>>, u32),
) -> bool {
    &&& slot.1 == described.1
    &&& match (described.0, slot.0) {
        (Some(data), Some(feature)) => data.valid() && feature.wf() && feature@ == data@
            && feature.goes_on_from(data),
        (None, None) => true,
        _ => false,
    }
}

impl<T: Copy> Document<T> {
    /// The document as plain lists.
    pub fn to_data(&self) -> (data: DocumentData<T>)
        requires
            self.wf(),
        ensures
            data.valid(),
            data@ == self@,
            self.is_listed_by(data),
    {
        let store = self.store.slots_with(feature_data);
        let mut features: Vec<FeatureId> = Vec::new();
        let mut n: usize = 0;
        while n < self.features.len()
            invariant
                n <= self.features@.len(),
                features@ == self.features@.take(n as int),
            decreases self.features@.len() - n,
        {
            features.push(self.features[n]);
            assert(self.features@.take(n + 1) =~= self.features@.take(n as int).push(
                self.features@[n as int],
            ));
            n = n + 1;
        }
        assert(self.features@.take(n as int) =~= self.features@);
        let data = DocumentData { features, store };
        proof {
            assert(data@.store =~= self@.store) by {
                assert forall|k: u64| #[trigger] data@.store.contains_key(k)
                    <==> self@.store.contains_key(k) by {
                    assert(self.store@.contains_key(k) <==> holds(store@, k));
                }
                assert forall|k: u64| data@.store.contains_key(k) implies #[trigger] data@.store[k]
                    == self@.store[k] by {
                    assert(holds(store@, k));
                    assert(self.store@.contains_key(k));
                }
            }
            assert forall|i: int| 0 <= i < store@.len() implies ((#[trigger] store@[i]).0 matches Some(
                feature,
            ) ==> feature.valid()) by {
                if store@[i].0 is Some {
                    let key = slot_key(i, store@[i].1);
                    lemma_slot_key(i, store@[i].1);
                    assert(holds(store@, key));
                    assert(self.store@.contains_key(key));
                }
            }
        }
        data
    }

    /// The document that the lists describe; `None` if they describe none.
    pub fn from_data(data: DocumentData<T>) -> (doc: Option<Self>)
        ensures
            doc is Some <==> data.valid(),
            doc matches Some(doc) ==> doc.wf() && doc@ == data@ && doc.goes_on_from(data),
    {
        let ghost given = data;
        let features = data.features;
        let mut rest = data.store;
        let ghost all = rest@;
        let mut slots: Vec<(Option<Feature<T>>, u32)> = Vec::new();
        while rest.len() > 0
            invariant
                given == data,
                all == given.store@,
                all == all.take(slots@.len() as int) + rest@,
                slots@.len() <= all.len(),
                forall|i: int| 0 <= i < slots@.len() ==> is_restored(all[i], #[trigger] slots@[i]),
            decreases rest@.len(),
        {
            let ghost done = slots@.len() as int;
            assert(rest@[0] == all[done]);
            let (described, generation) = rest.remove(0);
            assert(all =~= all.take(done + 1) + rest@);
            let slot = match described {
                Some(described) => match feature_from(described) {
                    Some(feature) => Some(feature),
                    None => {
                        assert(given.store@[done].0 is Some);
                        return None;
                    },
                },
                None => None,
            };
            slots.push((slot, generation));
        }
        assert(slots@.len() == all.len());
        let ghost listed = slots@;
        proof {
            assert forall|i: int| 0 <= i < all.len() implies (#[trigger] listed[i]).1 == all[i].1 && (
            listed[i].0 is Some <==> all[i].0 is Some) by {
                assert(is_restored(all[i], listed[i]));
            }
            assert(are_slots(listed) == are_slots(all)) by {
                if are_slots(all) {
                    assert forall|i: int| 0 <= i < listed.len() implies ((#[trigger] listed[i]).0 is Some
                        <==> listed[i].1 % 2 == 1) by {
                        assert(all[i].0 is Some <==> all[i].1 % 2 == 1);
                    }
                    assert(listed[0].0 is None);
                }
                if are_slots(listed) {
                    assert forall|i: int| 0 <= i < all.len() implies ((#[trigger] all[i]).0 is Some
                        <==> all[i].1 % 2 == 1) by {
                        assert(listed[i].0 is Some <==> listed[i].1 % 2 == 1);
                    }
                    assert(listed[0].0 is None);
                }
            }
        }
        let store = match Arena::restore(slots) {
            Some(store) => store,
            None => {
                return None;
            },
        };
        let doc = Document { features, store };
        proof {
            assert forall|i: int| 0 <= i < given.store@.len() implies ((
            #[trigger] given.store@[i]).0 matches Some(feature) ==> feature.valid()) by {
                assert(is_restored(all[i], listed[i]));
            }
            assert forall|k: u64| #[trigger] holds(all, k) <==> holds(listed, k) by {
                assert(slot_index(k) < all.len() ==> listed[slot_index(k) as int].1
                    == all[slot_index(k) as int].1);
            }
            assert(doc@.store =~= data@.store) by {
                assert forall|k: u64| data@.store.contains_key(k) implies #[trigger] doc@.store[k]
                    == data@.store[k] by {
                    assert(holds(all, k));
                    assert(is_restored(all[slot_index(k) as int], listed[slot_index(k) as int]));
                }
                assert forall|k: u64| #[trigger] data@.store.contains_key(k)
                    <==> doc@.store.contains_key(k) by {
                    assert(holds(all, k) <==> holds(listed, k));
                }
            }
            assert(is_vacancy(all, store.vacant())) by {
                assert forall|k: u64| #[trigger] store.vacant().contains(k) <==> gives_out(all, k) by {
                    assert(store.vacant().contains(k) <==> gives_out(listed, k));
                    assert(slot_index(k) < all.len() ==> listed[slot_index(k) as int].1
                        == all[slot_index(k) as int].1);
                }
            }
            assert forall|k: u64| #[trigger] doc.store@.contains_key(k) implies doc.store@[k].wf() by {
                assert(holds(listed, k));
                assert(is_restored(all[slot_index(k) as int], listed[slot_index(k) as int]));
            }
        }
        Some(doc)
    }

    /// Whether every feature of the history exists.
    pub fn is_listed(&self) -> (listed: bool)
        requires
            self.wf(),
        ensures
            listed == self@.listed(),
    {
        let mut i: usize = 0;
        while i < self.features.len()
            invariant
                self.wf(),
                i <= self.features@.len(),
                forall|a: int|
                    0 <= a < i ==> self@.store.contains_key((#[trigger] self.features@[a]).raw),
            decreases self.features@.len() - i,
        {
            let id = self.features[i];
            assert(self@.features[i as int] == id);
            if !self.store.contains(id.raw) {
                assert(self@.features.contains(id));
                return false;
            }
            i = i + 1;
        }
        assert forall|id: FeatureId| #[trigger]
            self@.features.contains(id) implies self@.store.contains_key(id.raw) by {
            let a = choose|a: int| 0 <= a < self.features@.len() && self.features@[a] == id;
            assert(self@.store.contains_key(self.features@[a].raw));
        }
        true
    }

    /// Whether every feature of the history exists, and all that a sketch
    /// names does.
    pub fn is_linked(&self) -> (linked: bool)
        requires
            self.wf(),
        ensures
            linked == self@.linked(),
    {
        if !self.is_listed() {
            return false;
        }
        let keys = self.store.keys();
        let mut i: usize = 0;
        while i < keys.len()
            invariant
                self.wf(),
                self@.listed(),
                in_slot_order(keys@, self.store@.dom()),
                i <= keys@.len(),
                forall|a: int| 0 <= a < i ==> self@.store[#[trigger] keys@[a]].linked(),
            decreases keys@.len() - i,
        {
            let key = keys[i];
            assert(keys@.contains(keys@[i as int]));
            assert(self.store@.dom().contains(key));
            assert(self@.store.contains_key(key));
            if let Feature::Sketch(s) = self.store.at(key) {
                if !s.sketch.is_linked() {
                    assert(!self@.store[key].linked());
                    return false;
                }
            }
            assert(self@.store[key].linked());
            i = i + 1;
        }
        assert forall|k: u64| #[trigger] self@.store.contains_key(k) implies self@.store[k].linked() by {
            assert(self.store@.dom().contains(k));
            let a = choose|a: int| 0 <= a < keys@.len() && keys@[a] == k;
            assert(self@.store[keys@[a]].linked());
        }
        true
    }
}

} // verus!
