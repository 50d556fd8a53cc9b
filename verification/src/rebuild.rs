//! From the history of features to bodies.
use vstd::prelude::*;

use crate::arith::{
    compares_alike, compares_all, computes, eval_closed, evaluates_alike, evaluates_all, gives,
};
use crate::document::{
    Document, DocumentView, Feature, FeatureView, RevolveAxis, SketchPlane, axes_spec,
};
use crate::expr::{Expr, Reading};
use crate::geometry::{
    Axis2D, GeomError, INVERSE_LEAST_ANGLE, INVERSE_LEAST_DISTANCE, Plane, Profile2D, SolidPlan,
    Sweep, extrude, extrudes, is_plan, lemma_extrudes_alike, lemma_plan_alike,
    lemma_revolves_alike, revolve, revolves, same_outcome, same_plan, same_profile2d,
};
use crate::ids::FeatureId;
use crate::mesh::{TriMesh, polylines};
use crate::profiles::{Profile, found_profiles, lemma_profiles_alike, same_profile, traceable};
use crate::text::{decimal, decimal_spec};

verus! {

/// How the building of a feature ended.
pub enum FeatureStatus {
    /// The feature was built.
    Built,
    /// The feature could not be built; the reason.
    Failed(String),
}

/// What became of a feature.
pub struct RebuildEntry<V> {
    /// The feature.
    pub feature: FeatureId,
    /// How its building ended.
    pub status: FeatureStatus,
    /// The body that was built.
    pub body: Option<TriMesh<V>>,
}

/// What became of all features, in the order of the history.
pub struct RebuildState<V> {
    /// An entry for each feature.
    pub entries: Vec<RebuildEntry<V>>,
}

/// The arithmetic and the modelling kernel that a rebuild uses.
pub struct RebuildOps<E, L, M, K> {
    /// Evaluates a formula, given the values of the variables.
    pub eval: E,
    /// Whether one number is less than another.
    pub less: L,
    /// Whether one number is at most another.
    pub at_most: M,
    /// Builds a solid and makes a mesh of it, or says why not.
    pub kernel: K,
}

/// Every operation can be used.
pub open spec fn rebuild_usable<
    T,
    V,
    E: Fn(&Expr<T>, &Vec<T>) -> T,
    L: Fn(&T, &T) -> bool,
    M: Fn(&T, &T) -> bool,
    K: Fn(&SolidPlan<T>) -> Result<TriMesh<V>, String>,
>(ops: RebuildOps<E, L, M, K>) -> bool {
    &&& evaluates_all(ops.eval)
    &&& compares_all(ops.less)
    &&& compares_all(ops.at_most)
    &&& forall|plan: &SolidPlan<T>| #[trigger] call_requires(ops.kernel, (plan,))
}

/// The profile as the kernel takes it.
pub open spec fn is_profile2d<T>(p: Profile<T>, q: Profile2D<T>) -> bool {
    match p {
        Profile::Polygon(points) => q matches Profile2D::Polygon(copy) && copy@ == points@,
        Profile::Circle { center, radius } => q == (Profile2D::Circle { center, radius }),
    }
}

/// Which profile of a list is meant, or why there is none.
pub open spec fn selects<T>(
    profiles: Seq<Profile<T>>,
    index: usize,
    result: Result<Profile2D<T>, Seq<char>>,
) -> bool {
    if profiles.len() == 0 {
        result == Err::<Profile2D<T>, Seq<char>>("Skizze enthält keine geschlossene Schleife"@)
    } else if index < profiles.len() {
        result matches Ok(profile) && is_profile2d(profiles[index as int], profile)
    } else {
        result == Err::<Profile2D<T>, Seq<char>>(
            "Profil "@ + decimal_spec((index + 1) as nat) + " existiert nicht ("@ + decimal_spec(
                profiles.len(),
            ) + " vorhanden)"@,
        )
    }
}

/// The profile of a sketch that a feature refers to with its plane, or why
/// there is none.
pub open spec fn resolves<T, E: Fn(&Expr<T>, &Vec<T>) -> T, L: Fn(&T, &T) -> bool>(
    doc: DocumentView<T>,
    eval: E,
    less: L,
    sketch: FeatureId,
    index: usize,
    plane: SketchPlane,
    result: Result<Profile2D<T>, Seq<char>>,
) -> bool {
    if doc.store.contains_key(sketch.raw) && doc.store[sketch.raw] is Sketch {
        &&& doc.store[sketch.raw]->Sketch_0 == plane
        &&& exists|profiles: Seq<Profile<T>>| #[trigger]
            found_profiles(doc.store[sketch.raw]->Sketch_1, eval, less, profiles) && selects(
                profiles,
                index,
                result,
            )
    } else {
        result == Err::<Profile2D<T>, Seq<char>>("referenzierte Skizze existiert nicht mehr"@)
    }
}

/// `t` is what `eval` gives for an integer.
pub open spec fn is_number<T, E: Fn(&Expr<T>, &Vec<T>) -> T>(eval: E, n: i64, t: T) -> bool {
    &&& computes(eval, |at: Reading<T>| ((n as int) as real) / 1real, Seq::empty(), t)
    &&& gives(eval, Expr::Ratio(n, 1), Seq::empty(), t)
}

/// `p` is the standard plane in the number type.
pub open spec fn is_plane<T, E: Fn(&Expr<T>, &Vec<T>) -> T>(
    eval: E,
    plane: SketchPlane,
    p: Plane<T>,
) -> bool {
    forall|i: int|
        0 <= i < 3 ==> is_number(eval, 0, #[trigger] p.origin[i]) && is_number(
            eval,
            axes_spec(plane).0[i],
            p.u[i],
        ) && is_number(eval, axes_spec(plane).1[i], p.v[i])
}

/// `a` is the axis through the origin in the number type.
pub open spec fn is_axis<T, E: Fn(&Expr<T>, &Vec<T>) -> T>(
    eval: E,
    axis: RevolveAxis,
    a: Axis2D<T>,
) -> bool {
    &&& is_number(eval, 0, a.origin[0])
    &&& is_number(eval, 0, a.origin[1])
    &&& is_number(
        eval,
        if axis is U {
            1
        } else {
            0
        },
        a.dir[0],
    )
    &&& is_number(
        eval,
        if axis is U {
            0
        } else {
            1
        },
        a.dir[1],
    )
}

/// The plan of a feature's solid: `plan` is the outcome of planning it from
/// the profile and the plane.
pub open spec fn plans<
    T,
    E: Fn(&Expr<T>, &Vec<T>) -> T,
    L: Fn(&T, &T) -> bool,
    M: Fn(&T, &T) -> bool,
>(
    eval: E,
    less: L,
    at_most: M,
    feature: FeatureView<T>,
    profile: Profile2D<T>,
    plane: SketchPlane,
    plan: Result<SolidPlan<T>, GeomError>,
) -> bool {
    exists|p: Plane<T>| #[trigger]
        is_plane(eval, plane, p) && planned(eval, less, at_most, feature, profile, p, plan)
}

/// The plan of a feature's solid, given the plane in the number type.
pub open spec fn planned<
    T,
    E: Fn(&Expr<T>, &Vec<T>) -> T,
    L: Fn(&T, &T) -> bool,
    M: Fn(&T, &T) -> bool,
>(
    eval: E,
    less: L,
    at_most: M,
    feature: FeatureView<T>,
    profile: Profile2D<T>,
    p: Plane<T>,
    plan: Result<SolidPlan<T>, GeomError>,
) -> bool {
    match feature {
        FeatureView::Sketch(..) => false,
        FeatureView::Extrude(e) => is_plan(
            eval,
            less,
            at_most,
            profile,
            p,
            e.distance,
            INVERSE_LEAST_DISTANCE,
            extrudes(eval, p, e.distance),
            plan,
        ),
        FeatureView::Revolve(r) => exists|axis: Axis2D<T>| #[trigger]
            is_axis(eval, r.axis, axis) && is_plan(
                eval,
                less,
                at_most,
                profile,
                p,
                r.angle,
                INVERSE_LEAST_ANGLE,
                revolves(eval, p, axis, r.angle),
                plan,
            ),
    }
}

/// What becomes of a feature that builds a body: the mesh, or why there is
/// none.
pub open spec fn builds<
    T,
    V,
    E: Fn(&Expr<T>, &Vec<T>) -> T,
    L: Fn(&T, &T) -> bool,
    M: Fn(&T, &T) -> bool,
    K: Fn(&SolidPlan<T>) -> Result<TriMesh<V>, String>,
>(
    ops: RebuildOps<E, L, M, K>,
    doc: DocumentView<T>,
    feature: FeatureView<T>,
    sketch: FeatureId,
    index: usize,
    outcome: Result<TriMesh<V>, Seq<char>>,
) -> bool {
    exists|plane: SketchPlane, resolved: Result<Profile2D<T>, Seq<char>>| #[trigger]
        resolves(doc, ops.eval, ops.less, sketch, index, plane, resolved) && builds_from(
            ops,
            feature,
            plane,
            resolved,
            outcome,
        )
}

/// What becomes of a feature, given the profile and the plane, or why there is
/// no profile.
pub open spec fn builds_from<
    T,
    V,
    E: Fn(&Expr<T>, &Vec<T>) -> T,
    L: Fn(&T, &T) -> bool,
    M: Fn(&T, &T) -> bool,
    K: Fn(&SolidPlan<T>) -> Result<TriMesh<V>, String>,
>(
    ops: RebuildOps<E, L, M, K>,
    feature: FeatureView<T>,
    plane: SketchPlane,
    resolved: Result<Profile2D<T>, Seq<char>>,
    outcome: Result<TriMesh<V>, Seq<char>>,
) -> bool {
    match resolved {
        Err(reason) => outcome == Err::<TriMesh<V>, Seq<char>>(reason),
        Ok(profile) => exists|plan: Result<SolidPlan<T>, GeomError>| #[trigger]
            plans(ops.eval, ops.less, ops.at_most, feature, profile, plane, plan) && builds_plan(
                ops,
                plan,
                outcome,
            ),
    }
}

/// What becomes of a feature, given its plan, or why there is none.
pub open spec fn builds_plan<
    T,
    V,
    E: Fn(&Expr<T>, &Vec<T>) -> T,
    L: Fn(&T, &T) -> bool,
    M: Fn(&T, &T) -> bool,
    K: Fn(&SolidPlan<T>) -> Result<TriMesh<V>, String>,
>(
    ops: RebuildOps<E, L, M, K>,
    plan: Result<SolidPlan<T>, GeomError>,
    outcome: Result<TriMesh<V>, Seq<char>>,
) -> bool {
    match plan {
        Err(e) => outcome == Err::<TriMesh<V>, Seq<char>>(e.message_spec()),
        Ok(plan) => exists|made: Result<TriMesh<V>, String>| #[trigger]
            call_ensures(ops.kernel, (&plan,), made) && is_made(made, outcome),
    }
}

/// What becomes of a feature, given what the kernel made of its plan.
pub open spec fn is_made<V>(
    made: Result<TriMesh<V>, String>,
    outcome: Result<TriMesh<V>, Seq<char>>,
) -> bool {
    match made {
        Ok(mesh) => outcome == Ok::<TriMesh<V>, Seq<char>>(mesh),
        Err(cause) => outcome == Err::<TriMesh<V>, Seq<char>>(
            GeomError::FaceCreation(cause).message_spec(),
        ),
    }
}

/// The entry says what became of a feature.
pub open spec fn is_entry<
    T,
    V,
    E: Fn(&Expr<T>, &Vec<T>) -> T,
    L: Fn(&T, &T) -> bool,
    M: Fn(&T, &T) -> bool,
    K: Fn(&SolidPlan<T>) -> Result<TriMesh<V>, String>,
>(
    ops: RebuildOps<E, L, M, K>,
    doc: DocumentView<T>,
    id: FeatureId,
    entry: RebuildEntry<V>,
) -> bool {
    let feature = doc.store[id.raw];
    &&& entry.feature == id
    &&& match feature {
        FeatureView::Sketch(..) => entry.status is Built && entry.body is None,
        FeatureView::Extrude(e) => exists|outcome: Result<TriMesh<V>, Seq<char>>| #[trigger]
            builds(ops, doc, feature, e.sketch, e.profile, outcome) && tells(entry, outcome),
        FeatureView::Revolve(r) => exists|outcome: Result<TriMesh<V>, Seq<char>>| #[trigger]
            builds(ops, doc, feature, r.sketch, r.profile, outcome) && tells(entry, outcome),
    }
}

/// The entry tells an outcome: a body, or the reason of the failure.
pub open spec fn tells<V>(
    entry: RebuildEntry<V>,
    outcome: Result<TriMesh<V>, Seq<char>>,
) -> bool {
    match outcome {
        Ok(mesh) => entry.status is Built && entry.body == Some(mesh),
        Err(reason) => entry.body is None && (entry.status matches FeatureStatus::Failed(text)
            && text@ == reason),
    }
}

/// How many of the first entries are kept when the history is rebuilt from a
/// place on: those before it, if they are for the features that stand there.
pub open spec fn kept_count<V>(
    features: Seq<FeatureId>,
    entries: Seq<RebuildEntry<V>>,
    from: int,
) -> int {
    let upto = if from < features.len() {
        from
    } else {
        features.len() as int
    };
    if upto <= entries.len() && forall|i: int|
        0 <= i < upto ==> (#[trigger] entries[i]).feature == features[i] {
        upto
    } else {
        0
    }
}

/// `after` are the entries of a history that is rebuilt from a place on: the
/// kept ones, and for the rest what becomes of the features now. If the kept
/// ones still hold, all is up to date.
pub open spec fn is_rebuilt<
    T,
    V,
    E: Fn(&Expr<T>, &Vec<T>) -> T,
    L: Fn(&T, &T) -> bool,
    M: Fn(&T, &T) -> bool,
    K: Fn(&SolidPlan<T>) -> Result<TriMesh<V>, String>,
>(
    ops: RebuildOps<E, L, M, K>,
    doc: DocumentView<T>,
    from: int,
    before: Seq<RebuildEntry<V>>,
    after: Seq<RebuildEntry<V>>,
) -> bool {
    let kept = kept_count(doc.features, before, from);
    &&& after.len() == doc.features.len()
    &&& after.take(kept) == before.take(kept)
    &&& forall|i: int|
        kept <= i < doc.features.len() ==> is_entry(
            ops,
            doc,
            doc.features[i],
            #[trigger] after[i],
        )
    &&& (forall|i: int|
        0 <= i < kept ==> is_entry(ops, doc, doc.features[i], #[trigger] before[i]))
        ==> is_up_to_date(ops, doc, after)
}

/// An integer in the number type.
pub(crate) fn number<T: Copy, E: Fn(&Expr<T>, &Vec<T>) -> T>(eval: &E, n: i64) -> (t: T)
    requires
        evaluates_all(*eval),
    ensures
        is_number(*eval, n, t),
{
    assert((1 as int) as real == 1real);
    eval_closed(
        eval,
        Expr::ratio(n, 1),
        Ghost(|at: Reading<T>| ((n as int) as real) / 1real),
    )
}

/// A vector of integers in the number type.
fn numbers<T: Copy, E: Fn(&Expr<T>, &Vec<T>) -> T>(eval: &E, v: [i64; 3]) -> (t: [T; 3])
    requires
        evaluates_all(*eval),
    ensures
        forall|i: int| 0 <= i < 3 ==> is_number(*eval, v[i], #[trigger] t[i]),
{
    let x = number(eval, v[0]);
    let y = number(eval, v[1]);
    let z = number(eval, v[2]);
    let t = [x, y, z];
    assert forall|i: int| 0 <= i < 3 implies is_number(*eval, v[i], #[trigger] t[i]) by {
        assert(i == 0 || i == 1 || i == 2);
    }
    t
}

/// A standard plane in the number type.
fn plane_numbers<T: Copy, E: Fn(&Expr<T>, &Vec<T>) -> T>(eval: &E, plane: SketchPlane) -> (p: Plane<
    T,
>)
    requires
        evaluates_all(*eval),
    ensures
        is_plane(*eval, plane, p),
{
    let axes = plane.to_geom();
    let origin = numbers(eval, axes.origin);
    let u = numbers(eval, axes.u);
    let v = numbers(eval, axes.v);
    let p = Plane { origin, u, v };
    assert forall|i: int| 0 <= i < 3 implies is_number(*eval, 0, #[trigger] p.origin[i])
        && is_number(*eval, axes_spec(plane).0[i], p.u[i]) && is_number(
        *eval,
        axes_spec(plane).1[i],
        p.v[i],
    ) by {
        assert(is_number(*eval, axes.origin[i], origin[i]));
        assert(axes.origin[i] == 0) by {
            assert(i == 0 || i == 1 || i == 2);
        }
        assert(is_number(*eval, axes.u[i], u[i]));
        assert(is_number(*eval, axes.v[i], v[i]));
    }
    p
}

/// An axis through the origin in the number type.
fn axis_numbers<T: Copy, E: Fn(&Expr<T>, &Vec<T>) -> T>(eval: &E, axis: RevolveAxis) -> (a: Axis2D<
    T,
>)
    requires
        evaluates_all(*eval),
    ensures
        is_axis(*eval, axis, a),
{
    let zero = number(eval, 0);
    let one = number(eval, 1);
    match axis {
        RevolveAxis::U => Axis2D { origin: [zero, zero], dir: [one, zero] },
        RevolveAxis::V => Axis2D { origin: [zero, zero], dir: [zero, one] },
    }
}

/// A profile as the kernel takes it.
fn to_profile2d<T: Copy>(profile: &Profile<T>) -> (copy: Profile2D<T>)
    ensures
        is_profile2d(*profile, copy),
{
    match profile {
        Profile::Polygon(points) => {
            let mut copy: Vec<[T; 2]> = Vec::new();
            let mut i: usize = 0;
            while i < points.len()
                invariant
                    i <= points@.len(),
                    copy@ == points@.take(i as int),
                decreases points@.len() - i,
            {
                copy.push(points[i]);
                assert(points@.take(i + 1) =~= points@.take(i as int).push(points@[i as int]));
                i = i + 1;
            }
            assert(points@.take(i as int) =~= points@);
            Profile2D::Polygon(copy)
        },
        Profile::Circle { center, radius } => Profile2D::Circle {
            center: *center,
            radius: *radius,
        },
    }
}

/// The view of the reason of a failure.
pub open spec fn reason_view<A>(result: Result<A, String>) -> Result<A, Seq<char>> {
    match result {
        Ok(a) => Ok(a),
        Err(reason) => Err(reason@),
    }
}

/// The profile that an index means, or why there is none.
pub fn select_profile<T: Copy>(profiles: &Vec<Profile<T>>, index: usize) -> (result: Result<
    Profile2D<T>,
    String,
>)
    ensures
        selects(profiles@, index, reason_view(result)),
{
    if profiles.len() == 0 {
        return Err(String::from_str("Skizze enthält keine geschlossene Schleife"));
    }
    if index < profiles.len() {
        Ok(to_profile2d(&profiles[index]))
    } else {
        let mut text = String::from_str("Profil ");
        let number = decimal(index as u128 + 1);
        text.append(number.as_str());
        text.append(" existiert nicht (");
        let count = decimal(profiles.len() as u128);
        text.append(count.as_str());
        text.append(" vorhanden)");
        Err(text)
    }
}

/// The profile of a sketch with its plane, or why there is none.
fn sketch_profile<T: Copy, E: Fn(&Expr<T>, &Vec<T>) -> T, L: Fn(&T, &T) -> bool>(
    doc: &Document<T>,
    sketch: FeatureId,
    index: usize,
    eval: &E,
    less: &L,
) -> (found: (SketchPlane, Result<Profile2D<T>, String>))
    requires
        doc.wf(),
        is_traceable(doc@, sketch),
        evaluates_all(*eval),
        compares_all(*less),
    ensures
        resolves(doc@, *eval, *less, sketch, index, found.0, reason_view(found.1)),
{
    match doc.feature(sketch) {
        Some(Feature::Sketch(s)) => {
            let profiles = s.sketch.find_profiles(eval, less);
            let selected = select_profile(&profiles, index);
            assert(found_profiles(s.sketch@, *eval, *less, profiles@));
            (s.plane, selected)
        },
        _ => (
            SketchPlane::XY,
            Err(String::from_str("referenzierte Skizze existiert nicht mehr")),
        ),
    }
}

/// Builds what was planned.
fn run_kernel<T, V, K: Fn(&SolidPlan<T>) -> Result<TriMesh<V>, String>>(
    kernel: &K,
    plan: Result<SolidPlan<T>, GeomError>,
) -> (outcome: Result<TriMesh<V>, String>)
    requires
        forall|plan: &SolidPlan<T>| #[trigger] call_requires(kernel, (plan,)),
    ensures
        match plan {
            Err(e) => outcome matches Err(reason) && reason@ == e.message_spec(),
            Ok(plan) => exists|made: Result<TriMesh<V>, String>| #[trigger]
                call_ensures(*kernel, (&plan,), made) && match made {
                    Ok(mesh) => outcome == Ok::<TriMesh<V>, String>(mesh),
                    Err(cause) => outcome matches Err(reason) && reason@ == GeomError::FaceCreation(
                        cause,
                    ).message_spec(),
                },
        },
{
    match plan {
        Err(e) => Err(e.message()),
        Ok(plan) => match kernel(&plan) {
            Ok(mesh) => Ok(mesh),
            Err(cause) => {
                let e = GeomError::FaceCreation(cause);
                Err(e.message())
            },
        },
    }
}

/// The profiles of the sketch have places, if there is such a sketch.
pub open spec fn is_traceable<T>(doc: DocumentView<T>, sketch: FeatureId) -> bool {
    doc.store.contains_key(sketch.raw) ==> (doc.store[sketch.raw] matches FeatureView::Sketch(
        _,
        view,
    ) ==> traceable(view))
}

/// Every feature of the history exists, and the profiles of the sketches that
/// features refer to have places.
pub open spec fn buildable<T>(doc: DocumentView<T>) -> bool {
    forall|i: int|
        0 <= i < doc.features.len() ==> {
            &&& doc.store.contains_key((#[trigger] doc.features[i]).raw)
            &&& doc.store[doc.features[i].raw].sketch_ref() matches Some(sketch) ==> is_traceable(
                doc,
                sketch,
            )
        }
}

impl<T: Copy> Document<T> {
    /// A linked document can be built.
    pub proof fn lemma_buildable(&self)
        requires
            self.wf(),
            self@.linked(),
        ensures
            buildable(self@),
    {
        assert forall|i: int| 0 <= i < self@.features.len() implies {
            &&& self@.store.contains_key((#[trigger] self@.features[i]).raw)
            &&& self@.store[self@.features[i].raw].sketch_ref() matches Some(sketch)
                ==> is_traceable(self@, sketch)
        } by {
            let id = self@.features[i];
            assert(self@.features.contains(id));
            if let Some(sketch) = self@.store[id.raw].sketch_ref() {
                if self@.store.contains_key(sketch.raw) {
                    self.lemma_feature_at(sketch);
                    assert(self@.store[sketch.raw].linked());
                    if let Feature::Sketch(s) = self.feature_at(sketch) {
                        s.sketch.lemma_traceable();
                    }
                }
            }
        }
    }
}

/// What becomes of a feature.
fn compute_entry<
    T: Copy,
    V,
    E: Fn(&Expr<T>, &Vec<T>) -> T,
    L: Fn(&T, &T) -> bool,
    M: Fn(&T, &T) -> bool,
    K: Fn(&SolidPlan<T>) -> Result<TriMesh<V>, String>,
>(doc: &Document<T>, id: FeatureId, ops: &RebuildOps<E, L, M, K>) -> (entry: RebuildEntry<V>)
    requires
        doc.wf(),
        doc@.store.contains_key(id.raw),
        doc@.store[id.raw].sketch_ref() matches Some(sketch) ==> is_traceable(doc@, sketch),
        rebuild_usable::<T, V, E, L, M, K>(*ops),
    ensures
        is_entry(*ops, doc@, id, entry),
{
    let ghost feature = doc@.store[id.raw];
    let result = match doc.feature(id) {
        Some(Feature::Extrude(e)) => {
            let (plane, found) = sketch_profile(doc, e.sketch, e.profile, &ops.eval, &ops.less);
            let ghost resolved = reason_view(found);
            let result = match found {
                Ok(profile) => {
                    let p = plane_numbers(&ops.eval, plane);
                    let plan = extrude(
                        &profile,
                        &p,
                        e.distance,
                        &ops.eval,
                        &ops.less,
                        &ops.at_most,
                    );
                    assert(plans(ops.eval, ops.less, ops.at_most, feature, profile, plane, plan));
                    run_kernel(&ops.kernel, plan)
                },
                Err(reason) => Err(reason),
            };
            proof {
                assert(resolves(
                    doc@,
                    ops.eval,
                    ops.less,
                    e.sketch,
                    e.profile,
                    plane,
                    resolved,
                ));
                assert(builds(
                    *ops,
                    doc@,
                    feature,
                    e.sketch,
                    e.profile,
                    reason_view(result),
                ));
            }
            result
        },
        Some(Feature::Revolve(r)) => {
            let (plane, found) = sketch_profile(doc, r.sketch, r.profile, &ops.eval, &ops.less);
            let ghost resolved = reason_view(found);
            let result = match found {
                Ok(profile) => {
                    let p = plane_numbers(&ops.eval, plane);
                    let axis = axis_numbers(&ops.eval, r.axis);
                    let plan = revolve(
                        &profile,
                        &p,
                        &axis,
                        r.angle,
                        &ops.eval,
                        &ops.less,
                        &ops.at_most,
                    );
                    assert(is_axis(ops.eval, r.axis, axis));
                    assert(plans(ops.eval, ops.less, ops.at_most, feature, profile, plane, plan));
                    run_kernel(&ops.kernel, plan)
                },
                Err(reason) => Err(reason),
            };
            proof {
                assert(resolves(
                    doc@,
                    ops.eval,
                    ops.less,
                    r.sketch,
                    r.profile,
                    plane,
                    resolved,
                ));
                assert(builds(
                    *ops,
                    doc@,
                    feature,
                    r.sketch,
                    r.profile,
                    reason_view(result),
                ));
            }
            result
        },
        _ => {
            return RebuildEntry { feature: id, status: FeatureStatus::Built, body: None };
        },
    };
    let ghost outcome = reason_view(result);
    let entry = match result {
        Ok(mesh) => RebuildEntry { feature: id, status: FeatureStatus::Built, body: Some(mesh) },
        Err(reason) => RebuildEntry {
            feature: id,
            status: FeatureStatus::Failed(reason),
            body: None,
        },
    };
    proof {
        assert(tells(entry, outcome));
        match feature {
            FeatureView::Sketch(..) => {},
            FeatureView::Extrude(e) => {
                assert(builds(*ops, doc@, feature, e.sketch, e.profile, outcome));
            },
            FeatureView::Revolve(r) => {
                assert(builds(*ops, doc@, feature, r.sketch, r.profile, outcome));
            },
        }
    }
    entry
}

/// Rebuilds the history from a place on. Entries before it are kept if they
/// are for the features that stand there; else all is rebuilt.
pub fn rebuild<
    T: Copy,
    V,
    E: Fn(&Expr<T>, &Vec<T>) -> T,
    L: Fn(&T, &T) -> bool,
    M: Fn(&T, &T) -> bool,
    K: Fn(&SolidPlan<T>) -> Result<TriMesh<V>, String>,
>(doc: &Document<T>, from: usize, state: &mut RebuildState<V>, ops: &RebuildOps<E, L, M, K>)
    requires
        doc.wf(),
        buildable(doc@),
        rebuild_usable::<T, V, E, L, M, K>(*ops),
    ensures
        is_rebuilt(*ops, doc@, from as int, old(state).entries@, final(state).entries@),
{
    let count = doc.len();
    let mut start = if from < count {
        from
    } else {
        count
    };
    let ghost kept = kept_count(doc@.features, old(state).entries@, from as int);
    let mut valid = start <= state.entries.len();
    let mut i: usize = 0;
    while valid && i < start
        invariant
            state.entries@ == old(state).entries@,
            start <= doc@.features.len(),
            i <= start,
            valid ==> start <= state.entries@.len(),
            valid ==> forall|j: int|
                0 <= j < i ==> (#[trigger] state.entries@[j]).feature == doc@.features[j],
            !valid ==> start > state.entries@.len() || exists|j: int|
                0 <= j < start && (#[trigger] state.entries@[j]).feature != doc@.features[j],
        decreases
            start - i + if valid {
                1int
            } else {
                0int
            },
    {
        if state.entries[i].feature != doc.id_at(i) {
            assert(state.entries@[i as int].feature != doc@.features[i as int]);
            valid = false;
        } else {
            i = i + 1;
        }
    }
    if !valid {
        start = 0;
    }
    assert(start == kept);
    state.entries.truncate(start);
    let mut k: usize = start;
    proof {
        assert(state.entries@.take(kept) =~= old(state).entries@.take(kept));
    }
    while k < count
        invariant
            doc.wf(),
            buildable(doc@),
            rebuild_usable::<T, V, E, L, M, K>(*ops),
            count == doc@.features.len(),
            start == kept,
            kept <= k <= count,
            state.entries@.len() == k,
            state.entries@.take(kept) == old(state).entries@.take(kept),
            forall|j: int|
                kept <= j < k ==> is_entry(
                    *ops,
                    doc@,
                    doc@.features[j],
                    #[trigger] state.entries@[j],
                ),
        decreases count - k,
    {
        let id = doc.id_at(k);
        proof {
            assert(doc@.features[k as int] == id);
            assert(doc@.features.contains(id));
        }
        let ghost before = state.entries@;
        let entry = compute_entry(doc, id, ops);
        state.entries.push(entry);
        proof {
            assert(state.entries@.take(kept) =~= before.take(kept));
            assert forall|j: int| kept <= j < k + 1 implies is_entry(
                *ops,
                doc@,
                doc@.features[j],
                #[trigger] state.entries@[j],
            ) by {
                if j < k {
                    assert(state.entries@[j] == before[j]);
                }
            }
        }
        k = k + 1;
    }
    proof {
        if forall|i: int|
            0 <= i < kept ==> is_entry(
                *ops,
                doc@,
                doc@.features[i],
                #[trigger] old(state).entries@[i],
            ) {
            assert forall|i: int| 0 <= i < state.entries@.len() implies is_entry(
                *ops,
                doc@,
                doc@.features[i],
                #[trigger] state.entries@[i],
            ) by {
                if i < kept {
                    assert(state.entries@.take(kept)[i] == old(state).entries@.take(kept)[i]);
                    assert(state.entries@[i] == old(state).entries@[i]);
                }
            }
        }
    }
}

/// All entries say what becomes of their features.
pub open spec fn is_up_to_date<
    T,
    V,
    E: Fn(&Expr<T>, &Vec<T>) -> T,
    L: Fn(&T, &T) -> bool,
    M: Fn(&T, &T) -> bool,
    K: Fn(&SolidPlan<T>) -> Result<TriMesh<V>, String>,
>(ops: RebuildOps<E, L, M, K>, doc: DocumentView<T>, entries: Seq<RebuildEntry<V>>) -> bool {
    &&& entries.len() == doc.features.len()
    &&& forall|i: int|
        0 <= i < entries.len() ==> is_entry(ops, doc, doc.features[i], #[trigger] entries[i])
}

/// If only features from a place on have changed, and what stands before that
/// place refers only to what stands before it too, then what became of the
/// earlier features is still what becomes of them.
pub proof fn lemma_entry_unchanged<
    T,
    V,
    E: Fn(&Expr<T>, &Vec<T>) -> T,
    L: Fn(&T, &T) -> bool,
    M: Fn(&T, &T) -> bool,
    K: Fn(&SolidPlan<T>) -> Result<TriMesh<V>, String>,
>(
    ops: RebuildOps<E, L, M, K>,
    before: DocumentView<T>,
    after: DocumentView<T>,
    id: FeatureId,
    entry: RebuildEntry<V>,
)
    requires
        is_entry(ops, before, id, entry),
        after.store[id.raw] == before.store[id.raw],
        before.store[id.raw].sketch_ref() matches Some(sketch) ==> {
            &&& after.store.contains_key(sketch.raw) <==> before.store.contains_key(sketch.raw)
            &&& after.store[sketch.raw] == before.store[sketch.raw]
        },
    ensures
        is_entry(ops, after, id, entry),
{
    let feature = before.store[id.raw];
    match feature {
        FeatureView::Sketch(..) => {},
        FeatureView::Extrude(e) => {
            let outcome = choose|outcome: Result<TriMesh<V>, Seq<char>>| #[trigger]
                builds(ops, before, feature, e.sketch, e.profile, outcome) && tells(entry, outcome);
            lemma_builds_unchanged(ops, before, after, feature, e.sketch, e.profile, outcome);
        },
        FeatureView::Revolve(r) => {
            let outcome = choose|outcome: Result<TriMesh<V>, Seq<char>>| #[trigger]
                builds(ops, before, feature, r.sketch, r.profile, outcome) && tells(entry, outcome);
            lemma_builds_unchanged(ops, before, after, feature, r.sketch, r.profile, outcome);
        },
    }
}

/// When one feature of an up-to-date history is edited and all references
/// point backwards, the entries before it still hold: a rebuild from that
/// feature on brings everything up to date again.
pub proof fn lemma_edit_keeps_earlier_entries<
    T,
    V,
    E: Fn(&Expr<T>, &Vec<T>) -> T,
    L: Fn(&T, &T) -> bool,
    M: Fn(&T, &T) -> bool,
    K: Fn(&SolidPlan<T>) -> Result<TriMesh<V>, String>,
>(
    ops: RebuildOps<E, L, M, K>,
    before: DocumentView<T>,
    feature: FeatureView<T>,
    p: int,
    entries: Seq<RebuildEntry<V>>,
)
    requires
        before.features.no_duplicates(),
        before.refers_backwards(),
        is_up_to_date(ops, before, entries),
        0 <= p < before.features.len(),
    ensures
        ({
            let after = DocumentView {
                store: before.store.insert(before.features[p].raw, feature),
                ..before
            };
            &&& kept_count(after.features, entries, p) == p
            &&& forall|i: int|
                0 <= i < p ==> is_entry(ops, after, after.features[i], #[trigger] entries[i])
        }),
{
    let edited = before.features[p];
    let after = DocumentView { store: before.store.insert(edited.raw, feature), ..before };
    assert forall|i: int| 0 <= i < p implies is_entry(
        ops,
        after,
        after.features[i],
        #[trigger] entries[i],
    ) by {
        let id = before.features[i];
        assert(is_entry(ops, before, id, entries[i]));
        assert(id != edited);
        if let Some(sketch) = before.store[id.raw].sketch_ref() {
            if sketch == edited {
                assert(before.store[before.features[i].raw].sketch_ref() == Some(
                    before.features[p],
                ));
            }
        }
        lemma_entry_unchanged(ops, before, after, id, entries[i]);
    }
    assert forall|i: int| 0 <= i < p implies (#[trigger] entries[i]).feature
        == after.features[i] by {
        assert(is_entry(ops, before, before.features[i], entries[i]));
    }
}

proof fn lemma_builds_unchanged<
    T,
    V,
    E: Fn(&Expr<T>, &Vec<T>) -> T,
    L: Fn(&T, &T) -> bool,
    M: Fn(&T, &T) -> bool,
    K: Fn(&SolidPlan<T>) -> Result<TriMesh<V>, String>,
>(
    ops: RebuildOps<E, L, M, K>,
    before: DocumentView<T>,
    after: DocumentView<T>,
    feature: FeatureView<T>,
    sketch: FeatureId,
    index: usize,
    outcome: Result<TriMesh<V>, Seq<char>>,
)
    requires
        builds(ops, before, feature, sketch, index, outcome),
        after.store.contains_key(sketch.raw) <==> before.store.contains_key(sketch.raw),
        after.store[sketch.raw] == before.store[sketch.raw],
    ensures
        builds(ops, after, feature, sketch, index, outcome),
{
    let (plane, resolved) = choose|plane: SketchPlane, resolved: Result<Profile2D<T>, Seq<char>>|
     #[trigger]
        resolves(before, ops.eval, ops.less, sketch, index, plane, resolved) && builds_from(
            ops,
            feature,
            plane,
            resolved,
            outcome,
        );
    assert(resolves(after, ops.eval, ops.less, sketch, index, plane, resolved));
}

impl<V> RebuildState<V> {
    /// A state without entries.
    pub fn new() -> (state: Self)
        ensures
            state.entries@.len() == 0,
    {
        RebuildState { entries: Vec::new() }
    }

    /// How the building of a feature ended, if there is an entry for it.
    pub fn status_of(&self, id: FeatureId) -> (status: Option<&FeatureStatus>)
        ensures
            match status {
                Some(status) => exists|i: int|
                    0 <= i < self.entries@.len() && (#[trigger] self.entries@[i]).feature == id
                        && self.entries@[i].status == *status && forall|j: int|
                        0 <= j < i ==> (#[trigger] self.entries@[j]).feature != id,
                None => forall|j: int|
                    0 <= j < self.entries@.len() ==> (#[trigger] self.entries@[j]).feature != id,
            },
    {
        let mut i: usize = 0;
        while i < self.entries.len()
            invariant
                i <= self.entries@.len(),
                forall|j: int| 0 <= j < i ==> (#[trigger] self.entries@[j]).feature != id,
            decreases self.entries@.len() - i,
        {
            if self.entries[i].feature == id {
                assert(self.entries@[i as int].feature == id);
                return Some(&self.entries[i].status);
            }
            i = i + 1;
        }
        None
    }

    /// All bodies with their features, in the order of the history.
    pub fn bodies(&self) -> (list: Vec<(FeatureId, &TriMesh<V>)>)
        ensures
            list@ == self.entries@.filter(|e: RebuildEntry<V>| e.body is Some).map_values(
                |e: RebuildEntry<V>| (e.feature, &e.body->Some_0),
            ),
    {
        let ghost wanted = |e: RebuildEntry<V>| e.body is Some;
        let ghost make = |e: RebuildEntry<V>| (e.feature, &e.body->Some_0);
        let mut list: Vec<(FeatureId, &TriMesh<V>)> = Vec::new();
        let mut i: usize = 0;
        proof {
            reveal(Seq::filter);
            assert(list@ =~= self.entries@.take(0).filter(wanted).map_values(make));
        }
        while i < self.entries.len()
            invariant
                i <= self.entries@.len(),
                wanted == (|e: RebuildEntry<V>| e.body is Some),
                make == (|e: RebuildEntry<V>| (e.feature, &e.body->Some_0)),
                list@ == self.entries@.take(i as int).filter(wanted).map_values(make),
            decreases self.entries@.len() - i,
        {
            let ghost shorter = self.entries@.take(i as int);
            proof {
                reveal(Seq::filter);
                assert(self.entries@.take(i + 1).drop_last() =~= shorter);
            }
            if let Some(body) = &self.entries[i].body {
                list.push((self.entries[i].feature, body));
                assert(shorter.filter(wanted).push(self.entries@[i as int]).map_values(make)
                    =~= shorter.filter(wanted).map_values(make).push(
                    make(self.entries@[i as int]),
                ));
            }
            i = i + 1;
        }
        assert(self.entries@.take(i as int) =~= self.entries@);
        list
    }
}

/// The meshes are the same.
pub open spec fn same_mesh<V>(a: TriMesh<V>, b: TriMesh<V>) -> bool {
    &&& a.positions@ == b.positions@
    &&& a.normals@ == b.normals@
    &&& a.indices@ == b.indices@
    &&& a.face_ids@ == b.face_ids@
    &&& polylines(a.edges@) == polylines(b.edges@)
}

/// The kernel made the same of a plan.
pub open spec fn same_made<V>(
    a: Result<TriMesh<V>, String>,
    b: Result<TriMesh<V>, String>,
) -> bool {
    match (a, b) {
        (Ok(p), Ok(q)) => same_mesh(p, q),
        (Err(p), Err(q)) => p@ == q@,
        _ => false,
    }
}

/// The features came to the same.
pub open spec fn same_built<V>(
    a: Result<TriMesh<V>, Seq<char>>,
    b: Result<TriMesh<V>, Seq<char>>,
) -> bool {
    match (a, b) {
        (Ok(p), Ok(q)) => same_mesh(p, q),
        (Err(p), Err(q)) => p == q,
        _ => false,
    }
}

/// The entries say the same: of the same feature the same status and body.
pub open spec fn same_entry<V>(a: RebuildEntry<V>, b: RebuildEntry<V>) -> bool {
    &&& a.feature == b.feature
    &&& match (a.status, b.status) {
        (FeatureStatus::Built, FeatureStatus::Built) => true,
        (FeatureStatus::Failed(p), FeatureStatus::Failed(q)) => p@ == q@,
        _ => false,
    }
    &&& match (a.body, b.body) {
        (Some(p), Some(q)) => same_mesh(p, q),
        (None, None) => true,
        _ => false,
    }
}

/// Doing the same has one result each time: evaluating a formula with the same
/// values, comparing the same numbers, building the same plan.
pub open spec fn works_alike<
    T,
    V,
    E: Fn(&Expr<T>, &Vec<T>) -> T,
    L: Fn(&T, &T) -> bool,
    M: Fn(&T, &T) -> bool,
    K: Fn(&SolidPlan<T>) -> Result<TriMesh<V>, String>,
>(ops: RebuildOps<E, L, M, K>) -> bool {
    &&& evaluates_alike(ops.eval)
    &&& compares_alike(ops.less)
    &&& compares_alike(ops.at_most)
    &&& forall|
        p: SolidPlan<T>,
        q: SolidPlan<T>,
        a: Result<TriMesh<V>, String>,
        b: Result<TriMesh<V>, String>,
    | #[trigger]
        call_ensures(ops.kernel, (&p,), a) && #[trigger] call_ensures(ops.kernel, (&q,), b)
            && same_plan(p, q) ==> same_made(a, b)
}

/// The resolved profiles are the same.
spec fn same_resolved<T>(
    a: Result<Profile2D<T>, Seq<char>>,
    b: Result<Profile2D<T>, Seq<char>>,
) -> bool {
    match (a, b) {
        (Ok(p), Ok(q)) => same_profile2d(p, q),
        (Err(p), Err(q)) => p == q,
        _ => false,
    }
}

proof fn lemma_resolves_alike<T, E: Fn(&Expr<T>, &Vec<T>) -> T, L: Fn(&T, &T) -> bool>(
    doc: DocumentView<T>,
    eval: E,
    less: L,
    sketch: FeatureId,
    index: usize,
    s: SketchPlane,
    t: SketchPlane,
    a: Result<Profile2D<T>, Seq<char>>,
    b: Result<Profile2D<T>, Seq<char>>,
)
    requires
        evaluates_alike(eval),
        compares_alike(less),
        resolves(doc, eval, less, sketch, index, s, a),
        resolves(doc, eval, less, sketch, index, t, b),
    ensures
        same_resolved(a, b),
        a is Ok ==> s == t,
{
    if doc.store.contains_key(sketch.raw) && doc.store[sketch.raw] is Sketch {
        let view = doc.store[sketch.raw]->Sketch_1;
        let p = choose|profiles: Seq<Profile<T>>| #[trigger]
            found_profiles(view, eval, less, profiles) && selects(profiles, index, a);
        let q = choose|profiles: Seq<Profile<T>>| #[trigger]
            found_profiles(view, eval, less, profiles) && selects(profiles, index, b);
        lemma_profiles_alike(view, eval, less, p, q);
        if index < p.len() {
            assert(same_profile(p[index as int], q[index as int]));
        }
    }
}

proof fn lemma_plane_alike<T, E: Fn(&Expr<T>, &Vec<T>) -> T>(
    eval: E,
    plane: SketchPlane,
    p: Plane<T>,
    q: Plane<T>,
)
    requires
        evaluates_alike(eval),
        is_plane(eval, plane, p),
        is_plane(eval, plane, q),
    ensures
        p == q,
{
    assert forall|i: int| 0 <= i < 3 implies p.origin[i] == q.origin[i] && p.u[i] == q.u[i]
        && p.v[i] == q.v[i] by {
        assert(is_number(eval, 0, p.origin[i]) && is_number(eval, 0, q.origin[i]));
        assert(is_number(eval, axes_spec(plane).0[i], p.u[i]));
        assert(is_number(eval, axes_spec(plane).0[i], q.u[i]));
        assert(is_number(eval, axes_spec(plane).1[i], p.v[i]));
        assert(is_number(eval, axes_spec(plane).1[i], q.v[i]));
    }
    assert(p.origin =~= q.origin);
    assert(p.u =~= q.u);
    assert(p.v =~= q.v);
}

proof fn lemma_axis_alike<T, E: Fn(&Expr<T>, &Vec<T>) -> T>(
    eval: E,
    axis: RevolveAxis,
    a: Axis2D<T>,
    b: Axis2D<T>,
)
    requires
        evaluates_alike(eval),
        is_axis(eval, axis, a),
        is_axis(eval, axis, b),
    ensures
        a == b,
{
    assert(a.origin[0] == b.origin[0] && a.origin[1] == b.origin[1]);
    assert(a.dir[0] == b.dir[0] && a.dir[1] == b.dir[1]);
    assert(a.origin =~= b.origin);
    assert(a.dir =~= b.dir);
}

proof fn lemma_plans_alike<
    T,
    E: Fn(&Expr<T>, &Vec<T>) -> T,
    L: Fn(&T, &T) -> bool,
    M: Fn(&T, &T) -> bool,
>(
    eval: E,
    less: L,
    at_most: M,
    feature: FeatureView<T>,
    a: Profile2D<T>,
    b: Profile2D<T>,
    plane: SketchPlane,
    p: Result<SolidPlan<T>, GeomError>,
    q: Result<SolidPlan<T>, GeomError>,
)
    requires
        evaluates_alike(eval),
        compares_alike(less),
        compares_alike(at_most),
        same_profile2d(a, b),
        plans(eval, less, at_most, feature, a, plane, p),
        plans(eval, less, at_most, feature, b, plane, q),
    ensures
        same_outcome(p, q),
{
    let s = choose|s: Plane<T>| #[trigger]
        is_plane(eval, plane, s) && planned(eval, less, at_most, feature, a, s, p);
    let t = choose|t: Plane<T>| #[trigger]
        is_plane(eval, plane, t) && planned(eval, less, at_most, feature, b, t, q);
    lemma_plane_alike(eval, plane, s, t);
    match feature {
        FeatureView::Sketch(..) => {},
        FeatureView::Extrude(e) => {
            let sweeps = extrudes(eval, s, e.distance);
            assert forall|x: Sweep<T>, y: Sweep<T>| #[trigger] sweeps(x) && #[trigger] sweeps(
                y,
            ) implies x == y by {
                lemma_extrudes_alike(eval, s, e.distance, x, y);
            }
            lemma_plan_alike(
                eval,
                less,
                at_most,
                a,
                b,
                s,
                e.distance,
                INVERSE_LEAST_DISTANCE,
                sweeps,
                p,
                q,
            );
        },
        FeatureView::Revolve(r) => {
            let x = choose|axis: Axis2D<T>| #[trigger]
                is_axis(eval, r.axis, axis) && is_plan(
                    eval,
                    less,
                    at_most,
                    a,
                    s,
                    r.angle,
                    INVERSE_LEAST_ANGLE,
                    revolves(eval, s, axis, r.angle),
                    p,
                );
            let y = choose|axis: Axis2D<T>| #[trigger]
                is_axis(eval, r.axis, axis) && is_plan(
                    eval,
                    less,
                    at_most,
                    b,
                    s,
                    r.angle,
                    INVERSE_LEAST_ANGLE,
                    revolves(eval, s, axis, r.angle),
                    q,
                );
            lemma_axis_alike(eval, r.axis, x, y);
            let sweeps = revolves(eval, s, x, r.angle);
            assert forall|v: Sweep<T>, w: Sweep<T>| #[trigger] sweeps(v) && #[trigger] sweeps(
                w,
            ) implies v == w by {
                lemma_revolves_alike(eval, s, x, r.angle, v, w);
            }
            lemma_plan_alike(
                eval,
                less,
                at_most,
                a,
                b,
                s,
                r.angle,
                INVERSE_LEAST_ANGLE,
                sweeps,
                p,
                q,
            );
        },
    }
}

proof fn lemma_builds_alike<
    T,
    V,
    E: Fn(&Expr<T>, &Vec<T>) -> T,
    L: Fn(&T, &T) -> bool,
    M: Fn(&T, &T) -> bool,
    K: Fn(&SolidPlan<T>) -> Result<TriMesh<V>, String>,
>(
    ops: RebuildOps<E, L, M, K>,
    doc: DocumentView<T>,
    feature: FeatureView<T>,
    sketch: FeatureId,
    index: usize,
    a: Result<TriMesh<V>, Seq<char>>,
    b: Result<TriMesh<V>, Seq<char>>,
)
    requires
        works_alike::<T, V, E, L, M, K>(ops),
        builds(ops, doc, feature, sketch, index, a),
        builds(ops, doc, feature, sketch, index, b),
    ensures
        same_built(a, b),
{
    let (s, p) = choose|plane: SketchPlane, resolved: Result<Profile2D<T>, Seq<char>>| #[trigger]
        resolves(doc, ops.eval, ops.less, sketch, index, plane, resolved) && builds_from(
            ops,
            feature,
            plane,
            resolved,
            a,
        );
    let (t, q) = choose|plane: SketchPlane, resolved: Result<Profile2D<T>, Seq<char>>| #[trigger]
        resolves(doc, ops.eval, ops.less, sketch, index, plane, resolved) && builds_from(
            ops,
            feature,
            plane,
            resolved,
            b,
        );
    lemma_resolves_alike(doc, ops.eval, ops.less, sketch, index, s, t, p, q);
    if let (Ok(v), Ok(w)) = (p, q) {
        let x = choose|plan: Result<SolidPlan<T>, GeomError>| #[trigger]
            plans(ops.eval, ops.less, ops.at_most, feature, v, s, plan) && builds_plan(ops, plan, a);
        let y = choose|plan: Result<SolidPlan<T>, GeomError>| #[trigger]
            plans(ops.eval, ops.less, ops.at_most, feature, w, s, plan) && builds_plan(ops, plan, b);
        lemma_plans_alike(ops.eval, ops.less, ops.at_most, feature, v, w, s, x, y);
        if let (Ok(d), Ok(e)) = (x, y) {
            let m = choose|made: Result<TriMesh<V>, String>| #[trigger]
                call_ensures(ops.kernel, (&d,), made) && is_made(made, a);
            let n = choose|made: Result<TriMesh<V>, String>| #[trigger]
                call_ensures(ops.kernel, (&e,), made) && is_made(made, b);
            assert(same_made(m, n));
        }
    }
}

/// What becomes of a feature is always the same.
pub proof fn lemma_entry_alike<
    T,
    V,
    E: Fn(&Expr<T>, &Vec<T>) -> T,
    L: Fn(&T, &T) -> bool,
    M: Fn(&T, &T) -> bool,
    K: Fn(&SolidPlan<T>) -> Result<TriMesh<V>, String>,
>(
    ops: RebuildOps<E, L, M, K>,
    doc: DocumentView<T>,
    id: FeatureId,
    a: RebuildEntry<V>,
    b: RebuildEntry<V>,
)
    requires
        works_alike::<T, V, E, L, M, K>(ops),
        is_entry(ops, doc, id, a),
        is_entry(ops, doc, id, b),
    ensures
        same_entry(a, b),
{
    let feature = doc.store[id.raw];
    match feature {
        FeatureView::Sketch(..) => {},
        FeatureView::Extrude(e) => {
            let x = choose|outcome: Result<TriMesh<V>, Seq<char>>| #[trigger]
                builds(ops, doc, feature, e.sketch, e.profile, outcome) && tells(a, outcome);
            let y = choose|outcome: Result<TriMesh<V>, Seq<char>>| #[trigger]
                builds(ops, doc, feature, e.sketch, e.profile, outcome) && tells(b, outcome);
            lemma_builds_alike(ops, doc, feature, e.sketch, e.profile, x, y);
        },
        FeatureView::Revolve(r) => {
            let x = choose|outcome: Result<TriMesh<V>, Seq<char>>| #[trigger]
                builds(ops, doc, feature, r.sketch, r.profile, outcome) && tells(a, outcome);
            let y = choose|outcome: Result<TriMesh<V>, Seq<char>>| #[trigger]
                builds(ops, doc, feature, r.sketch, r.profile, outcome) && tells(b, outcome);
            lemma_builds_alike(ops, doc, feature, r.sketch, r.profile, x, y);
        },
    }
}

/// Up-to-date entries of a history are always the same.
pub proof fn lemma_up_to_date_alike<
    T,
    V,
    E: Fn(&Expr<T>, &Vec<T>) -> T,
    L: Fn(&T, &T) -> bool,
    M: Fn(&T, &T) -> bool,
    K: Fn(&SolidPlan<T>) -> Result<TriMesh<V>, String>,
>(
    ops: RebuildOps<E, L, M, K>,
    doc: DocumentView<T>,
    a: Seq<RebuildEntry<V>>,
    b: Seq<RebuildEntry<V>>,
)
    requires
        works_alike::<T, V, E, L, M, K>(ops),
        is_up_to_date(ops, doc, a),
        is_up_to_date(ops, doc, b),
    ensures
        a.len() == b.len(),
        forall|i: int| 0 <= i < a.len() ==> same_entry(#[trigger] a[i], b[i]),
{
    assert forall|i: int| 0 <= i < a.len() implies same_entry(#[trigger] a[i], b[i]) by {
        lemma_entry_alike(ops, doc, doc.features[i], a[i], b[i]);
    }
}

/// Two histories agree before a place: the same features stand there, and each
/// refers to a feature before it, if to any.
pub open spec fn agree_before<T>(a: DocumentView<T>, b: DocumentView<T>, from: int) -> bool {
    &&& from <= a.features.len()
    &&& from <= b.features.len()
    &&& forall|i: int|
        0 <= i < from ==> #[trigger] a.features[i] == b.features[i] && a.store[a.features[i].raw]
            == b.store[a.features[i].raw]
    &&& forall|i: int|
        0 <= i < from ==> (a.store[(#[trigger] a.features[i]).raw].sketch_ref() matches Some(sketch)
            ==> stands_before(a.features, sketch, i))
}

/// The feature stands before a place.
pub open spec fn stands_before(features: Seq<FeatureId>, id: FeatureId, i: int) -> bool {
    exists|j: int| 0 <= j < i && #[trigger] features[j] == id
}

/// After an up-to-date history has changed from a place on, a rebuild from that
/// place on brings all of it up to date.
pub proof fn lemma_partial_rebuild<
    T,
    V,
    E: Fn(&Expr<T>, &Vec<T>) -> T,
    L: Fn(&T, &T) -> bool,
    M: Fn(&T, &T) -> bool,
    K: Fn(&SolidPlan<T>) -> Result<TriMesh<V>, String>,
>(
    ops: RebuildOps<E, L, M, K>,
    before: DocumentView<T>,
    after: DocumentView<T>,
    from: int,
    entries: Seq<RebuildEntry<V>>,
    partial: Seq<RebuildEntry<V>>,
)
    requires
        before.listed(),
        after.listed(),
        0 <= from,
        agree_before(before, after, from),
        is_up_to_date(ops, before, entries),
        is_rebuilt(ops, after, from, entries, partial),
    ensures
        is_up_to_date(ops, after, partial),
{
    assert forall|i: int| 0 <= i < from implies is_entry(
        ops,
        after,
        after.features[i],
        #[trigger] entries[i],
    ) by {
        let id = before.features[i];
        assert(is_entry(ops, before, id, entries[i]));
        assert(after.features[i] == id);
        if let Some(sketch) = before.store[id.raw].sketch_ref() {
            let j = choose|j: int| 0 <= j < i && #[trigger] before.features[j] == sketch;
            assert(before.features.contains(sketch));
            assert(after.features[j] == sketch);
            assert(after.features.contains(sketch));
        }
        lemma_entry_unchanged(ops, before, after, id, entries[i]);
    }
    assert(kept_count(after.features, entries, from) == from) by {
        assert forall|i: int| 0 <= i < from implies (#[trigger] entries[i]).feature
            == after.features[i] by {
            assert(is_entry(ops, after, after.features[i], entries[i]));
        }
    }
}

/// A partial rebuild equals a full one. After a history was rebuilt and then
/// changed in any way from a place on, rebuilding it from that place on gives
/// the same entries as rebuilding all of it, if doing the same has one result
/// each time.
pub proof fn lemma_partial_equals_full<
    T,
    V,
    E: Fn(&Expr<T>, &Vec<T>) -> T,
    L: Fn(&T, &T) -> bool,
    M: Fn(&T, &T) -> bool,
    K: Fn(&SolidPlan<T>) -> Result<TriMesh<V>, String>,
>(
    ops: RebuildOps<E, L, M, K>,
    before: DocumentView<T>,
    after: DocumentView<T>,
    from: int,
    entries: Seq<RebuildEntry<V>>,
    stale: Seq<RebuildEntry<V>>,
    partial: Seq<RebuildEntry<V>>,
    full: Seq<RebuildEntry<V>>,
)
    requires
        works_alike::<T, V, E, L, M, K>(ops),
        before.listed(),
        after.listed(),
        0 <= from,
        agree_before(before, after, from),
        is_up_to_date(ops, before, entries),
        is_rebuilt(ops, after, from, entries, partial),
        is_rebuilt(ops, after, 0, stale, full),
    ensures
        partial.len() == full.len(),
        forall|i: int| 0 <= i < partial.len() ==> same_entry(#[trigger] partial[i], full[i]),
{
    lemma_partial_rebuild(ops, before, after, from, entries, partial);
    assert(kept_count(after.features, stale, 0) == 0);
    assert(is_up_to_date(ops, after, full));
    lemma_up_to_date_alike(ops, after, partial, full);
}

} // verus!
