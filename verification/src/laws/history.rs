//! Laws of the history of features, of its rebuild and of its editing.
use vstd::prelude::*;

use crate::document::{DocumentView, FeatureView, SketchPlane};
use crate::editor::{
    Edit, Editor, PendingFeature, becomes, body_ids, document_views, hidden_index, is_committed,
    is_confirmed, is_finished, is_fresh, is_in_order, is_undone, last_sketch, lemma_added_feature,
    lemma_changed_feature, pending_source, place_of, pushed, stays_up_to_date, with_edit, with_edited, with_edits,
    with_pending_edit, with_source,
};
use crate::expr::Expr;
use crate::geometry::SolidPlan;
use crate::ids::FeatureId;
use crate::mesh::TriMesh;
use crate::persist::{DocumentFile, PersistError, is_read, is_written};
use crate::rebuild::{
    FeatureStatus, RebuildEntry, RebuildOps, is_entry, is_rebuilt, is_up_to_date, kept_count,
};
use crate::session::SketchSession;
use crate::sketch::SketchView;

verus! {

/// The feature is made from the sketch of the other one.
pub open spec fn is_made_from<T>(feature: FeatureView<T>, sketch: FeatureId) -> bool {
    match feature {
        FeatureView::Sketch(..) => false,
        FeatureView::Extrude(e) => e.sketch == sketch,
        FeatureView::Revolve(r) => r.sketch == sketch,
    }
}

/// The feature refers to the sketch that it is made from, and to nothing else.
pub proof fn lemma_reference<T>(feature: FeatureView<T>, sketch: FeatureId)
    ensures
        feature.sketch_ref() == Some(sketch) <==> is_made_from(feature, sketch),
        feature is Sketch <==> feature.sketch_ref() is None,
{
}

/// What stays of a list, with the places where it stood.
pub proof fn lemma_filter_places<A>(list: Seq<A>, stays: spec_fn(A) -> bool) -> (places: Seq<int>)
    ensures
        places.len() == list.filter(stays).len(),
        forall|i: int, j: int|
            0 <= i < j < places.len() ==> #[trigger] places[i] < #[trigger] places[j],
        forall|i: int|
            0 <= i < places.len() ==> 0 <= #[trigger] places[i] < list.len()
                && list.filter(stays)[i] == list[places[i]] && stays(list[places[i]]),
        forall|t: int| 0 <= t < list.len() && stays(#[trigger] list[t]) ==> places.contains(t),
    decreases list.len(),
{
    reveal(Seq::filter);
    if list.len() == 0 {
        Seq::empty()
    } else {
        let rest = list.drop_last();
        let some = lemma_filter_places(rest, stays);
        let last = list.len() - 1;
        let all = if stays(list.last()) {
            some.push(last)
        } else {
            some
        };
        assert forall|i: int| 0 <= i < all.len() implies 0 <= #[trigger] all[i] < list.len()
            && list.filter(stays)[i] == list[all[i]] && stays(list[all[i]]) by {
            if i < some.len() {
                assert(0 <= some[i] < rest.len());
                assert(rest[some[i]] == list[some[i]]);
            }
        }
        assert forall|i: int, j: int| 0 <= i < j < all.len() implies #[trigger] all[i]
            < #[trigger] all[j] by {
            if j < some.len() {
                assert(some[i] < some[j]);
            } else {
                assert(some[i] < rest.len());
            }
        }
        assert forall|t: int| 0 <= t < list.len() && stays(#[trigger] list[t]) implies all.contains(
            t,
        ) by {
            if t < last {
                assert(rest[t] == list[t]);
                assert(some.contains(t));
                let i = choose|i: int| 0 <= i < some.len() && some[i] == t;
                assert(all[i] == t);
            } else {
                assert(all[some.len() as int] == t);
            }
        }
        all
    }
}

/// The first list is what is left of the second, in its order.
pub open spec fn is_part_of<A>(part: Seq<A>, whole: Seq<A>) -> bool {
    exists|places: Seq<int>| #[trigger] are_places(part, whole, places)
}

/// Each item of the first list stands in the second at its place, and the
/// places ascend.
pub open spec fn are_places<A>(part: Seq<A>, whole: Seq<A>, places: Seq<int>) -> bool {
    &&& places.len() == part.len()
    &&& forall|i: int, j: int|
        0 <= i < j < places.len() ==> #[trigger] places[i] < #[trigger] places[j]
    &&& forall|i: int|
        0 <= i < places.len() ==> 0 <= #[trigger] places[i] < whole.len() && part[i]
            == whole[places[i]]
}

/// Removing a feature removes it and what is made from it, and nothing else.
/// All that is left stays as it was, in its order.
pub proof fn lemma_removal<T>(doc: DocumentView<T>, id: FeatureId)
    requires
        doc.sound(),
        doc.features.contains(id),
    ensures
        ({
            let after = doc.without(id);
            &&& forall|f: FeatureId| #[trigger]
                after.features.contains(f) <==> doc.features.contains(f) && f != id
                    && !is_made_from(doc.store[f.raw], id)
            &&& forall|f: FeatureId| #[trigger]
                after.store.contains_key(f.raw) <==> after.features.contains(f)
            &&& forall|f: FeatureId|
                after.features.contains(f) ==> #[trigger] after.store[f.raw] == doc.store[f.raw]
            &&& is_part_of(after.features, doc.features)
        }),
{
    let after = doc.without(id);
    let stays = |f: FeatureId| !doc.goes_with(id, f);
    let places = lemma_filter_places(doc.features, stays);
    assert(are_places(after.features, doc.features, places));
    assert forall|f: FeatureId| #[trigger] after.features.contains(f) <==> doc.features.contains(f)
        && f != id && !is_made_from(doc.store[f.raw], id) by {
        lemma_reference(doc.store[f.raw], id);
        if after.features.contains(f) {
            let i = choose|i: int| 0 <= i < after.features.len() && after.features[i] == f;
            assert(0 <= places[i] < doc.features.len());
            assert(doc.features[places[i]] == f);
        }
        if doc.features.contains(f) && stays(f) {
            let t = choose|t: int| 0 <= t < doc.features.len() && doc.features[t] == f;
            assert(places.contains(t));
            let i = choose|i: int| 0 <= i < places.len() && places[i] == t;
            assert(after.features[i] == f);
        }
    }
    assert forall|f: FeatureId| #[trigger] after.store.contains_key(f.raw)
        <==> after.features.contains(f) by {
        assert(FeatureId { raw: f.raw } == f);
        lemma_reference(doc.store[f.raw], id);
        assert(doc.features.contains(f) <==> doc.store.contains_key(f.raw));
    }
}

/// Nothing changes where there is no such feature to remove.
pub proof fn lemma_removal_of_nothing<T>(doc: DocumentView<T>, id: FeatureId)
    requires
        !doc.features.contains(id),
    ensures
        doc.without(id) == doc,
{
}

/// The place from which a removal makes a rebuild necessary is the first of a
/// feature that goes: no feature before it goes, and none before it is made
/// from one that goes.
pub proof fn lemma_first_affected<T>(doc: DocumentView<T>, id: FeatureId, from: int)
    requires
        doc.features.contains(id),
        doc.is_first_affected(id, from),
    ensures
        0 <= from < doc.features.len(),
        doc.features[from] == id || is_made_from(doc.store[doc.features[from].raw], id),
        forall|j: int|
            0 <= j < from ==> #[trigger] doc.features[j] != id && !is_made_from(
                doc.store[doc.features[j].raw],
                id,
            ),
{
    lemma_reference(doc.store[doc.features[from].raw], id);
    assert forall|j: int| 0 <= j < from implies #[trigger] doc.features[j] != id && !is_made_from(
        doc.store[doc.features[j].raw],
        id,
    ) by {
        lemma_reference(doc.store[doc.features[j].raw], id);
    }
}

/// A new feature stands last in the history, and all others stay where and as
/// they are.
pub proof fn lemma_addition<T>(doc: DocumentView<T>, id: FeatureId, feature: FeatureView<T>)
    requires
        !doc.store.contains_key(id.raw),
    ensures
        ({
            let after = doc.with_feature(id, feature);
            let n = doc.features.len() as int;
            &&& after.features.len() == n + 1
            &&& after.features[n] == id
            &&& forall|i: int| 0 <= i < n ==> #[trigger] after.features[i] == doc.features[i]
            &&& after.store.contains_key(id.raw)
            &&& after.store[id.raw] == feature
            &&& forall|k: u64| #[trigger]
                doc.store.contains_key(k) ==> after.store.contains_key(k) && after.store[k]
                    == doc.store[k]
            &&& forall|k: u64| #[trigger]
                after.store.contains_key(k) ==> k == id.raw || doc.store.contains_key(k)
        }),
{
}

/// A rebuild has an entry for each feature, in the order of the history. From
/// the given place on, every entry says what becomes of its feature now; before
/// it an entry may be the old one of that feature. A rebuild from the start
/// builds all features anew.
pub proof fn lemma_rebuild<
    T,
    V,
    E: Fn(&Expr<T>, &Vec<T>) -> T,
    L: Fn(&T, &T) -> bool,
    M: Fn(&T, &T) -> bool,
    K: Fn(&SolidPlan<T>) -> Result<TriMesh<V>, String>,
>(
    ops: RebuildOps<E, L, M, K>,
    doc: DocumentView<T>,
    from: int,
    before: Seq<RebuildEntry<V>>,
    after: Seq<RebuildEntry<V>>,
)
    requires
        0 <= from,
        is_rebuilt(ops, doc, from, before, after),
    ensures
        after.len() == doc.features.len(),
        forall|i: int|
            0 <= i < after.len() ==> (#[trigger] after[i]).feature == doc.features[i],
        forall|i: int|
            from <= i < after.len() ==> is_entry(ops, doc, doc.features[i], #[trigger] after[i]),
        forall|i: int|
            0 <= i < after.len() ==> is_entry(ops, doc, doc.features[i], #[trigger] after[i]) || (i
                < from && i < before.len() && after[i] == before[i]),
{
    let kept = kept_count(doc.features, before, from);
    assert forall|i: int| 0 <= i < kept implies #[trigger] after[i] == before[i] && after[i].feature
        == doc.features[i] by {
        assert(after.take(kept)[i] == after[i]);
        assert(before.take(kept)[i] == before[i]);
    }
    assert forall|i: int| 0 <= i < after.len() implies (#[trigger] after[i]).feature
        == doc.features[i] by {
        if i >= kept {
            assert(is_entry(ops, doc, doc.features[i], after[i]));
        } else {
            assert(after[i] == before[i]);
        }
    }
    assert forall|i: int| 0 <= i < after.len() implies is_entry(
        ops,
        doc,
        doc.features[i],
        #[trigger] after[i],
    ) || (i < from && i < before.len() && after[i] == before[i]) by {
        if i < kept {
            assert(after[i] == before[i]);
        }
    }
}

/// A file of a newer version is refused with that version, whatever it holds; a
/// document that was written is read again, and so is one of an older version.
pub proof fn lemma_versions<T>(
    doc: DocumentView<T>,
    file: DocumentFile<T>,
    result: Result<DocumentView<T>, PersistError>,
)
    requires
        is_read(file, result),
    ensures
        file.format_version > 2 ==> (result matches Err(PersistError::UnsupportedVersion(v)) && v
            == file.format_version),
        file.format_version <= 2 && file.document.valid() ==> result == Ok::<
            DocumentView<T>,
            PersistError,
        >(file.document@),
        file.format_version <= 2 && !file.document.valid() ==> (
        result matches Err(PersistError::Deserialize(_))),
        is_written(doc, file) ==> file.format_version == 2 && result == Ok::<
            DocumentView<T>,
            PersistError,
        >(doc),
{
}

/// The last sketch is a sketch of the history, and no sketch stands behind it.
pub proof fn lemma_last_sketch<T>(doc: DocumentView<T>)
    ensures
        match last_sketch(doc) {
            Some(id) => exists|i: int|
                {
                    &&& 0 <= i < doc.features.len()
                    &&& #[trigger] doc.features[i] == id
                    &&& doc.store[id.raw] is Sketch
                    &&& forall|j: int|
                        i < j < doc.features.len() ==> !(doc.store[(
                        #[trigger] doc.features[j]).raw] is Sketch)
                },
            None => forall|j: int|
                0 <= j < doc.features.len() ==> !(doc.store[(
                #[trigger] doc.features[j]).raw] is Sketch),
        },
{
    let wanted = |f: FeatureId| doc.store[f.raw] is Sketch;
    let places = lemma_filter_places(doc.features, wanted);
    let sketches = doc.features.filter(wanted);
    if sketches.len() > 0 {
        let last = places.len() - 1;
        let i = places[last];
        assert(doc.features[i] == sketches.last());
        assert forall|j: int| i < j < doc.features.len() implies !(doc.store[(
        #[trigger] doc.features[j]).raw] is Sketch) by {
            if wanted(doc.features[j]) {
                assert(places.contains(j));
                let t = choose|t: int| 0 <= t < places.len() && places[t] == j;
                if t < last {
                    assert(places[t] < places[last]);
                }
            }
        }
    } else {
        assert forall|j: int| 0 <= j < doc.features.len() implies !(doc.store[(
        #[trigger] doc.features[j]).raw] is Sketch) by {
            if wanted(doc.features[j]) {
                assert(places.contains(j));
            }
        }
    }
}

/// The features are those of the entries at the places, and an entry has a body
/// exactly if its place is among them.
pub open spec fn are_built<V>(
    entries: Seq<RebuildEntry<V>>,
    features: Seq<FeatureId>,
    places: Seq<int>,
) -> bool {
    &&& places.len() == features.len()
    &&& forall|i: int, j: int|
        0 <= i < j < places.len() ==> #[trigger] places[i] < #[trigger] places[j]
    &&& forall|i: int|
        0 <= i < places.len() ==> 0 <= #[trigger] places[i] < entries.len()
            && entries[places[i]].body is Some && features[i] == entries[places[i]].feature
    &&& forall|t: int|
        0 <= t < entries.len() && (#[trigger] entries[t]).body is Some ==> places.contains(t)
}

/// The features of the bodies are those of the entries with a body, in their
/// order.
pub proof fn lemma_body_features<V>(entries: Seq<RebuildEntry<V>>)
    ensures
        exists|places: Seq<int>| #[trigger] are_built(entries, body_ids(entries), places),
{
    let wanted = |e: RebuildEntry<V>| e.body is Some;
    let places = lemma_filter_places(entries, wanted);
    assert forall|i: int| 0 <= i < places.len() implies 0 <= #[trigger] places[i] < entries.len()
        && entries[places[i]].body is Some && body_ids(entries)[i] == entries[places[i]].feature by {
        assert(entries.filter(wanted)[i] == entries[places[i]]);
    }
    assert forall|t: int| 0 <= t < entries.len() && (
    #[trigger] entries[t]).body is Some implies places.contains(t) by {
        assert(wanted(entries[t]));
    }
    assert(are_built(entries, body_ids(entries), places));
}

/// What is shown with a number stands one place before it; there is nothing
/// before the first.
pub proof fn lemma_shown_number(shown: i32)
    ensures
        shown >= 1 ==> hidden_index(shown) + 1 == shown,
        shown < 1 ==> hidden_index(shown) == 0,
{
}

/// A change of a parameter sets that parameter and leaves all others, the
/// sketch and the kind of the feature as they are. A sketch has no parameters.
pub proof fn lemma_edit<T>(feature: FeatureView<T>, edit: Edit<T>)
    ensures
        match (feature, with_edit(feature, edit)) {
            (FeatureView::Sketch(..), after) => after == feature,
            (FeatureView::Extrude(e), FeatureView::Extrude(after)) => {
                &&& after.sketch == e.sketch
                &&& edit matches Edit::Distance(d) ==> after.distance == d
                &&& edit !is Distance ==> after.distance == e.distance
                &&& edit matches Edit::Profile(shown) ==> shown >= 1 ==> after.profile + 1 == shown
                &&& edit !is Profile ==> after.profile == e.profile
            },
            (FeatureView::Revolve(r), FeatureView::Revolve(after)) => {
                &&& after.sketch == r.sketch
                &&& edit matches Edit::Angle(a) ==> after.angle == a
                &&& edit !is Angle ==> after.angle == r.angle
                &&& edit matches Edit::Axis(x) ==> after.axis == x
                &&& edit !is Axis ==> after.axis == r.axis
                &&& edit matches Edit::Profile(shown) ==> shown >= 1 ==> after.profile + 1 == shown
                &&& edit !is Profile ==> after.profile == r.profile
            },
            _ => false,
        },
{
}

/// Changes are made one after the other.
pub proof fn lemma_edits<T>(feature: FeatureView<T>, edits: Seq<Edit<T>>, last: Edit<T>)
    ensures
        with_edits(feature, Seq::empty()) == feature,
        with_edits(feature, edits.push(last)) == with_edit(with_edits(feature, edits), last),
{
    assert(edits.push(last).drop_last() =~= edits);
}

/// The dialog shows what was entered: a change of a parameter sets that
/// parameter, another sketch sets the sketch, and all else stays.
pub proof fn lemma_dialog<T>(pending: PendingFeature<T>, edit: Edit<T>, id: FeatureId)
    ensures
        match (pending, with_pending_edit(pending, edit), with_source(pending, id)) {
            (
                PendingFeature::Extrude { sketch, profile, distance },
                PendingFeature::Extrude { sketch: s, profile: p, distance: d },
                PendingFeature::Extrude { sketch: t, profile: q, distance: e },
            ) => {
                &&& s == sketch
                &&& edit matches Edit::Distance(x) ==> d == x
                &&& edit !is Distance ==> d == distance
                &&& edit matches Edit::Profile(shown) ==> shown >= 1 ==> p + 1 == shown
                &&& edit !is Profile ==> p == profile
                &&& t == id && q == profile && e == distance
            },
            (
                PendingFeature::Revolve { sketch, profile, angle_deg, axis },
                PendingFeature::Revolve { sketch: s, profile: p, angle_deg: a, axis: x },
                PendingFeature::Revolve { sketch: t, profile: q, angle_deg: b, axis: y },
            ) => {
                &&& s == sketch
                &&& edit matches Edit::Angle(v) ==> a == v
                &&& edit !is Angle ==> a == angle_deg
                &&& edit matches Edit::Axis(v) ==> x == v
                &&& edit !is Axis ==> x == axis
                &&& edit matches Edit::Profile(shown) ==> shown >= 1 ==> p + 1 == shown
                &&& edit !is Profile ==> p == profile
                &&& t == id && q == profile && b == angle_deg && y == axis
            },
            _ => false,
        },
{
}

/// A confirmed dialog adds the feature that was entered at the end of the
/// history and selects it. The document of before can be gone back to. If the
/// feature could not be built, the user is told why; else the view is fitted.
/// What is shown of the features stays right.
pub proof fn lemma_confirmation<
    T,
    V,
    R: Fn(&T) -> T,
    E: Fn(&Expr<T>, &Vec<T>) -> T,
    L: Fn(&T, &T) -> bool,
    M: Fn(&T, &T) -> bool,
    K: Fn(&SolidPlan<T>) -> Result<TriMesh<V>, String>,
>(
    radians: R,
    ops: RebuildOps<E, L, M, K>,
    pending: PendingFeature<T>,
    before: Editor<T, V>,
    after: Editor<T, V>,
    fit: bool,
)
    requires
        is_confirmed(radians, ops, pending, before, after, fit),
    ensures
        after.mode is Idle,
        after.selected_feature matches Some(id) && {
            let doc = after.document@;
            let n = before.document@.features.len() as int;
            &&& doc.features == before.document@.features.push(id)
            &&& doc.store.contains_key(id.raw)
            &&& match pending {
                PendingFeature::Extrude { sketch, profile, distance } => {
                    &&& doc.store[id.raw] matches FeatureView::Extrude(e)
                    &&& e.sketch == sketch && e.profile == profile && e.distance == distance
                },
                PendingFeature::Revolve { sketch, profile, angle_deg, axis } => {
                    &&& doc.store[id.raw] matches FeatureView::Revolve(r)
                    &&& r.sketch == sketch && r.profile == profile && r.axis == axis
                    &&& call_ensures(radians, (&angle_deg,), r.angle)
                },
            }
            &&& forall|k: u64|
                k != id.raw && before.document@.store.contains_key(k)
                    ==> #[trigger] doc.store[k] == before.document@.store[k]
            &&& is_entry(ops, doc, id, after.rebuild_state.entries@[n])
            &&& match after.rebuild_state.entries@[n].status {
                FeatureStatus::Failed(reason) => !fit && (after.info matches Some(text) && text@
                    == reason@),
                FeatureStatus::Built => fit && after.info == before.info,
            }
        },
        after.undo_stack@.len() > 0,
        after.undo_stack@.last()@ == before.document@,
        stays_up_to_date(ops, before, after),
{
    let id = after.selected_feature->Some_0;
    let feature = choose|feature: FeatureView<T>| #[trigger]
        becomes(radians, pending, feature) && after.document@ == before.document@.with_feature(
            id,
            feature,
        );
    let n = before.document@.features.len() as int;
    lemma_rebuild(
        ops,
        after.document@,
        n,
        before.rebuild_state.entries@,
        after.rebuild_state.entries@,
    );
    assert(after.document@.features[n] == id);
    assert(is_entry(ops, after.document@, after.document@.features[n], after.rebuild_state.entries@[n]));
    lemma_kept(ops, n, before, after);
    let entries = before.rebuild_state.entries@;
    if is_in_order(before.document@) && is_up_to_date(ops, before.document@, entries) {
        lemma_added_feature(
            ops,
            before.document@,
            id,
            feature,
            entries,
            after.rebuild_state.entries@,
        );
    }
}

proof fn lemma_kept<
    T,
    V,
    E: Fn(&Expr<T>, &Vec<T>) -> T,
    L: Fn(&T, &T) -> bool,
    M: Fn(&T, &T) -> bool,
    K: Fn(&SolidPlan<T>) -> Result<TriMesh<V>, String>,
>(ops: RebuildOps<E, L, M, K>, from: int, before: Editor<T, V>, after: Editor<T, V>)
    requires
        is_committed(ops, from, before, after),
    ensures
        after.undo_stack@.len() > 0,
        after.undo_stack@.last()@ == before.document@,
        before.undo_stack@.len() <= 32 ==> after.undo_stack@.len() <= 32,
{
    let stack = document_views(before.undo_stack@);
    let grown = document_views(after.undo_stack@);
    assert(grown == pushed(stack, before.document@));
    assert(grown.len() == after.undo_stack@.len());
    assert(grown.last() == before.document@);
    assert(grown[grown.len() - 1] == after.undo_stack@.last()@);
}

/// Every change keeps the document of before, as the first that is gone back
/// to, and no more than thirty-two documents are kept. Of the others the oldest
/// is given up first.
pub proof fn lemma_kept_documents<T>(stack: Seq<DocumentView<T>>, doc: DocumentView<T>)
    requires
        stack.len() <= 32,
    ensures
        pushed(stack, doc).len() <= 32,
        pushed(stack, doc).last() == doc,
        stack.len() < 32 ==> pushed(stack, doc).drop_last() == stack,
        stack.len() == 32 ==> pushed(stack, doc).drop_last() == stack.drop_first(),
{
    if stack.len() < 32 {
        assert(stack.push(doc).drop_last() =~= stack);
    } else {
        assert(stack.push(doc).drop_first().drop_last() =~= stack.drop_first());
    }
}

/// Going back takes the document that was kept last, and gives it up there. What
/// is selected stays selected if it exists in that document. Without a kept
/// document nothing happens.
pub proof fn lemma_going_back<
    T,
    V,
    E: Fn(&Expr<T>, &Vec<T>) -> T,
    L: Fn(&T, &T) -> bool,
    M: Fn(&T, &T) -> bool,
    K: Fn(&SolidPlan<T>) -> Result<TriMesh<V>, String>,
>(ops: RebuildOps<E, L, M, K>, before: Editor<T, V>, after: Editor<T, V>)
    requires
        is_undone(ops, before, after),
    ensures
        before.undo_stack@.len() == 0 ==> after == before,
        before.undo_stack@.len() > 0 ==> {
            let n = before.undo_stack@.len() - 1;
            let doc = before.undo_stack@[n];
            let entries = after.rebuild_state.entries@;
            &&& after.document == doc
            &&& after.undo_stack@.len() == n
            &&& forall|i: int|
                0 <= i < n ==> #[trigger] after.undo_stack@[i] == before.undo_stack@[i]
            &&& entries.len() == doc@.features.len()
            &&& forall|i: int|
                0 <= i < entries.len() ==> is_entry(
                    ops,
                    doc@,
                    doc@.features[i],
                    #[trigger] entries[i],
                )
            &&& match before.selected_feature {
                Some(id) => if doc@.store.contains_key(id.raw) {
                    after.selected_feature == Some(id)
                } else {
                    after.selected_feature is None
                },
                None => after.selected_feature is None,
            }
            &&& after.selected_face is None
        },
{
    if before.undo_stack@.len() > 0 {
        lemma_rebuild(
            ops,
            after.document@,
            0,
            before.rebuild_state.entries@,
            after.rebuild_state.entries@,
        );
    }
}

/// The end of a session puts the sketch where it belongs. A sketch of a feature
/// takes the place of the old one there, on the same plane; a new sketch with
/// anything in it becomes the last feature and is selected; an empty new sketch
/// is dropped. All other features stay as they are, and what is shown of the
/// features stays right.
pub proof fn lemma_session_end<
    T,
    V,
    E: Fn(&Expr<T>, &Vec<T>) -> T,
    L: Fn(&T, &T) -> bool,
    M: Fn(&T, &T) -> bool,
    K: Fn(&SolidPlan<T>) -> Result<TriMesh<V>, String>,
>(
    ops: RebuildOps<E, L, M, K>,
    session: SketchSession<T>,
    before: Editor<T, V>,
    after: Editor<T, V>,
)
    requires
        is_finished(ops, session, before, after),
    ensures
        match session.editing {
            Some(id) => {
                let (old, new) = (before.document@, after.document@);
                &&& new.features == old.features
                &&& forall|k: u64| #[trigger]
                    new.store.contains_key(k) <==> old.store.contains_key(k)
                &&& forall|k: u64|
                    k != id.raw && old.store.contains_key(k) ==> #[trigger] new.store[k]
                        == old.store[k]
                &&& old.store.contains_key(id.raw) ==> match old.store[id.raw] {
                    FeatureView::Sketch(plane, _) => new.store[id.raw] == FeatureView::Sketch(
                        plane,
                        session.sketch@,
                    ),
                    other => new.store[id.raw] == other,
                }
                &&& after.undo_stack@.len() > 0
                &&& after.undo_stack@.last()@ == old
            },
            None => if session.sketch@.entities.len() > 0 {
                &&& after.selected_feature matches Some(id)
                &&& after.document@.features == before.document@.features.push(id)
                &&& after.document@.store.contains_key(id.raw)
                &&& after.document@.store[id.raw] == FeatureView::Sketch(
                    session.plane,
                    session.sketch@,
                )
                &&& forall|k: u64|
                    k != id.raw && before.document@.store.contains_key(k)
                        ==> #[trigger] after.document@.store[k] == before.document@.store[k]
                &&& after.undo_stack@.len() > 0
                &&& after.undo_stack@.last()@ == before.document@
            } else {
                &&& after.document == before.document
                &&& after.undo_stack == before.undo_stack
                &&& after.selected_feature == before.selected_feature
            },
        },
        stays_up_to_date(ops, before, after),
{
    let (old_entries, new_entries) = (before.rebuild_state.entries@, after.rebuild_state.entries@);
    let was_right = is_in_order(before.document@) && is_up_to_date(
        ops,
        before.document@,
        old_entries,
    );
    match session.editing {
        Some(id) => {
            if was_right {
                assert(after.document@.store.dom() =~= before.document@.store.dom());
                lemma_changed_feature(
                    ops,
                    before.document@,
                    after.document@,
                    id,
                    old_entries,
                    new_entries,
                );
            }
            lemma_kept(ops, place_of(before.document@.features, id), before, after);
        },
        None => {
            if session.sketch@.entities.len() > 0 {
                lemma_kept(ops, before.document@.features.len() as int, before, after);
                if was_right {
                    lemma_added_feature(
                        ops,
                        before.document@,
                        after.selected_feature->Some_0,
                        FeatureView::Sketch(session.plane, session.sketch@),
                        old_entries,
                        new_entries,
                    );
                }
            }
        },
    }
}

/// A session begins on its plane, with its sketch and its feature, with the
/// selecting tool, and with nothing selected, solved or dragged.
pub proof fn lemma_session_begin<T>(
    session: SketchSession<T>,
    plane: SketchPlane,
    editing: Option<FeatureId>,
    sketch: SketchView<T>,
)
    requires
        is_fresh(session, plane, editing, sketch),
    ensures
        session.plane == plane,
        session.editing == editing,
        session.sketch@ == sketch,
        session.tool is Select,
        session.selection@.len() == 0,
        session.last_solve is None,
        session.dragging is None && session.dragging_dim is None,
        SketchView::<T>::empty().entities.dom() == Set::<u64>::empty(),
        SketchView::<T>::empty().points.dom() == Set::<u64>::empty(),
{
}

/// The dialog asks for the profile of the sketch that its feature is made from.
pub proof fn lemma_source<T>(pending: PendingFeature<T>)
    ensures
        match pending {
            PendingFeature::Extrude { sketch, profile, .. } => pending_source(pending).0 == sketch
                && pending_source(pending).1 == profile,
            PendingFeature::Revolve { sketch, profile, .. } => pending_source(pending).0 == sketch
                && pending_source(pending).1 == profile,
        },
{
}

/// Editing a feature changes that feature only: its kind, its sketch and the
/// history stay. An extrusion has the distance that was set last.
pub proof fn lemma_edited_document<T>(
    doc: DocumentView<T>,
    id: FeatureId,
    edits: Seq<Edit<T>>,
    distance: T,
)
    requires
        doc.store.contains_key(id.raw),
    ensures
        ({
            let after = with_edited(doc, id, edits.push(Edit::Distance(distance)));
            &&& after.features == doc.features
            &&& after.store.dom() == doc.store.dom()
            &&& forall|k: u64|
                k != id.raw && doc.store.contains_key(k) ==> #[trigger] after.store[k]
                    == doc.store[k]
            &&& doc.store[id.raw] is Sketch ==> after.store[id.raw] == doc.store[id.raw]
            &&& doc.store[id.raw] matches FeatureView::Extrude(e) ==> (
            after.store[id.raw] matches FeatureView::Extrude(there) && there.sketch == e.sketch
                && there.distance == distance)
            &&& doc.store[id.raw] matches FeatureView::Revolve(r) ==> (
            after.store[id.raw] matches FeatureView::Revolve(there) && there.sketch == r.sketch)
        }),
{
    let last = Edit::Distance(distance);
    let before = doc.store[id.raw];
    lemma_edits(before, edits, last);
    lemma_edits_keep(before, edits);
    lemma_edit(with_edits(before, edits), last);
    assert(doc.store.insert(
        id.raw,
        with_edits(before, edits.push(last)),
    ).dom() =~= doc.store.dom());
}

proof fn lemma_edits_keep<T>(feature: FeatureView<T>, edits: Seq<Edit<T>>)
    ensures
        match (feature, with_edits(feature, edits)) {
            (FeatureView::Sketch(..), after) => after == feature,
            (FeatureView::Extrude(e), FeatureView::Extrude(there)) => there.sketch == e.sketch,
            (FeatureView::Revolve(r), FeatureView::Revolve(there)) => there.sketch == r.sketch,
            _ => false,
        },
    decreases edits.len(),
{
    if edits.len() > 0 {
        let rest = edits.drop_last();
        assert(edits =~= rest.push(edits.last()));
        lemma_edits(feature, rest, edits.last());
        lemma_edits_keep(feature, rest);
        lemma_edit(with_edits(feature, rest), edits.last());
    } else {
        assert(edits =~= Seq::empty());
        lemma_edits(feature, edits, Edit::Profile(1));
    }
}

} // verus!
