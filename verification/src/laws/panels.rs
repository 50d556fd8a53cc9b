//! Laws of the toolbar, the tree of features and the texts that are shown.
use vstd::prelude::*;

use crate::document::{DocumentView, FeatureView, SketchPlane, label_spec};
use crate::editor::Editor;
use crate::expr::Expr;
use crate::ids::FeatureId;
use crate::laws::history::lemma_filter_places;
use crate::laws::viewing::{lemma_decimal, number_in};
use crate::panels::{
    Command, ItemView, SketchChoice, TreeRow, action_buttons, extrude_name, face_text, failure_of,
    is_choice, is_feature_name, is_profile_count, is_row, is_session_toolbar, is_summary,
    is_toolbar, model_status, revolve_name, sketch_places, sketch_status, sketch_toolbar, writes,
};
use crate::profiles::{Profile, found_profiles};
use crate::rebuild::{FeatureStatus, RebuildEntry};
use crate::scene::PickId;
use crate::session::{ActionItem, SketchSession, are_actions};
use crate::sketch::SketchView;
use crate::solver::{SolveResult, is_dof};
use crate::text::decimal_spec;

verus! {

/// There is a button for the command, and this is whether it is enabled.
pub open spec fn has_button<T>(items: Seq<ItemView<T>>, command: Command<T>, enabled: bool) -> bool {
    exists|i: int|
        0 <= i < items.len() && (#[trigger] items[i] matches ItemView::Button(_, e, c) && e
            == enabled && c == command)
}

/// Something in the history is a sketch.
pub open spec fn holds_sketch<T>(doc: DocumentView<T>) -> bool {
    exists|id: FeatureId| #[trigger] doc.features.contains(id) && doc.store[id.raw] is Sketch
}

/// The toolbar of the model offers to open, to save and to draw on each plane at
/// any time, to export only where there is a body, and to make a body only where
/// there is a sketch. A message is shown exactly if there is one.
pub proof fn lemma_model_toolbar<
    T,
    V,
    E: Fn(&Expr<T>, &Vec<T>) -> T,
    L: Fn(&T, &T) -> bool,
    G: Fn(&Vec<Vec<T>>) -> Vec<T>,
>(editor: Editor<T, V>, eval: E, less: L, singular: G, items: Seq<ItemView<T>>)
    requires
        editor.mode !is SketchEdit,
        is_toolbar(editor, eval, less, singular, items),
    ensures
        ({
            let has_body = editor.body_features@.len() > 0;
            let has_sketch = holds_sketch(editor.document@);
            &&& has_button(items, Command::Open, true)
            &&& has_button(items, Command::Save, true)
            &&& has_button(items, Command::ExportStl, has_body)
            &&& has_button(items, Command::EnterSketch(SketchPlane::XY), true)
            &&& has_button(items, Command::EnterSketch(SketchPlane::XZ), true)
            &&& has_button(items, Command::EnterSketch(SketchPlane::YZ), true)
            &&& has_button(items, Command::OpenExtrude, has_sketch)
            &&& has_button(items, Command::OpenRevolve, has_sketch)
            &&& forall|i: int|
                0 <= i < items.len() ==> (#[trigger] items[i] matches ItemView::Button(
                    _,
                    enabled,
                    command,
                ) ==> enabled == match command {
                    Command::ExportStl => has_body,
                    Command::OpenExtrude | Command::OpenRevolve => has_sketch,
                    Command::Open | Command::Save | Command::EnterSketch(_) => true,
                    _ => false,
                })
            &&& forall|i: int|
                0 <= i < items.len() ==> (#[trigger] items[i] matches ItemView::Notice(shown)
                    ==> (editor.info matches Some(text) && text@ == shown))
            &&& editor.info matches Some(text) ==> items.last() == ItemView::<T>::Notice(text@)
        }),
{
    assert(items[2] matches ItemView::Button(..));
    assert(items[3] matches ItemView::Button(..));
    assert(items[4] matches ItemView::Button(..));
    assert(items[7] matches ItemView::Button(..));
    assert(items[8] matches ItemView::Button(..));
    assert(items[9] matches ItemView::Button(..));
    assert(items[11] matches ItemView::Button(..));
    assert(items[12] matches ItemView::Button(..));
}

/// The toolbar of a sketch offers the tools, of which the present one is marked,
/// exactly the actions that fit to the selection, and to finish.
pub proof fn lemma_sketch_toolbar<
    T,
    E: Fn(&Expr<T>, &Vec<T>) -> T,
    L: Fn(&T, &T) -> bool,
    G: Fn(&Vec<Vec<T>>) -> Vec<T>,
>(session: SketchSession<T>, eval: E, less: L, singular: G, items: Seq<ItemView<T>>)
    requires
        is_session_toolbar(session, eval, less, singular, items),
    ensures
        exists|actions: Seq<ActionItem<T>>, dof: nat|
            {
                &&& #[trigger] are_actions(session.sketch@, session.selection@, eval, actions)
                &&& #[trigger] is_dof(session.sketch@, eval, less, singular, dof)
                &&& items.len() == actions.len() + 10
                &&& forall|k: int|
                    0 <= k < actions.len() ==> #[trigger] items[6 + k] == ItemView::Button(
                        actions[k].label@,
                        true,
                        Command::AddAction(actions[k].action),
                    )
                &&& items.last() == ItemView::<T>::Label(sketch_status(session, dof))
            },
        has_button(items, Command::FinishSketch, true),
        forall|i: int|
            2 <= i < 5 ==> (#[trigger] items[i] matches ItemView::Choice(
                _,
                active,
                Command::SetTool(kind),
            ) && active == (kind == session.tool.kind_spec())),
{
    let (actions, dof) = choose|actions: Seq<ActionItem<T>>, dof: nat|
        {
            &&& #[trigger] are_actions(session.sketch@, session.selection@, eval, actions)
            &&& #[trigger] is_dof(session.sketch@, eval, less, singular, dof)
            &&& items == sketch_toolbar(
                session.tool.kind_spec(),
                actions,
                sketch_status(session, dof),
            )
        };
    assert forall|k: int| 0 <= k < actions.len() implies #[trigger] items[6 + k]
        == ItemView::Button(
        actions[k].label@,
        true,
        Command::AddAction(actions[k].action),
    ) by {
        assert(items[6 + k] == action_buttons(actions)[k]);
    }
    assert(items[actions.len() as int + 7] matches ItemView::Button(..));
}

/// The number is written in the text.
pub open spec fn says(text: Seq<char>, n: int) -> bool {
    number_in(text) == n
}

/// The status of the model says how many features and bodies there are. If a
/// face is selected, it says which one, and of which feature: its place in the
/// history, counted from one.
pub proof fn lemma_model_status(
    features: Seq<FeatureId>,
    body_features: Seq<FeatureId>,
    face: Option<PickId>,
)
    ensures
        exists|a: Seq<char>, b: Seq<char>, rest: Seq<char>|
            {
                &&& #[trigger] says(a, features.len() as int)
                &&& #[trigger] says(b, body_features.len() as int)
                &&& model_status(features, body_features, face) == "Features: "@ + a
                    + " · Bodies: "@ + b + rest
                &&& face is None <==> #[trigger] rest.len() == 0
                &&& face matches Some(f) ==> rest == face_text(features, body_features, f)
            },
{
    lemma_decimal(features.len());
    lemma_decimal(body_features.len());
    let a = decimal_spec(features.len());
    let b = decimal_spec(body_features.len());
    let rest = match face {
        Some(f) => face_text(features, body_features, f),
        None => seq![],
    };
    reveal_strlit(" · ");
    assert(says(a, features.len() as int) && says(b, body_features.len() as int));
    assert(face is None <==> rest.len() == 0);
}

/// The text of a selected face says its number and whose it is: that of the
/// feature of its body, by the first place of that feature in the history
/// counted from one, or that of the body where there is no such feature.
pub proof fn lemma_face_text(
    features: Seq<FeatureId>,
    body_features: Seq<FeatureId>,
    face: PickId,
    i: int,
)
    ensures
        ({
            let number = decimal_spec(face.1 as nat);
            let known = face.0 < body_features.len() && features.contains(
                body_features[face.0 as int],
            );
            &&& says(number, face.1 as int)
            &&& known && 0 <= i < features.len() && features[i] == body_features[face.0 as int] && (
            forall|j: int| 0 <= j < i ==> #[trigger] features[j] != features[i]) ==> {
                &&& says(decimal_spec((i + 1) as nat), i + 1)
                &&& face_text(features, body_features, face) == " · "@ + ("Feature "@
                    + decimal_spec((i + 1) as nat)) + ", Face "@ + number
            }
            &&& !known ==> {
                &&& says(decimal_spec(face.0 as nat), face.0 as int)
                &&& face_text(features, body_features, face) == " · "@ + ("Body "@
                    + decimal_spec(face.0 as nat)) + ", Face "@ + number
            }
        }),
{
    lemma_decimal(face.1 as nat);
    lemma_decimal(face.0 as nat);
    if i >= 0 {
        lemma_decimal((i + 1) as nat);
    }
    if face.0 < body_features.len() {
        let id = body_features[face.0 as int];
        features.index_of_first_ensures(id);
        if let Some(k) = features.index_of_first(id) {
            if 0 <= i < features.len() && features[i] == id && (forall|j: int|
                0 <= j < i ==> #[trigger] features[j] != features[i]) {
                if k < i {
                    assert(features[k] != features[i]);
                } else if i < k {
                    assert(features[i] != id);
                }
            }
        }
    }
}

/// The status of a sketch says its plane, how many entities, constraints and
/// dimensions it has and how many degrees of freedom, and warns exactly if it
/// could not be solved.
pub proof fn lemma_sketch_status<T>(session: SketchSession<T>, dof: nat)
    ensures
        ({
            let view = session.sketch@;
            exists|a: Seq<char>, b: Seq<char>, c: Seq<char>, d: Seq<char>, warning: Seq<char>|
                {
                    &&& #[trigger] says(a, view.entities.len() as int)
                    &&& #[trigger] says(b, view.constraints.len() as int)
                    &&& #[trigger] says(c, view.dimensions.len() as int)
                    &&& #[trigger] says(d, dof as int)
                    &&& sketch_status(session, dof) == label_spec(session.plane) + " · "@ + a
                        + " Entities · "@ + b + " Constraints · "@ + c + " Maße · "@ + d
                        + " Freiheitsgrade"@ + warning
                    &&& #[trigger] warning.len() > 0 <==> (session.last_solve matches Some(
                        SolveResult::DidNotConverge { .. },
                    ))
                }
        }),
{
    let view = session.sketch@;
    lemma_decimal(view.entities.len());
    lemma_decimal(view.constraints.len());
    lemma_decimal(view.dimensions.len());
    lemma_decimal(dof);
    let warning = if session.last_solve matches Some(SolveResult::DidNotConverge { .. }) {
        " · ⚠ nicht lösbar"@
    } else {
        ""@
    };
    reveal_strlit("");
    reveal_strlit(" · ⚠ nicht lösbar");
    assert(says(decimal_spec(view.entities.len()), view.entities.len() as int));
    assert(says(decimal_spec(view.constraints.len()), view.constraints.len() as int));
    assert(says(decimal_spec(view.dimensions.len()), view.dimensions.len() as int));
    assert(says(decimal_spec(dof), dof as int));
    assert(warning.len() > 0 <==> (session.last_solve matches Some(
        SolveResult::DidNotConverge { .. },
    )));
}

/// The first entry of a feature says why it could not be built.
pub proof fn lemma_failure<V>(entries: Seq<RebuildEntry<V>>, id: FeatureId, i: int)
    requires
        0 <= i < entries.len(),
        entries[i].feature == id,
        forall|j: int| 0 <= j < i ==> (#[trigger] entries[j]).feature != id,
    ensures
        match entries[i].status {
            FeatureStatus::Failed(reason) => failure_of(entries, id) == Some(reason@),
            FeatureStatus::Built => failure_of(entries, id) is None,
        },
    decreases entries.len(),
{
    if i > 0 {
        assert(entries[0].feature != id);
        let rest = entries.drop_first();
        assert forall|j: int| 0 <= j < i - 1 implies (#[trigger] rest[j]).feature != id by {
            assert(rest[j] == entries[j + 1]);
        }
        lemma_failure(rest, id, i - 1);
    }
}

/// A feature without an entry has no failure.
pub proof fn lemma_no_failure<V>(entries: Seq<RebuildEntry<V>>, id: FeatureId)
    requires
        forall|j: int| 0 <= j < entries.len() ==> (#[trigger] entries[j]).feature != id,
    ensures
        failure_of(entries, id) is None,
    decreases entries.len(),
{
    if entries.len() > 0 {
        assert(entries[0].feature != id);
        let rest = entries.drop_first();
        assert forall|j: int| 0 <= j < rest.len() implies (#[trigger] rest[j]).feature != id by {
            assert(rest[j] == entries[j + 1]);
        }
        lemma_no_failure(rest, id);
    }
}

/// A row of the tree shows its feature: its place in the history counted from
/// one, its kind and its parameter. It is marked exactly if the feature is
/// selected, and warns exactly if the feature could not be built, with the
/// reason.
pub proof fn lemma_row<T, V, P: Fn(&T) -> String, Q: Fn(&T) -> String>(
    distance: P,
    angle: Q,
    doc: DocumentView<T>,
    entries: Seq<RebuildEntry<V>>,
    selected: Option<FeatureId>,
    i: int,
    row: TreeRow,
)
    requires
        0 <= i,
        is_row(distance, angle, doc, entries, selected, i, row),
    ensures
        row.id == doc.features[i],
        row.selected <==> selected == Some(doc.features[i]),
        row.is_sketch <==> doc.store[doc.features[i].raw] is Sketch,
        row.failed is Some <==> failure_of(entries, doc.features[i]) is Some,
        row.failed matches Some(text) ==> failure_of(entries, doc.features[i]) == Some(text@),
        exists|n: Seq<char>, name: Seq<char>|
            {
                &&& #[trigger] says(n, i + 1)
                &&& #[trigger] is_shown(row, name)
                &&& match doc.store[doc.features[i].raw] {
                    FeatureView::Sketch(plane, _) => name == n + " · Skizze ("@ + label_spec(plane)
                        + ")"@,
                    FeatureView::Extrude(e) => exists|text: String| #[trigger]
                        call_ensures(distance, (&e.distance,), text) && name == n
                            + " · Extrude (T="@ + text@ + ")"@,
                    FeatureView::Revolve(r) => exists|text: String| #[trigger]
                        call_ensures(angle, (&r.angle,), text) && name == n + " · Revolve ("@
                            + text@ + "°)"@,
                }
            },
{
    let n = decimal_spec((i + 1) as nat);
    lemma_decimal((i + 1) as nat);
    assert(says(n, i + 1));
    let feature = doc.store[doc.features[i].raw];
    let name = choose|name: Seq<char>| #[trigger]
        is_feature_name(distance, angle, i + 1, feature, name) && row.text@ == if row.failed is Some {
            "⚠ "@ + name
        } else {
            name
        };
    assert(is_shown(row, name));
    match feature {
        FeatureView::Sketch(plane, _) => {},
        FeatureView::Extrude(e) => {
            let text = choose|text: String| #[trigger]
                writes(distance, e.distance, text) && name == extrude_name(i + 1, text@);
            assert(call_ensures(distance, (&e.distance,), text));
        },
        FeatureView::Revolve(r) => {
            let text = choose|text: String| #[trigger]
                writes(angle, r.angle, text) && name == revolve_name(i + 1, text@);
            assert(call_ensures(angle, (&r.angle,), text));
        },
    }
}

/// The row shows the name, behind a sign of warning if its feature could not be
/// built.
pub open spec fn is_shown(row: TreeRow, name: Seq<char>) -> bool {
    row.text@ == if row.failed is Some {
        "⚠ "@ + name
    } else {
        name
    }
}

/// The places of the sketches are those of all sketches of the history, in its
/// order.
pub proof fn lemma_sketch_places<T>(doc: DocumentView<T>)
    ensures
        ({
            let places = sketch_places(doc);
            &&& forall|i: int, j: int|
                0 <= i < j < places.len() ==> #[trigger] places[i] < #[trigger] places[j]
            &&& forall|i: int|
                0 <= i < places.len() ==> 0 <= #[trigger] places[i] < doc.features.len()
                    && doc.store[doc.features[places[i]].raw] is Sketch
            &&& forall|t: int|
                0 <= t < doc.features.len() && doc.store[(#[trigger] doc.features[t]).raw] is Sketch
                    ==> places.contains(t)
        }),
{
    let all = Seq::new(doc.features.len(), |i: int| i);
    let wanted = |i: int| doc.store[doc.features[i].raw] is Sketch;
    let found = sketch_places(doc);
    let places = lemma_filter_places(all, wanted);
    assert forall|i: int| 0 <= i < found.len() implies #[trigger] found[i] == places[i] && wanted(
        found[i],
    ) by {
        assert(all[places[i]] == places[i]);
    }
    assert forall|t: int|
        0 <= t < doc.features.len() && doc.store[(
        #[trigger] doc.features[t]).raw] is Sketch implies found.contains(t) by {
        assert(all[t] == t);
        assert(wanted(all[t]));
        assert(places.contains(t));
        let i = choose|i: int| 0 <= i < places.len() && places[i] == t;
        assert(found[i] == t);
    }
}

/// A choice of a sketch names it by its place in the history counted from one
/// and by its plane, and says how many profiles it has.
pub proof fn lemma_choice<T, E: Fn(&Expr<T>, &Vec<T>) -> T, L: Fn(&T, &T) -> bool>(
    doc: DocumentView<T>,
    place: int,
    eval: E,
    less: L,
    choice: SketchChoice,
)
    requires
        0 <= place,
        is_choice(doc, place, eval, less, choice),
    ensures
        choice.id == doc.features[place],
        doc.store[doc.features[place].raw] matches FeatureView::Sketch(plane, sketch) && {
            &&& exists|n: Seq<char>| #[trigger]
                says(n, place + 1) && choice.label@ == n + " · Skizze ("@ + label_spec(plane)
                    + ")"@
            &&& exists|profiles: Seq<Profile<T>>| #[trigger]
                found_profiles(sketch, eval, less, profiles) && choice.profiles == profiles.len()
        },
{
    lemma_decimal((place + 1) as nat);
    assert(says(decimal_spec((place + 1) as nat), place + 1));
}

/// The description of a sketch says its plane, how many entities and constraints
/// it has, and how many profiles.
pub proof fn lemma_summary<T, E: Fn(&Expr<T>, &Vec<T>) -> T, L: Fn(&T, &T) -> bool>(
    plane: SketchPlane,
    sketch: SketchView<T>,
    eval: E,
    less: L,
    lines: Seq<String>,
)
    requires
        is_summary(plane, sketch, eval, less, lines),
    ensures
        lines.len() == 3,
        lines[0]@ == "Skizze auf "@ + label_spec(plane),
        exists|a: Seq<char>, b: Seq<char>|
            {
                &&& #[trigger] says(a, sketch.entities.len() as int)
                &&& #[trigger] says(b, sketch.constraints.len() as int)
                &&& lines[1]@ == a + " Entities · "@ + b + " Constraints"@
            },
        exists|n: Seq<char>, profiles: Seq<Profile<T>>|
            {
                &&& #[trigger] found_profiles(sketch, eval, less, profiles)
                &&& #[trigger] says(n, profiles.len() as int)
                &&& lines[2]@ == n + " geschlossene Profile"@
            },
{
    lemma_decimal(sketch.entities.len());
    lemma_decimal(sketch.constraints.len());
    assert(says(decimal_spec(sketch.entities.len()), sketch.entities.len() as int));
    assert(says(decimal_spec(sketch.constraints.len()), sketch.constraints.len() as int));
    let count = choose|count: nat| #[trigger]
        is_profile_count(sketch, eval, less, count) && lines[2]@ == decimal_spec(count)
            + " geschlossene Profile"@;
    let profiles = choose|profiles: Seq<Profile<T>>| #[trigger]
        found_profiles(sketch, eval, less, profiles) && count == profiles.len();
    lemma_decimal(count);
    assert(found_profiles(sketch, eval, less, profiles));
    assert(says(decimal_spec(count), profiles.len() as int));
}

/// The planes are named by their axes, and no two alike.
pub proof fn lemma_plane_names(a: SketchPlane, b: SketchPlane)
    ensures
        label_spec(a).len() == 2,
        label_spec(a)[0] == (if a is YZ {
            'Y'
        } else {
            'X'
        }),
        label_spec(a)[1] == (if a is XY {
            'Y'
        } else {
            'Z'
        }),
        label_spec(a) == label_spec(b) ==> a == b,
{
    reveal_strlit("XY");
    reveal_strlit("XZ");
    reveal_strlit("YZ");
}

} // verus!
