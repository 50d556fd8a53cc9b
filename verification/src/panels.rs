//! What the toolbar and the panels show.
use vstd::prelude::*;

use crate::arith::{compares_all, evaluates_all};
use crate::document::{
    DocumentView, Feature, FeatureView, SketchFeature, SketchPlane, label_spec,
};
use crate::editor::{AppMode, Editor};
use crate::expr::Expr;
use crate::ids::FeatureId;
use crate::mesh::{TriMesh, column, folds, moved_on, moves_on, polylines};
use crate::profiles::{Profile, found_profiles};
use crate::rebuild::{FeatureStatus, RebuildEntry};
use crate::scene::PickId;
use crate::session::{ActionItem, SketchAction, SketchSession, ToolKind, are_actions, tool_label};
use crate::sketch::SketchView;
use crate::solver::{SolveResult, is_dof};
use crate::text::{decimal, decimal_spec};

verus! {

/// A command of the toolbar.
#[derive(Debug, Clone, Copy, PartialEq)]
pub enum Command<T> {
    /// Reads a document from a file.
    Open,
    /// Writes the document to a file.
    Save,
    /// Writes the bodies to a file.
    ExportStl,
    /// Begins a sketch on a plane.
    EnterSketch(SketchPlane),
    /// Takes another tool.
    SetTool(ToolKind),
    /// Does something with the selection.
    AddAction(SketchAction<T>),
    /// Ends the editing of the sketch.
    FinishSketch,
    /// Asks for the parameters of an extrusion.
    OpenExtrude,
    /// Asks for the parameters of a revolution.
    OpenRevolve,
}

/// An item of the toolbar.
pub enum ToolbarItem<T> {
    /// A line between groups.
    Separator,
    /// A text in bold letters.
    Title(String),
    /// A text.
    Label(String),
    /// A text that stands out.
    Notice(String),
    /// A button that gives a command, if it is enabled.
    Button(String, bool, Command<T>),
    /// A choice that gives a command, and whether it is the present one.
    Choice(String, bool, Command<T>),
}

/// The contents of an item.
pub enum ItemView<T> {
    /// A line between groups.
    Separator,
    /// A text in bold letters.
    Title(Seq<char>),
    /// A text.
    Label(Seq<char>),
    /// A text that stands out.
    Notice(Seq<char>),
    /// A button that gives a command, if it is enabled.
    Button(Seq<char>, bool, Command<T>),
    /// A choice that gives a command, and whether it is the present one.
    Choice(Seq<char>, bool, Command<T>),
}

impl<T> View for ToolbarItem<T> {
    type V = ItemView<T>;

    open spec fn view(&self) -> ItemView<T> {
        match *self {
            ToolbarItem::Separator => ItemView::Separator,
            ToolbarItem::Title(text) => ItemView::Title(text@),
            ToolbarItem::Label(text) => ItemView::Label(text@),
            ToolbarItem::Notice(text) => ItemView::Notice(text@),
            ToolbarItem::Button(text, enabled, command) => ItemView::Button(
                text@,
                enabled,
                command,
            ),
            ToolbarItem::Choice(text, active, command) => ItemView::Choice(text@, active, command),
        }
    }
}

/// The contents of all items.
pub open spec fn item_views<T>(items: Seq<ToolbarItem<T>>) -> Seq<ItemView<T>> {
    items.map_values(|item: ToolbarItem<T>| item@)
}

/// The toolbar when no sketch is edited: bodies can be exported if there are
/// any, and sketches made to bodies if there are any.
pub open spec fn model_toolbar<T>(
    has_body: bool,
    has_sketch: bool,
    status: Seq<char>,
    info: Option<Seq<char>>,
) -> Seq<ItemView<T>> {
    let items = seq![
        ItemView::Title("RustCAD"@),
        ItemView::Separator,
        ItemView::Button("📂 Öffnen"@, true, Command::Open),
        ItemView::Button("💾 Speichern"@, true, Command::Save),
        ItemView::Button("STL Export"@, has_body, Command::ExportStl),
        ItemView::Separator,
        ItemView::Label("Skizze:"@),
        ItemView::Button(label_spec(SketchPlane::XY), true, Command::EnterSketch(SketchPlane::XY)),
        ItemView::Button(label_spec(SketchPlane::XZ), true, Command::EnterSketch(SketchPlane::XZ)),
        ItemView::Button(label_spec(SketchPlane::YZ), true, Command::EnterSketch(SketchPlane::YZ)),
        ItemView::Separator,
        ItemView::Button("Extrude"@, has_sketch, Command::OpenExtrude),
        ItemView::Button("Revolve"@, has_sketch, Command::OpenRevolve),
        ItemView::Separator,
        ItemView::Label(status),
    ];
    match info {
        Some(text) => items.push(ItemView::Notice(text)),
        None => items,
    }
}

/// The choice of a tool.
pub open spec fn tool_choice<T>(kind: ToolKind, current: ToolKind) -> ItemView<T> {
    ItemView::Choice(tool_label(kind), kind == current, Command::SetTool(kind))
}

/// The buttons of actions.
pub open spec fn action_buttons<T>(actions: Seq<ActionItem<T>>) -> Seq<ItemView<T>> {
    actions.map_values(
        |item: ActionItem<T>|
            ItemView::Button(item.label@, true, Command::AddAction(item.action)),
    )
}

/// The toolbar when a sketch is edited.
pub open spec fn sketch_toolbar<T>(
    current: ToolKind,
    actions: Seq<ActionItem<T>>,
    status: Seq<char>,
) -> Seq<ItemView<T>> {
    seq![
        ItemView::Title("RustCAD"@),
        ItemView::Separator,
        tool_choice(ToolKind::Select, current),
        tool_choice(ToolKind::Line, current),
        tool_choice(ToolKind::Circle, current),
        ItemView::Separator,
    ] + action_buttons(actions) + seq![
        ItemView::Separator,
        ItemView::Button("✔ Fertig"@, true, Command::FinishSketch),
        ItemView::Separator,
        ItemView::Label(status),
    ]
}

/// Where a selected face is: on the body of which feature, or on which body
/// if its feature is not in the history.
pub open spec fn face_text(
    features: Seq<FeatureId>,
    body_features: Seq<FeatureId>,
    face: PickId,
) -> Seq<char> {
    let place = if (face.0 as int) < body_features.len() {
        features.index_of_first(body_features[face.0 as int])
    } else {
        None
    };
    let owner = match place {
        Some(i) => "Feature "@ + decimal_spec((i + 1) as nat),
        None => "Body "@ + decimal_spec(face.0 as nat),
    };
    " · "@ + owner + ", Face "@ + decimal_spec(face.1 as nat)
}

/// The status when no sketch is edited.
pub open spec fn model_status(
    features: Seq<FeatureId>,
    body_features: Seq<FeatureId>,
    face: Option<PickId>,
) -> Seq<char> {
    "Features: "@ + decimal_spec(features.len()) + " · Bodies: "@ + decimal_spec(
        body_features.len(),
    ) + (match face {
        Some(face) => face_text(features, body_features, face),
        None => seq![],
    })
}

/// The status when a sketch is edited.
pub open spec fn sketch_status<T>(session: SketchSession<T>, dof: nat) -> Seq<char> {
    label_spec(session.plane) + " · "@ + decimal_spec(session.sketch@.entities.len())
        + " Entities · "@ + decimal_spec(session.sketch@.constraints.len()) + " Constraints · "@
        + decimal_spec(session.sketch@.dimensions.len()) + " Maße · "@ + decimal_spec(dof)
        + " Freiheitsgrade"@ + (if session.last_solve matches Some(
        SolveResult::DidNotConverge { .. },
    ) {
        " · ⚠ nicht lösbar"@
    } else {
        ""@
    })
}

/// The name of a sketch by its number in the history.
pub open spec fn sketch_name(shown: int, plane: SketchPlane) -> Seq<char> {
    decimal_spec(shown as nat) + " · Skizze ("@ + label_spec(plane) + ")"@
}

/// `text` is how `write` writes a number.
pub open spec fn writes<T, P: Fn(&T) -> String>(write: P, t: T, text: String) -> bool {
    call_ensures(write, (&t,), text)
}

/// The name of an extrusion by its number in the history.
pub open spec fn extrude_name(shown: int, distance: Seq<char>) -> Seq<char> {
    decimal_spec(shown as nat) + " · Extrude (T="@ + distance + ")"@
}

/// The name of a revolution by its number in the history.
pub open spec fn revolve_name(shown: int, angle: Seq<char>) -> Seq<char> {
    decimal_spec(shown as nat) + " · Revolve ("@ + angle + "°)"@
}

/// The name of an extrusion whose distance `write` writes.
pub open spec fn is_extrude_name<T, P: Fn(&T) -> String>(
    write: P,
    distance: T,
    shown: int,
    name: Seq<char>,
) -> bool {
    exists|text: String| #[trigger]
        writes(write, distance, text) && name == extrude_name(shown, text@)
}

/// The name of a revolution whose angle `write` writes.
pub open spec fn is_revolve_name<T, P: Fn(&T) -> String>(
    write: P,
    angle: T,
    shown: int,
    name: Seq<char>,
) -> bool {
    exists|text: String| #[trigger]
        writes(write, angle, text) && name == revolve_name(shown, text@)
}

/// The name of a feature by its number in the history. `distance` and `angle`
/// write the parameters.
pub open spec fn is_feature_name<T, P: Fn(&T) -> String, Q: Fn(&T) -> String>(
    distance: P,
    angle: Q,
    shown: int,
    feature: FeatureView<T>,
    name: Seq<char>,
) -> bool {
    match feature {
        FeatureView::Sketch(plane, _) => name == sketch_name(shown, plane),
        FeatureView::Extrude(e) => is_extrude_name(distance, e.distance, shown, name),
        FeatureView::Revolve(r) => is_revolve_name(angle, r.angle, shown, name),
    }
}

/// A row of the tree of features.
pub struct TreeRow {
    /// The feature.
    pub id: FeatureId,
    /// Its name, with a warning if it could not be built.
    pub text: String,
    /// Why it could not be built.
    pub failed: Option<String>,
    /// Whether it is selected.
    pub selected: bool,
    /// Whether it is a sketch, which can be opened.
    pub is_sketch: bool,
}

/// Why a feature could not be built, according to its first entry.
pub open spec fn failure_of<V>(entries: Seq<RebuildEntry<V>>, id: FeatureId) -> Option<Seq<char>>
    decreases entries.len(),
{
    if entries.len() == 0 {
        None
    } else if entries[0].feature == id {
        match entries[0].status {
            FeatureStatus::Failed(reason) => Some(reason@),
            FeatureStatus::Built => None,
        }
    } else {
        failure_of(entries.drop_first(), id)
    }
}

/// What an optional text says.
pub open spec fn text_view(text: Option<String>) -> Option<Seq<char>> {
    match text {
        Some(text) => Some(text@),
        None => None,
    }
}

/// The row of a feature.
pub open spec fn is_row<T, V, P: Fn(&T) -> String, Q: Fn(&T) -> String>(
    distance: P,
    angle: Q,
    doc: DocumentView<T>,
    entries: Seq<RebuildEntry<V>>,
    selected: Option<FeatureId>,
    i: int,
    row: TreeRow,
) -> bool {
    let id = doc.features[i];
    &&& row.id == id
    &&& text_view(row.failed) == failure_of(entries, id)
    &&& row.selected == (selected == Some(id))
    &&& row.is_sketch == (doc.store[id.raw] is Sketch)
    &&& exists|name: Seq<char>| #[trigger]
        is_feature_name(distance, angle, i + 1, doc.store[id.raw], name) && row.text@ == if row.failed
            is Some {
            "⚠ "@ + name
        } else {
            name
        }
}

fn text(s: &str) -> (t: String)
    ensures
        t@ == s@,
{
    String::from_str(s)
}

proof fn lemma_failure<V>(entries: Seq<RebuildEntry<V>>, id: FeatureId, i: int)
    requires
        0 <= i < entries.len(),
        entries[i].feature == id,
        forall|j: int| 0 <= j < i ==> (#[trigger] entries[j]).feature != id,
    ensures
        failure_of(entries, id) == (match entries[i].status {
            FeatureStatus::Failed(reason) => Some(reason@),
            FeatureStatus::Built => None,
        }),
    decreases entries.len(),
{
    if i > 0 {
        let rest = entries.drop_first();
        assert(entries[0].feature != id);
        assert forall|j: int| 0 <= j < i - 1 implies (#[trigger] rest[j]).feature != id by {
            assert(rest[j] == entries[j + 1]);
        }
        lemma_failure(rest, id, i - 1);
    }
}

proof fn lemma_no_failure<V>(entries: Seq<RebuildEntry<V>>, id: FeatureId)
    requires
        forall|j: int| 0 <= j < entries.len() ==> (#[trigger] entries[j]).feature != id,
    ensures
        failure_of(entries, id) is None,
    decreases entries.len(),
{
    if entries.len() > 0 {
        let rest = entries.drop_first();
        assert(entries[0].feature != id);
        assert forall|j: int| 0 <= j < rest.len() implies (#[trigger] rest[j]).feature != id by {
            assert(rest[j] == entries[j + 1]);
        }
        lemma_no_failure(rest, id);
    }
}

/// The name of a feature by its number in the history.
pub fn feature_label<T: Copy, P: Fn(&T) -> String, Q: Fn(&T) -> String>(
    shown: usize,
    feature: &Feature<T>,
    distance: &P,
    angle: &Q,
) -> (name: String)
    requires
        forall|t: &T| #[trigger] call_requires(distance, (t,)),
        forall|t: &T| #[trigger] call_requires(angle, (t,)),
    ensures
        is_feature_name(*distance, *angle, shown as int, feature@, name@),
{
    let mut name = decimal(shown as u128);
    match feature {
        Feature::Sketch(s) => {
            name.append(" · Skizze (");
            name.append(s.plane.label());
            name.append(")");
            assert(name@ == sketch_name(shown as int, s.plane));
            name
        },
        Feature::Extrude(e) => {
            let t = distance(&e.distance);
            name.append(" · Extrude (T=");
            name.append(t.as_str());
            name.append(")");
            proof {
                assert(name@ == extrude_name(shown as int, t@));
                assert(writes(*distance, e.distance, t));
            }
            name
        },
        Feature::Revolve(r) => {
            let t = angle(&r.angle);
            name.append(" · Revolve (");
            name.append(t.as_str());
            name.append("°)");
            proof {
                assert(name@ == revolve_name(shown as int, t@));
                assert(writes(*angle, r.angle, t));
            }
            name
        },
    }
}

impl<T: Copy, V> Editor<T, V> {
    /// The tree of features: a row for each, in the order of the history.
    pub fn feature_tree<P: Fn(&T) -> String, Q: Fn(&T) -> String>(&self, distance: &P, angle: &Q) -> (
        rows: Vec<TreeRow>)
        requires
            self.wf(),
            forall|t: &T| #[trigger] call_requires(distance, (t,)),
            forall|t: &T| #[trigger] call_requires(angle, (t,)),
        ensures
            rows@.len() == self.document@.features.len(),
            forall|i: int|
                0 <= i < rows@.len() ==> is_row(
                    *distance,
                    *angle,
                    self.document@,
                    self.rebuild_state.entries@,
                    self.selected_feature,
                    i,
                    #[trigger] rows@[i],
                ),
    {
        let mut rows: Vec<TreeRow> = Vec::new();
        let features = self.document.features();
        let mut i: usize = 0;
        while i < features.len()
            invariant
                self.wf(),
                forall|t: &T| #[trigger] call_requires(distance, (t,)),
                forall|t: &T| #[trigger] call_requires(angle, (t,)),
                features@.len() == self.document@.features.len(),
                forall|j: int|
                    0 <= j < features@.len() ==> (#[trigger] features@[j]).0
                        == self.document@.features[j] && features@[j].1@
                        == self.document@.store[self.document@.features[j].raw],
                i <= features@.len(),
                rows@.len() == i,
                forall|j: int|
                    0 <= j < rows@.len() ==> is_row(
                        *distance,
                        *angle,
                        self.document@,
                        self.rebuild_state.entries@,
                        self.selected_feature,
                        j,
                        #[trigger] rows@[j],
                    ),
            decreases features@.len() - i,
        {
            let (id, feature) = features[i];
            assert(features@[i as int] == (id, feature));
            let failed = match self.rebuild_state.status_of(id) {
                Some(status) => {
                    proof {
                        let k = choose|k: int|
                            0 <= k < self.rebuild_state.entries@.len() && (
                            #[trigger] self.rebuild_state.entries@[k]).feature == id
                                && self.rebuild_state.entries@[k].status == *status && forall|j: int|

                                0 <= j < k ==> (#[trigger] self.rebuild_state.entries@[j]).feature
                                    != id;
                        lemma_failure(self.rebuild_state.entries@, id, k);
                    }
                    match status {
                        FeatureStatus::Failed(message) => Some(message.clone()),
                        FeatureStatus::Built => None,
                    }
                },
                None => {
                    proof {
                        lemma_no_failure(self.rebuild_state.entries@, id);
                    }
                    None
                },
            };
            let name = feature_label(i + 1, feature, distance, angle);
            let selected = match self.selected_feature {
                Some(other) => other == id,
                None => false,
            };
            let is_sketch = match feature {
                Feature::Sketch(_) => true,
                _ => false,
            };
            let ghost plain = name@;
            let shown = if failed.is_some() {
                let mut shown = text("⚠ ");
                shown.append(name.as_str());
                shown
            } else {
                name
            };
            assert(is_feature_name(
                *distance,
                *angle,
                i + 1,
                self.document@.store[self.document@.features[i as int].raw],
                plain,
            ));
            rows.push(TreeRow { id, text: shown, failed, selected, is_sketch });
            i = i + 1;
        }
        rows
    }
}

/// A sketch that a feature can be made from.
pub struct SketchChoice {
    /// The feature that holds it.
    pub id: FeatureId,
    /// Its name.
    pub label: String,
    /// Number of its profiles.
    pub profiles: usize,
}

/// The number of profiles of a sketch.
pub open spec fn is_profile_count<T, E: Fn(&Expr<T>, &Vec<T>) -> T, L: Fn(&T, &T) -> bool>(
    sketch: SketchView<T>,
    eval: E,
    less: L,
    count: nat,
) -> bool {
    exists|profiles: Seq<Profile<T>>| #[trigger]
        found_profiles(sketch, eval, less, profiles) && count == profiles.len()
}

/// The places of the sketches in the history.
pub open spec fn sketch_places<T>(doc: DocumentView<T>) -> Seq<int> {
    Seq::new(doc.features.len(), |i: int| i).filter(
        |i: int| doc.store[doc.features[i].raw] is Sketch,
    )
}

/// The choice of the sketch at a place of the history.
pub open spec fn is_choice<T, E: Fn(&Expr<T>, &Vec<T>) -> T, L: Fn(&T, &T) -> bool>(
    doc: DocumentView<T>,
    place: int,
    eval: E,
    less: L,
    choice: SketchChoice,
) -> bool {
    &&& choice.id == doc.features[place]
    &&& doc.store[choice.id.raw] matches FeatureView::Sketch(plane, sketch)
    &&& choice.label@ == sketch_name(place + 1, plane)
    &&& is_profile_count(sketch, eval, less, choice.profiles as nat)
}

/// The choice for a feature, if it is among them.
pub fn choice_of(choices: &Vec<SketchChoice>, id: FeatureId) -> (choice: Option<&SketchChoice>)
    ensures
        match choice {
            Some(choice) => choice.id == id && choices@.contains(*choice),
            None => forall|i: int| 0 <= i < choices@.len() ==> (#[trigger] choices@[i]).id != id,
        },
{
    let mut i: usize = 0;
    while i < choices.len()
        invariant
            i <= choices@.len(),
            forall|j: int| 0 <= j < i ==> (#[trigger] choices@[j]).id != id,
        decreases choices@.len() - i,
    {
        if choices[i].id == id {
            assert(choices@[i as int] == choices[i as int]);
            return Some(&choices[i]);
        }
        i = i + 1;
    }
    None
}

/// The parts of a description of a sketch: its plane, its size and the number
/// of its profiles.
pub open spec fn is_summary<T, E: Fn(&Expr<T>, &Vec<T>) -> T, L: Fn(&T, &T) -> bool>(
    plane: SketchPlane,
    sketch: SketchView<T>,
    eval: E,
    less: L,
    lines: Seq<String>,
) -> bool {
    &&& lines.len() == 3
    &&& lines[0]@ == "Skizze auf "@ + label_spec(plane)
    &&& lines[1]@ == decimal_spec(sketch.entities.len()) + " Entities · "@ + decimal_spec(
        sketch.constraints.len(),
    ) + " Constraints"@
    &&& exists|count: nat| #[trigger]
        is_profile_count(sketch, eval, less, count) && lines[2]@ == decimal_spec(count)
            + " geschlossene Profile"@
}

/// A description of a sketch, line by line.
pub fn sketch_summary<T: Copy, E: Fn(&Expr<T>, &Vec<T>) -> T, L: Fn(&T, &T) -> bool>(
    feature: &SketchFeature<T>,
    eval: &E,
    less: &L,
) -> (lines: Vec<String>)
    requires
        feature.sketch.wf(),
        feature.sketch@.linked(),
        evaluates_all(*eval),
        compares_all(*less),
    ensures
        is_summary(feature.plane, feature.sketch@, *eval, *less, lines@),
{
    let mut place = text("Skizze auf ");
    place.append(feature.plane.label());
    let mut size = decimal(feature.sketch.entity_count() as u128);
    size.append(" Entities · ");
    size.append(decimal(feature.sketch.constraint_count() as u128).as_str());
    size.append(" Constraints");
    proof {
        feature.sketch.lemma_traceable();
    }
    let profiles = feature.sketch.find_profiles(eval, less);
    assert(is_profile_count(feature.sketch@, *eval, *less, profiles@.len()));
    let mut count = decimal(profiles.len() as u128);
    count.append(" geschlossene Profile");
    let mut lines: Vec<String> = Vec::new();
    lines.push(place);
    lines.push(size);
    lines.push(count);
    lines
}

fn button<T>(label: &str, enabled: bool, command: Command<T>) -> (item: ToolbarItem<T>)
    ensures
        item@ == ItemView::Button(label@, enabled, command),
{
    ToolbarItem::Button(text(label), enabled, command)
}

fn tool_item<T>(kind: ToolKind, current: ToolKind) -> (item: ToolbarItem<T>)
    ensures
        item@ == tool_choice::<T>(kind, current),
{
    ToolbarItem::Choice(text(kind.label()), kind == current, Command::SetTool(kind))
}

/// The items of the toolbar when a sketch is edited.
fn session_toolbar<
    T: Copy,
    E: Fn(&Expr<T>, &Vec<T>) -> T,
    L: Fn(&T, &T) -> bool,
    G: Fn(&Vec<Vec<T>>) -> Vec<T>,
>(session: &SketchSession<T>, eval: &E, less: &L, singular: &G) -> (items: Vec<ToolbarItem<T>>)
    requires
        session.wf(),
        evaluates_all(*eval),
        compares_all(*less),
        forall|rows: &Vec<Vec<T>>| #[trigger] call_requires(singular, (rows,)),
    ensures
        is_session_toolbar(*session, *eval, *less, *singular, item_views(items@)),
{
    let current = session.tool.kind();
    let actions = session.available_actions(eval);
    let dof = session.sketch.dof(eval, less, singular);
    let mut status = text(session.plane.label());
    status.append(" · ");
    status.append(decimal(session.sketch.entity_count() as u128).as_str());
    status.append(" Entities · ");
    status.append(decimal(session.sketch.constraint_count() as u128).as_str());
    status.append(" Constraints · ");
    status.append(decimal(session.sketch.dimension_count() as u128).as_str());
    status.append(" Maße · ");
    status.append(decimal(dof as u128).as_str());
    status.append(" Freiheitsgrade");
    match session.last_solve {
        Some(SolveResult::DidNotConverge { .. }) => {
            status.append(" · ⚠ nicht lösbar");
        },
        _ => {
            proof {
                reveal_strlit("");
            }
            assert(status@ + ""@ =~= status@);
        },
    }
    assert(status@ == sketch_status(*session, dof as nat));
    let ghost shown = status@;
    let mut items: Vec<ToolbarItem<T>> = Vec::new();
    items.push(ToolbarItem::Title(text("RustCAD")));
    items.push(ToolbarItem::Separator);
    items.push(tool_item(ToolKind::Select, current));
    items.push(tool_item(ToolKind::Line, current));
    items.push(tool_item(ToolKind::Circle, current));
    items.push(ToolbarItem::Separator);
    let ghost head = item_views(items@);
    let mut i: usize = 0;
    assert(action_buttons(actions@.take(0)) =~= seq![]);
    assert(head + Seq::<ItemView<T>>::empty() =~= head);
    while i < actions.len()
        invariant
            i <= actions@.len(),
            item_views(items@) == head + action_buttons(actions@.take(i as int)),
        decreases actions@.len() - i,
    {
        let ghost before = items@;
        let item = button(actions[i].label, true, Command::AddAction(actions[i].action));
        let ghost shown_item = item@;
        items.push(item);
        assert(item_views(items@) =~= item_views(before).push(shown_item));
        assert(action_buttons(actions@.take(i + 1)) =~= action_buttons(
            actions@.take(i as int),
        ).push(shown_item));
        i = i + 1;
    }
    assert(actions@.take(i as int) =~= actions@);
    let ghost before = items@;
    items.push(ToolbarItem::Separator);
    items.push(button("✔ Fertig", true, Command::FinishSketch));
    items.push(ToolbarItem::Separator);
    items.push(ToolbarItem::Label(status));
    assert(item_views(items@) =~= sketch_toolbar(current, actions@, shown)) by {
        assert(item_views(items@) =~= item_views(before) + seq![
            ItemView::Separator,
            ItemView::Button("✔ Fertig"@, true, Command::FinishSketch),
            ItemView::Separator,
            ItemView::Label(shown),
        ]);
    }
    items
}

/// What the toolbar shows when a sketch is edited.
pub open spec fn is_session_toolbar<
    T,
    E: Fn(&Expr<T>, &Vec<T>) -> T,
    L: Fn(&T, &T) -> bool,
    G: Fn(&Vec<Vec<T>>) -> Vec<T>,
>(
    session: SketchSession<T>,
    eval: E,
    less: L,
    singular: G,
    items: Seq<ItemView<T>>,
) -> bool {
    exists|actions: Seq<ActionItem<T>>, dof: nat|
        {
            &&& #[trigger] are_actions(session.sketch@, session.selection@, eval, actions)
            &&& #[trigger] is_dof(session.sketch@, eval, less, singular, dof)
            &&& items == sketch_toolbar(
                session.tool.kind_spec(),
                actions,
                sketch_status(session, dof),
            )
        }
}

/// What the toolbar shows.
pub open spec fn is_toolbar<
    T,
    V,
    E: Fn(&Expr<T>, &Vec<T>) -> T,
    L: Fn(&T, &T) -> bool,
    G: Fn(&Vec<Vec<T>>) -> Vec<T>,
>(editor: Editor<T, V>, eval: E, less: L, singular: G, items: Seq<ItemView<T>>) -> bool {
    match editor.mode {
        AppMode::SketchEdit(session) => is_session_toolbar(session, eval, less, singular, items),
        _ => items == model_toolbar::<T>(
            editor.body_features@.len() > 0,
            exists|id: FeatureId| #[trigger]
                editor.document@.features.contains(id) && editor.document@.store[id.raw] is Sketch,
            model_status(
                editor.document@.features,
                editor.body_features@,
                editor.selected_face,
            ),
            text_view(editor.info),
        ),
    }
}

impl<T: Copy, V> Editor<T, V> {
    /// The status when no sketch is edited.
    fn model_text(&self) -> (status: String)
        requires
            self.wf(),
        ensures
            status@ == model_status(
                self.document@.features,
                self.body_features@,
                self.selected_face,
            ),
    {
        let mut status = text("Features: ");
        status.append(decimal(self.document.len() as u128).as_str());
        status.append(" · Bodies: ");
        status.append(decimal(self.body_features.len() as u128).as_str());
        let ghost start = status@;
        if let Some((body, face)) = self.selected_face {
            let mut owner = text("Body ");
            owner.append(decimal(body as u128).as_str());
            if (body as usize) < self.body_features.len() {
                proof {
                    self.document@.features.index_of_first_ensures(
                        self.body_features@[body as int],
                    );
                }
                if let Some(i) = self.document.index_of(self.body_features[body as usize]) {
                    assert(self.document@.features.contains(self.body_features@[body as int]));
                    owner = text("Feature ");
                    owner.append(decimal(i as u128 + 1).as_str());
                }
            }
            let mut tail = text(" · ");
            tail.append(owner.as_str());
            tail.append(", Face ");
            tail.append(decimal(face as u128).as_str());
            assert(tail@ == face_text(
                self.document@.features,
                self.body_features@,
                (body, face),
            ));
            status.append(tail.as_str());
        } else {
            assert(start + Seq::<char>::empty() =~= start);
        }
        status
    }

    /// The items of the toolbar.
    pub fn toolbar<
        E: Fn(&Expr<T>, &Vec<T>) -> T,
        L: Fn(&T, &T) -> bool,
        G: Fn(&Vec<Vec<T>>) -> Vec<T>,
    >(&self, eval: &E, less: &L, singular: &G) -> (items: Vec<ToolbarItem<T>>)
        requires
            self.wf(),
            evaluates_all(*eval),
            compares_all(*less),
            forall|rows: &Vec<Vec<T>>| #[trigger] call_requires(singular, (rows,)),
        ensures
            is_toolbar(*self, *eval, *less, *singular, item_views(items@)),
    {
        match &self.mode {
            AppMode::SketchEdit(session) => session_toolbar(session, eval, less, singular),
            _ => self.idle_toolbar(),
        }
    }

    /// The items of the toolbar when no sketch is edited.
    fn idle_toolbar(&self) -> (items: Vec<ToolbarItem<T>>)
        requires
            self.wf(),
        ensures
            item_views(items@) == model_toolbar::<T>(
                self.body_features@.len() > 0,
                exists|id: FeatureId| #[trigger]
                    self.document@.features.contains(id) && self.document@.store[id.raw] is Sketch,
                model_status(self.document@.features, self.body_features@, self.selected_face),
                text_view(self.info),
            ),
    {
        let sketches = self.document.sketch_features();
        let has_sketch = sketches.len() > 0;
        proof {
            let wanted = |f: FeatureId| self.document@.store[f.raw] is Sketch;
            let ids = self.document@.features.filter(wanted);
            assert(ids.len() == sketches@.len());
            let features = self.document@.features;
            if has_sketch {
                features.lemma_filter_pred(wanted, 0);
                assert(ids.contains(ids[0]));
                features.lemma_filter_contains_rev(wanted, ids[0]);
                assert(features.contains(ids[0]) && wanted(ids[0]));
            }
            if exists|id: FeatureId| #[trigger]
                features.contains(id) && self.document@.store[id.raw] is Sketch {
                let id = choose|id: FeatureId| #[trigger]
                    features.contains(id) && self.document@.store[id.raw] is Sketch;
                let i = choose|i: int| 0 <= i < features.len() && features[i] == id;
                assert(wanted(features[i]));
                features.lemma_filter_contains(wanted, i);
                assert(ids.len() > 0);
            }
        }
        let has_body = self.body_features.len() > 0;
        let mut items: Vec<ToolbarItem<T>> = Vec::new();
        items.push(ToolbarItem::Title(text("RustCAD")));
        items.push(ToolbarItem::Separator);
        items.push(button("📂 Öffnen", true, Command::Open));
        items.push(button("💾 Speichern", true, Command::Save));
        items.push(button("STL Export", has_body, Command::ExportStl));
        items.push(ToolbarItem::Separator);
        items.push(ToolbarItem::Label(text("Skizze:")));
        items.push(
            button(SketchPlane::XY.label(), true, Command::EnterSketch(SketchPlane::XY)),
        );
        items.push(
            button(SketchPlane::XZ.label(), true, Command::EnterSketch(SketchPlane::XZ)),
        );
        items.push(
            button(SketchPlane::YZ.label(), true, Command::EnterSketch(SketchPlane::YZ)),
        );
        items.push(ToolbarItem::Separator);
        items.push(button("Extrude", has_sketch, Command::OpenExtrude));
        items.push(button("Revolve", has_sketch, Command::OpenRevolve));
        items.push(ToolbarItem::Separator);
        items.push(ToolbarItem::Label(self.model_text()));
        if let Some(info) = &self.info {
            items.push(ToolbarItem::Notice(info.clone()));
        }
        items
    }
}

/// The sketches that are drawn over the scene: all but the one that is
/// edited.
pub open spec fn overlay_ids<T, V>(editor: Editor<T, V>) -> Seq<FeatureId> {
    let editing = match editor.mode {
        AppMode::SketchEdit(session) => session.editing,
        _ => None,
    };
    editor.document@.features.filter(|f: FeatureId| editor.document@.store[f.raw] is Sketch).filter(
        |f: FeatureId| Some(f) != editing,
    )
}

/// All bodies, in the order of the history.
pub open spec fn body_meshes<V>(entries: Seq<RebuildEntry<V>>) -> Seq<TriMesh<V>> {
    entries.filter(|e: RebuildEntry<V>| e.body is Some).map_values(
        |e: RebuildEntry<V>| e.body->Some_0,
    )
}

/// `both` encloses two boxes: `min` picks the smaller and `max` the larger of
/// two numbers.
pub open spec fn encloses<V, L: Fn(&V, &V) -> V, H: Fn(&V, &V) -> V>(
    min: L,
    max: H,
    a: ([V; 3], [V; 3]),
    b: ([V; 3], [V; 3]),
    both: ([V; 3], [V; 3]),
) -> bool {
    forall|i: int|
        0 <= i < 3 ==> call_ensures(min, (&a.0[i], &b.0[i]), #[trigger] both.0[i])
            && call_ensures(max, (&a.1[i], &b.1[i]), both.1[i])
}

/// The box of what was there before and of one more mesh.
pub open spec fn joins<V, L: Fn(&V, &V) -> V, H: Fn(&V, &V) -> V>(
    min: L,
    max: H,
    rest: Option<([V; 3], [V; 3])>,
    own: ([V; 3], [V; 3]),
    corners: Option<([V; 3], [V; 3])>,
) -> bool {
    match rest {
        None => corners == Some(own),
        Some(rest) => corners matches Some(both) && encloses(min, max, rest, own, both),
    }
}

/// The box of one mesh.
pub open spec fn is_mesh_box<V, L: Fn(&V, &V) -> V, H: Fn(&V, &V) -> V>(
    min: L,
    max: H,
    mesh: TriMesh<V>,
    corners: ([V; 3], [V; 3]),
) -> bool {
    &&& mesh.positions@.len() > 0
    &&& forall|i: int|
        0 <= i < 3 ==> folds(
            min,
            mesh.positions@[0][i],
            column(mesh.positions@, i),
            #[trigger] corners.0[i],
        ) && folds(max, mesh.positions@[0][i], column(mesh.positions@, i), corners.1[i])
}

/// The box of all meshes, built up one after the other. Meshes without
/// vertices do not count; without any other there is no box.
pub open spec fn is_scene_box<V, L: Fn(&V, &V) -> V, H: Fn(&V, &V) -> V>(
    min: L,
    max: H,
    meshes: Seq<TriMesh<V>>,
    corners: Option<([V; 3], [V; 3])>,
) -> bool
    decreases meshes.len(),
{
    if meshes.len() == 0 {
        corners is None
    } else if meshes.last().positions@.len() == 0 {
        is_scene_box(min, max, meshes.drop_last(), corners)
    } else {
        exists|rest: Option<([V; 3], [V; 3])>, own: ([V; 3], [V; 3])|
            {
                &&& is_scene_box(min, max, meshes.drop_last(), rest)
                &&& is_mesh_box(min, max, meshes.last(), own)
                &&& #[trigger] joins(min, max, rest, own, corners)
            }
    }
}

/// The text at the lower border of the view.
pub open spec fn hint_spec<T>(mode: AppMode<T>) -> Seq<char> {
    match mode {
        AppMode::SketchEdit(_) => "Klick: Zeichnen/Auswählen (Shift: mehrfach)  ·  Drag: Punkt ziehen  ·  Esc: Abbrechen  ·  Entf: Löschen"@,
        _ => "Klick: Fläche wählen  ·  Drag: Orbit  ·  Mitte: Pan  ·  Scroll: Zoom  ·  F: Fit  ·  ⌘Z: Undo"@,
    }
}

impl<T: Copy, V> Editor<T, V> {
    /// The sketches that a feature can be made from, in the order of the
    /// history.
    pub fn dialog_sketches<E: Fn(&Expr<T>, &Vec<T>) -> T, L: Fn(&T, &T) -> bool>(
        &self,
        eval: &E,
        less: &L,
    ) -> (choices: Vec<SketchChoice>)
        requires
            self.wf(),
            evaluates_all(*eval),
            compares_all(*less),
        ensures
            choices@.len() == sketch_places(self.document@).len(),
            forall|i: int|
                0 <= i < choices@.len() ==> is_choice(
                    self.document@,
                    sketch_places(self.document@)[i],
                    *eval,
                    *less,
                    #[trigger] choices@[i],
                ),
    {
        let ghost doc = self.document@;
        let ghost wanted = |i: int| doc.store[doc.features[i].raw] is Sketch;
        let ghost all = Seq::new(doc.features.len(), |i: int| i);
        let features = self.document.features();
        let mut choices: Vec<SketchChoice> = Vec::new();
        let mut i: usize = 0;
        proof {
            reveal(Seq::filter);
            assert(all.take(0).filter(wanted).len() == 0);
        }
        while i < features.len()
            invariant
                self.wf(),
                doc == self.document@,
                doc.linked(),
                evaluates_all(*eval),
                compares_all(*less),
                wanted == (|i: int| doc.store[doc.features[i].raw] is Sketch),
                all == Seq::new(doc.features.len(), |i: int| i),
                features@.len() == doc.features.len(),
                forall|j: int|
                    0 <= j < features@.len() ==> (#[trigger] features@[j]).0 == doc.features[j]
                        && features@[j].1@ == doc.store[doc.features[j].raw] && features@[j].1.wf(),
                i <= features@.len(),
                choices@.len() == all.take(i as int).filter(wanted).len(),
                forall|j: int|
                    0 <= j < choices@.len() ==> is_choice(
                        doc,
                        all.take(i as int).filter(wanted)[j],
                        *eval,
                        *less,
                        #[trigger] choices@[j],
                    ),
            decreases features@.len() - i,
        {
            let (id, feature) = features[i];
            proof {
                reveal(Seq::filter);
                assert(features@[i as int] == (id, feature));
                assert(all.take(i + 1).drop_last() =~= all.take(i as int));
                assert(all.take(i + 1).last() == i);
                assert(doc.features.contains(id));
                assert(doc.store.contains_key(id.raw));
                assert(doc.store[id.raw].linked());
            }
            if let Feature::Sketch(s) = feature {
                let mut label = decimal(i as u128 + 1);
                label.append(" · Skizze (");
                label.append(s.plane.label());
                label.append(")");
                proof {
                    s.sketch.lemma_traceable();
                }
                let profiles = s.sketch.find_profiles(eval, less);
                assert(is_profile_count(s.sketch@, *eval, *less, profiles@.len()));
                assert(label@ == sketch_name(i + 1, s.plane));
                let choice = SketchChoice { id, label, profiles: profiles.len() };
                assert(is_choice(doc, i as int, *eval, *less, choice));
                choices.push(choice);
            }
            i = i + 1;
        }
        assert(all.take(i as int) =~= all);
        choices
    }

    /// The sketches that are drawn over the scene.
    pub fn overlay_sketches(&self) -> (list: Vec<(FeatureId, &SketchFeature<T>)>)
        requires
            self.wf(),
        ensures
            list@.map_values(|e: (FeatureId, &SketchFeature<T>)| e.0) == overlay_ids(*self),
            forall|i: int|
                0 <= i < list@.len() ==> (self.document@.store[(#[trigger] list@[i]).0.raw]
                    == FeatureView::Sketch(list@[i].1.plane, list@[i].1.sketch@))
                    && list@[i].1.sketch.wf(),
    {
        let editing = match &self.mode {
            AppMode::SketchEdit(session) => session.editing,
            _ => None,
        };
        let all = self.document.sketch_features();
        let ghost name = |e: (FeatureId, &SketchFeature<T>)| e.0;
        let ghost ids = all@.map_values(name);
        let ghost wanted = |f: FeatureId| Some(f) != editing;
        let mut list: Vec<(FeatureId, &SketchFeature<T>)> = Vec::new();
        let mut i: usize = 0;
        proof {
            reveal(Seq::filter);
            assert(list@.map_values(name) =~= ids.take(0).filter(wanted));
        }
        while i < all.len()
            invariant
                name == (|e: (FeatureId, &SketchFeature<T>)| e.0),
                ids == all@.map_values(name),
                wanted == (|f: FeatureId| Some(f) != editing),
                forall|j: int|
                    0 <= j < all@.len() ==> (self.document@.store[(#[trigger] all@[j]).0.raw]
                        == FeatureView::Sketch(all@[j].1.plane, all@[j].1.sketch@))
                        && all@[j].1.sketch.wf(),
                i <= all@.len(),
                list@.map_values(name) == ids.take(i as int).filter(wanted),
                forall|j: int|
                    0 <= j < list@.len() ==> (self.document@.store[(#[trigger] list@[j]).0.raw]
                        == FeatureView::Sketch(list@[j].1.plane, list@[j].1.sketch@))
                        && list@[j].1.sketch.wf(),
            decreases all@.len() - i,
        {
            let (id, sketch) = all[i];
            let ghost before = list@;
            proof {
                reveal(Seq::filter);
                assert(all@[i as int] == (id, sketch));
                assert(ids.take(i + 1).drop_last() =~= ids.take(i as int));
            }
            let skipped = match editing {
                Some(other) => other == id,
                None => false,
            };
            if !skipped {
                list.push((id, sketch));
                assert(list@.map_values(name) =~= before.map_values(name).push(id));
            }
            i = i + 1;
        }
        assert(ids.take(i as int) =~= ids);
        list
    }

    /// The text at the lower border of the view.
    pub fn hint(&self) -> (text: &'static str)
        ensures
            text@ == hint_spec(self.mode),
    {
        match &self.mode {
            AppMode::SketchEdit(_) => "Klick: Zeichnen/Auswählen (Shift: mehrfach)  ·  Drag: Punkt ziehen  ·  Esc: Abbrechen  ·  Entf: Löschen",
            _ => "Klick: Fläche wählen  ·  Drag: Orbit  ·  Mitte: Pan  ·  Scroll: Zoom  ·  F: Fit  ·  ⌘Z: Undo",
        }
    }
}

impl<T, V: Copy> Editor<T, V> {
    /// The corners of the smallest box that holds all bodies; `None` if there
    /// are no vertices.
    pub fn scene_bounds<L: Fn(&V, &V) -> V, H: Fn(&V, &V) -> V>(&self, min: &L, max: &H) -> (corners:
        Option<([V; 3], [V; 3])>)
        requires
            forall|a: &V, b: &V| #[trigger] call_requires(min, (a, b)),
            forall|a: &V, b: &V| #[trigger] call_requires(max, (a, b)),
        ensures
            is_scene_box(*min, *max, body_meshes(self.rebuild_state.entries@), corners),
    {
        let ghost entries = self.rebuild_state.entries@;
        let ghost wanted = |e: RebuildEntry<V>| e.body is Some;
        let ghost mesh_of = |e: RebuildEntry<V>| e.body->Some_0;
        let mut corners: Option<([V; 3], [V; 3])> = None;
        let mut i: usize = 0;
        proof {
            reveal(Seq::filter);
            assert(body_meshes(entries.take(0)) =~= seq![]);
        }
        while i < self.rebuild_state.entries.len()
            invariant
                forall|a: &V, b: &V| #[trigger] call_requires(min, (a, b)),
                forall|a: &V, b: &V| #[trigger] call_requires(max, (a, b)),
                entries == self.rebuild_state.entries@,
                wanted == (|e: RebuildEntry<V>| e.body is Some),
                mesh_of == (|e: RebuildEntry<V>| e.body->Some_0),
                i <= entries.len(),
                is_scene_box(*min, *max, body_meshes(entries.take(i as int)), corners),
            decreases entries.len() - i,
        {
            let ghost before = corners;
            let ghost meshes = body_meshes(entries.take(i as int));
            proof {
                reveal(Seq::filter);
                assert(entries.take(i + 1).drop_last() =~= entries.take(i as int));
            }
            if let Some(mesh) = &self.rebuild_state.entries[i].body {
                let ghost more = body_meshes(entries.take(i + 1));
                assert(more =~= meshes.push(*mesh)) by {
                    reveal(Seq::filter);
                    assert(more =~= entries.take(i as int).filter(wanted).push(
                        entries[i as int],
                    ).map_values(mesh_of));
                }
                assert(more.drop_last() =~= meshes);
                if let Some(own) = mesh.bounding_box(min, max) {
                    assert(is_mesh_box(*min, *max, *mesh, own));
                    corners = match corners {
                        None => Some(own),
                        Some(rest) => {
                            let low = [
                                min(&rest.0[0], &own.0[0]),
                                min(&rest.0[1], &own.0[1]),
                                min(&rest.0[2], &own.0[2]),
                            ];
                            let high = [
                                max(&rest.1[0], &own.1[0]),
                                max(&rest.1[1], &own.1[1]),
                                max(&rest.1[2], &own.1[2]),
                            ];
                            assert(encloses(*min, *max, rest, own, (low, high)));
                            Some((low, high))
                        },
                    };
                    assert(joins(*min, *max, before, own, corners));
                }
            }
            i = i + 1;
        }
        assert(entries.take(i as int) =~= entries);
        corners
    }
}

/// Everything that `part` picks from the meshes, one after the other.
pub open spec fn all_of<V, A>(
    meshes: Seq<TriMesh<V>>,
    part: spec_fn(TriMesh<V>) -> Seq<A>,
) -> Seq<A>
    decreases meshes.len(),
{
    if meshes.len() == 0 {
        seq![]
    } else {
        all_of(meshes.drop_last(), part) + part(meshes.last())
    }
}

/// The positions of all vertices.
pub open spec fn all_positions<V>(meshes: Seq<TriMesh<V>>) -> Seq<[V; 3]> {
    all_of(meshes, |m: TriMesh<V>| m.positions@)
}

/// The indices of all triangles, with those of each mesh moved on behind the
/// vertices of the meshes before it.
pub open spec fn all_indices<V>(meshes: Seq<TriMesh<V>>) -> Seq<u32>
    decreases meshes.len(),
{
    if meshes.len() == 0 {
        seq![]
    } else {
        all_indices(meshes.drop_last()) + moved_on(
            meshes.last().indices@,
            all_positions(meshes.drop_last()).len() as int,
        )
    }
}

/// All meshes in one.
pub open spec fn is_union<V>(meshes: Seq<TriMesh<V>>, mesh: TriMesh<V>) -> bool {
    &&& mesh.positions@ == all_positions(meshes)
    &&& mesh.normals@ == all_of(meshes, |m: TriMesh<V>| m.normals@)
    &&& mesh.face_ids@ == all_of(meshes, |m: TriMesh<V>| m.face_ids@)
    &&& mesh.indices@ == all_indices(meshes)
    &&& polylines(mesh.edges@) == all_of(meshes, |m: TriMesh<V>| polylines(m.edges@))
}

/// Every mesh is in order.
pub open spec fn all_wf<V>(meshes: Seq<TriMesh<V>>) -> bool {
    forall|i: int| 0 <= i < meshes.len() ==> (#[trigger] meshes[i]).wf()
}

/// The indices of every mesh can be moved on behind the vertices of the meshes
/// before it.
pub open spec fn can_join<V>(meshes: Seq<TriMesh<V>>) -> bool {
    forall|i: int|
        0 <= i < meshes.len() ==> moves_on(
            (#[trigger] meshes[i]).indices@,
            all_positions(meshes.take(i)).len() as int,
        )
}

proof fn lemma_body_prefix<V>(entries: Seq<RebuildEntry<V>>, i: int)
    requires
        0 <= i <= entries.len(),
    ensures
        ({
            let some = body_meshes(entries.take(i));
            let all = body_meshes(entries);
            some.len() <= all.len() && some == all.take(some.len() as int)
        }),
    decreases entries.len(),
{
    reveal(Seq::filter);
    if i == entries.len() {
        assert(entries.take(i) =~= entries);
        assert(body_meshes(entries) =~= body_meshes(entries).take(
            body_meshes(entries).len() as int,
        ));
    } else {
        let rest = entries.drop_last();
        lemma_body_prefix(rest, i);
        assert(rest.take(i) =~= entries.take(i));
        let wanted = |e: RebuildEntry<V>| e.body is Some;
        let mesh_of = |e: RebuildEntry<V>| e.body->Some_0;
        let some = body_meshes(entries.take(i));
        if wanted(entries.last()) {
            assert(body_meshes(entries) =~= body_meshes(rest).push(mesh_of(entries.last())));
        } else {
            assert(body_meshes(entries) =~= body_meshes(rest));
        }
        assert(body_meshes(entries).take(some.len() as int) =~= body_meshes(rest).take(
            some.len() as int,
        ));
    }
}

impl<T, V: Copy> Editor<T, V> {
    /// All bodies in one mesh, for the export. If there is no triangle, the
    /// user is told so.
    pub fn export_mesh(&mut self) -> (mesh: Option<TriMesh<V>>)
        requires
            old(self).wf(),
            can_join(body_meshes(old(self).rebuild_state.entries@)),
        ensures
            final(self).wf(),
            match mesh {
                Some(mesh) => {
                    &&& all_wf(body_meshes(old(self).rebuild_state.entries@)) ==> mesh.wf()
                    &&& is_union(body_meshes(old(self).rebuild_state.entries@), mesh)
                    &&& mesh.indices@.len() > 0
                    &&& *final(self) == *old(self)
                },
                None => {
                    &&& all_indices(body_meshes(old(self).rebuild_state.entries@)).len() == 0
                    &&& final(self).info matches Some(text)
                    &&& text@ == "Keine Bodies zum Exportieren"@
                    &&& *final(self) == (Editor { info: final(self).info, ..*old(self) })
                },
            },
    {
        let mut mesh: TriMesh<V> = TriMesh::new();
        let ghost entries = self.rebuild_state.entries@;
        let mut i: usize = 0;
        proof {
            reveal(Seq::filter);
            assert(body_meshes(entries.take(0)) =~= seq![]);
            assert(mesh.positions@ =~= seq![]);
            assert(mesh.normals@ =~= seq![]);
            assert(mesh.face_ids@ =~= seq![]);
            assert(mesh.indices@ =~= seq![]);
            assert(polylines(mesh.edges@) =~= seq![]);
            assert(is_union(body_meshes(entries.take(0)), mesh));
        }
        while i < self.rebuild_state.entries.len()
            invariant
                entries == self.rebuild_state.entries@,
                *self == *old(self),
                can_join(body_meshes(entries)),
                i <= entries.len(),
                all_wf(body_meshes(entries)) ==> mesh.wf(),
                is_union(body_meshes(entries.take(i as int)), mesh),
            decreases entries.len() - i,
        {
            let ghost some = body_meshes(entries.take(i as int));
            proof {
                reveal(Seq::filter);
                assert(entries.take(i + 1).drop_last() =~= entries.take(i as int));
            }
            if let Some(body) = &self.rebuild_state.entries[i].body {
                let ghost more = body_meshes(entries.take(i + 1));
                proof {
                    let wanted = |e: RebuildEntry<V>| e.body is Some;
                    let mesh_of = |e: RebuildEntry<V>| e.body->Some_0;
                    assert(more =~= entries.take(i as int).filter(wanted).push(
                        entries[i as int],
                    ).map_values(mesh_of));
                    assert(more =~= some.push(*body));
                    assert(more.drop_last() =~= some);
                    lemma_body_prefix(entries, i + 1);
                    lemma_body_prefix(entries, i as int);
                    assert(body_meshes(entries)[some.len() as int] == more[some.len() as int]);
                    assert(body_meshes(entries).take(some.len() as int) == some);
                }
                mesh.merge(body);
                assert(is_union(more, mesh));
            }
            i = i + 1;
        }
        assert(entries.take(i as int) =~= entries);
        if mesh.indices.len() == 0 {
            self.info = Some(text("Keine Bodies zum Exportieren"));
            None
        } else {
            Some(mesh)
        }
    }
}

} // verus!
