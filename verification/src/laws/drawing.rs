//! Laws of how a sketch is drawn.
use vstd::prelude::*;

use crate::constraint::dist_sq;
use crate::drawing::{
    Emphasis, Mark, all_entity_marks, all_point_marks, are_dimension_marks, are_preview_marks,
    drawn_dimensions, entity_mark, is_dimension_mark, is_drawing, is_preview_circle, snap_marks,
};
use crate::expr::Expr;
use crate::ids::{DimensionId, EntityId, PointId};
use crate::input::Hover;
use crate::laws::history::lemma_filter_places;
use crate::laws::interaction::lemma_distance;
use crate::session::{
    Selected, SketchSession, SketchTool, clicked_point, has_layout, is_distance, is_layout,
};
use crate::sketch::{SketchEntity, SketchView};
use crate::slots::slot_order;
use crate::solver::exact;

verus! {

/// It stands out exactly if it is selected.
pub open spec fn shows_selection(
    selection: Seq<Selected>,
    item: Selected,
    emphasis: Emphasis,
) -> bool {
    &&& emphasis is Selected <==> selection.contains(item)
    &&& emphasis is Plain <==> !selection.contains(item)
}

/// The mark draws the entity where its points are.
pub open spec fn draws_entity<T>(
    view: SketchView<T>,
    selection: Seq<Selected>,
    k: u64,
    mark: Mark<T>,
) -> bool {
    let item = Selected::Entity(EntityId { raw: k });
    &&& view.entities.contains_key(k)
    &&& match (view.entities[k], mark) {
        (SketchEntity::Line { p1, p2 }, Mark::Line { from, to, emphasis }) => {
            &&& from[0] == view.vars[view.points[p1.raw].x.index as int]
            &&& from[1] == view.vars[view.points[p1.raw].y.index as int]
            &&& to[0] == view.vars[view.points[p2.raw].x.index as int]
            &&& to[1] == view.vars[view.points[p2.raw].y.index as int]
            &&& shows_selection(selection, item, emphasis)
        },
        (
            SketchEntity::Circle { center: c, radius: r },
            Mark::Circle { center, radius, emphasis },
        ) => {
            &&& center[0] == view.vars[view.points[c.raw].x.index as int]
            &&& center[1] == view.vars[view.points[c.raw].y.index as int]
            &&& radius == view.vars[r.index as int]
            &&& shows_selection(selection, item, emphasis)
        },
        _ => false,
    }
}

/// The mark draws the point where it is.
pub open spec fn draws_point<T>(
    view: SketchView<T>,
    selection: Seq<Selected>,
    k: u64,
    mark: Mark<T>,
) -> bool {
    &&& view.points.contains_key(k)
    &&& mark matches Mark::Point { pos, emphasis }
    &&& pos[0] == view.vars[view.points[k].x.index as int]
    &&& pos[1] == view.vars[view.points[k].y.index as int]
    &&& shows_selection(selection, Selected::Point(PointId { raw: k }), emphasis)
}

/// The mark draws the dimension, standing out if it is selected or under the
/// cursor.
pub open spec fn draws_dimension<T, E: Fn(&Expr<T>, &Vec<T>) -> T, L: Fn(&T, &T) -> bool>(
    eval: E,
    less: L,
    view: SketchView<T>,
    selection: Seq<Selected>,
    hit: Option<DimensionId>,
    k: u64,
    mark: Mark<T>,
) -> bool {
    let id = DimensionId { raw: k };
    let chosen = selection.contains(Selected::Dimension(id));
    &&& has_layout(view, id)
    &&& mark matches Mark::Dimension { layout, emphasis }
    &&& is_layout(view, eval, less, id, layout)
    &&& emphasis is Selected <==> chosen
    &&& emphasis is Hovered <==> !chosen && hit == Some(id)
}

/// Everything in a sketch is drawn where it is, and stands out exactly if it is
/// selected; a dimension also if the cursor is over it. Nothing else of
/// the sketch is drawn.
#[verifier::rlimit(40)]
pub proof fn lemma_drawing<T: Copy, E: Fn(&Expr<T>, &Vec<T>) -> T, L: Fn(&T, &T) -> bool>(
    eval: E,
    less: L,
    session: SketchSession<T>,
    mouse: Option<[T; 2]>,
    hover: Hover<T>,
    marks: Seq<Mark<T>>,
)
    requires
        session.wf(),
        is_drawing(eval, less, session, mouse, hover, marks),
    ensures
        ({
            let view = session.sketch@;
            let selection = session.selection@;
            &&& forall|k: u64| #[trigger]
                view.entities.contains_key(k) ==> exists|i: int|
                    0 <= i < marks.len() && draws_entity(view, selection, k, #[trigger] marks[i])
            &&& forall|k: u64| #[trigger]
                view.points.contains_key(k) ==> exists|i: int|
                    0 <= i < marks.len() && draws_point(view, selection, k, #[trigger] marks[i])
            &&& forall|k: u64| #[trigger]
                has_layout(view, DimensionId { raw: k }) ==> exists|i: int|
                    0 <= i < marks.len() && draws_dimension(
                        eval,
                        less,
                        view,
                        selection,
                        hover.dim_hit,
                        k,
                        #[trigger] marks[i],
                    )
            &&& forall|i: int|
                0 <= i < marks.len() ==> match #[trigger] marks[i] {
                    Mark::Line { .. } | Mark::Circle { .. } => exists|k: u64| #[trigger]
                        draws_entity(view, selection, k, marks[i]),
                    Mark::Point { .. } => exists|k: u64| #[trigger]
                        draws_point(view, selection, k, marks[i]),
                    Mark::Dimension { .. } => exists|k: u64| #[trigger]
                        draws_dimension(
                            eval,
                            less,
                            view,
                            selection,
                            hover.dim_hit,
                            k,
                            marks[i],
                        ),
                    Mark::Snap { pos } => hover.snap matches Some((_, place)) && pos == place,
                    _ => session.tool.pending() is Some && mouse is Some,
                }
        }),
{
    let view = session.sketch@;
    let selection = session.selection@;
    session.sketch.lemma_orders();
    let (dims, preview) = choose|dims: Seq<Mark<T>>, preview: Seq<Mark<T>>|
        {
            &&& #[trigger] are_dimension_marks(eval, less, view, selection, hover.dim_hit, dims)
            &&& #[trigger] are_preview_marks(eval, session.tool, mouse, hover.snap, preview)
            &&& marks == all_entity_marks(view, selection) + dims + all_point_marks(view, selection)
                + preview + snap_marks(hover.snap)
        };
    let entities = all_entity_marks(view, selection);
    let points = all_point_marks(view, selection);
    let snaps = snap_marks(hover.snap);
    let e_keys = slot_order(view.entities.dom());
    let p_keys = slot_order(view.points.dom());
    let all = slot_order(view.dimensions.dom());
    let wanted = |k: u64| has_layout(view, DimensionId { raw: k });
    let d_keys = drawn_dimensions(view, all);
    let places = lemma_filter_places(all, wanted);
    let (n, m, l) = (entities.len() as int, dims.len() as int, points.len() as int);
    assert forall|i: int| 0 <= i < n implies marks[i] == entities[i] && draws_entity(
        view,
        selection,
        e_keys[i],
        #[trigger] entities[i],
    ) by {
        assert(e_keys.contains(e_keys[i]));
        assert(view.entities.dom().contains(e_keys[i]));
        assert(entities[i] == entity_mark(view, selection, e_keys[i]));
    }
    assert forall|i: int| 0 <= i < m implies marks[n + i] == dims[i] && draws_dimension(
        eval,
        less,
        view,
        selection,
        hover.dim_hit,
        d_keys[i],
        #[trigger] dims[i],
    ) by {
        assert(wanted(all[places[i]]));
        assert(is_dimension_mark(
            eval,
            less,
            view,
            selection,
            hover.dim_hit,
            d_keys[i],
            dims[i],
        ));
    }
    assert forall|i: int| 0 <= i < l implies marks[n + m + i] == points[i] && draws_point(
        view,
        selection,
        p_keys[i],
        #[trigger] points[i],
    ) by {
        assert(p_keys.contains(p_keys[i]));
        assert(view.points.dom().contains(p_keys[i]));
    }
    assert forall|k: u64| #[trigger] view.entities.contains_key(k) implies exists|i: int|
        0 <= i < marks.len() && draws_entity(view, selection, k, #[trigger] marks[i]) by {
        assert(view.entities.dom().contains(k));
        assert(e_keys.contains(k));
        let i = choose|i: int| 0 <= i < e_keys.len() && e_keys[i] == k;
        assert(draws_entity(view, selection, e_keys[i], entities[i]));
        assert(draws_entity(view, selection, k, marks[i]));
    }
    assert forall|k: u64| #[trigger] view.points.contains_key(k) implies exists|i: int|
        0 <= i < marks.len() && draws_point(view, selection, k, #[trigger] marks[i]) by {
        assert(view.points.dom().contains(k));
        assert(p_keys.contains(k));
        let i = choose|i: int| 0 <= i < p_keys.len() && p_keys[i] == k;
        assert(draws_point(view, selection, p_keys[i], points[i]));
        assert(draws_point(view, selection, k, marks[n + m + i]));
    }
    assert forall|k: u64| #[trigger] has_layout(view, DimensionId { raw: k }) implies exists|i: int|
        0 <= i < marks.len() && draws_dimension(
            eval,
            less,
            view,
            selection,
            hover.dim_hit,
            k,
            #[trigger] marks[i],
        ) by {
        assert(view.dimensions.dom().contains(k));
        assert(all.contains(k));
        let t = choose|t: int| 0 <= t < all.len() && all[t] == k;
        assert(wanted(all[t]));
        assert(places.contains(t));
        let i = choose|i: int| 0 <= i < places.len() && places[i] == t;
        assert(d_keys[i] == k);
        assert(marks[n + i] == dims[i]);
    }
    assert forall|i: int| 0 <= i < marks.len() implies match #[trigger] marks[i] {
        Mark::Line { .. } | Mark::Circle { .. } => exists|k: u64| #[trigger]
            draws_entity(view, selection, k, marks[i]),
        Mark::Point { .. } => exists|k: u64| #[trigger]
            draws_point(view, selection, k, marks[i]),
        Mark::Dimension { .. } => exists|k: u64| #[trigger]
            draws_dimension(eval, less, view, selection, hover.dim_hit, k, marks[i]),
        Mark::Snap { pos } => hover.snap matches Some((_, place)) && pos == place,
        _ => session.tool.pending() is Some && mouse is Some,
    } by {
        if i < n {
            assert(draws_entity(view, selection, e_keys[i], entities[i]));
        } else if i < n + m {
            assert(marks[n + (i - n)] == dims[i - n]);
        } else if i < n + m + l {
            assert(marks[n + m + (i - n - m)] == points[i - n - m]);
            assert(draws_point(view, selection, p_keys[i - n - m], points[i - n - m]));
        } else if i < n + m + l + preview.len() {
            let j = i - n - m - l;
            assert(marks[i] == preview[j]);
        } else {
            assert(marks[i] == snaps[i - n - m - l - preview.len()]);
        }
    }
}

/// What is shown before the second click is what that click would draw: the line
/// from the first place to the place that the click means, or the circle around
/// the first place through the cursor. With exact arithmetic; `far` is how far
/// the cursor is from the centre.
pub proof fn lemma_preview<T, E: Fn(&Expr<T>, &Vec<T>) -> T, L: Fn(&T, &T) -> bool>(
    num: spec_fn(T) -> real,
    eval: E,
    less: L,
    tool: SketchTool<T>,
    pos: [T; 2],
    snap: Option<(PointId, [T; 2])>,
    marks: Seq<Mark<T>>,
    far: real,
)
    requires
        exact(num, eval, less),
        are_preview_marks(eval, tool, Some(pos), snap, marks),
        far >= 0real,
        tool matches SketchTool::Circle { center: Some(c) } ==> far * far == dist_sq(
            num(c.pos[0]),
            num(c.pos[1]),
            num(pos[0]),
            num(pos[1]),
        ),
    ensures
        match tool {
            SketchTool::Line { start: Some(s) } => {
                &&& marks.len() == 1
                &&& marks[0] matches Mark::PreviewLine { from, to }
                &&& from == s.pos
                &&& to == clicked_point(pos, snap).pos
            },
            SketchTool::Circle { center: Some(c) } => {
                &&& marks.len() == 2
                &&& marks[0] matches Mark::PreviewCircle { center, radius }
                &&& center == c.pos
                &&& num(radius) == far
                &&& marks[1] matches Mark::PreviewLine { from, to }
                &&& from == c.pos
                &&& to == pos
            },
            _ => marks.len() == 0,
        },
        snap matches Some((id, place)) ==> clicked_point(pos, snap).existing == Some(id)
            && clicked_point(pos, snap).pos == place,
        snap is None ==> clicked_point(pos, snap).existing is None && clicked_point(pos, snap).pos
            == pos,
{
    if let SketchTool::Circle { center: Some(c) } = tool {
        assert(is_preview_circle(eval, c.pos, pos, marks));
        let radius = choose|radius: T| #[trigger]
            is_distance(eval, c.pos, pos, radius) && marks == seq![
                Mark::PreviewCircle { center: c.pos, radius },
                Mark::PreviewLine { from: c.pos, to: pos },
            ];
        lemma_distance(num, eval, less, c.pos, pos, radius, far);
    }
}

} // verus!
