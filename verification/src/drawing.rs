//! What is drawn of a sketch while it is edited.
use vstd::prelude::*;

use crate::arith::{compares_all, evaluates_all};
use crate::expr::Expr;
use crate::ids::{DimensionId, EntityId, PointId};
use crate::input::Hover;
use crate::session::{
    DimLayout, Selected, SketchSession, SketchTool, distance_of, has_layout, is_distance, is_layout, place_of,
};
use crate::sketch::{Sketch, SketchEntity, SketchView, attached};
use crate::slots::{in_slot_order, slot_order};

verus! {

/// How something stands out.
#[derive(Debug, Clone, Copy, PartialEq, Eq, Structural)]
pub enum Emphasis {
    /// Not at all.
    Plain,
    /// The cursor is over it.
    Hovered,
    /// It is selected.
    Selected,
}

/// Something to draw, in the coordinates of the plane.
#[derive(Debug, Clone, Copy, PartialEq)]
pub enum Mark<T> {
    /// A line of the sketch.
    Line {
        /// The first end.
        from: [T; 2],
        /// The second end.
        to: [T; 2],
        /// How it stands out.
        emphasis: Emphasis,
    },
    /// A circle of the sketch.
    Circle {
        /// The centre.
        center: [T; 2],
        /// The radius.
        radius: T,
        /// How it stands out.
        emphasis: Emphasis,
    },
    /// A dimension.
    Dimension {
        /// Its lines and its label.
        layout: DimLayout<T>,
        /// How it stands out.
        emphasis: Emphasis,
    },
    /// A point of the sketch.
    Point {
        /// Its position.
        pos: [T; 2],
        /// How it stands out.
        emphasis: Emphasis,
    },
    /// The line that the next click would draw.
    PreviewLine {
        /// The first end.
        from: [T; 2],
        /// The second end.
        to: [T; 2],
    },
    /// The circle that the next click would draw.
    PreviewCircle {
        /// The centre.
        center: [T; 2],
        /// The radius.
        radius: T,
    },
    /// The place that the cursor snaps to.
    Snap {
        /// The place.
        pos: [T; 2],
    },
}

/// Something stands out if it is selected.
pub open spec fn emphasis_of(selection: Seq<Selected>, item: Selected) -> Emphasis {
    if selection.contains(item) {
        Emphasis::Selected
    } else {
        Emphasis::Plain
    }
}

/// A dimension stands out if it is selected or the cursor is over it.
pub open spec fn dimension_emphasis(
    selection: Seq<Selected>,
    id: DimensionId,
    dim_hit: Option<DimensionId>,
) -> Emphasis {
    if selection.contains(Selected::Dimension(id)) {
        Emphasis::Selected
    } else if dim_hit == Some(id) {
        Emphasis::Hovered
    } else {
        Emphasis::Plain
    }
}

/// How an entity is drawn.
pub open spec fn entity_mark<T>(view: SketchView<T>, selection: Seq<Selected>, key: u64) -> Mark<
    T,
> {
    let emphasis = emphasis_of(selection, Selected::Entity(EntityId { raw: key }));
    match view.entities[key] {
        SketchEntity::Line { p1, p2 } => Mark::Line {
            from: view.position(p1),
            to: view.position(p2),
            emphasis,
        },
        SketchEntity::Circle { center, radius } => Mark::Circle {
            center: view.position(center),
            radius: view.vars[radius.index as int],
            emphasis,
        },
    }
}

/// How all entities are drawn, in slot order.
pub open spec fn all_entity_marks<T>(view: SketchView<T>, selection: Seq<Selected>) -> Seq<
    Mark<T>,
> {
    slot_order(view.entities.dom()).map_values(|k: u64| entity_mark(view, selection, k))
}

/// How all points are drawn, in slot order.
pub open spec fn all_point_marks<T>(view: SketchView<T>, selection: Seq<Selected>) -> Seq<Mark<T>> {
    slot_order(view.points.dom()).map_values(
        |k: u64|
            Mark::Point {
                pos: view.position(PointId { raw: k }),
                emphasis: emphasis_of(selection, Selected::Point(PointId { raw: k })),
            },
    )
}

/// The keys of the dimensions that measure something.
pub open spec fn drawn_dimensions<T>(view: SketchView<T>, keys: Seq<u64>) -> Seq<u64> {
    keys.filter(|k: u64| has_layout(view, DimensionId { raw: k }))
}

/// `mark` draws the dimension under a key.
pub open spec fn is_dimension_mark<T, E: Fn(&Expr<T>, &Vec<T>) -> T, L: Fn(&T, &T) -> bool>(
    eval: E,
    less: L,
    view: SketchView<T>,
    selection: Seq<Selected>,
    dim_hit: Option<DimensionId>,
    key: u64,
    mark: Mark<T>,
) -> bool {
    let id = DimensionId { raw: key };
    &&& mark matches Mark::Dimension { layout, emphasis }
    &&& is_layout(view, eval, less, id, layout)
    &&& emphasis == dimension_emphasis(selection, id, dim_hit)
}

/// `marks` draw all dimensions that measure something, in slot order.
pub open spec fn are_dimension_marks<T, E: Fn(&Expr<T>, &Vec<T>) -> T, L: Fn(&T, &T) -> bool>(
    eval: E,
    less: L,
    view: SketchView<T>,
    selection: Seq<Selected>,
    dim_hit: Option<DimensionId>,
    marks: Seq<Mark<T>>,
) -> bool {
    let keys = drawn_dimensions(view, slot_order(view.dimensions.dom()));
    &&& marks.len() == keys.len()
    &&& forall|i: int|
        0 <= i < keys.len() ==> is_dimension_mark(
            eval,
            less,
            view,
            selection,
            dim_hit,
            keys[i],
            #[trigger] marks[i],
        )
}

/// `marks` draw what the next click would: a line to the place that the cursor
/// snaps to, or a circle through the cursor and its radius.
pub open spec fn are_preview_marks<T, E: Fn(&Expr<T>, &Vec<T>) -> T>(
    eval: E,
    tool: SketchTool<T>,
    mouse: Option<[T; 2]>,
    snap: Option<(PointId, [T; 2])>,
    marks: Seq<Mark<T>>,
) -> bool {
    match (mouse, tool) {
        (Some(pos), SketchTool::Line { start: Some(s) }) => {
            let to = match snap {
                Some((_, place)) => place,
                None => pos,
            };
            marks == seq![Mark::PreviewLine { from: s.pos, to }]
        },
        (Some(pos), SketchTool::Circle { center: Some(c) }) => is_preview_circle(
            eval,
            c.pos,
            pos,
            marks,
        ),
        _ => marks.len() == 0,
    }
}

/// `marks` draw a circle with a centre through a place, and the line from the
/// centre to the place.
pub open spec fn is_preview_circle<T, E: Fn(&Expr<T>, &Vec<T>) -> T>(
    eval: E,
    center: [T; 2],
    pos: [T; 2],
    marks: Seq<Mark<T>>,
) -> bool {
    exists|radius: T| #[trigger]
        is_distance(eval, center, pos, radius) && marks == seq![
            Mark::PreviewCircle { center, radius },
            Mark::PreviewLine { from: center, to: pos },
        ]
}

/// The marker at the place that the cursor snaps to.
pub open spec fn snap_marks<T>(snap: Option<(PointId, [T; 2])>) -> Seq<Mark<T>> {
    match snap {
        Some((_, pos)) => seq![Mark::Snap { pos }],
        None => seq![],
    }
}

/// `marks` draw a session: the entities, above them the dimensions, then the
/// points, the preview, and the place that the cursor snaps to.
pub open spec fn is_drawing<T, E: Fn(&Expr<T>, &Vec<T>) -> T, L: Fn(&T, &T) -> bool>(
    eval: E,
    less: L,
    session: SketchSession<T>,
    mouse: Option<[T; 2]>,
    hover: Hover<T>,
    marks: Seq<Mark<T>>,
) -> bool {
    let view = session.sketch@;
    let selection = session.selection@;
    exists|dims: Seq<Mark<T>>, preview: Seq<Mark<T>>|
        {
            &&& #[trigger] are_dimension_marks(eval, less, view, selection, hover.dim_hit, dims)
            &&& #[trigger] are_preview_marks(eval, session.tool, mouse, hover.snap, preview)
            &&& marks == all_entity_marks(view, selection) + dims + all_point_marks(view, selection)
                + preview + snap_marks(hover.snap)
        }
}

fn find_emphasis(selection: &Vec<Selected>, item: Selected) -> (emphasis: Emphasis)
    ensures
        emphasis == emphasis_of(selection@, item),
{
    match place_of(selection, item) {
        Some(i) => {
            assert(selection@[i as int] == item);
            Emphasis::Selected
        },
        None => Emphasis::Plain,
    }
}

/// How the entities of a sketch are drawn, in slot order.
pub fn entity_marks<T: Copy>(sketch: &Sketch<T>, selection: &Vec<Selected>) -> (marks: Vec<Mark<T>>)
    requires
        sketch.wf(),
        sketch@.linked(),
    ensures
        marks@ == all_entity_marks(sketch@, selection@),
{
    let list = sketch.entities();
    let ghost keys = slot_order(sketch@.entities.dom());
    let mut marks: Vec<Mark<T>> = Vec::new();
    let mut i: usize = 0;
    while i < list.len()
        invariant
            sketch.wf(),
            sketch@.linked(),
            keys == slot_order(sketch@.entities.dom()),
            in_slot_order(keys, sketch@.entities.dom()),
            list@ == keys.map_values(|k: u64| (EntityId { raw: k }, sketch@.entities[k])),
            i <= list@.len(),
            marks@.len() == i,
            forall|j: int|
                0 <= j < i ==> #[trigger] marks@[j] == entity_mark(sketch@, selection@, keys[j]),
        decreases list@.len() - i,
    {
        let (id, entity) = list[i];
        assert(id.raw == keys[i as int] && entity == sketch@.entities[keys[i as int]]);
        assert(keys.contains(keys[i as int]));
        assert(sketch@.entities.contains_key(id.raw));
        let emphasis = find_emphasis(selection, Selected::Entity(id));
        match entity {
            SketchEntity::Line { p1, p2 } => {
                assert(attached(entity, p1) && attached(entity, p2));
                let from = sketch.point_pos(p1);
                let to = sketch.point_pos(p2);
                marks.push(Mark::Line { from, to, emphasis });
            },
            SketchEntity::Circle { center, .. } => {
                assert(attached(entity, center));
                if let Some(radius) = sketch.circle_radius(id) {
                    marks.push(Mark::Circle { center: sketch.point_pos(center), radius, emphasis });
                }
            },
        }
        i = i + 1;
    }
    assert(marks@ =~= all_entity_marks(sketch@, selection@));
    marks
}

impl<T: Copy> SketchSession<T> {
    fn point_marks(&self) -> (marks: Vec<Mark<T>>)
        requires
            self.sketch.wf(),
            self.sketch@.readable(),
        ensures
            marks@ == all_point_marks(self.sketch@, self.selection@),
    {
        let list = self.sketch.points();
        let ghost keys = slot_order(self.sketch@.points.dom());
        let mut marks: Vec<Mark<T>> = Vec::new();
        let mut i: usize = 0;
        while i < list.len()
            invariant
                keys == slot_order(self.sketch@.points.dom()),
                list@.len() == keys.len(),
                forall|j: int|
                    0 <= j < list@.len() ==> (#[trigger] list@[j]).0.raw == keys[j] && list@[j].1
                        == self.sketch@.position(list@[j].0),
                i <= list@.len(),
                marks@.len() == i,
                forall|j: int|
                    0 <= j < i ==> #[trigger] marks@[j] == (Mark::Point {
                        pos: self.sketch@.position(PointId { raw: keys[j] }),
                        emphasis: emphasis_of(
                            self.selection@,
                            Selected::Point(PointId { raw: keys[j] }),
                        ),
                    }),
            decreases list@.len() - i,
        {
            let (id, pos) = list[i];
            let emphasis = find_emphasis(&self.selection, Selected::Point(id));
            marks.push(Mark::Point { pos, emphasis });
            i = i + 1;
        }
        assert(marks@ =~= all_point_marks(self.sketch@, self.selection@));
        marks
    }

    fn dimension_marks<E: Fn(&Expr<T>, &Vec<T>) -> T, L: Fn(&T, &T) -> bool>(
        &self,
        dim_hit: Option<DimensionId>,
        eval: &E,
        less: &L,
    ) -> (marks: Vec<Mark<T>>)
        requires
            self.sketch.wf(),
            self.sketch@.linked(),
            evaluates_all(*eval),
            compares_all(*less),
        ensures
            are_dimension_marks(*eval, *less, self.sketch@, self.selection@, dim_hit, marks@),
    {
        let list = self.sketch.dimensions();
        let ghost keys = slot_order(self.sketch@.dimensions.dom());
        let ghost drawn = |k: u64| has_layout(self.sketch@, DimensionId { raw: k });
        let mut marks: Vec<Mark<T>> = Vec::new();
        let mut i: usize = 0;
        proof {
            reveal(Seq::filter);
            assert(drawn_dimensions(self.sketch@, keys.take(0)) =~= seq![]);
        }
        while i < list.len()
            invariant
                self.sketch.wf(),
                self.sketch@.linked(),
                evaluates_all(*eval),
                compares_all(*less),
                drawn == (|k: u64| has_layout(self.sketch@, DimensionId { raw: k })),
                keys == slot_order(self.sketch@.dimensions.dom()),
                in_slot_order(keys, self.sketch@.dimensions.dom()),
                list@ == keys.map_values(
                    |k: u64| (DimensionId { raw: k }, self.sketch@.dimensions[k]),
                ),
                i <= list@.len(),
                marks@.len() == drawn_dimensions(self.sketch@, keys.take(i as int)).len(),
                forall|j: int|
                    0 <= j < marks@.len() ==> is_dimension_mark(
                        *eval,
                        *less,
                        self.sketch@,
                        self.selection@,
                        dim_hit,
                        drawn_dimensions(self.sketch@, keys.take(i as int))[j],
                        #[trigger] marks@[j],
                    ),
            decreases list@.len() - i,
        {
            let (id, _) = list[i];
            assert(id.raw == keys[i as int]);
            assert(keys.contains(keys[i as int]));
            assert(self.sketch@.dimensions.contains_key(id.raw));
            proof {
                reveal(Seq::filter);
                assert(keys.take(i + 1).drop_last() =~= keys.take(i as int));
                assert(keys.take(i + 1).last() == keys[i as int]);
            }
            if let Some(layout) = self.dim_layout(id, eval, less) {
                let emphasis = match find_emphasis(&self.selection, Selected::Dimension(id)) {
                    Emphasis::Plain => match dim_hit {
                        Some(hit) => if hit == id {
                            Emphasis::Hovered
                        } else {
                            Emphasis::Plain
                        },
                        None => Emphasis::Plain,
                    },
                    other => other,
                };
                marks.push(Mark::Dimension { layout, emphasis });
            }
            i = i + 1;
        }
        assert(keys.take(i as int) =~= keys);
        marks
    }

    fn preview_marks<E: Fn(&Expr<T>, &Vec<T>) -> T>(
        &self,
        mouse: Option<[T; 2]>,
        snap: Option<(PointId, [T; 2])>,
        eval: &E,
    ) -> (marks: Vec<Mark<T>>)
        requires
            evaluates_all(*eval),
        ensures
            are_preview_marks(*eval, self.tool, mouse, snap, marks@),
    {
        let mut marks: Vec<Mark<T>> = Vec::new();
        match (mouse, self.tool) {
            (Some(pos), SketchTool::Line { start: Some(s) }) => {
                let to = match snap {
                    Some((_, place)) => place,
                    None => pos,
                };
                marks.push(Mark::PreviewLine { from: s.pos, to });
            },
            (Some(pos), SketchTool::Circle { center: Some(c) }) => {
                let radius = distance_of(eval, c.pos, pos);
                marks.push(Mark::PreviewCircle { center: c.pos, radius });
                marks.push(Mark::PreviewLine { from: c.pos, to: pos });
                assert(is_distance(*eval, c.pos, pos, radius));
                assert(marks@ =~= seq![
                    Mark::PreviewCircle { center: c.pos, radius },
                    Mark::PreviewLine { from: c.pos, to: pos },
                ]);
            },
            _ => {},
        }
        marks
    }

    /// What is drawn of the session, from the bottom to the top.
    pub fn drawing<E: Fn(&Expr<T>, &Vec<T>) -> T, L: Fn(&T, &T) -> bool>(
        &self,
        mouse: Option<[T; 2]>,
        hover: Hover<T>,
        eval: &E,
        less: &L,
    ) -> (marks: Vec<Mark<T>>)
        requires
            self.wf(),
            evaluates_all(*eval),
            compares_all(*less),
        ensures
            is_drawing(*eval, *less, *self, mouse, hover, marks@),
    {
        let mut marks = entity_marks(&self.sketch, &self.selection);
        let mut dims = self.dimension_marks(hover.dim_hit, eval, less);
        let mut points = self.point_marks();
        let mut preview = self.preview_marks(mouse, hover.snap, eval);
        let ghost dims_drawn = dims@;
        let ghost preview_drawn = preview@;
        marks.append(&mut dims);
        marks.append(&mut points);
        marks.append(&mut preview);
        if let Some((_, pos)) = hover.snap {
            marks.push(Mark::Snap { pos });
        }
        assert(are_dimension_marks(
            *eval,
            *less,
            self.sketch@,
            self.selection@,
            hover.dim_hit,
            dims_drawn,
        ));
        assert(are_preview_marks(*eval, self.tool, mouse, hover.snap, preview_drawn));
        assert(marks@ =~= all_entity_marks(self.sketch@, self.selection@) + dims_drawn
            + all_point_marks(self.sketch@, self.selection@) + preview_drawn + snap_marks(
            hover.snap,
        ));
        marks
    }
}

} // verus!
