//! The input of one frame while a sketch is edited.
use vstd::prelude::*;

use crate::arith::{Order, orders_all};
use crate::expr::Expr;
use crate::ids::{DimensionId, PointId};
use crate::session::{
    DimLayout, SketchSession, begins_drag, clicks, deletes, drags_to, ends_drag, escapes,
    is_dimension_at, snaps_to,
};
use crate::slots::MAX_SLOTS;
use crate::solver::{Factors, SolverOps, ops_usable};

verus! {

/// What the mouse and the keys did in one frame.
pub struct ViewportInput<T> {
    /// Where the cursor is on the plane of the sketch, if it is over it.
    pub mouse: Option<[T; 2]>,
    /// How near a point has to be for the cursor to snap to it or grab it.
    pub snap_radius: T,
    /// How near something has to be for a click to pick it.
    pub select_tol: T,
    /// How near a dimension has to be for the cursor to be over it.
    pub dim_tol: T,
    /// The button went down, and the cursor moved.
    pub drag_started: bool,
    /// The cursor moved with the button down.
    pub dragged: bool,
    /// The button went up after such a move.
    pub drag_stopped: bool,
    /// The button went down and up in one place.
    pub clicked: bool,
    /// The shift key is down.
    pub shift: bool,
    /// The escape key was pressed.
    pub escape: bool,
    /// The delete key was pressed.
    pub delete: bool,
}

/// What is under the cursor.
#[derive(Debug, Clone, Copy, PartialEq)]
pub struct Hover<T> {
    /// The point that the cursor snaps to.
    pub snap: Option<(PointId, [T; 2])>,
    /// The dimension.
    pub dim_hit: Option<DimensionId>,
}

/// What is under the cursor, before the input changes anything.
pub open spec fn is_hover<
    T,
    E: Fn(&Expr<T>, &Vec<T>) -> T,
    L: Fn(&T, &T) -> bool,
    M: Fn(&T, &T) -> bool,
    Q: Fn(&T) -> i64,
    W: Fn(&DimLayout<T>) -> T,
>(
    eval: E,
    less: L,
    order: Order<M, Q>,
    dim_distance: W,
    session: SketchSession<T>,
    input: ViewportInput<T>,
    hover: Hover<T>,
) -> bool {
    &&& snaps_to(eval, order, session, input.mouse, input.snap_radius, hover.snap)
    &&& match input.mouse {
        Some(_) => is_dimension_at(
            session.sketch@,
            input.dim_tol,
            eval,
            less,
            dim_distance,
            order,
            hover.dim_hit,
        ),
        None => hover.dim_hit is None,
    }
}

/// `steps` are the session before the input and after each of its parts, in
/// the order in which they are taken: the drag begins, goes on and ends, the
/// click, the escape key, the delete key. A part that did not happen, or that
/// needs to know where the cursor is and does not, changes nothing.
pub open spec fn takes_input<
    T,
    E: Fn(&Expr<T>, &Vec<T>) -> T,
    L: Fn(&T, &T) -> bool,
    F: Fn(&Vec<Vec<T>>) -> Option<Factors<T>>,
    M: Fn(&T, &T) -> bool,
    Q: Fn(&T) -> i64,
>(
    ops: SolverOps<E, L, F>,
    order: Order<M, Q>,
    input: ViewportInput<T>,
    hover: Hover<T>,
    steps: Seq<SketchSession<T>>,
) -> bool {
    &&& steps.len() == 7
    &&& if input.drag_started {
        begins_drag(
            ops.eval,
            order,
            steps[0],
            input.mouse,
            input.snap_radius,
            hover.dim_hit,
            steps[1],
        )
    } else {
        steps[1] == steps[0]
    }
    &&& match input.mouse {
        Some(pos) if input.dragged => drags_to(ops, steps[1], pos, steps[2]),
        _ => steps[2] == steps[1],
    }
    &&& if input.drag_stopped {
        ends_drag(ops, steps[2], steps[3])
    } else {
        steps[3] == steps[2]
    }
    &&& match input.mouse {
        Some(pos) if input.clicked => clicks(
            ops.eval,
            ops.less,
            order,
            steps[3],
            pos,
            hover.snap,
            hover.dim_hit,
            input.select_tol,
            input.shift,
            steps[4],
        ),
        _ => steps[4] == steps[3],
    }
    &&& if input.escape {
        escapes(steps[4], steps[5])
    } else {
        steps[5] == steps[4]
    }
    &&& if input.delete {
        deletes(steps[5], steps[6])
    } else {
        steps[6] == steps[5]
    }
}

impl<T: Copy> SketchSession<T> {
    /// Takes the input of one frame, and says what was under the cursor.
    /// `dim_distance` is how far the cursor is from a dimension, by how it is
    /// drawn.
    pub fn handle_viewport<
        E: Fn(&Expr<T>, &Vec<T>) -> T,
        L: Fn(&T, &T) -> bool,
        F: Fn(&Vec<Vec<T>>) -> Option<Factors<T>>,
        M: Fn(&T, &T) -> bool,
        Q: Fn(&T) -> i64,
        W: Fn(&DimLayout<T>) -> T,
    >(
        &mut self,
        input: &ViewportInput<T>,
        ops: &SolverOps<E, L, F>,
        order: &Order<M, Q>,
        dim_distance: &W,
    ) -> (hover: Hover<T>)
        requires
            old(self).wf(),
            ops_usable::<T, E, L, F>(*ops),
            orders_all(*order),
            forall|layout: &DimLayout<T>| #[trigger] call_requires(dim_distance, (layout,)),
            input.clicked && old(self).tool !is Select ==> old(self).sketch@.points.len() + 1 < MAX_SLOTS
                && old(self).sketch@.entities.len() < MAX_SLOTS,
        ensures
            final(self).wf(),
            is_hover(ops.eval, ops.less, *order, *dim_distance, *old(self), *input, hover),
            exists|steps: Seq<SketchSession<T>>| #[trigger]
                takes_input(*ops, *order, *input, hover, steps) && steps[0] == *old(self)
                    && steps[6] == *final(self) && (!(input.delete && steps[5].sketch.is_worn())
                    ==> old(self).sketch.keeps_ids(final(self).sketch)),
    {
        let ghost s0 = *self;
        proof {
            self.sketch.lemma_keeps_ids_here();
        }
        let dim_hit = match input.mouse {
            Some(_) => self.dimension_at(
                input.dim_tol,
                &ops.eval,
                &ops.less,
                dim_distance,
                order,
            ),
            None => None,
        };
        let snap = self.snap(input.mouse, input.snap_radius, &ops.eval, order);
        let hover = Hover { snap, dim_hit };
        if input.drag_started {
            self.begin_drag(input.mouse, input.snap_radius, dim_hit, &ops.eval, order);
        }
        let ghost s1 = *self;
        if let Some(pos) = input.mouse {
            if input.dragged {
                self.drag_to(pos, ops);
            }
        }
        let ghost s2 = *self;
        if input.drag_stopped {
            self.end_drag(ops);
        }
        let ghost s3 = *self;
        proof {
            s0.sketch.lemma_keeps_ids_here();
            s2.sketch.lemma_keeps_ids_here();
            s3.sketch.lemma_keeps_ids_here();
            assert(s1.sketch.keeps_ids(s2.sketch));
            assert(s2.sketch.keeps_ids(s3.sketch));
            s0.sketch.lemma_keeps_ids_on(s2.sketch, s3.sketch);
        }
        if let Some(pos) = input.mouse {
            if input.clicked {
                self.on_click(
                    pos,
                    snap,
                    dim_hit,
                    input.select_tol,
                    input.shift,
                    &ops.eval,
                    &ops.less,
                    order,
                );
            }
        }
        let ghost s4 = *self;
        if input.escape {
            self.on_escape();
        }
        let ghost s5 = *self;
        if input.delete {
            self.on_delete();
        }
        proof {
            s5.sketch.lemma_keeps_ids_here();
            s0.sketch.lemma_keeps_ids_on(s3.sketch, s5.sketch);
            if !(input.delete && s5.sketch.is_worn()) {
                s0.sketch.lemma_keeps_ids_on(s5.sketch, self.sketch);
            }
        }
        let ghost steps = seq![s0, s1, s2, s3, s4, s5, *self];
        assert(takes_input(*ops, *order, *input, hover, steps));
        hover
    }
}

} // verus!
