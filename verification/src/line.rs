//! The path of a line series: which points start a stroke, which continue
//! it, and which are gaps.

use vstd::prelude::*;
use crate::order::{is_nan, is_nan_bits};

verus! {

/// What the path does at one point.
#[derive(Clone, Copy, Debug, PartialEq, Eq, Structural)]
pub enum PathStep {
    /// The point has a NaN coordinate: nothing is drawn and the line breaks.
    Gap,
    /// The point starts a stroke (`M x y`).
    MoveTo,
    /// The point continues the stroke from the previous point (`L x y`).
    LineTo,
}

/// A point with a NaN coordinate (positions as IEEE-754 bit patterns).
pub open spec fn is_gap(p: (u64, u64)) -> bool {
    is_nan(p.0) || is_nan(p.1)
}

/// The step at point `i`: gaps are skipped, and a point starts a stroke where
/// it is the first point or follows a gap.
pub open spec fn step_at(points: Seq<(u64, u64)>, i: int) -> PathStep {
    if is_gap(points[i]) {
        PathStep::Gap
    } else if i == 0 || is_gap(points[i - 1]) {
        PathStep::MoveTo
    } else {
        PathStep::LineTo
    }
}

/// The step for each point of a line.
pub fn path_steps(points: &Vec<(u64, u64)>) -> (steps: Vec<PathStep>)
    ensures
        steps@.len() == points@.len(),
        forall|i: int| 0 <= i < points@.len() ==> #[trigger] steps@[i] == step_at(points@, i),
        forall|i: int| 0 <= i < points@.len() && is_gap(points@[i]) ==> #[trigger] steps@[i] == PathStep::Gap,
        forall|i: int|
            0 <= i < points@.len() && !is_gap(points@[i]) && (i == 0 || is_gap(points@[i - 1]))
                ==> #[trigger] steps@[i] == PathStep::MoveTo,
        forall|i: int|
            0 < i < points@.len() && !is_gap(points@[i]) && !is_gap(points@[i - 1])
                ==> #[trigger] steps@[i] == PathStep::LineTo,
{
    let mut steps: Vec<PathStep> = Vec::new();
    let mut need_move = true;
    let n = points.len();
    for i in 0..n
        invariant
            n == points@.len(),
            steps@.len() == i,
            forall|j: int| 0 <= j < i ==> #[trigger] steps@[j] == step_at(points@, j),
            need_move == (i == 0 || is_gap(points@[i - 1])),
    {
        let (x, y) = points[i];
        if is_nan_bits(x) || is_nan_bits(y) {
            need_move = true;
            steps.push(PathStep::Gap);
        } else if need_move {
            need_move = false;
            steps.push(PathStep::MoveTo);
        } else {
            steps.push(PathStep::LineTo);
        }
    }
    steps
}

/// The path of a line: a point with a NaN coordinate is skipped, a drawn
/// point starts a stroke exactly where it is the first point or follows a
/// skipped one, and a drawn point that follows a drawn point always continues
/// the stroke from it, so consecutive drawn points are always joined.
pub proof fn lemma_path_strokes(points: Seq<(u64, u64)>, i: int)
    requires
        0 <= i < points.len(),
    ensures
        is_gap(points[i]) ==> step_at(points, i) == PathStep::Gap,
        !is_gap(points[i]) ==> (step_at(points, i) == PathStep::MoveTo <==> (i == 0 || is_gap(
            points[i - 1],
        ))),
        !is_gap(points[i]) ==> (step_at(points, i) == PathStep::LineTo <==> (i > 0 && !is_gap(
            points[i - 1],
        ))),
{
}

/// A stroke never continues across a gap: every point that continues a
/// stroke follows a point that is drawn.
pub proof fn lemma_line_follows_drawn_point(points: Seq<(u64, u64)>, i: int)
    requires
        0 <= i < points.len(),
        step_at(points, i) == PathStep::LineTo,
    ensures
        i > 0,
        step_at(points, i - 1) != PathStep::Gap,
{
}

} // verus!
