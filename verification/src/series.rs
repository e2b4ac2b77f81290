//! The data of a chart's series: the points of each series, their positions
//! (as bit patterns of IEEE-754 binary64 values), their extremes and the look-up
//! of the data nearest to a position.

use vstd::prelude::*;
use crate::order::{float_lt, float_lt_bits, is_nan, is_nan_bits, value_key};
use vstd::arithmetic::div_mod::lemma_fundamental_div_mod_converse;
use vstd::std_specs::cmp::{PartialEqSpec, PartialOrdIs, PartialOrdSpec};
use vstd::laws_cmp::obeys_cmp_partial_ord;
use vstd::laws_eq::obeys_concrete_eq;
use crate::tooltip::lawful_ord;

verus! {

/// `i` holds the smallest position in `p`, and no earlier position is as small:
/// the index that a left-to-right scan keeping strict improvements ends on.
pub open spec fn is_first_min(p: Seq<u64>, i: int) -> bool {
    &&& 0 <= i < p.len()
    &&& !is_nan(p[i])
    &&& forall|j: int| 0 <= j < p.len() ==> !float_lt(#[trigger] p[j], p[i])
    &&& forall|j: int| 0 <= j < i && !is_nan(#[trigger] p[j]) ==> float_lt(p[i], p[j])
}

/// `i` holds the largest position in `p`, and no earlier position is as large.
pub open spec fn is_first_max(p: Seq<u64>, i: int) -> bool {
    &&& 0 <= i < p.len()
    &&& !is_nan(p[i])
    &&& forall|j: int| 0 <= j < p.len() ==> !float_lt(p[i], #[trigger] p[j])
    &&& forall|j: int| 0 <= j < i && !is_nan(#[trigger] p[j]) ==> float_lt(p[j], p[i])
}

/// Every position is NaN (or there are none).
pub open spec fn all_nan(p: Seq<u64>) -> bool {
    forall|j: int| 0 <= j < p.len() ==> is_nan(#[trigger] p[j])
}

/// `r` is what `find_min_max_index` gives for `p`: nothing where every position
/// is NaN, else the first smallest and the first largest position.
pub open spec fn is_min_max(p: Seq<u64>, r: Option<(usize, usize)>) -> bool {
    match r {
        None => all_nan(p),
        Some((min_i, max_i)) => is_first_min(p, min_i as int) && is_first_max(p, max_i as int),
    }
}

/// The indices of the smallest and the largest position, NaN skipped; the
/// first of several equal ones. `None` where every position is NaN.
pub fn find_min_max_index(positions: &Vec<u64>) -> (r: Option<(usize, usize)>)
    ensures
        is_min_max(positions@, r),
{
    let mut range: Option<(usize, usize)> = None;
    let n = positions.len();
    for i in 0..n
        invariant
            n == positions@.len(),
            range is None <==> all_nan(positions@.take(i as int)),
            range matches Some((min_i, max_i)) ==> is_first_min(
                positions@.take(i as int),
                min_i as int,
            ) && is_first_max(positions@.take(i as int), max_i as int),
    {
        let ghost p = positions@;
        let ghost before = p.take(i as int);
        let ghost after = p.take(i + 1);
        assert(after =~= before.push(p[i as int]));
        let pos = positions[i];
        if !is_nan_bits(pos) {
            match range {
                None => {
                    range = Some((i, i));
                },
                Some((min_i, max_i)) => {
                    let new_min = if float_lt_bits(pos, positions[min_i]) {
                        i
                    } else {
                        min_i
                    };
                    let new_max = if float_lt_bits(positions[max_i], pos) {
                        i
                    } else {
                        max_i
                    };
                    range = Some((new_min, new_max));
                },
            }
        }
        assert(range is None <==> all_nan(after)) by {
            if range is None {
                assert forall|j: int| 0 <= j < after.len() implies is_nan(#[trigger] after[j]) by {
                    if j < i {
                        assert(after[j] == before[j]);
                    }
                }
            } else if all_nan(after) {
                assert(is_nan(after[i as int]));
                assert(all_nan(before)) by {
                    assert forall|j: int| 0 <= j < before.len() implies is_nan(#[trigger] before[j]) by {
                        assert(after[j] == before[j]);
                    }
                }
            }
        }
    }
    assert(positions@.take(n as int) =~= positions@);
    proof {
        if range is None {
            assert(all_nan(positions@));
        }
    }
    range
}

/// The extremes that `find_min_max_index` finds span the data: the smallest
/// position is not above the largest, and every position that is not NaN lies
/// between the two.
pub proof fn lemma_min_max_span(p: Seq<u64>, min_i: int, max_i: int, j: int)
    requires
        is_first_min(p, min_i),
        is_first_max(p, max_i),
        0 <= j < p.len(),
    ensures
        !float_lt(p[max_i], p[min_i]),
        !float_lt(p[j], p[min_i]),
        !float_lt(p[max_i], p[j]),
{
    assert(!float_lt(p[max_i], p[min_i]));
}

/// The lower end of a range after a requested lower bound: the bound where it
/// lies below the data's smallest value, else the smallest value.
pub open spec fn widened_lower<V: PartialOrd>(lower: Option<V>, min: V) -> V {
    if lower is Some && lower->0.is_lt(&min) {
        lower->0
    } else {
        min
    }
}

/// The upper end of a range after a requested upper bound: the bound where it
/// lies above the data's largest value, else the largest value.
pub open spec fn widened_upper<V: PartialOrd>(upper: Option<V>, max: V) -> V {
    if upper is Some && upper->0.is_gt(&max) {
        upper->0
    } else {
        max
    }
}

/// Widens the data's range `(min, max)` by the requested bounds: a bound only
/// ever extends the range, never narrows it. The comparisons are those of
/// `V`'s `PartialOrd`; where `V` follows its specification the result is
/// exact, and in any case each end is either the data's or the bound.
pub fn map_min_max_range<V: PartialOrd>(lower: Option<V>, upper: Option<V>, range: (V, V)) -> (r: (V, V))
    ensures
        r.0 == range.0 || lower == Some(r.0),
        r.1 == range.1 || upper == Some(r.1),
        V::obeys_partial_cmp_spec() ==> r == (
            widened_lower(lower, range.0),
            widened_upper(upper, range.1),
        ),
{
    let (min, max) = range;
    let new_min = match lower {
        Some(v) => if v < min {
            v
        } else {
            min
        },
        None => min,
    };
    let new_max = match upper {
        Some(v) => if v > max {
            v
        } else {
            max
        },
        None => max,
    };
    (new_min, new_max)
}

/// For a lawful total order the widening is exact (`map_min_max_range`
/// computes it), it never narrows the range, and widening a widened range by
/// the same bounds changes nothing.
pub proof fn lemma_widening_idempotent<V: Ord>(lower: Option<V>, upper: Option<V>, min: V, max: V)
    requires
        lawful_ord::<V>(),
    ensures
        V::obeys_partial_cmp_spec(),
        widened_lower(lower, min).is_le(&min),
        widened_upper(upper, max).is_ge(&max),
        widened_lower(lower, widened_lower(lower, min)) == widened_lower(lower, min),
        widened_upper(upper, widened_upper(upper, max)) == widened_upper(upper, max),
{
    reveal(obeys_cmp_partial_ord);
    reveal(obeys_concrete_eq);
    assert(min.eq_spec(&min));
    assert(max.eq_spec(&max));
    if lower is Some {
        let v = lower->0;
        assert(v.eq_spec(&v));
    }
    if upper is Some {
        let v = upper->0;
        assert(v.eq_spec(&v));
    }
}

/// The index in the flattened y values of point `point` of series `line`,
/// where every series has `points` points.
pub open spec fn flat_index(line: int, point: int, points: int) -> int {
    line * points + point
}

/// Given an index into the flattened y values (every series' points one after
/// the other, `points` each), the series and the point it belongs to.
pub fn reverse_get_y(index: usize, points: usize) -> (r: (usize, usize))
    requires
        points > 0,
    ensures
        r.0 == index / points,
        r.1 == index % points,
{
    (index / points, index % points)
}

/// Flattening and `reverse_get_y` undo each other: the flat index of point
/// `point` of series `line` leads back to that series and point.
pub proof fn lemma_flat_index_roundtrip(line: nat, point: nat, points: nat)
    requires
        point < points,
    ensures
        flat_index(line as int, point as int, points as int) / points as int == line,
        flat_index(line as int, point as int, points as int) % points as int == point,
{
    lemma_fundamental_div_mod_converse(
        flat_index(line as int, point as int, points as int),
        points as int,
        line as int,
        point as int,
    );
}

/// `k` splits `p` into the positions below `pos` and those that are not.
pub open spec fn is_partition_point(p: Seq<u64>, pos: u64, k: int) -> bool {
    &&& 0 <= k <= p.len()
    &&& forall|j: int| 0 <= j < k ==> float_lt(#[trigger] p[j], pos)
    &&& forall|j: int| k <= j < p.len() ==> !float_lt(#[trigger] p[j], pos)
}

/// The positions are in ascending order and none is NaN.
pub open spec fn is_sorted_positions(p: Seq<u64>) -> bool {
    &&& forall|j: int| 0 <= j < p.len() ==> !is_nan(#[trigger] p[j])
    &&& forall|i: int, j: int| 0 <= i < j < p.len() ==> !float_lt(#[trigger] p[j], #[trigger] p[i])
}

/// Positions in ascending order are split by any position into those below
/// it and those that are not: on such data the look-up of the nearest point
/// is exact.
pub proof fn lemma_sorted_positions_partition(p: Seq<u64>, pos: u64)
    requires
        is_sorted_positions(p),
    ensures
        exists|k: int| is_partition_point(p, pos, k),
{
    let k = sorted_partition_prefix(p, pos, p.len() as int);
    assert(is_partition_point(p, pos, k));
}

proof fn sorted_partition_prefix(p: Seq<u64>, pos: u64, n: int) -> (k: int)
    requires
        is_sorted_positions(p),
        0 <= n <= p.len(),
    ensures
        0 <= k <= n,
        forall|j: int| 0 <= j < k ==> float_lt(#[trigger] p[j], pos),
        forall|j: int| k <= j < n ==> !float_lt(#[trigger] p[j], pos),
    decreases n,
{
    if n == 0 {
        0
    } else {
        let k = sorted_partition_prefix(p, pos, n - 1);
        if k == n - 1 && float_lt(p[n - 1], pos) {
            n
        } else {
            if k < n - 1 {
                assert(!float_lt(p[n - 1], p[k]));
                assert(!float_lt(p[k], pos));
            }
            k
        }
    }
}

/// The point at `q` lies on the number line between `pos` and `p` (either end
/// included), so it is no farther from `pos` than `p` is.
pub open spec fn lies_between(pos: u64, q: u64, p: u64) -> bool {
    ||| value_key(p) <= value_key(q) && value_key(q) <= value_key(pos)
    ||| value_key(pos) <= value_key(q) && value_key(q) <= value_key(p)
}

/// `r` names the nearest data points to `pos` among the positions `p`: no
/// data for no positions; a single point that is at least as near to `pos`
/// as every other point; or the two neighbours `i - 1` and `i` that enclose
/// `pos` (`p[i - 1] < pos <= p[i]`), one of which is at least as near as
/// every other point.
pub open spec fn names_nearest(p: Seq<u64>, pos: u64, r: NearestX) -> bool {
    match r {
        NearestX::Empty => p.len() == 0,
        NearestX::At(i) => {
            &&& 0 <= i < p.len()
            &&& forall|j: int| 0 <= j < p.len() ==> lies_between(pos, p[i as int], #[trigger] p[j])
        },
        NearestX::Between(i) => {
            &&& 0 < i < p.len()
            &&& float_lt(p[i - 1], pos)
            &&& !float_lt(p[i as int], pos)
            &&& forall|j: int|
                0 <= j < p.len() ==> lies_between(pos, p[i - 1], #[trigger] p[j]) || lies_between(
                    pos,
                    p[i as int],
                    p[j],
                )
        },
    }
}

/// On positions in ascending order, the look-up that a partition point leads
/// to names the nearest points to any position that is not NaN: a single point
/// only at the ends of the data, and otherwise the two points around `pos`.
pub proof fn lemma_bracket_is_nearest(p: Seq<u64>, pos: u64, k: int)
    requires
        is_sorted_positions(p),
        !is_nan(pos),
        is_partition_point(p, pos, k),
        p.len() <= usize::MAX,
    ensures
        names_nearest(p, pos, bracket(k, p.len() as int)),
        0 < k < p.len() ==> bracket(k, p.len() as int) == NearestX::Between(k as usize),
{
    let n = p.len() as int;
    if n > 0 {
        if k == 0 {
            assert forall|j: int| 0 <= j < n implies lies_between(pos, p[0], #[trigger] p[j]) by {
                if j > 0 {
                    assert(!float_lt(p[j], p[0]));
                }
                assert(!float_lt(p[j], pos));
            }
        } else if k >= n {
            assert forall|j: int| 0 <= j < n implies lies_between(pos, p[n - 1], #[trigger] p[j]) by {
                if j < n - 1 {
                    assert(!float_lt(p[n - 1], p[j]));
                }
                assert(float_lt(p[n - 1], pos));
            }
        } else {
            assert(float_lt(p[k - 1], pos));
            assert(!float_lt(p[k], pos));
            assert forall|j: int| 0 <= j < n implies lies_between(pos, p[k - 1], #[trigger] p[j])
                || lies_between(pos, p[k], p[j]) by {
                if j < k - 1 {
                    assert(!float_lt(p[k - 1], p[j]));
                } else if j > k {
                    assert(!float_lt(p[j], p[k]));
                }
            }
        }
    }
}

/// Calls `slice::partition_point` with the predicate "the position is below
/// `pos`". Its documentation promises, where the slice is partitioned by the
/// predicate, the index of the first element that does not satisfy it; on a
/// slice that is not partitioned the result is unspecified, and the contract
/// says nothing of it.
#[verifier::external_body]
fn partition_point_below(positions: &[u64], pos: u64) -> (k: usize)
    ensures
        forall|j: int| is_partition_point(positions@, pos, j) ==> k == j,
{
    positions.partition_point(|v| float_lt_bits(*v, pos))
}

/// Where a position falls among the x positions of the data.
#[derive(Clone, Copy, Debug, PartialEq, Eq, Structural)]
pub enum NearestX {
    /// There is no data.
    Empty,
    /// The data point at this index is the nearest.
    At(usize),
    /// The position lies between the points at this index minus one and at
    /// this index: the nearer of the two is the nearest.
    Between(usize),
}

/// The look-up that a partition point `k` of `points` positions leads to.
pub open spec fn bracket(k: int, points: int) -> NearestX {
    if points == 0 {
        NearestX::Empty
    } else if k == 0 {
        NearestX::At(0)
    } else if k >= points {
        NearestX::At((points - 1) as usize)
    } else {
        NearestX::Between(k as usize)
    }
}

impl NearestX {
    /// The nearest index, given whether the point ahead of the position is
    /// closer than the one before it (ties go to the point before).
    pub fn resolve(self, ahead_is_closer: bool) -> (r: Option<usize>)
        requires
            self matches NearestX::Between(i) ==> i > 0,
        ensures
            r == match self {
                NearestX::Empty => None,
                NearestX::At(i) => Some(i),
                NearestX::Between(i) => Some(
                    if ahead_is_closer {
                        i
                    } else {
                        (i - 1) as usize
                    },
                ),
            },
    {
        match self {
            NearestX::Empty => None,
            NearestX::At(i) => Some(i),
            NearestX::Between(i) => Some(
                if ahead_is_closer {
                    i
                } else {
                    i - 1
                },
            ),
        }
    }
}

/// The elements of `v` in the opposite order.
pub(crate) fn reversed<T>(v: Vec<T>) -> (r: Vec<T>)
    ensures
        r@ == v@.reverse(),
{
    let ghost all = v@;
    let mut rest = v;
    let mut r: Vec<T> = Vec::new();
    while rest.len() > 0
        invariant
            0 <= rest@.len() <= all.len(),
            rest@ =~= all.take(rest@.len() as int),
            r@ =~= all.skip(rest@.len() as int).reverse(),
        decreases rest@.len(),
    {
        let x = rest.pop().unwrap();
        r.push(x);
        assert(rest@ =~= all.take(rest@.len() as int));
        assert(r@ =~= all.skip(rest@.len() as int).reverse());
    }
    r
}

/// The collected points of a chart's series: the x value and x position of
/// each data point, and the y value and y position of each series at each data
/// point, series after series. Positions are bit patterns of IEEE-754 binary64
/// values.
#[derive(Clone, Debug, PartialEq)]
pub struct Data<X, Y> {
    x_points: Vec<X>,
    x_positions: Vec<u64>,
    y_points: Vec<Y>,
    y_positions: Vec<u64>,
    lines: usize,
}

impl<X, Y> Data<X, Y> {
    pub closed spec fn xs(self) -> Seq<X> {
        self.x_points@
    }

    pub closed spec fn x_pos(self) -> Seq<u64> {
        self.x_positions@
    }

    pub closed spec fn ys(self) -> Seq<Y> {
        self.y_points@
    }

    pub closed spec fn y_pos(self) -> Seq<u64> {
        self.y_positions@
    }

    /// The number of series.
    pub closed spec fn line_count(self) -> nat {
        self.lines as nat
    }

    /// Each x value has its position, and each series has a y value and a y
    /// position for every data point.
    pub open spec fn wf(self) -> bool {
        &&& self.x_pos().len() == self.xs().len()
        &&& self.ys().len() == self.line_count() * self.xs().len()
        &&& self.y_pos().len() == self.ys().len()
    }

    /// The y values are those of `series`, series after series: the value of
    /// series `j` at data point `i` is `series[j][i]`.
    pub open spec fn holds_series_values(self, series: Seq<Seq<Y>>) -> bool {
        &&& self.line_count() == series.len()
        &&& forall|j: int, i: int|
            0 <= j < series.len() && 0 <= i < self.xs().len() ==> self.ys()[flat_index(
                j,
                i,
                self.xs().len() as int,
            )] == #[trigger] series[j][i]
    }

    /// The y positions are those of `positions`, series after series.
    pub open spec fn holds_series_positions(self, positions: Seq<Seq<u64>>) -> bool {
        &&& self.line_count() == positions.len()
        &&& forall|j: int, i: int|
            0 <= j < positions.len() && 0 <= i < self.xs().len() ==> self.y_pos()[flat_index(
                j,
                i,
                self.xs().len() as int,
            )] == #[trigger] positions[j][i]
    }

    /// Collects the data of a chart: the x values and positions of its data
    /// points, and for each series its y value and y position at every data
    /// point. The y values are laid out series after series.
    pub fn from_series(
        x_points: Vec<X>,
        x_positions: Vec<u64>,
        series: Vec<Vec<Y>>,
        series_positions: Vec<Vec<u64>>,
    ) -> (data: Self)
        requires
            x_positions@.len() == x_points@.len(),
            series_positions@.len() == series@.len(),
            forall|j: int| 0 <= j < series@.len() ==> (#[trigger] series@[j])@.len() == x_points@.len(),
            forall|j: int|
                0 <= j < series_positions@.len() ==> (#[trigger] series_positions@[j])@.len()
                    == x_points@.len(),
        ensures
            data.wf(),
            data.xs() == x_points@,
            data.x_pos() == x_positions@,
            data.holds_series_values(series@.map_values(|v: Vec<Y>| v@)),
            data.holds_series_positions(series_positions@.map_values(|v: Vec<u64>| v@)),
    {
        let n = x_points.len();
        let lines = series.len();
        let ghost values = series@.map_values(|v: Vec<Y>| v@);
        let ghost positions = series_positions@.map_values(|v: Vec<u64>| v@);
        let ghost all = series@;
        let ghost all_pos = series_positions@;
        let mut rest = reversed(series);
        let mut rest_pos = reversed(series_positions);
        let mut y_points: Vec<Y> = Vec::new();
        let mut y_positions: Vec<u64> = Vec::new();
        let mut j: usize = 0;
        while j < lines
            invariant
                lines == all.len(),
                lines == all_pos.len(),
                n == x_points@.len(),
                forall|jj: int| 0 <= jj < all.len() ==> (#[trigger] all[jj])@.len() == n,
                forall|jj: int| 0 <= jj < all_pos.len() ==> (#[trigger] all_pos[jj])@.len() == n,
                values == all.map_values(|v: Vec<Y>| v@),
                positions == all_pos.map_values(|v: Vec<u64>| v@),
                j <= lines,
                rest@ == all.reverse().take(lines - j),
                rest_pos@ == all_pos.reverse().take(lines - j),
                y_points@.len() == j * n,
                y_positions@.len() == j * n,
                forall|jj: int, i: int|
                    0 <= jj < j && 0 <= i < n ==> y_points@[flat_index(jj, i, n as int)]
                        == #[trigger] values[jj][i],
                forall|jj: int, i: int|
                    0 <= jj < j && 0 <= i < n ==> y_positions@[flat_index(jj, i, n as int)]
                        == #[trigger] positions[jj][i],
            decreases lines - j,
        {
            let ghost before = y_points@;
            let ghost before_pos = y_positions@;
            assert(rest@.len() > 0);
            let mut values_j = rest.pop().unwrap();
            let mut positions_j = rest_pos.pop().unwrap();
            assert(values_j == all[j as int]);
            assert(positions_j == all_pos[j as int]);
            assert(rest@ =~= all.reverse().take(lines - j - 1));
            assert(rest_pos@ =~= all_pos.reverse().take(lines - j - 1));
            y_points.append(&mut values_j);
            y_positions.append(&mut positions_j);
            proof {
                assert((j + 1) * n == j * n + n) by (nonlinear_arith);
                assert forall|jj: int, i: int| 0 <= jj < j + 1 && 0 <= i < n implies
                    y_points@[flat_index(jj, i, n as int)] == #[trigger] values[jj][i] by {
                    lemma_flat_index_bound(jj as nat, i as nat, n as nat, j as nat + 1);
                    if jj < j {
                        lemma_flat_index_bound(jj as nat, i as nat, n as nat, j as nat);
                        assert(y_points@[flat_index(jj, i, n as int)] == before[flat_index(jj, i, n as int)]);
                    } else {
                        assert(flat_index(jj, i, n as int) == j * n + i);
                    }
                }
                assert forall|jj: int, i: int| 0 <= jj < j + 1 && 0 <= i < n implies
                    y_positions@[flat_index(jj, i, n as int)] == #[trigger] positions[jj][i] by {
                    lemma_flat_index_bound(jj as nat, i as nat, n as nat, j as nat + 1);
                    if jj < j {
                        lemma_flat_index_bound(jj as nat, i as nat, n as nat, j as nat);
                        assert(y_positions@[flat_index(jj, i, n as int)] == before_pos[flat_index(jj, i, n as int)]);
                    } else {
                        assert(flat_index(jj, i, n as int) == j * n + i);
                    }
                }
            }
            j = j + 1;
        }
        proof {
            assert(y_points@.len() == lines as nat * n as nat);
        }
        Data { x_points, x_positions, y_points, y_positions, lines }
    }

    /// The number of data points (of each series).
    pub fn points(&self) -> (n: usize)
        ensures
            n == self.xs().len(),
    {
        self.x_points.len()
    }

    /// The number of series.
    pub fn lines(&self) -> (n: usize)
        ensures
            n == self.line_count(),
    {
        self.lines
    }

    pub fn x_point(&self, index: usize) -> (x: &X)
        requires
            index < self.xs().len(),
        ensures
            *x == self.xs()[index as int],
    {
        &self.x_points[index]
    }

    pub fn y_point(&self, index: usize) -> (y: &Y)
        requires
            index < self.ys().len(),
        ensures
            *y == self.ys()[index as int],
    {
        &self.y_points[index]
    }

    pub fn x_positions(&self) -> (p: &Vec<u64>)
        ensures
            p@ == self.x_pos(),
    {
        &self.x_positions
    }

    pub fn y_positions(&self) -> (p: &Vec<u64>)
        ensures
            p@ == self.y_pos(),
    {
        &self.y_positions
    }

    /// The indices of the data points at the smallest and the largest x
    /// position.
    pub fn x_extent(&self) -> (r: Option<(usize, usize)>)
        ensures
            is_min_max(self.x_pos(), r),
    {
        find_min_max_index(&self.x_positions)
    }

    /// The flat indices of the y values at the smallest and the largest y
    /// position, over all series.
    pub fn y_extent(&self) -> (r: Option<(usize, usize)>)
        ensures
            is_min_max(self.y_pos(), r),
    {
        find_min_max_index(&self.y_positions)
    }

    /// Where `pos` falls among the x positions, which are meant to be in
    /// ascending order. Where they are partitioned by "below `pos`" the result
    /// is exact; otherwise it is some bracket within the data.
    pub fn nearest_x_index(&self, pos: u64) -> (r: NearestX)
        requires
            self.wf(),
        ensures
            forall|k: int|
                is_partition_point(self.x_pos(), pos, k) ==> r == bracket(
                    k,
                    self.xs().len() as int,
                ),
            self.xs().len() == 0 <==> r is Empty,
            r matches NearestX::At(i) ==> i < self.xs().len(),
            r matches NearestX::Between(i) ==> 0 < i < self.xs().len(),
            is_sorted_positions(self.x_pos()) && !is_nan(pos) ==> names_nearest(self.x_pos(), pos, r),
    {
        let n = self.x_points.len();
        proof {
            if is_sorted_positions(self.x_pos()) && !is_nan(pos) {
                lemma_sorted_positions_partition(self.x_pos(), pos);
                let k = choose|k: int| is_partition_point(self.x_pos(), pos, k);
                lemma_bracket_is_nearest(self.x_pos(), pos, k);
            }
        }
        if n == 0 {
            return NearestX::Empty;
        }
        let index = partition_point_below(self.x_positions.as_slice(), pos);
        if index == 0 {
            NearestX::At(0)
        } else if index >= n {
            NearestX::At(n - 1)
        } else {
            NearestX::Between(index)
        }
    }

    /// The y value of series `line_id` at data point `x_index`.
    pub fn nearest_y(&self, x_index: usize, line_id: usize) -> (y: &Y)
        requires
            self.wf(),
            x_index < self.xs().len(),
            line_id < self.line_count(),
        ensures
            *y == self.ys()[flat_index(line_id as int, x_index as int, self.xs().len() as int)],
    {
        let points = self.x_points.len();
        let total = self.y_points.len();
        proof {
            lemma_flat_index_bound(line_id as nat, x_index as nat, points as nat, self.lines as nat);
            assert(self.y_points@.len() == self.lines as nat * points as nat);
            assert(line_id * points + x_index < total);
        }
        &self.y_points[line_id * points + x_index]
    }

    /// The (x, y) positions of series `id`, one per data point.
    pub fn series_positions(&self, id: usize) -> (r: Vec<(u64, u64)>)
        requires
            self.wf(),
            self.xs().len() == 0 || id < self.line_count(),
        ensures
            r@.len() == self.xs().len(),
            forall|i: int|
                0 <= i < r@.len() ==> #[trigger] r@[i] == (
                    self.x_pos()[i],
                    self.y_pos()[flat_index(id as int, i, self.xs().len() as int)],
                ),
    {
        let points = self.x_points.len();
        let total = self.y_points.len();
        let mut r: Vec<(u64, u64)> = Vec::new();
        if points == 0 {
            return r;
        }
        proof {
            lemma_flat_index_bound(id as nat, 0, points as nat, self.lines as nat);
            assert(self.y_points@.len() == self.lines as nat * points as nat);
        }
        let start = id * points;
        for i in 0..points
            invariant
                self.wf(),
                points == self.xs().len(),
                id < self.line_count(),
                start == id * points,
                total == self.y_pos().len(),
                r@.len() == i,
                forall|j: int|
                    0 <= j < i ==> #[trigger] r@[j] == (
                        self.x_pos()[j],
                        self.y_pos()[flat_index(id as int, j, points as int)],
                    ),
        {
            proof {
                lemma_flat_index_bound(id as nat, i as nat, points as nat, self.lines as nat);
                assert(self.y_points@.len() == self.lines as nat * points as nat);
            }
            r.push((self.x_positions[i], self.y_positions[start + i]));
        }
        r
    }
}

/// Reading the flattened y values at any index gives the value of the series
/// and data point that `reverse_get_y` splits the index into: the split undoes
/// the series-after-series layout.
pub proof fn lemma_reverse_get_y_reads_series<X, Y>(data: Data<X, Y>, series: Seq<Seq<Y>>, index: int)
    requires
        data.wf(),
        data.holds_series_values(series),
        data.xs().len() > 0,
        0 <= index < data.ys().len(),
    ensures
        0 <= index / (data.xs().len() as int) < series.len(),
        data.ys()[index] == series[index / data.xs().len() as int][index % data.xs().len() as int],
{
    let n = data.xs().len() as int;
    let j = index / n;
    let i = index % n;
    assert(index == flat_index(j, i, n)) by (nonlinear_arith)
        requires
            n > 0,
            j == index / n,
            i == index % n,
    ;
    assert(0 <= j < series.len()) by (nonlinear_arith)
        requires
            n > 0,
            0 <= index < series.len() * n,
            j == index / n,
    ;
    assert(0 <= i < n) by (nonlinear_arith)
        requires
            n > 0,
            i == index % n,
    ;
    assert(series[j][i] == series[j][i]);
}

/// The y value that `nearest_y` reads for data point `x_index` is series
/// `line`'s value at that same data point, the one whose x value `x_point`
/// reads.
pub proof fn lemma_nearest_y_same_datum<X, Y>(
    data: Data<X, Y>,
    series: Seq<Seq<Y>>,
    x_index: int,
    line: int,
)
    requires
        data.wf(),
        data.holds_series_values(series),
        0 <= x_index < data.xs().len(),
        0 <= line < data.line_count(),
    ensures
        data.ys()[flat_index(line, x_index, data.xs().len() as int)] == series[line][x_index],
{
    assert(series[line][x_index] == series[line][x_index]);
}

proof fn lemma_flat_index_bound(line: nat, point: nat, points: nat, lines: nat)
    requires
        point < points,
        line < lines,
    ensures
        flat_index(line as int, point as int, points as int) < lines * points,
        line * points + points <= lines * points,
{
    assert(line * points + points <= lines * points) by (nonlinear_arith)
        requires
            line < lines,
    ;
}

} // verus!
