//! The candidate grid of a stage, the rules on where musicians may
//! stand, and the pruning of attendees and pillars that cannot matter.

use std::collections::HashSet;
use vstd::prelude::*;

use crate::dto::{PillarDto, Point2D, ProblemDto, COORD_LIMIT, MUSICIAN_LIMIT, UNIT};
use crate::geometry::{
    dist2, distance2, lemma_dist2_symmetric, lemma_product_bound, segment_hits_disk,
};
use crate::scoring::scorer::{blocked_by_pillar, is_blocked_by_pillars, is_sound_blocked};
use crate::solvers::Problem;

verus! {

broadcast use vstd::std_specs::hash::group_hash_axioms;

/// How far from the edge of the stage a musician has to stay: ten units.
pub const STAGE_MARGIN: i64 = 5_120;

/// The square of the least distance between two musicians, which is ten
/// units.
pub const SEPARATION_SQ: u64 = 26_214_400;

/// The spacing at which the search for the spacing of the candidate grid
/// starts: half a unit.
pub const START_SPACING: i64 = 256;

/// The number of candidate positions times the number of musicians stays
/// below this where the stage allows it.
pub const POSITION_BUDGET: i64 = 1_000_000;

/// The number of candidate positions that each musician should have.
pub const POSITIONS_PER_MUSICIAN: i64 = 4;

/// A candidate position, and whether a musician stands on it or too near.
#[derive(Clone, Copy, Debug, PartialEq, Eq, Structural)]
pub struct Position {
    pub p: Point2D,
    pub taken: bool,
}

/// The stage as a finite list of candidate positions.
#[derive(Clone, Debug, Default)]
pub struct Grid {
    pub positions: Vec<Position>,
}

/// The number of multiples of `delta` in `[0, hi - lo]`: how many grid
/// lines fit between `lo` and `hi`.
pub open spec fn axis_count(lo: int, hi: int, delta: int) -> int {
    if hi < lo {
        0
    } else {
        (hi - lo) / delta + 1
    }
}

/// The least x coordinate that a musician may have.
pub open spec fn min_x(data: ProblemDto) -> int {
    data.stage_bottom_left.x + STAGE_MARGIN
}

/// The least y coordinate that a musician may have.
pub open spec fn min_y(data: ProblemDto) -> int {
    data.stage_bottom_left.y + STAGE_MARGIN
}

/// The greatest x coordinate that a musician may have.
pub open spec fn max_x(data: ProblemDto) -> int {
    data.stage_bottom_left.x + data.stage_width - STAGE_MARGIN
}

/// The greatest y coordinate that a musician may have.
pub open spec fn max_y(data: ProblemDto) -> int {
    data.stage_bottom_left.y + data.stage_height - STAGE_MARGIN
}

/// The number of columns of a grid with spacing `delta`.
pub open spec fn grid_cols(data: ProblemDto, delta: int) -> int {
    axis_count(min_x(data), max_x(data), delta)
}

/// The number of rows of a grid with spacing `delta`.
pub open spec fn grid_rows(data: ProblemDto, delta: int) -> int {
    axis_count(min_y(data), max_y(data), delta)
}

/// The number of candidate positions of a grid with spacing `delta`.
pub open spec fn position_count(data: ProblemDto, delta: int) -> int {
    grid_cols(data, delta) * grid_rows(data, delta)
}

/// A grid with spacing `delta` has fewer than four positions for each
/// musician.
pub open spec fn spacing_starves(data: ProblemDto, delta: int) -> bool {
    position_count(data, delta) < POSITIONS_PER_MUSICIAN * data.musicians@.len()
}

/// A grid with spacing `delta` is within the budget.
pub open spec fn spacing_fits(data: ProblemDto, delta: int) -> bool {
    position_count(data, delta) * data.musicians@.len() < POSITION_BUDGET
}

/// A spacing at which every grid has at most one position.
pub open spec fn spacing_limit(data: ProblemDto) -> int {
    let ex = max_x(data) - min_x(data);
    let ey = max_y(data) - min_y(data);
    if ex < 0 || ey < 0 {
        1
    } else if ex < ey {
        ey + 1
    } else {
        ex + 1
    }
}

/// The least spacing from `delta` on at which the search for a coarser
/// spacing ends: the grid is within the budget, or has become too small.
pub open spec fn first_stop(data: ProblemDto, delta: int) -> int
    decreases spacing_limit(data) - delta,
{
    if delta >= spacing_limit(data) || spacing_starves(data, delta) || spacing_fits(data, delta) {
        delta
    } else {
        first_stop(data, delta + 1)
    }
}

/// The greatest spacing up to `delta` whose grid has four positions for
/// each musician, or one step if there is none.
pub open spec fn finest_needed(data: ProblemDto, delta: int) -> int
    decreases delta,
{
    if delta <= 1 || !spacing_starves(data, delta) {
        delta
    } else {
        finest_needed(data, delta - 1)
    }
}

/// The spacing of the candidate grid, in steps. The search starts at half
/// a unit. If the grid has four positions for each musician there, the
/// spacing is the least from there on whose grid is within the budget,
/// or, where the grid would get too small before, the last that leaves
/// four positions for each. If not, the spacing is the greatest below half
/// a unit that gives each musician four positions.
pub open spec fn grid_spacing(data: ProblemDto) -> int {
    if spacing_starves(data, START_SPACING as int) {
        finest_needed(data, START_SPACING as int)
    } else {
        let delta = first_stop(data, START_SPACING as int);
        if spacing_starves(data, delta) {
            delta - 1
        } else {
            delta
        }
    }
}

/// At the spacing limit the grid has at most one position, which is too
/// few for any musician.
pub proof fn lemma_limit_starves(data: ProblemDto, delta: int)
    requires
        data.musicians@.len() >= 1,
        delta >= spacing_limit(data),
    ensures
        0 <= position_count(data, delta) <= 1,
        spacing_starves(data, delta),
{
    let ex = max_x(data) - min_x(data);
    let ey = max_y(data) - min_y(data);
    let c = grid_cols(data, delta);
    let r = grid_rows(data, delta);
    if ex < 0 || ey < 0 {
        assert(c == 0 || r == 0);
        assert(c * r == 0) by (nonlinear_arith)
            requires
                c == 0 || r == 0,
        ;
    } else {
        vstd::arithmetic::div_mod::lemma_basic_div(ex, delta);
        vstd::arithmetic::div_mod::lemma_basic_div(ey, delta);
        assert(c == 1 && r == 1);
        assert(c * r == 1) by (nonlinear_arith)
            requires
                c == 1,
                r == 1,
        ;
    }
}

/// Up to the first stop the search for a coarser spacing does not end,
/// and at the first stop it does.
pub proof fn lemma_first_stop(data: ProblemDto, from: int)
    requires
        data.musicians@.len() >= 1,
        1 <= from,
    ensures
        from <= first_stop(data, from),
        first_stop(data, from) <= spacing_limit(data) || first_stop(data, from) == from,
        spacing_starves(data, first_stop(data, from)) || spacing_fits(
            data,
            first_stop(data, from),
        ),
        forall|d: int|
            from <= d < first_stop(data, from) ==> !spacing_starves(data, d) && !spacing_fits(
                data,
                d,
            ),
    decreases spacing_limit(data) - from,
{
    if from >= spacing_limit(data) {
        lemma_limit_starves(data, from);
    } else if spacing_starves(data, from) || spacing_fits(data, from) {
    } else {
        lemma_first_stop(data, from + 1);
    }
}

/// The search for a finer spacing ends at the greatest spacing that
/// gives each musician four positions, or at one step.
pub proof fn lemma_finest_needed(data: ProblemDto, from: int)
    requires
        1 <= from,
    ensures
        1 <= finest_needed(data, from) <= from,
        finest_needed(data, from) == 1 || !spacing_starves(data, finest_needed(data, from)),
        forall|d: int| finest_needed(data, from) < d <= from ==> spacing_starves(data, d),
    decreases from,
{
    if from <= 1 || !spacing_starves(data, from) {
    } else {
        lemma_finest_needed(data, from - 1);
    }
}

/// The spacing of the grid is at least one step.
pub proof fn lemma_grid_spacing_positive(data: ProblemDto)
    requires
        data.musicians@.len() >= 1,
    ensures
        1 <= grid_spacing(data),
{
    lemma_first_stop(data, START_SPACING as int);
    lemma_finest_needed(data, START_SPACING as int);
}

/// Where the inner area of the stage is not empty, the grid with a
/// spacing of one step has four positions for each musician.
pub proof fn lemma_finest_grid_feeds(data: ProblemDto)
    requires
        data.stage_wf(),
        data.stage_width > 2 * STAGE_MARGIN,
        data.stage_height > 2 * STAGE_MARGIN,
    ensures
        !spacing_starves(data, 1),
{
    let c = grid_cols(data, 1);
    let r = grid_rows(data, 1);
    assert(c == data.stage_width - 20 * UNIT + 1);
    assert(r == data.stage_height - 20 * UNIT + 1);
    assert(c * r == r * c) by (nonlinear_arith);
}

/// On a stage where the grid with a spacing of one step has four
/// positions for each musician, the candidate grid has at least four for
/// each.
pub proof fn lemma_grid_spacing_keeps_four(data: ProblemDto)
    requires
        data.musicians@.len() >= 1,
        !spacing_starves(data, 1),
    ensures
        !spacing_starves(data, grid_spacing(data)),
{
    lemma_first_stop(data, START_SPACING as int);
    lemma_finest_needed(data, START_SPACING as int);
}

/// Where the grid has four positions for each musician at half a unit
/// already, it is within the budget unless the next coarser grid had
/// fewer than four for each, and no finer grid from half a unit on is
/// within the budget.
pub proof fn lemma_grid_spacing_within_budget(data: ProblemDto)
    requires
        data.musicians@.len() >= 1,
        !spacing_starves(data, START_SPACING as int),
    ensures
        grid_spacing(data) >= START_SPACING,
        spacing_fits(data, grid_spacing(data)) || spacing_starves(data, grid_spacing(data) + 1),
        forall|d: int|
            START_SPACING <= d < grid_spacing(data) ==> !spacing_fits(data, d) && !spacing_starves(
                data,
                d,
            ),
{
    lemma_first_stop(data, START_SPACING as int);
}

/// The place in the list of the position in row `row` and column `col`
/// of a grid with `cols` columns.
pub open spec fn cell_index(row: int, col: int, cols: int) -> int {
    row * cols + col
}

/// The point in row `row` and column `col` of the grid with spacing
/// `delta`.
pub open spec fn grid_point(data: ProblemDto, delta: int, row: int, col: int) -> Point2D {
    Point2D { x: (min_x(data) + col * delta) as i64, y: (min_y(data) + row * delta) as i64 }
}

/// `positions` lists, row by row from the lowest and in each row from the
/// left, the points of the grid with spacing `delta` that starts in the
/// corner of the stage's inner area; none is taken.
pub open spec fn is_grid_of(positions: Seq<Position>, data: ProblemDto, delta: int) -> bool {
    &&& positions.len() == grid_rows(data, delta) * grid_cols(data, delta)
    &&& forall|row: int, col: int|
        0 <= row < grid_rows(data, delta) && 0 <= col < grid_cols(data, delta)
            ==> #[trigger] positions[cell_index(row, col, grid_cols(data, delta))] == (Position {
            p: grid_point(data, delta, row, col),
            taken: false,
        })
}

/// The cells of the rows below `row` come before the cells of `row`.
pub proof fn lemma_cell_index_lt(r: int, c: int, row: int, cols: int)
    requires
        0 <= r < row,
        0 <= c < cols,
    ensures
        0 <= cell_index(r, c, cols) < row * cols,
{
    assert(0 <= r * cols + c < row * cols) by (nonlinear_arith)
        requires
            0 <= r < row,
            0 <= c < cols,
    ;
}

/// The grid lines stay within the inner area of the stage.
pub proof fn lemma_axis_step(lo: int, hi: int, delta: int, k: int)
    requires
        delta >= 1,
        0 <= k < axis_count(lo, hi, delta),
    ensures
        lo <= lo + k * delta <= hi,
{
    let e = hi - lo;
    vstd::arithmetic::div_mod::lemma_fundamental_div_mod(e, delta);
    vstd::arithmetic::div_mod::lemma_mod_bound(e, delta);
    assert(k * delta <= e && k * delta >= 0) by (nonlinear_arith)
        requires
            0 <= k <= e / delta,
            e == delta * (e / delta) + e % delta,
            e % delta >= 0,
            delta >= 1,
    ;
}

/// No two positions of a grid are the same point.
pub proof fn lemma_grid_positions_distinct(
    positions: Seq<Position>,
    data: ProblemDto,
    delta: int,
    i: int,
    j: int,
)
    requires
        data.stage_wf(),
        delta >= 1,
        is_grid_of(positions, data, delta),
        0 <= i < j < positions.len(),
    ensures
        positions[i].p != positions[j].p,
{
    let cols = grid_cols(data, delta);
    let rows = grid_rows(data, delta);
    assert(cols > 0 && rows > 0) by (nonlinear_arith)
        requires
            rows * cols > 0,
            rows >= 0,
            cols >= 0,
    ;
    let ri = i / cols;
    let ci = i % cols;
    let rj = j / cols;
    let cj = j % cols;
    vstd::arithmetic::div_mod::lemma_fundamental_div_mod(i, cols);
    vstd::arithmetic::div_mod::lemma_fundamental_div_mod(j, cols);
    vstd::arithmetic::div_mod::lemma_mod_bound(i, cols);
    vstd::arithmetic::div_mod::lemma_mod_bound(j, cols);
    assert(0 <= ri < rows && ri * cols == cols * ri) by (nonlinear_arith)
        requires
            i == cols * ri + ci,
            0 <= ci < cols,
            0 <= i < rows * cols,
    ;
    assert(0 <= rj < rows && rj * cols == cols * rj) by (nonlinear_arith)
        requires
            j == cols * rj + cj,
            0 <= cj < cols,
            0 <= j < rows * cols,
    ;
    assert(cell_index(ri, ci, cols) == i);
    assert(cell_index(rj, cj, cols) == j);
    assert(positions[cell_index(ri, ci, cols)].p == grid_point(data, delta, ri, ci));
    assert(positions[cell_index(rj, cj, cols)].p == grid_point(data, delta, rj, cj));
    lemma_axis_step(min_x(data), max_x(data), delta, ci);
    lemma_axis_step(min_x(data), max_x(data), delta, cj);
    lemma_axis_step(min_y(data), max_y(data), delta, ri);
    lemma_axis_step(min_y(data), max_y(data), delta, rj);
    if positions[i].p == positions[j].p {
        assert(ci == cj) by (nonlinear_arith)
            requires
                ci * delta == cj * delta,
                delta >= 1,
        ;
        assert(ri == rj) by (nonlinear_arith)
            requires
                ri * delta == rj * delta,
                delta >= 1,
        ;
    }
}

/// A stage that leaves room for the margins has a grid with at least one
/// position.
pub proof fn lemma_grid_not_empty(data: ProblemDto, delta: int)
    requires
        delta >= 1,
        data.stage_width >= 2 * STAGE_MARGIN,
        data.stage_height >= 2 * STAGE_MARGIN,
    ensures
        grid_cols(data, delta) >= 1,
        grid_rows(data, delta) >= 1,
        grid_rows(data, delta) * grid_cols(data, delta) >= 1,
{
    vstd::arithmetic::div_mod::lemma_div_pos_is_pos(max_x(data) - min_x(data), delta);
    vstd::arithmetic::div_mod::lemma_div_pos_is_pos(max_y(data) - min_y(data), delta);
    let c = grid_cols(data, delta);
    let r = grid_rows(data, delta);
    assert(r * c >= 1) by (nonlinear_arith)
        requires
            r >= 1,
            c >= 1,
    ;
}

/// The number of grid lines between `lo` and `hi` at spacing `delta`.
pub fn count_along(lo: i64, hi: i64, delta: i64) -> (n: i64)
    requires
        -COORD_LIMIT - STAGE_MARGIN <= lo <= COORD_LIMIT + STAGE_MARGIN,
        -COORD_LIMIT - STAGE_MARGIN <= hi <= COORD_LIMIT + STAGE_MARGIN,
        delta >= 1,
    ensures
        n == axis_count(lo as int, hi as int, delta as int),
        0 <= n <= 2 * COORD_LIMIT + 2 * STAGE_MARGIN + 1,
{
    if hi < lo {
        0
    } else {
        let extent: u64 = (hi - lo) as u64;
        let step: u64 = delta as u64;
        proof {
            vstd::arithmetic::div_mod::lemma_div_pos_is_pos(extent as int, step as int);
            vstd::arithmetic::div_mod::lemma_div_is_ordered_by_denominator(
                extent as int,
                1,
                step as int,
            );
            vstd::arithmetic::div_mod::lemma_div_by_self(1);
            vstd::arithmetic::div_mod::lemma_div_basics_3(extent as int);
        }
        (extent / step) as i64 + 1
    }
}

/// One of the first `n` placed musicians stands within the least
/// distance of `p`.
pub open spec fn near_any(p: Point2D, placements: Seq<Option<Point2D>>, n: int) -> bool {
    exists|j: int|
        0 <= j < n && (#[trigger] placements[j]).is_some() && dist2(p, placements[j].unwrap())
            <= SEPARATION_SQ
}

impl Grid {
    /// Every candidate position is within the supported range.
    pub open spec fn wf(&self) -> bool {
        forall|k: int| 0 <= k < self.positions@.len() ==> (#[trigger] self.positions@[k]).p.wf()
    }

    /// Every candidate position lies in the inner area of the stage.
    pub open spec fn within_stage(&self, data: ProblemDto) -> bool {
        forall|k: int|
            0 <= k < self.positions@.len() ==> !outside_stage(
                data,
                (#[trigger] self.positions@[k]).p,
            )
    }

    /// Some candidate position is free.
    pub open spec fn has_free_position(&self) -> bool {
        exists|k: int| 0 <= k < self.positions@.len() && !(#[trigger] self.positions@[k]).taken
    }

    /// The number of positions of the grid with spacing `delta`.
    pub fn count_positions(data: &ProblemDto, delta: i64) -> (count: i128)
        requires
            data.stage_wf(),
            delta >= 1,
        ensures
            count == position_count(*data, delta as int),
            0 <= count <= 4_611_730_003_292_344_321,
    {
        let x: i64 = data.stage_bottom_left.x + STAGE_MARGIN;
        let y: i64 = data.stage_bottom_left.y + STAGE_MARGIN;
        let until_x: i64 = data.stage_bottom_left.x + data.stage_width - STAGE_MARGIN;
        let until_y: i64 = data.stage_bottom_left.y + data.stage_height - STAGE_MARGIN;
        let cols = count_along(x, until_x, delta);
        let rows = count_along(y, until_y, delta);
        proof {
            let side: int = 2 * COORD_LIMIT + 2 * STAGE_MARGIN + 1;
            lemma_product_bound(cols as int, rows as int, side, side);
            assert(side * side == 4_611_730_003_292_344_321int) by (nonlinear_arith)
                requires
                    side == 2_147_493_889,
            ;
            assert(cols * rows >= 0) by (nonlinear_arith)
                requires
                    cols >= 0,
                    rows >= 0,
            ;
        }
        cols as i128 * rows as i128
    }

    /// The spacing of the candidate grid of a stage.
    pub fn spacing(data: &ProblemDto) -> (delta: i64)
        requires
            data.stage_wf(),
            1 <= data.musicians@.len() <= MUSICIAN_LIMIT,
        ensures
            delta == grid_spacing(*data),
            1 <= delta,
    {
        let musician_count: i128 = data.musicians.len() as i128;
        let min_position_count: i128 = musician_count * 4;
        let mut delta: i64 = START_SPACING;
        proof {
            lemma_first_stop(*data, START_SPACING as int);
            lemma_finest_needed(*data, START_SPACING as int);
        }
        if Self::count_positions(data, delta) < min_position_count {
            while delta > 1 && Self::count_positions(data, delta) < min_position_count
                invariant
                    data.stage_wf(),
                    min_position_count == POSITIONS_PER_MUSICIAN * data.musicians@.len(),
                    1 <= delta <= START_SPACING,
                    finest_needed(*data, START_SPACING as int) == finest_needed(
                        *data,
                        delta as int,
                    ),
                decreases delta,
            {
                delta -= 1;
            }
            return delta;
        }
        loop
            invariant_except_break
                first_stop(*data, START_SPACING as int) == first_stop(*data, delta as int),
            invariant
                data.stage_wf(),
                1 <= data.musicians@.len() <= MUSICIAN_LIMIT,
                !spacing_starves(*data, START_SPACING as int),
                musician_count == data.musicians@.len(),
                min_position_count == POSITIONS_PER_MUSICIAN * data.musicians@.len(),
                START_SPACING <= delta,
                delta <= spacing_limit(*data) || delta == START_SPACING,
            ensures
                delta == grid_spacing(*data),
                1 <= delta,
            decreases spacing_limit(*data) - delta,
        {
            let position_count = Self::count_positions(data, delta);
            if position_count < min_position_count {
                delta -= 1;
                break ;
            }
            proof {
                lemma_product_bound(
                    position_count as int,
                    musician_count as int,
                    4_611_730_003_292_344_321,
                    MUSICIAN_LIMIT as int,
                );
            }
            if position_count * musician_count < POSITION_BUDGET as i128 {
                break ;
            }
            proof {
                if delta >= spacing_limit(*data) {
                    lemma_limit_starves(*data, delta as int);
                }
            }
            delta += 1;
        }
        delta
    }

    /// The candidate grid of a problem.
    pub fn new(problem: &Problem) -> (grid: Self)
        requires
            problem.data.stage_wf(),
            1 <= problem.data.musicians@.len() <= MUSICIAN_LIMIT,
        ensures
            is_grid_of(grid.positions@, problem.data, grid_spacing(problem.data)),
            grid.wf(),
            grid.within_stage(problem.data),
            forall|k: int|
                0 <= k < grid.positions@.len() ==> !(#[trigger] grid.positions@[k]).taken,
            problem.data.stage_width > 2 * STAGE_MARGIN && problem.data.stage_height > 2
                * STAGE_MARGIN ==> grid.positions@.len() >= POSITIONS_PER_MUSICIAN
                * problem.data.musicians@.len(),
            problem.data.stage_width >= 2 * STAGE_MARGIN && problem.data.stage_height >= 2
                * STAGE_MARGIN ==> grid.positions@.len() >= 1,
            forall|i: int, j: int|
                0 <= i < j < grid.positions@.len() ==> (#[trigger] grid.positions@[i]).p != (
                #[trigger] grid.positions@[j]).p,
    {
        let data = &problem.data;

        let x: i64 = data.stage_bottom_left.x + STAGE_MARGIN;
        let y: i64 = data.stage_bottom_left.y + STAGE_MARGIN;
        let until_x: i64 = data.stage_bottom_left.x + data.stage_width - STAGE_MARGIN;
        let until_y: i64 = data.stage_bottom_left.y + data.stage_height - STAGE_MARGIN;
        let delta = Grid::spacing(data);
        let cols = count_along(x, until_x, delta);
        let rows = count_along(y, until_y, delta);
        let mut positions: Vec<Position> = Vec::new();
        let mut row: i64 = 0;
        while row < rows
            invariant
                0 <= row <= rows,
                delta >= 1,
                x == min_x(*data),
                y == min_y(*data),
                until_x == max_x(*data),
                until_y == max_y(*data),
                data.stage_wf(),
                cols == grid_cols(*data, delta as int),
                rows == grid_rows(*data, delta as int),
                positions@.len() == row * cols,
                forall|k: int|
                    0 <= k < positions@.len() ==> (#[trigger] positions@[k]).p.wf()
                        && !positions@[k].taken && !outside_stage(*data, positions@[k].p),
                forall|r: int, c: int|
                    0 <= r < row && 0 <= c < cols ==> #[trigger] positions@[cell_index(
                        r,
                        c,
                        cols as int,
                    )] == (Position { p: grid_point(*data, delta as int, r, c), taken: false }),
            decreases rows - row,
        {
            proof {
                lemma_axis_step(y as int, until_y as int, delta as int, row as int);
            }
            let curr_y: i64 = (y as i128 + row as i128 * delta as i128) as i64;
            let mut col: i64 = 0;
            while col < cols
                invariant
                    0 <= col <= cols,
                    0 <= row < rows,
                    delta >= 1,
                    x == min_x(*data),
                    y == min_y(*data),
                    until_x == max_x(*data),
                    until_y == max_y(*data),
                    data.stage_wf(),
                    curr_y == y + row * delta,
                    y <= curr_y <= until_y,
                    cols == grid_cols(*data, delta as int),
                    rows == grid_rows(*data, delta as int),
                    positions@.len() == row * cols + col,
                    forall|k: int|
                        0 <= k < positions@.len() ==> (#[trigger] positions@[k]).p.wf()
                            && !positions@[k].taken && !outside_stage(*data, positions@[k].p),
                    forall|r: int, c: int|
                        0 <= r < row && 0 <= c < cols ==> #[trigger] positions@[cell_index(
                            r,
                            c,
                            cols as int,
                        )] == (Position {
                            p: grid_point(*data, delta as int, r, c),
                            taken: false,
                        }),
                    forall|c: int|
                        0 <= c < col ==> #[trigger] positions@[cell_index(
                            row as int,
                            c,
                            cols as int,
                        )] == (Position {
                            p: grid_point(*data, delta as int, row as int, c),
                            taken: false,
                        }),
                decreases cols - col,
            {
                proof {
                    lemma_axis_step(x as int, until_x as int, delta as int, col as int);
                }
                let curr_x: i64 = (x as i128 + col as i128 * delta as i128) as i64;
                let ghost before = positions@;
                positions.push(Position { p: Point2D { x: curr_x, y: curr_y }, taken: false });
                proof {
                    assert forall|r: int, c: int| 0 <= r < row && 0 <= c < cols implies
                        #[trigger] positions@[cell_index(r, c, cols as int)] == (Position {
                        p: grid_point(*data, delta as int, r, c),
                        taken: false,
                    }) by {
                        lemma_cell_index_lt(r, c, row as int, cols as int);
                        assert(positions@[cell_index(r, c, cols as int)] == before[cell_index(
                            r,
                            c,
                            cols as int,
                        )]);
                    }
                    assert forall|c: int| 0 <= c < col + 1 implies #[trigger] positions@[cell_index(
                        row as int,
                        c,
                        cols as int,
                    )] == (Position {
                        p: grid_point(*data, delta as int, row as int, c),
                        taken: false,
                    }) by {
                        if c < col {
                            assert(positions@[cell_index(row as int, c, cols as int)]
                                == before[cell_index(row as int, c, cols as int)]);
                        }
                    }
                }
                col += 1;
            }
            proof {
                assert((row + 1) * cols == row * cols + cols) by (nonlinear_arith);
                assert forall|r: int, c: int| 0 <= r < row + 1 && 0 <= c < cols implies
                    #[trigger] positions@[cell_index(r, c, cols as int)] == (Position {
                    p: grid_point(*data, delta as int, r, c),
                    taken: false,
                }) by {
                    if r == row {
                    }
                }
            }
            row += 1;
        }
        proof {
            if data.stage_width > 2 * STAGE_MARGIN && data.stage_height > 2 * STAGE_MARGIN {
                lemma_finest_grid_feeds(*data);
                lemma_grid_spacing_keeps_four(*data);
            }
            lemma_grid_spacing_positive(*data);
            if data.stage_width >= 2 * STAGE_MARGIN && data.stage_height >= 2 * STAGE_MARGIN {
                lemma_grid_not_empty(*data, grid_spacing(*data));
            }
            assert(rows * cols == cols * rows) by (nonlinear_arith);
            assert forall|i: int, j: int| 0 <= i < j < positions@.len() implies (
            #[trigger] positions@[i]).p != (#[trigger] positions@[j]).p by {
                lemma_grid_positions_distinct(positions@, *data, grid_spacing(*data), i, j);
            }
        }
        Grid { positions }
    }

    /// Marks anew which positions are taken: those within the least
    /// distance of a placed musician.
    pub fn recalculate_taken(&mut self, placements: &Vec<Option<Point2D>>)
        requires
            old(self).wf(),
            forall|j: int|
                0 <= j < placements@.len() && (#[trigger] placements@[j]).is_some()
                    ==> placements@[j].unwrap().wf(),
        ensures
            final(self).positions@.len() == old(self).positions@.len(),
            forall|k: int|
                0 <= k < old(self).positions@.len() ==> (#[trigger] final(self).positions@[k]).p
                    == old(self).positions@[k].p,
            forall|k: int|
                0 <= k < old(self).positions@.len() ==> (#[trigger] final(self).positions@[k]).taken
                    == near_any(old(self).positions@[k].p, placements@, placements@.len() as int),
    {
        let mut k: usize = 0;
        while k < self.positions.len()
            invariant
                k <= self.positions@.len(),
                self.positions@.len() == old(self).positions@.len(),
                forall|i: int|
                    0 <= i < self.positions@.len() ==> (#[trigger] self.positions@[i]).p == old(
                        self,
                    ).positions@[i].p,
                forall|i: int| 0 <= i < k ==> !(#[trigger] self.positions@[i]).taken,
            decreases self.positions@.len() - k,
        {
            let pos = self.positions[k];
            self.positions.set(k, Position { p: pos.p, taken: false });
            k += 1;
        }
        let mut j: usize = 0;
        while j < placements.len()
            invariant
                j <= placements@.len(),
                old(self).wf(),
                forall|i: int|
                    0 <= i < placements@.len() && (#[trigger] placements@[i]).is_some()
                        ==> placements@[i].unwrap().wf(),
                self.positions@.len() == old(self).positions@.len(),
                forall|i: int|
                    0 <= i < self.positions@.len() ==> (#[trigger] self.positions@[i]).p == old(
                        self,
                    ).positions@[i].p,
                forall|i: int|
                    0 <= i < self.positions@.len() ==> (#[trigger] self.positions@[i]).taken
                        == near_any(self.positions@[i].p, placements@, j as int),
            decreases placements@.len() - j,
        {
            if let Some(placement) = &placements[j] {
                let mut k: usize = 0;
                while k < self.positions.len()
                    invariant
                        k <= self.positions@.len(),
                        j < placements@.len(),
                        placements@[j as int] == Some(*placement),
                        placement.wf(),
                        old(self).wf(),
                        self.positions@.len() == old(self).positions@.len(),
                        forall|i: int|
                            0 <= i < self.positions@.len() ==> (#[trigger] self.positions@[i]).p
                                == old(self).positions@[i].p,
                        forall|i: int|
                            0 <= i < k ==> (#[trigger] self.positions@[i]).taken == near_any(
                                self.positions@[i].p,
                                placements@,
                                j + 1,
                            ),
                        forall|i: int|
                            k <= i < self.positions@.len() ==> (
                            #[trigger] self.positions@[i]).taken == near_any(
                                self.positions@[i].p,
                                placements@,
                                j as int,
                            ),
                    decreases self.positions@.len() - k,
                {
                    let pos = self.positions[k];
                    assert(old(self).positions@[k as int].p.wf());
                    let near = distance2(&pos.p, placement) <= SEPARATION_SQ;
                    if near {
                        self.positions.set(k, Position { p: pos.p, taken: true });
                    }
                    k += 1;
                }
            } else {
                assert forall|i: int| 0 <= i < self.positions@.len() implies (
                #[trigger] self.positions@[i]).taken == near_any(
                    self.positions@[i].p,
                    placements@,
                    j + 1,
                ) by {
                    assert(near_any(self.positions@[i].p, placements@, j as int) == near_any(
                        self.positions@[i].p,
                        placements@,
                        j + 1,
                    ));
                }
            }
            j += 1;
        }
    }

    /// Tells whether some candidate position is free.
    pub fn any_free(&self) -> (free: bool)
        ensures
            free == self.has_free_position(),
    {
        let mut k: usize = 0;
        while k < self.positions.len()
            invariant
                k <= self.positions@.len(),
                forall|i: int| 0 <= i < k ==> (#[trigger] self.positions@[i]).taken,
            decreases self.positions@.len() - k,
        {
            if !self.positions[k].taken {
                return true;
            }
            k += 1;
        }
        false
    }

    /// Marks every position within the least distance of `center` as
    /// taken, and returns the set of these positions.
    pub fn take_near(&mut self, center: &Point2D) -> (new_taken_positions: HashSet<usize>)
        requires
            old(self).wf(),
            center.wf(),
        ensures
            final(self).positions@.len() == old(self).positions@.len(),
            forall|k: int|
                0 <= k < old(self).positions@.len() ==> (#[trigger] final(self).positions@[k]).p
                    == old(self).positions@[k].p,
            forall|k: int|
                0 <= k < old(self).positions@.len() ==> (#[trigger] final(self).positions@[k]).taken
                    == (old(self).positions@[k].taken || dist2(old(self).positions@[k].p, *center)
                    <= SEPARATION_SQ),
            forall|k: usize|
                #[trigger] new_taken_positions@.contains(k) <==> (k < old(self).positions@.len()
                    && dist2(old(self).positions@[k as int].p, *center) <= SEPARATION_SQ),
    {
        let mut new_taken_positions: HashSet<usize> = HashSet::new();
        let mut idx: usize = 0;
        while idx < self.positions.len()
            invariant
                idx <= self.positions@.len(),
                old(self).wf(),
                center.wf(),
                self.positions@.len() == old(self).positions@.len(),
                forall|k: int|
                    0 <= k < self.positions@.len() ==> (#[trigger] self.positions@[k]).p == old(
                        self,
                    ).positions@[k].p,
                forall|k: int|
                    0 <= k < idx ==> (#[trigger] self.positions@[k]).taken == (old(
                        self,
                    ).positions@[k].taken || dist2(old(self).positions@[k].p, *center)
                        <= SEPARATION_SQ),
                forall|k: int|
                    idx <= k < self.positions@.len() ==> (#[trigger] self.positions@[k]).taken
                        == old(self).positions@[k].taken,
                forall|k: usize|
                    #[trigger] new_taken_positions@.contains(k) <==> (k < idx && dist2(
                        old(self).positions@[k as int].p,
                        *center,
                    ) <= SEPARATION_SQ),
            decreases self.positions@.len() - idx,
        {
            let pos = self.positions[idx];
            assert(old(self).positions@[idx as int].p.wf());
            let dist2 = distance2(&pos.p, center);
            if dist2 <= SEPARATION_SQ {
                self.positions.set(idx, Position { p: pos.p, taken: true });
                new_taken_positions.insert(idx);
            }
            idx += 1;
        }
        new_taken_positions
    }
}

/// The point lies outside the inner area of the stage, in which the
/// musicians have to stand.
pub open spec fn outside_stage(data: ProblemDto, p: Point2D) -> bool {
    p.x < min_x(data) || p.x > max_x(data) || p.y < min_y(data) || p.y > max_y(data)
}

/// Musicians `a` and `b` are two, both placed, and nearer to each other
/// than the least distance.
pub open spec fn too_close(positions: Seq<Option<Point2D>>, a: int, b: int) -> bool {
    &&& a != b
    &&& positions[a].is_some()
    &&& positions[b].is_some()
    &&& dist2(positions[a].unwrap(), positions[b].unwrap()) < SEPARATION_SQ
}

/// Musician `k` is too close to one of the first `n`.
pub open spec fn close_to_any(positions: Seq<Option<Point2D>>, k: int, n: int) -> bool {
    exists|j: int| 0 <= j < n && #[trigger] too_close(positions, k, j)
}

/// Musician `i` is placed on ground that is not allowed: outside the inner area
/// of the stage, or too close to another.
pub open spec fn is_invalid_position(
    positions: Seq<Option<Point2D>>,
    data: ProblemDto,
    i: int,
) -> bool {
    positions[i].is_some() && (outside_stage(data, positions[i].unwrap()) || close_to_any(
        positions,
        i,
        positions.len() as int,
    ))
}

/// The musicians who are placed where they may not stand.
pub fn calculate_invalid_positions(positions: &Vec<Option<Point2D>>, problem: &ProblemDto) -> (result:
    HashSet<usize>)
    requires
        problem.stage_wf(),
        forall|j: int|
            0 <= j < positions@.len() && (#[trigger] positions@[j]).is_some()
                ==> positions@[j].unwrap().wf(),
    ensures
        forall|k: usize| #[trigger]
            result@.contains(k) <==> (k < positions@.len() && is_invalid_position(
                positions@,
                *problem,
                k as int,
            )),
{
    let min_x: i64 = problem.stage_bottom_left.x + STAGE_MARGIN;
    let min_y: i64 = problem.stage_bottom_left.y + STAGE_MARGIN;
    let max_x: i64 = problem.stage_bottom_left.x + problem.stage_width - STAGE_MARGIN;
    let max_y: i64 = problem.stage_bottom_left.y + problem.stage_height - STAGE_MARGIN;
    let mut result: HashSet<usize> = HashSet::new();
    let mut i: usize = 0;
    while i < positions.len()
        invariant
            i <= positions@.len(),
            min_x == self::min_x(*problem),
            min_y == self::min_y(*problem),
            max_x == self::max_x(*problem),
            max_y == self::max_y(*problem),
            forall|j: int|
                0 <= j < positions@.len() && (#[trigger] positions@[j]).is_some()
                    ==> positions@[j].unwrap().wf(),
            forall|k: usize| #[trigger]
                result@.contains(k) <==> (k < i && positions@[k as int].is_some() && (
                outside_stage(*problem, positions@[k as int].unwrap()) || close_to_any(
                    positions@,
                    k as int,
                    i as int,
                ))),
        decreases positions@.len() - i,
    {
        if let Some(pos0) = &positions[i] {
            if pos0.x < min_x || pos0.x > max_x || pos0.y < min_y || pos0.y > max_y {
                result.insert(i);
            }
            let mut j: usize = 0;
            while j < i
                invariant
                    j <= i,
                    i < positions@.len(),
                    positions@[i as int] == Some(*pos0),
                    forall|k: int|
                        0 <= k < positions@.len() && (#[trigger] positions@[k]).is_some()
                            ==> positions@[k].unwrap().wf(),
                    forall|k: usize| #[trigger]
                        result@.contains(k) <==> ((k < i && positions@[k as int].is_some() && (
                        outside_stage(*problem, positions@[k as int].unwrap()) || close_to_any(
                            positions@,
                            k as int,
                            i as int,
                        ) || (k < j && too_close(positions@, k as int, i as int)))) || (k == i && (
                        outside_stage(*problem, *pos0) || close_to_any(
                            positions@,
                            i as int,
                            j as int,
                        )))),
                decreases i - j,
            {
                if let Some(pos1) = &positions[j] {
                    proof {
                        lemma_dist2_symmetric(*pos0, *pos1);
                    }
                    if distance2(pos0, pos1) < SEPARATION_SQ {
                        result.insert(i);
                        result.insert(j);
                        assert(too_close(positions@, i as int, j as int));
                        assert(too_close(positions@, j as int, i as int));
                    }
                }
                proof {
                    lemma_close_to_one_more(positions@, i as int, j as int);
                }
                j += 1;
            }
            proof {
                assert forall|k: usize| #[trigger]
                    result@.contains(k) <==> (k < i + 1 && positions@[k as int].is_some() && (
                    outside_stage(*problem, positions@[k as int].unwrap()) || close_to_any(
                        positions@,
                        k as int,
                        i + 1,
                    ))) by {
                    lemma_close_to_one_more(positions@, k as int, i as int);
                }
            }
        } else {
            proof {
                assert forall|k: usize| #[trigger]
                    result@.contains(k) <==> (k < i + 1 && positions@[k as int].is_some() && (
                    outside_stage(*problem, positions@[k as int].unwrap()) || close_to_any(
                        positions@,
                        k as int,
                        i + 1,
                    ))) by {
                    lemma_close_to_one_more(positions@, k as int, i as int);
                }
            }
        }
        i += 1;
    }
    result
}

/// A musician is too close to one of `n + 1` others if too close to one of the
/// first `n` or to the last.
pub proof fn lemma_close_to_one_more(positions: Seq<Option<Point2D>>, k: int, n: int)
    requires
        0 <= n,
    ensures
        close_to_any(positions, k, n + 1) == (close_to_any(positions, k, n) || too_close(
            positions,
            k,
            n,
        )),
{
    if close_to_any(positions, k, n + 1) {
        let j = choose|j: int| 0 <= j < n + 1 && #[trigger] too_close(positions, k, j);
        if j < n {
            assert(close_to_any(positions, k, n));
        }
    }
    if close_to_any(positions, k, n) {
        let j = choose|j: int| 0 <= j < n && #[trigger] too_close(positions, k, j);
        assert(too_close(positions, k, j));
    }
    if too_close(positions, k, n) {
        assert(close_to_any(positions, k, n + 1));
    }
}

/// The number of points on the border of the inner area of the stage
/// that are looked at to tell who sees the stage: the points at whole
/// coordinates of the lower and the upper side, and those of the left and
/// the right side. A stage without an inner area has none.
pub open spec fn edge_count(data: ProblemDto) -> int {
    if max_x(data) < min_x(data) || max_y(data) < min_y(data) {
        0
    } else {
        2 * (max_x(data) - min_x(data) + 1) + 2 * (max_y(data) - min_y(data) + 1)
    }
}

/// The point number `k` on the border of the inner area: first along x,
/// on the lower and the upper side in turn, then along y, on the left and
/// the right side in turn.
pub open spec fn edge_point(data: ProblemDto, k: int) -> Point2D {
    let across = 2 * (max_x(data) - min_x(data) + 1);
    if k < across {
        Point2D {
            x: (min_x(data) + k / 2) as i64,
            y: if k % 2 == 0 {
                min_y(data) as i64
            } else {
                max_y(data) as i64
            },
        }
    } else {
        Point2D {
            x: if (k - across) % 2 == 0 {
                min_x(data) as i64
            } else {
                max_x(data) as i64
            },
            y: (min_y(data) + (k - across) / 2) as i64,
        }
    }
}

/// From `eye` some point on the border of the inner area of the stage can
/// be seen past all pillars.
pub open spec fn sees_stage(data: ProblemDto, eye: Point2D) -> bool {
    exists|k: int|
        0 <= k < edge_count(data) && !blocked_by_pillar(
            eye,
            #[trigger] edge_point(data, k),
            data.pillars@,
        )
}

/// The pillar hides some point on the border of the inner area of the
/// stage from `eye`.
pub open spec fn hides_stage(data: ProblemDto, pillar: PillarDto, eye: Point2D) -> bool {
    exists|k: int|
        0 <= k < edge_count(data) && segment_hits_disk(
            eye,
            #[trigger] edge_point(data, k),
            pillar.position(),
            pillar.radius as int,
        )
}

/// The pillar hides some point on the border of the inner area from an
/// attendee who sees the stage.
pub open spec fn pillar_matters(data: ProblemDto, pillar: PillarDto) -> bool {
    exists|a: int|
        0 <= a < data.attendees@.len() && sees_stage(
            data,
            (#[trigger] data.attendees@[a]).position(),
        ) && hides_stage(data, pillar, data.attendees@[a].position())
}

/// The number of points on the border of the inner area.
pub fn count_edge_points(data: &ProblemDto) -> (count: u64)
    requires
        data.stage_wf(),
    ensures
        count == edge_count(*data),
{
    let x0: i64 = data.stage_bottom_left.x + STAGE_MARGIN;
    let y0: i64 = data.stage_bottom_left.y + STAGE_MARGIN;
    let x1: i64 = data.stage_bottom_left.x + data.stage_width - STAGE_MARGIN;
    let y1: i64 = data.stage_bottom_left.y + data.stage_height - STAGE_MARGIN;
    if x1 < x0 || y1 < y0 {
        0
    } else {
        2 * ((x1 - x0) as u64 + 1) + 2 * ((y1 - y0) as u64 + 1)
    }
}

/// The point number `k` on the border of the inner area.
pub fn edge_point_at(data: &ProblemDto, k: u64) -> (p: Point2D)
    requires
        data.stage_wf(),
        k < edge_count(*data),
    ensures
        p == edge_point(*data, k as int),
        p.wf(),
{
    let x0: i64 = data.stage_bottom_left.x + STAGE_MARGIN;
    let y0: i64 = data.stage_bottom_left.y + STAGE_MARGIN;
    let x1: i64 = data.stage_bottom_left.x + data.stage_width - STAGE_MARGIN;
    let y1: i64 = data.stage_bottom_left.y + data.stage_height - STAGE_MARGIN;
    let across: u64 = 2 * ((x1 - x0) as u64 + 1);
    if k < across {
        Point2D {
            x: x0 + (k / 2) as i64,
            y: if k % 2 == 0 {
                y0
            } else {
                y1
            },
        }
    } else {
        Point2D {
            x: if (k - across) % 2 == 0 {
                x0
            } else {
                x1
            },
            y: y0 + ((k - across) / 2) as i64,
        }
    }
}

/// Tells whether some point on the border of the inner area of the stage
/// can be seen from `eye` past all pillars.
pub fn is_stage_visible(data: &ProblemDto, eye: &Point2D) -> (visible: bool)
    requires
        data.wf(),
        eye.wf(),
    ensures
        visible == sees_stage(*data, *eye),
{
    let count = count_edge_points(data);
    let mut k: u64 = 0;
    while k < count
        invariant
            k <= count,
            count == edge_count(*data),
            data.wf(),
            eye.wf(),
            forall|j: int|
                0 <= j < k ==> blocked_by_pillar(*eye, #[trigger] edge_point(*data, j), data.pillars@),
        decreases count - k,
    {
        let point = edge_point_at(data, k);
        if !is_blocked_by_pillars(eye, &point, &data.pillars) {
            return true;
        }
        k += 1;
    }
    false
}

/// Tells whether the pillar hides some point on the border of the inner
/// area of the stage from `eye`.
pub fn is_obscuring_vision(data: &ProblemDto, pillar: &PillarDto, eye: &Point2D) -> (obscuring:
    bool)
    requires
        data.stage_wf(),
        pillar.wf(),
        eye.wf(),
    ensures
        obscuring == hides_stage(*data, *pillar, *eye),
{
    let count = count_edge_points(data);
    let center = pillar.as_vec();
    let mut k: u64 = 0;
    while k < count
        invariant
            k <= count,
            count == edge_count(*data),
            data.stage_wf(),
            pillar.wf(),
            center == pillar.position(),
            eye.wf(),
            forall|j: int|
                0 <= j < k ==> !segment_hits_disk(
                    *eye,
                    #[trigger] edge_point(*data, j),
                    pillar.position(),
                    pillar.radius as int,
                ),
        decreases count - k,
    {
        let point = edge_point_at(data, k);
        if is_sound_blocked(&point, &center, pillar.radius, eye) {
            return true;
        }
        k += 1;
    }
    false
}

/// Finds the attendees and the pillars that matter for the score. An
/// attendee matters if some point on the border of the inner area of the
/// stage is in sight past all pillars; a pillar, if it hides such a point
/// from an attendee who matters. Returns the numbers of those attendees
/// and of those pillars, both in rising order.
pub fn prune_attendees_and_pillars(problem: &ProblemDto) -> (kept: (Vec<usize>, Vec<usize>))
    requires
        problem.wf(),
    ensures
        forall|i: int, j: int|
            0 <= i < j < kept.0@.len() ==> (#[trigger] kept.0@[i]) < (#[trigger] kept.0@[j]),
        forall|i: int, j: int|
            0 <= i < j < kept.1@.len() ==> (#[trigger] kept.1@[i]) < (#[trigger] kept.1@[j]),
        forall|a: usize|
            #[trigger] kept.0@.contains(a) <==> (a < problem.attendees@.len() && sees_stage(
                *problem,
                problem.attendees@[a as int].position(),
            )),
        forall|p: usize|
            #[trigger] kept.1@.contains(p) <==> (p < problem.pillars@.len() && pillar_matters(
                *problem,
                problem.pillars@[p as int],
            )),
{
    let mut pruned_attendees: Vec<usize> = Vec::new();
    let mut a: usize = 0;
    while a < problem.attendees.len()
        invariant
            a <= problem.attendees@.len(),
            problem.wf(),
            forall|i: int|
                0 <= i < pruned_attendees@.len() ==> (#[trigger] pruned_attendees@[i]) < a,
            forall|i: int, j: int|
                0 <= i < j < pruned_attendees@.len() ==> (#[trigger] pruned_attendees@[i]) < (
                #[trigger] pruned_attendees@[j]),
            forall|k: usize|
                #[trigger] pruned_attendees@.contains(k) <==> (k < a && sees_stage(
                    *problem,
                    problem.attendees@[k as int].position(),
                )),
        decreases problem.attendees@.len() - a,
    {
        assert(problem.attendees@[a as int].wf());
        let eye = problem.attendees[a].as_vec();
        let ghost before = pruned_attendees@;
        if is_stage_visible(problem, &eye) {
            pruned_attendees.push(a);
            proof {
                lemma_pushed_contains(before, a);
            }
        }
        a += 1;
    }
    let mut pruned_pillars: Vec<usize> = Vec::new();
    let mut p: usize = 0;
    while p < problem.pillars.len()
        invariant
            p <= problem.pillars@.len(),
            problem.wf(),
            forall|i: int|
                0 <= i < pruned_attendees@.len() ==> (#[trigger] pruned_attendees@[i])
                    < problem.attendees@.len(),
            forall|k: usize|
                #[trigger] pruned_attendees@.contains(k) <==> (k < problem.attendees@.len()
                    && sees_stage(*problem, problem.attendees@[k as int].position())),
            forall|i: int| 0 <= i < pruned_pillars@.len() ==> (#[trigger] pruned_pillars@[i]) < p,
            forall|i: int, j: int|
                0 <= i < j < pruned_pillars@.len() ==> (#[trigger] pruned_pillars@[i]) < (
                #[trigger] pruned_pillars@[j]),
            forall|k: usize|
                #[trigger] pruned_pillars@.contains(k) <==> (k < p && pillar_matters(
                    *problem,
                    problem.pillars@[k as int],
                )),
        decreases problem.pillars@.len() - p,
    {
        let pillar = &problem.pillars[p];
        assert(problem.pillars@[p as int].wf());
        let mut is_obscuring_vision_of_anyone = false;
        let mut i: usize = 0;
        while i < pruned_attendees.len() && !is_obscuring_vision_of_anyone
            invariant
                i <= pruned_attendees@.len(),
                problem.wf(),
                pillar.wf(),
                *pillar == problem.pillars@[p as int],
                forall|j: int|
                    0 <= j < pruned_attendees@.len() ==> (#[trigger] pruned_attendees@[j])
                        < problem.attendees@.len(),
                forall|k: usize|
                    #[trigger] pruned_attendees@.contains(k) <==> (k < problem.attendees@.len()
                        && sees_stage(*problem, problem.attendees@[k as int].position())),
                is_obscuring_vision_of_anyone ==> pillar_matters(*problem, *pillar),
                !is_obscuring_vision_of_anyone ==> forall|j: int|
                    0 <= j < i ==> !hides_stage(
                        *problem,
                        *pillar,
                        problem.attendees@[(#[trigger] pruned_attendees@[j]) as int].position(),
                    ),
            decreases pruned_attendees@.len() - i + if is_obscuring_vision_of_anyone {
                0int
            } else {
                1int
            },
        {
            let attendee = pruned_attendees[i];
            assert(problem.attendees@[attendee as int].wf());
            let eye = problem.attendees[attendee].as_vec();
            if is_obscuring_vision(problem, pillar, &eye) {
                is_obscuring_vision_of_anyone = true;
                proof {
                    assert(pruned_attendees@.contains(attendee));
                    assert(sees_stage(*problem, problem.attendees@[attendee as int].position()));
                }
            } else {
                i += 1;
            }
        }
        proof {
            if !is_obscuring_vision_of_anyone && pillar_matters(*problem, *pillar) {
                let who = choose|who: int|
                    0 <= who < problem.attendees@.len() && sees_stage(
                        *problem,
                        (#[trigger] problem.attendees@[who]).position(),
                    ) && hides_stage(*problem, *pillar, problem.attendees@[who].position());
                assert(pruned_attendees@.contains(who as usize));
                let at = choose|at: int|
                    0 <= at < pruned_attendees@.len() && pruned_attendees@[at] == who as usize;
                assert(!hides_stage(
                    *problem,
                    *pillar,
                    problem.attendees@[pruned_attendees@[at] as int].position(),
                ));
            }
        }
        let ghost before = pruned_pillars@;
        if is_obscuring_vision_of_anyone {
            pruned_pillars.push(p);
            proof {
                lemma_pushed_contains(before, p);
            }
        }
        p += 1;
    }
    (pruned_attendees, pruned_pillars)
}

/// A list with one more number at its end holds what it held and that
/// number.
pub proof fn lemma_pushed_contains(before: Seq<usize>, last: usize)
    ensures
        forall|k: usize| #[trigger] before.push(last).contains(k) <==> (before.contains(k) || k == last),
{
    let after = before.push(last);
    assert forall|k: usize| #[trigger] after.contains(k) <==> (before.contains(k) || k == last) by {
        if before.contains(k) {
            let i = choose|i: int| 0 <= i < before.len() && before[i] == k;
            assert(after[i] == k);
        }
        if k == last {
            assert(after[before.len() as int] == k);
        }
        if after.contains(k) {
            let i = choose|i: int| 0 <= i < after.len() && after[i] == k;
            if i < before.len() {
                assert(before[i] == k);
            }
        }
    }
}

} // verus!
