//! The lattice on which the annealer moves musicians: coordinates of two
//! interleaved families, their reflection at the edges, a value for every
//! coordinate, and the fit of the lattice into a rectangle of the stage.

use rand::Rng;
use vstd::prelude::*;

use crate::dto::{Point2D, COORD_LIMIT};
use crate::geometry::dist2;

verus! {

/// Largest number of cells of a lattice along one side. The coordinates
/// of such a lattice can be counted in a `usize` of 32 bits.
pub const CELL_LIMIT: usize = 32_767;

/// The size of a lattice in cells; a cell spans two lattice steps.
#[derive(Debug, Clone, Copy, Default, PartialEq, Eq, Structural)]
pub struct GridSize {
    pub cells_x: usize,
    pub cellx_y: usize,
}

/// A lattice coordinate. Not every pair of numbers is one: see
/// `GridSize::check`.
#[derive(Debug, Clone, Copy, PartialEq, Eq, Structural)]
pub struct GridCoord {
    pub x: isize,
    pub y: isize,
}

/// The two families of lattice coordinates: those with both numbers even
/// and those with both odd.
#[derive(Debug, Clone, Copy, PartialEq, Eq, Structural)]
pub enum CoordSpace {
    Even,
    Odd,
}

/// The family of a coordinate, if it belongs to one.
pub open spec fn coord_space(coord: GridCoord) -> Option<CoordSpace> {
    if coord.x % 2 == 0 && coord.y % 2 == 0 {
        Some(CoordSpace::Even)
    } else if coord.x % 2 == 1 && coord.y % 2 == 1 {
        Some(CoordSpace::Odd)
    } else {
        None
    }
}

/// `a` comes before `b` when ordered by x, then by y.
pub open spec fn coord_before(a: GridCoord, b: GridCoord) -> bool {
    a.x < b.x || (a.x == b.x && a.y < b.y)
}

/// `v` folded into `[0, m]` by reflection at `0` and at `m`, as often as
/// it takes.
#[verifier::opaque]
pub open spec fn fold(v: int, m: int) -> int {
    if m <= 0 {
        0
    } else {
        let r = v % (2 * m);
        if r <= m {
            r
        } else {
            2 * m - r
        }
    }
}

/// A number in `[0, m]` is its own fold.
pub proof fn lemma_fold_fixed(v: int, m: int)
    requires
        0 <= v <= m,
    ensures
        fold(v, m) == v,
{
    reveal(fold);
    if m > 0 {
        vstd::arithmetic::div_mod::lemma_small_mod(v as nat, (2 * m) as nat);
    }
}

/// Reflection at `0` does not change the fold.
pub proof fn lemma_fold_negate(v: int, m: int)
    ensures
        fold(-v, m) == fold(v, m),
{
    reveal(fold);
    if m > 0 {
        let d = 2 * m;
        let q = v / d;
        let r = v % d;
        vstd::arithmetic::div_mod::lemma_fundamental_div_mod(v, d);
        vstd::arithmetic::div_mod::lemma_mod_bound(v, d);
        if r == 0 {
            assert(-v == (-q) * d + 0) by (nonlinear_arith)
                requires
                    v == d * q + r,
                    r == 0,
            ;
            vstd::arithmetic::div_mod::lemma_fundamental_div_mod_converse(-v, d, -q, 0);
        } else {
            assert(-v == (-q - 1) * d + (d - r)) by (nonlinear_arith)
                requires
                    v == d * q + r,
            ;
            vstd::arithmetic::div_mod::lemma_fundamental_div_mod_converse(-v, d, -q - 1, d - r);
        }
    }
}

/// Reflection at `m` does not change the fold.
pub proof fn lemma_fold_mirror(v: int, m: int)
    ensures
        fold(2 * m - v, m) == fold(v, m),
{
    reveal(fold);
    if m > 0 {
        let d = 2 * m;
        vstd::arithmetic::div_mod::lemma_mod_multiples_vanish(1, -v, d);
        assert(d * 1 + (-v) == 2 * m - v);
        lemma_fold_negate(v, m);
    }
}

/// Folding keeps a number even or odd, and within `[0, m]`.
pub proof fn lemma_fold_parity(v: int, m: int)
    requires
        m > 0,
    ensures
        fold(v, m) % 2 == v % 2,
        0 <= fold(v, m) <= m,
{
    reveal(fold);
    let d = 2 * m;
    let q = v / d;
    let r = v % d;
    vstd::arithmetic::div_mod::lemma_fundamental_div_mod(v, d);
    vstd::arithmetic::div_mod::lemma_mod_bound(v, d);
    assert(v == 2 * (m * q) + r) by (nonlinear_arith)
        requires
            v == d * q + r,
            d == 2 * m,
    ;
}

/// Folds `v` into the `limit` numbers from `0` on, by reflection at `0`
/// and at `limit - 1`.
pub fn fold_into(v: i128, limit: usize) -> (r: isize)
    requires
        1 <= limit <= 2 * CELL_LIMIT + 1,
        i128::MIN < v,
    ensures
        r == fold(v as int, limit - 1),
        0 <= r < limit,
{
    let m: i128 = limit as i128 - 1;
    if m == 0 {
        proof {
            reveal(fold);
        }
        return 0;
    }
    let positive: i128 = if v < 0 {
        -v
    } else {
        v
    };
    let r: i128 = positive % (2 * m);
    proof {
        reveal(fold);
        if v < 0 {
            lemma_fold_negate(v as int, m as int);
        }
        lemma_fold_parity(positive as int, m as int);
    }
    if r <= m {
        r as isize
    } else {
        (2 * m - r) as isize
    }
}

/// Tells whether a number is odd.
pub fn is_odd(v: isize) -> (odd: bool)
    ensures
        odd == (v % 2 == 1),
{
    if v >= 0 {
        (v as usize) % 2 == 1
    } else {
        ((-(v + 1)) as usize) % 2 == 0
    }
}

/// The family of a coordinate, if it belongs to one.
pub fn classify(coord: &GridCoord) -> (space: Option<CoordSpace>)
    ensures
        space == coord_space(*coord),
{
    let x_odd = is_odd(coord.x);
    let y_odd = is_odd(coord.y);
    if !x_odd && !y_odd {
        Some(CoordSpace::Even)
    } else if x_odd && y_odd {
        Some(CoordSpace::Odd)
    } else {
        None
    }
}

impl GridCoord {
    /// The coordinate with the given numbers.
    pub fn new(x: isize, y: isize) -> (coord: Self)
        ensures
            coord.x == x,
            coord.y == y,
    {
        GridCoord { x, y }
    }
}

impl GridSize {
    /// The lattice is not larger than supported.
    pub open spec fn wf(&self) -> bool {
        self.cells_x <= CELL_LIMIT && self.cellx_y <= CELL_LIMIT
    }

    /// The number of lattice steps along x, plus one.
    pub open spec fn spec_width(&self) -> int {
        self.cells_x * 2 + 1
    }

    /// The number of lattice steps along y, plus one.
    pub open spec fn spec_height(&self) -> int {
        self.cellx_y * 2 + 1
    }

    /// `point` is a coordinate of this lattice: within its bounds and of
    /// one of the two families.
    pub open spec fn contains(&self, point: GridCoord) -> bool {
        &&& 0 <= point.x < self.spec_width()
        &&& 0 <= point.y < self.spec_height()
        &&& coord_space(point).is_some()
    }

    /// The number of lattice steps along x, plus one.
    pub fn width(&self) -> (w: usize)
        requires
            self.wf(),
        ensures
            w == self.spec_width(),
    {
        self.cells_x * 2 + 1
    }

    /// The number of lattice steps along y, plus one.
    pub fn height(&self) -> (h: usize)
        requires
            self.wf(),
        ensures
            h == self.spec_height(),
    {
        self.cellx_y * 2 + 1
    }

    /// The number of coordinates of this lattice.
    pub open spec fn count(&self) -> int {
        (self.cells_x + 1) * (self.cellx_y + 1) + self.cells_x * self.cellx_y
    }

    /// Tells whether `point` is a coordinate of this lattice.
    pub fn check(&self, point: &GridCoord) -> (valid: bool)
        requires
            self.wf(),
        ensures
            valid == self.contains(*point),
    {
        let width = self.width() as isize;
        let height = self.height() as isize;
        point.x >= 0 && point.y >= 0 && point.x < width && point.y < height && classify(
            point,
        ).is_some()
    }

    /// All coordinates of this lattice, ordered by x and then by y.
    pub fn all_grid_coordinates(&self) -> (res: Vec<GridCoord>)
        requires
            self.wf(),
        ensures
            res@.len() == self.count(),
            forall|i: int| 0 <= i < res@.len() ==> self.contains(#[trigger] res@[i]),
            forall|c: GridCoord| self.contains(c) ==> #[trigger] res@.contains(c),
            forall|i: int, j: int|
                0 <= i < j < res@.len() ==> coord_before(#[trigger] res@[i], #[trigger] res@[j]),
    {
        let mut res: Vec<GridCoord> = Vec::new();
        let width = self.width();
        let height = self.height();
        let mut x: usize = 0;
        proof {
            let cy = self.cellx_y as int;
            assert(((0int + 1) / 2) * (cy + 1) + (0int / 2) * cy == 0) by (nonlinear_arith);
        }
        while x < width
            invariant
                x <= width,
                res@.len() == ((x + 1) / 2) * (self.cellx_y + 1) + (x / 2) * self.cellx_y,
                self.wf(),
                width == self.spec_width(),
                height == self.spec_height(),
                forall|i: int|
                    0 <= i < res@.len() ==> self.contains(#[trigger] res@[i]) && res@[i].x < x,
                forall|c: GridCoord| self.contains(c) && c.x < x ==> #[trigger] res@.contains(c),
                forall|i: int, j: int|
                    0 <= i < j < res@.len() ==> coord_before(
                        #[trigger] res@[i],
                        #[trigger] res@[j],
                    ),
            decreases width - x,
        {
            let mut y: usize = 0;
            let ghost column_start = res@.len();
            while y < height
                invariant
                    y <= height,
                    x < width,
                    column_start == ((x + 1) / 2) * (self.cellx_y + 1) + (x / 2) * self.cellx_y,
                    res@.len() == column_start + (y + 1 - x % 2) / 2,
                    self.wf(),
                    width == self.spec_width(),
                    height == self.spec_height(),
                    forall|i: int|
                        0 <= i < res@.len() ==> self.contains(#[trigger] res@[i]) && (res@[i].x < x
                            || (res@[i].x == x && res@[i].y < y)),
                    forall|c: GridCoord|
                        self.contains(c) && (c.x < x || (c.x == x && c.y < y))
                            ==> #[trigger] res@.contains(c),
                    forall|i: int, j: int|
                        0 <= i < j < res@.len() ==> coord_before(
                            #[trigger] res@[i],
                            #[trigger] res@[j],
                        ),
                decreases height - y,
            {
                let coord = GridCoord::new(x as isize, y as isize);
                let ghost before = res@;
                if classify(&coord).is_some() {
                    res.push(coord);
                    proof {
                        assert forall|c: GridCoord|
                            self.contains(c) && (c.x < x || (c.x == x && c.y < y + 1))
                            implies #[trigger] res@.contains(c) by {
                            if c.x == x && c.y == y {
                                assert(res@[before.len() as int] == c);
                            } else {
                                assert(before.contains(c));
                                let i = choose|i: int| 0 <= i < before.len() && before[i] == c;
                                assert(res@[i] == c);
                            }
                        }
                    }
                } else {
                    assert forall|c: GridCoord|
                        self.contains(c) && (c.x < x || (c.x == x && c.y < y + 1))
                        implies #[trigger] res@.contains(c) by {
                        if c.x == x && c.y == y {
                            assert(c == coord);
                        }
                    }
                }
                y += 1;
            }
            proof {
                let cy = self.cellx_y as int;
                if x % 2 == 0 {
                    assert((x + 2) / 2 == x / 2 + 1);
                    assert((x + 1) / 2 == x / 2);
                    assert((x / 2 + 1) * (cy + 1) == (x / 2) * (cy + 1) + (cy + 1))
                        by (nonlinear_arith);
                } else {
                    assert((x + 2) / 2 == (x + 1) / 2);
                    assert((x + 1) / 2 == x / 2 + 1);
                    assert((x / 2 + 1) * cy == (x / 2) * cy + cy) by (nonlinear_arith);
                }
            }
            x += 1;
        }
        proof {
            let cx = self.cells_x as int;
            assert((width + 1) / 2 == cx + 1);
            assert(width / 2 == cx);
        }
        res
    }

    /// The displacement that `displace` applies: on a lattice that is one
    /// step high or wide nothing moves across, and along it only by an even
    /// number of steps.
    pub open spec fn effective_displacement(&self, displacement: (isize, isize)) -> (int, int) {
        let first: (int, int) = if self.spec_height() == 1 {
            (displacement.0 - displacement.0 % 2, 0)
        } else {
            (displacement.0 as int, displacement.1 as int)
        };
        if self.spec_width() == 1 {
            (0, first.1 - first.1 % 2)
        } else {
            first
        }
    }

    /// Where `point` comes to lie when moved by `displacement` and
    /// reflected at the edges of the lattice.
    pub open spec fn displaced(&self, point: GridCoord, displacement: (isize, isize)) -> GridCoord {
        let moved = self.effective_displacement(displacement);
        GridCoord {
            x: fold(point.x + moved.0, self.spec_width() - 1) as isize,
            y: fold(point.y + moved.1, self.spec_height() - 1) as isize,
        }
    }

    /// Moves `point` by `displacement`, reflecting it at the edges of the
    /// lattice until it lies within.
    pub fn displace(&self, point: &GridCoord, displacement: (isize, isize)) -> (res: GridCoord)
        requires
            self.wf(),
            self.contains(*point),
            self.spec_width() > 1 && self.spec_height() > 1 ==> (displacement.0 - displacement.1)
                % 2 == 0,
        ensures
            res == self.displaced(*point, displacement),
            self.contains(res),
    {
        let width = self.width();
        let height = self.height();
        let mut off_x: i128 = displacement.0 as i128;
        let mut off_y: i128 = displacement.1 as i128;
        if height == 1 {
            off_y = 0;
            if is_odd(displacement.0) {
                off_x = off_x - 1;
            }
        }
        if width == 1 {
            off_x = 0;
            if height != 1 && is_odd(displacement.1) {
                off_y = off_y - 1;
            }
        }
        assert((off_x as int, off_y as int) == self.effective_displacement(displacement));
        let start_x: i128 = point.x as i128 + off_x;
        let start_y: i128 = point.y as i128 + off_y;
        assert(start_x % 2 == start_y % 2);
        let new_x = fold_into(start_x, width);
        let new_y = fold_into(start_y, height);
        proof {
            if width > 1 {
                lemma_fold_parity(start_x as int, width - 1);
            }
            if height > 1 {
                lemma_fold_parity(start_y as int, height - 1);
            }
        }
        GridCoord::new(new_x, new_y)
    }
}

/// The place of the node in row `row` and column `col` of a family with
/// `stride` nodes in a row.
pub open spec fn node_place(row: int, col: int, stride: int) -> int {
    row * stride + col
}

/// The number of nodes in a row of the family of `coord`.
pub open spec fn row_stride(size: GridSize, coord: GridCoord) -> int {
    if coord.x % 2 == 0 {
        size.cells_x + 1
    } else {
        size.cells_x as int
    }
}

/// The place of a coordinate among the nodes of its family, which are
/// kept row by row.
pub open spec fn node_index(size: GridSize, coord: GridCoord) -> int {
    node_place(coord.y / 2, coord.x / 2, row_stride(size, coord))
}

/// The place of a coordinate of the lattice is below the number of nodes
/// of its family.
pub proof fn lemma_node_index_bounds(size: GridSize, coord: GridCoord)
    requires
        size.wf(),
        size.contains(coord),
    ensures
        0 <= coord.x / 2 < row_stride(size, coord),
        coord.x % 2 == 0 ==> 0 <= coord.y / 2 <= size.cellx_y && 0 <= node_index(size, coord) < (
        size.cells_x + 1) * (size.cellx_y + 1),
        coord.x % 2 == 1 ==> 0 <= coord.y / 2 < size.cellx_y && 0 <= node_index(size, coord)
            < size.cells_x * size.cellx_y,
        (size.cells_x + 1) * (size.cellx_y + 1) <= (CELL_LIMIT + 1) * (CELL_LIMIT + 1),
        size.cells_x * size.cellx_y <= CELL_LIMIT * CELL_LIMIT,
{
    let i = coord.x / 2;
    let j = coord.y / 2;
    let stride = row_stride(size, coord);
    let cx = size.cells_x as int;
    let cy = size.cellx_y as int;
    if coord.x % 2 == 0 {
        assert(0 <= j * stride + i < (cx + 1) * (cy + 1)) by (nonlinear_arith)
            requires
                0 <= i < stride,
                0 <= j <= cy,
                stride == cx + 1,
        ;
    } else {
        assert(0 <= j * stride + i < cx * cy) by (nonlinear_arith)
            requires
                0 <= i < stride,
                0 <= j < cy,
                stride == cx,
        ;
    }
    assert((cx + 1) * (cy + 1) <= (CELL_LIMIT + 1) * (CELL_LIMIT + 1)) by (nonlinear_arith)
        requires
            0 <= cx <= CELL_LIMIT,
            0 <= cy <= CELL_LIMIT,
    ;
    assert(cx * cy <= CELL_LIMIT * CELL_LIMIT) by (nonlinear_arith)
        requires
            0 <= cx <= CELL_LIMIT,
            0 <= cy <= CELL_LIMIT,
    ;
}

/// Two coordinates of one family with the same place are the same.
pub proof fn lemma_node_index_injective(size: GridSize, a: GridCoord, b: GridCoord)
    requires
        size.wf(),
        size.contains(a),
        size.contains(b),
        a.x % 2 == b.x % 2,
        node_index(size, a) == node_index(size, b),
    ensures
        a == b,
{
    lemma_node_index_bounds(size, a);
    lemma_node_index_bounds(size, b);
    let stride = row_stride(size, a);
    let ia = a.x / 2;
    let ja = a.y / 2;
    let ib = b.x / 2;
    let jb = b.y / 2;
    assert(ja == jb && ia == ib) by (nonlinear_arith)
        requires
            ja * stride + ia == jb * stride + ib,
            0 <= ia < stride,
            0 <= ib < stride,
    ;
}

/// A value for every coordinate of a lattice.
///
/// ```text
///    +---------+---------+
///    |(0,2)    |(2,2)    |(4,2)
///    |    +    |    +    |
///    |  (1,1)  |  (3,1)  |
///    +---------+---------+
///     (0,0)     (2,0)     (4,0)
/// ```
#[derive(Clone, Debug, Default)]
pub struct DiamondGrid<T: Clone> {
    pub even_nodes: Vec<T>,
    pub odd_nodes: Vec<T>,
    pub size: GridSize,
}

impl<T: Clone> DiamondGrid<T> {
    /// There is a node for every coordinate of the lattice.
    pub open spec fn wf(&self) -> bool {
        &&& self.size.wf()
        &&& self.even_nodes@.len() == (self.size.cells_x + 1) * (self.size.cellx_y + 1)
        &&& self.odd_nodes@.len() == self.size.cells_x * self.size.cellx_y
    }

    /// The value at a coordinate.
    pub open spec fn at(&self, coord: GridCoord) -> T {
        if coord.x % 2 == 0 {
            self.even_nodes@[node_index(self.size, coord)]
        } else {
            self.odd_nodes@[node_index(self.size, coord)]
        }
    }

    /// The lattice of the given size with the value `init` gives at every
    /// coordinate.
    pub fn new(size: GridSize, init: impl Fn(&GridCoord) -> T) -> (grid: DiamondGrid<T>)
        requires
            size.wf(),
            forall|coord: GridCoord| size.contains(coord) ==> call_requires(init, (&coord,)),
        ensures
            grid.wf(),
            grid.size == size,
            forall|coord: GridCoord|
                size.contains(coord) ==> call_ensures(init, (&coord,), #[trigger] grid.at(coord)),
    {
        let mut even_nodes: Vec<T> = Vec::new();
        let even_stride: usize = size.cells_x + 1;
        let mut row: usize = 0;
        while row <= size.cellx_y
            invariant
                row <= size.cellx_y + 1,
                size.wf(),
                even_stride == size.cells_x + 1,
                forall|coord: GridCoord| size.contains(coord) ==> call_requires(init, (&coord,)),
                even_nodes@.len() == row * even_stride,
                forall|r: int, c: int|
                    0 <= r < row && 0 <= c < even_stride ==> call_ensures(
                        init,
                        (&GridCoord { x: (2 * c) as isize, y: (2 * r) as isize },),
                        #[trigger] even_nodes@[node_place(r, c, even_stride as int)],
                    ),
            decreases size.cellx_y + 1 - row,
        {
            let mut col: usize = 0;
            while col <= size.cells_x
                invariant
                    col <= size.cells_x + 1,
                    row <= size.cellx_y,
                    size.wf(),
                    even_stride == size.cells_x + 1,
                    forall|coord: GridCoord|
                        size.contains(coord) ==> call_requires(init, (&coord,)),
                    even_nodes@.len() == row * even_stride + col,
                    forall|r: int, c: int|
                        0 <= r < row && 0 <= c < even_stride ==> call_ensures(
                            init,
                            (&GridCoord { x: (2 * c) as isize, y: (2 * r) as isize },),
                            #[trigger] even_nodes@[node_place(r, c, even_stride as int)],
                        ),
                    forall|c: int|
                        0 <= c < col ==> call_ensures(
                            init,
                            (&GridCoord { x: (2 * c) as isize, y: (2 * row) as isize },),
                            #[trigger] even_nodes@[node_place(row as int, c, even_stride as int)],
                        ),
                decreases size.cells_x + 1 - col,
            {
                let coord = GridCoord::new((col * 2) as isize, (row * 2) as isize);
                assert(size.contains(coord));
                let ghost before = even_nodes@;
                let value = init(&coord);
                even_nodes.push(value);
                proof {
                    assert forall|r: int, c: int| 0 <= r < row && 0 <= c < even_stride implies
                        call_ensures(
                        init,
                        (&GridCoord { x: (2 * c) as isize, y: (2 * r) as isize },),
                        #[trigger] even_nodes@[node_place(r, c, even_stride as int)],
                    ) by {
                        crate::common::lemma_cell_index_lt(r, c, row as int, even_stride as int);
                        assert(even_nodes@[node_place(r, c, even_stride as int)]
                            == before[node_place(r, c, even_stride as int)]);
                    }
                    assert forall|c: int| 0 <= c < col + 1 implies call_ensures(
                        init,
                        (&GridCoord { x: (2 * c) as isize, y: (2 * row) as isize },),
                        #[trigger] even_nodes@[node_place(row as int, c, even_stride as int)],
                    ) by {
                        if c < col {
                            assert(even_nodes@[node_place(row as int, c, even_stride as int)]
                                == before[node_place(row as int, c, even_stride as int)]);
                        }
                    }
                }
                col += 1;
            }
            proof {
                assert((row + 1) * even_stride == row * even_stride + even_stride)
                    by (nonlinear_arith);
            }
            row += 1;
        }
        let mut odd_nodes: Vec<T> = Vec::new();
        let odd_stride: usize = size.cells_x;
        let mut row: usize = 0;
        while row < size.cellx_y
            invariant
                row <= size.cellx_y,
                size.wf(),
                odd_stride == size.cells_x,
                forall|coord: GridCoord| size.contains(coord) ==> call_requires(init, (&coord,)),
                odd_nodes@.len() == row * odd_stride,
                forall|r: int, c: int|
                    0 <= r < row && 0 <= c < odd_stride ==> call_ensures(
                        init,
                        (&GridCoord { x: (2 * c + 1) as isize, y: (2 * r + 1) as isize },),
                        #[trigger] odd_nodes@[node_place(r, c, odd_stride as int)],
                    ),
            decreases size.cellx_y - row,
        {
            let mut col: usize = 0;
            while col < size.cells_x
                invariant
                    col <= size.cells_x,
                    row < size.cellx_y,
                    size.wf(),
                    odd_stride == size.cells_x,
                    forall|coord: GridCoord|
                        size.contains(coord) ==> call_requires(init, (&coord,)),
                    odd_nodes@.len() == row * odd_stride + col,
                    forall|r: int, c: int|
                        0 <= r < row && 0 <= c < odd_stride ==> call_ensures(
                            init,
                            (&GridCoord { x: (2 * c + 1) as isize, y: (2 * r + 1) as isize },),
                            #[trigger] odd_nodes@[node_place(r, c, odd_stride as int)],
                        ),
                    forall|c: int|
                        0 <= c < col ==> call_ensures(
                            init,
                            (&GridCoord { x: (2 * c + 1) as isize, y: (2 * row + 1) as isize },),
                            #[trigger] odd_nodes@[node_place(row as int, c, odd_stride as int)],
                        ),
                decreases size.cells_x - col,
            {
                let coord = GridCoord::new((col * 2 + 1) as isize, (row * 2 + 1) as isize);
                assert(size.contains(coord));
                let ghost before = odd_nodes@;
                let value = init(&coord);
                odd_nodes.push(value);
                proof {
                    assert forall|r: int, c: int| 0 <= r < row && 0 <= c < odd_stride implies
                        call_ensures(
                        init,
                        (&GridCoord { x: (2 * c + 1) as isize, y: (2 * r + 1) as isize },),
                        #[trigger] odd_nodes@[node_place(r, c, odd_stride as int)],
                    ) by {
                        crate::common::lemma_cell_index_lt(r, c, row as int, odd_stride as int);
                        assert(odd_nodes@[node_place(r, c, odd_stride as int)]
                            == before[node_place(r, c, odd_stride as int)]);
                    }
                    assert forall|c: int| 0 <= c < col + 1 implies call_ensures(
                        init,
                        (&GridCoord { x: (2 * c + 1) as isize, y: (2 * row + 1) as isize },),
                        #[trigger] odd_nodes@[node_place(row as int, c, odd_stride as int)],
                    ) by {
                        if c < col {
                            assert(odd_nodes@[node_place(row as int, c, odd_stride as int)]
                                == before[node_place(row as int, c, odd_stride as int)]);
                        }
                    }
                }
                col += 1;
            }
            proof {
                assert((row + 1) * odd_stride == row * odd_stride + odd_stride)
                    by (nonlinear_arith);
            }
            row += 1;
        }
        let grid = DiamondGrid { even_nodes, odd_nodes, size };
        proof {
            assert((size.cellx_y + 1) * (size.cells_x + 1) == (size.cells_x + 1) * (size.cellx_y
                + 1)) by (nonlinear_arith);
            assert(size.cellx_y * size.cells_x == size.cells_x * size.cellx_y)
                by (nonlinear_arith);
            assert forall|coord: GridCoord| size.contains(coord) implies call_ensures(
                init,
                (&coord,),
                #[trigger] grid.at(coord),
            ) by {
                lemma_node_index_bounds(size, coord);
                let r = coord.y / 2;
                let c = coord.x / 2;
                if coord.x % 2 == 0 {
                    assert(coord == GridCoord { x: (2 * c) as isize, y: (2 * r) as isize });
                    assert(call_ensures(
                        init,
                        (&GridCoord { x: (2 * c) as isize, y: (2 * r) as isize },),
                        grid.even_nodes@[node_place(r, c, even_stride as int)],
                    ));
                } else {
                    assert(coord == GridCoord { x: (2 * c + 1) as isize, y: (2 * r + 1) as isize });
                    assert(call_ensures(
                        init,
                        (&GridCoord { x: (2 * c + 1) as isize, y: (2 * r + 1) as isize },),
                        grid.odd_nodes@[node_place(r, c, odd_stride as int)],
                    ));
                }
            }
        }
        grid
    }
}

impl<T: Copy> DiamondGrid<T> {
    /// The value at a coordinate of the lattice.
    pub fn get(&self, index: &GridCoord) -> (value: T)
        requires
            self.wf(),
            self.size.contains(*index),
        ensures
            value == self.at(*index),
    {
        proof {
            lemma_node_index_bounds(self.size, *index);
        }
        let x = (index.x as usize) / 2;
        let y = (index.y as usize) / 2;
        if is_odd(index.x) {
            proof {
                assert(y * self.size.cells_x <= CELL_LIMIT * CELL_LIMIT) by (nonlinear_arith)
                    requires
                        0 <= y <= CELL_LIMIT,
                        0 <= self.size.cells_x <= CELL_LIMIT,
                ;
            }
            self.odd_nodes[y * self.size.cells_x + x]
        } else {
            proof {
                assert(y * (self.size.cells_x + 1) <= CELL_LIMIT * (CELL_LIMIT + 1))
                    by (nonlinear_arith)
                    requires
                        0 <= y <= CELL_LIMIT,
                        0 <= self.size.cells_x <= CELL_LIMIT,
                ;
            }
            self.even_nodes[y * (self.size.cells_x + 1) + x]
        }
    }

    /// Puts a value at a coordinate of the lattice.
    pub fn set(&mut self, index: &GridCoord, value: T)
        requires
            old(self).wf(),
            old(self).size.contains(*index),
        ensures
            final(self).wf(),
            final(self).size == old(self).size,
            final(self).at(*index) == value,
            forall|coord: GridCoord|
                old(self).size.contains(coord) && coord != *index ==> #[trigger] final(self).at(
                    coord,
                ) == old(self).at(coord),
    {
        proof {
            lemma_node_index_bounds(self.size, *index);
        }
        let x = (index.x as usize) / 2;
        let y = (index.y as usize) / 2;
        let ghost size = self.size;
        if is_odd(index.x) {
            proof {
                assert(y * self.size.cells_x <= CELL_LIMIT * CELL_LIMIT) by (nonlinear_arith)
                    requires
                        0 <= y <= CELL_LIMIT,
                        0 <= self.size.cells_x <= CELL_LIMIT,
                ;
            }
            self.odd_nodes.set(y * self.size.cells_x + x, value);
        } else {
            proof {
                assert(y * (self.size.cells_x + 1) <= CELL_LIMIT * (CELL_LIMIT + 1))
                    by (nonlinear_arith)
                    requires
                        0 <= y <= CELL_LIMIT,
                        0 <= self.size.cells_x <= CELL_LIMIT,
                ;
            }
            self.even_nodes.set(y * (self.size.cells_x + 1) + x, value);
        }
        proof {
            assert forall|coord: GridCoord|
                size.contains(coord) && coord != *index implies #[trigger] self.at(coord) == old(
                self,
            ).at(coord) by {
                if coord.x % 2 == index.x % 2 {
                    if node_index(size, coord) == node_index(size, *index) {
                        lemma_node_index_injective(size, coord, *index);
                    }
                }
                lemma_node_index_bounds(size, coord);
            }
        }
    }
}

/// Draws a number between `low` and `high`, both included.
///
/// This calls `rand::Rng::gen_range` on the generator of the current
/// thread. Which number comes back is left open; the contract only says
/// that it lies in the range, as the method promises for a range that is
/// not empty.
#[verifier::external_body]
pub(crate) fn random_between(low: usize, high: usize) -> (value: usize)
    requires
        low <= high,
    ensures
        low <= value <= high,
{
    rand::thread_rng().gen_range(low..=high)
}

/// The displacement made of two drawn lengths and a drawn pair of signs:
/// `y_nudge` is first made even or odd as `x_nudge` is, then `x_nudge` is
/// negated if `signs` is odd, and `y_nudge` if the second bit of `signs` is
/// set.
pub open spec fn nudge_of(x_nudge: usize, y_nudge: usize, signs: usize) -> (int, int) {
    let y_fitted = y_nudge - y_nudge % 2 + x_nudge % 2;
    (
        if signs % 2 == 0 {
            x_nudge as int
        } else {
            -x_nudge
        },
        if (signs / 2) % 2 == 0 {
            y_fitted
        } else {
            -y_fitted
        },
    )
}

/// Makes a displacement of two drawn lengths and a drawn pair of signs.
pub fn nudge_from(x_nudge: usize, y_nudge: usize, signs: usize) -> (nudge: (isize, isize))
    requires
        x_nudge < isize::MAX,
        y_nudge < isize::MAX,
    ensures
        (nudge.0 as int, nudge.1 as int) == nudge_of(x_nudge, y_nudge, signs),
        (nudge.0 - nudge.1) % 2 == 0,
        nudge.0 == x_nudge || nudge.0 == -x_nudge,
        -y_nudge - 1 <= nudge.1 <= y_nudge + 1,
{
    let y_fitted = y_nudge - y_nudge % 2 + x_nudge % 2;
    let x_nudge = x_nudge as isize;
    let y_nudge = y_fitted as isize;
    let x_nudge = if signs % 2 == 0 {
        x_nudge
    } else {
        -x_nudge
    };
    let y_nudge = if (signs / 2) % 2 == 0 {
        y_nudge
    } else {
        -y_nudge
    };
    (x_nudge, y_nudge)
}

impl GridCoord {
    /// A random displacement of at most `nudge_size` steps along x, and
    /// along y of as many or one more, such that both are even or both odd.
    pub fn random_displacement(&self, nudge_size: usize) -> (nudge: (isize, isize))
        requires
            1 <= nudge_size < isize::MAX,
        ensures
            1 <= nudge.0 <= nudge_size || -nudge_size <= nudge.0 <= -1,
            -nudge_size - 1 <= nudge.1 <= nudge_size + 1,
            (nudge.0 - nudge.1) % 2 == 0,
    {
        let x_nudge = random_between(1, nudge_size);
        let y_nudge = random_between(1, nudge_size);
        let signs = random_between(0, 3);
        nudge_from(x_nudge, y_nudge, signs)
    }
}

/// Where the coordinates of a lattice lie on the stage.
#[derive(Debug, Clone, Copy, Default, PartialEq, Eq, Structural)]
pub struct GridTransform {
    pub size: GridSize,
    pub cell_width: i64,
    pub cell_height: i64,
    pub x_min: i64,
    pub y_min: i64,
    pub x_max: i64,
    pub y_max: i64,
}

impl GridTransform {
    /// The lattice lies within `[x_min, x_max]` and `[y_min, y_max]`, which
    /// lie within the supported range.
    pub open spec fn wf(&self) -> bool {
        &&& self.size.wf()
        &&& 0 <= self.cell_width
        &&& 0 <= self.cell_height
        &&& -COORD_LIMIT <= self.x_min
        &&& -COORD_LIMIT <= self.y_min
        &&& self.x_max <= COORD_LIMIT
        &&& self.y_max <= COORD_LIMIT
        &&& self.x_min + self.cell_width * (2 * self.size.cells_x) <= self.x_max
        &&& self.y_min + self.cell_height * (2 * self.size.cellx_y) <= self.y_max
    }

    /// The point of the stage at which a coordinate lies.
    pub open spec fn point(&self, coord: GridCoord) -> Point2D {
        Point2D {
            x: (self.x_min + self.cell_width * coord.x) as i64,
            y: (self.y_min + self.cell_height * coord.y) as i64,
        }
    }

    /// The points of the lattice lie within its bounds.
    pub proof fn lemma_point_within(&self, coord: GridCoord)
        requires
            self.wf(),
            self.size.contains(coord),
        ensures
            self.x_min <= self.x_min + self.cell_width * coord.x <= self.x_max,
            self.y_min <= self.y_min + self.cell_height * coord.y <= self.y_max,
            self.point(coord).wf(),
    {
        assert(0 <= self.cell_width * coord.x <= self.cell_width * (2 * self.size.cells_x))
            by (nonlinear_arith)
            requires
                0 <= self.cell_width,
                0 <= coord.x <= 2 * self.size.cells_x,
        ;
        assert(0 <= self.cell_height * coord.y <= self.cell_height * (2 * self.size.cellx_y))
            by (nonlinear_arith)
            requires
                0 <= self.cell_height,
                0 <= coord.y <= 2 * self.size.cellx_y,
        ;
    }

    /// The point of the stage at which a coordinate of the lattice lies.
    pub fn apply(&self, coord: &GridCoord) -> (p: (i64, i64))
        requires
            self.wf(),
            self.size.contains(*coord),
        ensures
            p.0 == self.point(*coord).x,
            p.1 == self.point(*coord).y,
            self.x_min <= p.0 <= self.x_max,
            self.y_min <= p.1 <= self.y_max,
    {
        proof {
            self.lemma_point_within(*coord);
        }
        let x = self.x_min as i128 + self.cell_width as i128 * coord.x as i128;
        let y = self.y_min as i128 + self.cell_height as i128 * coord.y as i128;
        (x as i64, y as i64)
    }
}

/// Two different coordinates of a lattice whose cells are at least `step`
/// wide and high lie at points whose squared distance is at least twice
/// the square of `step`.
pub proof fn lemma_lattice_separation(
    transform: GridTransform,
    a: GridCoord,
    b: GridCoord,
    step: int,
)
    requires
        transform.wf(),
        transform.size.contains(a),
        transform.size.contains(b),
        a != b,
        step >= 0,
        transform.size.cells_x > 0 ==> transform.cell_width >= step,
        transform.size.cellx_y > 0 ==> transform.cell_height >= step,
    ensures
        dist2(transform.point(a), transform.point(b)) >= 2 * step * step,
{
    transform.lemma_point_within(a);
    transform.lemma_point_within(b);
    let cw = transform.cell_width as int;
    let ch = transform.cell_height as int;
    let dx = a.x - b.x;
    let dy = a.y - b.y;
    let px = transform.point(a).x - transform.point(b).x;
    let py = transform.point(a).y - transform.point(b).y;
    assert(px == cw * dx) by (nonlinear_arith)
        requires
            px == (transform.x_min + cw * a.x) - (transform.x_min + cw * b.x),
            dx == a.x - b.x,
    ;
    assert(py == ch * dy) by (nonlinear_arith)
        requires
            py == (transform.y_min + ch * a.y) - (transform.y_min + ch * b.y),
            dy == a.y - b.y,
    ;
    assert(px * px >= 0 && py * py >= 0) by (nonlinear_arith);
    if dx != 0 && dy != 0 {
        assert(px * px >= step * step) by (nonlinear_arith)
            requires
                px == cw * dx,
                cw >= step,
                step >= 0,
                dx != 0,
        ;
        assert(py * py >= step * step) by (nonlinear_arith)
            requires
                py == ch * dy,
                ch >= step,
                step >= 0,
                dy != 0,
        ;
    } else if dx == 0 {
        assert(dy % 2 == 0);
        assert(py * py >= 4 * (step * step)) by (nonlinear_arith)
            requires
                py == ch * dy,
                ch >= step,
                step >= 0,
                dy >= 2 || dy <= -2,
        ;
    } else {
        assert(dx % 2 == 0);
        assert(px * px >= 4 * (step * step)) by (nonlinear_arith)
            requires
                px == cw * dx,
                cw >= step,
                step >= 0,
                dx >= 2 || dx <= -2,
        ;
    }
    assert(2 * step * step == 2 * (step * step)) by (nonlinear_arith);
}

/// The greatest radius around a lattice point for which a lattice is
/// fitted: as far as a coordinate goes. Twice its square fits in 64 bits.
pub const RADIUS_LIMIT: i64 = 1_073_741_824;

/// `s` is the least whole number whose square is at least twice the square
/// of `radius`: two points that are `s` apart along both axes are no
/// nearer than two radii.
pub open spec fn is_lattice_step(radius: int, s: int) -> bool {
    &&& s >= 0
    &&& s * s >= 2 * radius * radius
    &&& (s - 1) * (s - 1) < 2 * radius * radius
}

/// The least whole number whose square is at least twice the square of
/// `radius`.
pub open spec fn lattice_step_of(radius: int) -> int {
    choose|s: int| is_lattice_step(radius, s)
}

/// There is one such number at most.
pub proof fn lemma_lattice_step_unique(radius: int, a: int, b: int)
    requires
        is_lattice_step(radius, a),
        is_lattice_step(radius, b),
    ensures
        a == b,
{
    if a < b {
        assert(a * a <= (b - 1) * (b - 1)) by (nonlinear_arith)
            requires
                0 <= a <= b - 1,
        ;
    }
    if b < a {
        assert(b * b <= (a - 1) * (a - 1)) by (nonlinear_arith)
            requires
                0 <= b <= a - 1,
        ;
    }
}

/// A number that is such a number is the lattice step of the radius.
pub proof fn lemma_lattice_step_is(radius: int, s: int)
    requires
        is_lattice_step(radius, s),
    ensures
        lattice_step_of(radius) == s,
{
    lemma_lattice_step_unique(radius, s, lattice_step_of(radius));
}

/// The least whole number whose square is at least twice the square of
/// `radius`.
pub fn lattice_step(radius: i64) -> (s: i64)
    requires
        1 <= radius <= RADIUS_LIMIT,
    ensures
        is_lattice_step(radius as int, s as int),
        s == lattice_step_of(radius as int),
        radius < s <= 2 * radius,
{
    assert(radius * radius <= RADIUS_LIMIT * RADIUS_LIMIT) by (nonlinear_arith)
        requires
            1 <= radius <= RADIUS_LIMIT,
    ;
    let target: i64 = 2 * (radius * radius);
    let mut lo: i64 = radius;
    let mut hi: i64 = 2 * radius;
    assert(lo * lo < target && hi * hi >= target && target == 2 * radius * radius)
        by (nonlinear_arith)
        requires
            lo == radius,
            hi == 2 * radius,
            target == 2 * (radius * radius),
            radius >= 1,
    ;
    while hi - lo > 1
        invariant
            radius <= lo < hi <= 2 * radius,
            1 <= radius <= RADIUS_LIMIT,
            target == 2 * radius * radius,
            lo * lo < target,
            hi * hi >= target,
        decreases hi - lo,
    {
        let mid: i64 = lo + (hi - lo) / 2;
        assert(mid * mid <= 4 * RADIUS_LIMIT * RADIUS_LIMIT) by (nonlinear_arith)
            requires
                0 <= mid <= 2 * RADIUS_LIMIT,
        ;
        if mid * mid >= target {
            hi = mid;
        } else {
            lo = mid;
        }
    }
    proof {
        lemma_lattice_step_is(radius as int, hi as int);
    }
    hi
}

/// Fits a lattice into the rectangle of the given width and height whose
/// lower left corner is `(x_min, y_min)`: as many cells as are at least
/// `min_coarseness` wide and high, spread over the rectangle in whole
/// steps.
pub fn fit_grid(x_min: i64, y_min: i64, width: i64, height: i64, min_coarseness: i64) -> (fitted: (
    GridSize,
    GridTransform,
))
    requires
        -COORD_LIMIT <= x_min,
        -COORD_LIMIT <= y_min,
        0 <= width,
        0 <= height,
        x_min + width <= COORD_LIMIT,
        y_min + height <= COORD_LIMIT,
        1 <= min_coarseness,
        width / min_coarseness <= CELL_LIMIT,
        height / min_coarseness <= CELL_LIMIT,
    ensures
        fitted.0.cells_x == width / min_coarseness,
        fitted.0.cellx_y == height / min_coarseness,
        fitted.1.size == fitted.0,
        fitted.1.cell_width == if fitted.0.cells_x == 0 {
            0
        } else {
            (width as int) / (fitted.0.cells_x * 2)
        },
        fitted.1.cell_height == if fitted.0.cellx_y == 0 {
            0
        } else {
            (height as int) / (fitted.0.cellx_y * 2)
        },
        fitted.1.x_min == x_min,
        fitted.1.y_min == y_min,
        fitted.1.x_max == x_min + width,
        fitted.1.y_max == y_min + height,
        fitted.1.wf(),
        fitted.0.cells_x > 0 ==> fitted.1.cell_width >= min_coarseness / 2,
        fitted.0.cellx_y > 0 ==> fitted.1.cell_height >= min_coarseness / 2,
{
    let grid_cells_x: u64 = (width as u64) / (min_coarseness as u64);
    let grid_cellx_y: u64 = (height as u64) / (min_coarseness as u64);
    let x_cell_size: i64 = if grid_cells_x == 0 {
        0
    } else {
        ((width as u64) / (grid_cells_x * 2)) as i64
    };
    let y_cell_size: i64 = if grid_cellx_y == 0 {
        0
    } else {
        ((height as u64) / (grid_cellx_y * 2)) as i64
    };
    let grid_size = GridSize { cells_x: grid_cells_x as usize, cellx_y: grid_cellx_y as usize };
    let grid_transform = GridTransform {
        size: grid_size,
        cell_width: x_cell_size,
        cell_height: y_cell_size,
        x_min,
        y_min,
        x_max: x_min + width,
        y_max: y_min + height,
    };
    proof {
        lemma_cells_fit(width as int, min_coarseness as int);
        lemma_cells_fit(height as int, min_coarseness as int);
    }
    (grid_size, grid_transform)
}

/// Cells of which as many as possible are at least `min_coarseness` wide
/// fit into `extent` when spread over it in whole steps, and are then at
/// least half of `min_coarseness` per step.
pub proof fn lemma_cells_fit(extent: int, min_coarseness: int)
    requires
        0 <= extent,
        1 <= min_coarseness,
    ensures
        ({
            let cells = extent / min_coarseness;
            let step = if cells == 0 {
                0
            } else {
                extent / (cells * 2)
            };
            &&& 0 <= cells
            &&& 0 <= step
            &&& step * (2 * cells) <= extent
            &&& cells > 0 ==> step >= min_coarseness / 2
        }),
{
    let cells = extent / min_coarseness;
    vstd::arithmetic::div_mod::lemma_fundamental_div_mod(extent, min_coarseness);
    vstd::arithmetic::div_mod::lemma_mod_bound(extent, min_coarseness);
    vstd::arithmetic::div_mod::lemma_div_pos_is_pos(extent, min_coarseness);
    if cells > 0 {
        let d = cells * 2;
        let step = extent / d;
        let rest = extent % d;
        vstd::arithmetic::div_mod::lemma_fundamental_div_mod(extent, d);
        vstd::arithmetic::div_mod::lemma_mod_bound(extent, d);
        vstd::arithmetic::div_mod::lemma_div_pos_is_pos(extent, d);
        assert(step * (2 * cells) <= extent) by (nonlinear_arith)
            requires
                extent == d * step + rest,
                rest >= 0,
                d == cells * 2,
        ;
        let half = min_coarseness / 2;
        vstd::arithmetic::div_mod::lemma_fundamental_div_mod(min_coarseness, 2);
        vstd::arithmetic::div_mod::lemma_mod_bound(min_coarseness, 2);
        assert(step >= half) by (nonlinear_arith)
            requires
                extent == d * step + rest,
                rest < d,
                d == cells * 2,
                extent >= min_coarseness * cells,
                min_coarseness >= 2 * half,
                cells > 0,
                step >= 0,
                half >= 0,
        ;
    } else {
        assert(0 * (2 * cells) == 0) by (nonlinear_arith);
    }
}

/// How many cells a lattice for circles of the given radius has along a
/// side of the given length: the circles take a radius at either end, and
/// a cell two lattice steps of what is left.
pub open spec fn circle_cells(extent: int, radius: int) -> int {
    let inner = if extent - 2 * radius > 0 {
        extent - 2 * radius
    } else {
        0
    };
    inner / (2 * lattice_step_of(radius))
}

/// A side that takes no more than `CELL_LIMIT` cells of twice the radius
/// has no more cells than a lattice may have.
pub proof fn lemma_cells_within_limit(extent: int, radius: int)
    requires
        0 <= extent <= 2 * (radius + 1) * CELL_LIMIT,
        1 <= radius <= RADIUS_LIMIT,
    ensures
        0 <= circle_cells(extent, radius) <= CELL_LIMIT,
{
    let step = lattice_step_of(radius);
    assert(is_lattice_step(radius, step)) by {
        assert(exists|s: int| is_lattice_step(radius, s)) by {
            lemma_lattice_step_exists(radius);
        }
    }
    assert(step >= radius + 1) by (nonlinear_arith)
        requires
            step >= 0,
            step * step >= 2 * radius * radius,
            radius >= 1,
    ;
    let inner = if extent - 2 * radius > 0 {
        extent - 2 * radius
    } else {
        0
    };
    let least = 2 * (radius + 1);
    vstd::arithmetic::div_mod::lemma_div_is_ordered_by_denominator(inner, least, 2 * step);
    vstd::arithmetic::div_mod::lemma_div_is_ordered(inner, least * CELL_LIMIT, least);
    vstd::arithmetic::div_mod::lemma_div_multiples_vanish(CELL_LIMIT as int, least);
    assert(least * CELL_LIMIT == 2 * (radius + 1) * CELL_LIMIT) by (nonlinear_arith)
        requires
            least == 2 * (radius + 1),
    ;
    assert(least * CELL_LIMIT == CELL_LIMIT * least) by (nonlinear_arith);
    vstd::arithmetic::div_mod::lemma_div_pos_is_pos(inner, 2 * step);
}

/// Every radius has a lattice step.
pub proof fn lemma_lattice_step_exists(radius: int)
    requires
        radius >= 1,
    ensures
        exists|s: int| is_lattice_step(radius, s),
{
    assert((2 * radius) * (2 * radius) >= 2 * radius * radius) by (nonlinear_arith)
        requires
            radius >= 1,
    ;
    lemma_least_square_from(radius, 2 * radius);
}

/// Between a number whose square is less than twice the square of the
/// radius and one whose square is not, there is a lattice step.
proof fn lemma_least_square_from(radius: int, hi: int)
    requires
        radius >= 1,
        hi >= 1,
        hi * hi >= 2 * radius * radius,
    ensures
        exists|s: int| is_lattice_step(radius, s),
    decreases hi,
{
    if (hi - 1) * (hi - 1) < 2 * radius * radius {
        assert(is_lattice_step(radius, hi));
    } else {
        assert(hi - 1 >= 1) by (nonlinear_arith)
            requires
                (hi - 1) * (hi - 1) >= 2 * radius * radius,
                radius >= 1,
                hi >= 1,
        ;
        lemma_least_square_from(radius, hi - 1);
    }
}

/// Fits a lattice for circles of the given radius into the rectangle of
/// the given width and height whose lower left corner is `bottom_left`: the
/// circles around the lattice points stay within the rectangle, and no two
/// lattice points are nearer than two radii.
pub fn fit_circles_grid(bottom_left: (i64, i64), width: i64, height: i64, radius: i64) -> (fitted:
    (GridSize, GridTransform))
    requires
        -COORD_LIMIT <= bottom_left.0,
        -COORD_LIMIT <= bottom_left.1,
        0 <= width,
        0 <= height,
        bottom_left.0 + width <= COORD_LIMIT,
        bottom_left.1 + height <= COORD_LIMIT,
        bottom_left.0 + radius <= COORD_LIMIT,
        bottom_left.1 + radius <= COORD_LIMIT,
        1 <= radius <= RADIUS_LIMIT,
        circle_cells(width as int, radius as int) <= CELL_LIMIT,
        circle_cells(height as int, radius as int) <= CELL_LIMIT,
    ensures
        fitted.1.size == fitted.0,
        fitted.1.wf(),
        fitted.1.x_min == bottom_left.0 + radius,
        fitted.1.y_min == bottom_left.1 + radius,
        fitted.1.x_max == fitted.1.x_min + if width - 2 * radius > 0 {
            width - 2 * radius
        } else {
            0
        },
        fitted.1.y_max == fitted.1.y_min + if height - 2 * radius > 0 {
            height - 2 * radius
        } else {
            0
        },
        fitted.0.cells_x == circle_cells(width as int, radius as int),
        fitted.0.cellx_y == circle_cells(height as int, radius as int),
        fitted.0.cells_x > 0 ==> fitted.1.cell_width >= lattice_step_of(radius as int),
        fitted.0.cellx_y > 0 ==> fitted.1.cell_height >= lattice_step_of(radius as int),
{
    let step = lattice_step(radius);
    let min_coarseness = step * 2;
    let min_x = bottom_left.0 + radius;
    let min_y = bottom_left.1 + radius;
    let width = if width - radius * 2 > 0 {
        width - radius * 2
    } else {
        0
    };
    let height = if height - radius * 2 > 0 {
        height - radius * 2
    } else {
        0
    };
    let fitted = fit_grid(min_x, min_y, width, height, min_coarseness);
    assert(min_coarseness / 2 == step);
    fitted
}

} // verus!
