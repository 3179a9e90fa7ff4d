//! The occupancy field: a rectangular grid of cells, each open or blocked,
//! with bounds checking, cell toggling, and 4-directional neighbor queries.

use vstd::prelude::*;

verus! {

/// A cell coordinate: column `x`, row `y`.
#[derive(Clone, Copy, PartialEq, Eq, Structural, Debug)]
pub struct Point {
    pub x: usize,
    pub y: usize,
}

/// `(nx, ny)` is one unit step up, down, left or right of `(x, y)`.
pub open spec fn adjacent(x: int, y: int, nx: int, ny: int) -> bool {
    ||| (nx == x + 1 && ny == y)
    ||| (nx == x - 1 && ny == y)
    ||| (nx == x && ny == y + 1)
    ||| (nx == x && ny == y - 1)
}

/// A rectangular occupancy field. `field[x][y]` is true when the cell in
/// column `x`, row `y` is blocked; every cell starts open.
#[derive(Debug)]
pub struct Grid {
    field: Vec<Vec<bool>>,
}

impl Grid {
    /// The number of columns.
    pub closed spec fn spec_columns(self) -> int {
        self.field@.len() as int
    }

    /// The number of rows (0 for a grid with no columns).
    pub closed spec fn spec_rows(self) -> int {
        if self.field@.len() == 0 {
            0
        } else {
            self.field@[0]@.len() as int
        }
    }

    /// The blocked flag of cell `(x, y)`; meaningful only in bounds.
    pub closed spec fn spec_blocked(self, x: int, y: int) -> bool {
        self.field@[x]@[y]
    }

    /// Every column holds exactly one flag per row.
    pub closed spec fn wf(self) -> bool {
        forall|i: int|
            0 <= i < self.field@.len() ==> (#[trigger] self.field@[i]@.len()) as int
                == self.spec_rows()
    }

    /// `(x, y)` lies inside the field.
    pub open spec fn spec_within(self, x: int, y: int) -> bool {
        0 <= x < self.spec_columns() && 0 <= y < self.spec_rows()
    }

    /// `(x, y)` is in bounds and not blocked.
    pub open spec fn open_at(self, x: int, y: int) -> bool {
        self.spec_within(x, y) && !self.spec_blocked(x, y)
    }

    /// Cell `(x, y)` can be reached from `(ox, oy)` by at most `k` unit
    /// steps, every cell along the way (the origin and `(x, y)` included)
    /// being in bounds and open.
    pub open spec fn reaches_within(self, ox: int, oy: int, x: int, y: int, k: nat) -> bool
        decreases k,
    {
        self.open_at(x, y) && ((x == ox && y == oy) || (k > 0 && exists|nx: int, ny: int|
            #[trigger] adjacent(x, y, nx, ny) && self.reaches_within(
                ox,
                oy,
                nx,
                ny,
                (k - 1) as nat,
            )))
    }
}

/// `g1` is `g0` with the flag of cell `(x, y)` flipped and nothing else
/// changed.
pub open spec fn toggled(g0: Grid, g1: Grid, x: int, y: int) -> bool {
    &&& g1.spec_columns() == g0.spec_columns()
    &&& g1.spec_rows() == g0.spec_rows()
    &&& g1.spec_blocked(x, y) == !g0.spec_blocked(x, y)
    &&& forall|a: int, b: int|
        g0.spec_within(a, b) && !(a == x && b == y) ==> (#[trigger] g1.spec_blocked(a, b))
            == g0.spec_blocked(a, b)
}

/// A field of `cols` columns by `rows` rows with every flag false.
pub(crate) fn false_field(cols: usize, rows: usize) -> (f: Vec<Vec<bool>>)
    ensures
        f@.len() == cols,
        forall|i: int| 0 <= i < cols ==> (#[trigger] f@[i]@).len() == rows,
        forall|i: int, j: int| 0 <= i < cols && 0 <= j < rows ==> !(#[trigger] f@[i]@[j]),
{
    let mut f: Vec<Vec<bool>> = Vec::new();
    let mut i: usize = 0;
    while i < cols
        invariant
            i <= cols,
            f@.len() == i,
            forall|a: int| 0 <= a < i ==> (#[trigger] f@[a]@).len() == rows,
            forall|a: int, b: int| 0 <= a < i && 0 <= b < rows ==> !(#[trigger] f@[a]@[b]),
        decreases cols - i,
    {
        let mut row: Vec<bool> = Vec::new();
        let mut j: usize = 0;
        while j < rows
            invariant
                j <= rows,
                row@.len() == j,
                forall|b: int| 0 <= b < j ==> !(#[trigger] row@[b]),
            decreases rows - j,
        {
            row.push(false);
            j = j + 1;
        }
        f.push(row);
        i = i + 1;
    }
    f
}

impl Grid {
    /// Builds the field for a drawable area of `width` by `height` pixels
    /// partitioned into square cells of `size` pixels: the column and row
    /// counts come by integer division, and every cell starts open.
    pub fn new(width: u32, height: u32, size: u32) -> (g: Grid)
        requires
            1 <= size,
        ensures
            g.wf(),
            g.spec_columns() == width as int / size as int,
            g.spec_rows() == (if width as int / size as int == 0 {
                0
            } else {
                height as int / size as int
            }),
            forall|x: int, y: int| g.spec_within(x, y) ==> !(#[trigger] g.spec_blocked(x, y)),
    {
        let cols: usize = (width / size) as usize;
        let rows: usize = (height / size) as usize;
        let g = Grid { field: false_field(cols, rows) };
        g
    }

    /// The number of columns, as a machine integer.
    pub fn columns(&self) -> (c: usize)
        ensures
            c == self.spec_columns(),
    {
        self.field.len()
    }

    /// The number of rows, as a machine integer.
    pub fn rows(&self) -> (r: usize)
        ensures
            r == self.spec_rows(),
    {
        if self.field.len() == 0 {
            0
        } else {
            self.field[0].len()
        }
    }

    /// True exactly when `(x, y)` lies inside the field.
    pub fn within_bounds(&self, x: usize, y: usize) -> (r: bool)
        ensures
            r == self.spec_within(x as int, y as int),
    {
        if self.field.len() == 0 {
            false
        } else {
            x < self.field.len() && y < self.field[0].len()
        }
    }

    /// True exactly when the in-bounds cell `(x, y)` is open.
    pub fn tile_at(&self, x: usize, y: usize) -> (r: bool)
        requires
            self.wf(),
            self.spec_within(x as int, y as int),
        ensures
            r == !self.spec_blocked(x as int, y as int),
    {
        !self.field[x][y]
    }

    /// Flips the blocked flag of the in-bounds cell `(x, y)`; every other
    /// cell and the dimensions stay as they were.
    pub fn toggle_position(&mut self, x: usize, y: usize)
        requires
            old(self).wf(),
            old(self).spec_within(x as int, y as int),
        ensures
            final(self).wf(),
            toggled(*old(self), *final(self), x as int, y as int),
    {
        let mut row: Vec<bool> = self.field.remove(x);
        let flag: bool = row[y];
        row[y] = !flag;
        self.field.insert(x, row);
        proof {
            assert forall|i: int| 0 <= i < self.field@.len() && i != x implies self.field@[i]
                == old(self).field@[i] by {
            }
            assert(self.field@[x as int]@ == old(self).field@[x as int]@.update(y as int, !old(
                self,
            ).field@[x as int]@[y as int]));
        }
    }

    /// The in-bounds, open cells one unit step from `(x, y)`: up to four
    /// distinct coordinates, and none at all when `(x, y)` itself is out of
    /// bounds.
    pub fn neighbors_at(&self, x: usize, y: usize) -> (r: Vec<Point>)
        requires
            self.wf(),
        ensures
            forall|p: Point| #[trigger]
                r@.contains(p) <==> (self.spec_within(x as int, y as int) && adjacent(
                    x as int,
                    y as int,
                    p.x as int,
                    p.y as int,
                ) && self.open_at(p.x as int, p.y as int)),
            forall|k1: int, k2: int| 0 <= k1 < k2 < r@.len() ==> r@[k1] != r@[k2],
            (self.spec_within(x as int, y as int) && self.open_at(x as int + 1, y as int)
                && self.open_at(x as int - 1, y as int) && self.open_at(x as int, y as int + 1)
                && self.open_at(x as int, y as int - 1)) ==> r@.len() == 4,
    {
        let mut neighbors: Vec<Point> = Vec::new();
        if !self.within_bounds(x, y) {
            neighbors
        } else {
            let cols: usize = self.field.len();
            let rows: usize = self.field[0].len();
            let c_right: bool = x + 1 < cols && !self.field[x + 1][y];
            let c_down: bool = y + 1 < rows && !self.field[x][y + 1];
            let c_left: bool = x > 0 && !self.field[x - 1][y];
            let c_up: bool = y > 0 && !self.field[x][y - 1];
            if c_right {
                neighbors.push(Point { x: x + 1, y: y });
            }
            if c_down {
                neighbors.push(Point { x: x, y: y + 1 });
            }
            if c_left {
                neighbors.push(Point { x: x - 1, y: y });
            }
            if c_up {
                neighbors.push(Point { x: x, y: y - 1 });
            }
            proof {
                let s = neighbors@;
                let xi = x as int;
                let yi = y as int;
                let i2: int = if c_right { 1 } else { 0 };
                let i3: int = i2 + (if c_down { 1int } else { 0int });
                let i4: int = i3 + (if c_left { 1int } else { 0int });
                assert forall|p: Point|
                    (self.spec_within(xi, yi) && adjacent(xi, yi, p.x as int, p.y as int)
                        && self.open_at(p.x as int, p.y as int)) implies #[trigger] s.contains(
                    p,
                ) by {
                    if p.x as int == xi + 1 && p.y as int == yi {
                        assert(c_right);
                        assert(s[0] == p);
                    } else if p.x as int == xi && p.y as int == yi + 1 {
                        assert(c_down);
                        assert(s[i2] == p);
                    } else if p.x as int == xi - 1 && p.y as int == yi {
                        assert(c_left);
                        assert(s[i3] == p);
                    } else {
                        assert(p.x as int == xi && p.y as int == yi - 1);
                        assert(c_up);
                        assert(s[i4] == p);
                    }
                }
                assert forall|p: Point| #[trigger]
                    s.contains(p) implies (self.spec_within(xi, yi) && adjacent(
                    xi,
                    yi,
                    p.x as int,
                    p.y as int,
                ) && self.open_at(p.x as int, p.y as int)) by {
                    let k = choose|k: int| 0 <= k < s.len() && s[k] == p;
                    assert(0 <= k < s.len());
                    assert(s.len() <= 4);
                }
            }
            neighbors
        }
    }
}

/// Reachability only ever grows with the move budget.
pub proof fn lemma_reaches_monotone(g: Grid, ox: int, oy: int, x: int, y: int, k1: nat, k2: nat)
    requires
        g.reaches_within(ox, oy, x, y, k1),
        k1 <= k2,
    ensures
        g.reaches_within(ox, oy, x, y, k2),
    decreases k1,
{
    if x == ox && y == oy {
        assert(g.reaches_within(ox, oy, x, y, k2));
    } else {
        let (nx, ny) = choose|nx: int, ny: int|
            adjacent(x, y, nx, ny) && g.reaches_within(ox, oy, nx, ny, (k1 - 1) as nat);
        lemma_reaches_monotone(g, ox, oy, nx, ny, (k1 - 1) as nat, (k2 - 1) as nat);
        assert(adjacent(x, y, nx, ny) && g.reaches_within(ox, oy, nx, ny, (k2 - 1) as nat));
        assert(g.reaches_within(ox, oy, x, y, k2));
    }
}

/// One more unit step onto an open cell keeps a cell reachable, with a
/// budget one larger.
pub proof fn lemma_reaches_step(g: Grid, ox: int, oy: int, x: int, y: int, nx: int, ny: int, k: nat)
    requires
        g.reaches_within(ox, oy, nx, ny, k),
        adjacent(x, y, nx, ny),
        g.open_at(x, y),
    ensures
        g.reaches_within(ox, oy, x, y, (k + 1) as nat),
{
    assert(adjacent(x, y, nx, ny) && g.reaches_within(ox, oy, nx, ny, (((k + 1) as nat) - 1) as nat));
    assert(g.reaches_within(ox, oy, x, y, (k + 1) as nat));
}

/// A reachable cell is always in bounds and open: a blocked or out-of-bounds
/// cell never belongs to a movement area, and no path leads through one.
pub proof fn lemma_reaches_open(g: Grid, ox: int, oy: int, x: int, y: int, k: nat)
    requires
        g.reaches_within(ox, oy, x, y, k),
    ensures
        g.open_at(x, y),
{
}

/// With a budget of zero only the origin itself is reachable.
pub proof fn lemma_reaches_zero(g: Grid, ox: int, oy: int, x: int, y: int)
    requires
        g.reaches_within(ox, oy, x, y, 0),
    ensures
        x == ox && y == oy,
{
}

/// From a blocked or out-of-bounds origin no cell is reachable at all.
pub proof fn lemma_unreachable_from_closed_origin(
    g: Grid,
    ox: int,
    oy: int,
    x: int,
    y: int,
    k: nat,
)
    requires
        !g.open_at(ox, oy),
    ensures
        !g.reaches_within(ox, oy, x, y, k),
    decreases k,
{
    if g.reaches_within(ox, oy, x, y, k) {
        if x == ox && y == oy {
            assert(g.open_at(x, y));
            assert(false);
        } else {
            let (nx, ny) = choose|nx: int, ny: int|
                adjacent(x, y, nx, ny) && g.reaches_within(ox, oy, nx, ny, (k - 1) as nat);
            lemma_unreachable_from_closed_origin(g, ox, oy, nx, ny, (k - 1) as nat);
            assert(false);
        }
    }
}

/// Once a budget `d` reaches no cell beyond what `d - 1` already reached,
/// no larger budget ever will: reachability has hit its fixed point.
pub proof fn lemma_reaches_stable(g: Grid, ox: int, oy: int, d: nat, x: int, y: int, k: nat)
    requires
        1 <= d,
        forall|a: int, b: int| #[trigger]
            g.reaches_within(ox, oy, a, b, d) ==> g.reaches_within(ox, oy, a, b, (d - 1) as nat),
        g.reaches_within(ox, oy, x, y, k),
    ensures
        g.reaches_within(ox, oy, x, y, (d - 1) as nat),
    decreases k,
{
    if x == ox && y == oy {
        assert(g.reaches_within(ox, oy, x, y, 0));
        lemma_reaches_monotone(g, ox, oy, x, y, 0, (d - 1) as nat);
    } else {
        let (nx, ny) = choose|nx: int, ny: int|
            adjacent(x, y, nx, ny) && g.reaches_within(ox, oy, nx, ny, (k - 1) as nat);
        lemma_reaches_stable(g, ox, oy, d, nx, ny, (k - 1) as nat);
        lemma_reaches_step(g, ox, oy, x, y, nx, ny, (d - 1) as nat);
        assert((((d - 1) as nat) + 1) as nat == d);
        assert(g.reaches_within(ox, oy, x, y, d));
    }
}

/// The Manhattan distance between two coordinates.
pub open spec fn manhattan(ax: int, ay: int, bx: int, by: int) -> int {
    (if ax < bx {
        bx - ax
    } else {
        ax - bx
    }) + (if ay < by {
        by - ay
    } else {
        ay - by
    })
}

/// `g` has no blocked cell.
pub open spec fn fully_open(g: Grid) -> bool {
    forall|x: int, y: int| g.spec_within(x, y) ==> !(#[trigger] g.spec_blocked(x, y))
}

/// On a grid with no walls, a cell is reachable within `k` steps exactly
/// when it lies in bounds within Manhattan distance `k` of the origin.
pub proof fn lemma_open_grid_reach_is_manhattan(g: Grid, ox: int, oy: int, x: int, y: int, k: nat)
    requires
        fully_open(g),
        g.spec_within(ox, oy),
    ensures
        g.reaches_within(ox, oy, x, y, k) <==> (g.spec_within(x, y) && manhattan(ox, oy, x, y)
            <= k),
    decreases k,
{
    if g.reaches_within(ox, oy, x, y, k) {
        if x == ox && y == oy {
        } else {
            let (nx, ny) = choose|nx: int, ny: int|
                #[trigger] adjacent(x, y, nx, ny) && g.reaches_within(ox, oy, nx, ny, (k - 1) as nat);
            lemma_open_grid_reach_is_manhattan(g, ox, oy, nx, ny, (k - 1) as nat);
        }
    }
    if g.spec_within(x, y) && manhattan(ox, oy, x, y) <= k {
        assert(g.open_at(x, y));
        if x == ox && y == oy {
            assert(g.reaches_within(ox, oy, x, y, k));
        } else {
            let (nx, ny): (int, int) = if x > ox {
                (x - 1, y)
            } else if x < ox {
                (x + 1, y)
            } else if y > oy {
                (x, y - 1)
            } else {
                (x, y + 1)
            };
            assert(g.spec_within(nx, ny));
            assert(manhattan(ox, oy, nx, ny) == manhattan(ox, oy, x, y) - 1);
            lemma_open_grid_reach_is_manhattan(g, ox, oy, nx, ny, (k - 1) as nat);
            assert(g.reaches_within(ox, oy, nx, ny, (k - 1) as nat));
            assert(adjacent(x, y, nx, ny));
            assert(g.reaches_within(ox, oy, x, y, k));
        }
    }
}

/// Toggling a cell twice restores the occupancy field: the dimensions are
/// unchanged and every in-bounds cell holds its original flag again.
pub proof fn lemma_toggle_twice(g0: Grid, g1: Grid, g2: Grid, x: int, y: int)
    requires
        toggled(g0, g1, x, y),
        toggled(g1, g2, x, y),
    ensures
        g2.spec_columns() == g0.spec_columns(),
        g2.spec_rows() == g0.spec_rows(),
        forall|a: int, b: int|
            g0.spec_within(a, b) ==> (#[trigger] g2.spec_blocked(a, b)) == g0.spec_blocked(a, b),
{
    assert forall|a: int, b: int|
        g0.spec_within(a, b) implies (#[trigger] g2.spec_blocked(a, b)) == g0.spec_blocked(
        a,
        b,
    ) by {
        if a == x && b == y {
        } else {
            assert(g1.spec_blocked(a, b) == g0.spec_blocked(a, b));
            assert(g1.spec_within(a, b));
            assert(g2.spec_blocked(a, b) == g1.spec_blocked(a, b));
        }
    }
}

} // verus!
