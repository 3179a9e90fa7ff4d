//! The cursor: tracks the current grid cell derived from pixel coordinates
//! and recomputes, each logic tick, the set of cells reachable from that
//! cell within a bounded number of unit steps through open cells.

use vstd::prelude::*;

use crate::grid::adjacent;
use crate::grid::false_field;
use crate::grid::lemma_reaches_monotone;
use crate::grid::lemma_reaches_stable;
use crate::grid::lemma_reaches_step;
use crate::grid::lemma_unreachable_from_closed_origin;
use crate::grid::Grid;
use crate::grid::Point;

verus! {

/// Cell `p` is reachable from `(ox, oy)` within `k` unit steps.
pub open spec fn reaches_point(g: Grid, ox: int, oy: int, p: Point, k: nat) -> bool {
    g.reaches_within(ox, oy, p.x as int, p.y as int, k)
}

/// `p` belongs to the movement area of origin `(ox, oy)` under `budget`:
/// reachable through open cells within the budget, and distinct from the
/// origin itself, which is never part of its own movement area.
pub open spec fn in_movement_area(g: Grid, ox: int, oy: int, budget: nat, p: Point) -> bool {
    reaches_point(g, ox, oy, p, budget) && !(p.x as int == ox && p.y as int == oy)
}

/// With a move budget of zero no cell belongs to the movement area: the
/// origin is the only cell reachable, and it is excluded by definition.
pub proof fn lemma_budget_zero_empty(g: Grid, ox: int, oy: int, p: Point)
    ensures
        !in_movement_area(g, ox, oy, 0, p),
{
    if reaches_point(g, ox, oy, p, 0) {
        crate::grid::lemma_reaches_zero(g, ox, oy, p.x as int, p.y as int);
    }
}

/// A blocked or out-of-bounds cell never belongs to a movement area.
pub proof fn lemma_movement_area_open(g: Grid, ox: int, oy: int, budget: nat, p: Point)
    requires
        in_movement_area(g, ox, oy, budget, p),
    ensures
        g.open_at(p.x as int, p.y as int),
{
    crate::grid::lemma_reaches_open(g, ox, oy, p.x as int, p.y as int, budget);
}

/// On a grid with no walls the movement area is exactly the set of in-bounds
/// cells within Manhattan distance `budget` of the origin, the origin itself
/// excluded.
pub proof fn lemma_open_grid_movement_area(g: Grid, ox: int, oy: int, budget: nat, p: Point)
    requires
        crate::grid::fully_open(g),
        g.spec_within(ox, oy),
    ensures
        in_movement_area(g, ox, oy, budget, p) <==> (g.spec_within(p.x as int, p.y as int)
            && crate::grid::manhattan(ox, oy, p.x as int, p.y as int) <= budget && !(p.x as int
            == ox && p.y as int == oy)),
{
    crate::grid::lemma_open_grid_reach_is_manhattan(g, ox, oy, p.x as int, p.y as int, budget);
}

/// `p` is reached at budget `k` but at no smaller budget.
spec fn newly_at(g: Grid, ox: int, oy: int, p: Point, k: nat) -> bool {
    reaches_point(g, ox, oy, p, k) && (k == 0 || !reaches_point(g, ox, oy, p, (k - 1) as nat))
}

/// The flag of cell `p` in a visited field.
spec fn vis_p(vis: Vec<Vec<bool>>, p: Point) -> bool {
    vis@[p.x as int]@[p.y as int]
}

/// The visited field has one flag per cell of `g`.
spec fn vis_shape(vis: Vec<Vec<bool>>, g: Grid) -> bool {
    vis@.len() == g.spec_columns() && forall|i: int|
        0 <= i < vis@.len() ==> (#[trigger] vis@[i]@).len() == g.spec_rows()
}

/// `p` lies inside `g`.
spec fn within_p(g: Grid, p: Point) -> bool {
    g.spec_within(p.x as int, p.y as int)
}

/// `p` is open and one unit step from one of the first `upto` cells of `fr`.
spec fn added_via(g: Grid, fr: Seq<Point>, upto: int, p: Point) -> bool {
    g.open_at(p.x as int, p.y as int) && exists|k: int|
        0 <= k < upto && adjacent((#[trigger] fr[k]).x as int, fr[k].y as int, p.x as int, p.y as int)
}

/// `p` stands among the first `upto` elements of `s`.
spec fn in_prefix(s: Seq<Point>, upto: int, p: Point) -> bool {
    exists|k: int| 0 <= k < upto && #[trigger] s[k] == p
}

/// Pushing onto a sequence adds exactly the pushed element to its members.
proof fn lemma_push_contains<A>(s: Seq<A>, e: A, p: A)
    ensures
        s.push(e).contains(p) <==> (s.contains(p) || p == e),
{
    if s.push(e).contains(p) {
        let k = choose|k: int| 0 <= k < s.push(e).len() && s.push(e)[k] == p;
        if k < s.len() {
            assert(s[k] == p);
        }
    }
    if s.contains(p) {
        let k = choose|k: int| 0 <= k < s.len() && s[k] == p;
        assert(s.push(e)[k] == p);
    }
    if p == e {
        assert(s.push(e)[s.len() as int] == p);
    }
}

/// Sets the flag of cell `(x, y)` in a visited field, leaving every other
/// flag and the field's shape unchanged.
fn mark(vis: &mut Vec<Vec<bool>>, x: usize, y: usize)
    requires
        x < old(vis)@.len(),
        y < old(vis)@[x as int]@.len(),
    ensures
        final(vis)@.len() == old(vis)@.len(),
        forall|i: int|
            0 <= i < old(vis)@.len() ==> (#[trigger] final(vis)@[i]@).len()
                == old(vis)@[i]@.len(),
        forall|i: int, j: int|
            0 <= i < old(vis)@.len() && 0 <= j < old(vis)@[i]@.len()
                ==> (#[trigger] final(vis)@[i]@[j]) == (if i == x && j == y {
                true
            } else {
                old(vis)@[i]@[j]
            }),
{
    let mut row: Vec<bool> = vis.remove(x);
    row[y] = true;
    vis.insert(x, row);
    proof {
        assert forall|i: int| 0 <= i < vis@.len() && i != x implies vis@[i] == old(vis)@[i] by {}
        assert(vis@[x as int]@ == old(vis)@[x as int]@.update(y as int, true));
    }
}

/// The cursor: its current cell, the cell size used to derive it from pixel
/// coordinates, the move budget, and the movement area of the last update.
#[derive(Debug)]
pub struct Mouse {
    /// The movement area computed by the last update: every cell reachable
    /// from the cursor's cell within the move budget, the cell itself
    /// excluded, each listed once.
    pub possible_moves: Vec<Point>,
    size: usize,
    x: usize,
    y: usize,
    max_moves: u32,
}

impl Mouse {
    /// The cell size in pixels.
    pub closed spec fn spec_size(self) -> int {
        self.size as int
    }

    /// The cursor's current column.
    pub closed spec fn spec_x(self) -> int {
        self.x as int
    }

    /// The cursor's current row.
    pub closed spec fn spec_y(self) -> int {
        self.y as int
    }

    /// The move budget.
    pub closed spec fn spec_max_moves(self) -> nat {
        self.max_moves as nat
    }

    /// The movement area of the last update, as a sequence of cells.
    pub closed spec fn spec_moves(self) -> Seq<Point> {
        self.possible_moves@
    }

    /// A cursor at cell (0, 0) with an empty movement area.
    pub fn new(size: u32, max_moves: u32) -> (m: Mouse)
        requires
            1 <= size,
        ensures
            m.spec_size() == size as int,
            m.spec_max_moves() == max_moves as nat,
            m.spec_x() == 0,
            m.spec_y() == 0,
            m.spec_moves().len() == 0,
    {
        Mouse {
            max_moves: max_moves,
            possible_moves: Vec::new(),
            size: size as usize,
            x: 0,
            y: 0,
        }
    }

    /// The cursor's current cell, as (column, row).
    pub fn position(&self) -> (r: (usize, usize))
        ensures
            r.0 == self.spec_x(),
            r.1 == self.spec_y(),
    {
        (self.x, self.y)
    }

    /// Derives the cursor's cell from pixel coordinates by integer division
    /// by the cell size; the movement area is left as it was.
    pub fn update_position(&mut self, px: usize, py: usize)
        requires
            1 <= old(self).spec_size(),
        ensures
            final(self).spec_x() == px as int / old(self).spec_size(),
            final(self).spec_y() == py as int / old(self).spec_size(),
            final(self).spec_size() == old(self).spec_size(),
            final(self).spec_max_moves() == old(self).spec_max_moves(),
            final(self).spec_moves() == old(self).spec_moves(),
    {
        self.x = px / self.size;
        self.y = py / self.size;
    }

    /// Recomputes the movement area from the cursor's current cell against
    /// the current occupancy field.
    pub fn update(&mut self, grid: &Grid)
        requires
            grid.wf(),
        ensures
            final(self).spec_size() == old(self).spec_size(),
            final(self).spec_x() == old(self).spec_x(),
            final(self).spec_y() == old(self).spec_y(),
            final(self).spec_max_moves() == old(self).spec_max_moves(),
            forall|p: Point| #[trigger]
                final(self).spec_moves().contains(p) <==> in_movement_area(
                    *grid,
                    old(self).spec_x(),
                    old(self).spec_y(),
                    old(self).spec_max_moves(),
                    p,
                ),
            forall|k1: int, k2: int|
                0 <= k1 < k2 < final(self).spec_moves().len()
                    ==> final(self).spec_moves()[k1] != final(self).spec_moves()[k2],
    {
        let x = self.x;
        let y = self.y;
        self.find_movement_area(grid, x, y, 0);
    }

    /// Replaces the movement area with the set of cells reachable from
    /// `(x, y)` within `max_moves - depth` unit steps through open cells,
    /// `(x, y)` itself excluded, each cell listed once. With `depth` above
    /// the budget, or an out-of-bounds or blocked `(x, y)`, the area is
    /// empty. The traversal expands level by level and never enqueues a
    /// cell twice, so its work is bounded by the open cells within reach.
    #[verifier::loop_isolation(false)]
    #[verifier::rlimit(60)]
    pub fn find_movement_area(&mut self, grid: &Grid, x: usize, y: usize, depth: u32)
        requires
            grid.wf(),
        ensures
            final(self).spec_size() == old(self).spec_size(),
            final(self).spec_x() == old(self).spec_x(),
            final(self).spec_y() == old(self).spec_y(),
            final(self).spec_max_moves() == old(self).spec_max_moves(),
            forall|p: Point| #[trigger]
                final(self).spec_moves().contains(p) <==> (depth <= old(self).spec_max_moves()
                    && in_movement_area(
                    *grid,
                    x as int,
                    y as int,
                    (old(self).spec_max_moves() - depth) as nat,
                    p,
                )),
            forall|k1: int, k2: int|
                0 <= k1 < k2 < final(self).spec_moves().len()
                    ==> final(self).spec_moves()[k1] != final(self).spec_moves()[k2],
    {
        let ghost g = *grid;
        let ghost ox = x as int;
        let ghost oy = y as int;
        let mut result: Vec<Point> = Vec::new();
        if depth > self.max_moves {
            self.possible_moves = result;
            return ;
        }
        let budget: u32 = self.max_moves - depth;
        let ghost bn = budget as nat;
        let open_origin: bool = if grid.within_bounds(x, y) {
            grid.tile_at(x, y)
        } else {
            false
        };
        if !open_origin {
            proof {
                assert(!g.open_at(ox, oy));
                assert forall|p: Point| !in_movement_area(g, ox, oy, bn, p) by {
                    lemma_unreachable_from_closed_origin(g, ox, oy, p.x as int, p.y as int, bn);
                }
            }
            self.possible_moves = result;
            return ;
        }
        let cols: usize = grid.columns();
        let rows: usize = grid.rows();
        let mut visited: Vec<Vec<bool>> = false_field(cols, rows);
        mark(&mut visited, x, y);
        let mut frontier: Vec<Point> = Vec::new();
        let op = Point { x: x, y: y };
        frontier.push(op);
        let mut d: u32 = 0;
        let ghost mut dd: nat = 0;
        proof {
            assert(g.open_at(ox, oy));
            assert(frontier@[0] == op);
            assert forall|p: Point|
                within_p(g, p) implies ((#[trigger] vis_p(visited, p)) <==> reaches_point(
                g,
                ox,
                oy,
                p,
                0,
            )) by {
                if p.x as int == ox && p.y as int == oy {
                    assert(vis_p(visited, p));
                    assert(reaches_point(g, ox, oy, p, 0));
                } else {
                    assert(!vis_p(visited, p));
                    assert(!reaches_point(g, ox, oy, p, 0));
                }
            }
            assert forall|p: Point| #[trigger]
                newly_at(g, ox, oy, p, 0) implies frontier@.contains(p) by {
                assert(p.x as int == ox && p.y as int == oy);
                assert(p == op);
                assert(frontier@[0] == p);
            }
        }
        while d < budget && frontier.len() > 0
            invariant
                d <= budget,
                dd == d as nat,
                vis_shape(visited, g),
                forall|p: Point|
                    within_p(g, p) ==> ((#[trigger] vis_p(visited, p)) <==> reaches_point(
                        g,
                        ox,
                        oy,
                        p,
                        dd,
                    )),
                forall|k: int|
                    0 <= k < frontier@.len() ==> newly_at(g, ox, oy, #[trigger] frontier@[k], dd),
                forall|p: Point| #[trigger]
                    newly_at(g, ox, oy, p, dd) ==> frontier@.contains(p),
                forall|p: Point| #[trigger]
                    result@.contains(p) <==> (within_p(g, p) && vis_p(visited, p) && !(p.x as int
                        == ox && p.y as int == oy)),
                forall|k1: int, k2: int|
                    0 <= k1 < k2 < result@.len() ==> result@[k1] != result@[k2],
            decreases budget - d,
        {
            let ghost dd1 = (dd + 1) as nat;
            let mut next: Vec<Point> = Vec::new();
            let mut i: usize = 0;
            proof {
                assert forall|p: Point|
                    within_p(g, p) && #[trigger] vis_p(visited, p) implies reaches_point(
                    g,
                    ox,
                    oy,
                    p,
                    dd1,
                ) by {
                    lemma_reaches_monotone(g, ox, oy, p.x as int, p.y as int, dd, dd1);
                }
            }
            while i < frontier.len()
                invariant
                    i <= frontier.len(),
                    vis_shape(visited, g),
                    // every cell reached within dd is already visited
                    forall|p: Point|
                        within_p(g, p) && reaches_point(g, ox, oy, p, dd) ==> #[trigger] vis_p(
                            visited,
                            p,
                        ),
                    // every visited cell is reachable within dd + 1
                    forall|p: Point|
                        within_p(g, p) && #[trigger] vis_p(visited, p) ==> reaches_point(
                            g,
                            ox,
                            oy,
                            p,
                            dd1,
                        ),
                    // the open neighbors of the processed frontier cells are visited
                    forall|p: Point| #[trigger]
                        added_via(g, frontier@, i as int, p) ==> vis_p(visited, p),
                    // next holds exactly the cells first visited this round
                    forall|p: Point| #[trigger]
                        next@.contains(p) <==> (within_p(g, p) && vis_p(visited, p)
                            && !reaches_point(g, ox, oy, p, dd)),
                    forall|p: Point| #[trigger]
                        result@.contains(p) <==> (within_p(g, p) && vis_p(visited, p) && !(
                        p.x as int == ox && p.y as int == oy)),
                    forall|k1: int, k2: int|
                        0 <= k1 < k2 < result@.len() ==> result@[k1] != result@[k2],
                decreases frontier.len() - i,
            {
                let pi = frontier[i];
                proof {
                    assert(newly_at(g, ox, oy, frontier@[i as int], dd));
                    assert(g.open_at(pi.x as int, pi.y as int));
                }
                let nbrs = grid.neighbors_at(pi.x, pi.y);
                let mut j: usize = 0;
                while j < nbrs.len()
                    invariant
                        j <= nbrs.len(),
                        vis_shape(visited, g),
                        forall|p: Point|
                            within_p(g, p) && reaches_point(g, ox, oy, p, dd) ==> #[trigger] vis_p(
                                visited,
                                p,
                            ),
                        forall|p: Point|
                            within_p(g, p) && #[trigger] vis_p(visited, p) ==> reaches_point(
                                g,
                                ox,
                                oy,
                                p,
                                dd1,
                            ),
                        forall|p: Point| #[trigger]
                            added_via(g, frontier@, i as int, p) ==> vis_p(visited, p),
                        // the neighbors handled so far are visited
                        forall|q: Point| #[trigger]
                            in_prefix(nbrs@, j as int, q) ==> vis_p(visited, q),
                        forall|p: Point| #[trigger]
                            next@.contains(p) <==> (within_p(g, p) && vis_p(visited, p)
                                && !reaches_point(g, ox, oy, p, dd)),
                        forall|p: Point| #[trigger]
                            result@.contains(p) <==> (within_p(g, p) && vis_p(visited, p) && !(
                            p.x as int == ox && p.y as int == oy)),
                        forall|k1: int, k2: int|
                            0 <= k1 < k2 < result@.len() ==> result@[k1] != result@[k2],
                    decreases nbrs.len() - j,
                {
                    let n = nbrs[j];
                    proof {
                        assert(nbrs@[j as int] == n);
                        assert(nbrs@.contains(n));
                        assert(g.open_at(n.x as int, n.y as int));
                        assert(adjacent(pi.x as int, pi.y as int, n.x as int, n.y as int));
                    }
                    if !visited[n.x][n.y] {
                        let ghost vis0 = visited;
                        let ghost next0 = next@;
                        let ghost result0 = result@;
                        mark(&mut visited, n.x, n.y);
                        next.push(n);
                        result.push(n);
                        proof {
                            assert(!vis_p(vis0, n));
                            assert(!reaches_point(g, ox, oy, n, dd));
                            lemma_reaches_step(
                                g,
                                ox,
                                oy,
                                n.x as int,
                                n.y as int,
                                pi.x as int,
                                pi.y as int,
                                dd,
                            );
                            assert(reaches_point(g, ox, oy, n, dd1));
                            assert forall|p: Point|
                                within_p(g, p) implies ((#[trigger] vis_p(visited, p)) == (vis_p(
                                vis0,
                                p,
                            ) || p == n)) by {}
                            lemma_push_contains(next0, n, n);
                            lemma_push_contains(result0, n, n);
                            assert forall|p: Point| #[trigger]
                                next@.contains(p) implies (within_p(g, p) && vis_p(visited, p)
                                && !reaches_point(g, ox, oy, p, dd)) by {
                                lemma_push_contains(next0, n, p);
                            }
                            assert forall|p: Point|
                                (within_p(g, p) && vis_p(visited, p) && !reaches_point(
                                    g,
                                    ox,
                                    oy,
                                    p,
                                    dd,
                                )) implies #[trigger] next@.contains(p) by {
                                lemma_push_contains(next0, n, p);
                            }
                            assert(!(n.x as int == ox && n.y as int == oy)) by {
                                assert(reaches_point(g, ox, oy, op, 0));
                                lemma_reaches_monotone(g, ox, oy, ox, oy, 0, dd);
                                assert(vis_p(vis0, op));
                            }
                            assert forall|p: Point| #[trigger]
                                result@.contains(p) implies (within_p(g, p) && vis_p(visited, p)
                                && !(p.x as int == ox && p.y as int == oy)) by {
                                lemma_push_contains(result0, n, p);
                            }
                            assert forall|p: Point|
                                (within_p(g, p) && vis_p(visited, p) && !(p.x as int == ox
                                    && p.y as int == oy)) implies #[trigger] result@.contains(
                                p,
                            ) by {
                                lemma_push_contains(result0, n, p);
                            }
                            assert(!result0.contains(n));
                            assert forall|k1: int, k2: int|
                                0 <= k1 < k2 < result@.len() implies result@[k1]
                                != result@[k2] by {
                                if k2 == result@.len() - 1 {
                                    assert(result0[k1] == result@[k1]);
                                    assert(result0.contains(result0[k1]));
                                } else {
                                    assert(result0[k1] == result@[k1]);
                                    assert(result0[k2] == result@[k2]);
                                }
                            }
                            assert forall|q: Point| #[trigger]
                                in_prefix(nbrs@, j as int + 1, q) implies vis_p(visited, q) by {
                                let k = choose|k: int| 0 <= k < j as int + 1 && nbrs@[k] == q;
                                if k < j as int {
                                    assert(in_prefix(nbrs@, j as int, q));
                                    assert(vis_p(vis0, q));
                                    assert(nbrs@.contains(q));
                                    assert(within_p(g, q));
                                }
                            }
                        }
                    } else {
                        proof {
                            assert(vis_p(visited, n));
                            assert forall|q: Point| #[trigger]
                                in_prefix(nbrs@, j as int + 1, q) implies vis_p(visited, q) by {
                                let k = choose|k: int| 0 <= k < j as int + 1 && nbrs@[k] == q;
                                if k < j as int {
                                    assert(in_prefix(nbrs@, j as int, q));
                                } else {
                                    assert(q == n);
                                }
                            }
                        }
                    }
                    j = j + 1;
                }
                proof {
                    assert forall|p: Point| #[trigger]
                        added_via(g, frontier@, i as int + 1, p) implies vis_p(visited, p) by {
                        let k = choose|k: int|
                            0 <= k < i as int + 1 && adjacent(
                                frontier@[k].x as int,
                                frontier@[k].y as int,
                                p.x as int,
                                p.y as int,
                            );
                        if k < i as int {
                            assert(added_via(g, frontier@, i as int, p));
                        } else {
                            assert(nbrs@.contains(p));
                            assert(in_prefix(nbrs@, nbrs@.len() as int, p)) by {
                                let m = choose|m: int| 0 <= m < nbrs@.len() && nbrs@[m] == p;
                                assert(nbrs@[m] == p);
                            }
                        }
                    }
                }
                i = i + 1;
            }
            proof {
                // after the round the visited field is exactly reach within dd + 1
                assert forall|p: Point|
                    within_p(g, p) && reaches_point(g, ox, oy, p, dd1) implies #[trigger] vis_p(
                    visited,
                    p,
                ) by {
                    if p.x as int == ox && p.y as int == oy {
                        assert(reaches_point(g, ox, oy, p, 0));
                        lemma_reaches_monotone(g, ox, oy, ox, oy, 0, dd);
                        assert(vis_p(visited, p));
                    } else if reaches_point(g, ox, oy, p, dd) {
                        assert(vis_p(visited, p));
                    } else {
                        let (nx, ny) = choose|nx: int, ny: int|
                            #[trigger] adjacent(p.x as int, p.y as int, nx, ny)
                                && g.reaches_within(ox, oy, nx, ny, (dd1 - 1) as nat);
                        assert(g.reaches_within(ox, oy, nx, ny, dd));
                        if dd > 0 && g.reaches_within(ox, oy, nx, ny, (dd - 1) as nat) {
                            lemma_reaches_step(
                                g,
                                ox,
                                oy,
                                p.x as int,
                                p.y as int,
                                nx,
                                ny,
                                (dd - 1) as nat,
                            );
                            assert(g.reaches_within(ox, oy, p.x as int, p.y as int, dd));
                            assert(false);
                        }
                        let q = Point { x: nx as usize, y: ny as usize };
                        assert(g.open_at(nx, ny));
                        assert(q.x as int == nx && q.y as int == ny);
                        assert(newly_at(g, ox, oy, q, dd));
                        assert(frontier@.contains(q));
                        let k = choose|k: int| 0 <= k < frontier@.len() && frontier@[k] == q;
                        assert(adjacent(
                            frontier@[k].x as int,
                            frontier@[k].y as int,
                            p.x as int,
                            p.y as int,
                        ));
                        assert(added_via(g, frontier@, frontier@.len() as int, p));
                        assert(vis_p(visited, p));
                    }
                }
                assert forall|k: int|
                    0 <= k < next@.len() implies newly_at(g, ox, oy, #[trigger] next@[k], dd1) by {
                    let q = next@[k];
                    assert(next@.contains(q));
                    assert(reaches_point(g, ox, oy, q, dd1));
                }
                assert forall|p: Point| #[trigger]
                    newly_at(g, ox, oy, p, dd1) implies next@.contains(p) by {
                    assert(g.open_at(p.x as int, p.y as int));
                    assert(within_p(g, p));
                    assert(vis_p(visited, p));
                }
            }
            frontier = next;
            d = d + 1;
            proof {
                dd = dd1;
            }
        }
        proof {
            if frontier@.len() == 0 && dd < bn {
                assert(dd >= 1) by {
                    if dd == 0 {
                        assert(reaches_point(g, ox, oy, op, 0));
                        assert(newly_at(g, ox, oy, op, 0));
                        assert(frontier@.contains(op));
                        assert(false);
                    }
                }
                assert forall|a: int, b: int| #[trigger]
                    g.reaches_within(ox, oy, a, b, dd) implies g.reaches_within(
                    ox,
                    oy,
                    a,
                    b,
                    (dd - 1) as nat,
                ) by {
                    assert(g.open_at(a, b));
                    let q = Point { x: a as usize, y: b as usize };
                    assert(q.x as int == a && q.y as int == b);
                    assert(!frontier@.contains(q));
                    assert(!newly_at(g, ox, oy, q, dd));
                }
                assert forall|p: Point|
                    reaches_point(g, ox, oy, p, bn) implies #[trigger] reaches_point(
                    g,
                    ox,
                    oy,
                    p,
                    dd,
                ) by {
                    lemma_reaches_stable(g, ox, oy, dd, p.x as int, p.y as int, bn);
                    lemma_reaches_monotone(g, ox, oy, p.x as int, p.y as int, (dd - 1) as nat, dd);
                }
            }
            assert forall|p: Point| #[trigger]
                result@.contains(p) implies (reaches_point(g, ox, oy, p, bn) && !(p.x as int == ox
                && p.y as int == oy)) by {
                assert(vis_p(visited, p));
                assert(reaches_point(g, ox, oy, p, dd));
                lemma_reaches_monotone(g, ox, oy, p.x as int, p.y as int, dd, bn);
            }
            assert forall|p: Point|
                (reaches_point(g, ox, oy, p, bn) && !(p.x as int == ox && p.y as int
                    == oy)) implies #[trigger] result@.contains(p) by {
                assert(reaches_point(g, ox, oy, p, dd));
                assert(g.open_at(p.x as int, p.y as int));
                assert(within_p(g, p));
                assert(vis_p(visited, p));
            }
        }
        self.possible_moves = result;
    }
}

} // verus!
