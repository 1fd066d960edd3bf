use vstd::prelude::*;
use crate::passability::bit_is_set;

verus! {

/// Side length, in cells, of the square grid that workers walk on.
pub const GRID_SIDE: u8 = 40;

/// A step between neighbouring cells (or none).
#[derive(Copy, Clone, PartialEq, Eq, Structural, Debug)]
pub enum Direction {
    Nowhere,
    Up,
    Down,
    Left,
    Right,
}

/// Horizontal displacement of a step.
pub open spec fn dir_dx(d: Direction) -> int {
    match d {
        Direction::Left => -1,
        Direction::Right => 1,
        _ => 0,
    }
}

/// Vertical displacement of a step (up decreases `y`).
pub open spec fn dir_dy(d: Direction) -> int {
    match d {
        Direction::Up => -1,
        Direction::Down => 1,
        _ => 0,
    }
}

/// Whether `(x, y)` is a cell of the grid.
pub open spec fn in_grid(x: int, y: int) -> bool {
    0 <= x < 40 && 0 <= y < 40
}

/// Row-major index of cell `(x, y)` in a grid-sized array.
pub open spec fn cell_index(x: int, y: int) -> int {
    y * 40 + x
}

/// Whether cell `(x, y)` is free of obstacles.
pub open spec fn passable(obstacles: Seq<u8>, x: int, y: int) -> bool {
    !bit_is_set(obstacles, cell_index(x, y))
}

/// Following `dirs` from `(x, y)` every step is a real move onto a passable
/// grid cell, and the walk ends at `(ex, ey)`.
pub open spec fn valid_route(
    obstacles: Seq<u8>,
    x: int,
    y: int,
    dirs: Seq<Direction>,
    ex: int,
    ey: int,
) -> bool
    decreases dirs.len(),
{
    if dirs.len() == 0 {
        x == ex && y == ey
    } else {
        let d = dirs[0];
        let nx = x + dir_dx(d);
        let ny = y + dir_dy(d);
        &&& d != Direction::Nowhere
        &&& in_grid(nx, ny)
        &&& passable(obstacles, nx, ny)
        &&& valid_route(obstacles, nx, ny, dirs.drop_first(), ex, ey)
    }
}

/// Following `dirs` from `(x, y)` every step is a real move that stays on the grid.
pub open spec fn route_in_grid(x: int, y: int, dirs: Seq<Direction>) -> bool
    decreases dirs.len(),
{
    if dirs.len() == 0 {
        true
    } else {
        let d = dirs[0];
        let nx = x + dir_dx(d);
        let ny = y + dir_dy(d);
        &&& d != Direction::Nowhere
        &&& in_grid(nx, ny)
        &&& route_in_grid(nx, ny, dirs.drop_first())
    }
}

/// `(ex, ey)` can be reached from the passable grid cell `(sx, sy)` by a
/// route over passable cells.
pub open spec fn reachable(obstacles: Seq<u8>, sx: int, sy: int, ex: int, ey: int) -> bool {
    &&& in_grid(sx, sy)
    &&& passable(obstacles, sx, sy)
    &&& exists|dirs: Seq<Direction>| valid_route(obstacles, sx, sy, dirs, ex, ey)
}

/// A valid route followed by a valid route is a valid route.
pub proof fn lemma_route_concat(
    obstacles: Seq<u8>,
    x: int,
    y: int,
    p: Seq<Direction>,
    mx: int,
    my: int,
    q: Seq<Direction>,
    ex: int,
    ey: int,
)
    requires
        valid_route(obstacles, x, y, p, mx, my),
        valid_route(obstacles, mx, my, q, ex, ey),
    ensures
        valid_route(obstacles, x, y, p + q, ex, ey),
    decreases p.len(),
{
    if p.len() > 0 {
        let d = p[0];
        lemma_route_concat(obstacles, x + dir_dx(d), y + dir_dy(d), p.drop_first(), mx, my, q, ex, ey);
        assert((p + q).drop_first() =~= p.drop_first() + q);
    } else {
        assert(p + q =~= q);
    }
}

/// The step back of a step.
pub open spec fn opposite(d: Direction) -> Direction {
    match d {
        Direction::Up => Direction::Down,
        Direction::Down => Direction::Up,
        Direction::Left => Direction::Right,
        Direction::Right => Direction::Left,
        Direction::Nowhere => Direction::Nowhere,
    }
}

/// The route back: the steps of `r` in reverse order, each reversed.
pub open spec fn reversed_route(r: Seq<Direction>) -> Seq<Direction>
    decreases r.len(),
{
    if r.len() == 0 {
        Seq::empty()
    } else {
        reversed_route(r.drop_first()).push(opposite(r[0]))
    }
}

/// A valid route from a passable grid cell, walked back, is a valid route
/// of the same length.
pub proof fn lemma_route_reverse(
    obstacles: Seq<u8>,
    x: int,
    y: int,
    r: Seq<Direction>,
    ex: int,
    ey: int,
)
    requires
        valid_route(obstacles, x, y, r, ex, ey),
        in_grid(x, y),
        passable(obstacles, x, y),
    ensures
        valid_route(obstacles, ex, ey, reversed_route(r), x, y),
        reversed_route(r).len() == r.len(),
    decreases r.len(),
{
    if r.len() > 0 {
        let d = r[0];
        let nx = x + dir_dx(d);
        let ny = y + dir_dy(d);
        let rest = r.drop_first();
        lemma_route_reverse(obstacles, nx, ny, rest, ex, ey);
        let back = seq![opposite(d)];
        assert(back.drop_first() =~= Seq::<Direction>::empty());
        reveal_with_fuel(valid_route, 2);
        assert(valid_route(obstacles, nx, ny, back, x, y));
        lemma_route_concat(obstacles, ex, ey, reversed_route(rest), nx, ny, back, x, y);
        assert(reversed_route(rest) + back =~= reversed_route(r));
    }
}

/// A valid route stays on the grid.
pub proof fn lemma_valid_route_in_grid(
    obstacles: Seq<u8>,
    x: int,
    y: int,
    dirs: Seq<Direction>,
    ex: int,
    ey: int,
)
    requires
        valid_route(obstacles, x, y, dirs, ex, ey),
    ensures
        route_in_grid(x, y, dirs),
    decreases dirs.len(),
{
    if dirs.len() > 0 {
        let d = dirs[0];
        lemma_valid_route_in_grid(obstacles, x + dir_dx(d), y + dir_dy(d), dirs.drop_first(), ex, ey);
    }
}

} // verus!
