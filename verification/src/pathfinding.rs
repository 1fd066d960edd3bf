use vstd::prelude::*;
use std::collections::VecDeque;
use crate::game_stage::GameStage;
use crate::grid::{
    Direction, dir_dx, dir_dy, in_grid, cell_index, passable, valid_route, reachable,
    lemma_route_concat, lemma_route_reverse, reversed_route,
};
use crate::passability::{
    bit_is_set, bitset_set, bitset_test, lemma_set_bit, lemma_empty_bits,
};

verus! {

/// Whether cell `(x, y)` is marked in a packed cell set.
pub open spec fn cell_marked(bits: Seq<u8>, x: int, y: int) -> bool {
    bit_is_set(bits, cell_index(x, y))
}

/// The two stages agree on everything but the path search scratch space
/// (visited set, direction buffer and queue).
pub open spec fn same_but_search_scratch(a: GameStage, b: GameStage) -> bool {
    &&& a.rnd_gen == b.rnd_gen
    &&& a.obstacles == b.obstacles
    &&& a.current_frame == b.current_frame
    &&& a.world == b.world
    &&& a.tilemap == b.tilemap
}

/// A route from `start` to `end` is wanted and exists: the two cells differ,
/// both are passable and `end` can be reached from `start`.
pub open spec fn route_exists(obstacles: Seq<u8>, start: (u8, u8), end: (u8, u8)) -> bool {
    &&& start != end
    &&& passable(obstacles, end.0 as int, end.1 as int)
    &&& reachable(obstacles, start.0 as int, start.1 as int, end.0 as int, end.1 as int)
}

/// What a path search leaves in the output queue: when a route exists, the
/// old contents followed by a shortest route from `start` to `end`, the one
/// that follows the directions the breadth-first search stores; otherwise
/// the old contents unchanged.
pub open spec fn path_search_result(
    obstacles: Seq<u8>,
    start: (u8, u8),
    end: (u8, u8),
    before: Seq<Direction>,
    after: Seq<Direction>,
) -> bool {
    if route_exists(obstacles, start, end) {
        &&& after.len() > before.len()
        &&& after.subrange(0, before.len() as int) == before
        &&& valid_route(
            obstacles,
            start.0 as int,
            start.1 as int,
            after.skip(before.len() as int),
            end.0 as int,
            end.1 as int,
        )
        &&& forall|r: Seq<Direction>|
            #[trigger] valid_route(obstacles, start.0 as int, start.1 as int, r, end.0 as int, end.1 as int)
            ==> after.len() - before.len() <= r.len()
        &&& follows_dirs(bfs_dirs(obstacles, start, end), start.0 as int, start.1 as int,
            after.skip(before.len() as int))
    } else {
        after == before
    }
}

/// Shortest routes are as long one way as the other: when a route from `a`
/// to `b` exists, one from `b` to `a` exists too, and the routes that path
/// searches both ways append have the same length.
pub proof fn lemma_search_symmetric(
    obstacles: Seq<u8>,
    a: (u8, u8),
    b: (u8, u8),
    before1: Seq<Direction>,
    after1: Seq<Direction>,
    before2: Seq<Direction>,
    after2: Seq<Direction>,
)
    requires
        in_grid(b.0 as int, b.1 as int),
        route_exists(obstacles, a, b),
        path_search_result(obstacles, a, b, before1, after1),
        path_search_result(obstacles, b, a, before2, after2),
    ensures
        route_exists(obstacles, b, a),
        after1.len() - before1.len() == after2.len() - before2.len(),
{
    let (ax, ay, bx, by) = (a.0 as int, a.1 as int, b.0 as int, b.1 as int);
    let r1 = after1.skip(before1.len() as int);
    lemma_route_reverse(obstacles, ax, ay, r1, bx, by);
    assert(valid_route(obstacles, bx, by, reversed_route(r1), ax, ay));
    assert(route_exists(obstacles, b, a));
    let r2 = after2.skip(before2.len() as int);
    lemma_route_reverse(obstacles, bx, by, r2, ax, ay);
    assert(valid_route(obstacles, ax, ay, reversed_route(r2), bx, by));
}

/// A visited set with cell number `i` added.
#[verifier::opaque]
pub open spec fn visit_bits(vis: Seq<u8>, i: int) -> Seq<u8> {
    vis.update(i / 8, vis[i / 8] | (1u8 << ((i % 8) as u8)))
}

/// The search queue after expanding cell `(cx, cy)`: its passable grid
/// neighbours that are not visited join at the front, in the order left,
/// right, above, below.
pub open spec fn expanded_queue(
    obst: Seq<u8>,
    vis: Seq<u8>,
    q: Seq<((u8, u8), Direction)>,
    cx: u8,
    cy: u8,
) -> Seq<((u8, u8), Direction)> {
    let q2 = if cx > 0 && passable(obst, cx - 1, cy as int) && !cell_marked(vis, cx - 1, cy as int) {
        seq![(((cx - 1) as u8, cy), Direction::Right)] + q } else { q };
    let q3 = if cx < 39 && passable(obst, cx + 1, cy as int) && !cell_marked(vis, cx + 1, cy as int) {
        seq![(((cx + 1) as u8, cy), Direction::Left)] + q2 } else { q2 };
    let q4 = if cy > 0 && passable(obst, cx as int, cy - 1) && !cell_marked(vis, cx as int, cy - 1) {
        seq![((cx, (cy - 1) as u8), Direction::Down)] + q3 } else { q3 };
    if cy < 39 && passable(obst, cx as int, cy + 1) && !cell_marked(vis, cx as int, cy + 1) {
        seq![((cx, (cy + 1) as u8), Direction::Up)] + q4 } else { q4 }
}

/// At most `fuel` steps of the breadth-first search for `start`, from the
/// visited set `vis`, the directions `dirs` and the queue `q`: the entry at
/// the back of the queue leaves; when its cell is not visited yet, the cell
/// is marked with the entry's direction and then, unless it is `start`,
/// expanded. Gives the visited set and the directions when the queue runs
/// dry or `start` is reached.
#[verifier::opaque]
pub open spec fn bfs_run(
    obst: Seq<u8>,
    vis: Seq<u8>,
    dirs: Seq<Direction>,
    q: Seq<((u8, u8), Direction)>,
    start: (u8, u8),
    fuel: nat,
) -> (Seq<u8>, Seq<Direction>)
    decreases fuel,
{
    if fuel == 0 || q.len() == 0 {
        (vis, dirs)
    } else {
        let e = q.last();
        let q1 = q.drop_last();
        if cell_marked(vis, e.0.0 as int, e.0.1 as int) {
            bfs_run(obst, vis, dirs, q1, start, (fuel - 1) as nat)
        } else {
            let i = cell_index(e.0.0 as int, e.0.1 as int);
            let vis1 = visit_bits(vis, i);
            let dirs1 = dirs.update(i, e.1);
            if e.0 == start {
                (vis1, dirs1)
            } else {
                bfs_run(obst, vis1, dirs1, expanded_queue(obst, vis1, q1, e.0.0, e.0.1), start, (fuel - 1) as nat)
            }
        }
    }
}

/// The directions the search for a route from `start` to `end` stores: the
/// search runs from `end` with nothing visited and no directions, and 6401
/// steps are enough for it to finish.
pub open spec fn bfs_dirs(obst: Seq<u8>, start: (u8, u8), end: (u8, u8)) -> Seq<Direction> {
    bfs_run(obst, Seq::new(200, |i: int| 0u8), Seq::new(1600, |i: int| Direction::Nowhere),
        seq![(end, Direction::Nowhere)], start, 6401).1
}

/// Where the first `k` steps of `r` from `(x, y)` lead.
pub open spec fn route_pos(x: int, y: int, r: Seq<Direction>, k: int) -> (int, int)
    decreases k,
{
    if k <= 0 {
        (x, y)
    } else {
        let p = route_pos(x, y, r, k - 1);
        (p.0 + dir_dx(r[k - 1]), p.1 + dir_dy(r[k - 1]))
    }
}

/// Every step of `r` from `(x, y)` is the direction stored in `dirs` for
/// the cell it leaves.
#[verifier::opaque]
pub open spec fn follows_dirs(dirs: Seq<Direction>, x: int, y: int, r: Seq<Direction>) -> bool {
    forall|k: int| 0 <= k < r.len() ==> #[trigger] r[k] == dirs[cell_index(route_pos(x, y, r, k).0,
        route_pos(x, y, r, k).1)]
}

/// One step of `bfs_run`.
proof fn lemma_bfs_unfold(
    obst: Seq<u8>,
    vis: Seq<u8>,
    dirs: Seq<Direction>,
    q: Seq<((u8, u8), Direction)>,
    start: (u8, u8),
    fuel: nat,
)
    ensures
        q.len() == 0 ==> bfs_run(obst, vis, dirs, q, start, fuel) == (vis, dirs),
        fuel > 0 && q.len() > 0 ==> bfs_run(obst, vis, dirs, q, start, fuel) == ({
            let e = q.last();
            let q1 = q.drop_last();
            if cell_marked(vis, e.0.0 as int, e.0.1 as int) {
                bfs_run(obst, vis, dirs, q1, start, (fuel - 1) as nat)
            } else {
                let i = cell_index(e.0.0 as int, e.0.1 as int);
                let vis1 = visit_bits(vis, i);
                let dirs1 = dirs.update(i, e.1);
                if e.0 == start {
                    (vis1, dirs1)
                } else {
                    bfs_run(obst, vis1, dirs1, expanded_queue(obst, vis1, q1, e.0.0, e.0.1), start,
                        (fuel - 1) as nat)
                }
            }
        }),
{
    reveal(bfs_run);
}

proof fn lemma_route_pos_shift(x: int, y: int, r: Seq<Direction>, k: int)
    requires
        0 <= k < r.len(),
    ensures
        route_pos(x, y, r, k + 1) == route_pos(x + dir_dx(r[0]), y + dir_dy(r[0]), r.drop_first(), k),
    decreases k,
{
    reveal_with_fuel(route_pos, 2);
    if k > 0 {
        lemma_route_pos_shift(x, y, r, k - 1);
        assert(r.drop_first()[k - 1] == r[k]);
    }
}

/// A valid route leads where it says and takes no empty step.
proof fn lemma_valid_route_pos(obstacles: Seq<u8>, x: int, y: int, r: Seq<Direction>, ex: int, ey: int)
    requires
        valid_route(obstacles, x, y, r, ex, ey),
    ensures
        route_pos(x, y, r, r.len() as int) == (ex, ey),
        forall|k: int| 0 <= k < r.len() ==> #[trigger] r[k] != Direction::Nowhere,
    decreases r.len(),
{
    if r.len() > 0 {
        let rest = r.drop_first();
        lemma_valid_route_pos(obstacles, x + dir_dx(r[0]), y + dir_dy(r[0]), rest, ex, ey);
        lemma_route_pos_shift(x, y, r, r.len() - 1);
        assert forall|k: int| 0 <= k < r.len() implies #[trigger] r[k] != Direction::Nowhere by {
            if k > 0 {
                assert(r[k] == rest[k - 1]);
            }
        }
    }
}

/// Two routes from the same cell that follow the same directions agree on
/// their first `k` steps.
proof fn lemma_follow_prefix(dirs: Seq<Direction>, x: int, y: int, r1: Seq<Direction>, r2: Seq<Direction>, k: int)
    requires
        follows_dirs(dirs, x, y, r1),
        follows_dirs(dirs, x, y, r2),
        0 <= k <= r1.len(),
        k <= r2.len(),
    ensures
        r1.take(k) == r2.take(k),
        route_pos(x, y, r1, k) == route_pos(x, y, r2, k),
    decreases k,
{
    reveal(follows_dirs);
    if k > 0 {
        lemma_follow_prefix(dirs, x, y, r1, r2, k - 1);
        let p = route_pos(x, y, r1, k - 1);
        assert(r1[k - 1] == dirs[cell_index(p.0, p.1)]);
        assert(r2[k - 1] == dirs[cell_index(route_pos(x, y, r2, k - 1).0, route_pos(x, y, r2, k - 1).1)]);
        assert(r1.take(k) =~= r1.take(k - 1).push(r1[k - 1]));
        assert(r2.take(k) =~= r2.take(k - 1).push(r2[k - 1]));
    }
}

/// The route a search appends depends only on the obstacles and the two
/// cells: two searches from `start` to `end` over the same obstacles append
/// the same steps.
pub proof fn lemma_search_deterministic(
    obstacles: Seq<u8>,
    start: (u8, u8),
    end: (u8, u8),
    before1: Seq<Direction>,
    after1: Seq<Direction>,
    before2: Seq<Direction>,
    after2: Seq<Direction>,
)
    requires
        path_search_result(obstacles, start, end, before1, after1),
        path_search_result(obstacles, start, end, before2, after2),
        route_exists(obstacles, start, end) ==> bfs_dirs(obstacles, start, end)[
            cell_index(end.0 as int, end.1 as int)] == Direction::Nowhere,
    ensures
        after1.skip(before1.len() as int) == after2.skip(before2.len() as int),
{
    let r1 = after1.skip(before1.len() as int);
    let r2 = after2.skip(before2.len() as int);
    if route_exists(obstacles, start, end) {
        let d = bfs_dirs(obstacles, start, end);
        let (x, y, ex, ey) = (start.0 as int, start.1 as int, end.0 as int, end.1 as int);
        lemma_valid_route_pos(obstacles, x, y, r1, ex, ey);
        lemma_valid_route_pos(obstacles, x, y, r2, ex, ey);
        if r1.len() < r2.len() {
            lemma_follow_prefix(d, x, y, r1, r2, r1.len() as int);
            assert(r2[r1.len() as int] == d[cell_index(ex, ey)]);
        } else if r2.len() < r1.len() {
            lemma_follow_prefix(d, x, y, r1, r2, r2.len() as int);
            assert(r1[r2.len() as int] == d[cell_index(ex, ey)]);
        } else {
            lemma_follow_prefix(d, x, y, r1, r2, r1.len() as int);
            assert(r1 =~= r1.take(r1.len() as int));
            assert(r2 =~= r2.take(r2.len() as int));
        }
    } else {
        assert(r1 =~= Seq::<Direction>::empty());
        assert(r2 =~= Seq::<Direction>::empty());
    }
}

proof fn lemma_route_pos_prefix(x: int, y: int, r1: Seq<Direction>, r2: Seq<Direction>, k: int)
    requires
        0 <= k <= r1.len() <= r2.len(),
        forall|j: int| 0 <= j < r1.len() ==> r1[j] == r2[j],
    ensures
        route_pos(x, y, r1, k) == route_pos(x, y, r2, k),
    decreases k,
{
    if k > 0 {
        lemma_route_pos_prefix(x, y, r1, r2, k - 1);
    }
}

/// The breadth-first level of a queue entry: 0 for the target, otherwise one
/// more than the depth of the cell it points to.
pub open spec fn entry_level(depth: Seq<int>, e: ((u8, u8), Direction)) -> int {
    if e.1 == Direction::Nowhere {
        0
    } else {
        depth[cell_index(e.0.0 + dir_dx(e.1), e.0.1 + dir_dy(e.1))] + 1
    }
}

/// Some entry of the search queue is for cell `(x, y)`, at level at most `lv`.
pub open spec fn queued(q: Seq<((u8, u8), Direction)>, depth: Seq<int>, x: int, y: int, lv: int) -> bool {
    exists|k: int| 0 <= k < q.len() && (#[trigger] q[k]).0.0 == x && q[k].0.1 == y
        && entry_level(depth, q[k]) <= lv
}

/// A passable grid cell `(a, b)` is visited at depth at most `lv`, or waits
/// in the queue at level at most `lv`.
pub open spec fn nbr_covered(
    obstacles: Seq<u8>,
    vis: Seq<u8>,
    q: Seq<((u8, u8), Direction)>,
    depth: Seq<int>,
    a: int,
    b: int,
    lv: int,
) -> bool {
    in_grid(a, b) && passable(obstacles, a, b) ==>
        (cell_marked(vis, a, b) && depth[cell_index(a, b)] <= lv) || queued(q, depth, a, b, lv)
}

/// All four neighbours of `(x, y)` are covered one level below it.
pub open spec fn expanded(
    obstacles: Seq<u8>,
    vis: Seq<u8>,
    q: Seq<((u8, u8), Direction)>,
    depth: Seq<int>,
    x: int,
    y: int,
) -> bool {
    let lv = depth[cell_index(x, y)] + 1;
    &&& nbr_covered(obstacles, vis, q, depth, x - 1, y, lv)
    &&& nbr_covered(obstacles, vis, q, depth, x + 1, y, lv)
    &&& nbr_covered(obstacles, vis, q, depth, x, y - 1, lv)
    &&& nbr_covered(obstacles, vis, q, depth, x, y + 1, lv)
}

/// Every visited cell but `(sx, sy)` has been expanded.
#[verifier::opaque]
pub open spec fn search_closed(
    obstacles: Seq<u8>,
    vis: Seq<u8>,
    q: Seq<((u8, u8), Direction)>,
    depth: Seq<int>,
    sx: int,
    sy: int,
) -> bool {
    forall|x: int, y: int|
        #![trigger cell_marked(vis, x, y)]
        in_grid(x, y) && cell_marked(vis, x, y) && !(x == sx && y == sy) ==> expanded(obstacles, vis, q, depth, x, y)
}

/// Queue levels grow from the back (next to leave) to the front, by at
/// most one over the whole queue.
#[verifier::opaque]
pub open spec fn levels_ok(q: Seq<((u8, u8), Direction)>, depth: Seq<int>) -> bool {
    &&& forall|a: int, b: int| 0 <= a <= b < q.len() ==>
        entry_level(depth, #[trigger] q[b]) <= entry_level(depth, #[trigger] q[a])
    &&& q.len() > 0 ==> entry_level(depth, q[0]) <= entry_level(depth, q[q.len() - 1]) + 1
}

/// Every visited cell has depth at most `lv`.
pub open spec fn depths_at_most(vis: Seq<u8>, depth: Seq<int>, lv: int) -> bool {
    forall|x: int, y: int|
        #![trigger cell_marked(vis, x, y)]
        in_grid(x, y) && cell_marked(vis, x, y) ==> depth[cell_index(x, y)] <= lv
}

/// The search has stopped: every visited cell but `(sx, sy)` is expanded,
/// the target is visited at depth 0, and either the queue is empty or
/// `(sx, sy)` is visited with no queue entry below its depth.
pub open spec fn search_done(
    obstacles: Seq<u8>,
    vis: Seq<u8>,
    q: Seq<((u8, u8), Direction)>,
    depth: Seq<int>,
    sx: int,
    sy: int,
    ex: int,
    ey: int,
) -> bool {
    &&& search_closed(obstacles, vis, q, depth, sx, sy)
    &&& cell_marked(vis, ex, ey)
    &&& depth[cell_index(ex, ey)] == 0
    &&& forall|k: int| 0 <= k < q.len() ==> entry_level(depth, #[trigger] q[k]) >= depth[cell_index(sx, sy)]
    &&& q.len() > 0 ==> cell_marked(vis, sx, sy)
}

/// The visited cells form a tree of directions towards `(ex, ey)`: each
/// visited cell is passable; the target has no direction and depth 0; every
/// other visited cell points to a visited grid neighbour one level shallower.
/// Unvisited cells hold no direction.
#[verifier::opaque]
pub open spec fn search_tree(
    obstacles: Seq<u8>,
    vis: Seq<u8>,
    dirs: Seq<Direction>,
    depth: Seq<int>,
    ex: int,
    ey: int,
) -> bool {
    &&& forall|x: int, y: int|
        #![trigger cell_marked(vis, x, y)]
        in_grid(x, y) && cell_marked(vis, x, y) ==> {
            let i = cell_index(x, y);
            let d = dirs[i];
            let px = x + dir_dx(d);
            let py = y + dir_dy(d);
            &&& passable(obstacles, x, y)
            &&& (d == Direction::Nowhere ==> x == ex && y == ey && depth[i] == 0)
            &&& (d != Direction::Nowhere ==> in_grid(px, py) && cell_marked(vis, px, py)
                && depth[cell_index(px, py)] + 1 == depth[i])
        }
    &&& forall|x: int, y: int|
        #![trigger cell_index(x, y)]
        in_grid(x, y) && !cell_marked(vis, x, y) ==> dirs[cell_index(x, y)] == Direction::Nowhere
    &&& forall|i: int| 0 <= i < 1600 ==> #[trigger] depth[i] >= 0
}

/// Every queue entry is a passable grid cell; the entry without direction is
/// for the target, every other one points to a visited grid neighbour.
#[verifier::opaque]
pub open spec fn queue_ok(
    obstacles: Seq<u8>,
    vis: Seq<u8>,
    q: Seq<((u8, u8), Direction)>,
    ex: int,
    ey: int,
) -> bool {
    forall|k: int|
        0 <= k < q.len() ==> {
            let e = #[trigger] q[k];
            let x = e.0.0 as int;
            let y = e.0.1 as int;
            let px = x + dir_dx(e.1);
            let py = y + dir_dy(e.1);
            &&& in_grid(x, y)
            &&& passable(obstacles, x, y)
            &&& (e.1 == Direction::Nowhere ==> x == ex && y == ey)
            &&& (e.1 != Direction::Nowhere ==> in_grid(px, py) && cell_marked(vis, px, py))
        }
}

proof fn lemma_queued_push(q: Seq<((u8, u8), Direction)>, depth: Seq<int>, e: ((u8, u8), Direction))
    ensures
        forall|x: int, y: int, lv: int| #[trigger] queued(q, depth, x, y, lv) ==> queued(seq![e] + q, depth, x, y, lv),
        queued(seq![e] + q, depth, e.0.0 as int, e.0.1 as int, entry_level(depth, e)),
{
    let q2 = seq![e] + q;
    assert forall|x: int, y: int, lv: int| #[trigger] queued(q, depth, x, y, lv) implies queued(q2, depth, x, y, lv) by {
        let k = choose|k: int| 0 <= k < q.len() && (#[trigger] q[k]).0.0 == x && q[k].0.1 == y
            && entry_level(depth, q[k]) <= lv;
        assert(q2[k + 1] == q[k]);
    }
    assert(q2[0] == e);
}

proof fn lemma_queued_pop(q: Seq<((u8, u8), Direction)>, depth: Seq<int>)
    requires
        q.len() > 0,
    ensures
        forall|x: int, y: int, lv: int| #[trigger] queued(q, depth, x, y, lv) ==>
            queued(q.subrange(0, q.len() - 1), depth, x, y, lv)
            || (x == q[q.len() - 1].0.0 && y == q[q.len() - 1].0.1 && entry_level(depth, q[q.len() - 1]) <= lv),
{
    let q2 = q.subrange(0, q.len() - 1);
    assert forall|x: int, y: int, lv: int| #[trigger] queued(q, depth, x, y, lv) implies
        queued(q2, depth, x, y, lv)
        || (x == q[q.len() - 1].0.0 && y == q[q.len() - 1].0.1 && entry_level(depth, q[q.len() - 1]) <= lv) by {
        let k = choose|k: int| 0 <= k < q.len() && (#[trigger] q[k]).0.0 == x && q[k].0.1 == y
            && entry_level(depth, q[k]) <= lv;
        if k < q.len() - 1 {
            assert(q2[k] == q[k]);
        }
    }
}

proof fn lemma_queued_depth(q: Seq<((u8, u8), Direction)>, d1: Seq<int>, d2: Seq<int>)
    requires
        forall|k: int| 0 <= k < q.len() ==> entry_level(d1, #[trigger] q[k]) == entry_level(d2, q[k]),
    ensures
        forall|x: int, y: int, lv: int| #[trigger] queued(q, d1, x, y, lv) ==> queued(q, d2, x, y, lv),
{
    assert forall|x: int, y: int, lv: int| #[trigger] queued(q, d1, x, y, lv) implies queued(q, d2, x, y, lv) by {
        let k = choose|k: int| 0 <= k < q.len() && (#[trigger] q[k]).0.0 == x && q[k].0.1 == y
            && entry_level(d1, q[k]) <= lv;
        assert(entry_level(d2, q[k]) <= lv);
    }
}

/// Growing the visited set (keeping depths) or the queue keeps covered cells covered.
proof fn lemma_covered_mono(
    obstacles: Seq<u8>,
    vis1: Seq<u8>,
    q1: Seq<((u8, u8), Direction)>,
    d1: Seq<int>,
    vis2: Seq<u8>,
    q2: Seq<((u8, u8), Direction)>,
    d2: Seq<int>,
)
    requires
        forall|x: int, y: int| in_grid(x, y) && #[trigger] cell_marked(vis1, x, y) ==>
            cell_marked(vis2, x, y) && d2[cell_index(x, y)] == d1[cell_index(x, y)],
        forall|x: int, y: int, lv: int| #[trigger] queued(q1, d1, x, y, lv) ==>
            queued(q2, d2, x, y, lv) || (cell_marked(vis2, x, y) && d2[cell_index(x, y)] <= lv),
    ensures
        forall|x: int, y: int, lv: int| #[trigger] nbr_covered(obstacles, vis1, q1, d1, x, y, lv) ==>
            nbr_covered(obstacles, vis2, q2, d2, x, y, lv),
{
    assert forall|x: int, y: int, lv: int| #[trigger] nbr_covered(obstacles, vis1, q1, d1, x, y, lv) implies
        nbr_covered(obstacles, vis2, q2, d2, x, y, lv) by {
        if in_grid(x, y) && passable(obstacles, x, y) {
            if cell_marked(vis1, x, y) && d1[cell_index(x, y)] <= lv {
            } else {
                assert(queued(q1, d1, x, y, lv));
            }
        }
    }
}

/// When every visited cell but `(sx, sy)` is expanded, the target is
/// visited at depth 0, and the queue is empty or `(sx, sy)` is visited with
/// no queue entry below its depth, then a cell with a route of length `m`
/// to the target is visited at depth at most `m`, or `(sx, sy)` is visited
/// at depth at most `m`.
proof fn lemma_bfs_bound(
    obstacles: Seq<u8>,
    vis: Seq<u8>,
    q: Seq<((u8, u8), Direction)>,
    depth: Seq<int>,
    sx: int,
    sy: int,
    ex: int,
    ey: int,
    x: int,
    y: int,
    route: Seq<Direction>,
)
    requires
        search_closed(obstacles, vis, q, depth, sx, sy),
        in_grid(ex, ey),
        cell_marked(vis, ex, ey),
        depth[cell_index(ex, ey)] == 0,
        forall|k: int| 0 <= k < q.len() ==> entry_level(depth, #[trigger] q[k]) >= depth[cell_index(sx, sy)],
        q.len() > 0 ==> cell_marked(vis, sx, sy),
        in_grid(sx, sy),
        in_grid(x, y),
        passable(obstacles, x, y),
        valid_route(obstacles, x, y, route, ex, ey),
    ensures
        (cell_marked(vis, x, y) && depth[cell_index(x, y)] <= route.len())
            || (cell_marked(vis, sx, sy) && depth[cell_index(sx, sy)] <= route.len()),
    decreases route.len(),
{
    if route.len() > 0 {
        let d = route[0];
        let nx = x + dir_dx(d);
        let ny = y + dir_dy(d);
        lemma_bfs_bound(obstacles, vis, q, depth, sx, sy, ex, ey, nx, ny, route.drop_first());
        if cell_marked(vis, nx, ny) && depth[cell_index(nx, ny)] <= route.len() - 1 && !(nx == sx && ny == sy) {
            reveal(search_closed);
            assert(expanded(obstacles, vis, q, depth, nx, ny));
            let lv = depth[cell_index(nx, ny)] + 1;
            assert(nbr_covered(obstacles, vis, q, depth, x, y, lv));
            if !(cell_marked(vis, x, y) && depth[cell_index(x, y)] <= lv) {
                let k = choose|k: int| 0 <= k < q.len() && (#[trigger] q[k]).0.0 == x && q[k].0.1 == y
                    && entry_level(depth, q[k]) <= lv;
                assert(entry_level(depth, q[k]) >= depth[cell_index(sx, sy)]);
            }
        }
    }
}

proof fn lemma_tree_at(
    obstacles: Seq<u8>,
    vis: Seq<u8>,
    dirs: Seq<Direction>,
    depth: Seq<int>,
    ex: int,
    ey: int,
    x: int,
    y: int,
)
    requires
        search_tree(obstacles, vis, dirs, depth, ex, ey),
        in_grid(x, y),
        cell_marked(vis, x, y),
    ensures
        ({
            let i = cell_index(x, y);
            let d = dirs[i];
            let px = x + dir_dx(d);
            let py = y + dir_dy(d);
            &&& passable(obstacles, x, y)
            &&& (d == Direction::Nowhere ==> x == ex && y == ey && depth[i] == 0)
            &&& (d != Direction::Nowhere ==> in_grid(px, py) && cell_marked(vis, px, py)
                && depth[cell_index(px, py)] + 1 == depth[i])
            &&& depth[i] >= 0
        }),
{
    reveal(search_tree);
}

proof fn lemma_tree_unmarked(
    obstacles: Seq<u8>,
    vis: Seq<u8>,
    dirs: Seq<Direction>,
    depth: Seq<int>,
    ex: int,
    ey: int,
    x: int,
    y: int,
)
    requires
        search_tree(obstacles, vis, dirs, depth, ex, ey),
        in_grid(x, y),
        !cell_marked(vis, x, y),
    ensures
        dirs[cell_index(x, y)] == Direction::Nowhere,
{
    reveal(search_tree);
}

proof fn lemma_queue_at(
    obstacles: Seq<u8>,
    vis: Seq<u8>,
    q: Seq<((u8, u8), Direction)>,
    ex: int,
    ey: int,
    k: int,
)
    requires
        queue_ok(obstacles, vis, q, ex, ey),
        0 <= k < q.len(),
    ensures
        ({
            let e = q[k];
            let x = e.0.0 as int;
            let y = e.0.1 as int;
            let px = x + dir_dx(e.1);
            let py = y + dir_dy(e.1);
            &&& in_grid(x, y)
            &&& passable(obstacles, x, y)
            &&& (e.1 == Direction::Nowhere ==> x == ex && y == ey)
            &&& (e.1 != Direction::Nowhere ==> in_grid(px, py) && cell_marked(vis, px, py))
        }),
{
    reveal(queue_ok);
}

/// Pushing a passable grid cell that points to a visited neighbour keeps the
/// queue well formed.
proof fn lemma_queue_push(
    obstacles: Seq<u8>,
    vis: Seq<u8>,
    q: Seq<((u8, u8), Direction)>,
    ex: int,
    ey: int,
    e: ((u8, u8), Direction),
)
    requires
        queue_ok(obstacles, vis, q, ex, ey),
        in_grid(e.0.0 as int, e.0.1 as int),
        passable(obstacles, e.0.0 as int, e.0.1 as int),
        e.1 != Direction::Nowhere,
        in_grid(e.0.0 + dir_dx(e.1), e.0.1 + dir_dy(e.1)),
        cell_marked(vis, e.0.0 + dir_dx(e.1), e.0.1 + dir_dy(e.1)),
    ensures
        queue_ok(obstacles, vis, seq![e] + q, ex, ey),
{
    reveal(queue_ok);
    let q2 = seq![e] + q;
    assert forall|k: int| 0 <= k < q2.len() implies #[trigger] q2[k] == (if k == 0 { e } else { q[k - 1] }) by {}
}

/// Visiting the cell of the last queue entry (with its direction and at its
/// level) keeps the search tree well formed and the rest of the queue well
/// formed; the levels of the other entries and the depths of the visited
/// cells do not change.
proof fn lemma_visit(
    obstacles: Seq<u8>,
    vis0: Seq<u8>,
    vis1: Seq<u8>,
    dirs0: Seq<Direction>,
    dirs1: Seq<Direction>,
    depth0: Seq<int>,
    q0: Seq<((u8, u8), Direction)>,
    ex: int,
    ey: int,
) -> (depth1: Seq<int>)
    requires
        vis0.len() == 200,
        depth0.len() == 1600,
        dirs0.len() == 1600,
        search_tree(obstacles, vis0, dirs0, depth0, ex, ey),
        queue_ok(obstacles, vis0, q0, ex, ey),
        q0.len() > 0,
        !cell_marked(vis0, q0[q0.len() - 1].0.0 as int, q0[q0.len() - 1].0.1 as int),
        forall|j: int| #[trigger] bit_is_set(vis1, j) == (j == cell_index(
            q0[q0.len() - 1].0.0 as int, q0[q0.len() - 1].0.1 as int) || bit_is_set(vis0, j)),
        dirs1 == dirs0.update(
            cell_index(q0[q0.len() - 1].0.0 as int, q0[q0.len() - 1].0.1 as int),
            q0[q0.len() - 1].1,
        ),
    ensures
        depth1.len() == 1600,
        search_tree(obstacles, vis1, dirs1, depth1, ex, ey),
        queue_ok(obstacles, vis1, q0.subrange(0, q0.len() - 1), ex, ey),
        depth1[cell_index(q0[q0.len() - 1].0.0 as int, q0[q0.len() - 1].0.1 as int)]
            == entry_level(depth0, q0[q0.len() - 1]),
        forall|k: int| 0 <= k < q0.len() ==> entry_level(depth1, #[trigger] q0[k]) == entry_level(depth0, q0[k]),
        forall|x: int, y: int| in_grid(x, y) && #[trigger] cell_marked(vis0, x, y) ==>
            depth1[cell_index(x, y)] == depth0[cell_index(x, y)],
{
    let e = q0[q0.len() - 1];
    let nx = e.0.0 as int;
    let ny = e.0.1 as int;
    let dir = e.1;
    let ci = cell_index(nx, ny);
    lemma_queue_at(obstacles, vis0, q0, ex, ey, q0.len() - 1);
    let new_depth = entry_level(depth0, e);
    if dir != Direction::Nowhere {
        lemma_tree_at(obstacles, vis0, dirs0, depth0, ex, ey, nx + dir_dx(dir), ny + dir_dy(dir));
    }
    let depth1 = depth0.update(ci, new_depth);
    reveal(search_tree);
    reveal(queue_ok);
    assert forall|x: int, y: int|
        #![trigger cell_marked(vis1, x, y)]
        in_grid(x, y) && cell_marked(vis1, x, y) implies {
            let i = cell_index(x, y);
            let d = dirs1[i];
            let px = x + dir_dx(d);
            let py = y + dir_dy(d);
            &&& passable(obstacles, x, y)
            &&& (d == Direction::Nowhere ==> x == ex && y == ey && depth1[i] == 0)
            &&& (d != Direction::Nowhere ==> in_grid(px, py) && cell_marked(vis1, px, py)
                && depth1[cell_index(px, py)] + 1 == depth1[i])
        } by {
        if x == nx && y == ny {
        } else {
            assert(cell_index(x, y) != ci);
            assert(cell_marked(vis0, x, y));
            let d = dirs0[cell_index(x, y)];
            if d != Direction::Nowhere {
                let px = x + dir_dx(d);
                let py = y + dir_dy(d);
                assert(cell_marked(vis0, px, py));
                assert(cell_index(px, py) != ci);
            }
        }
    }
    assert forall|x: int, y: int|
        #![trigger cell_index(x, y)]
        in_grid(x, y) && !cell_marked(vis1, x, y) implies dirs1[cell_index(x, y)] == Direction::Nowhere by {
        assert(cell_index(x, y) != ci);
    }
    assert forall|k: int| 0 <= k < q0.len() implies entry_level(depth1, #[trigger] q0[k]) == entry_level(depth0, q0[k]) by {
        let f = q0[k];
        if f.1 != Direction::Nowhere {
            let px = f.0.0 + dir_dx(f.1);
            let py = f.0.1 + dir_dy(f.1);
            assert(cell_marked(vis0, px, py));
            assert(cell_index(px, py) != ci);
        }
    }
    assert forall|x: int, y: int| in_grid(x, y) && #[trigger] cell_marked(vis0, x, y) implies
        depth1[cell_index(x, y)] == depth0[cell_index(x, y)] by {
        assert(cell_index(x, y) != ci);
    }
    let q1 = q0.subrange(0, q0.len() - 1);
    assert forall|k: int| 0 <= k < q1.len() implies #[trigger] q1[k] == q0[k] by {}
    depth1
}

/// Popping an entry for an already visited cell keeps the search closed and
/// the levels in order.
proof fn lemma_pop_visited(
    obstacles: Seq<u8>,
    vis: Seq<u8>,
    q0: Seq<((u8, u8), Direction)>,
    depth: Seq<int>,
    sx: int,
    sy: int,
)
    requires
        search_closed(obstacles, vis, q0, depth, sx, sy),
        levels_ok(q0, depth),
        q0.len() > 0,
        in_grid(q0[q0.len() - 1].0.0 as int, q0[q0.len() - 1].0.1 as int),
        cell_marked(vis, q0[q0.len() - 1].0.0 as int, q0[q0.len() - 1].0.1 as int),
        depths_at_most(vis, depth, entry_level(depth, q0[q0.len() - 1])),
    ensures
        search_closed(obstacles, vis, q0.subrange(0, q0.len() - 1), depth, sx, sy),
        levels_ok(q0.subrange(0, q0.len() - 1), depth),
        q0.len() > 1 ==> entry_level(depth, q0[q0.len() - 1]) <= entry_level(depth, q0[q0.len() - 2]),
{
    let q1 = q0.subrange(0, q0.len() - 1);
    lemma_queued_pop(q0, depth);
    lemma_covered_mono(obstacles, vis, q0, depth, vis, q1, depth);
    reveal(search_closed);
    reveal(levels_ok);
    assert forall|x: int, y: int|
        #![trigger cell_marked(vis, x, y)]
        in_grid(x, y) && cell_marked(vis, x, y) && !(x == sx && y == sy) implies
        expanded(obstacles, vis, q1, depth, x, y) by {
        let lv = depth[cell_index(x, y)] + 1;
        assert(nbr_covered(obstacles, vis, q0, depth, x - 1, y, lv));
        assert(nbr_covered(obstacles, vis, q0, depth, x + 1, y, lv));
        assert(nbr_covered(obstacles, vis, q0, depth, x, y - 1, lv));
        assert(nbr_covered(obstacles, vis, q0, depth, x, y + 1, lv));
    }
    assert forall|a: int, b: int| 0 <= a <= b < q1.len() implies
        entry_level(depth, #[trigger] q1[b]) <= entry_level(depth, #[trigger] q1[a]) by {
        assert(q1[a] == q0[a] && q1[b] == q0[b]);
    }
    if q1.len() > 0 {
        assert(q1[0] == q0[0] && q1[q1.len() - 1] == q0[q0.len() - 2]);
        assert(entry_level(depth, q0[q0.len() - 1]) <= entry_level(depth, q0[q0.len() - 2]));
    }
}

/// Visiting the cell of the last entry keeps every other visited cell but
/// `(sx, sy)` expanded; all remaining entries have at least its level.
proof fn lemma_visit_closed(
    obstacles: Seq<u8>,
    vis0: Seq<u8>,
    vis1: Seq<u8>,
    q0: Seq<((u8, u8), Direction)>,
    depth0: Seq<int>,
    depth1: Seq<int>,
    sx: int,
    sy: int,
)
    requires
        search_closed(obstacles, vis0, q0, depth0, sx, sy),
        levels_ok(q0, depth0),
        q0.len() > 0,
        in_grid(q0[q0.len() - 1].0.0 as int, q0[q0.len() - 1].0.1 as int),
        !cell_marked(vis0, q0[q0.len() - 1].0.0 as int, q0[q0.len() - 1].0.1 as int),
        forall|j: int| #[trigger] bit_is_set(vis1, j) == (j == cell_index(
            q0[q0.len() - 1].0.0 as int, q0[q0.len() - 1].0.1 as int) || bit_is_set(vis0, j)),
        depth1[cell_index(q0[q0.len() - 1].0.0 as int, q0[q0.len() - 1].0.1 as int)]
            == entry_level(depth0, q0[q0.len() - 1]),
        forall|k: int| 0 <= k < q0.len() ==> entry_level(depth1, #[trigger] q0[k]) == entry_level(depth0, q0[k]),
        forall|x: int, y: int| in_grid(x, y) && #[trigger] cell_marked(vis0, x, y) ==>
            depth1[cell_index(x, y)] == depth0[cell_index(x, y)],
    ensures
        forall|x: int, y: int|
            #![trigger cell_marked(vis1, x, y)]
            in_grid(x, y) && cell_marked(vis1, x, y) && !(x == sx && y == sy)
            && !(x == q0[q0.len() - 1].0.0 && y == q0[q0.len() - 1].0.1)
            ==> expanded(obstacles, vis1, q0.subrange(0, q0.len() - 1), depth1, x, y),
        levels_ok(q0.subrange(0, q0.len() - 1), depth1),
        forall|k: int| 0 <= k < q0.len() - 1 ==> entry_level(depth1, #[trigger] q0[k]) >= entry_level(depth0, q0[q0.len() - 1]),
        forall|k: int| 0 <= k < q0.len() - 1 ==> entry_level(depth1, #[trigger] q0[k]) <= entry_level(depth0, q0[q0.len() - 1]) + 1,
{
    let e = q0[q0.len() - 1];
    let q1 = q0.subrange(0, q0.len() - 1);
    lemma_queued_pop(q0, depth0);
    lemma_queued_depth(q1, depth0, depth1);
    assert forall|k: int| 0 <= k < q1.len() implies entry_level(depth0, #[trigger] q1[k]) == entry_level(depth1, q1[k]) by {
        assert(q1[k] == q0[k]);
    }
    assert forall|x: int, y: int| in_grid(x, y) && #[trigger] cell_marked(vis0, x, y) implies
        cell_marked(vis1, x, y) && depth1[cell_index(x, y)] == depth0[cell_index(x, y)] by {}
    assert forall|x: int, y: int, lv: int| #[trigger] queued(q0, depth0, x, y, lv) implies
        queued(q1, depth1, x, y, lv) || (cell_marked(vis1, x, y) && depth1[cell_index(x, y)] <= lv) by {
        if !queued(q1, depth0, x, y, lv) {
            assert(x == e.0.0 && y == e.0.1);
        }
    }
    lemma_covered_mono(obstacles, vis0, q0, depth0, vis1, q1, depth1);
    reveal(search_closed);
    reveal(levels_ok);
    assert forall|x: int, y: int|
        #![trigger cell_marked(vis1, x, y)]
        in_grid(x, y) && cell_marked(vis1, x, y) && !(x == sx && y == sy) && !(x == e.0.0 && y == e.0.1)
        implies expanded(obstacles, vis1, q1, depth1, x, y) by {
        assert(cell_index(x, y) != cell_index(e.0.0 as int, e.0.1 as int));
        assert(cell_marked(vis0, x, y));
        let lv = depth0[cell_index(x, y)] + 1;
        assert(nbr_covered(obstacles, vis0, q0, depth0, x - 1, y, lv));
        assert(nbr_covered(obstacles, vis0, q0, depth0, x + 1, y, lv));
        assert(nbr_covered(obstacles, vis0, q0, depth0, x, y - 1, lv));
        assert(nbr_covered(obstacles, vis0, q0, depth0, x, y + 1, lv));
    }
    assert forall|a: int, b: int| 0 <= a <= b < q1.len() implies
        entry_level(depth1, #[trigger] q1[b]) <= entry_level(depth1, #[trigger] q1[a]) by {
        assert(q1[a] == q0[a] && q1[b] == q0[b]);
        assert(entry_level(depth0, q0[b]) <= entry_level(depth0, q0[a]));
    }
    assert forall|k: int| 0 <= k < q0.len() - 1 implies entry_level(depth1, #[trigger] q0[k]) >= entry_level(depth0, e) by {
        assert(entry_level(depth0, q0[q0.len() - 1]) <= entry_level(depth0, q0[k]));
    }
    assert forall|k: int| 0 <= k < q0.len() - 1 implies entry_level(depth1, #[trigger] q0[k]) <= entry_level(depth0, e) + 1 by {
        assert(entry_level(depth0, q0[k]) <= entry_level(depth0, q0[0]));
    }
    if q1.len() > 0 {
        assert(q1[0] == q0[0] && q1[q1.len() - 1] == q0[q0.len() - 2]);
    }
}

/// The four conditional pushes of expanding `(cx, cy)`.
pub open spec fn expansion_pushes(
    obst: Seq<u8>,
    vis1: Seq<u8>,
    q1: Seq<((u8, u8), Direction)>,
    q2: Seq<((u8, u8), Direction)>,
    q3: Seq<((u8, u8), Direction)>,
    q4: Seq<((u8, u8), Direction)>,
    qf: Seq<((u8, u8), Direction)>,
    cx: u8,
    cy: u8,
) -> bool {
    &&& q2 == (if cx > 0 && passable(obst, cx - 1, cy as int) && !cell_marked(vis1, cx - 1, cy as int) {
        seq![(((cx - 1) as u8, cy), Direction::Right)] + q1 } else { q1 })
    &&& q3 == (if cx < 39 && passable(obst, cx + 1, cy as int) && !cell_marked(vis1, cx + 1, cy as int) {
        seq![(((cx + 1) as u8, cy), Direction::Left)] + q2 } else { q2 })
    &&& q4 == (if cy > 0 && passable(obst, cx as int, cy - 1) && !cell_marked(vis1, cx as int, cy - 1) {
        seq![((cx, (cy - 1) as u8), Direction::Down)] + q3 } else { q3 })
    &&& qf == (if cy < 39 && passable(obst, cx as int, cy + 1) && !cell_marked(vis1, cx as int, cy + 1) {
        seq![((cx, (cy + 1) as u8), Direction::Up)] + q4 } else { q4 })
}

proof fn lemma_expand_queue_ok(
    obst: Seq<u8>,
    vis1: Seq<u8>,
    q1: Seq<((u8, u8), Direction)>,
    q2: Seq<((u8, u8), Direction)>,
    q3: Seq<((u8, u8), Direction)>,
    q4: Seq<((u8, u8), Direction)>,
    qf: Seq<((u8, u8), Direction)>,
    cx: u8,
    cy: u8,
    ex: int,
    ey: int,
)
    requires
        in_grid(cx as int, cy as int),
        cell_marked(vis1, cx as int, cy as int),
        queue_ok(obst, vis1, q1, ex, ey),
        expansion_pushes(obst, vis1, q1, q2, q3, q4, qf, cx, cy),
    ensures
        queue_ok(obst, vis1, qf, ex, ey),
{
    if cx > 0 && passable(obst, cx - 1, cy as int) && !cell_marked(vis1, cx - 1, cy as int) {
        lemma_queue_push(obst, vis1, q1, ex, ey, (((cx - 1) as u8, cy), Direction::Right));
    }
    if cx < 39 && passable(obst, cx + 1, cy as int) && !cell_marked(vis1, cx + 1, cy as int) {
        lemma_queue_push(obst, vis1, q2, ex, ey, (((cx + 1) as u8, cy), Direction::Left));
    }
    if cy > 0 && passable(obst, cx as int, cy - 1) && !cell_marked(vis1, cx as int, cy - 1) {
        lemma_queue_push(obst, vis1, q3, ex, ey, ((cx, (cy - 1) as u8), Direction::Down));
    }
    if cy < 39 && passable(obst, cx as int, cy + 1) && !cell_marked(vis1, cx as int, cy + 1) {
        lemma_queue_push(obst, vis1, q4, ex, ey, ((cx, (cy + 1) as u8), Direction::Up));
    }
}

proof fn lemma_push_or_same(
    q: Seq<((u8, u8), Direction)>,
    q2: Seq<((u8, u8), Direction)>,
    depth: Seq<int>,
    e: ((u8, u8), Direction),
    pushed: bool,
)
    requires
        q2 == (if pushed { seq![e] + q } else { q }),
    ensures
        forall|x: int, y: int, lv: int| #[trigger] queued(q, depth, x, y, lv) ==> queued(q2, depth, x, y, lv),
        pushed ==> queued(q2, depth, e.0.0 as int, e.0.1 as int, entry_level(depth, e)),
        q2.len() >= q.len(),
        q2.subrange(q2.len() - q.len(), q2.len() as int) == q,
        pushed ==> q2[0] == e,
{
    if pushed {
        lemma_queued_push(q, depth, e);
        assert(q2.subrange(q2.len() - q.len(), q2.len() as int) =~= q);
    } else {
        assert(q2.subrange(0, q2.len() as int) =~= q);
    }
}

/// `qf` is `q1` with entries at level `lv` pushed at its front.
pub open spec fn front_then(
    qf: Seq<((u8, u8), Direction)>,
    q1: Seq<((u8, u8), Direction)>,
    depth: Seq<int>,
    lv: int,
) -> bool {
    &&& qf.len() >= q1.len()
    &&& qf.subrange(qf.len() - q1.len(), qf.len() as int) == q1
    &&& forall|k: int| 0 <= k < qf.len() - q1.len() ==> entry_level(depth, #[trigger] qf[k]) == lv
}

proof fn lemma_front_then_step(
    q: Seq<((u8, u8), Direction)>,
    q1: Seq<((u8, u8), Direction)>,
    q2: Seq<((u8, u8), Direction)>,
    depth: Seq<int>,
    lv: int,
    e: ((u8, u8), Direction),
    pushed: bool,
)
    requires
        front_then(q, q1, depth, lv),
        q2 == (if pushed { seq![e] + q } else { q }),
        pushed ==> entry_level(depth, e) == lv,
    ensures
        front_then(q2, q1, depth, lv),
{
    if pushed {
        let n = q1.len();
        assert(q2.subrange(q2.len() - n, q2.len() as int) =~= q.subrange(q.len() - n, q.len() as int));
        assert forall|k: int| 0 <= k < q2.len() - q1.len() implies entry_level(depth, #[trigger] q2[k]) == lv by {
            if k > 0 {
                assert(q2[k] == q[k - 1]);
            }
        }
    }
}

/// Entries pushed one level above a queue whose levels lie in `[l, l + 1]`
/// keep the levels in order.
proof fn lemma_expand_levels(
    q1: Seq<((u8, u8), Direction)>,
    qf: Seq<((u8, u8), Direction)>,
    depth: Seq<int>,
    l: int,
)
    requires
        front_then(qf, q1, depth, l + 1),
        levels_ok(q1, depth),
        forall|k: int| 0 <= k < q1.len() ==> l <= entry_level(depth, #[trigger] q1[k]) <= l + 1,
    ensures
        levels_ok(qf, depth),
        forall|k: int| 0 <= k < qf.len() ==> l <= entry_level(depth, #[trigger] qf[k]) <= l + 1,
{
    let np = qf.len() - q1.len();
    assert forall|k: int| np <= k < qf.len() implies #[trigger] qf[k] == q1[k - np] by {
        assert(qf.subrange(np, qf.len() as int)[k - np] == qf[k]);
    }
    assert forall|k: int| 0 <= k < qf.len() implies l <= entry_level(depth, #[trigger] qf[k]) <= l + 1 by {
        if k >= np {
            assert(qf[k] == q1[k - np]);
        }
    }
    reveal(levels_ok);
    assert forall|a: int, b: int| 0 <= a <= b < qf.len() implies
        entry_level(depth, #[trigger] qf[b]) <= entry_level(depth, #[trigger] qf[a]) by {
        assert(l <= entry_level(depth, qf[b]) <= l + 1);
        if a >= np {
            assert(qf[a] == q1[a - np] && qf[b] == q1[b - np]);
            assert(entry_level(depth, q1[b - np]) <= entry_level(depth, q1[a - np]));
        }
    }
    if qf.len() > 0 {
        assert(l <= entry_level(depth, qf[qf.len() - 1]));
        assert(entry_level(depth, qf[0]) <= l + 1);
    }
}

/// After the pushes of an expansion of `(cx, cy)`, it and all other visited
/// cells but `(sx, sy)` are expanded.
proof fn lemma_expand_cover(
    obst: Seq<u8>,
    vis1: Seq<u8>,
    q1: Seq<((u8, u8), Direction)>,
    q2: Seq<((u8, u8), Direction)>,
    q3: Seq<((u8, u8), Direction)>,
    q4: Seq<((u8, u8), Direction)>,
    qf: Seq<((u8, u8), Direction)>,
    depth1: Seq<int>,
    cx: u8,
    cy: u8,
    sx: int,
    sy: int,
    l: int,
)
    requires
        in_grid(cx as int, cy as int),
        cell_marked(vis1, cx as int, cy as int),
        depth1[cell_index(cx as int, cy as int)] == l,
        depths_at_most(vis1, depth1, l),
        forall|x: int, y: int|
            #![trigger cell_marked(vis1, x, y)]
            in_grid(x, y) && cell_marked(vis1, x, y) && !(x == sx && y == sy) && !(x == cx && y == cy)
            ==> expanded(obst, vis1, q1, depth1, x, y),
        expansion_pushes(obst, vis1, q1, q2, q3, q4, qf, cx, cy),
    ensures
        search_closed(obst, vis1, qf, depth1, sx, sy),
{
    let x0 = cx as int;
    let y0 = cy as int;
    let c1 = cx > 0 && passable(obst, cx - 1, cy as int) && !cell_marked(vis1, cx - 1, cy as int);
    let c2 = cx < 39 && passable(obst, cx + 1, cy as int) && !cell_marked(vis1, cx + 1, cy as int);
    let c3 = cy > 0 && passable(obst, cx as int, cy - 1) && !cell_marked(vis1, cx as int, cy - 1);
    let c4 = cy < 39 && passable(obst, cx as int, cy + 1) && !cell_marked(vis1, cx as int, cy + 1);
    let e1 = (((cx - 1) as u8, cy), Direction::Right);
    let e2 = (((cx + 1) as u8, cy), Direction::Left);
    let e3 = ((cx, (cy - 1) as u8), Direction::Down);
    let e4 = ((cx, (cy + 1) as u8), Direction::Up);
    lemma_push_or_same(q1, q2, depth1, e1, c1);
    lemma_push_or_same(q2, q3, depth1, e2, c2);
    lemma_push_or_same(q3, q4, depth1, e3, c3);
    lemma_push_or_same(q4, qf, depth1, e4, c4);
    assert(c1 ==> entry_level(depth1, e1) == l + 1);
    assert(c2 ==> entry_level(depth1, e2) == l + 1);
    assert(c3 ==> entry_level(depth1, e3) == l + 1);
    assert(c4 ==> entry_level(depth1, e4) == l + 1);
    if c1 {
        assert(queued(q2, depth1, x0 - 1, y0, l + 1));
        assert(queued(q3, depth1, x0 - 1, y0, l + 1));
        assert(queued(q4, depth1, x0 - 1, y0, l + 1));
    }
    if c2 {
        assert(queued(q3, depth1, x0 + 1, y0, l + 1));
        assert(queued(q4, depth1, x0 + 1, y0, l + 1));
    }
    if c3 {
        assert(queued(q4, depth1, x0, y0 - 1, l + 1));
    }
    assert(nbr_covered(obst, vis1, qf, depth1, x0 - 1, y0, l + 1));
    assert(nbr_covered(obst, vis1, qf, depth1, x0 + 1, y0, l + 1));
    assert(nbr_covered(obst, vis1, qf, depth1, x0, y0 - 1, l + 1));
    assert(nbr_covered(obst, vis1, qf, depth1, x0, y0 + 1, l + 1));
    assert forall|x: int, y: int, lv: int| #[trigger] queued(q1, depth1, x, y, lv) implies
        queued(qf, depth1, x, y, lv) || (cell_marked(vis1, x, y) && depth1[cell_index(x, y)] <= lv) by {
        assert(queued(q2, depth1, x, y, lv));
        assert(queued(q3, depth1, x, y, lv));
        assert(queued(q4, depth1, x, y, lv));
    }
    assert forall|x: int, y: int| in_grid(x, y) && #[trigger] cell_marked(vis1, x, y) implies
        cell_marked(vis1, x, y) && depth1[cell_index(x, y)] == depth1[cell_index(x, y)] by {}
    lemma_covered_mono(obst, vis1, q1, depth1, vis1, qf, depth1);
    reveal(search_closed);
    assert forall|x: int, y: int|
        #![trigger cell_marked(vis1, x, y)]
        in_grid(x, y) && cell_marked(vis1, x, y) && !(x == sx && y == sy) implies
        expanded(obst, vis1, qf, depth1, x, y) by {
        if !(x == x0 && y == y0) {
            let lv = depth1[cell_index(x, y)] + 1;
            assert(nbr_covered(obst, vis1, q1, depth1, x - 1, y, lv));
            assert(nbr_covered(obst, vis1, q1, depth1, x + 1, y, lv));
            assert(nbr_covered(obst, vis1, q1, depth1, x, y - 1, lv));
            assert(nbr_covered(obst, vis1, q1, depth1, x, y + 1, lv));
        }
    }
}

/// After the pushes of an expansion, the expanded cell and all other
/// visited cells but `(sx, sy)` are expanded; the pushed entries sit one
/// level above the expanded cell; visited depths stay bounded by it.
proof fn lemma_expand_closed(
    obst: Seq<u8>,
    vis1: Seq<u8>,
    q1: Seq<((u8, u8), Direction)>,
    q2: Seq<((u8, u8), Direction)>,
    q3: Seq<((u8, u8), Direction)>,
    q4: Seq<((u8, u8), Direction)>,
    qf: Seq<((u8, u8), Direction)>,
    depth1: Seq<int>,
    cx: u8,
    cy: u8,
    sx: int,
    sy: int,
    l: int,
)
    requires
        in_grid(cx as int, cy as int),
        cell_marked(vis1, cx as int, cy as int),
        !(cx == sx && cy == sy),
        depth1[cell_index(cx as int, cy as int)] == l,
        depths_at_most(vis1, depth1, l),
        forall|x: int, y: int|
            #![trigger cell_marked(vis1, x, y)]
            in_grid(x, y) && cell_marked(vis1, x, y) && !(x == sx && y == sy) && !(x == cx && y == cy)
            ==> expanded(obst, vis1, q1, depth1, x, y),
        levels_ok(q1, depth1),
        forall|k: int| 0 <= k < q1.len() ==> entry_level(depth1, #[trigger] q1[k]) >= l,
        forall|k: int| 0 <= k < q1.len() ==> entry_level(depth1, #[trigger] q1[k]) <= l + 1,
        expansion_pushes(obst, vis1, q1, q2, q3, q4, qf, cx, cy),
    ensures
        search_closed(obst, vis1, qf, depth1, sx, sy),
        levels_ok(qf, depth1),
        qf.len() > 0 ==> depths_at_most(vis1, depth1, entry_level(depth1, qf[qf.len() - 1])),
{
    let c1 = cx > 0 && passable(obst, cx - 1, cy as int) && !cell_marked(vis1, cx - 1, cy as int);
    let c2 = cx < 39 && passable(obst, cx + 1, cy as int) && !cell_marked(vis1, cx + 1, cy as int);
    let c3 = cy > 0 && passable(obst, cx as int, cy - 1) && !cell_marked(vis1, cx as int, cy - 1);
    let c4 = cy < 39 && passable(obst, cx as int, cy + 1) && !cell_marked(vis1, cx as int, cy + 1);
    let e1 = (((cx - 1) as u8, cy), Direction::Right);
    let e2 = (((cx + 1) as u8, cy), Direction::Left);
    let e3 = ((cx, (cy - 1) as u8), Direction::Down);
    let e4 = ((cx, (cy + 1) as u8), Direction::Up);
    assert(q1.subrange(0, q1.len() as int) =~= q1);
    assert(front_then(q1, q1, depth1, l + 1));
    assert(c1 ==> entry_level(depth1, e1) == l + 1);
    assert(c2 ==> entry_level(depth1, e2) == l + 1);
    assert(c3 ==> entry_level(depth1, e3) == l + 1);
    assert(c4 ==> entry_level(depth1, e4) == l + 1);
    lemma_front_then_step(q1, q1, q2, depth1, l + 1, e1, c1);
    lemma_front_then_step(q2, q1, q3, depth1, l + 1, e2, c2);
    lemma_front_then_step(q3, q1, q4, depth1, l + 1, e3, c3);
    lemma_front_then_step(q4, q1, qf, depth1, l + 1, e4, c4);
    lemma_expand_levels(q1, qf, depth1, l);
    lemma_expand_cover(obst, vis1, q1, q2, q3, q4, qf, depth1, cx, cy, sx, sy, l);
    if qf.len() > 0 {
        assert(l <= entry_level(depth1, qf[qf.len() - 1]));
    }
}

impl GameStage {
    /// Empties the visited set.
    pub fn clear_visit_set(&mut self)
        ensures
            forall|i: int| 0 <= i < 200 ==> #[trigger] final(self).visited_fields@[i] == 0u8,
            final(self).path_buffer == old(self).path_buffer,
            final(self).path_queue == old(self).path_queue,
            same_but_search_scratch(*old(self), *final(self)),
    {
        let mut i: usize = 0;
        while i < 200
            invariant
                i <= 200,
                forall|j: int| 0 <= j < i ==> #[trigger] self.visited_fields@[j] == 0u8,
                self.path_buffer == old(self).path_buffer,
                self.path_queue == old(self).path_queue,
                same_but_search_scratch(*old(self), *self),
            decreases 200 - i,
        {
            self.visited_fields[i] = 0;
            i += 1;
        }
    }

    /// Whether `coord` is free of obstacles.
    pub fn is_passable(&self, coord: (u8, u8)) -> (r: bool)
        ensures
            r == passable(self.obstacles@, coord.0 as int, coord.1 as int),
    {
        !bitset_test(&self.obstacles, coord.1 as usize * 40 + coord.0 as usize)
    }

    /// The direction stored for `coord` by the last path search.
    pub fn get_next_path_dir(&self, coord: (u8, u8)) -> (r: Direction)
        requires
            cell_index(coord.0 as int, coord.1 as int) < 1600,
        ensures
            r == self.path_buffer@[cell_index(coord.0 as int, coord.1 as int)],
    {
        self.path_buffer[coord.1 as usize * 40 + coord.0 as usize]
    }

    /// Marks `coord` visited and stores `dir` for it.
    pub fn set_visited(&mut self, coord: (u8, u8), dir: Direction)
        requires
            cell_index(coord.0 as int, coord.1 as int) < 1600,
        ensures
            forall|j: int| #[trigger] bit_is_set(final(self).visited_fields@, j)
                == (j == cell_index(coord.0 as int, coord.1 as int)
                    || bit_is_set(old(self).visited_fields@, j)),
            final(self).visited_fields@ == visit_bits(old(self).visited_fields@,
                cell_index(coord.0 as int, coord.1 as int)),
            final(self).path_buffer@ == old(self).path_buffer@.update(
                cell_index(coord.0 as int, coord.1 as int), dir),
            final(self).path_queue == old(self).path_queue,
            same_but_search_scratch(*old(self), *final(self)),
    {
        let idx = coord.1 as usize * 40 + coord.0 as usize;
        bitset_set(&mut self.visited_fields, idx);
        proof {
            lemma_set_bit(old(self).visited_fields@, self.visited_fields@, idx as int);
            reveal(visit_bits);
        }
        self.path_buffer[idx] = dir;
    }

    /// Whether `coord` is in the visited set.
    pub fn is_visited(&self, coord: (u8, u8)) -> (r: bool)
        ensures
            r == cell_marked(self.visited_fields@, coord.0 as int, coord.1 as int),
    {
        bitset_test(&self.visited_fields, coord.1 as usize * 40 + coord.0 as usize)
    }

    /// Queues `pos` with `dir` when it is passable and not yet visited.
    fn enqueue_open(&mut self, pos: (u8, u8), dir: Direction)
        requires
            in_grid(pos.0 as int, pos.1 as int),
        ensures
            final(self).path_queue@ == (if passable(old(self).obstacles@, pos.0 as int, pos.1 as int)
                && !cell_marked(old(self).visited_fields@, pos.0 as int, pos.1 as int) {
                seq![(pos, dir)] + old(self).path_queue@
            } else {
                old(self).path_queue@
            }),
            final(self).visited_fields == old(self).visited_fields,
            final(self).path_buffer == old(self).path_buffer,
            same_but_search_scratch(*old(self), *final(self)),
    {
        if self.is_passable(pos) && !self.is_visited(pos) {
            self.path_queue.push_front((pos, dir));
        }
    }

    /// Breadth-first search from `end`; when `start` is reached, a shortest
    /// route from `start` to `end` is appended to `out_vec`. Nothing is
    /// appended when `start` or `end` is blocked, when they are the same
    /// cell, or when no route exists.
    #[verifier::rlimit(40)]
    pub fn find_path(&mut self, start: (u8, u8), end: (u8, u8), out_vec: &mut VecDeque<Direction>)
        requires
            in_grid(start.0 as int, start.1 as int),
            in_grid(end.0 as int, end.1 as int),
        ensures
            same_but_search_scratch(*old(self), *final(self)),
            path_search_result(old(self).obstacles@, start, end, old(out_vec)@, final(out_vec)@),
            !passable(old(self).obstacles@, start.0 as int, start.1 as int)
                || !passable(old(self).obstacles@, end.0 as int, end.1 as int) || start == end
                ==> *final(self) == *old(self),
            route_exists(old(self).obstacles@, start, end) ==> bfs_dirs(old(self).obstacles@, start, end)[
                cell_index(end.0 as int, end.1 as int)] == Direction::Nowhere,
    {
        if !self.is_passable(start) || !self.is_passable(end) {
            return;
        }
        if start.0 == end.0 && start.1 == end.1 {
            return;
        }
        let ghost obst = self.obstacles@;
        let ghost sx = start.0 as int;
        let ghost sy = start.1 as int;
        let ghost ex = end.0 as int;
        let ghost ey = end.1 as int;
        let Ghost(depth) = self.search_from(end, start);
        let ghost bd = self.path_buffer@;
        let ghost vis = self.visited_fields@;
        proof {
            lemma_tree_at(obst, vis, bd, depth, ex, ey, ex, ey);
            let d = bd[cell_index(ex, ey)];
            if d != Direction::Nowhere {
                lemma_tree_at(obst, vis, bd, depth, ex, ey, ex + dir_dx(d), ey + dir_dy(d));
            }
        }
        let ghost q = self.path_queue@;
        let ghost old_out = out_vec@;
        proof {
            assert forall|r: Seq<Direction>| #[trigger] valid_route(obst, sx, sy, r, ex, ey) implies
                cell_marked(vis, sx, sy) && depth[cell_index(sx, sy)] <= r.len() by {
                lemma_bfs_bound(obst, vis, q, depth, sx, sy, ex, ey, sx, sy, r);
            }
            assert(out_vec@.skip(old_out.len() as int) =~= Seq::<Direction>::empty());
            assert(out_vec@.subrange(0, old_out.len() as int) =~= old_out);
            reveal(follows_dirs);
        }
        let mut cur_x = start.0;
        let mut cur_y = start.1;
        while cur_x != end.0 || cur_y != end.1
            invariant
                in_grid(cur_x as int, cur_y as int),
                self.obstacles@ == obst,
                self.visited_fields@ == vis,
                same_but_search_scratch(*old(self), *self),
                passable(obst, sx, sy),
                passable(obst, ex, ey),
                in_grid(sx, sy),
                in_grid(ex, ey),
                !(sx == ex && sy == ey),
                sx == start.0 && sy == start.1 && ex == end.0 && ey == end.1,
                depth.len() == 1600,
                search_tree(obst, vis, self.path_buffer@, depth, ex, ey),
                cell_marked(vis, ex, ey),
                depth[cell_index(ex, ey)] == 0,
                forall|r: Seq<Direction>| #[trigger] valid_route(obst, sx, sy, r, ex, ey) ==>
                    cell_marked(vis, sx, sy) && depth[cell_index(sx, sy)] <= r.len(),
                out_vec@.len() >= old_out.len(),
                out_vec@.subrange(0, old_out.len() as int) == old_out,
                old_out == old(out_vec)@,
                cell_marked(vis, cur_x as int, cur_y as int) ==> valid_route(
                    obst, sx, sy, out_vec@.skip(old_out.len() as int), cur_x as int, cur_y as int),
                cell_marked(vis, cur_x as int, cur_y as int) ==> out_vec@.len() - old_out.len()
                    + depth[cell_index(cur_x as int, cur_y as int)] == depth[cell_index(sx, sy)],
                !cell_marked(vis, cur_x as int, cur_y as int) ==> (cur_x == start.0 && cur_y == start.1
                    && out_vec@ == old_out),
                self.path_buffer@ == bd,
                bd == bfs_dirs(obst, start, end),
                follows_dirs(bd, sx, sy, out_vec@.skip(old_out.len() as int)),
                route_pos(sx, sy, out_vec@.skip(old_out.len() as int), out_vec@.len() - old_out.len())
                    == (cur_x as int, cur_y as int),
            decreases depth[cell_index(cur_x as int, cur_y as int)],
        {
            let d = self.get_next_path_dir((cur_x, cur_y));
            let ghost cx = cur_x as int;
            let ghost cy = cur_y as int;
            let ghost before = out_vec@;
            if d == Direction::Nowhere {
                proof {
                    if cell_marked(vis, cx, cy) {
                        lemma_tree_at(obst, vis, self.path_buffer@, depth, ex, ey, cx, cy);
                    }
                    if route_exists(obst, start, end) {
                        let r = choose|r: Seq<Direction>| valid_route(obst, sx, sy, r, ex, ey);
                        assert(valid_route(obst, sx, sy, r, ex, ey));
                    }
                }
                return;
            }
            proof {
                if !cell_marked(vis, cx, cy) {
                    lemma_tree_unmarked(obst, vis, self.path_buffer@, depth, ex, ey, cx, cy);
                }
                lemma_tree_at(obst, vis, self.path_buffer@, depth, ex, ey, cx, cy);
                lemma_tree_at(obst, vis, self.path_buffer@, depth, ex, ey, cx + dir_dx(d), cy + dir_dy(d));
            }
            match d {
                Direction::Up => {
                    out_vec.push_back(Direction::Up);
                    cur_y -= 1;
                },
                Direction::Down => {
                    out_vec.push_back(Direction::Down);
                    cur_y += 1;
                },
                Direction::Left => {
                    out_vec.push_back(Direction::Left);
                    cur_x -= 1;
                },
                _ => {
                    out_vec.push_back(Direction::Right);
                    cur_x += 1;
                },
            }
            proof {
                let nxt = cur_x as int;
                let nyt = cur_y as int;
                assert(out_vec@ == before.push(d));
                assert(out_vec@.skip(old_out.len() as int) =~= before.skip(old_out.len() as int) + seq![d]);
                assert(out_vec@.subrange(0, old_out.len() as int) =~= before.subrange(0, old_out.len() as int));
                assert(seq![d].drop_first() =~= Seq::<Direction>::empty());
                reveal_with_fuel(valid_route, 2);
                assert(valid_route(obst, cx, cy, seq![d], nxt, nyt));
                lemma_route_concat(obst, sx, sy, before.skip(old_out.len() as int), cx, cy, seq![d], nxt, nyt);
                let r0 = before.skip(old_out.len() as int);
                let r1 = out_vec@.skip(old_out.len() as int);
                assert(r1 =~= r0 + seq![d]);
                reveal(follows_dirs);
                assert forall|k: int| 0 <= k <= r0.len() implies route_pos(sx, sy, r1, k)
                    == #[trigger] route_pos(sx, sy, r0, k) by {
                    lemma_route_pos_prefix(sx, sy, r0, r1, k);
                }
                assert(route_pos(sx, sy, r1, r0.len() as int) == (cx, cy));
                assert forall|k: int| 0 <= k < r1.len() implies #[trigger] r1[k] == bd[cell_index(
                    route_pos(sx, sy, r1, k).0, route_pos(sx, sy, r1, k).1)] by {
                    if k < r0.len() {
                        assert(r1[k] == r0[k]);
                        assert(route_pos(sx, sy, r1, k) == route_pos(sx, sy, r0, k));
                    }
                }
                assert(route_pos(sx, sy, r1, r1.len() as int) == (nxt, nyt));
            }
        }
        proof {
            let r = out_vec@.skip(old_out.len() as int);
            assert(valid_route(obst, sx, sy, r, ex, ey));
            assert(reachable(obst, sx, sy, ex, ey));
        }
    }

    /// The search part of `find_path`: breadth-first from `end` until
    /// `start` is visited or the queue runs dry. Returns (as ghost) the depth
    /// of each visited cell in the tree of directions.
    #[verifier::rlimit(100)]
    fn search_from(&mut self, end: (u8, u8), start: (u8, u8)) -> (depth: Ghost<Seq<int>>)
        requires
            in_grid(start.0 as int, start.1 as int),
            in_grid(end.0 as int, end.1 as int),
            start != end,
            passable(old(self).obstacles@, end.0 as int, end.1 as int),
        ensures
            same_but_search_scratch(*old(self), *final(self)),
            depth@.len() == 1600,
            search_tree(final(self).obstacles@, final(self).visited_fields@, final(self).path_buffer@,
                depth@, end.0 as int, end.1 as int),
            search_done(final(self).obstacles@, final(self).visited_fields@, final(self).path_queue@,
                depth@, start.0 as int, start.1 as int, end.0 as int, end.1 as int),
            final(self).path_buffer@ == bfs_dirs(old(self).obstacles@, start, end),
    {
        let ghost obst = self.obstacles@;
        let ghost sx = start.0 as int;
        let ghost sy = start.1 as int;
        let ghost ex = end.0 as int;
        let ghost ey = end.1 as int;
        self.clear_visit_set();
        proof {
            lemma_empty_bits(self.visited_fields@);
        }
        let mut i: usize = 0;
        while i < 1600
            invariant
                i <= 1600,
                forall|j: int| 0 <= j < i ==> #[trigger] self.path_buffer@[j] == Direction::Nowhere,
                forall|j: int| !#[trigger] bit_is_set(self.visited_fields@, j),
                forall|j: int| 0 <= j < 200 ==> #[trigger] self.visited_fields@[j] == 0u8,
                self.obstacles@ == obst,
                same_but_search_scratch(*old(self), *self),
            decreases 1600 - i,
        {
            self.path_buffer[i] = Direction::Nowhere;
            i += 1;
        }
        self.path_queue.clear();
        self.path_queue.push_front((end, Direction::Nowhere));
        let ghost mut depth: Seq<int> = Seq::new(1600, |j: int| 0int);
        let ghost mut vset: Set<int> = Set::empty();
        let ghost mut steps: nat = 0;
        let ghost total = bfs_run(obst, Seq::new(200, |i: int| 0u8), Seq::new(1600, |i: int| Direction::Nowhere),
            seq![(end, Direction::Nowhere)], start, 6401);
        proof {
            assert(self.path_queue@ =~= seq![(end, Direction::Nowhere)]);
            assert(self.visited_fields@ =~= Seq::new(200, |i: int| 0u8));
            assert(self.path_buffer@ =~= Seq::new(1600, |i: int| Direction::Nowhere));
            reveal(search_tree);
            reveal(queue_ok);
            reveal(search_closed);
            reveal(levels_ok);
        }
        loop
            invariant_except_break
                search_closed(obst, self.visited_fields@, self.path_queue@, depth, sx, sy),
                !cell_marked(self.visited_fields@, sx, sy),
                total == bfs_run(obst, self.visited_fields@, self.path_buffer@, self.path_queue@, start,
                    (6401 - steps) as nat),
            invariant
                self.obstacles@ == obst,
                same_but_search_scratch(*old(self), *self),
                passable(obst, ex, ey),
                in_grid(sx, sy),
                in_grid(ex, ey),
                !(sx == ex && sy == ey),
                sx == start.0 && sy == start.1 && ex == end.0 && ey == end.1,
                depth.len() == 1600,
                search_tree(obst, self.visited_fields@, self.path_buffer@, depth, ex, ey),
                queue_ok(obst, self.visited_fields@, self.path_queue@, ex, ey),
                levels_ok(self.path_queue@, depth),
                self.path_queue@.len() > 0 ==> depths_at_most(self.visited_fields@, depth,
                    entry_level(depth, self.path_queue@[self.path_queue@.len() - 1])),
                cell_marked(self.visited_fields@, ex, ey) ==> depth[cell_index(ex, ey)] == 0,
                !cell_marked(self.visited_fields@, ex, ey) ==> self.path_queue@ =~= seq![(end, Direction::Nowhere)],
                vset.finite(),
                vset.len() <= 1600,
                forall|j: int| #[trigger] vset.contains(j) <==> bit_is_set(self.visited_fields@, j),
                steps + self.path_queue@.len() <= 1 + 4 * vset.len(),
                total == bfs_run(obst, Seq::new(200, |i: int| 0u8), Seq::new(1600, |i: int| Direction::Nowhere),
                    seq![(end, Direction::Nowhere)], start, 6401),
            ensures
                self.obstacles@ == obst,
                same_but_search_scratch(*old(self), *self),
                depth.len() == 1600,
                search_tree(obst, self.visited_fields@, self.path_buffer@, depth, ex, ey),
                search_done(obst, self.visited_fields@, self.path_queue@, depth, sx, sy, ex, ey),
                self.path_buffer@ == total.1,
            decreases 1600 - vset.len(), self.path_queue@.len(),
        {
            let ghost q0 = self.path_queue@;
            let ghost vis0 = self.visited_fields@;
            let ghost dirs0 = self.path_buffer@;
            let ghost fuel = (6401 - steps) as nat;
            let popped = self.path_queue.pop_back();
            match popped {
                None => {
                    proof {
                        assert(self.path_queue@ =~= q0);
                        assert(total == (vis0, dirs0)) by {
                            lemma_bfs_unfold(obst, vis0, dirs0, q0, start, fuel);
                        }
                    }
                    break;
                },
                Some((next_pos, dir)) => {
                    proof {
                        assert(q0[q0.len() - 1] == (next_pos, dir));
                        assert(self.path_queue@ =~= q0.subrange(0, q0.len() - 1));
                        lemma_queue_at(obst, vis0, q0, ex, ey, q0.len() - 1);
                    }
                    if self.is_visited(next_pos) {
                        proof {
                            lemma_pop_visited(obst, vis0, q0, depth, sx, sy);
                            reveal(queue_ok);
                            let q1 = self.path_queue@;
                            assert forall|k: int| 0 <= k < q1.len() implies #[trigger] q1[k] == q0[k] by {}
                            if q1.len() > 0 {
                                assert(q1[q1.len() - 1] == q0[q0.len() - 2]);
                            }
                            assert(total == bfs_run(obst, vis0, dirs0, q1, start, (fuel - 1) as nat)) by {
                                assert(q1 =~= q0.drop_last());
                                lemma_bfs_unfold(obst, vis0, dirs0, q0, start, fuel);
                            }
                            steps = steps + 1;
                        }
                        continue;
                    }
                    let ghost pb0 = self.path_buffer@;
                    let ghost ci = cell_index(next_pos.0 as int, next_pos.1 as int);
                    let ghost l = entry_level(depth, q0[q0.len() - 1]);
                    let ghost depth0 = depth;
                    self.set_visited(next_pos, dir);
                    let ghost vis1 = self.visited_fields@;
                    let ghost q1 = self.path_queue@;
                    proof {
                        depth = lemma_visit(obst, vis0, vis1, pb0, self.path_buffer@, depth0, q0, ex, ey);
                        lemma_visit_closed(obst, vis0, vis1, q0, depth0, depth, sx, sy);
                        assert forall|k: int| 0 <= k < q1.len() implies #[trigger] q1[k] == q0[k] by {}
                        assert forall|x: int, y: int| in_grid(x, y) && #[trigger] cell_marked(vis1, x, y)
                            implies depth[cell_index(x, y)] <= l by {
                            if !(x == next_pos.0 && y == next_pos.1) {
                                assert(cell_index(x, y) != ci);
                                assert(cell_marked(vis0, x, y));
                            }
                        }
                        assert(depths_at_most(vis1, depth, l));
                        assert(cell_marked(vis1, ex, ey));
                        if cell_marked(vis0, ex, ey) {
                            assert(depth[cell_index(ex, ey)] == depth0[cell_index(ex, ey)]);
                        }
                        assert(!vset.contains(ci));
                        vset = vset.insert(ci);
                        vstd::set_lib::lemma_int_range(0, 1600);
                        assert(vset.subset_of(vstd::set_lib::set_int_range(0, 1600)));
                        vstd::set_lib::lemma_len_subset(vset, vstd::set_lib::set_int_range(0, 1600));
                    }
                    let ghost pb1 = self.path_buffer@;
                    proof {
                        assert(pb1 == dirs0.update(ci, dir));
                        assert(vis1 == visit_bits(vis0, ci));
                    }
                    if next_pos.0 == start.0 && next_pos.1 == start.1 {
                        proof {
                            assert(total == (vis1, pb1)) by {
                                assert(next_pos == start);
                                lemma_bfs_unfold(obst, vis0, dirs0, q0, start, fuel);
                            }
                            reveal(search_closed);
                            assert forall|k: int| 0 <= k < q1.len() implies
                                entry_level(depth, #[trigger] q1[k]) >= depth[cell_index(sx, sy)] by {
                                assert(q1[k] == q0[k]);
                            }
                        }
                        break;
                    }
                    proof {
                        assert(cell_index(sx, sy) != ci);
                        assert(!cell_marked(vis1, sx, sy));
                        assert forall|k: int| 0 <= k < q1.len() implies
                            entry_level(depth, #[trigger] q1[k]) >= l && entry_level(depth, q1[k]) <= l + 1 by {
                            assert(q1[k] == q0[k]);
                        }
                    }
                    let (cx, cy) = next_pos;
                    if cx > 0 {
                        self.enqueue_open((cx - 1, cy), Direction::Right);
                    }
                    let ghost q2 = self.path_queue@;
                    if cx < 39 {
                        self.enqueue_open((cx + 1, cy), Direction::Left);
                    }
                    let ghost q3 = self.path_queue@;
                    if cy > 0 {
                        self.enqueue_open((cx, cy - 1), Direction::Down);
                    }
                    let ghost q4 = self.path_queue@;
                    if cy < 39 {
                        self.enqueue_open((cx, cy + 1), Direction::Up);
                    }
                    proof {
                        assert(expansion_pushes(obst, vis1, q1, q2, q3, q4, self.path_queue@, cx, cy));
                        lemma_expand_queue_ok(obst, vis1, q1, q2, q3, q4, self.path_queue@, cx, cy, ex, ey);
                        lemma_expand_closed(obst, vis1, q1, q2, q3, q4, self.path_queue@, depth, cx, cy, sx, sy, l);
                        assert(total == bfs_run(obst, vis1, pb1, self.path_queue@, start,
                            (fuel - 1) as nat)) by {
                            assert(self.path_queue@ == expanded_queue(obst, vis1, q1, cx, cy));
                            assert(q1 =~= q0.drop_last());
                            assert(next_pos != start);
                            lemma_bfs_unfold(obst, vis0, dirs0, q0, start, fuel);
                        }
                        assert(self.path_queue@.len() <= q1.len() + 4);
                        steps = steps + 1;
                    }
                },
            }
        }
        Ghost(depth)
    }
}

} // verus!
