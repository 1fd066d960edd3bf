use vstd::prelude::*;
use std::collections::VecDeque;
use crate::game_stage::{
    nonneg_pos, Bag, GameStage, HealthPoints, MatureTree, StoreEntry, StoreHouse, TargetTree, Worker,
    WorkerState, CHOP_TICKS, STEP_SUB_TICKS, DOOR_X, DOOR_Y,
};
use crate::grid::{Direction, dir_dx, dir_dy, in_grid, route_in_grid, lemma_valid_route_in_grid};
use crate::pathfinding::{path_search_result, route_exists, same_but_search_scratch};
use crate::random::{range_value, xorshift_next};
use crate::nature::mature_pos;
use crate::laws::{
    tree_spots, stage_wood, tree_count, wood_in_bags, wood_in_stores, wood_in_trees, lemma_wood_bags_update,
    lemma_wood_stores_update, lemma_wood_trees_update,
};

verus! {

/// How many random draws a worker without a tree makes in one update before
/// it takes the first tree it can choose.
pub const SEARCH_DRAWS: usize = 4096;

/// A pixel position at the top left corner of a grid cell.
pub open spec fn aligned_cell(p: (i16, i16)) -> bool {
    &&& p.0 % 4 == 0
    &&& p.1 % 4 == 0
    &&& 0 <= p.0 < 160
    &&& 0 <= p.1 < 160
}

/// `k` pixels along the horizontal part of step `d`.
pub open spec fn along_x(d: Direction, k: int) -> int {
    match d {
        Direction::Left => -k,
        Direction::Right => k,
        _ => 0,
    }
}

/// `k` pixels along the vertical part of step `d`.
pub open spec fn along_y(d: Direction, k: int) -> int {
    match d {
        Direction::Up => -k,
        Direction::Down => k,
        _ => 0,
    }
}

/// A walking worker with `steps` sub-steps left of its current move: it has
/// walked `4 - steps` pixels from a cell corner towards the first step of
/// its path, and the whole path from that cell stays on the grid.
pub open spec fn moving_ok(pos: (i16, i16), steps: u8, path: Seq<Direction>) -> bool {
    &&& steps <= 4
    &&& if path.len() == 0 {
        aligned_cell(pos)
    } else {
        let bx = pos.0 - along_x(path[0], 4 - steps);
        let by = pos.1 - along_y(path[0], 4 - steps);
        &&& bx % 4 == 0
        &&& by % 4 == 0
        &&& 0 <= bx < 160
        &&& 0 <= by < 160
        &&& route_in_grid(bx / 4, by / 4, path)
    }
}

/// The invariant of one worker: a bag of three, and a position and path
/// that fit its activity.
pub open spec fn worker_ok(w: Worker) -> bool {
    &&& w.bag.max_items == 3
    &&& w.bag.count_items <= 3
    &&& match w.state {
        WorkerState::Idle => w.path@.len() == 0 && aligned_cell(w.pos) && w.bag.count_items < 3,
        WorkerState::WalkingToTree { steps_to_next_dir } =>
            moving_ok(w.pos, steps_to_next_dir, w.path@) && w.bag.count_items < 3,
        WorkerState::ChoppingTree { .. } =>
            w.path@.len() == 0 && aligned_cell(w.pos) && w.bag.count_items < 3,
        WorkerState::CarryCargoToStorage { steps_to_next_dir } =>
            moving_ok(w.pos, steps_to_next_dir, w.path@),
        WorkerState::GettingRidOfCargo { .. } => w.path@.len() == 0 && aligned_cell(w.pos),
    }
}

/// The grid cell of a worker standing at a cell corner.
pub open spec fn worker_cell(w: Worker) -> (u8, u8) {
    ((w.pos.0 / 4) as u8, (w.pos.1 / 4) as u8)
}

/// The first index at or after `i` of a tree standing at `(x, y)`.
pub open spec fn first_tree_from(trees: Seq<MatureTree>, x: i16, y: i16, i: int) -> Option<int>
    decreases trees.len() - i,
{
    if i < 0 || i >= trees.len() {
        None
    } else if trees[i].1 == (x, y) {
        Some(i)
    } else {
        first_tree_from(trees, x, y, i + 1)
    }
}

/// A worker's chosen tree brought up to date with the tree list: kept when
/// its index still holds a tree at its position, otherwise moved to the first
/// tree at that position, or dropped when there is none.
pub open spec fn actualized_target(t: Option<TargetTree>, trees: Seq<MatureTree>) -> Option<TargetTree> {
    match t {
        None => None,
        Some(td) => if td.tree_id < trees.len() && trees[td.tree_id as int].1 == (td.tree_x, td.tree_y) {
            t
        } else {
            match first_tree_from(trees, td.tree_x, td.tree_y, 0) {
                Some(k) => Some(TargetTree { tree_id: k as usize, tree_x: td.tree_x, tree_y: td.tree_y }),
                None => None,
            }
        },
    }
}

/// The tree index of each of the (at most three) workers after bringing
/// their choices up to date; `None` for missing workers.
pub open spec fn tree_indices(ws: Seq<Worker>, trees: Seq<MatureTree>) -> Seq<Option<usize>> {
    Seq::new(3, |i: int| if i < ws.len() {
        match actualized_target(ws[i].target, trees) {
            Some(t) => Some(t.tree_id),
            None => None,
        }
    } else {
        None
    })
}

/// Candidate `m` (0 to 8) of the 3 x 3 cells around `(tx, ty)`, column by column.
pub open spec fn neighbour_candidate(tx: int, ty: int, m: int) -> (int, int) {
    (tx - 1 + m / 3, ty - 1 + m % 3)
}

/// The first candidate cell, from number `m` on, that lies on the grid and
/// to which a route from `start` exists.
pub open spec fn first_open_neighbour(
    obstacles: Seq<u8>,
    start: (u8, u8),
    tx: int,
    ty: int,
    m: int,
) -> Option<(u8, u8)>
    decreases 9 - m,
{
    if m < 0 || m >= 9 {
        None
    } else {
        let c = neighbour_candidate(tx, ty, m);
        if in_grid(c.0, c.1) && route_exists(obstacles, start, (c.0 as u8, c.1 as u8)) {
            Some((c.0 as u8, c.1 as u8))
        } else {
            first_open_neighbour(obstacles, start, tx, ty, m + 1)
        }
    }
}

/// The cell around a tree at pixel `tree_pos` that a worker at `start` walks to.
pub open spec fn tree_approach(obstacles: Seq<u8>, start: (u8, u8), tree_pos: (i16, i16)) -> Option<(u8, u8)> {
    first_open_neighbour(obstacles, start, tree_pos.0 / 4, tree_pos.1 / 4, 0)
}

/// The path without its first step (an empty path stays empty).
pub open spec fn pop_path(p: Seq<Direction>) -> Seq<Direction> {
    if p.len() == 0 { p } else { p.drop_first() }
}

/// The position one pixel along the first step of `p`.
pub open spec fn step_pos(pos: (i16, i16), p: Seq<Direction>) -> (i16, i16) {
    if p.len() == 0 {
        pos
    } else {
        ((pos.0 + dir_dx(p[0])) as i16, (pos.1 + dir_dy(p[0])) as i16)
    }
}

/// Walking towards a tree or carrying wood, with `steps` sub-steps left.
pub open spec fn moving_state(carrying: bool, steps: u8) -> WorkerState {
    if carrying {
        WorkerState::CarryCargoToStorage { steps_to_next_dir: steps }
    } else {
        WorkerState::WalkingToTree { steps_to_next_dir: steps }
    }
}

/// What a worker does on arrival: unload at the store or start chopping.
pub open spec fn arrival_state(carrying: bool) -> WorkerState {
    if carrying {
        WorkerState::GettingRidOfCargo { ticks_to_next_state: 24 }
    } else {
        WorkerState::ChoppingTree { ticks_to_next_chop: 48 }
    }
}

/// One update of a moving worker: with sub-steps left it moves one pixel
/// along its path; with none left it drops the finished step and either
/// arrives (empty path) or starts the next step.
pub open spec fn moving_step(w: Worker, w2: Worker, carrying: bool, s: u8) -> bool {
    &&& w2.bag == w.bag
    &&& w2.target == w.target
    &&& if s == 0 {
        let rest = pop_path(w.path@);
        &&& w2.path@ == rest
        &&& w2.pos == w.pos
        &&& w2.state == (if rest.len() == 0 { arrival_state(carrying) } else { moving_state(carrying, 4) })
    } else {
        &&& w2.path@ == w.path@
        &&& w2.pos == step_pos(w.pos, w.path@)
        &&& w2.state == moving_state(carrying, (s - 1) as u8)
    }
}

/// The worker only changes activity to `st`.
pub open spec fn only_state_changes(w: Worker, w2: Worker, st: WorkerState) -> bool {
    &&& w2.pos == w.pos
    &&& w2.bag == w.bag
    &&& w2.path@ == w.path@
    &&& w2.target == w.target
    &&& w2.state == st
}

/// The worker sets off with `bag` towards the store house door: its path
/// gets the route the path search finds from its cell to the door appended
/// (nothing when there is no route).
pub open spec fn heads_home(obstacles: Seq<u8>, w: Worker, w2: Worker, bag: Bag) -> bool {
    &&& w2.bag == bag
    &&& w2.target == w.target
    &&& w2.pos == w.pos
    &&& w2.state == WorkerState::CarryCargoToStorage { steps_to_next_dir: 4 }
    &&& path_search_result(obstacles, worker_cell(w), (DOOR_X, DOOR_Y), w.path@, w2.path@)
}

/// The worker sets off towards the tree at `tree_pos`, along the route the
/// path search finds to the first reachable cell around it.
pub open spec fn sets_off(obstacles: Seq<u8>, w: Worker, w2: Worker, tree_pos: (i16, i16)) -> bool {
    match tree_approach(obstacles, worker_cell(w), tree_pos) {
        Some(n) => {
            &&& w2.state == WorkerState::WalkingToTree { steps_to_next_dir: 4 }
            &&& path_search_result(obstacles, worker_cell(w), n, w.path@, w2.path@)
        },
        None => false,
    }
}

/// The largest index an idle worker draws when choosing a tree among `n`
/// mature trees (the draw bound is kept to 16 bits).
pub open spec fn draw_bound(n: int) -> int {
    ((n - 1) as u16) as int
}

/// The random choice of a tree by idle worker `id` without a tree, standing
/// at cell `start`, with at most `n` draws left and the generator in state
/// `st`: each draw picks an index from `0..=draw_bound(trees.len())`; the
/// choice is the first drawn tree that has wood, that no other worker has
/// chosen and around which a cell can be reached. Gives the chosen index
/// (none when the draws run out) and the generator state after the draws.
pub open spec fn tree_search(
    obstacles: Seq<u8>,
    start: (u8, u8),
    trees: Seq<MatureTree>,
    ti: Seq<Option<usize>>,
    id: int,
    st: u32,
    n: nat,
) -> (Option<int>, u32)
    decreases n,
{
    if n == 0 {
        (None, st)
    } else {
        let s1 = xorshift_next(st);
        let r = range_value(s1, 0, draw_bound(trees.len() as int));
        if trees[r].2.amount != 0
            && !(exists|j: int| 0 <= j < 3 && j != id && ti[j] == Some(r as usize))
            && tree_approach(obstacles, start, trees[r].1) is Some {
            (Some(r), s1)
        } else {
            tree_search(obstacles, start, trees, ti, id, s1, (n - 1) as nat)
        }
    }
}

/// Tree `r` can be chosen by worker `id` standing at cell `start`: it is a
/// mature tree with wood, no other worker has chosen it, and a cell around
/// it can be reached.
pub open spec fn findable(
    obstacles: Seq<u8>,
    start: (u8, u8),
    trees: Seq<MatureTree>,
    ti: Seq<Option<usize>>,
    id: int,
    r: int,
) -> bool {
    &&& 0 <= r < trees.len()
    &&& trees[r].2.amount != 0
    &&& !(exists|j: int| 0 <= j < 3 && j != id && ti[j] == Some(r as usize))
    &&& tree_approach(obstacles, start, trees[r].1) is Some
}

/// The first tree from index `i` on that worker `id` at `start` can choose.
pub open spec fn first_findable(
    obstacles: Seq<u8>,
    start: (u8, u8),
    trees: Seq<MatureTree>,
    ti: Seq<Option<usize>>,
    id: int,
    i: int,
) -> Option<int>
    decreases trees.len() - i,
{
    if i < 0 || i >= trees.len() {
        None
    } else if findable(obstacles, start, trees, ti, id, i) {
        Some(i)
    } else {
        first_findable(obstacles, start, trees, ti, id, i + 1)
    }
}

/// The tree an idle worker without a tree chooses: the one the random draws
/// find, or else the first it can choose.
pub open spec fn chosen_tree(
    obstacles: Seq<u8>,
    start: (u8, u8),
    trees: Seq<MatureTree>,
    ti: Seq<Option<usize>>,
    id: int,
    st: u32,
) -> Option<int> {
    match tree_search(obstacles, start, trees, ti, id, st, SEARCH_DRAWS as nat).0 {
        Some(r) => Some(r),
        None => first_findable(obstacles, start, trees, ti, id, 0),
    }
}

/// What worker `w` (number `id`) does to the trees `t` in one update: a
/// chop takes one unit of wood from its tree.
pub open spec fn chop_of(w: Worker, ti: Seq<Option<usize>>, id: int, t: Seq<MatureTree>) -> Seq<MatureTree> {
    if w.state == (WorkerState::ChoppingTree { ticks_to_next_chop: 0 }) && ti[id] is Some
        && t[ti[id]->0 as int].2.amount != 0 {
        let k = ti[id]->0 as int;
        t.update(k, (t[k].0, t[k].1, HealthPoints { amount: (t[k].2.amount - 1) as u8 }))
    } else {
        t
    }
}

/// The trees as worker `k` finds them in an update: after the chops of the
/// workers before it.
pub open spec fn trees_before(ws: Seq<Worker>, ti: Seq<Option<usize>>, t: Seq<MatureTree>, k: int) -> Seq<MatureTree>
    decreases k,
{
    if k <= 0 {
        t
    } else {
        chop_of(ws[k - 1], ti, k - 1, trees_before(ws, ti, t, k - 1))
    }
}

/// Every idle worker without a tree finds, when its turn comes in an update,
/// a tree it can choose (without one its random search would never end).
pub open spec fn idle_search_ok(obstacles: Seq<u8>, ws: Seq<Worker>, trees: Seq<MatureTree>) -> bool {
    let ti = tree_indices(ws, trees);
    forall|k: int|
        #![trigger ws[k]]
        0 <= k < ws.len() && ws[k].state == WorkerState::Idle && ti[k] is None ==>
            exists|r: int| findable(obstacles, worker_cell(ws[k]), trees_before(ws, ti, trees, k), ti, k, r)
}

/// Some worker is about to unload into the store house.
pub open spec fn some_unloading(ws: Seq<Worker>) -> bool {
    exists|k: int| 0 <= k < ws.len()
        && (#[trigger] ws[k]).state == (WorkerState::GettingRidOfCargo { ticks_to_next_state: 0 })
}

/// One update of worker `w` (number `id`) into `w2`, with the mature trees
/// going from `t1` to `t2`, the store houses from `s1` to `s2` and the
/// generator from state `r1` to `r2`; `ti` are the workers' tree indices.
pub open spec fn worker_step(
    obstacles: Seq<u8>,
    w: Worker,
    w2: Worker,
    id: int,
    ti: Seq<Option<usize>>,
    t1: Seq<MatureTree>,
    t2: Seq<MatureTree>,
    s1: Seq<StoreEntry>,
    s2: Seq<StoreEntry>,
    r1: u32,
    r2: u32,
) -> bool {
    &&& (w.state == WorkerState::Idle && ti[id] is None) || r2 == r1
    &&& match w.state {
        WorkerState::Idle => {
            &&& t2 == t1
            &&& s2 == s1
            &&& w2.pos == w.pos
            &&& w2.bag == w.bag
            &&& match ti[id] {
                Some(k) => {
                    &&& w2.target == w.target
                    &&& if tree_approach(obstacles, worker_cell(w), t1[k as int].1) is Some {
                        sets_off(obstacles, w, w2, t1[k as int].1)
                    } else {
                        only_state_changes(w, w2, WorkerState::Idle)
                    }
                },
                None => {
                    &&& r2 == tree_search(obstacles, worker_cell(w), t1, ti, id, r1, SEARCH_DRAWS as nat).1
                    &&& match chosen_tree(obstacles, worker_cell(w), t1, ti, id, r1) {
                        None => only_state_changes(w, w2, WorkerState::Idle),
                        Some(r) => {
                            &&& w2.target == Some(TargetTree { tree_id: r as usize, tree_x: t1[r].1.0, tree_y: t1[r].1.1 })
                            &&& sets_off(obstacles, w, w2, t1[r].1)
                        },
                    }
                },
            }
        },
        WorkerState::WalkingToTree { steps_to_next_dir } => {
            &&& t2 == t1
            &&& s2 == s1
            &&& moving_step(w, w2, false, steps_to_next_dir)
        },
        WorkerState::ChoppingTree { ticks_to_next_chop } => {
            &&& s2 == s1
            &&& if ticks_to_next_chop > 0 {
                &&& t2 == t1
                &&& only_state_changes(w, w2, WorkerState::ChoppingTree { ticks_to_next_chop: (ticks_to_next_chop - 1) as u8 })
            } else {
                match ti[id] {
                    None => t2 == t1 && heads_home(obstacles, w, w2, w.bag),
                    Some(k) => if t1[k as int].2.amount == 0 {
                        t2 == t1 && heads_home(obstacles, w, w2, w.bag)
                    } else {
                        let bag = Bag { count_items: (w.bag.count_items + 1) as u8, max_items: w.bag.max_items };
                        &&& t2 == t1.update(k as int, (t1[k as int].0, t1[k as int].1,
                            HealthPoints { amount: (t1[k as int].2.amount - 1) as u8 }))
                        &&& if bag.count_items == bag.max_items {
                            heads_home(obstacles, w, w2, bag)
                        } else {
                            &&& w2.pos == w.pos
                            &&& w2.bag == bag
                            &&& w2.path@ == w.path@
                            &&& w2.target == w.target
                            &&& w2.state == w.state
                        }
                    },
                }
            }
        },
        WorkerState::CarryCargoToStorage { steps_to_next_dir } => {
            &&& t2 == t1
            &&& s2 == s1
            &&& moving_step(w, w2, true, steps_to_next_dir)
        },
        WorkerState::GettingRidOfCargo { ticks_to_next_state } => {
            &&& t2 == t1
            &&& if ticks_to_next_state > 0 {
                &&& s2 == s1
                &&& only_state_changes(w, w2, WorkerState::GettingRidOfCargo {
                    ticks_to_next_state: (ticks_to_next_state - 1) as u8 })
            } else {
                &&& s2 == s1.update(0, (s1[0].0, StoreHouse { count_items: (s1[0].1.count_items + w.bag.count_items) as u64 }))
                &&& w2.pos == w.pos
                &&& w2.path@ == w.path@
                &&& w2.target == w.target
                &&& w2.bag == Bag { count_items: 0, max_items: w.bag.max_items }
                &&& w2.state == WorkerState::Idle
            }
        },
    }
}


/// Advancing one pixel keeps a moving worker consistent and on the map.
proof fn lemma_moving_advance(pos: (i16, i16), s: u8, path: Seq<Direction>)
    requires
        moving_ok(pos, s, path),
        s > 0,
    ensures
        path.len() > 0 ==> 0 <= pos.0 + dir_dx(path[0]) < 160 && 0 <= pos.1 + dir_dy(path[0]) < 160,
        moving_ok(step_pos(pos, path), (s - 1) as u8, path),
{
    if path.len() > 0 {
        let d = path[0];
        let bx = pos.0 - along_x(d, 4 - s);
        let by = pos.1 - along_y(d, 4 - s);
        assert(route_in_grid(bx / 4, by / 4, path));
        assert(in_grid(bx / 4 + dir_dx(d), by / 4 + dir_dy(d)));
    }
}

/// A moving worker with no sub-steps left stands at the cell corner its
/// path leads to next; the rest of the path stays on the grid.
proof fn lemma_moving_pop(pos: (i16, i16), path: Seq<Direction>)
    requires
        moving_ok(pos, 0, path),
    ensures
        aligned_cell(pos),
        pop_path(path).len() > 0 ==> moving_ok(pos, 4, pop_path(path)),
{
    if path.len() > 0 {
        let d = path[0];
        let bx = pos.0 - along_x(d, 4);
        let by = pos.1 - along_y(d, 4);
        assert(route_in_grid(bx / 4, by / 4, path));
        let nx = bx / 4 + dir_dx(d);
        let ny = by / 4 + dir_dy(d);
        assert(in_grid(nx, ny));
        assert(pos.0 == nx * 4 && pos.1 == ny * 4);
        assert(route_in_grid(nx, ny, path.drop_first()));
        assert(pos.0 / 4 == nx && pos.1 / 4 == ny);
    }
}

/// A worker at a cell corner whose path was empty and got a search result
/// appended is consistent as a mover at the start of a step.
proof fn lemma_fresh_route(
    obstacles: Seq<u8>,
    pos: (i16, i16),
    start: (u8, u8),
    end: (u8, u8),
    after: Seq<Direction>,
)
    requires
        aligned_cell(pos),
        start == ((pos.0 / 4) as u8, (pos.1 / 4) as u8),
        path_search_result(obstacles, start, end, Seq::empty(), after),
    ensures
        moving_ok(pos, 4, after),
{
    if route_exists(obstacles, start, end) {
        assert(after.skip(0) =~= after);
        lemma_valid_route_in_grid(obstacles, start.0 as int, start.1 as int, after, end.0 as int, end.1 as int);
    }
}

impl GameStage {
    /// Brings a worker's chosen tree up to date with the tree list.
    fn actualize_target(target: Option<TargetTree>, trees: &Vec<MatureTree>) -> (r: Option<TargetTree>)
        ensures
            r == actualized_target(target, trees@),
    {
        match target {
            None => None,
            Some(td) => {
                if td.tree_id >= trees.len() || td.tree_x != trees[td.tree_id].1.0
                    || td.tree_y != trees[td.tree_id].1.1 {
                    let mut i: usize = 0;
                    assert(!(td.tree_id < trees@.len()
                        && trees@[td.tree_id as int].1 == (td.tree_x, td.tree_y)));
                    while i < trees.len()
                        invariant
                            i <= trees@.len(),
                            target == Some(td),
                            !(td.tree_id < trees@.len()
                                && trees@[td.tree_id as int].1 == (td.tree_x, td.tree_y)),
                            first_tree_from(trees@, td.tree_x, td.tree_y, 0)
                                == first_tree_from(trees@, td.tree_x, td.tree_y, i as int),
                        decreases trees.len() - i,
                    {
                        if trees[i].1.0 == td.tree_x && trees[i].1.1 == td.tree_y {
                            assert(trees@[i as int].1 == (td.tree_x, td.tree_y));
                            assert(first_tree_from(trees@, td.tree_x, td.tree_y, i as int) == Some(i as int));
                            return Some(TargetTree { tree_id: i, tree_x: td.tree_x, tree_y: td.tree_y });
                        }
                        i += 1;
                    }
                    None
                } else {
                    Some(td)
                }
            },
        }
    }

    /// Looks for a route from `start` to one of the cells around the tree at
    /// `tree_pos` (column by column); appends the first route found to `out`.
    fn path_to_tree(&mut self, start: (u8, u8), tree_pos: (i16, i16), out: &mut VecDeque<Direction>) -> (found: bool)
        requires
            in_grid(start.0 as int, start.1 as int),
            nonneg_pos(tree_pos),
            old(out)@.len() == 0,
        ensures
            same_but_search_scratch(*old(self), *final(self)),
            found == tree_approach(old(self).obstacles@, start, tree_pos) is Some,
            found ==> path_search_result(old(self).obstacles@, start,
                tree_approach(old(self).obstacles@, start, tree_pos)->0, old(out)@, final(out)@),
            !found ==> final(out)@ == old(out)@,
    {
        let ghost obst = self.obstacles@;
        let tx = tree_pos.0 / 4;
        let ty = tree_pos.1 / 4;
        let mut dx: i16 = 0;
        while dx < 3
            invariant
                0 <= dx <= 3,
                tx == tree_pos.0 / 4,
                ty == tree_pos.1 / 4,
                0 <= tx < 8192,
                0 <= ty < 8192,
                in_grid(start.0 as int, start.1 as int),
                self.obstacles@ == obst,
                same_but_search_scratch(*old(self), *self),
                out@.len() == 0,
                out@ == old(out)@,
                first_open_neighbour(obst, start, tx as int, ty as int, 0)
                    == first_open_neighbour(obst, start, tx as int, ty as int, dx * 3),
            decreases 3 - dx,
        {
            let x = tx - 1 + dx;
            let mut dy: i16 = 0;
            while dy < 3
                invariant
                    0 <= dx < 3,
                    0 <= dy <= 3,
                    x == tx - 1 + dx,
                    tx == tree_pos.0 / 4,
                    ty == tree_pos.1 / 4,
                    0 <= tx < 8192,
                    0 <= ty < 8192,
                    in_grid(start.0 as int, start.1 as int),
                    self.obstacles@ == obst,
                    same_but_search_scratch(*old(self), *self),
                    out@.len() == 0,
                    out@ == old(out)@,
                    first_open_neighbour(obst, start, tx as int, ty as int, 0)
                        == first_open_neighbour(obst, start, tx as int, ty as int, dx * 3 + dy),
                decreases 3 - dy,
            {
                let y = ty - 1 + dy;
                let ghost m = dx * 3 + dy;
                proof {
                    assert(m / 3 == dx && m % 3 == dy);
                    assert(neighbour_candidate(tx as int, ty as int, m) == (x as int, y as int));
                }
                if x >= 0 && x <= 39 && y >= 0 && y <= 39 {
                    let ghost before = out@;
                    self.find_path(start, (x as u8, y as u8), out);
                    if out.len() > 0 {
                        return true;
                    }
                }
                dy += 1;
            }
            dx += 1;
        }
        false
    }

    /// Sends a worker standing at a cell corner off towards the store house door.
    fn head_home(&mut self, w: &mut Worker)
        requires
            aligned_cell(old(w).pos),
            old(w).path@.len() == 0,
        ensures
            same_but_search_scratch(*old(self), *final(self)),
            heads_home(old(self).obstacles@, *old(w), *final(w), old(w).bag),
            moving_ok(final(w).pos, 4, final(w).path@),
    {
        let start = ((w.pos.0 / 4) as u8, (w.pos.1 / 4) as u8);
        self.find_path(start, (DOOR_X, DOOR_Y), &mut w.path);
        w.state = WorkerState::CarryCargoToStorage { steps_to_next_dir: STEP_SUB_TICKS };
        proof {
            assert(old(w).path@ =~= Seq::<Direction>::empty());
            lemma_fresh_route(self.obstacles@, w.pos, start, (DOOR_X, DOOR_Y), w.path@);
        }
    }
}


/// Everything but the random source, the search scratch space and the store
/// houses is the same.
pub open spec fn same_but_store(a: GameStage, b: GameStage) -> bool {
    &&& a.obstacles == b.obstacles
    &&& a.current_frame == b.current_frame
    &&& a.tilemap == b.tilemap
    &&& a.world.workers == b.world.workers
    &&& a.world.ripples == b.world.ripples
    &&& a.world.mature == b.world.mature
    &&& a.world.young == b.world.young
    &&& a.world.dead == b.world.dead
}

/// Whether a worker other than `id` has chosen tree `tree_id`.
fn taken_by_other(ti: &[Option<usize>; 3], id: usize, tree_id: usize) -> (r: bool)
    ensures
        r == exists|j: int| 0 <= j < 3 && j != id && ti@[j] == Some(tree_id),
{
    let mut j: usize = 0;
    while j < 3
        invariant
            j <= 3,
            forall|k: int| 0 <= k < j && k != id ==> ti@[k] != Some(tree_id),
        decreases 3 - j,
    {
        if j != id {
            match ti[j] {
                Some(v) => {
                    if v == tree_id {
                        return true;
                    }
                },
                None => {},
            }
        }
        j += 1;
    }
    false
}

/// Moves a worker one pixel along the first step of its path.
fn walk_pixel(w: &mut Worker, s: u8)
    requires
        moving_ok(old(w).pos, s, old(w).path@),
        s > 0,
    ensures
        final(w).pos == step_pos(old(w).pos, old(w).path@),
        final(w).path@ == old(w).path@,
        final(w).bag == old(w).bag,
        final(w).target == old(w).target,
        final(w).state == old(w).state,
{
    proof {
        lemma_moving_advance(w.pos, s, w.path@);
    }
    if w.path.len() > 0 {
        match w.path[0] {
            Direction::Left => {
                w.pos.0 = w.pos.0 - 1;
            },
            Direction::Right => {
                w.pos.0 = w.pos.0 + 1;
            },
            Direction::Up => {
                w.pos.1 = w.pos.1 - 1;
            },
            Direction::Down => {
                w.pos.1 = w.pos.1 + 1;
            },
            _ => {},
        }
    }
}

impl GameStage {
    /// One update of one worker; `ti` are the workers' tree indices and
    /// `trees` the mature trees.
    #[verifier::rlimit(30)]
    fn step_worker(&mut self, w: &mut Worker, id: usize, ti: &[Option<usize>; 3], trees: &mut Vec<MatureTree>)
        requires
            worker_ok(*old(w)),
            id < 3,
            forall|j: int| 0 <= j < 3 ==> (#[trigger] ti@[j] matches Some(k) ==> k < old(trees)@.len()),
            forall|k: int| 0 <= k < old(trees)@.len() ==> nonneg_pos(#[trigger] old(trees)@[k].1),
            old(w).state == (WorkerState::GettingRidOfCargo { ticks_to_next_state: 0 })
                ==> old(self).world.store@.len() > 0,
            old(self).world.store@.len() > 0 ==>
                old(self).world.store@[0].1.count_items + unload_of(*old(w)) <= u64::MAX,
            old(w).state == WorkerState::Idle && ti@[id as int] is None ==> exists|r: int|
                findable(old(self).obstacles@, worker_cell(*old(w)), old(trees)@, ti@, id as int, r),
        ensures
            worker_ok(*final(w)),
            worker_step(old(self).obstacles@, *old(w), *final(w), id as int, ti@, old(trees)@,
                final(trees)@, old(self).world.store@, final(self).world.store@,
                old(self).rnd_gen.state, final(self).rnd_gen.state),
            same_but_store(*old(self), *final(self)),
            final(self).world.store@.len() == old(self).world.store@.len(),
            final(self).world.store@.len() > 0 ==> final(self).world.store@[0].1.count_items
                == old(self).world.store@[0].1.count_items + unload_of(*old(w)),
            forall|k: int| 0 <= k < old(self).world.store@.len() ==>
                (#[trigger] final(self).world.store@[k]).1.count_items >= old(self).world.store@[k].1.count_items,
            final(trees)@.len() == old(trees)@.len(),
            forall|k: int| 0 <= k < old(trees)@.len() ==>
                (#[trigger] final(trees)@[k]).2.amount <= old(trees)@[k].2.amount,
            forall|k: int| 0 <= k < old(trees)@.len() ==> (#[trigger] final(trees)@[k]).1 == old(trees)@[k].1,
    {
        let ghost obst = self.obstacles@;
        match w.state {
            WorkerState::Idle => {
                let worker_pos = ((w.pos.0 / 4) as u8, (w.pos.1 / 4) as u8);
                match ti[id] {
                    Some(tree_id) => {
                        let tp = trees[tree_id].1;
                        if self.path_to_tree(worker_pos, tp, &mut w.path) {
                            w.state = WorkerState::WalkingToTree { steps_to_next_dir: STEP_SUB_TICKS };
                            proof {
                                assert(old(w).path@ =~= Seq::<Direction>::empty());
                                lemma_fresh_route(obst, w.pos, worker_pos,
                                    tree_approach(obst, worker_pos, tp)->0, w.path@);
                            }
                        }
                    },
                    None => {
                        proof {
                            let r = choose|r: int| findable(obst, worker_pos, trees@, ti@, id as int, r);
                            assert(findable(obst, worker_pos, trees@, ti@, id as int, r));
                        }
                        let hi = #[verifier::truncate] ((trees.len() - 1) as u16);
                        proof {
                            let n = (trees.len() - 1) as usize;
                            assert((n as u16) as usize <= n) by (bit_vector);
                        }
                        let ghost st0 = self.rnd_gen.state;
                        let ghost found = tree_search(obst, worker_pos, trees@, ti@, id as int, st0,
                            SEARCH_DRAWS as nat);
                        proof {
                            lemma_tree_search_found(obst, worker_pos, trees@, ti@, id as int, st0,
                                SEARCH_DRAWS as nat);
                        }
                        let mut attempts: usize = 0;
                        while attempts < SEARCH_DRAWS
                            invariant_except_break
                                only_state_changes(*old(w), *w, WorkerState::Idle),
                                tree_search(obst, worker_pos, trees@, ti@, id as int, self.rnd_gen.state,
                                    (SEARCH_DRAWS - attempts) as nat) == found,
                            invariant
                                attempts <= SEARCH_DRAWS,
                                hi < trees@.len(),
                                hi as int == draw_bound(trees@.len() as int),
                                trees@ == old(trees)@,
                                worker_pos == worker_cell(*old(w)),
                                worker_ok(*old(w)),
                                old(w).state == WorkerState::Idle,
                                self.obstacles@ == obst,
                                obst == old(self).obstacles@,
                                same_but_store(*old(self), *self),
                                self.world.store == old(self).world.store,
                                forall|k: int| 0 <= k < old(trees)@.len() ==> nonneg_pos(#[trigger] old(trees)@[k].1),
                                found == tree_search(obst, worker_pos, trees@, ti@, id as int, st0,
                                    SEARCH_DRAWS as nat),
                            ensures
                                found.1 == self.rnd_gen.state,
                                found.0 is None ==> only_state_changes(*old(w), *w, WorkerState::Idle),
                                found.0 matches Some(r) ==> {
                                    &&& 0 <= r < trees@.len()
                                    &&& w.target == Some(TargetTree { tree_id: r as usize,
                                        tree_x: trees@[r].1.0, tree_y: trees@[r].1.1 })
                                    &&& sets_off(obst, *old(w), *w, trees@[r].1)
                                    &&& w.pos == old(w).pos
                                    &&& w.bag == old(w).bag
                                    &&& moving_ok(w.pos, 4, w.path@)
                                },
                                self.obstacles@ == obst,
                                same_but_store(*old(self), *self),
                                self.world.store == old(self).world.store,
                            decreases SEARCH_DRAWS - attempts,
                        {
                            let ghost st = self.rnd_gen.state;
                            let ghost left = (SEARCH_DRAWS - attempts) as nat;
                            attempts += 1;
                            let random_id = self.rnd_gen.gen_range(0, hi) as usize;
                            proof {
                                assert(tree_search(obst, worker_pos, trees@, ti@, id as int, st, left)
                                    == (if trees@[random_id as int].2.amount != 0
                                        && !(exists|j: int| 0 <= j < 3 && j != id && ti@[j] == Some(random_id))
                                        && tree_approach(obst, worker_pos, trees@[random_id as int].1) is Some {
                                        (Some(random_id as int), self.rnd_gen.state)
                                    } else {
                                        tree_search(obst, worker_pos, trees@, ti@, id as int, self.rnd_gen.state,
                                            (left - 1) as nat)
                                    }));
                            }
                            if trees[random_id].2.amount == 0 {
                                continue;
                            }
                            if taken_by_other(ti, id, random_id) {
                                continue;
                            }
                            let tp = trees[random_id].1;
                            if self.path_to_tree(worker_pos, tp, &mut w.path) {
                                w.target = Some(TargetTree { tree_id: random_id, tree_x: tp.0, tree_y: tp.1 });
                                w.state = WorkerState::WalkingToTree { steps_to_next_dir: STEP_SUB_TICKS };
                                proof {
                                    assert(old(w).path@ =~= Seq::<Direction>::empty());
                                    lemma_fresh_route(obst, w.pos, worker_pos,
                                        tree_approach(obst, worker_pos, tp)->0, w.path@);
                                    assert(trees@[random_id as int].1 == tp);
                                }
                                break;
                            }
                        }
                        if w.state == WorkerState::Idle {
                            let ghost ff = first_findable(obst, worker_pos, trees@, ti@, id as int, 0);
                            let mut i: usize = 0;
                            while i < trees.len()
                                invariant_except_break
                                    only_state_changes(*old(w), *w, WorkerState::Idle),
                                    first_findable(obst, worker_pos, trees@, ti@, id as int, i as int) == ff,
                                invariant
                                    i <= trees@.len(),
                                    trees@ == old(trees)@,
                                    worker_pos == worker_cell(*old(w)),
                                    worker_ok(*old(w)),
                                    old(w).state == WorkerState::Idle,
                                    self.obstacles@ == obst,
                                    obst == old(self).obstacles@,
                                    same_but_store(*old(self), *self),
                                    self.world.store == old(self).world.store,
                                    forall|k: int| 0 <= k < old(trees)@.len() ==> nonneg_pos(#[trigger] old(trees)@[k].1),
                                    ff == first_findable(obst, worker_pos, trees@, ti@, id as int, 0),
                                    found.1 == self.rnd_gen.state,
                                ensures
                                    ff is None ==> only_state_changes(*old(w), *w, WorkerState::Idle),
                                    ff matches Some(r) ==> {
                                        &&& 0 <= r < trees@.len()
                                        &&& w.target == Some(TargetTree { tree_id: r as usize,
                                            tree_x: trees@[r].1.0, tree_y: trees@[r].1.1 })
                                        &&& sets_off(obst, *old(w), *w, trees@[r].1)
                                        &&& w.pos == old(w).pos
                                        &&& w.bag == old(w).bag
                                        &&& moving_ok(w.pos, 4, w.path@)
                                    },
                                    self.obstacles@ == obst,
                                    same_but_store(*old(self), *self),
                                    self.world.store == old(self).world.store,
                                    found.1 == self.rnd_gen.state,
                                decreases trees@.len() - i,
                            {
                                if trees[i].2.amount != 0 && !taken_by_other(ti, id, i) {
                                    let tp = trees[i].1;
                                    if self.path_to_tree(worker_pos, tp, &mut w.path) {
                                        w.target = Some(TargetTree { tree_id: i, tree_x: tp.0, tree_y: tp.1 });
                                        w.state = WorkerState::WalkingToTree { steps_to_next_dir: STEP_SUB_TICKS };
                                        proof {
                                            assert(old(w).path@ =~= Seq::<Direction>::empty());
                                            lemma_fresh_route(obst, w.pos, worker_pos,
                                                tree_approach(obst, worker_pos, tp)->0, w.path@);
                                            assert(findable(obst, worker_pos, trees@, ti@, id as int, i as int));
                                        }
                                        break;
                                    }
                                }
                                i += 1;
                            }
                        }
                    },
                }
            },
            WorkerState::WalkingToTree { steps_to_next_dir } => {
                if steps_to_next_dir == 0 {
                    proof {
                        lemma_moving_pop(w.pos, w.path@);
                    }
                    w.path.pop_front();
                    if w.path.len() == 0 {
                        w.state = WorkerState::ChoppingTree { ticks_to_next_chop: CHOP_TICKS };
                    } else {
                        w.state = WorkerState::WalkingToTree { steps_to_next_dir: STEP_SUB_TICKS };
                    }
                    proof {
                        if old(w).path@.len() > 0 {
                            assert(w.path@ =~= old(w).path@.drop_first());
                        }
                    }
                } else {
                    proof {
                        lemma_moving_advance(w.pos, steps_to_next_dir, w.path@);
                    }
                    walk_pixel(w, steps_to_next_dir);
                    w.state = WorkerState::WalkingToTree { steps_to_next_dir: steps_to_next_dir - 1 };
                }
            },
            WorkerState::ChoppingTree { ticks_to_next_chop } => {
                if ticks_to_next_chop == 0 {
                    match ti[id] {
                        None => {
                            self.head_home(w);
                        },
                        Some(tree_id) => {
                            let hp = trees[tree_id].2;
                            if hp.amount == 0 {
                                self.head_home(w);
                            } else {
                                let t = trees[tree_id];
                                trees[tree_id] = (t.0, t.1, HealthPoints { amount: hp.amount - 1 });
                                w.bag.count_items = w.bag.count_items + 1;
                                if w.bag.count_items == w.bag.max_items {
                                    self.head_home(w);
                                }
                            }
                        },
                    }
                } else {
                    w.state = WorkerState::ChoppingTree { ticks_to_next_chop: ticks_to_next_chop - 1 };
                }
            },
            WorkerState::CarryCargoToStorage { steps_to_next_dir } => {
                if steps_to_next_dir == 0 {
                    proof {
                        lemma_moving_pop(w.pos, w.path@);
                    }
                    w.path.pop_front();
                    if w.path.len() == 0 {
                        w.state = WorkerState::GettingRidOfCargo { ticks_to_next_state: CHOP_TICKS / 2 };
                    } else {
                        w.state = WorkerState::CarryCargoToStorage { steps_to_next_dir: STEP_SUB_TICKS };
                    }
                    proof {
                        if old(w).path@.len() > 0 {
                            assert(w.path@ =~= old(w).path@.drop_first());
                        }
                    }
                } else {
                    proof {
                        lemma_moving_advance(w.pos, steps_to_next_dir, w.path@);
                    }
                    walk_pixel(w, steps_to_next_dir);
                    w.state = WorkerState::CarryCargoToStorage { steps_to_next_dir: steps_to_next_dir - 1 };
                }
            },
            WorkerState::GettingRidOfCargo { ticks_to_next_state } => {
                if ticks_to_next_state > 0 {
                    w.state = WorkerState::GettingRidOfCargo { ticks_to_next_state: ticks_to_next_state - 1 };
                } else {
                    let entry = self.world.store[0];
                    self.world.store[0] = (entry.0, StoreHouse {
                        count_items: entry.1.count_items + w.bag.count_items as u64,
                    });
                    w.bag.count_items = 0;
                    w.state = WorkerState::Idle;
                }
            },
        }
    }
}


/// What worker `w` brings to the store house in one update: its bag when it
/// is done unloading, nothing otherwise.
pub open spec fn unload_of(w: Worker) -> int {
    if w.state == (WorkerState::GettingRidOfCargo { ticks_to_next_state: 0 }) {
        w.bag.count_items as int
    } else {
        0
    }
}

/// What the workers `ws` bring to the store house in one update.
pub open spec fn unloads(ws: Seq<Worker>) -> int
    decreases ws.len(),
{
    if ws.len() == 0 {
        0
    } else {
        unloads(ws.drop_last()) + unload_of(ws.last())
    }
}

/// The unloads of the first `k` workers, one worker at a time, stay within
/// the unloads of all of them.
pub proof fn lemma_unloads_prefix(ws: Seq<Worker>, k: int)
    requires
        0 <= k < ws.len(),
    ensures
        unloads(ws.take(k + 1)) == unloads(ws.take(k)) + unload_of(ws[k]),
        unloads(ws.take(k + 1)) <= unloads(ws),
        unloads(ws.take(k)) >= 0,
    decreases ws.len(),
{
    assert(ws.take(k + 1).drop_last() =~= ws.take(k));
    lemma_unloads_nonneg(ws.take(k));
    if k + 1 < ws.len() {
        lemma_unloads_prefix(ws.drop_last(), k);
        assert(ws.drop_last().take(k + 1) =~= ws.take(k + 1));
        assert(ws.drop_last().take(k) =~= ws.take(k));
    } else {
        assert(ws.take(k + 1) =~= ws);
    }
}

proof fn lemma_unloads_nonneg(ws: Seq<Worker>)
    ensures
        unloads(ws) >= 0,
    decreases ws.len(),
{
    if ws.len() > 0 {
        lemma_unloads_nonneg(ws.drop_last());
    }
}

/// Worker `w` with its chosen tree replaced by `t`.
pub open spec fn with_target(w: Worker, t: Option<TargetTree>) -> Worker {
    Worker { pos: w.pos, bag: w.bag, path: w.path, target: t, state: w.state }
}


/// One update of all workers: the workers' chosen trees are brought up to
/// date with the mature trees, then worker after worker takes one step
/// (`worker_step`), each seeing the trees and store houses as the workers
/// before it left them. Nothing else in the world changes.
pub open spec fn workers_updated(pre: GameStage, post: GameStage) -> bool {
    let ws = pre.world.workers@;
    let n = ws.len();
    let ti = tree_indices(ws, pre.world.mature@);
    &&& post.world.workers@.len() == n
    &&& post.obstacles == pre.obstacles
    &&& post.current_frame == pre.current_frame
    &&& post.tilemap == pre.tilemap
    &&& post.world.ripples == pre.world.ripples
    &&& post.world.young == pre.world.young
    &&& post.world.dead == pre.world.dead
    &&& exists|ts: Seq<Seq<MatureTree>>, ss: Seq<Seq<StoreEntry>>, rs: Seq<u32>| {
        &&& ts.len() == n + 1
        &&& ss.len() == n + 1
        &&& rs.len() == n + 1
        &&& ts[0] == pre.world.mature@
        &&& ts[n as int] == post.world.mature@
        &&& ss[0] == pre.world.store@
        &&& ss[n as int] == post.world.store@
        &&& rs[0] == pre.rnd_gen.state
        &&& rs[n as int] == post.rnd_gen.state
        &&& forall|k: int| 0 <= k < n ==> #[trigger] worker_step(pre.obstacles@,
            with_target(ws[k], actualized_target(ws[k].target, pre.world.mature@)),
            post.world.workers@[k], k, ti, ts[k], ts[k + 1], ss[k], ss[k + 1], rs[k], rs[k + 1])
    }
}

proof fn lemma_first_tree_from(trees: Seq<MatureTree>, x: i16, y: i16, i: int)
    ensures
        first_tree_from(trees, x, y, i) matches Some(k) ==> 0 <= i <= k < trees.len() && trees[k].1 == (x, y),
    decreases trees.len() - i,
{
    if 0 <= i < trees.len() && trees[i].1 != (x, y) {
        lemma_first_tree_from(trees, x, y, i + 1);
    }
}

proof fn lemma_actualized_in_range(t: Option<TargetTree>, trees: Seq<MatureTree>)
    ensures
        actualized_target(t, trees) matches Some(td) ==> td.tree_id < trees.len(),
{
    if let Some(td) = t {
        lemma_first_tree_from(trees, td.tree_x, td.tree_y, 0);
    }
}

/// A tree chosen by the random search has wood, is not chosen by another
/// worker, has a reachable cell around it and is a real index.
proof fn lemma_tree_search_found(
    obstacles: Seq<u8>,
    start: (u8, u8),
    trees: Seq<MatureTree>,
    ti: Seq<Option<usize>>,
    id: int,
    st: u32,
    n: nat,
)
    requires
        0 < trees.len() <= usize::MAX,
    ensures
        tree_search(obstacles, start, trees, ti, id, st, n).0 matches Some(r) ==> {
            &&& 0 <= r < trees.len()
            &&& trees[r].2.amount != 0
            &&& forall|j: int| 0 <= j < 3 && j != id ==> ti[j] != Some(r as usize)
            &&& tree_approach(obstacles, start, trees[r].1) is Some
        },
    decreases n,
{
    if n > 0 {
        let s1 = xorshift_next(st);
        let hi = draw_bound(trees.len() as int);
        let m = (trees.len() - 1) as usize;
        assert((m as u16) as usize <= m) by (bit_vector);
        assert(hi <= trees.len() - 1);
        let w = s1 as int;
        assert(0 <= w % (hi + 1) < hi + 1) by (nonlinear_arith)
            requires
                hi >= 0,
                w >= 0,
        ;
        lemma_tree_search_found(obstacles, start, trees, ti, id, s1, (n - 1) as nat);
    }
}

/// One worker step moves wood between the tree it chops, its bag and the
/// first store house, never creating or destroying any; the number of
/// mature trees stays.
proof fn lemma_step_wood(
    obstacles: Seq<u8>,
    w: Worker,
    w2: Worker,
    id: int,
    ti: Seq<Option<usize>>,
    t1: Seq<MatureTree>,
    t2: Seq<MatureTree>,
    s1: Seq<StoreEntry>,
    s2: Seq<StoreEntry>,
    r1: u32,
    r2: u32,
)
    requires
        worker_step(obstacles, w, w2, id, ti, t1, t2, s1, s2, r1, r2),
        worker_ok(w),
        0 <= id < 3,
        ti.len() == 3,
        forall|j: int| 0 <= j < 3 ==> (#[trigger] ti[j] matches Some(k) ==> k < t1.len()),
        w.state == (WorkerState::GettingRidOfCargo { ticks_to_next_state: 0 }) ==> s1.len() > 0,
        s1.len() > 0 ==> s1[0].1.count_items + unload_of(w) <= u64::MAX,
    ensures
        w2.bag.count_items - w.bag.count_items
            == (wood_in_trees(t1) - wood_in_trees(t2)) - (wood_in_stores(s2) - wood_in_stores(s1)),
        t2.len() == t1.len(),
        t2 == chop_of(w, ti, id, t1),
{
    match w.state {
        WorkerState::ChoppingTree { ticks_to_next_chop } => {
            if ticks_to_next_chop == 0 {
                if let Some(k) = ti[id] {
                    if t1[k as int].2.amount != 0 {
                        lemma_wood_trees_update(t1, k as int, (t1[k as int].0, t1[k as int].1,
                            HealthPoints { amount: (t1[k as int].2.amount - 1) as u8 }));
                    }
                }
            }
        },
        WorkerState::GettingRidOfCargo { ticks_to_next_state } => {
            if ticks_to_next_state == 0 {
                lemma_wood_stores_update(s1, 0, (s1[0].0, StoreHouse {
                    count_items: (s1[0].1.count_items + w.bag.count_items) as u64 }));
            }
        },
        _ => {},
    }
}

impl GameStage {
    /// Whether worker `id` standing at `start` can choose one of `trees`
    /// (see `findable`); the search space is used for the route searches.
    fn any_findable(&mut self, start: (u8, u8), trees: &Vec<MatureTree>, ti: &[Option<usize>; 3], id: usize)
        -> (r: bool)
        requires
            in_grid(start.0 as int, start.1 as int),
            id < 3,
            forall|k: int| 0 <= k < trees@.len() ==> nonneg_pos(#[trigger] trees@[k].1),
        ensures
            r == exists|t: int| findable(old(self).obstacles@, start, trees@, ti@, id as int, t),
            same_but_search_scratch(*old(self), *final(self)),
    {
        let ghost obst = self.obstacles@;
        let mut i: usize = 0;
        while i < trees.len()
            invariant
                i <= trees@.len(),
                in_grid(start.0 as int, start.1 as int),
                id < 3,
                forall|k: int| 0 <= k < trees@.len() ==> nonneg_pos(#[trigger] trees@[k].1),
                self.obstacles@ == obst,
                obst == old(self).obstacles@,
                same_but_search_scratch(*old(self), *self),
                forall|j: int| 0 <= j < i ==> !#[trigger] findable(obst, start, trees@, ti@, id as int, j),
            decreases trees@.len() - i,
        {
            if trees[i].2.amount != 0 && !taken_by_other(ti, id, i) {
                let mut out: VecDeque<Direction> = VecDeque::new();
                if self.path_to_tree(start, trees[i].1, &mut out) {
                    assert(findable(obst, start, trees@, ti@, id as int, i as int));
                    return true;
                }
            }
            i += 1;
        }
        false
    }

    /// Whether every idle worker of `ws` without a tree finds one among the
    /// mature trees of this stage when its turn comes (see `idle_search_ok`);
    /// the search space is used for the route searches.
    pub(crate) fn idle_search_check(&mut self, ws: &Vec<Worker>) -> (r: bool)
        requires
            ws@.len() <= 3,
            forall|k: int| 0 <= k < ws@.len() ==> #[trigger] worker_ok(ws@[k]),
            forall|k: int| 0 <= k < old(self).world.mature@.len() ==> nonneg_pos(#[trigger] old(self).world.mature@[k].1),
        ensures
            r == idle_search_ok(old(self).obstacles@, ws@, old(self).world.mature@),
            same_but_search_scratch(*old(self), *final(self)),
    {
        let ghost obst = self.obstacles@;
        let ghost m0 = self.world.mature@;
        let ghost tseq = tree_indices(ws@, m0);
        let n = ws.len();
        let mut ti: [Option<usize>; 3] = [None, None, None];
        let mut i: usize = 0;
        while i < n
            invariant
                n == ws@.len(),
                n <= 3,
                i <= n,
                self.world.mature@ == m0,
                tseq == tree_indices(ws@, m0),
                forall|k: int| 0 <= k < i ==> #[trigger] ti@[k] == tseq[k],
                forall|k: int| i <= k < 3 ==> #[trigger] ti@[k] is None,
            decreases n - i,
        {
            let t = Self::actualize_target(ws[i].target, &self.world.mature);
            ti[i] = match t {
                Some(x) => Some(x.tree_id),
                None => None,
            };
            i += 1;
        }
        proof {
            assert(ti@ =~= tseq);
            assert forall|j: int| 0 <= j < 3 implies (#[trigger] ti@[j] matches Some(k) ==> k < m0.len()) by {
                if j < n {
                    lemma_actualized_in_range(ws@[j].target, m0);
                }
            }
        }
        let mut trees = Vec::new();
        let mut j: usize = 0;
        while j < self.world.mature.len()
            invariant
                j <= m0.len(),
                self.world.mature@ == m0,
                trees@ == m0.take(j as int),
            decreases m0.len() - j,
        {
            trees.push(self.world.mature[j]);
            proof {
                assert(m0.take(j + 1) =~= m0.take(j as int).push(m0[j as int]));
            }
            j += 1;
        }
        proof {
            assert(m0.take(m0.len() as int) =~= m0);
        }
        let mut k: usize = 0;
        while k < n
            invariant
                n == ws@.len(),
                n <= 3,
                k <= n,
                ti@ == tseq,
                tseq == tree_indices(ws@, m0),
                forall|j: int| 0 <= j < 3 ==> (#[trigger] ti@[j] matches Some(x) ==> x < m0.len()),
                forall|j: int| 0 <= j < ws@.len() ==> #[trigger] worker_ok(ws@[j]),
                trees@ == trees_before(ws@, tseq, m0, k as int),
                trees@.len() == m0.len(),
                forall|x: int| 0 <= x < trees@.len() ==> (#[trigger] trees@[x]).1 == m0[x].1,
                forall|x: int| 0 <= x < m0.len() ==> nonneg_pos(#[trigger] m0[x].1),
                self.obstacles@ == obst,
                obst == old(self).obstacles@,
                m0 == old(self).world.mature@,
                same_but_search_scratch(*old(self), *self),
                forall|j: int|
                    #![trigger ws@[j]]
                    0 <= j < k && ws@[j].state == WorkerState::Idle && tseq[j] is None ==>
                        exists|t: int| findable(obst, worker_cell(ws@[j]), trees_before(ws@, tseq, m0, j), tseq, j, t),
            decreases n - k,
        {
            if ws[k].state == WorkerState::Idle && ti[k].is_none() {
                let cell = ((ws[k].pos.0 / 4) as u8, (ws[k].pos.1 / 4) as u8);
                proof {
                    assert(worker_ok(ws@[k as int]));
                    assert(cell == worker_cell(ws@[k as int]));
                }
                if !self.any_findable(cell, &trees, &ti, k) {
                    proof {
                        assert(ws@[k as int].state == WorkerState::Idle);
                        assert(!idle_search_ok(obst, ws@, m0));
                    }
                    return false;
                }
            }
            if ws[k].state == (WorkerState::ChoppingTree { ticks_to_next_chop: 0 }) {
                match ti[k] {
                    Some(x) => {
                        if trees[x].2.amount != 0 {
                            let t = trees[x];
                            trees.set(x, (t.0, t.1, HealthPoints { amount: t.2.amount - 1 }));
                        }
                    },
                    None => {},
                }
            }
            proof {
                assert(trees_before(ws@, tseq, m0, k + 1) == chop_of(ws@[k as int], tseq, k as int,
                    trees_before(ws@, tseq, m0, k as int)));
            }
            k += 1;
        }
        true
    }

    /// Updates every worker once (see `workers_updated`).
    #[verifier::rlimit(40)]
    pub fn update_workers(&mut self)
        requires
            old(self).wf(),
            some_unloading(old(self).world.workers@) ==> old(self).world.store@.len() > 0,
            old(self).world.store@.len() > 0 ==> old(self).world.store@[0].1.count_items
                + unloads(old(self).world.workers@) <= u64::MAX,
            idle_search_ok(old(self).obstacles@, old(self).world.workers@, old(self).world.mature@),
        ensures
            final(self).wf(),
            workers_updated(*old(self), *final(self)),
            final(self).world.mature@.len() == old(self).world.mature@.len(),
            forall|k: int| 0 <= k < old(self).world.mature@.len() ==> {
                &&& (#[trigger] final(self).world.mature@[k]).1 == old(self).world.mature@[k].1
                &&& final(self).world.mature@[k].2.amount <= old(self).world.mature@[k].2.amount
            },
            final(self).world.store@.len() == old(self).world.store@.len(),
            forall|k: int| 0 <= k < old(self).world.store@.len() ==>
                (#[trigger] final(self).world.store@[k]).1.count_items >= old(self).world.store@[k].1.count_items,
            stage_wood(*final(self)) == stage_wood(*old(self)),
            tree_count(*final(self)) == tree_count(*old(self)),
            tree_spots(*final(self)) == tree_spots(*old(self)),
    {
        let ghost pre = *self;
        let ghost ws = pre.world.workers@;
        let ghost tseq = tree_indices(ws, pre.world.mature@);
        let mut trees: Vec<MatureTree> = Vec::new();
        std::mem::swap(&mut trees, &mut self.world.mature);
        let mut workers: Vec<Worker> = Vec::new();
        std::mem::swap(&mut workers, &mut self.world.workers);
        let mut ti: [Option<usize>; 3] = [None, None, None];
        let n = workers.len();
        let mut i: usize = 0;
        while i < n
            invariant
                n == ws.len(),
                n <= 3,
                i <= n,
                trees@ == pre.world.mature@,
                workers@.len() == n,
                forall|k: int| 0 <= k < i ==> #[trigger] workers@[k]
                    == with_target(ws[k], actualized_target(ws[k].target, trees@)),
                forall|k: int| i <= k < n ==> #[trigger] workers@[k] == ws[k],
                tseq == tree_indices(ws, pre.world.mature@),
                ws == pre.world.workers@,
                forall|k: int| 0 <= k < i ==> #[trigger] ti@[k] == tseq[k],
                forall|k: int| i <= k < 3 ==> #[trigger] ti@[k] is None,
                wood_in_bags(workers@) == wood_in_bags(ws),
            decreases n - i,
        {
            let t = Self::actualize_target(workers[i].target, &trees);
            let ghost wb = workers@;
            workers[i].target = t;
            proof {
                lemma_wood_bags_update(wb, i as int, workers@[i as int]);
            }
            ti[i] = match t {
                Some(x) => Some(x.tree_id),
                None => None,
            };
            i += 1;
        }
        proof {
            assert(ti@ =~= tseq);
            assert forall|j: int| 0 <= j < 3 implies (#[trigger] ti@[j] matches Some(k) ==> k < trees@.len()) by {
                if j < n {
                    lemma_actualized_in_range(ws[j].target, trees@);
                }
            }
        }
        proof {
            assert forall|k: int| 0 <= k < n implies worker_ok(#[trigger] workers@[k]) by {
                assert(worker_ok(ws[k]));
            }
        }
        let ghost mut ts: Seq<Seq<MatureTree>> = seq![trees@];
        let ghost mut ss: Seq<Seq<StoreEntry>> = seq![self.world.store@];
        let ghost mut rs: Seq<u32> = seq![self.rnd_gen.state];
        let ghost store0 = if pre.world.store@.len() > 0 { pre.world.store@[0].1.count_items as int } else { 0int };
        let mut id: usize = 0;
        while id < n
            invariant
                n == ws.len(),
                n <= 3,
                id <= n,
                ti@ == tseq,
                forall|j: int| 0 <= j < 3 ==> (#[trigger] ti@[j] matches Some(k) ==> k < trees@.len()),
                trees@.len() == pre.world.mature@.len(),
                forall|k: int| 0 <= k < trees@.len() ==> (#[trigger] trees@[k]).1 == pre.world.mature@[k].1,
                workers@.len() == n,
                forall|k: int| id <= k < n ==> #[trigger] workers@[k]
                    == with_target(ws[k], actualized_target(ws[k].target, pre.world.mature@)),
                forall|k: int| 0 <= k < n ==> worker_ok(#[trigger] workers@[k]),
                ts.len() == id + 1,
                ss.len() == id + 1,
                rs.len() == id + 1,
                ts[0] == pre.world.mature@,
                ss[0] == pre.world.store@,
                rs[0] == pre.rnd_gen.state,
                ts[id as int] == trees@,
                ss[id as int] == self.world.store@,
                rs[id as int] == self.rnd_gen.state,
                forall|k: int| 0 <= k < id ==> #[trigger] worker_step(pre.obstacles@,
                    with_target(ws[k], actualized_target(ws[k].target, pre.world.mature@)),
                    workers@[k], k, tseq, ts[k], ts[k + 1], ss[k], ss[k + 1], rs[k], rs[k + 1]),
                self.obstacles == pre.obstacles,
                self.current_frame == pre.current_frame,
                self.tilemap == pre.tilemap,
                self.world.ripples == pre.world.ripples,
                self.world.young == pre.world.young,
                self.world.dead == pre.world.dead,
                self.world.store@.len() == pre.world.store@.len(),
                some_unloading(ws) ==> pre.world.store@.len() > 0,
                trees@ == trees_before(ws, tseq, pre.world.mature@, id as int),
                forall|k: int| 0 <= k < trees@.len() ==>
                    (#[trigger] trees@[k]).2.amount <= pre.world.mature@[k].2.amount,
                forall|k: int| 0 <= k < pre.world.store@.len() ==>
                    (#[trigger] self.world.store@[k]).1.count_items >= pre.world.store@[k].1.count_items,
                self.world.store@.len() > 0 ==> self.world.store@[0].1.count_items
                    == store0 + unloads(ws.take(id as int)),
                pre.world.store@.len() > 0 ==> store0 + unloads(ws) <= u64::MAX,
                idle_search_ok(pre.obstacles@, ws, pre.world.mature@),
                tseq == tree_indices(ws, pre.world.mature@),
                pre.wf(),
                wood_in_bags(workers@) + wood_in_trees(trees@) + wood_in_stores(self.world.store@)
                    == stage_wood(pre),
            decreases n - id,
        {
            proof {
                assert(workers@[id as int].state == ws[id as int].state);
                if workers@[id as int].state == WorkerState::Idle && tseq[id as int] is None {
                    assert(ws[id as int].state == WorkerState::Idle);
                    assert(tree_indices(ws, pre.world.mature@)[id as int] is None);
                    assert(exists|r: int| findable(pre.obstacles@, worker_cell(ws[id as int]),
                        trees_before(ws, tseq, pre.world.mature@, id as int), tseq, id as int, r));
                    let r = choose|r: int| findable(pre.obstacles@, worker_cell(ws[id as int]),
                        trees_before(ws, tseq, pre.world.mature@, id as int), tseq, id as int, r);
                    assert(worker_cell(workers@[id as int]) == worker_cell(ws[id as int]));
                    assert(findable(self.obstacles@, worker_cell(workers@[id as int]), trees@, ti@, id as int, r));
                }
                if ws[id as int].state == (WorkerState::GettingRidOfCargo { ticks_to_next_state: 0 }) {
                    assert(some_unloading(ws));
                }
                lemma_unloads_prefix(ws, id as int);
                assert(unload_of(workers@[id as int]) == unload_of(ws[id as int]));
            }
            let ghost before = workers@;
            self.step_worker(&mut workers[id], id, &ti, &mut trees);
            proof {
                lemma_step_wood(pre.obstacles@, before[id as int], workers@[id as int], id as int, tseq,
                    ts[id as int], trees@, ss[id as int], self.world.store@, rs[id as int], self.rnd_gen.state);
                lemma_wood_bags_update(before, id as int, workers@[id as int]);
                assert(workers@ =~= before.update(id as int, workers@[id as int]));
                ts = ts.push(trees@);
                ss = ss.push(self.world.store@);
                rs = rs.push(self.rnd_gen.state);
                assert forall|k: int| 0 <= k < id + 1 implies #[trigger] worker_step(pre.obstacles@,
                    with_target(ws[k], actualized_target(ws[k].target, pre.world.mature@)),
                    workers@[k], k, tseq, ts[k], ts[k + 1], ss[k], ss[k + 1], rs[k], rs[k + 1]) by {
                    if k < id {
                        assert(workers@[k] == before[k]);
                    }
                }
            }
            id += 1;
        }
        std::mem::swap(&mut trees, &mut self.world.mature);
        std::mem::swap(&mut workers, &mut self.world.workers);
        proof {
            assert forall|k: int| 0 <= k < self.world.mature@.len() implies
                nonneg_pos(#[trigger] self.world.mature@[k].1) by {
                assert(self.world.mature@[k].1 == pre.world.mature@[k].1);
            }
            assert(workers_updated(pre, *self));
            assert(self.world.mature@.map_values(|t: MatureTree| mature_pos(t))
                =~= pre.world.mature@.map_values(|t: MatureTree| mature_pos(t)));
        }
    }
}


/// A worker's chosen tree changes in an update only when the worker is idle
/// without a tree and chooses one. Walking, chopping, carrying and unloading
/// keep the tree it had, brought up to date with the tree list.
pub proof fn law_target_kept(pre: GameStage, post: GameStage, k: int)
    requires
        pre.wf(),
        workers_updated(pre, post),
        0 <= k < pre.world.workers@.len(),
        !(pre.world.workers@[k].state == WorkerState::Idle
            && actualized_target(pre.world.workers@[k].target, pre.world.mature@) is None),
    ensures
        post.world.workers@[k].target == actualized_target(pre.world.workers@[k].target, pre.world.mature@),
{
    let ws = pre.world.workers@;
    let ti = tree_indices(ws, pre.world.mature@);
    let (ts, ss, rs) = choose|ts: Seq<Seq<MatureTree>>, ss: Seq<Seq<StoreEntry>>, rs: Seq<u32>| {
        &&& ts.len() == ws.len() + 1
        &&& ss.len() == ws.len() + 1
        &&& rs.len() == ws.len() + 1
        &&& ts[0] == pre.world.mature@
        &&& ts[ws.len() as int] == post.world.mature@
        &&& ss[0] == pre.world.store@
        &&& ss[ws.len() as int] == post.world.store@
        &&& rs[0] == pre.rnd_gen.state
        &&& rs[ws.len() as int] == post.rnd_gen.state
        &&& forall|j: int| 0 <= j < ws.len() ==> #[trigger] worker_step(pre.obstacles@,
            with_target(ws[j], actualized_target(ws[j].target, pre.world.mature@)),
            post.world.workers@[j], j, ti, ts[j], ts[j + 1], ss[j], ss[j + 1], rs[j], rs[j + 1])
    };
    let w = with_target(ws[k], actualized_target(ws[k].target, pre.world.mature@));
    assert(worker_step(pre.obstacles@, w, post.world.workers@[k], k, ti, ts[k], ts[k + 1], ss[k], ss[k + 1],
        rs[k], rs[k + 1]));
    if w.state == WorkerState::Idle {
        assert(ti[k] == (match actualized_target(ws[k].target, pre.world.mature@) {
            Some(t) => Some(t.tree_id),
            None => None,
        }));
    }
}

/// A chop puts one more unit of wood in the bag. After a chop the worker
/// heads home exactly when its bag is full; with room left in the bag it
/// keeps chopping where it stands, its path unchanged.
pub proof fn law_chop_until_full(pre: GameStage, post: GameStage, k: int)
    requires
        workers_updated(pre, post),
        0 <= k < pre.world.workers@.len(),
        pre.world.workers@[k].state == (WorkerState::ChoppingTree { ticks_to_next_chop: 0 }),
        post.world.workers@[k].bag.count_items == pre.world.workers@[k].bag.count_items + 1,
    ensures
        post.world.workers@[k].bag.max_items == pre.world.workers@[k].bag.max_items,
        (post.world.workers@[k].state == (WorkerState::CarryCargoToStorage { steps_to_next_dir: 4 }))
            <==> post.world.workers@[k].bag.count_items == post.world.workers@[k].bag.max_items,
        post.world.workers@[k].bag.count_items < post.world.workers@[k].bag.max_items ==> {
            &&& post.world.workers@[k].state == (WorkerState::ChoppingTree { ticks_to_next_chop: 0 })
            &&& post.world.workers@[k].path@ == pre.world.workers@[k].path@
            &&& post.world.workers@[k].pos == pre.world.workers@[k].pos
        },
{
    let ws = pre.world.workers@;
    let ti = tree_indices(ws, pre.world.mature@);
    let (ts, ss, rs) = choose|ts: Seq<Seq<MatureTree>>, ss: Seq<Seq<StoreEntry>>, rs: Seq<u32>| {
        &&& ts.len() == ws.len() + 1
        &&& ss.len() == ws.len() + 1
        &&& rs.len() == ws.len() + 1
        &&& ts[0] == pre.world.mature@
        &&& ts[ws.len() as int] == post.world.mature@
        &&& ss[0] == pre.world.store@
        &&& ss[ws.len() as int] == post.world.store@
        &&& rs[0] == pre.rnd_gen.state
        &&& rs[ws.len() as int] == post.rnd_gen.state
        &&& forall|j: int| 0 <= j < ws.len() ==> #[trigger] worker_step(pre.obstacles@,
            with_target(ws[j], actualized_target(ws[j].target, pre.world.mature@)),
            post.world.workers@[j], j, ti, ts[j], ts[j + 1], ss[j], ss[j + 1], rs[j], rs[j + 1])
    };
    let w = with_target(ws[k], actualized_target(ws[k].target, pre.world.mature@));
    assert(worker_step(pre.obstacles@, w, post.world.workers@[k], k, ti, ts[k], ts[k + 1], ss[k], ss[k + 1],
        rs[k], rs[k + 1]));
}

} // verus!
