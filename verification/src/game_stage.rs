use vstd::prelude::*;
use std::collections::VecDeque;
use crate::grid::Direction;
use crate::objects::Object;
use crate::passability::PassabilitySet;
use crate::random::RndGen;
use crate::tilemap::Tilemap;
use crate::nature::{
    has_wood, is_ripe, mask_of, mature_pos, removed_desc, ripe_promoted, ripples_from, ripples_moved,
    same_but_nature, stumps_revived, swap_keep, young_aged, aged_from,
    grown_up, revived_young, lemma_revived_young,
};
use crate::workers::{idle_search_ok, some_unloading, unloads, worker_ok, workers_updated, lemma_unloads_prefix};
use crate::laws::{stage_wood, tree_count, tree_spots};

verus! {

/// What a worker is doing.
#[derive(Copy, Clone, PartialEq, Eq, Structural, Debug)]
pub enum WorkerState {
    Idle,
    WalkingToTree { steps_to_next_dir: u8 },
    ChoppingTree { ticks_to_next_chop: u8 },
    CarryCargoToStorage { steps_to_next_dir: u8 },
    GettingRidOfCargo { ticks_to_next_state: u8 },
}

/// The mature tree a worker has chosen, by index and by position.
#[derive(Copy, Clone, PartialEq, Eq, Structural, Debug)]
pub struct TargetTree {
    pub tree_id: usize,
    pub tree_x: i16,
    pub tree_y: i16,
}

/// Remaining wood of a mature tree.
#[derive(Copy, Clone, PartialEq, Eq, Structural, Debug)]
pub struct HealthPoints {
    pub amount: u8,
}

/// Growth of a young tree.
#[derive(Copy, Clone, PartialEq, Eq, Structural, Debug)]
pub struct AgePoints {
    pub amount: u16,
}

/// The wood a worker carries.
#[derive(Copy, Clone, PartialEq, Eq, Structural, Debug)]
pub struct Bag {
    pub count_items: u8,
    pub max_items: u8,
}

/// The wood stored in a store house.
#[derive(Copy, Clone, PartialEq, Eq, Structural, Debug)]
pub struct StoreHouse {
    pub count_items: u64,
}

/// Offset at which a water ripple is drawn.
#[derive(Copy, Clone, PartialEq, Eq, Structural, Debug)]
pub struct RippleOffset(pub i8, pub i8);

/// A worker: pixel position, bag, remaining path (front first), chosen tree
/// and current activity.
pub struct Worker {
    pub pos: (i16, i16),
    pub bag: Bag,
    pub path: VecDeque<Direction>,
    pub target: Option<TargetTree>,
    pub state: WorkerState,
}

/// Everything that lives on the map.
pub struct World {
    pub workers: Vec<Worker>,
    pub ripples: Vec<((i16, i16), RippleOffset)>,
    pub store: Vec<((i16, i16), StoreHouse)>,
    pub mature: Vec<(Object, (i16, i16), HealthPoints)>,
    pub young: Vec<(Object, (i16, i16), AgePoints)>,
    pub dead: Vec<(i16, i16)>,
}

/// A mature tree: kind, pixel position and remaining wood.
pub type MatureTree = (Object, (i16, i16), HealthPoints);

/// A young tree: kind, pixel position and growth.
pub type YoungTree = (Object, (i16, i16), AgePoints);

/// A store house: pixel position and stored wood.
pub type StoreEntry = ((i16, i16), StoreHouse);

/// A water ripple: pixel position and drawing offset.
pub type Ripple = ((i16, i16), RippleOffset);

/// The cell of the store house door, where workers bring their wood.
pub const DOOR_X: u8 = 15;

/// See `DOOR_X`.
pub const DOOR_Y: u8 = 6;

/// Young trees grow every this many frames.
pub const GROW_TICKS: usize = 32;

/// Water ripples move every this many frames.
pub const WATER_ANIMATION_TICKS: usize = 10;

/// Frames between two chops.
pub const CHOP_TICKS: u8 = 48;

/// Frames a worker takes to walk one cell.
pub const STEP_SUB_TICKS: u8 = 4;

/// Growth at which a little oak becomes an oak.
pub const OAK_AGE_TILL_MATURE: u16 = 100;

/// Growth at which a little pine becomes a pine.
pub const PINE_AGE_TILL_MATURE: u16 = 20;

/// Wood of a fresh pine.
pub const PINE_HP_MAX: u8 = 15;

/// Wood of a fresh oak.
pub const OAK_HP_MAX: u8 = 21;

/// Pixel coordinates that are not negative.
pub open spec fn nonneg_pos(p: (i16, i16)) -> bool {
    p.0 >= 0 && p.1 >= 0
}

/// A young tree is a little pine or a little oak that has not outgrown its kind.
pub open spec fn young_ok(t: YoungTree) -> bool {
    ||| t.0 == Object::LittlePine && t.2.amount <= PINE_AGE_TILL_MATURE
    ||| t.0 == Object::LittleOak && t.2.amount <= OAK_AGE_TILL_MATURE
}

/// The whole game: random source, obstacle cells, path search scratch
/// space, frame counter, world and terrain.
pub struct GameStage {
    pub rnd_gen: RndGen,
    pub obstacles: PassabilitySet,
    pub visited_fields: PassabilitySet,
    pub path_buffer: [Direction; 1600],
    pub path_queue: VecDeque<((u8, u8), Direction)>,
    pub current_frame: usize,
    pub world: World,
    pub tilemap: Tilemap,
}

impl GameStage {
    /// The invariant the game keeps: at most three workers, each consistent
    /// with its activity; young trees of the little kinds within their
    /// growth; tree positions not negative.
    pub open spec fn wf(&self) -> bool {
        &&& self.world.workers@.len() <= 3
        &&& forall|i: int| 0 <= i < self.world.workers@.len() ==> #[trigger] worker_ok(self.world.workers@[i])
        &&& forall|i: int| 0 <= i < self.world.mature@.len() ==> nonneg_pos(#[trigger] self.world.mature@[i].1)
        &&& forall|i: int| 0 <= i < self.world.young@.len() ==>
            young_ok(#[trigger] self.world.young@[i]) && nonneg_pos(self.world.young@[i].1)
        &&& forall|i: int| 0 <= i < self.world.dead@.len() ==> nonneg_pos(#[trigger] self.world.dead@[i])
    }
}


/// One animation step of the water: the ripples move, nothing else.
pub open spec fn ripples_step(a: GameStage, b: GameStage) -> bool {
    &&& b.world.ripples@ == ripples_from(a.world.ripples@, 0, a.rnd_gen.state).0
    &&& b.rnd_gen.state == ripples_from(a.world.ripples@, 0, a.rnd_gen.state).1
    &&& ripples_moved(a.world.ripples@, b.world.ripples@)
    &&& same_but_nature(a, b)
    &&& b.world.mature == a.world.mature
    &&& b.world.young == a.world.young
    &&& b.world.dead == a.world.dead
}

/// Trees without wood die and become stumps; nothing else changes.
pub open spec fn murder_step(a: GameStage, b: GameStage) -> bool {
    let keep = mask_of(a.world.mature@, |t: MatureTree| has_wood(t));
    &&& b.world.mature@ == swap_keep(a.world.mature@, keep, 0)
    &&& b.world.dead@ == a.world.dead@ + removed_desc(a.world.mature@, keep, 0).map_values(
        |t: MatureTree| mature_pos(t))
    &&& same_but_nature(a, b)
    &&& b.rnd_gen == a.rnd_gen
    &&& b.world.ripples == a.world.ripples
    &&& b.world.young == a.world.young
}

/// One growth step of the trees: stumps come back, ripe young trees become
/// mature, young trees grow.
pub open spec fn grow_step(a: GameStage, b: GameStage) -> bool {
    &&& exists|dead1: Seq<(i16, i16)>, young1: Seq<YoungTree>, young2: Seq<YoungTree>, st1: u32| {
        &&& stumps_revived(a.world.dead@, a.world.young@, a.rnd_gen.state, dead1, young1, st1)
        &&& ripe_promoted(young1, a.world.mature@, young2, b.world.mature@)
        &&& b.world.young@ == aged_from(young2, 0, st1).0
        &&& b.rnd_gen.state == aged_from(young2, 0, st1).1
        &&& young_aged(young2, b.world.young@)
        &&& b.world.dead@ == dead1
    }
    &&& same_but_nature(a, b)
    &&& b.world.ripples == a.world.ripples
}

/// The frame counter goes up by one; nothing else changes.
pub open spec fn frame_advanced(a: GameStage, b: GameStage) -> bool {
    &&& b.current_frame == a.current_frame + 1
    &&& b.rnd_gen == a.rnd_gen
    &&& b.obstacles == a.obstacles
    &&& b.visited_fields == a.visited_fields
    &&& b.path_buffer == a.path_buffer
    &&& b.path_queue == a.path_queue
    &&& b.world == a.world
    &&& b.tilemap == a.tilemap
}

/// The generator state once the water has moved (on animation frames).
pub open spec fn rng_after_ripples(s: GameStage) -> u32 {
    if s.current_frame % 10 == 0 {
        ripples_from(s.world.ripples@, 0, s.rnd_gen.state).1
    } else {
        s.rnd_gen.state
    }
}

/// The mature trees once those without wood have died.
pub open spec fn murdered(m: Seq<MatureTree>) -> Seq<MatureTree> {
    swap_keep(m, mask_of(m, |t: MatureTree| has_wood(t)), 0)
}

/// The stumps once the mature trees without wood have died.
pub open spec fn murdered_dead(m: Seq<MatureTree>, d: Seq<(i16, i16)>) -> Seq<(i16, i16)> {
    d + removed_desc(m, mask_of(m, |t: MatureTree| has_wood(t)), 0).map_values(|t: MatureTree| mature_pos(t))
}

/// The mature trees once the ripe ones of `young` have joined them.
pub open spec fn promoted(young: Seq<YoungTree>, mature: Seq<MatureTree>) -> Seq<MatureTree> {
    mature + removed_desc(young, mask_of(young, |t: YoungTree| !is_ripe(t)), 0).map_values(
        |t: YoungTree| grown_up(t))
}

/// The mature trees the workers see in the next frame update of `s`: after
/// the dying trees and, on growth frames, the growth.
pub open spec fn frame_mature(s: GameStage) -> Seq<MatureTree> {
    let m1 = murdered(s.world.mature@);
    if s.current_frame % 32 == 0 {
        let d1 = murdered_dead(s.world.mature@, s.world.dead@);
        promoted(revived_young(d1, s.world.young@, rng_after_ripples(s)), m1)
    } else {
        m1
    }
}

/// The conditions besides `wf` under which a frame update is defined: the
/// frame counter can go up; a store house is there when a worker unloads
/// and can take what the workers unload; and every idle worker without a
/// tree will find one to choose.
pub open spec fn update_allowed(s: GameStage) -> bool {
    &&& s.current_frame < usize::MAX
    &&& some_unloading(s.world.workers@) ==> s.world.store@.len() > 0
    &&& s.world.store@.len() > 0 ==> s.world.store@[0].1.count_items + unloads(s.world.workers@) <= u64::MAX
    &&& idle_search_ok(s.obstacles@, s.world.workers@, frame_mature(s))
}

/// The mature trees after the first three steps of a frame update, from
/// `s0` through `a` and `b` to `c`, are `frame_mature(s0)`.
proof fn lemma_frame_mature(s0: GameStage, a: GameStage, b: GameStage, c: GameStage)
    requires
        if s0.current_frame % 10 == 0 { ripples_step(s0, a) } else { a == s0 },
        murder_step(a, b),
        if s0.current_frame % 32 == 0 { grow_step(b, c) } else { c == b },
    ensures
        c.world.mature@ == frame_mature(s0),
{
    if s0.current_frame % 32 == 0 {
        let (dead1, young1, young2, st1) = choose|dead1: Seq<(i16, i16)>, young1: Seq<YoungTree>,
            young2: Seq<YoungTree>, st1: u32| {
            &&& stumps_revived(b.world.dead@, b.world.young@, b.rnd_gen.state, dead1, young1, st1)
            &&& ripe_promoted(young1, b.world.mature@, young2, c.world.mature@)
            &&& c.world.young@ == aged_from(young2, 0, st1).0
            &&& c.rnd_gen.state == aged_from(young2, 0, st1).1
            &&& young_aged(young2, c.world.young@)
            &&& c.world.dead@ == dead1
        };
        lemma_revived_young(b.world.dead@, b.world.young@, b.rnd_gen.state, dead1, young1, st1);
    }
}

/// A copy of `v`.
fn copy_vec<T: Copy>(v: &Vec<T>) -> (r: Vec<T>)
    ensures
        r@ == v@,
{
    let mut r: Vec<T> = Vec::new();
    let mut i: usize = 0;
    while i < v.len()
        invariant
            i <= v@.len(),
            r@ == v@.take(i as int),
        decreases v@.len() - i,
    {
        r.push(v[i]);
        proof {
            assert(v@.take(i + 1) =~= v@.take(i as int).push(v@[i as int]));
        }
        i += 1;
    }
    proof {
        assert(v@.take(v@.len() as int) =~= v@);
    }
    r
}

impl GameStage {
    /// Whether `update` may run on this stage (see `update_allowed`).
    pub fn update_allowed(&self) -> (r: bool)
        requires
            self.wf(),
        ensures
            r == update_allowed(*self),
    {
        if self.current_frame == usize::MAX {
            return false;
        }
        if self.world.store.len() == 0 && self.any_unloading() {
            return false;
        }
        if self.world.store.len() > 0 {
            let unload = self.unload_total();
            let n = self.world.workers.len();
            assert(unload <= 255 * n);
            if self.world.store[0].1.count_items as u128 + unload > u64::MAX as u128 {
                return false;
            }
        }
        self.frame_search_ok()
    }

    /// Whether some worker is about to unload (see `some_unloading`).
    fn any_unloading(&self) -> (r: bool)
        ensures
            r == some_unloading(self.world.workers@),
    {
        let mut i: usize = 0;
        while i < self.world.workers.len()
            invariant
                i <= self.world.workers@.len(),
                forall|k: int| 0 <= k < i ==> (#[trigger] self.world.workers@[k]).state
                    != (WorkerState::GettingRidOfCargo { ticks_to_next_state: 0 }),
            decreases self.world.workers@.len() - i,
        {
            if self.world.workers[i].state == (WorkerState::GettingRidOfCargo { ticks_to_next_state: 0 }) {
                assert(some_unloading(self.world.workers@)) by {
                    assert(self.world.workers@[i as int].state
                        == (WorkerState::GettingRidOfCargo { ticks_to_next_state: 0 }));
                }
                return true;
            }
            i += 1;
        }
        false
    }

    /// Whether every idle worker without a tree will find one in the next
    /// update (see `idle_search_ok` and `frame_mature`): the dying and the
    /// growth of the trees run on a copy of the trees, then the search runs
    /// on the copy.
    fn frame_search_ok(&self) -> (r: bool)
        requires
            self.wf(),
        ensures
            r == idle_search_ok(self.obstacles@, self.world.workers@, frame_mature(*self)),
    {
        let mut sim = GameStage {
            rnd_gen: RndGen { state: self.rnd_gen.state },
            obstacles: self.obstacles,
            visited_fields: self.visited_fields,
            path_buffer: self.path_buffer,
            path_queue: VecDeque::new(),
            current_frame: self.current_frame,
            world: World {
                workers: Vec::new(),
                ripples: copy_vec(&self.world.ripples),
                store: Vec::new(),
                mature: copy_vec(&self.world.mature),
                young: copy_vec(&self.world.young),
                dead: copy_vec(&self.world.dead),
            },
            tilemap: self.tilemap,
        };
        let ghost s0 = sim;
        if sim.current_frame % WATER_ANIMATION_TICKS == 0 {
            sim.update_ripples();
        }
        let ghost a = sim;
        sim.murder_trees();
        let ghost b = sim;
        if sim.current_frame % GROW_TICKS == 0 {
            sim.grow_trees();
        }
        let ghost c = sim;
        proof {
            if s0.current_frame % 10 == 0 {
                assert(ripples_step(s0, a));
            } else {
                assert(a == s0);
            }
            assert(murder_step(a, b));
            if s0.current_frame % 32 == 0 {
                assert(grow_step(b, c));
            } else {
                assert(c == b);
            }
            lemma_frame_mature(s0, a, b, c);
            assert(frame_mature(s0) == frame_mature(*self));
            assert forall|k: int| 0 <= k < self.world.workers@.len() implies
                #[trigger] worker_ok(self.world.workers@[k]) by {}
        }
        sim.idle_search_check(&self.world.workers)
    }

    /// What the workers unload into the store house in the next update
    /// (see `unloads`).
    fn unload_total(&self) -> (r: u128)
        ensures
            r == unloads(self.world.workers@),
            r <= 255 * self.world.workers@.len(),
    {
        let ghost ws = self.world.workers@;
        let mut total: u128 = 0;
        let mut i: usize = 0;
        while i < self.world.workers.len()
            invariant
                ws == self.world.workers@,
                i <= ws.len(),
                total == unloads(ws.take(i as int)),
                total <= 255 * i,
            decreases ws.len() - i,
        {
            proof {
                lemma_unloads_prefix(ws, i as int);
            }
            let w = &self.world.workers[i];
            if w.state == (WorkerState::GettingRidOfCargo { ticks_to_next_state: 0 }) {
                total = total + w.bag.count_items as u128;
            }
            i += 1;
        }
        proof {
            assert(ws.take(ws.len() as int) =~= ws);
        }
        total
    }

    /// One frame of the game: every `WATER_ANIMATION_TICKS` frames the water
    /// ripples move; dead trees fall; every `GROW_TICKS` frames the trees
    /// grow; the workers act; the frame counter goes up.
    pub fn update(&mut self)
        requires
            old(self).wf(),
            update_allowed(*old(self)),
        ensures
            final(self).wf(),
            exists|a: GameStage, b: GameStage, c: GameStage, d: GameStage| {
                &&& (if old(self).current_frame % 10 == 0 { ripples_step(*old(self), a) } else { a == *old(self) })
                &&& murder_step(a, b)
                &&& (if old(self).current_frame % 32 == 0 { grow_step(b, c) } else { c == b })
                &&& workers_updated(c, d)
                &&& frame_advanced(d, *final(self))
            },
            tree_count(*final(self)) == tree_count(*old(self)),
            tree_spots(*final(self)) == tree_spots(*old(self)),
            stage_wood(*final(self)) >= stage_wood(*old(self)),
            old(self).current_frame % 32 != 0 ==> stage_wood(*final(self)) == stage_wood(*old(self)),
    {
        let ghost s0 = *self;
        if self.current_frame % WATER_ANIMATION_TICKS == 0 {
            self.update_ripples();
        }
        let ghost a = *self;
        self.murder_trees();
        let ghost b = *self;
        if self.current_frame % GROW_TICKS == 0 {
            self.grow_trees();
        }
        let ghost c = *self;
        proof {
            if s0.current_frame % 10 == 0 {
                assert(ripples_step(s0, a));
            } else {
                assert(a == s0);
            }
            assert(murder_step(a, b));
            if s0.current_frame % 32 == 0 {
                assert(grow_step(b, c));
            } else {
                assert(c == b);
            }
            lemma_frame_mature(s0, a, b, c);
            assert(c.world.workers == s0.world.workers);
            assert(c.world.store == s0.world.store);
            assert(c.obstacles == s0.obstacles);
        }
        self.update_workers();
        let ghost d = *self;
        self.current_frame += 1;
        proof {
            assert(frame_advanced(d, *self));
            if s0.current_frame % 10 == 0 {
                assert(ripples_step(s0, a));
            } else {
                assert(a == s0);
            }
            assert(murder_step(a, b));
            if s0.current_frame % 32 == 0 {
                assert(grow_step(b, c));
            } else {
                assert(c == b);
            }
            assert(workers_updated(c, d));
        }
    }
}

} // verus!
