use std::collections::VecDeque;

use lumber_stage::game_stage::{
    AgePoints, Bag, GameStage, HealthPoints, RippleOffset, StoreHouse, Worker, WorkerState, DOOR_X,
    DOOR_Y, OAK_HP_MAX, PINE_HP_MAX,
};
use lumber_stage::grid::Direction;
use lumber_stage::objects::{DrawCommand, Object, TerrainWangTile};
use lumber_stage::random::RndGen;
use lumber_stage::render::sort_for_drawing;
use lumber_stage::tilemap::Tilemap;

fn xorshift(s: u32) -> u32 {
    let a = s ^ (s << 13);
    let b = a ^ (a >> 17);
    b ^ (b << 5)
}

fn block(o: Object, x: i32, y: i32) -> Vec<DrawCommand> {
    o.blit(x, y)
}

fn set_obstacle(stage: &mut GameStage, x: usize, y: usize) {
    let idx = y * 40 + x;
    stage.obstacles[idx / 8] |= 1u8 << (idx % 8);
}

/// Follows `dirs` from `start`, checking that every step lands on a passable
/// grid cell, and returns where the walk ends.
fn walk(stage: &GameStage, start: (u8, u8), dirs: &[Direction]) -> (u8, u8) {
    let (mut x, mut y) = (start.0 as i32, start.1 as i32);
    for d in dirs {
        match d {
            Direction::Up => y -= 1,
            Direction::Down => y += 1,
            Direction::Left => x -= 1,
            Direction::Right => x += 1,
            Direction::Nowhere => panic!("a route holds no empty step"),
        }
        assert!((0..40).contains(&x) && (0..40).contains(&y));
        assert!(stage.is_passable((x as u8, y as u8)));
    }
    (x as u8, y as u8)
}

fn stage_wood(stage: &GameStage) -> u64 {
    let trees: u64 = stage.world.mature.iter().map(|t| t.2.amount as u64).sum();
    let bags: u64 = stage.world.workers.iter().map(|w| w.bag.count_items as u64).sum();
    let stores: u64 = stage.world.store.iter().map(|s| s.1.count_items).sum();
    trees + bags + stores
}

fn tree_count(stage: &GameStage) -> usize {
    stage.world.mature.len() + stage.world.young.len() + stage.world.dead.len()
}

fn started() -> GameStage {
    let mut stage = GameStage::new();
    stage.start();
    stage
}

#[test]
fn rnd_new_starts_from_seed() {
    assert_eq!(RndGen::new().state, 0x2545_f491);
}

#[test]
fn rnd_next_word_is_xorshift() {
    let mut r = RndGen::new();
    let w1 = r.next_word();
    assert_eq!(w1, xorshift(0x2545_f491));
    assert_eq!(r.state, w1);
    let w2 = r.next_word();
    assert_eq!(w2, xorshift(w1));
    assert_ne!(w1, w2);
}

#[test]
fn rnd_gen_range_exact_value() {
    let mut r = RndGen::new();
    let v = r.gen_range(10, 20);
    let w = xorshift(0x2545_f491);
    assert_eq!(v as u32, 10 + w % 11);
    assert_eq!(r.state, w);
}

#[test]
fn rnd_gen_range_stays_inside() {
    let mut r = RndGen::new();
    for _ in 0..2000 {
        let v = r.gen_range(3, 7);
        assert!((3..=7).contains(&v));
    }
    assert_eq!(r.gen_range(9, 9), 9);
    let mut seen = [false; 5];
    for _ in 0..500 {
        seen[(r.gen_range(0, 4)) as usize] = true;
    }
    assert!(seen.iter().all(|s| *s));
}

#[test]
fn rnd_gen_range_signed() {
    let mut r = RndGen::new();
    for _ in 0..2000 {
        let v = r.gen_range_i(-5, 5);
        assert!((-5..=5).contains(&v));
    }
    let mut r2 = RndGen::new();
    let v = r2.gen_range_i(-2, 2);
    assert_eq!(v as i32, -2 + (xorshift(0x2545_f491) % 5) as i32);
    assert_eq!(r2.gen_range_i(-1, -1), -1);
}

#[test]
fn blit_pine_is_two_by_three_block() {
    let got = block(Object::Pine, 20, 30);
    let mut want = Vec::new();
    for j in 0..3 {
        for i in 0..2 {
            want.push(DrawCommand::Sprite { tile: 5 + j * 16 + i, x: 12 + 8 * i as i32, y: 14 + 8 * j as i32 });
        }
    }
    assert_eq!(got, want);
}

#[test]
fn blit_oak_starts_at_tile_seven() {
    let got = block(Object::Oak, 8, 16);
    assert_eq!(got.len(), 6);
    assert_eq!(got[0], DrawCommand::Sprite { tile: 7, x: 0, y: 0 });
    assert_eq!(got[5], DrawCommand::Sprite { tile: 7 + 16 * 2 + 1, x: 8, y: 16 });
}

#[test]
fn blit_big_house_is_three_by_four_block() {
    let got = block(Object::BigHouse, 64, 12);
    assert_eq!(got.len(), 12);
    assert_eq!(got[0], DrawCommand::Sprite { tile: 9, x: 56, y: 4 });
    assert_eq!(got[2], DrawCommand::Sprite { tile: 11, x: 72, y: 4 });
    assert_eq!(got[3], DrawCommand::Sprite { tile: 25, x: 56, y: 12 });
    assert_eq!(got[11], DrawCommand::Sprite { tile: 9 + 3 * 16 + 2, x: 72, y: 28 });
}

#[test]
fn blit_small_objects_are_single_sprites() {
    assert_eq!(block(Object::LittlePine, 10, 20), vec![DrawCommand::Sprite { tile: 52, x: 6, y: 12 }]);
    assert_eq!(block(Object::LittleOak, 10, 20), vec![DrawCommand::Sprite { tile: 53, x: 6, y: 12 }]);
    assert_eq!(block(Object::Stump, 10, 20), vec![DrawCommand::Sprite { tile: 53, x: 6, y: 16 }]);
    assert_eq!(block(Object::Worker, 10, 20), vec![DrawCommand::Sprite { tile: 14, x: 9, y: 13 }]);
}

#[test]
fn wang_tile_lookup() {
    assert_eq!(TerrainWangTile { bits: 0 }.blit(4, 6), None);
    let table = [20usize, 19, 1, 4, 16, 36, 0, 3, 35, 18, 2, 33, 32, 34, 48];
    for bits in 1u8..=15 {
        assert_eq!(
            TerrainWangTile { bits }.blit(4, 6),
            Some(DrawCommand::Tile { tile: table[bits as usize - 1], x: 4, y: 6 })
        );
    }
}

#[test]
fn tilemap_all_water_draws_nothing() {
    let map = Tilemap { map: [0; 441] };
    assert!(map.draw().is_empty());
}

#[test]
fn tilemap_all_land_draws_full_tiles() {
    let map = Tilemap { map: [1; 441] };
    let got = map.draw();
    assert_eq!(got.len(), 400);
    assert_eq!(got[0], DrawCommand::Tile { tile: 48, x: 0, y: 0 });
    assert_eq!(got[21], DrawCommand::Tile { tile: 48, x: 2, y: 2 });
    assert_eq!(got[399], DrawCommand::Tile { tile: 48, x: 38, y: 38 });
}

#[test]
fn tilemap_single_land_corner_touches_four_cells() {
    let mut map = [0u8; 441];
    map[2 * 21 + 3] = 1;
    let got = Tilemap { map }.draw();
    assert_eq!(
        got,
        vec![
            DrawCommand::Tile { tile: 3, x: 4, y: 2 },
            DrawCommand::Tile { tile: 4, x: 6, y: 2 },
            DrawCommand::Tile { tile: 19, x: 4, y: 4 },
            DrawCommand::Tile { tile: 20, x: 6, y: 4 },
        ]
    );
}

#[test]
fn new_stage_is_empty() {
    let stage = GameStage::new();
    assert_eq!(stage.current_frame, 0);
    assert_eq!(stage.rnd_gen.state, 0x2545_f491);
    assert!(stage.world.workers.is_empty());
    assert!(stage.world.mature.is_empty());
    assert!(stage.world.young.is_empty());
    assert!(stage.world.dead.is_empty());
    assert!(stage.world.store.is_empty());
    assert!(stage.world.ripples.is_empty());
    for y in 0..40u8 {
        for x in 0..40u8 {
            assert!(stage.is_passable((x, y)));
        }
    }
}

#[test]
fn start_places_the_village() {
    let stage = started();
    assert_eq!(stage.world.workers.len(), 3);
    assert_eq!(stage.world.store.len(), 1);
    assert_eq!(stage.world.store[0].0, (64, 12));
    assert_eq!(stage.world.store[0].1.count_items, 0);
    assert_eq!(stage.world.mature.len(), 50);
    assert_eq!(stage.world.young.len(), 60);
    assert!(stage.world.dead.is_empty());
    assert_eq!(stage.world.mature[0].0, Object::Pine);
    assert_eq!(stage.world.mature[0].1, (12, 4));
    assert_eq!(stage.world.mature[0].2.amount, PINE_HP_MAX);
    assert_eq!(stage.world.mature[1].0, Object::Oak);
    assert_eq!(stage.world.mature[1].1, (156, 4));
    assert_eq!(stage.world.mature[1].2.amount, OAK_HP_MAX);
    assert_eq!(stage.world.workers[0].pos, (60, 40));
    assert_eq!(stage.world.workers[0].bag.max_items, 3);
    assert_eq!(stage.world.workers[0].state, WorkerState::Idle);
    assert!(stage.world.workers[0].target.is_none());
    for y in young_positions(&stage) {
        assert!(y.0 >= 0 && y.1 >= 0);
    }
    assert!(stage.is_passable((DOOR_X, DOOR_Y)));
    assert!(!stage.is_passable((16, 2)));
    assert!(!stage.is_passable((17, 6)));
    assert!(!stage.is_passable((3, 1)));
    assert!(!stage.is_passable((0, 2)));
    assert!(stage.is_passable((0, 0)));
    for r in stage.world.ripples.iter() {
        assert!((-1..=1).contains(&r.1 .0) && (-1..=1).contains(&r.1 .1));
    }
    assert!(!stage.world.ripples.is_empty());
}

fn young_positions(stage: &GameStage) -> Vec<(i16, i16)> {
    stage.world.young.iter().map(|t| t.1).collect()
}

#[test]
fn find_path_same_cell_adds_nothing() {
    let mut stage = GameStage::new();
    let mut out = VecDeque::new();
    out.push_back(Direction::Left);
    stage.find_path((5, 5), (5, 5), &mut out);
    assert_eq!(out, VecDeque::from(vec![Direction::Left]));
}

#[test]
fn find_path_open_grid_is_manhattan() {
    let mut stage = GameStage::new();
    let mut out = VecDeque::new();
    stage.find_path((0, 0), (3, 2), &mut out);
    assert_eq!(out.len(), 5);
    let dirs: Vec<Direction> = out.iter().copied().collect();
    assert_eq!(walk(&stage, (0, 0), &dirs), (3, 2));
}

#[test]
fn find_path_keeps_earlier_contents() {
    let mut stage = GameStage::new();
    let mut out = VecDeque::new();
    out.push_back(Direction::Up);
    out.push_back(Direction::Up);
    stage.find_path((10, 10), (10, 13), &mut out);
    assert_eq!(out, VecDeque::from(vec![Direction::Up, Direction::Up, Direction::Down, Direction::Down, Direction::Down]));
}

#[test]
fn find_path_goes_around_a_wall_by_the_shortest_way() {
    let mut stage = GameStage::new();
    for y in 0..39 {
        set_obstacle(&mut stage, 5, y);
    }
    let mut out = VecDeque::new();
    stage.find_path((4, 0), (6, 0), &mut out);
    assert_eq!(out.len(), 80);
    let dirs: Vec<Direction> = out.iter().copied().collect();
    assert_eq!(walk(&stage, (4, 0), &dirs), (6, 0));
}

#[test]
fn find_path_without_route_adds_nothing() {
    let mut stage = GameStage::new();
    for y in 0..40 {
        set_obstacle(&mut stage, 5, y);
    }
    let mut out = VecDeque::new();
    out.push_back(Direction::Right);
    stage.find_path((4, 0), (6, 0), &mut out);
    assert_eq!(out, VecDeque::from(vec![Direction::Right]));
}

#[test]
fn find_path_to_blocked_cell_adds_nothing() {
    let mut stage = GameStage::new();
    set_obstacle(&mut stage, 7, 7);
    let mut out = VecDeque::new();
    stage.find_path((0, 0), (7, 7), &mut out);
    assert!(out.is_empty());
    stage.find_path((7, 7), (0, 0), &mut out);
    assert!(out.is_empty());
}

#[test]
fn find_path_from_worker_to_door() {
    let mut stage = started();
    let mut out = VecDeque::new();
    stage.find_path((15, 10), (DOOR_X, DOOR_Y), &mut out);
    assert!(!out.is_empty());
    assert!(out.len() >= 4);
    let dirs: Vec<Direction> = out.iter().copied().collect();
    assert_eq!(walk(&stage, (15, 10), &dirs), (DOOR_X, DOOR_Y));
}

#[test]
fn search_scratch_helpers() {
    let mut stage = GameStage::new();
    stage.clear_visit_set();
    assert!(!stage.is_visited((3, 4)));
    stage.set_visited((3, 4), Direction::Left);
    assert!(stage.is_visited((3, 4)));
    assert!(!stage.is_visited((4, 3)));
    assert_eq!(stage.get_next_path_dir((3, 4)), Direction::Left);
    stage.clear_visit_set();
    assert!(!stage.is_visited((3, 4)));
}

#[test]
fn murder_trees_turns_empty_trees_into_stumps() {
    let mut stage = GameStage::new();
    stage.world.mature = vec![
        (Object::Pine, (0, 0), HealthPoints { amount: 0 }),
        (Object::Oak, (4, 4), HealthPoints { amount: 5 }),
        (Object::Pine, (8, 8), HealthPoints { amount: 0 }),
        (Object::Oak, (12, 12), HealthPoints { amount: 3 }),
    ];
    stage.murder_trees();
    assert_eq!(
        stage.world.mature,
        vec![
            (Object::Oak, (12, 12), HealthPoints { amount: 3 }),
            (Object::Oak, (4, 4), HealthPoints { amount: 5 }),
        ]
    );
    assert_eq!(stage.world.dead, vec![(8, 8), (0, 0)]);
}

#[test]
fn grow_trees_promotes_ripe_young_trees() {
    let mut stage = GameStage::new();
    stage.world.young = vec![
        (Object::LittleOak, (4, 4), AgePoints { amount: 100 }),
        (Object::LittlePine, (8, 8), AgePoints { amount: 3 }),
        (Object::LittlePine, (12, 8), AgePoints { amount: 20 }),
    ];
    let before = tree_count(&stage);
    stage.grow_trees();
    assert_eq!(tree_count(&stage), before);
    assert_eq!(stage.world.mature.len(), 2);
    assert!(stage.world.mature.contains(&(Object::Oak, (4, 4), HealthPoints { amount: OAK_HP_MAX })));
    assert!(stage.world.mature.contains(&(Object::Pine, (12, 8), HealthPoints { amount: PINE_HP_MAX })));
    assert_eq!(stage.world.young.len(), 1);
    assert_eq!(stage.world.young[0].0, Object::LittlePine);
    assert_eq!(stage.world.young[0].1, (8, 8));
    assert!(stage.world.young[0].2.amount == 3 || stage.world.young[0].2.amount == 4);
}

#[test]
fn update_ripples_moves_only_horizontal_offsets() {
    let mut stage = started();
    let before = stage.world.ripples.clone();
    stage.update_ripples();
    assert_eq!(stage.world.ripples.len(), before.len());
    for (a, b) in before.iter().zip(stage.world.ripples.iter()) {
        assert_eq!(a.0, b.0);
        assert_eq!(a.1 .1, b.1 .1);
        assert!((-1..=1).contains(&b.1 .0));
    }
}

#[test]
fn update_allowed_rejects_last_frame() {
    let mut stage = GameStage::new();
    assert!(stage.update_allowed());
    stage.current_frame = usize::MAX;
    assert!(!stage.update_allowed());
}

#[test]
fn update_allowed_rejects_full_store() {
    let mut stage = started();
    stage.world.store[0].1 = StoreHouse { count_items: u64::MAX };
    assert!(stage.update_allowed());
    stage.world.workers[1] = Worker {
        pos: (60, 24),
        bag: Bag { count_items: 2, max_items: 3 },
        path: VecDeque::new(),
        target: None,
        state: WorkerState::GettingRidOfCargo { ticks_to_next_state: 0 },
    };
    assert!(!stage.update_allowed());
    stage.world.store[0].1 = StoreHouse { count_items: u64::MAX - 2 };
    assert!(stage.update_allowed());
    stage.update();
    assert_eq!(stage.world.store[0].1.count_items, u64::MAX);
}

#[test]
fn update_advances_one_frame() {
    let mut stage = started();
    stage.update();
    assert_eq!(stage.current_frame, 1);
    assert_eq!(tree_count(&stage), 110);
}

#[test]
fn many_updates_keep_the_laws() {
    let mut stage = started();
    let trees = tree_count(&stage);
    let mut wood = stage_wood(&stage);
    let mut stored = 0u64;
    let mut frames = 0;
    while frames < 1500 && stage.update_allowed() {
        let frame = stage.current_frame;
        stage.update();
        frames += 1;
        assert_eq!(stage.current_frame, frame + 1);
        assert_eq!(tree_count(&stage), trees);
        let now = stage_wood(&stage);
        assert!(now >= wood);
        if frame % 32 != 0 {
            assert_eq!(now, wood);
        }
        wood = now;
        assert!(stage.world.store[0].1.count_items >= stored);
        stored = stage.world.store[0].1.count_items;
        assert!(stage.world.workers.len() == 3);
        for w in stage.world.workers.iter() {
            assert!(w.pos.0 >= 0 && w.pos.0 < 160 && w.pos.1 >= 0 && w.pos.1 < 160);
            assert!(w.bag.count_items <= w.bag.max_items);
        }
    }
    assert!(frames > 1000);
    assert!(stored > 0);
}

#[test]
fn workers_set_off_towards_trees() {
    let mut stage = started();
    stage.update_workers();
    for w in stage.world.workers.iter() {
        assert!(matches!(w.state, WorkerState::WalkingToTree { .. }));
        let t = w.target.expect("an idle worker chooses a tree");
        assert_eq!(stage.world.mature[t.tree_id].1, (t.tree_x, t.tree_y));
        assert!(!w.path.is_empty());
    }
}

#[test]
fn worker_walks_one_pixel_per_frame() {
    let mut stage = started();
    stage.world.workers.truncate(1);
    let mut path = VecDeque::new();
    path.push_back(Direction::Right);
    path.push_back(Direction::Down);
    stage.world.workers[0] = Worker {
        pos: (60, 40),
        bag: Bag { count_items: 0, max_items: 3 },
        path,
        target: None,
        state: WorkerState::CarryCargoToStorage { steps_to_next_dir: 4 },
    };
    stage.update_workers();
    assert_eq!(stage.world.workers[0].pos, (61, 40));
    assert_eq!(stage.world.workers[0].state, WorkerState::CarryCargoToStorage { steps_to_next_dir: 3 });
}

#[test]
fn worker_empties_bag_into_store() {
    let mut stage = started();
    stage.world.workers.truncate(1);
    stage.world.workers[0] = Worker {
        pos: (60, 24),
        bag: Bag { count_items: 3, max_items: 3 },
        path: VecDeque::new(),
        target: None,
        state: WorkerState::GettingRidOfCargo { ticks_to_next_state: 0 },
    };
    let wood = stage_wood(&stage);
    stage.update_workers();
    assert_eq!(stage.world.store[0].1.count_items, 3);
    assert_eq!(stage.world.workers[0].bag.count_items, 0);
    assert_eq!(stage.world.workers[0].state, WorkerState::Idle);
    assert_eq!(stage_wood(&stage), wood);
}

#[test]
fn sort_for_drawing_is_stable_by_screen_position() {
    let input = vec![
        (Object::Pine, (5, 10)),
        (Object::Worker, (1, 2)),
        (Object::Oak, (5, 10)),
        (Object::Stump, (0, 10)),
        (Object::LittlePine, (9, 2)),
    ];
    let out = sort_for_drawing(&input);
    assert_eq!(
        out,
        vec![
            (Object::Worker, (1, 2)),
            (Object::LittlePine, (9, 2)),
            (Object::Stump, (0, 10)),
            (Object::Pine, (5, 10)),
            (Object::Oak, (5, 10)),
        ]
    );
}

#[test]
fn render_objects_draws_every_object() {
    let stage = started();
    let cmds = stage.render_objects();
    assert_eq!(cmds.len(), 3 + 50 * 6 + 60 + 12);
}

#[test]
fn render_is_ripples_terrain_objects() {
    let stage = started();
    let all = stage.render();
    let ripples = stage.render_ripples();
    let terrain = stage.tilemap.draw();
    let objects = stage.render_objects();
    assert_eq!(all.len(), ripples.len() + terrain.len() + objects.len());
    assert_eq!(&all[..ripples.len()], &ripples[..]);
    assert_eq!(&all[ripples.len()..ripples.len() + terrain.len()], &terrain[..]);
    assert_eq!(&all[ripples.len() + terrain.len()..], &objects[..]);
    let r = stage.world.ripples[0];
    assert_eq!(ripples[0], DrawCommand::Ripple { x: r.0 .0 as i32 + r.1 .0 as i32, y: r.0 .1 as i32 + r.1 .1 as i32 });
}

fn draw(state: &mut u32, lo: i32, hi: i32) -> i32 {
    *state = xorshift(*state);
    lo + (*state % (hi - lo + 1) as u32) as i32
}

#[test]
fn update_ripples_follows_the_draws() {
    let mut stage = GameStage::new();
    stage.world.ripples = vec![((8, 12), RippleOffset(1, -1)), ((20, 4), RippleOffset(0, 1)), ((40, 40), RippleOffset(-1, 0))];
    let mut st = stage.rnd_gen.state;
    let mut want = stage.world.ripples.clone();
    for r in want.iter_mut() {
        if draw(&mut st, 0, 99) <= 40 {
            let off_x = draw(&mut st, -1, 1) as i8;
            r.1 = RippleOffset(off_x, r.1 .1);
        }
    }
    stage.update_ripples();
    assert_eq!(stage.world.ripples, want);
    assert_eq!(stage.rnd_gen.state, st);
}

#[test]
fn young_trees_grow_by_the_draws() {
    let mut stage = GameStage::new();
    stage.world.young = vec![
        (Object::LittlePine, (4, 4), AgePoints { amount: 3 }),
        (Object::LittleOak, (8, 4), AgePoints { amount: 7 }),
        (Object::LittlePine, (12, 4), AgePoints { amount: 0 }),
        (Object::LittleOak, (16, 4), AgePoints { amount: 99 }),
    ];
    let mut st = stage.rnd_gen.state;
    let mut want = stage.world.young.clone();
    for t in want.iter_mut() {
        let chance = if t.0 == Object::LittlePine { 45 } else { 30 };
        if draw(&mut st, 0, 99) < chance {
            t.2.amount += 1;
        }
    }
    stage.grow_trees();
    assert_eq!(stage.world.young, want);
    assert_eq!(stage.rnd_gen.state, st);
    assert!(stage.world.mature.is_empty());
}

fn lone_worker(pos: (i16, i16), bag: u8, path: VecDeque<Direction>, target: Option<lumber_stage::game_stage::TargetTree>, state: WorkerState) -> Worker {
    Worker { pos, bag: Bag { count_items: bag, max_items: 3 }, path, target, state }
}

#[test]
fn chop_without_store_house() {
    let mut stage = GameStage::new();
    stage.world.mature = vec![
        (Object::Oak, (24, 8), HealthPoints { amount: 21 }),
        (Object::Pine, (12, 4), HealthPoints { amount: 15 }),
    ];
    let stale = lumber_stage::game_stage::TargetTree { tree_id: 0, tree_x: 12, tree_y: 4 };
    stage.world.workers = vec![lone_worker((12, 8), 0, VecDeque::new(), Some(stale),
        WorkerState::ChoppingTree { ticks_to_next_chop: 0 })];
    stage.update_workers();
    assert_eq!(stage.world.mature[1].2.amount, 14);
    assert_eq!(stage.world.mature[0].2.amount, 21);
    let w = &stage.world.workers[0];
    assert_eq!(w.bag.count_items, 1);
    assert_eq!(w.target, Some(lumber_stage::game_stage::TargetTree { tree_id: 1, tree_x: 12, tree_y: 4 }));
    assert_eq!(w.state, WorkerState::ChoppingTree { ticks_to_next_chop: 0 });
}

#[test]
fn walk_without_store_house() {
    let mut stage = GameStage::new();
    let path = VecDeque::from(vec![Direction::Right, Direction::Down]);
    stage.world.workers = vec![lone_worker((60, 40), 0, path, None, WorkerState::WalkingToTree { steps_to_next_dir: 4 })];
    for _ in 0..5 {
        stage.update_workers();
    }
    assert_eq!(stage.world.workers[0].pos, (64, 40));
    for _ in 0..5 {
        stage.update_workers();
    }
    assert_eq!(stage.world.workers[0].pos, (64, 44));
    assert!(stage.world.workers[0].path.is_empty());
    assert_eq!(stage.world.workers[0].state, WorkerState::ChoppingTree { ticks_to_next_chop: 48 });
}

#[test]
fn update_allowed_needs_a_tree_to_find() {
    let mut stage = GameStage::new();
    stage.current_frame = 1;
    stage.world.workers = vec![lone_worker((0, 0), 0, VecDeque::new(), None, WorkerState::Idle)];
    stage.world.mature = vec![(Object::Pine, (80, 80), HealthPoints { amount: 5 })];
    assert!(stage.update_allowed());
    for x in 17..24 {
        for y in 17..24 {
            if x == 17 || x == 23 || y == 17 || y == 23 {
                set_obstacle(&mut stage, x, y);
            }
        }
    }
    assert!(!stage.update_allowed());
    stage.world.mature[0].2.amount = 0;
    stage.world.mature.push((Object::Oak, (8, 8), HealthPoints { amount: 0 }));
    assert!(!stage.update_allowed());
    stage.world.mature[1].2.amount = 2;
    assert!(stage.update_allowed());
    stage.update();
    let w = &stage.world.workers[0];
    assert_eq!(w.state, WorkerState::WalkingToTree { steps_to_next_dir: 4 });
    assert_eq!(w.target.map(|t| (t.tree_x, t.tree_y)), Some((8, 8)));
}

#[test]
fn unloading_needs_a_store_house() {
    let mut stage = GameStage::new();
    stage.world.workers = vec![lone_worker((0, 0), 2, VecDeque::new(), None,
        WorkerState::GettingRidOfCargo { ticks_to_next_state: 0 })];
    assert!(!stage.update_allowed());
    stage.world.workers[0].state = WorkerState::GettingRidOfCargo { ticks_to_next_state: 1 };
    assert!(stage.update_allowed());
}

#[test]
fn shortest_routes_are_as_long_both_ways() {
    let mut stage = GameStage::new();
    for y in 0..39 {
        set_obstacle(&mut stage, 5, y);
    }
    let mut there = VecDeque::new();
    let mut back = VecDeque::new();
    stage.find_path((2, 3), (9, 1), &mut there);
    stage.find_path((9, 1), (2, 3), &mut back);
    assert_eq!(there.len(), back.len());
    let dirs: Vec<Direction> = back.iter().copied().collect();
    assert_eq!(walk(&stage, (9, 1), &dirs), (2, 3));
}

#[test]
fn blocked_search_leaves_scratch_alone() {
    let mut stage = GameStage::new();
    let mut out = VecDeque::new();
    stage.find_path((0, 0), (2, 2), &mut out);
    let visited = stage.visited_fields;
    set_obstacle(&mut stage, 7, 7);
    let mut out2 = VecDeque::new();
    stage.find_path((7, 7), (1, 1), &mut out2);
    assert!(out2.is_empty());
    assert_eq!(stage.visited_fields, visited);
}

#[test]
fn tree_spots_kept_by_updates() {
    let mut stage = started();
    let spots = |s: &GameStage| {
        let mut v: Vec<(i16, i16)> = s.world.mature.iter().map(|t| t.1).collect();
        v.extend(s.world.young.iter().map(|t| t.1));
        v.extend(s.world.dead.iter().copied());
        v.sort();
        v
    };
    let before = spots(&stage);
    for _ in 0..400 {
        if !stage.update_allowed() {
            break;
        }
        stage.update();
        assert_eq!(spots(&stage), before);
    }
}

#[test]
fn find_path_takes_the_breadth_first_route() {
    let mut stage = GameStage::new();
    let mut out = VecDeque::new();
    stage.find_path((0, 0), (1, 1), &mut out);
    assert_eq!(out, VecDeque::from(vec![Direction::Down, Direction::Right]));
    let mut again = VecDeque::new();
    stage.find_path((5, 9), (2, 2), &mut again);
    let mut out2 = VecDeque::new();
    stage.find_path((0, 0), (1, 1), &mut out2);
    assert_eq!(out2, out);
}

#[test]
fn worker_heads_home_along_the_search_route() {
    let mut stage = GameStage::new();
    stage.world.workers = vec![lone_worker((0, 0), 1, VecDeque::new(), None,
        WorkerState::ChoppingTree { ticks_to_next_chop: 0 })];
    stage.update_workers();
    let mut want = VecDeque::new();
    let mut other = GameStage::new();
    other.find_path((0, 0), (DOOR_X, DOOR_Y), &mut want);
    let w = &stage.world.workers[0];
    assert_eq!(w.state, WorkerState::CarryCargoToStorage { steps_to_next_dir: 4 });
    assert_eq!(w.path, want);
    let mut down_then_right = VecDeque::new();
    for _ in 0..6 {
        down_then_right.push_back(Direction::Down);
    }
    for _ in 0..15 {
        down_then_right.push_back(Direction::Right);
    }
    assert_eq!(w.path, down_then_right);
}
