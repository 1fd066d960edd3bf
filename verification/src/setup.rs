use vstd::prelude::*;
use std::collections::VecDeque;
use crate::game_stage::{
    AgePoints, Bag, GameStage, World, HealthPoints, MatureTree, Ripple, RippleOffset, StoreEntry, StoreHouse,
    Worker, WorkerState, YoungTree, OAK_HP_MAX, PINE_HP_MAX,
};
use crate::objects::Object;
use crate::grid::Direction;
use crate::passability::{bit_is_set, bitset_empty, bitset_set, lemma_empty_bits, lemma_set_bit};
use crate::random::{range_value, xorshift_next, RndGen};
use crate::tilemap::Tilemap;
use crate::workers::worker_ok;
use crate::game_stage::{nonneg_pos, young_ok};
use crate::render::Placed;

verus! {

/// The terrain of the village: 21 x 21 corners, 1 for land, 0 for water.
pub open spec fn initial_map() -> Seq<u8> {
    seq![
        1, 1, 1, 1, 1, 1, 1, 1, 1, 1, 1, 1, 1, 1, 1, 1, 1, 1, 1, 1, 1,
        0, 0, 1, 1, 0, 0, 1, 1, 1, 1, 1, 1, 1, 1, 1, 1, 1, 1, 1, 0, 0,
        0, 0, 0, 0, 0, 0, 1, 1, 1, 1, 1, 1, 1, 1, 1, 1, 1, 1, 0, 0, 0,
        0, 0, 0, 1, 1, 0, 1, 1, 1, 1, 1, 1, 1, 1, 1, 1, 1, 1, 1, 0, 0,
        0, 0, 1, 1, 1, 1, 1, 1, 1, 1, 1, 1, 1, 0, 1, 1, 1, 1, 0, 0, 0,
        0, 0, 1, 1, 1, 1, 1, 1, 1, 1, 1, 1, 0, 0, 0, 1, 0, 0, 0, 0, 0,
        0, 0, 1, 1, 1, 1, 1, 1, 0, 1, 1, 0, 0, 0, 0, 0, 0, 0, 0, 0, 0,
        0, 1, 1, 1, 0, 0, 0, 0, 0, 0, 1, 1, 0, 0, 0, 0, 0, 0, 0, 0, 0,
        1, 1, 1, 0, 0, 0, 0, 0, 0, 0, 0, 1, 1, 0, 0, 0, 0, 0, 0, 0, 0,
        0, 0, 0, 0, 0, 0, 0, 0, 0, 0, 0, 1, 1, 0, 0, 0, 0, 0, 0, 0, 0,
        0, 0, 0, 0, 0, 0, 0, 0, 0, 0, 1, 1, 0, 0, 0, 0, 0, 0, 0, 0, 0,
        0, 0, 0, 0, 0, 0, 0, 0, 0, 1, 1, 1, 1, 1, 1, 0, 0, 0, 0, 0, 0,
        0, 0, 0, 0, 0, 0, 1, 1, 1, 1, 1, 1, 1, 1, 1, 1, 0, 0, 0, 0, 0,
        0, 0, 0, 0, 0, 0, 0, 1, 1, 1, 1, 0, 0, 0, 1, 1, 1, 1, 1, 1, 1,
        0, 0, 0, 0, 0, 0, 0, 0, 1, 1, 0, 0, 0, 0, 0, 1, 1, 1, 1, 1, 1,
        0, 0, 0, 0, 1, 1, 1, 1, 1, 1, 1, 1, 0, 0, 1, 1, 1, 1, 1, 1, 1,
        0, 0, 0, 1, 1, 1, 1, 1, 1, 1, 1, 1, 0, 1, 1, 1, 1, 1, 1, 1, 1,
        1, 1, 1, 1, 1, 1, 1, 1, 1, 1, 1, 1, 1, 1, 1, 1, 1, 1, 1, 1, 1,
        1, 1, 1, 1, 1, 1, 1, 1, 1, 1, 1, 1, 1, 1, 1, 1, 1, 1, 1, 1, 1,
        1, 1, 1, 1, 1, 1, 1, 1, 1, 1, 1, 1, 1, 1, 1, 1, 1, 1, 1, 1, 1,
        1, 1, 1, 1, 1, 1, 1, 1, 1, 1, 1, 1, 1, 1, 1, 1, 1, 1, 1, 1, 1,
    ]
}

/// The objects of the village at the start: trees, the store house and the workers.
pub open spec fn initial_objects() -> Seq<Placed> {
    seq![
        (Object::Pine, (12i16, 4i16)),
        (Object::LittlePine, (20i16, 4i16)),
        (Object::LittlePine, (144i16, 4i16)),
        (Object::Oak, (156i16, 4i16)),
        (Object::Pine, (16i16, 8i16)),
        (Object::Oak, (24i16, 8i16)),
        (Object::LittlePine, (100i16, 8i16)),
        (Object::Pine, (108i16, 8i16)),
        (Object::LittlePine, (20i16, 12i16)),
        (Object::BigHouse, (64i16, 12i16)),
        (Object::LittlePine, (96i16, 12i16)),
        (Object::LittleOak, (104i16, 12i16)),
        (Object::LittlePine, (120i16, 12i16)),
        (Object::LittlePine, (128i16, 12i16)),
        (Object::LittlePine, (100i16, 16i16)),
        (Object::LittleOak, (124i16, 16i16)),
        (Object::LittlePine, (120i16, 20i16)),
        (Object::Pine, (128i16, 20i16)),
        (Object::LittlePine, (116i16, 24i16)),
        (Object::Pine, (124i16, 24i16)),
        (Object::Oak, (136i16, 24i16)),
        (Object::Oak, (144i16, 24i16)),
        (Object::Pine, (120i16, 28i16)),
        (Object::Pine, (140i16, 28i16)),
        (Object::Pine, (20i16, 32i16)),
        (Object::Oak, (32i16, 32i16)),
        (Object::Oak, (132i16, 32i16)),
        (Object::Oak, (24i16, 36i16)),
        (Object::Worker, (60i16, 40i16)),
        (Object::Worker, (80i16, 40i16)),
        (Object::LittleOak, (120i16, 40i16)),
        (Object::Worker, (68i16, 44i16)),
        (Object::Oak, (24i16, 56i16)),
        (Object::LittleOak, (16i16, 60i16)),
        (Object::Oak, (4i16, 64i16)),
        (Object::LittleOak, (12i16, 64i16)),
        (Object::Pine, (8i16, 68i16)),
        (Object::LittlePine, (96i16, 68i16)),
        (Object::LittleOak, (100i16, 92i16)),
        (Object::LittlePine, (48i16, 96i16)),
        (Object::LittlePine, (52i16, 100i16)),
        (Object::LittleOak, (76i16, 100i16)),
        (Object::LittlePine, (112i16, 104i16)),
        (Object::Oak, (148i16, 104i16)),
        (Object::LittlePine, (156i16, 104i16)),
        (Object::Oak, (152i16, 108i16)),
        (Object::LittleOak, (140i16, 112i16)),
        (Object::Oak, (32i16, 120i16)),
        (Object::LittleOak, (38i16, 120i16)),
        (Object::LittlePine, (80i16, 120i16)),
        (Object::Pine, (88i16, 120i16)),
        (Object::LittlePine, (152i16, 120i16)),
        (Object::LittleOak, (36i16, 124i16)),
        (Object::Oak, (84i16, 124i16)),
        (Object::LittlePine, (112i16, 124i16)),
        (Object::LittleOak, (28i16, 128i16)),
        (Object::LittlePine, (104i16, 128i16)),
        (Object::LittlePine, (156i16, 128i16)),
        (Object::LittleOak, (24i16, 132i16)),
        (Object::Oak, (64i16, 132i16)),
        (Object::LittlePine, (72i16, 132i16)),
        (Object::LittlePine, (4i16, 136i16)),
        (Object::Oak, (12i16, 136i16)),
        (Object::LittleOak, (32i16, 136i16)),
        (Object::LittleOak, (60i16, 136i16)),
        (Object::Oak, (68i16, 136i16)),
        (Object::Pine, (76i16, 136i16)),
        (Object::LittlePine, (120i16, 136i16)),
        (Object::LittlePine, (8i16, 140i16)),
        (Object::LittlePine, (20i16, 140i16)),
        (Object::LittleOak, (64i16, 140i16)),
        (Object::LittlePine, (72i16, 140i16)),
        (Object::LittleOak, (84i16, 140i16)),
        (Object::LittleOak, (128i16, 140i16)),
        (Object::Oak, (156i16, 140i16)),
        (Object::LittlePine, (0i16, 144i16)),
        (Object::Oak, (16i16, 144i16)),
        (Object::LittlePine, (80i16, 144i16)),
        (Object::LittleOak, (88i16, 144i16)),
        (Object::Oak, (116i16, 144i16)),
        (Object::Oak, (148i16, 144i16)),
        (Object::Oak, (4i16, 148i16)),
        (Object::Pine, (12i16, 148i16)),
        (Object::LittleOak, (20i16, 148i16)),
        (Object::Oak, (84i16, 148i16)),
        (Object::LittleOak, (140i16, 148i16)),
        (Object::Pine, (156i16, 148i16)),
        (Object::Oak, (8i16, 152i16)),
        (Object::LittleOak, (16i16, 152i16)),
        (Object::Pine, (24i16, 152i16)),
        (Object::LittlePine, (32i16, 152i16)),
        (Object::LittleOak, (40i16, 152i16)),
        (Object::Oak, (48i16, 152i16)),
        (Object::LittlePine, (92i16, 152i16)),
        (Object::Pine, (136i16, 152i16)),
        (Object::LittlePine, (144i16, 152i16)),
        (Object::LittlePine, (152i16, 152i16)),
        (Object::Oak, (4i16, 156i16)),
        (Object::LittlePine, (12i16, 156i16)),
        (Object::Oak, (20i16, 156i16)),
        (Object::Pine, (28i16, 156i16)),
        (Object::Pine, (36i16, 156i16)),
        (Object::LittlePine, (44i16, 156i16)),
        (Object::Oak, (52i16, 156i16)),
        (Object::LittlePine, (72i16, 156i16)),
        (Object::Pine, (80i16, 156i16)),
        (Object::Pine, (88i16, 156i16)),
        (Object::Pine, (96i16, 156i16)),
        (Object::Oak, (112i16, 156i16)),
        (Object::Pine, (120i16, 156i16)),
        (Object::LittlePine, (132i16, 156i16)),
        (Object::LittlePine, (140i16, 156i16)),
        (Object::Pine, (148i16, 156i16)),
        (Object::LittleOak, (156i16, 156i16)),
    ]
}

/// The objects of the village at the start (see `initial_objects`).
pub fn initial_objects_vec() -> (r: Vec<Placed>)
    ensures
        r@ == initial_objects(),
{
    let r = vec![
        (Object::Pine, (12i16, 4i16)),
        (Object::LittlePine, (20i16, 4i16)),
        (Object::LittlePine, (144i16, 4i16)),
        (Object::Oak, (156i16, 4i16)),
        (Object::Pine, (16i16, 8i16)),
        (Object::Oak, (24i16, 8i16)),
        (Object::LittlePine, (100i16, 8i16)),
        (Object::Pine, (108i16, 8i16)),
        (Object::LittlePine, (20i16, 12i16)),
        (Object::BigHouse, (64i16, 12i16)),
        (Object::LittlePine, (96i16, 12i16)),
        (Object::LittleOak, (104i16, 12i16)),
        (Object::LittlePine, (120i16, 12i16)),
        (Object::LittlePine, (128i16, 12i16)),
        (Object::LittlePine, (100i16, 16i16)),
        (Object::LittleOak, (124i16, 16i16)),
        (Object::LittlePine, (120i16, 20i16)),
        (Object::Pine, (128i16, 20i16)),
        (Object::LittlePine, (116i16, 24i16)),
        (Object::Pine, (124i16, 24i16)),
        (Object::Oak, (136i16, 24i16)),
        (Object::Oak, (144i16, 24i16)),
        (Object::Pine, (120i16, 28i16)),
        (Object::Pine, (140i16, 28i16)),
        (Object::Pine, (20i16, 32i16)),
        (Object::Oak, (32i16, 32i16)),
        (Object::Oak, (132i16, 32i16)),
        (Object::Oak, (24i16, 36i16)),
        (Object::Worker, (60i16, 40i16)),
        (Object::Worker, (80i16, 40i16)),
        (Object::LittleOak, (120i16, 40i16)),
        (Object::Worker, (68i16, 44i16)),
        (Object::Oak, (24i16, 56i16)),
        (Object::LittleOak, (16i16, 60i16)),
        (Object::Oak, (4i16, 64i16)),
        (Object::LittleOak, (12i16, 64i16)),
        (Object::Pine, (8i16, 68i16)),
        (Object::LittlePine, (96i16, 68i16)),
        (Object::LittleOak, (100i16, 92i16)),
        (Object::LittlePine, (48i16, 96i16)),
        (Object::LittlePine, (52i16, 100i16)),
        (Object::LittleOak, (76i16, 100i16)),
        (Object::LittlePine, (112i16, 104i16)),
        (Object::Oak, (148i16, 104i16)),
        (Object::LittlePine, (156i16, 104i16)),
        (Object::Oak, (152i16, 108i16)),
        (Object::LittleOak, (140i16, 112i16)),
        (Object::Oak, (32i16, 120i16)),
        (Object::LittleOak, (38i16, 120i16)),
        (Object::LittlePine, (80i16, 120i16)),
        (Object::Pine, (88i16, 120i16)),
        (Object::LittlePine, (152i16, 120i16)),
        (Object::LittleOak, (36i16, 124i16)),
        (Object::Oak, (84i16, 124i16)),
        (Object::LittlePine, (112i16, 124i16)),
        (Object::LittleOak, (28i16, 128i16)),
        (Object::LittlePine, (104i16, 128i16)),
        (Object::LittlePine, (156i16, 128i16)),
        (Object::LittleOak, (24i16, 132i16)),
        (Object::Oak, (64i16, 132i16)),
        (Object::LittlePine, (72i16, 132i16)),
        (Object::LittlePine, (4i16, 136i16)),
        (Object::Oak, (12i16, 136i16)),
        (Object::LittleOak, (32i16, 136i16)),
        (Object::LittleOak, (60i16, 136i16)),
        (Object::Oak, (68i16, 136i16)),
        (Object::Pine, (76i16, 136i16)),
        (Object::LittlePine, (120i16, 136i16)),
        (Object::LittlePine, (8i16, 140i16)),
        (Object::LittlePine, (20i16, 140i16)),
        (Object::LittleOak, (64i16, 140i16)),
        (Object::LittlePine, (72i16, 140i16)),
        (Object::LittleOak, (84i16, 140i16)),
        (Object::LittleOak, (128i16, 140i16)),
        (Object::Oak, (156i16, 140i16)),
        (Object::LittlePine, (0i16, 144i16)),
        (Object::Oak, (16i16, 144i16)),
        (Object::LittlePine, (80i16, 144i16)),
        (Object::LittleOak, (88i16, 144i16)),
        (Object::Oak, (116i16, 144i16)),
        (Object::Oak, (148i16, 144i16)),
        (Object::Oak, (4i16, 148i16)),
        (Object::Pine, (12i16, 148i16)),
        (Object::LittleOak, (20i16, 148i16)),
        (Object::Oak, (84i16, 148i16)),
        (Object::LittleOak, (140i16, 148i16)),
        (Object::Pine, (156i16, 148i16)),
        (Object::Oak, (8i16, 152i16)),
        (Object::LittleOak, (16i16, 152i16)),
        (Object::Pine, (24i16, 152i16)),
        (Object::LittlePine, (32i16, 152i16)),
        (Object::LittleOak, (40i16, 152i16)),
        (Object::Oak, (48i16, 152i16)),
        (Object::LittlePine, (92i16, 152i16)),
        (Object::Pine, (136i16, 152i16)),
        (Object::LittlePine, (144i16, 152i16)),
        (Object::LittlePine, (152i16, 152i16)),
        (Object::Oak, (4i16, 156i16)),
        (Object::LittlePine, (12i16, 156i16)),
        (Object::Oak, (20i16, 156i16)),
        (Object::Pine, (28i16, 156i16)),
        (Object::Pine, (36i16, 156i16)),
        (Object::LittlePine, (44i16, 156i16)),
        (Object::Oak, (52i16, 156i16)),
        (Object::LittlePine, (72i16, 156i16)),
        (Object::Pine, (80i16, 156i16)),
        (Object::Pine, (88i16, 156i16)),
        (Object::Pine, (96i16, 156i16)),
        (Object::Oak, (112i16, 156i16)),
        (Object::Pine, (120i16, 156i16)),
        (Object::LittlePine, (132i16, 156i16)),
        (Object::LittlePine, (140i16, 156i16)),
        (Object::Pine, (148i16, 156i16)),
        (Object::LittleOak, (156i16, 156i16)),
    ];
    proof {
        assert(r@ =~= initial_objects());
    }
    r
}

/// Objects from number `i` on lie in the map; the house leaves room for its
/// frame of obstacles; workers stand at cell corners.
pub open spec fn placements_ok_from(s: Seq<Placed>, i: int) -> bool
    decreases s.len() - i,
{
    if i < 0 || i >= s.len() {
        true
    } else {
        placement_ok(s[i]) && placements_ok_from(s, i + 1)
    }
}

/// An object lies in the map; a house leaves room for its frame of
/// obstacles; a worker stands at a cell corner.
pub open spec fn placement_ok(o: Placed) -> bool {
    &&& 0 <= o.1.0 < 160
    &&& 0 <= o.1.1 < 160
    &&& o.0 == Object::BigHouse ==> 4 <= o.1.0 && 4 <= o.1.1 && o.1.0 / 4 + 3 < 40 && o.1.1 / 4 + 3 < 40
    &&& o.0 == Object::Worker ==> o.1.0 % 4 == 0 && o.1.1 % 4 == 0
}

proof fn lemma_initial_placements()
    ensures
        placements_ok_from(initial_objects(), 0),
{
    let t = initial_objects();
    assert(t.len() == 114);
    assert(placements_ok_from(t, 114));
    assert(placements_ok_from(t, 113));
    assert(placements_ok_from(t, 112));
    assert(placements_ok_from(t, 111));
    assert(placements_ok_from(t, 110));
    assert(placements_ok_from(t, 109));
    assert(placements_ok_from(t, 108));
    assert(placements_ok_from(t, 107));
    assert(placements_ok_from(t, 106));
    assert(placements_ok_from(t, 105));
    assert(placements_ok_from(t, 104));
    assert(placements_ok_from(t, 103));
    assert(placements_ok_from(t, 102));
    assert(placements_ok_from(t, 101));
    assert(placements_ok_from(t, 100));
    assert(placements_ok_from(t, 99));
    assert(placements_ok_from(t, 98));
    assert(placements_ok_from(t, 97));
    assert(placements_ok_from(t, 96));
    assert(placements_ok_from(t, 95));
    assert(placements_ok_from(t, 94));
    assert(placements_ok_from(t, 93));
    assert(placements_ok_from(t, 92));
    assert(placements_ok_from(t, 91));
    assert(placements_ok_from(t, 90));
    assert(placements_ok_from(t, 89));
    assert(placements_ok_from(t, 88));
    assert(placements_ok_from(t, 87));
    assert(placements_ok_from(t, 86));
    assert(placements_ok_from(t, 85));
    assert(placements_ok_from(t, 84));
    assert(placements_ok_from(t, 83));
    assert(placements_ok_from(t, 82));
    assert(placements_ok_from(t, 81));
    assert(placements_ok_from(t, 80));
    assert(placements_ok_from(t, 79));
    assert(placements_ok_from(t, 78));
    assert(placements_ok_from(t, 77));
    assert(placements_ok_from(t, 76));
    assert(placements_ok_from(t, 75));
    assert(placements_ok_from(t, 74));
    assert(placements_ok_from(t, 73));
    assert(placements_ok_from(t, 72));
    assert(placements_ok_from(t, 71));
    assert(placements_ok_from(t, 70));
    assert(placements_ok_from(t, 69));
    assert(placements_ok_from(t, 68));
    assert(placements_ok_from(t, 67));
    assert(placements_ok_from(t, 66));
    assert(placements_ok_from(t, 65));
    assert(placements_ok_from(t, 64));
    assert(placements_ok_from(t, 63));
    assert(placements_ok_from(t, 62));
    assert(placements_ok_from(t, 61));
    assert(placements_ok_from(t, 60));
    assert(placements_ok_from(t, 59));
    assert(placements_ok_from(t, 58));
    assert(placements_ok_from(t, 57));
    assert(placements_ok_from(t, 56));
    assert(placements_ok_from(t, 55));
    assert(placements_ok_from(t, 54));
    assert(placements_ok_from(t, 53));
    assert(placements_ok_from(t, 52));
    assert(placements_ok_from(t, 51));
    assert(placements_ok_from(t, 50));
    assert(placements_ok_from(t, 49));
    assert(placements_ok_from(t, 48));
    assert(placements_ok_from(t, 47));
    assert(placements_ok_from(t, 46));
    assert(placements_ok_from(t, 45));
    assert(placements_ok_from(t, 44));
    assert(placements_ok_from(t, 43));
    assert(placements_ok_from(t, 42));
    assert(placements_ok_from(t, 41));
    assert(placements_ok_from(t, 40));
    assert(placements_ok_from(t, 39));
    assert(placements_ok_from(t, 38));
    assert(placements_ok_from(t, 37));
    assert(placements_ok_from(t, 36));
    assert(placements_ok_from(t, 35));
    assert(placements_ok_from(t, 34));
    assert(placements_ok_from(t, 33));
    assert(placements_ok_from(t, 32));
    assert(placements_ok_from(t, 31));
    assert(placements_ok_from(t, 30));
    assert(placements_ok_from(t, 29));
    assert(placements_ok_from(t, 28));
    assert(placements_ok_from(t, 27));
    assert(placements_ok_from(t, 26));
    assert(placements_ok_from(t, 25));
    assert(placements_ok_from(t, 24));
    assert(placements_ok_from(t, 23));
    assert(placements_ok_from(t, 22));
    assert(placements_ok_from(t, 21));
    assert(placements_ok_from(t, 20));
    assert(placements_ok_from(t, 19));
    assert(placements_ok_from(t, 18));
    assert(placements_ok_from(t, 17));
    assert(placements_ok_from(t, 16));
    assert(placements_ok_from(t, 15));
    assert(placements_ok_from(t, 14));
    assert(placements_ok_from(t, 13));
    assert(placements_ok_from(t, 12));
    assert(placements_ok_from(t, 11));
    assert(placements_ok_from(t, 10));
    assert(placements_ok_from(t, 9));
    assert(placements_ok_from(t, 8));
    assert(placements_ok_from(t, 7));
    assert(placements_ok_from(t, 6));
    assert(placements_ok_from(t, 5));
    assert(placements_ok_from(t, 4));
    assert(placements_ok_from(t, 3));
    assert(placements_ok_from(t, 2));
    assert(placements_ok_from(t, 1));
    assert(placements_ok_from(t, 0));
}


/// Grid cell `(i, j)` is water: its terrain corner `((i + 1) / 2, (j + 1) / 2)` is 0.
pub open spec fn water_cell(map: Seq<u8>, i: int, j: int) -> bool {
    map[((j + 1) / 2) * 21 + (i + 1) / 2] == 0
}

/// Grid cell number `c` (row-major) is water.
pub open spec fn water_at(map: Seq<u8>, c: int) -> bool {
    water_cell(map, c % 40, c / 40)
}

/// A ripple placed for water cell number `c`: within two pixels
/// horizontally and one vertically of the cell's corner, drawn with offsets
/// of at most one pixel.
pub open spec fn ripple_near(r: Ripple, c: int) -> bool {
    let i = c % 40;
    let j = c / 40;
    &&& 4 * i - 2 <= r.0.0 <= 4 * i + 2
    &&& 4 * j - 1 <= r.0.1 <= 4 * j + 1
    &&& -1 <= r.1.0 <= 1
    &&& -1 <= r.1.1 <= 1
}

/// The ripples placed by the water scan from grid cell number `c` on, with
/// the generator in state `st` and `last_set` telling whether the last water
/// cell before `c` got a ripple, and the generator state after the scan. A
/// water cell right after a ripple cell gets none; any other water cell
/// draws from `0..=99` and, when the draw is below 30, gets a ripple at its
/// corner moved by a draw from `-2..=2` horizontally and one from `-1..=1`
/// vertically, with offsets drawn from `-1..=1`.
pub open spec fn scan_ripples(map: Seq<u8>, c: int, st: u32, last_set: bool) -> (Seq<Ripple>, u32)
    decreases 1600 - c,
{
    if c < 0 || c >= 1600 {
        (Seq::empty(), st)
    } else if !water_at(map, c) {
        scan_ripples(map, c + 1, st, last_set)
    } else if last_set {
        scan_ripples(map, c + 1, st, false)
    } else {
        let s1 = xorshift_next(st);
        if range_value(s1, 0, 99) < 30 {
            let s2 = xorshift_next(s1);
            let s3 = xorshift_next(s2);
            let s4 = xorshift_next(s3);
            let s5 = xorshift_next(s4);
            let r = (
                (((c % 40) * 4 + range_value(s2, -2, 2)) as i16, ((c / 40) * 4 + range_value(s3, -1, 1)) as i16),
                RippleOffset(range_value(s4, -1, 1) as i8, range_value(s5, -1, 1) as i8),
            );
            let rest = scan_ripples(map, c + 1, s5, true);
            (seq![r] + rest.0, rest.1)
        } else {
            scan_ripples(map, c + 1, s1, false)
        }
    }
}

/// `post` is `pre` with ripples added for the water cells `cells` (in
/// increasing order, below `upto`); between two consecutive ripple cells
/// lies at least one more water cell.
pub open spec fn ripples_placed_for(map: Seq<u8>, pre: Seq<Ripple>, post: Seq<Ripple>, cells: Seq<int>, upto: int) -> bool {
    &&& post.len() == pre.len() + cells.len()
    &&& post.subrange(0, pre.len() as int) == pre
    &&& forall|k: int| 0 <= k < cells.len() ==> {
        &&& 0 <= #[trigger] cells[k] < upto
        &&& water_at(map, cells[k])
        &&& ripple_near(post[pre.len() + k], cells[k])
    }
    &&& forall|a: int, b: int| 0 <= a < b < cells.len() ==> cells[a] < cells[b]
    &&& forall|k: int| 0 <= k && k + 1 < cells.len() ==>
        exists|c: int| #[trigger] cells[k] < c < cells[k + 1] && water_at(map, c)
}

/// `post` is `pre` with ripples added on some of the water cells.
pub open spec fn ripples_placed(map: Seq<u8>, pre: Seq<Ripple>, post: Seq<Ripple>) -> bool {
    exists|cells: Seq<int>| ripples_placed_for(map, pre, post, cells, 1600)
}

proof fn lemma_water_index(map: Seq<u8>, i: int, j: int)
    requires
        0 <= i < 40,
        0 <= j < 40,
        map.len() == 441,
    ensures
        (j / 2) * 21 + i / 2 + (if j % 2 != 0 { 21int } else { 0int }) + (if i % 2 != 0 { 1int } else { 0int })
            == ((j + 1) / 2) * 21 + (i + 1) / 2,
        ((j + 1) / 2) * 21 + (i + 1) / 2 < 441,
        (j * 40 + i) % 40 == i,
        (j * 40 + i) / 40 == j,
{
}

/// Progress of the water scan over the first `upto` cells: obstacles added
/// for exactly the water cells among them, ripples for `cells`, and
/// `last_set` telling whether no water cell came after the last ripple cell.
pub open spec fn water_scan(
    map: Seq<u8>,
    obst0: Seq<u8>,
    ripples0: Seq<Ripple>,
    obst: Seq<u8>,
    ripples: Seq<Ripple>,
    cells: Seq<int>,
    last_set: bool,
    upto: int,
) -> bool {
    &&& forall|k: int| #[trigger] bit_is_set(obst, k) == (bit_is_set(obst0, k) || (0 <= k < upto && water_at(map, k)))
    &&& ripples_placed_for(map, ripples0, ripples, cells, upto)
    &&& cells.len() == 0 ==> !last_set
    &&& cells.len() > 0 ==> (last_set <==> !exists|c: int| cells.last() < c < upto && #[trigger] water_at(map, c))
}

/// Fields other than the obstacles, the ripples and the random source are the same.
pub open spec fn same_but_scan(a: GameStage, b: GameStage) -> bool {
    &&& a.tilemap == b.tilemap
    &&& a.current_frame == b.current_frame
    &&& a.world.workers == b.world.workers
    &&& a.world.store == b.world.store
    &&& a.world.mature == b.world.mature
    &&& a.world.young == b.world.young
    &&& a.world.dead == b.world.dead
}

proof fn lemma_scan_land(
    map: Seq<u8>, obst0: Seq<u8>, ripples0: Seq<Ripple>, obst: Seq<u8>, ripples: Seq<Ripple>,
    cells: Seq<int>, last_set: bool, pos: int,
)
    requires
        water_scan(map, obst0, ripples0, obst, ripples, cells, last_set, pos),
        !water_at(map, pos),
    ensures
        water_scan(map, obst0, ripples0, obst, ripples, cells, last_set, pos + 1),
{
    if cells.len() > 0 {
        assert forall|c: int| cells.last() < c < pos + 1 && #[trigger] water_at(map, c)
            implies cells.last() < c < pos by {}
    }
    assert forall|k: int| 0 <= k < cells.len() implies 0 <= #[trigger] cells[k] < pos + 1 by {}
}

proof fn lemma_scan_water(
    map: Seq<u8>, obst0: Seq<u8>, ripples0: Seq<Ripple>, obst: Seq<u8>, obst2: Seq<u8>, ripples: Seq<Ripple>,
    cells: Seq<int>, last_set: bool, pos: int,
)
    requires
        water_scan(map, obst0, ripples0, obst, ripples, cells, last_set, pos),
        water_at(map, pos),
        0 <= pos,
        forall|k: int| #[trigger] bit_is_set(obst2, k) == (k == pos || bit_is_set(obst, k)),
    ensures
        water_scan(map, obst0, ripples0, obst2, ripples, cells, false, pos + 1),
{
    assert forall|k: int| 0 <= k < cells.len() implies 0 <= #[trigger] cells[k] < pos + 1 by {}
    if cells.len() > 0 {
        assert(cells.last() < pos);
        assert(water_at(map, pos) && cells.last() < pos < pos + 1);
    }
}

proof fn lemma_scan_ripple(
    map: Seq<u8>, obst0: Seq<u8>, ripples0: Seq<Ripple>, obst: Seq<u8>, obst2: Seq<u8>, ripples: Seq<Ripple>,
    cells: Seq<int>, pos: int, r: Ripple,
)
    requires
        water_scan(map, obst0, ripples0, obst, ripples, cells, false, pos),
        forall|k: int| #[trigger] bit_is_set(obst2, k) == (k == pos || bit_is_set(obst, k)),
        water_at(map, pos),
        0 <= pos,
        ripple_near(r, pos),
    ensures
        water_scan(map, obst0, ripples0, obst2, ripples.push(r), cells.push(pos), true, pos + 1),
{
    let old_cells = cells;
    let cells = cells.push(pos);
    let post = ripples.push(r);
    let pre = ripples0;
    assert(post.subrange(0, pre.len() as int) =~= ripples.subrange(0, pre.len() as int));
    assert forall|k: int| 0 <= k < cells.len() implies {
        &&& 0 <= #[trigger] cells[k] < pos + 1
        &&& water_at(map, cells[k])
        &&& ripple_near(post[pre.len() + k], cells[k])
    } by {
        if k < old_cells.len() {
            assert(cells[k] == old_cells[k]);
            assert(post[pre.len() + k] == ripples[pre.len() + k]);
        }
    }
    assert forall|k: int| 0 <= k && k + 1 < cells.len() implies
        exists|c: int| #[trigger] cells[k] < c < cells[k + 1] && water_at(map, c) by {
        if k + 1 < old_cells.len() {
            assert(cells[k] == old_cells[k] && cells[k + 1] == old_cells[k + 1]);
        } else {
            assert(cells[k] == old_cells.last());
            let c = choose|c: int| old_cells.last() < c < pos && #[trigger] water_at(map, c);
            assert(cells[k] < c < cells[k + 1] && water_at(map, c));
        }
    }
    assert forall|a: int, b: int| 0 <= a < b < cells.len() implies cells[a] < cells[b] by {
        if b < old_cells.len() {
            assert(cells[a] == old_cells[a] && cells[b] == old_cells[b]);
        } else {
            assert(cells[a] == old_cells[a]);
        }
    }
    assert forall|c: int| cells.last() < c < pos + 1 implies !#[trigger] water_at(map, c) by {}
}

impl GameStage {
    /// The water scan of grid cell `(i, j)`.
    fn mark_water_cell(
        &mut self,
        i: usize,
        j: usize,
        last_set: bool,
        Ghost(obst0): Ghost<Seq<u8>>,
        Ghost(ripples0): Ghost<Seq<Ripple>>,
        Ghost(cells): Ghost<Seq<int>>,
    ) -> (r: (bool, Ghost<Seq<int>>))
        requires
            i < 40,
            j < 40,
            old(self).tilemap.map@.len() == 441,
            water_scan(old(self).tilemap.map@, obst0, ripples0, old(self).obstacles@, old(self).world.ripples@,
                cells, last_set, j * 40 + i),
        ensures
            water_scan(old(self).tilemap.map@, obst0, ripples0, final(self).obstacles@, final(self).world.ripples@,
                r.1@, r.0, j * 40 + i + 1),
            old(self).world.ripples@ + scan_ripples(old(self).tilemap.map@, j * 40 + i, old(self).rnd_gen.state,
                last_set).0 == final(self).world.ripples@ + scan_ripples(old(self).tilemap.map@, j * 40 + i + 1,
                final(self).rnd_gen.state, r.0).0,
            scan_ripples(old(self).tilemap.map@, j * 40 + i, old(self).rnd_gen.state, last_set).1
                == scan_ripples(old(self).tilemap.map@, j * 40 + i + 1, final(self).rnd_gen.state, r.0).1,
            same_but_scan(*old(self), *final(self)),
    {
        let ghost map = self.tilemap.map@;
        let ghost pos = (j * 40 + i) as int;
        let ghost st = self.rnd_gen.state;
        let ghost r0 = self.world.ripples@;
        proof {
            lemma_water_index(map, i as int, j as int);
        }
        let idx = (j / 2) * 21 + i / 2;
        let mut obstacle_offset: usize = 0;
        if j % 2 != 0 {
            obstacle_offset += 21;
        }
        if i % 2 != 0 {
            obstacle_offset += 1;
        }
        if self.tilemap.map[idx + obstacle_offset] != 0 {
            proof {
                lemma_scan_land(map, obst0, ripples0, self.obstacles@, self.world.ripples@, cells, last_set, pos);
            }
            return (last_set, Ghost(cells));
        }
        let ghost before = self.obstacles@;
        bitset_set(&mut self.obstacles, j * 40 + i);
        proof {
            lemma_set_bit(before, self.obstacles@, pos);
            lemma_scan_water(map, obst0, ripples0, before, self.obstacles@, self.world.ripples@, cells, last_set, pos);
        }
        if last_set {
            return (false, Ghost(cells));
        }
        if self.rnd_gen.gen_range(0, 99) < 30 {
            let x = (i as i16) * 4 + self.rnd_gen.gen_range_i(-2, 2);
            let y = (j as i16) * 4 + self.rnd_gen.gen_range_i(-1, 1);
            let off_x = self.rnd_gen.gen_range_i(-1, 1) as i8;
            let off_y = self.rnd_gen.gen_range_i(-1, 1) as i8;
            let ghost before_ripples = self.world.ripples@;
            let r = ((x, y), RippleOffset(off_x, off_y));
            self.world.ripples.push(r);
            proof {
                lemma_scan_ripple(map, obst0, ripples0, before, self.obstacles@, before_ripples, cells, pos, r);
                let rest = scan_ripples(map, pos + 1, self.rnd_gen.state, true);
                assert(scan_ripples(map, pos, st, last_set) == (seq![r] + rest.0, rest.1));
                assert(r0 + (seq![r] + rest.0) =~= self.world.ripples@ + rest.0);
            }
            return (true, Ghost(cells.push(pos)));
        }
        (false, Ghost(cells))
    }

    /// Marks every water cell as an obstacle and places water ripples: on a
    /// water cell right after one that got a ripple there is none; on
    /// other water cells one comes with a chance of 30 in 100, at a random
    /// spot near the cell with random offsets.
    fn mark_water(&mut self)
        ensures
            forall|k: int| #[trigger] bit_is_set(final(self).obstacles@, k) == (bit_is_set(old(self).obstacles@, k)
                || (0 <= k < 1600 && water_at(old(self).tilemap.map@, k))),
            final(self).world.ripples@ == old(self).world.ripples@
                + scan_ripples(old(self).tilemap.map@, 0, old(self).rnd_gen.state, false).0,
            final(self).rnd_gen.state == scan_ripples(old(self).tilemap.map@, 0, old(self).rnd_gen.state, false).1,
            ripples_placed(old(self).tilemap.map@, old(self).world.ripples@, final(self).world.ripples@),
            same_but_scan(*old(self), *final(self)),
    {
        let ghost map = self.tilemap.map@;
        let ghost obst0 = self.obstacles@;
        let ghost pre = self.world.ripples@;
        let ghost total = scan_ripples(map, 0, self.rnd_gen.state, false);
        let ghost mut cells: Seq<int> = Seq::empty();
        let mut last_set = false;
        let mut j: usize = 0;
        proof {
            assert(self.world.ripples@.subrange(0, pre.len() as int) =~= pre);
        }
        while j < 40
            invariant
                j <= 40,
                map == old(self).tilemap.map@,
                map.len() == 441,
                obst0 == old(self).obstacles@,
                pre == old(self).world.ripples@,
                water_scan(map, obst0, pre, self.obstacles@, self.world.ripples@, cells, last_set, j * 40),
                total == scan_ripples(map, 0, old(self).rnd_gen.state, false),
                pre + total.0 == self.world.ripples@ + scan_ripples(map, j * 40, self.rnd_gen.state, last_set).0,
                total.1 == scan_ripples(map, j * 40, self.rnd_gen.state, last_set).1,
                same_but_scan(*old(self), *self),
            decreases 40 - j,
        {
            let mut i: usize = 0;
            while i < 40
                invariant
                    j < 40,
                    i <= 40,
                    map == old(self).tilemap.map@,
                    map.len() == 441,
                    obst0 == old(self).obstacles@,
                    pre == old(self).world.ripples@,
                    water_scan(map, obst0, pre, self.obstacles@, self.world.ripples@, cells, last_set, j * 40 + i),
                    total == scan_ripples(map, 0, old(self).rnd_gen.state, false),
                    pre + total.0 == self.world.ripples@
                        + scan_ripples(map, j * 40 + i, self.rnd_gen.state, last_set).0,
                    total.1 == scan_ripples(map, j * 40 + i, self.rnd_gen.state, last_set).1,
                    same_but_scan(*old(self), *self),
                decreases 40 - i,
            {
                let (ls, Ghost(cs)) = self.mark_water_cell(i, j, last_set, Ghost(obst0), Ghost(pre), Ghost(cells));
                last_set = ls;
                proof {
                    cells = cs;
                }
                i += 1;
            }
            j += 1;
        }
        proof {
            assert(ripples_placed_for(map, pre, self.world.ripples@, cells, 1600));
            assert(self.world.ripples@ + Seq::<Ripple>::empty() =~= self.world.ripples@);
        }
    }
}


/// Grid cell `(i, j)` belongs to the obstacle frame of a house standing at
/// pixel `(x, y)`: the three rows from the house's cell down, from one cell
/// left to three cells right, plus the two cells above its left part and the
/// cell below its middle.
pub open spec fn house_blocks(x: int, y: int, i: int, j: int) -> bool {
    let xx = x / 4;
    let yy = y / 4;
    ||| j == yy - 1 && (i == xx || i == xx + 1)
    ||| yy <= j <= yy + 2 && xx - 1 <= i <= xx + 3
    ||| j == yy + 3 && i == xx + 1
}

/// Grid cell `(i, j)` is blocked by object `o`: a house by its frame, a
/// worker not at all, anything else by its own cell.
pub open spec fn object_blocks(o: Placed, i: int, j: int) -> bool {
    match o.0 {
        Object::BigHouse => house_blocks(o.1.0 as int, o.1.1 as int, i, j),
        Object::Worker => false,
        _ => i == o.1.0 / 4 && j == o.1.1 / 4,
    }
}

/// Grid cell number `k` is blocked by one of the first `n` objects.
pub open spec fn blocked_by(objs: Seq<Placed>, n: int, k: int) -> bool {
    exists|m: int| 0 <= m < n && #[trigger] object_blocks(objs[m], k % 40, k / 40)
}

/// Pine and oak.
pub open spec fn is_grown(o: Placed) -> bool {
    o.0 == Object::Pine || o.0 == Object::Oak
}

/// Little pine and little oak.
pub open spec fn is_sapling(o: Placed) -> bool {
    o.0 == Object::LittlePine || o.0 == Object::LittleOak
}

/// Stump.
pub open spec fn is_stump(o: Placed) -> bool {
    o.0 == Object::Stump
}

/// Store house.
pub open spec fn is_house(o: Placed) -> bool {
    o.0 == Object::BigHouse
}

/// Worker.
pub open spec fn is_worker(o: Placed) -> bool {
    o.0 == Object::Worker
}

/// The wood of a tree of kind `o`: 21 for the oaks, 15 for the pines.
pub open spec fn fresh_wood(o: Object) -> u8 {
    if o == Object::Oak || o == Object::LittleOak { OAK_HP_MAX } else { PINE_HP_MAX }
}

/// A mature tree placed from `o`, with full wood.
pub open spec fn placed_mature(o: Placed) -> MatureTree {
    (o.0, o.1, HealthPoints { amount: fresh_wood(o.0) })
}

/// A young tree placed from `o`, with growth 0.
pub open spec fn placed_young(o: Placed) -> YoungTree {
    (o.0, o.1, AgePoints { amount: 0 })
}

/// The position of a placed object.
pub open spec fn placed_pos(o: Placed) -> (i16, i16) {
    o.1
}

/// An empty store house placed from `o`.
pub open spec fn placed_house(o: Placed) -> StoreEntry {
    (o.1, StoreHouse { count_items: 0 })
}

/// A fresh worker standing at `pos`: empty bag of three, no path, no tree, idle.
pub open spec fn fresh_worker(w: Worker, pos: (i16, i16)) -> bool {
    &&& w.pos == pos
    &&& w.bag == Bag { count_items: 0, max_items: 3 }
    &&& w.path@.len() == 0
    &&& w.target is None
    &&& w.state == WorkerState::Idle
}

/// What placing `objs` did to the lists of the world, from `a` to `b`.
pub open spec fn objects_placed(objs: Seq<Placed>, a: GameStage, b: GameStage) -> bool {
    let new_workers = objs.filter(|o: Placed| is_worker(o));
    &&& b.world.mature@ == a.world.mature@ + objs.filter(|o: Placed| is_grown(o)).map_values(|o: Placed| placed_mature(o))
    &&& b.world.young@ == a.world.young@ + objs.filter(|o: Placed| is_sapling(o)).map_values(|o: Placed| placed_young(o))
    &&& b.world.dead@ == a.world.dead@ + objs.filter(|o: Placed| is_stump(o)).map_values(|o: Placed| placed_pos(o))
    &&& b.world.store@ == a.world.store@ + objs.filter(|o: Placed| is_house(o)).map_values(|o: Placed| placed_house(o))
    &&& b.world.workers@.len() == a.world.workers@.len() + new_workers.len()
    &&& b.world.workers@.subrange(0, a.world.workers@.len() as int) == a.world.workers@
    &&& forall|k: int| 0 <= k < new_workers.len() ==>
        fresh_worker(#[trigger] b.world.workers@[a.world.workers@.len() + k], new_workers[k].1)
}

proof fn lemma_placements_each(s: Seq<Placed>, i: int)
    requires
        0 <= i,
        placements_ok_from(s, i),
    ensures
        forall|m: int| i <= m < s.len() ==> #[trigger] placement_ok(s[m]),
    decreases s.len() - i,
{
    if i < s.len() {
        lemma_placements_each(s, i + 1);
    }
}

proof fn lemma_blocked_step(objs: Seq<Placed>, m: int, k: int)
    requires
        0 <= m < objs.len(),
    ensures
        blocked_by(objs, m + 1, k) == (blocked_by(objs, m, k) || object_blocks(objs[m], k % 40, k / 40)),
{
    if blocked_by(objs, m, k) {
        let w = choose|w: int| 0 <= w < m && #[trigger] object_blocks(objs[w], k % 40, k / 40);
        assert(0 <= w < m + 1 && object_blocks(objs[w], k % 40, k / 40));
    }
    if blocked_by(objs, m + 1, k) && !object_blocks(objs[m], k % 40, k / 40) {
        let w = choose|w: int| 0 <= w < m + 1 && #[trigger] object_blocks(objs[w], k % 40, k / 40);
        assert(w < m);
    }
}

impl GameStage {
    /// Marks the obstacle frame of a house standing at `(x, y)`.
    fn block_house(&mut self, x: i16, y: i16)
        requires
            placement_ok((Object::BigHouse, (x, y))),
        ensures
            forall|k: int| #[trigger] bit_is_set(final(self).obstacles@, k) == (bit_is_set(old(self).obstacles@, k)
                || (0 <= k < 1600 && house_blocks(x as int, y as int, k % 40, k / 40))),
            same_but_scan(*old(self), *final(self)),
            final(self).world.ripples == old(self).world.ripples,
            final(self).rnd_gen == old(self).rnd_gen,
    {
        let yy = (y / 4) as usize;
        let xx = (x / 4) as usize;
        let mut j = yy - 1;
        while j < yy + 4
            invariant
                1 <= yy && yy + 3 < 40,
                1 <= xx && xx + 3 < 40,
                yy == y / 4,
                xx == x / 4,
                yy - 1 <= j <= yy + 4,
                forall|k: int| #[trigger] bit_is_set(self.obstacles@, k) == (bit_is_set(old(self).obstacles@, k)
                    || (0 <= k < 1600 && house_blocks(x as int, y as int, k % 40, k / 40) && k / 40 < j)),
                same_but_scan(*old(self), *self),
                self.world.ripples == old(self).world.ripples,
                self.rnd_gen == old(self).rnd_gen,
            decreases yy + 4 - j,
        {
            let mut i = xx - 1;
            while i < xx + 4
                invariant
                    1 <= yy && yy + 3 < 40,
                    1 <= xx && xx + 3 < 40,
                    yy == y / 4,
                    xx == x / 4,
                    yy - 1 <= j < yy + 4,
                    xx - 1 <= i <= xx + 4,
                    forall|k: int| #[trigger] bit_is_set(self.obstacles@, k) == (bit_is_set(old(self).obstacles@, k)
                        || (0 <= k < 1600 && house_blocks(x as int, y as int, k % 40, k / 40)
                            && (k / 40 < j || (k / 40 == j && k % 40 < i)))),
                    same_but_scan(*old(self), *self),
                    self.world.ripples == old(self).world.ripples,
                    self.rnd_gen == old(self).rnd_gen,
                decreases xx + 4 - i,
            {
                let ghost idx = (j * 40 + i) as int;
                proof {
                    assert(idx % 40 == i && idx / 40 == j);
                }
                if j == yy - 1 && i != xx && i != xx + 1 {
                    i += 1;
                    continue;
                }
                if j == yy + 3 && i != xx + 1 {
                    i += 1;
                    continue;
                }
                let passability_tile_idx = j * 40 + i;
                let ghost before = self.obstacles@;
                bitset_set(&mut self.obstacles, passability_tile_idx);
                proof {
                    lemma_set_bit(before, self.obstacles@, idx);
                }
                i += 1;
            }
            j += 1;
        }
    }

    /// Places the objects: a house gets its obstacle frame and joins the
    /// store houses; a worker joins the workers; any other object blocks its
    /// cell and becomes a mature tree (pine, oak), a young tree (little
    /// pine, little oak) or a stump.
    fn place_objects(&mut self, objs: &Vec<Placed>)
        requires
            placements_ok_from(objs@, 0),
        ensures
            forall|k: int| #[trigger] bit_is_set(final(self).obstacles@, k) == (bit_is_set(old(self).obstacles@, k)
                || (0 <= k < 1600 && blocked_by(objs@, objs@.len() as int, k))),
            objects_placed(objs@, *old(self), *final(self)),
            final(self).tilemap == old(self).tilemap,
            final(self).current_frame == old(self).current_frame,
            final(self).world.ripples == old(self).world.ripples,
            final(self).rnd_gen == old(self).rnd_gen,
    {
        proof {
            lemma_placements_each(objs@, 0);
        }
        let ghost a = *self;
        let mut m: usize = 0;
        proof {
            assert(objs@.take(0) =~= Seq::<Placed>::empty());
            assert(self.world.workers@.subrange(0, a.world.workers@.len() as int) =~= a.world.workers@);
        }
        while m < objs.len()
            invariant
                m <= objs@.len(),
                a == *old(self),
                forall|w: int| 0 <= w < objs@.len() ==> #[trigger] placement_ok(objs@[w]),
                forall|k: int| #[trigger] bit_is_set(self.obstacles@, k) == (bit_is_set(a.obstacles@, k)
                    || (0 <= k < 1600 && blocked_by(objs@, m as int, k))),
                objects_placed(objs@.take(m as int), a, *self),
                self.tilemap == a.tilemap,
                self.current_frame == a.current_frame,
                self.world.ripples == a.world.ripples,
                self.rnd_gen == a.rnd_gen,
            decreases objs@.len() - m,
        {
            let (object, (x, y)) = objs[m];
            let ghost o = objs@[m as int];
            let ghost prev = *self;
            let ghost pre_take = objs@.take(m as int);
            proof {
                assert(objs@.take(m + 1) =~= pre_take.push(o));
                pre_take.lemma_filter_push(o, |o: Placed| is_worker(o));
                pre_take.lemma_filter_push(o, |o: Placed| is_grown(o));
                pre_take.lemma_filter_push(o, |o: Placed| is_sapling(o));
                pre_take.lemma_filter_push(o, |o: Placed| is_stump(o));
                pre_take.lemma_filter_push(o, |o: Placed| is_house(o));
                assert(placement_ok(o));
            }
            match object {
                Object::BigHouse => {
                    self.block_house(x, y);
                    self.world.store.push(((x, y), StoreHouse { count_items: 0 }));
                },
                Object::Worker => {
                    self.world.workers.push(Worker {
                        pos: (x, y),
                        bag: Bag { count_items: 0, max_items: 3 },
                        path: VecDeque::new(),
                        target: None,
                        state: WorkerState::Idle,
                    });
                },
                _ => {
                    let passability_tile_idx = (y / 4) as usize * 40 + (x / 4) as usize;
                    let ghost before = self.obstacles@;
                    bitset_set(&mut self.obstacles, passability_tile_idx);
                    proof {
                        lemma_set_bit(before, self.obstacles@, passability_tile_idx as int);
                        assert(passability_tile_idx as int % 40 == x / 4);
                        assert(passability_tile_idx as int / 40 == y / 4);
                    }
                    let (hp, is_mature) = match object {
                        Object::Pine => (PINE_HP_MAX, true),
                        Object::Oak => (OAK_HP_MAX, true),
                        Object::LittlePine => (PINE_HP_MAX, false),
                        Object::LittleOak => (OAK_HP_MAX, false),
                        _ => (0, false),
                    };
                    if hp > 0 {
                        if is_mature {
                            self.world.mature.push((object, (x, y), HealthPoints { amount: hp }));
                        } else {
                            self.world.young.push((object, (x, y), AgePoints { amount: 0 }));
                        }
                    } else {
                        self.world.dead.push((x, y));
                    }
                },
            }
            proof {
                assert forall|k: int| #[trigger] bit_is_set(self.obstacles@, k) == (bit_is_set(a.obstacles@, k)
                    || (0 <= k < 1600 && blocked_by(objs@, m + 1, k))) by {
                    lemma_blocked_step(objs@, m as int, k);
                }
                let t1 = objs@.take(m + 1);
                let nw0 = pre_take.filter(|o: Placed| is_worker(o));
                let nw1 = t1.filter(|o: Placed| is_worker(o));
                assert(self.world.workers@.subrange(0, a.world.workers@.len() as int)
                    =~= prev.world.workers@.subrange(0, a.world.workers@.len() as int));
                assert forall|k: int| 0 <= k < nw1.len() implies
                    fresh_worker(#[trigger] self.world.workers@[a.world.workers@.len() + k], nw1[k].1) by {
                    if k < nw0.len() {
                        assert(self.world.workers@[a.world.workers@.len() + k]
                            == prev.world.workers@[a.world.workers@.len() + k]);
                        assert(nw1[k] == nw0[k]);
                    }
                }
                assert(t1.filter(|o: Placed| is_grown(o)).map_values(|o: Placed| placed_mature(o)) =~=
                    pre_take.filter(|o: Placed| is_grown(o)).map_values(|o: Placed| placed_mature(o))
                    + (if is_grown(o) { seq![placed_mature(o)] } else { Seq::empty() }));
                assert(t1.filter(|o: Placed| is_sapling(o)).map_values(|o: Placed| placed_young(o)) =~=
                    pre_take.filter(|o: Placed| is_sapling(o)).map_values(|o: Placed| placed_young(o))
                    + (if is_sapling(o) { seq![placed_young(o)] } else { Seq::empty() }));
                assert(t1.filter(|o: Placed| is_stump(o)).map_values(|o: Placed| placed_pos(o)) =~=
                    pre_take.filter(|o: Placed| is_stump(o)).map_values(|o: Placed| placed_pos(o))
                    + (if is_stump(o) { seq![placed_pos(o)] } else { Seq::empty() }));
                assert(t1.filter(|o: Placed| is_house(o)).map_values(|o: Placed| placed_house(o)) =~=
                    pre_take.filter(|o: Placed| is_house(o)).map_values(|o: Placed| placed_house(o))
                    + (if is_house(o) { seq![placed_house(o)] } else { Seq::empty() }));
                assert(self.world.mature@ == a.world.mature@ + t1.filter(|o: Placed| is_grown(o)).map_values(|o: Placed| placed_mature(o)));
                assert(self.world.young@ == a.world.young@ + t1.filter(|o: Placed| is_sapling(o)).map_values(|o: Placed| placed_young(o)));
                assert(self.world.dead@ == a.world.dead@ + t1.filter(|o: Placed| is_stump(o)).map_values(|o: Placed| placed_pos(o)));
                assert(self.world.store@ == a.world.store@ + t1.filter(|o: Placed| is_house(o)).map_values(|o: Placed| placed_house(o)));
                assert(self.world.workers@.len() == a.world.workers@.len() + nw1.len());
                assert(self.world.workers@.subrange(0, a.world.workers@.len() as int) == a.world.workers@);
                assert(objects_placed(t1, a, *self));
            }
            m += 1;
        }
        proof {
            assert(objs@.take(objs@.len() as int) =~= objs@);
        }
    }
}


/// Counting workers and houses among the first `i + 1` objects adds the
/// `i`-th object to the counts among the first `i`.
proof fn lemma_count_step(t: Seq<Placed>, i: int)
    requires
        0 <= i < t.len(),
    ensures
        t.take(i + 1).filter(|o: Placed| is_worker(o)).len()
            == t.take(i).filter(|o: Placed| is_worker(o)).len() + (if is_worker(t[i]) { 1int } else { 0int }),
        t.take(i + 1).filter(|o: Placed| is_house(o)).len()
            == t.take(i).filter(|o: Placed| is_house(o)).len() + (if is_house(t[i]) { 1int } else { 0int }),
{
    assert(t.take(i + 1) =~= t.take(i).push(t[i]));
    t.take(i).lemma_filter_push(t[i], |o: Placed| is_worker(o));
    t.take(i).lemma_filter_push(t[i], |o: Placed| is_house(o));
}

/// The village starts with three workers and one store house: the counts
/// grow object by object.
#[verifier::rlimit(100)]
#[verifier::spinoff_prover]
proof fn lemma_initial_counts()
    ensures
        initial_objects().filter(|o: Placed| is_worker(o)).len() == 3,
        initial_objects().filter(|o: Placed| is_house(o)).len() == 1,
{
    let t = initial_objects();
    assert(t.len() == 114);
    assert(t.take(0) =~= Seq::<Placed>::empty());
    assert(t.take(0).filter(|o: Placed| is_worker(o)) =~= Seq::<Placed>::empty()) by { reveal(Seq::filter); }
    assert(t.take(0).filter(|o: Placed| is_house(o)) =~= Seq::<Placed>::empty()) by { reveal(Seq::filter); }
    lemma_count_step(t, 0);
    lemma_count_step(t, 1);
    lemma_count_step(t, 2);
    lemma_count_step(t, 3);
    lemma_count_step(t, 4);
    lemma_count_step(t, 5);
    lemma_count_step(t, 6);
    lemma_count_step(t, 7);
    lemma_count_step(t, 8);
    lemma_count_step(t, 9);
    lemma_count_step(t, 10);
    lemma_count_step(t, 11);
    lemma_count_step(t, 12);
    lemma_count_step(t, 13);
    lemma_count_step(t, 14);
    lemma_count_step(t, 15);
    lemma_count_step(t, 16);
    lemma_count_step(t, 17);
    lemma_count_step(t, 18);
    lemma_count_step(t, 19);
    lemma_count_step(t, 20);
    lemma_count_step(t, 21);
    lemma_count_step(t, 22);
    lemma_count_step(t, 23);
    lemma_count_step(t, 24);
    lemma_count_step(t, 25);
    lemma_count_step(t, 26);
    lemma_count_step(t, 27);
    lemma_count_step(t, 28);
    lemma_count_step(t, 29);
    lemma_count_step(t, 30);
    lemma_count_step(t, 31);
    lemma_count_step(t, 32);
    lemma_count_step(t, 33);
    lemma_count_step(t, 34);
    lemma_count_step(t, 35);
    lemma_count_step(t, 36);
    lemma_count_step(t, 37);
    lemma_count_step(t, 38);
    lemma_count_step(t, 39);
    lemma_count_step(t, 40);
    lemma_count_step(t, 41);
    lemma_count_step(t, 42);
    lemma_count_step(t, 43);
    lemma_count_step(t, 44);
    lemma_count_step(t, 45);
    lemma_count_step(t, 46);
    lemma_count_step(t, 47);
    lemma_count_step(t, 48);
    lemma_count_step(t, 49);
    lemma_count_step(t, 50);
    lemma_count_step(t, 51);
    lemma_count_step(t, 52);
    lemma_count_step(t, 53);
    lemma_count_step(t, 54);
    lemma_count_step(t, 55);
    lemma_count_step(t, 56);
    lemma_count_step(t, 57);
    lemma_count_step(t, 58);
    lemma_count_step(t, 59);
    lemma_count_step(t, 60);
    lemma_count_step(t, 61);
    lemma_count_step(t, 62);
    lemma_count_step(t, 63);
    lemma_count_step(t, 64);
    lemma_count_step(t, 65);
    lemma_count_step(t, 66);
    lemma_count_step(t, 67);
    lemma_count_step(t, 68);
    lemma_count_step(t, 69);
    lemma_count_step(t, 70);
    lemma_count_step(t, 71);
    lemma_count_step(t, 72);
    lemma_count_step(t, 73);
    lemma_count_step(t, 74);
    lemma_count_step(t, 75);
    lemma_count_step(t, 76);
    lemma_count_step(t, 77);
    lemma_count_step(t, 78);
    lemma_count_step(t, 79);
    lemma_count_step(t, 80);
    lemma_count_step(t, 81);
    lemma_count_step(t, 82);
    lemma_count_step(t, 83);
    lemma_count_step(t, 84);
    lemma_count_step(t, 85);
    lemma_count_step(t, 86);
    lemma_count_step(t, 87);
    lemma_count_step(t, 88);
    lemma_count_step(t, 89);
    lemma_count_step(t, 90);
    lemma_count_step(t, 91);
    lemma_count_step(t, 92);
    lemma_count_step(t, 93);
    lemma_count_step(t, 94);
    lemma_count_step(t, 95);
    lemma_count_step(t, 96);
    lemma_count_step(t, 97);
    lemma_count_step(t, 98);
    lemma_count_step(t, 99);
    lemma_count_step(t, 100);
    lemma_count_step(t, 101);
    lemma_count_step(t, 102);
    lemma_count_step(t, 103);
    lemma_count_step(t, 104);
    lemma_count_step(t, 105);
    lemma_count_step(t, 106);
    lemma_count_step(t, 107);
    lemma_count_step(t, 108);
    lemma_count_step(t, 109);
    lemma_count_step(t, 110);
    lemma_count_step(t, 111);
    lemma_count_step(t, 112);
    lemma_count_step(t, 113);
    assert(t.take(114) =~= t);
}

impl GameStage {
    /// A fresh stage: frame 0, a new random source, no obstacles, an empty
    /// world and the village terrain.
    pub fn new() -> (r: GameStage)
        ensures
            r.wf(),
            r.current_frame == 0,
            r.rnd_gen.state == RndGen::seed(),
            forall|k: int| !#[trigger] bit_is_set(r.obstacles@, k),
            forall|k: int| !#[trigger] bit_is_set(r.visited_fields@, k),
            forall|i: int| 0 <= i < 1600 ==> #[trigger] r.path_buffer@[i] == Direction::Nowhere,
            r.world.workers@.len() == 0,
            r.world.ripples@.len() == 0,
            r.world.store@.len() == 0,
            r.world.mature@.len() == 0,
            r.world.young@.len() == 0,
            r.world.dead@.len() == 0,
            r.path_queue@.len() == 0,
            r.tilemap.map@ == initial_map(),
    {
        let obstacles = bitset_empty();
        let visited_fields = bitset_empty();
        proof {
            lemma_empty_bits(obstacles@);
            lemma_empty_bits(visited_fields@);
        }
        let r = GameStage {
            rnd_gen: RndGen::new(),
            obstacles,
            visited_fields,
            path_buffer: [Direction::Nowhere; 1600],
            path_queue: VecDeque::new(),
            current_frame: 0,
            world: World {
                workers: Vec::new(),
                ripples: Vec::new(),
                store: Vec::new(),
                mature: Vec::new(),
                young: Vec::new(),
                dead: Vec::new(),
            },
            tilemap: Tilemap {
                map: [
                    1, 1, 1, 1, 1, 1, 1, 1, 1, 1, 1, 1, 1, 1, 1, 1, 1, 1, 1, 1, 1,
                    0, 0, 1, 1, 0, 0, 1, 1, 1, 1, 1, 1, 1, 1, 1, 1, 1, 1, 1, 0, 0,
                    0, 0, 0, 0, 0, 0, 1, 1, 1, 1, 1, 1, 1, 1, 1, 1, 1, 1, 0, 0, 0,
                    0, 0, 0, 1, 1, 0, 1, 1, 1, 1, 1, 1, 1, 1, 1, 1, 1, 1, 1, 0, 0,
                    0, 0, 1, 1, 1, 1, 1, 1, 1, 1, 1, 1, 1, 0, 1, 1, 1, 1, 0, 0, 0,
                    0, 0, 1, 1, 1, 1, 1, 1, 1, 1, 1, 1, 0, 0, 0, 1, 0, 0, 0, 0, 0,
                    0, 0, 1, 1, 1, 1, 1, 1, 0, 1, 1, 0, 0, 0, 0, 0, 0, 0, 0, 0, 0,
                    0, 1, 1, 1, 0, 0, 0, 0, 0, 0, 1, 1, 0, 0, 0, 0, 0, 0, 0, 0, 0,
                    1, 1, 1, 0, 0, 0, 0, 0, 0, 0, 0, 1, 1, 0, 0, 0, 0, 0, 0, 0, 0,
                    0, 0, 0, 0, 0, 0, 0, 0, 0, 0, 0, 1, 1, 0, 0, 0, 0, 0, 0, 0, 0,
                    0, 0, 0, 0, 0, 0, 0, 0, 0, 0, 1, 1, 0, 0, 0, 0, 0, 0, 0, 0, 0,
                    0, 0, 0, 0, 0, 0, 0, 0, 0, 1, 1, 1, 1, 1, 1, 0, 0, 0, 0, 0, 0,
                    0, 0, 0, 0, 0, 0, 1, 1, 1, 1, 1, 1, 1, 1, 1, 1, 0, 0, 0, 0, 0,
                    0, 0, 0, 0, 0, 0, 0, 1, 1, 1, 1, 0, 0, 0, 1, 1, 1, 1, 1, 1, 1,
                    0, 0, 0, 0, 0, 0, 0, 0, 1, 1, 0, 0, 0, 0, 0, 1, 1, 1, 1, 1, 1,
                    0, 0, 0, 0, 1, 1, 1, 1, 1, 1, 1, 1, 0, 0, 1, 1, 1, 1, 1, 1, 1,
                    0, 0, 0, 1, 1, 1, 1, 1, 1, 1, 1, 1, 0, 1, 1, 1, 1, 1, 1, 1, 1,
                    1, 1, 1, 1, 1, 1, 1, 1, 1, 1, 1, 1, 1, 1, 1, 1, 1, 1, 1, 1, 1,
                    1, 1, 1, 1, 1, 1, 1, 1, 1, 1, 1, 1, 1, 1, 1, 1, 1, 1, 1, 1, 1,
                    1, 1, 1, 1, 1, 1, 1, 1, 1, 1, 1, 1, 1, 1, 1, 1, 1, 1, 1, 1, 1,
                    1, 1, 1, 1, 1, 1, 1, 1, 1, 1, 1, 1, 1, 1, 1, 1, 1, 1, 1, 1, 1,
                ],
            },
        };
        proof {
            assert(r.tilemap.map@ =~= initial_map());
        }
        r
    }

    /// Sets up the village: water cells become obstacles and get ripples
    /// (see `mark_water`), then the village's objects are placed (see
    /// `place_objects`).
    pub fn start(&mut self)
        ensures
            forall|k: int| #[trigger] bit_is_set(final(self).obstacles@, k) == (bit_is_set(old(self).obstacles@, k)
                || (0 <= k < 1600 && (water_at(old(self).tilemap.map@, k)
                    || blocked_by(initial_objects(), 114, k)))),
            final(self).world.ripples@ == old(self).world.ripples@
                + scan_ripples(old(self).tilemap.map@, 0, old(self).rnd_gen.state, false).0,
            final(self).rnd_gen.state == scan_ripples(old(self).tilemap.map@, 0, old(self).rnd_gen.state, false).1,
            ripples_placed(old(self).tilemap.map@, old(self).world.ripples@, final(self).world.ripples@),
            objects_placed(initial_objects(), *old(self), *final(self)),
            final(self).tilemap == old(self).tilemap,
            final(self).current_frame == old(self).current_frame,
            old(self).wf() && old(self).world.workers@.len() == 0 ==> final(self).wf(),
    {
        self.mark_water();
        let ghost mid = *self;
        let objs = initial_objects_vec();
        proof {
            lemma_initial_placements();
        }
        self.place_objects(&objs);
        proof {
            let t = initial_objects();
            assert(t.len() == 114);
            lemma_placements_each(t, 0);
            lemma_initial_counts();
            if old(self).wf() && old(self).world.workers@.len() == 0 {
                let nw = t.filter(|o: Placed| is_worker(o));
                assert forall|k: int| 0 <= k < self.world.workers@.len() implies
                    #[trigger] worker_ok(self.world.workers@[k]) by {
                    let pw = |o: Placed| is_worker(o);
                    assert(fresh_worker(self.world.workers@[0 + k], nw[k].1));
                    assert(nw[k] == t.filter(pw)[k]);
                    assert(t.filter(pw).contains(nw[k]));
                    t.lemma_filter_contains_rev(pw, nw[k]);
                    t.lemma_filter_pred(pw, k);
                    let w = choose|w: int| 0 <= w < t.len() && t[w] == nw[k];
                    assert(placement_ok(t[w]));
                    assert(is_worker(nw[k]));
                }
                let pg = |o: Placed| is_grown(o);
                let ps = |o: Placed| is_sapling(o);
                let pd = |o: Placed| is_stump(o);
                let fm = t.filter(pg);
                let fy = t.filter(ps);
                let fd = t.filter(pd);
                assert forall|k: int| 0 <= k < self.world.mature@.len() implies
                    nonneg_pos(#[trigger] self.world.mature@[k].1) by {
                    let n0 = old(self).world.mature@.len();
                    if k >= n0 {
                        let j = k - n0;
                        assert(fm.contains(fm[j]));
                        t.lemma_filter_contains_rev(pg, fm[j]);
                        let w = choose|w: int| 0 <= w < t.len() && t[w] == fm[j];
                        assert(placement_ok(t[w]));
                        assert(self.world.mature@[k] == placed_mature(fm[j]));
                    }
                }
                assert forall|k: int| 0 <= k < self.world.young@.len() implies
                    young_ok(#[trigger] self.world.young@[k]) && nonneg_pos(self.world.young@[k].1) by {
                    let n0 = old(self).world.young@.len();
                    if k >= n0 {
                        let j = k - n0;
                        assert(fy.contains(fy[j]));
                        t.lemma_filter_contains_rev(ps, fy[j]);
                        t.lemma_filter_pred(ps, j);
                        let w = choose|w: int| 0 <= w < t.len() && t[w] == fy[j];
                        assert(placement_ok(t[w]));
                        assert(self.world.young@[k] == placed_young(fy[j]));
                    }
                }
                assert forall|k: int| 0 <= k < self.world.dead@.len() implies
                    nonneg_pos(#[trigger] self.world.dead@[k]) by {
                    let n0 = old(self).world.dead@.len();
                    if k >= n0 {
                        let j = k - n0;
                        assert(fd.contains(fd[j]));
                        t.lemma_filter_contains_rev(pd, fd[j]);
                        let w = choose|w: int| 0 <= w < t.len() && t[w] == fd[j];
                        assert(placement_ok(t[w]));
                        assert(self.world.dead@[k] == placed_pos(fd[j]));
                    }
                }
            }
        }
    }
}


} // verus!
