use vstd::prelude::*;
use crate::game_stage::{GameStage, MatureTree, StoreEntry, Worker, YoungTree};
use crate::nature::{mature_pos, removed_desc, swap_keep};
use crate::objects::Object;
use crate::passability::bit_is_set;
use crate::render::Placed;
use crate::setup::{blocked_by, initial_objects, object_blocks, water_at, water_cell};

verus! {

/// Where trees stand, as a multiset: mature trees, young trees and stumps.
pub open spec fn spots(m: Seq<MatureTree>, y: Seq<YoungTree>, d: Seq<(i16, i16)>) -> vstd::multiset::Multiset<(i16, i16)> {
    m.map_values(|t: MatureTree| mature_pos(t)).to_multiset()
        .add(y.map_values(|t: YoungTree| t.1).to_multiset())
        .add(d.to_multiset())
}

/// Where the trees of a stage stand.
pub open spec fn tree_spots(s: GameStage) -> vstd::multiset::Multiset<(i16, i16)> {
    spots(s.world.mature@, s.world.young@, s.world.dead@)
}

/// Total wood left in a list of mature trees.
pub open spec fn wood_in_trees(t: Seq<MatureTree>) -> int
    decreases t.len(),
{
    if t.len() == 0 { 0 } else { wood_in_trees(t.drop_last()) + t.last().2.amount }
}

/// Total wood in the workers' bags.
pub open spec fn wood_in_bags(ws: Seq<Worker>) -> int
    decreases ws.len(),
{
    if ws.len() == 0 { 0 } else { wood_in_bags(ws.drop_last()) + ws.last().bag.count_items }
}

/// Total wood stored in store houses.
pub open spec fn wood_in_stores(s: Seq<StoreEntry>) -> int
    decreases s.len(),
{
    if s.len() == 0 { 0 } else { wood_in_stores(s.drop_last()) + s.last().1.count_items }
}

/// All the wood of the world: on trees, in bags and in store houses.
pub open spec fn stage_wood(s: GameStage) -> int {
    wood_in_trees(s.world.mature@) + wood_in_bags(s.world.workers@) + wood_in_stores(s.world.store@)
}

/// Number of trees of the world, standing (mature or young) or stumps.
pub open spec fn tree_count(s: GameStage) -> int {
    (s.world.mature@.len() + s.world.young@.len() + s.world.dead@.len()) as int
}

pub proof fn lemma_wood_trees_concat(a: Seq<MatureTree>, b: Seq<MatureTree>)
    ensures
        wood_in_trees(a + b) == wood_in_trees(a) + wood_in_trees(b),
    decreases b.len(),
{
    if b.len() == 0 {
        assert(a + b =~= a);
    } else {
        lemma_wood_trees_concat(a, b.drop_last());
        assert((a + b).drop_last() =~= a + b.drop_last());
    }
}

pub proof fn lemma_wood_trees_update(t: Seq<MatureTree>, k: int, x: MatureTree)
    requires
        0 <= k < t.len(),
    ensures
        wood_in_trees(t.update(k, x)) == wood_in_trees(t) - t[k].2.amount + x.2.amount,
    decreases t.len(),
{
    if k < t.len() - 1 {
        lemma_wood_trees_update(t.drop_last(), k, x);
        assert(t.update(k, x).drop_last() =~= t.drop_last().update(k, x));
    } else {
        assert(t.update(k, x).drop_last() =~= t.drop_last());
    }
}

pub proof fn lemma_wood_bags_update(ws: Seq<Worker>, k: int, w: Worker)
    requires
        0 <= k < ws.len(),
    ensures
        wood_in_bags(ws.update(k, w)) == wood_in_bags(ws) - ws[k].bag.count_items + w.bag.count_items,
    decreases ws.len(),
{
    if k < ws.len() - 1 {
        lemma_wood_bags_update(ws.drop_last(), k, w);
        assert(ws.update(k, w).drop_last() =~= ws.drop_last().update(k, w));
    } else {
        assert(ws.update(k, w).drop_last() =~= ws.drop_last());
    }
}

pub proof fn lemma_wood_stores_update(s: Seq<StoreEntry>, k: int, x: StoreEntry)
    requires
        0 <= k < s.len(),
    ensures
        wood_in_stores(s.update(k, x)) == wood_in_stores(s) - s[k].1.count_items + x.1.count_items,
    decreases s.len(),
{
    if k < s.len() - 1 {
        lemma_wood_stores_update(s.drop_last(), k, x);
        assert(s.update(k, x).drop_last() =~= s.drop_last().update(k, x));
    } else {
        assert(s.update(k, x).drop_last() =~= s.drop_last());
    }
}

/// Removing by `swap_keep` splits the elements from `i` on into the kept
/// and the removed ones, so the counts add up.
pub proof fn lemma_swap_keep_len<T>(s: Seq<T>, keep: Seq<bool>, i: int)
    requires
        0 <= i <= s.len(),
    ensures
        swap_keep(s, keep, i).len() + removed_desc(s, keep, i).len() == s.len() - i,
    decreases s.len() - i,
{
    if i < s.len() {
        lemma_swap_keep_len(s, keep, i + 1);
    }
}

/// Removing by `swap_keep` splits the wood of the trees from `i` on into the
/// kept and the removed ones.
pub proof fn lemma_swap_keep_wood(s: Seq<MatureTree>, keep: Seq<bool>, i: int)
    requires
        0 <= i <= s.len(),
        keep.len() == s.len(),
    ensures
        wood_in_trees(swap_keep(s, keep, i)) + wood_in_trees(removed_desc(s, keep, i))
            == wood_in_trees(s.subrange(i, s.len() as int)),
    decreases s.len() - i,
{
    if i == s.len() {
        assert(s.subrange(i, s.len() as int) =~= Seq::<MatureTree>::empty());
    } else {
        lemma_swap_keep_wood(s, keep, i + 1);
        let rest = swap_keep(s, keep, i + 1);
        let r1 = removed_desc(s, keep, i + 1);
        assert(s.subrange(i, s.len() as int) =~= seq![s[i]] + s.subrange(i + 1, s.len() as int));
        lemma_wood_trees_concat(seq![s[i]], s.subrange(i + 1, s.len() as int));
        assert(wood_in_trees(seq![s[i]]) == s[i].2.amount) by {
            assert(seq![s[i]].drop_last() =~= Seq::<MatureTree>::empty());
            reveal_with_fuel(wood_in_trees, 2);
        }
        if keep[i] {
            lemma_wood_trees_concat(seq![s[i]], rest);
            assert(removed_desc(s, keep, i) =~= r1);
        } else {
            lemma_wood_trees_concat(r1, seq![s[i]]);
            if rest.len() > 0 {
                assert(rest =~= rest.drop_last() + seq![rest.last()]);
                lemma_wood_trees_concat(rest.drop_last(), seq![rest.last()]);
                lemma_wood_trees_concat(seq![rest.last()], rest.drop_last());
                assert(wood_in_trees(seq![rest.last()]) == rest.last().2.amount) by {
                    assert(seq![rest.last()].drop_last() =~= Seq::<MatureTree>::empty());
                    reveal_with_fuel(wood_in_trees, 2);
                }
            }
        }
    }
}

/// Trees that are all without wood hold no wood.
pub proof fn lemma_no_wood(t: Seq<MatureTree>)
    requires
        forall|k: int| 0 <= k < t.len() ==> #[trigger] t[k].2.amount == 0,
    ensures
        wood_in_trees(t) == 0,
    decreases t.len(),
{
    if t.len() > 0 {
        lemma_no_wood(t.drop_last());
    }
}

/// Wood of mature trees is never negative.
pub proof fn lemma_wood_nonneg(t: Seq<MatureTree>)
    ensures
        wood_in_trees(t) >= 0,
    decreases t.len(),
{
    if t.len() > 0 {
        lemma_wood_nonneg(t.drop_last());
    }
}


/// After `start`, a grid cell `(i, j)` is an obstacle exactly when it was
/// one before, is water, is the cell of one of the village's trees, or lies
/// in the frame of its store house. For a house at pixel `(x, y)`, with
/// cell `(xx, yy) = (x / 4, y / 4)`, the frame is the two cells
/// `(xx, yy - 1)` and `(xx + 1, yy - 1)`, the cells from `xx - 1` to `xx + 3`
/// of the rows `yy` to `yy + 2`, and `(xx + 1, yy + 3)`. Workers block
/// nothing.
pub proof fn law_start_obstacles(map: Seq<u8>, before: Seq<u8>, after: Seq<u8>)
    requires
        forall|k: int| #[trigger] bit_is_set(after, k) == (bit_is_set(before, k)
            || (0 <= k < 1600 && (water_at(map, k) || blocked_by(initial_objects(), 114, k)))),
    ensures
        forall|i: int, j: int| 0 <= i < 40 && 0 <= j < 40 ==>
            (#[trigger] bit_is_set(after, j * 40 + i) == (bit_is_set(before, j * 40 + i) || water_cell(map, i, j)
                || exists|m: int| 0 <= m < 114 && #[trigger] frame_cell_of(initial_objects()[m], i, j))),
{
    let objs = initial_objects();
    assert forall|i: int, j: int| 0 <= i < 40 && 0 <= j < 40 implies
        (#[trigger] bit_is_set(after, j * 40 + i) == (bit_is_set(before, j * 40 + i) || water_cell(map, i, j)
            || exists|m: int| 0 <= m < 114 && #[trigger] frame_cell_of(objs[m], i, j))) by {
        let k = j * 40 + i;
        assert(k % 40 == i && k / 40 == j);
        assert(bit_is_set(after, k) == (bit_is_set(before, k)
            || (0 <= k < 1600 && (water_at(map, k) || blocked_by(objs, 114, k)))));
        assert forall|m: int| 0 <= m < 114 implies
            #[trigger] object_blocks(objs[m], i, j) == frame_cell_of(objs[m], i, j) by {}
        if blocked_by(objs, 114, k) {
            let m = choose|m: int| 0 <= m < 114 && #[trigger] object_blocks(objs[m], k % 40, k / 40);
            assert(frame_cell_of(objs[m], i, j));
        }
        if exists|m: int| 0 <= m < 114 && #[trigger] frame_cell_of(objs[m], i, j) {
            let m = choose|m: int| 0 <= m < 114 && #[trigger] frame_cell_of(objs[m], i, j);
            assert(object_blocks(objs[m], k % 40, k / 40));
        }
    }
}

/// Grid cell `(i, j)` lies under object `o` placed at pixel `(x, y)`: for a
/// house, cell `(x / 4 + a, y / 4 + b)` for `b == -1` and `a` in `{0, 1}`,
/// for `b` in `0..=2` and `a` in `-1..=3`, and for `b == 3` and `a == 1`;
/// for a worker no cell; for anything else its own cell `(x / 4, y / 4)`.
pub open spec fn frame_cell_of(o: Placed, i: int, j: int) -> bool {
    let a = i - o.1.0 / 4;
    let b = j - o.1.1 / 4;
    if o.0 == Object::BigHouse {
        ||| b == -1 && 0 <= a <= 1
        ||| 0 <= b <= 2 && -1 <= a <= 3
        ||| b == 3 && a == 1
    } else if o.0 == Object::Worker {
        false
    } else {
        a == 0 && b == 0
    }
}


} // verus!
