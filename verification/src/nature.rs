use vstd::prelude::*;
use crate::game_stage::{
    nonneg_pos, young_ok, AgePoints, GameStage, HealthPoints, MatureTree, Ripple, RippleOffset,
    YoungTree, OAK_AGE_TILL_MATURE, OAK_HP_MAX, PINE_AGE_TILL_MATURE, PINE_HP_MAX,
};
use crate::objects::Object;
use crate::random::{range_value, xorshift_next};
use crate::laws::{
    spots, tree_spots, stage_wood, tree_count, wood_in_trees, lemma_no_wood, lemma_swap_keep_len, lemma_swap_keep_wood,
    lemma_wood_nonneg, lemma_wood_trees_concat,
};

verus! {

/// What is left of `s` from index `i` on when, going from the highest index
/// down, every element at an index `j` with `!keep[j]` is removed by moving
/// the current last element into its place.
pub open spec fn swap_keep<T>(s: Seq<T>, keep: Seq<bool>, i: int) -> Seq<T>
    decreases s.len() - i,
{
    if i < 0 || i >= s.len() {
        Seq::empty()
    } else {
        let rest = swap_keep(s, keep, i + 1);
        if keep[i] {
            seq![s[i]] + rest
        } else if rest.len() == 0 {
            rest
        } else {
            seq![rest.last()] + rest.drop_last()
        }
    }
}

/// The elements of `s` from index `i` on with `!keep[j]`, highest index first.
pub open spec fn removed_desc<T>(s: Seq<T>, keep: Seq<bool>, i: int) -> Seq<T>
    decreases s.len() - i,
{
    if i < 0 || i >= s.len() {
        Seq::empty()
    } else {
        removed_desc(s, keep, i + 1) + (if keep[i] { Seq::empty() } else { seq![s[i]] })
    }
}

/// The keep mask of the elements that satisfy `p`.
pub open spec fn mask_of<T>(s: Seq<T>, p: spec_fn(T) -> bool) -> Seq<bool> {
    Seq::new(s.len(), |k: int| p(s[k]))
}

/// A mature tree with wood left.
pub open spec fn has_wood(t: MatureTree) -> bool {
    t.2.amount != 0
}

/// The position of a mature tree.
pub open spec fn mature_pos(t: MatureTree) -> (i16, i16) {
    t.1
}

/// A young tree that is old enough to become mature.
pub open spec fn is_ripe(t: YoungTree) -> bool {
    ||| t.0 == Object::LittleOak && t.2.amount >= OAK_AGE_TILL_MATURE
    ||| t.0 == Object::LittlePine && t.2.amount >= PINE_AGE_TILL_MATURE
}

/// The mature tree a ripe young tree becomes: an oak with 21 wood or a pine
/// with 15.
pub open spec fn grown_up(t: YoungTree) -> MatureTree {
    if t.0 == Object::LittleOak {
        (Object::Oak, t.1, HealthPoints { amount: OAK_HP_MAX })
    } else {
        (Object::Pine, t.1, HealthPoints { amount: PINE_HP_MAX })
    }
}

proof fn lemma_swap_keep_step<T>(s: Seq<T>, keep: Seq<bool>, i: int, cur: Seq<T>)
    requires
        0 < i <= s.len(),
        keep.len() == s.len(),
        cur == s.subrange(0, i) + swap_keep(s, keep, i),
    ensures
        cur[i - 1] == s[i - 1],
        i - 1 < cur.len(),
        keep[i - 1] ==> cur == s.subrange(0, i - 1) + swap_keep(s, keep, i - 1),
        !keep[i - 1] ==> cur.update(i - 1, cur.last()).drop_last()
            == s.subrange(0, i - 1) + swap_keep(s, keep, i - 1),
{
    let k = swap_keep(s, keep, i);
    assert(swap_keep(s, keep, i - 1) == (if keep[i - 1] {
        seq![s[i - 1]] + k
    } else if k.len() == 0 {
        k
    } else {
        seq![k.last()] + k.drop_last()
    }));
    assert(cur[i - 1] == s[i - 1]);
    if keep[i - 1] {
        assert(cur =~= s.subrange(0, i - 1) + (seq![s[i - 1]] + k));
    } else if k.len() == 0 {
        assert(cur.update(i - 1, cur.last()).drop_last() =~= s.subrange(0, i - 1));
    } else {
        assert(cur.update(i - 1, cur.last()).drop_last() =~= s.subrange(0, i - 1) + (seq![k.last()] + k.drop_last()));
    }
}

/// Every element kept by `swap_keep` is an element of `s` that `keep` marks.
pub proof fn lemma_swap_keep_all<T>(s: Seq<T>, keep: Seq<bool>, i: int, p: spec_fn(T) -> bool)
    requires
        keep.len() == s.len(),
        forall|j: int| 0 <= j < s.len() && keep[j] ==> #[trigger] p(s[j]),
    ensures
        forall|k: int| 0 <= k < swap_keep(s, keep, i).len() ==> #[trigger] p(swap_keep(s, keep, i)[k]),
    decreases s.len() - i,
{
    if 0 <= i < s.len() {
        lemma_swap_keep_all(s, keep, i + 1, p);
        let rest = swap_keep(s, keep, i + 1);
        let r = swap_keep(s, keep, i);
        assert forall|k: int| 0 <= k < r.len() implies #[trigger] p(r[k]) by {
            if keep[i] {
                if k > 0 {
                    assert(r[k] == rest[k - 1]);
                }
            } else if rest.len() > 0 {
                if k == 0 {
                    assert(r[k] == rest[rest.len() - 1]);
                } else {
                    assert(r[k] == rest[k - 1]);
                }
            }
        }
    }
}

/// Every element removed by `swap_keep` is an element of `s` that `keep` does not mark.
pub proof fn lemma_removed_all<T>(s: Seq<T>, keep: Seq<bool>, i: int, p: spec_fn(T) -> bool)
    requires
        keep.len() == s.len(),
        forall|j: int| 0 <= j < s.len() && !keep[j] ==> #[trigger] p(s[j]),
    ensures
        forall|k: int| 0 <= k < removed_desc(s, keep, i).len() ==> #[trigger] p(removed_desc(s, keep, i)[k]),
    decreases s.len() - i,
{
    if 0 <= i < s.len() {
        lemma_removed_all(s, keep, i + 1, p);
        let rest = removed_desc(s, keep, i + 1);
        let r = removed_desc(s, keep, i);
        assert forall|k: int| 0 <= k < r.len() implies #[trigger] p(r[k]) by {
            if k < rest.len() {
                assert(r[k] == rest[k]);
            }
        }
    }
}

/// Removing by `swap_keep` keeps exactly the elements that satisfy `p`, as a
/// multiset.
pub proof fn lemma_swap_keep_multiset<T>(s: Seq<T>, p: spec_fn(T) -> bool, i: int)
    requires
        0 <= i <= s.len(),
    ensures
        swap_keep(s, mask_of(s, p), i).to_multiset() == s.subrange(i, s.len() as int).filter(p).to_multiset(),
    decreases s.len() - i,
{
    broadcast use vstd::seq_lib::lemma_multiset_commutative;
    let keep = mask_of(s, p);
    if i == s.len() {
        assert(s.subrange(i, s.len() as int).filter(p) =~= Seq::<T>::empty()) by {
            reveal(Seq::filter);
        }
        assert(swap_keep(s, keep, i) =~= Seq::<T>::empty());
    } else {
        lemma_swap_keep_multiset(s, p, i + 1);
        let rest = swap_keep(s, keep, i + 1);
        let tail = s.subrange(i + 1, s.len() as int);
        assert(s.subrange(i, s.len() as int) =~= seq![s[i]] + tail);
        tail.lemma_filter_prepend(s[i], p);
        if !keep[i] && rest.len() > 0 {
            assert(rest =~= rest.drop_last() + seq![rest.last()]);
            vstd::seq_lib::lemma_seq_union_to_multiset_commutative(rest.drop_last(), seq![rest.last()]);
        }
        if keep[i] || rest.len() == 0 {
            assert(seq![s[i]] + tail.filter(p) == seq![s[i]] + tail.filter(p));
        }
        if !keep[i] {
            assert((Seq::<T>::empty() + tail.filter(p)) =~= tail.filter(p));
        }
    }
}

/// What `swap_keep` keeps and what `removed_desc` collects make up the
/// elements from index `i` on, as a multiset (also after mapping by `f`).
pub proof fn lemma_swap_keep_split<T, U>(s: Seq<T>, keep: Seq<bool>, i: int, f: spec_fn(T) -> U)
    requires
        keep.len() == s.len(),
        0 <= i <= s.len(),
    ensures
        swap_keep(s, keep, i).map_values(f).to_multiset().add(removed_desc(s, keep, i).map_values(f).to_multiset())
            == s.subrange(i, s.len() as int).map_values(f).to_multiset(),
    decreases s.len() - i,
{
    broadcast use vstd::seq_lib::lemma_multiset_commutative;
    if i == s.len() {
        assert(swap_keep(s, keep, i).map_values(f) =~= Seq::<U>::empty());
        assert(removed_desc(s, keep, i).map_values(f) =~= Seq::<U>::empty());
        assert(s.subrange(i, s.len() as int).map_values(f) =~= Seq::<U>::empty());
        let e = Seq::<U>::empty();
        assert(e + e =~= e);
        assert((e + e).to_multiset() =~= e.to_multiset().add(e.to_multiset()));
    } else {
        lemma_swap_keep_split(s, keep, i + 1, f);
        let rest = swap_keep(s, keep, i + 1);
        let rem = removed_desc(s, keep, i + 1);
        let x = seq![f(s[i])];
        let tail = s.subrange(i + 1, s.len() as int).map_values(f);
        assert(s.subrange(i, s.len() as int).map_values(f) =~= x + tail);
        let a = rest.map_values(f).to_multiset();
        let b = rem.map_values(f).to_multiset();
        if keep[i] {
            assert(swap_keep(s, keep, i).map_values(f) =~= x + rest.map_values(f));
            assert(removed_desc(s, keep, i).map_values(f) =~= rem.map_values(f));
            assert(x.to_multiset().add(a).add(b) =~= x.to_multiset().add(a.add(b)));
        } else {
            assert(removed_desc(s, keep, i).map_values(f) =~= rem.map_values(f) + x);
            if rest.len() > 0 {
                let rot = seq![rest.last()] + rest.drop_last();
                assert(rot.map_values(f) =~= seq![f(rest.last())] + rest.drop_last().map_values(f));
                assert(rest.map_values(f) =~= rest.drop_last().map_values(f) + seq![f(rest.last())]);
                assert(rot.map_values(f).to_multiset() =~= a);
            } else {
                assert(swap_keep(s, keep, i) == rest);
            }
            assert(a.add(b.add(x.to_multiset())) =~= x.to_multiset().add(a.add(b)));
        }
    }
}

/// Trees dying leave every tree where it stands.
proof fn lemma_murder_spots(m: Seq<MatureTree>, y: Seq<YoungTree>, d: Seq<(i16, i16)>)
    ensures
        spots(swap_keep(m, mask_of(m, |t: MatureTree| has_wood(t)), 0), y,
            d + removed_desc(m, mask_of(m, |t: MatureTree| has_wood(t)), 0).map_values(|t: MatureTree| mature_pos(t)))
            == spots(m, y, d),
{
    broadcast use vstd::seq_lib::lemma_multiset_commutative;
    let keep = mask_of(m, |t: MatureTree| has_wood(t));
    let f = |t: MatureTree| mature_pos(t);
    lemma_swap_keep_split(m, keep, 0, f);
    assert(m.subrange(0, m.len() as int) =~= m);
    let a = swap_keep(m, keep, 0).map_values(f).to_multiset();
    let r = removed_desc(m, keep, 0).map_values(f);
    let ym = y.map_values(|t: YoungTree| t.1).to_multiset();
    assert((d + r).to_multiset() =~= d.to_multiset().add(r.to_multiset()));
    assert(a.add(ym).add(d.to_multiset().add(r.to_multiset()))
        =~= a.add(r.to_multiset()).add(ym).add(d.to_multiset()));
}

/// Growth leaves every tree where it stands: stumps come back where they
/// were, ripe young trees grow up in place, and growing moves nothing.
proof fn lemma_grow_spots(
    d0: Seq<(i16, i16)>,
    y0: Seq<YoungTree>,
    m0: Seq<MatureTree>,
    st0: u32,
    dead1: Seq<(i16, i16)>,
    young1: Seq<YoungTree>,
    st1: u32,
    young2: Seq<YoungTree>,
    m2: Seq<MatureTree>,
    y3: Seq<YoungTree>,
)
    requires
        stumps_revived(d0, y0, st0, dead1, young1, st1),
        ripe_promoted(young1, m0, young2, m2),
        young_aged(young2, y3),
    ensures
        spots(m2, y3, dead1) == spots(m0, y0, d0),
{
    broadcast use vstd::seq_lib::lemma_multiset_commutative;
    let keep = revive_draws(d0.len() as int, st0).0;
    let back = removed_desc(d0, keep, 0);
    let id = |p: (i16, i16)| p;
    lemma_swap_keep_split(d0, keep, 0, id);
    assert(d0.subrange(0, d0.len() as int).map_values(id) =~= d0);
    assert(swap_keep(d0, keep, 0).map_values(id) =~= dead1);
    assert(back.map_values(id) =~= back);
    let py = |t: YoungTree| t.1;
    assert(young1.map_values(py) =~= y0.map_values(py) + back) by {
        assert forall|k: int| 0 <= k < young1.len() implies young1.map_values(py)[k]
            == (y0.map_values(py) + back)[k] by {
            if k < y0.len() {
                assert(young1[k] == young1.subrange(0, y0.len() as int)[k]);
            } else {
                assert(young1[y0.len() + (k - y0.len())].1 == back[k - y0.len()]);
            }
        }
    }
    let keep2 = mask_of(young1, |t: YoungTree| !is_ripe(t));
    let rem = removed_desc(young1, keep2, 0);
    lemma_swap_keep_split(young1, keep2, 0, py);
    assert(young1.subrange(0, young1.len() as int) =~= young1);
    let pm = |t: MatureTree| mature_pos(t);
    assert(m2.map_values(pm) =~= m0.map_values(pm) + rem.map_values(py)) by {
        assert forall|k: int| 0 <= k < m2.len() implies m2.map_values(pm)[k]
            == (m0.map_values(pm) + rem.map_values(py))[k] by {
            if k >= m0.len() {
                assert(m2[k] == grown_up(rem[k - m0.len()]));
            }
        }
    }
    assert(y3.map_values(py) =~= young2.map_values(py));
    let mm = m0.map_values(pm).to_multiset();
    let rr = rem.map_values(py).to_multiset();
    let y2m = young2.map_values(py).to_multiset();
    let y0m = y0.map_values(py).to_multiset();
    let bm = back.to_multiset();
    let d1m = dead1.to_multiset();
    assert(m2.map_values(pm).to_multiset() =~= mm.add(rr));
    assert(young2 == swap_keep(young1, keep2, 0));
    assert(y2m.add(rr) == young1.map_values(py).to_multiset());
    assert(young1.map_values(py).to_multiset() =~= y0m.add(bm));
    assert(d0.to_multiset() == d1m.add(bm));
    assert(spots(m2, y3, dead1) == mm.add(rr).add(y2m).add(d1m));
    assert(spots(m0, y0, d0) == mm.add(y0m).add(d0.to_multiset()));
    assert(y2m.add(rr) == y0m.add(bm));
    assert forall|v: (i16, i16)| #[trigger] mm.add(rr).add(y2m).add(d1m).count(v)
        == mm.add(y0m).add(d1m.add(bm)).count(v) by {
        broadcast use vstd::multiset::group_multiset_axioms;
        assert(y2m.add(rr).count(v) == y0m.add(bm).count(v));
    }
    assert(mm.add(rr).add(y2m).add(d1m) =~= mm.add(y0m).add(d1m.add(bm)));
}

/// `swap_keep` and `removed_desc` from index `i` on only look at the mask
/// from `i` on.
proof fn lemma_mask_frame<T>(s: Seq<T>, k1: Seq<bool>, k2: Seq<bool>, i: int)
    requires
        k1.len() == s.len(),
        k2.len() == s.len(),
        forall|j: int| i <= j < s.len() ==> k1[j] == k2[j],
    ensures
        swap_keep(s, k1, i) == swap_keep(s, k2, i),
        removed_desc(s, k1, i) == removed_desc(s, k2, i),
    decreases s.len() - i,
{
    if 0 <= i < s.len() {
        lemma_mask_frame(s, k1, k2, i + 1);
    }
}

proof fn lemma_removed_step<T>(s: Seq<T>, keep: Seq<bool>, i: int)
    requires
        0 <= i < s.len(),
    ensures
        removed_desc(s, keep, i) == removed_desc(s, keep, i + 1)
            + (if keep[i] { Seq::empty() } else { seq![s[i]] }),
{
}

/// The ripples keep their positions and vertical offsets; each horizontal
/// offset either stays or becomes one of -1, 0, 1.
pub open spec fn ripples_moved(pre: Seq<Ripple>, post: Seq<Ripple>) -> bool {
    &&& post.len() == pre.len()
    &&& forall|k: int| 0 <= k < pre.len() ==> {
        &&& (#[trigger] post[k]).0 == pre[k].0
        &&& post[k].1.1 == pre[k].1.1
        &&& (post[k].1.0 == pre[k].1.0 || -1 <= post[k].1.0 <= 1)
    }
}

/// The ripples from index `i` on after one animation step that starts with
/// the generator in state `st`, and the generator state after the step:
/// each ripple draws from `0..=99` and, when the draw is at most 40, draws
/// its new horizontal offset from `-1..=1`.
pub open spec fn ripples_from(pre: Seq<Ripple>, i: int, st: u32) -> (Seq<Ripple>, u32)
    decreases pre.len() - i,
{
    if i < 0 || i >= pre.len() {
        (Seq::empty(), st)
    } else {
        let s1 = xorshift_next(st);
        if range_value(s1, 0, 99) <= 40 {
            let s2 = xorshift_next(s1);
            let moved = (pre[i].0, RippleOffset(range_value(s2, -1, 1) as i8, pre[i].1.1));
            let rest = ripples_from(pre, i + 1, s2);
            (seq![moved] + rest.0, rest.1)
        } else {
            let rest = ripples_from(pre, i + 1, s1);
            (seq![pre[i]] + rest.0, rest.1)
        }
    }
}

/// Only the world's `ripples`, `mature`, `young` and `dead` lists and the
/// random source may differ.
pub open spec fn same_but_nature(a: GameStage, b: GameStage) -> bool {
    &&& a.obstacles == b.obstacles
    &&& a.visited_fields == b.visited_fields
    &&& a.path_buffer == b.path_buffer
    &&& a.path_queue == b.path_queue
    &&& a.current_frame == b.current_frame
    &&& a.tilemap == b.tilemap
    &&& a.world.workers == b.world.workers
    &&& a.world.store == b.world.store
}

/// The draws for reviving stumps `i - 1` down to 0, starting with the
/// generator in state `st`: for each stump (in index order) whether it stays,
/// the kinds of the trees that come back (in the order they come back), and
/// the generator state after the draws. A stump draws from `0..=1000` and
/// comes back when the draw is below 2; it then draws from `0..=9` and is a
/// little oak when that draw is at least 7, a little pine otherwise.
pub open spec fn revive_draws(i: int, st: u32) -> (Seq<bool>, Seq<Object>, u32)
    decreases i,
{
    if i <= 0 {
        (Seq::empty(), Seq::empty(), st)
    } else {
        let s1 = xorshift_next(st);
        if range_value(s1, 0, 1000) < 2 {
            let s2 = xorshift_next(s1);
            let kind = if range_value(s2, 0, 9) >= 7 { Object::LittleOak } else { Object::LittlePine };
            let rest = revive_draws(i - 1, s2);
            (rest.0.push(false), seq![kind] + rest.1, rest.2)
        } else {
            let rest = revive_draws(i - 1, s1);
            (rest.0.push(true), rest.1, rest.2)
        }
    }
}

/// The revival of stumps with the generator going from state `st` to
/// `st2`: the stumps chosen by `revive_draws` are removed by `swap_keep` and
/// each comes back, highest index first, as a little tree of the drawn kind
/// with growth 0 at its position.
pub open spec fn stumps_revived(
    dead: Seq<(i16, i16)>,
    young: Seq<YoungTree>,
    st: u32,
    dead2: Seq<(i16, i16)>,
    young2: Seq<YoungTree>,
    st2: u32,
) -> bool {
    let draws = revive_draws(dead.len() as int, st);
    let keep = draws.0;
    let back = removed_desc(dead, keep, 0);
    &&& keep.len() == dead.len()
    &&& draws.1.len() == back.len()
    &&& dead2 == swap_keep(dead, keep, 0)
    &&& young2.len() == young.len() + back.len()
    &&& young2.subrange(0, young.len() as int) == young
    &&& forall|k: int| 0 <= k < back.len() ==>
        #[trigger] young2[young.len() + k] == (draws.1[k], back[k], AgePoints { amount: 0 })
    &&& forall|k: int| 0 <= k < back.len() ==>
        (#[trigger] draws.1[k] == Object::LittleOak || draws.1[k] == Object::LittlePine)
    &&& st2 == draws.2
}

/// The young trees once the stumps chosen by `revive_draws` (starting in
/// state `st`) have come back.
pub open spec fn revived_young(dead: Seq<(i16, i16)>, young: Seq<YoungTree>, st: u32) -> Seq<YoungTree> {
    let draws = revive_draws(dead.len() as int, st);
    let back = removed_desc(dead, draws.0, 0);
    young + Seq::new(back.len(), |k: int| (draws.1[k], back[k], AgePoints { amount: 0 }))
}

pub proof fn lemma_revived_young(
    dead: Seq<(i16, i16)>,
    young: Seq<YoungTree>,
    st: u32,
    dead2: Seq<(i16, i16)>,
    young2: Seq<YoungTree>,
    st2: u32,
)
    requires
        stumps_revived(dead, young, st, dead2, young2, st2),
    ensures
        young2 == revived_young(dead, young, st),
{
    let r = revived_young(dead, young, st);
    assert forall|k: int| 0 <= k < young2.len() implies young2[k] == r[k] by {
        if k < young.len() {
            assert(young2[k] == young2.subrange(0, young.len() as int)[k]);
        } else {
            let j = k - young.len();
            assert(young2[young.len() + j] == r[young.len() + j]);
        }
    }
    assert(young2 =~= r);
}

/// The ripe young trees leave `young` (by `swap_keep`) and join the mature
/// trees, highest index first, grown up.
pub open spec fn ripe_promoted(
    young: Seq<YoungTree>,
    mature: Seq<MatureTree>,
    young2: Seq<YoungTree>,
    mature2: Seq<MatureTree>,
) -> bool {
    let keep = mask_of(young, |t: YoungTree| !is_ripe(t));
    &&& young2 == swap_keep(young, keep, 0)
    &&& mature2 == mature + removed_desc(young, keep, 0).map_values(|t: YoungTree| grown_up(t))
}

/// The young trees from index `k` on after one growth step that starts with
/// the generator in state `st`, and the generator state after it: a little
/// pine draws from `0..=99` and grows by one when the draw is below 45, a
/// little oak when it is below 30; other kinds draw nothing.
pub open spec fn aged_from(young: Seq<YoungTree>, k: int, st: u32) -> (Seq<YoungTree>, u32)
    decreases young.len() - k,
{
    if k < 0 || k >= young.len() {
        (Seq::empty(), st)
    } else {
        let t = young[k];
        if t.0 == Object::LittlePine || t.0 == Object::LittleOak {
            let s1 = xorshift_next(st);
            let chance = if t.0 == Object::LittlePine { 45int } else { 30int };
            let t2 = if range_value(s1, 0, 99) < chance {
                (t.0, t.1, AgePoints { amount: (t.2.amount + 1) as u16 })
            } else {
                t
            };
            let rest = aged_from(young, k + 1, s1);
            (seq![t2] + rest.0, rest.1)
        } else {
            let rest = aged_from(young, k + 1, st);
            (seq![t] + rest.0, rest.1)
        }
    }
}

/// Every young tree grows by one or not at all; only little pines and
/// little oaks grow.
pub open spec fn young_aged(young: Seq<YoungTree>, young2: Seq<YoungTree>) -> bool {
    &&& young2.len() == young.len()
    &&& forall|k: int| 0 <= k < young.len() ==> {
        let t = #[trigger] young2[k];
        &&& t.0 == young[k].0
        &&& t.1 == young[k].1
        &&& (t.2.amount == young[k].2.amount || (t.2.amount == young[k].2.amount + 1
            && (t.0 == Object::LittlePine || t.0 == Object::LittleOak)))
    }
}

impl GameStage {
    /// Moves the horizontal offset of some water ripples (each with a
    /// chance of 41 in 100) to a random value in -1..=1.
    pub fn update_ripples(&mut self)
        ensures
            final(self).world.ripples@ == ripples_from(old(self).world.ripples@, 0, old(self).rnd_gen.state).0,
            final(self).rnd_gen.state == ripples_from(old(self).world.ripples@, 0, old(self).rnd_gen.state).1,
            ripples_moved(old(self).world.ripples@, final(self).world.ripples@),
            same_but_nature(*old(self), *final(self)),
            final(self).world.mature == old(self).world.mature,
            final(self).world.young == old(self).world.young,
            final(self).world.dead == old(self).world.dead,
    {
        let n = self.world.ripples.len();
        let ghost pre = self.world.ripples@;
        let ghost total = ripples_from(pre, 0, self.rnd_gen.state);
        let mut i: usize = 0;
        proof {
            assert(self.world.ripples@.take(0) + total.0 =~= total.0);
        }
        while i < n
            invariant
                i <= n,
                n == old(self).world.ripples@.len(),
                pre == old(self).world.ripples@,
                total == ripples_from(pre, 0, old(self).rnd_gen.state),
                total.0 == self.world.ripples@.take(i as int) + ripples_from(pre, i as int, self.rnd_gen.state).0,
                total.1 == ripples_from(pre, i as int, self.rnd_gen.state).1,
                self.world.ripples@.len() == n,
                forall|k: int| i <= k < n ==> #[trigger] self.world.ripples@[k] == old(self).world.ripples@[k],
                forall|k: int| 0 <= k < i ==> {
                    &&& (#[trigger] self.world.ripples@[k]).0 == old(self).world.ripples@[k].0
                    &&& self.world.ripples@[k].1.1 == old(self).world.ripples@[k].1.1
                    &&& (self.world.ripples@[k].1.0 == old(self).world.ripples@[k].1.0
                        || -1 <= self.world.ripples@[k].1.0 <= 1)
                },
                same_but_nature(*old(self), *self),
                self.world.mature == old(self).world.mature,
                self.world.young == old(self).world.young,
                self.world.dead == old(self).world.dead,
            decreases n - i,
        {
            let ghost st = self.rnd_gen.state;
            let ghost before = self.world.ripples@;
            let roll = self.rnd_gen.gen_range(0, 99);
            if roll <= 40 {
                let ripple = self.world.ripples[i];
                let RippleOffset(_, off_y) = ripple.1;
                let off_x = self.rnd_gen.gen_range_i(-1, 1) as i8;
                self.world.ripples[i] = (ripple.0, RippleOffset(off_x, off_y));
            }
            proof {
                let rest = ripples_from(pre, i + 1, self.rnd_gen.state);
                assert(ripples_from(pre, i as int, st) == (seq![self.world.ripples@[i as int]] + rest.0, rest.1));
                assert(self.world.ripples@.take(i + 1) =~= before.take(i as int).push(self.world.ripples@[i as int]));
                assert(self.world.ripples@.take(i + 1) + rest.0 =~= before.take(i as int)
                    + (seq![self.world.ripples@[i as int]] + rest.0));
            }
            i += 1;
        }
        proof {
            assert(self.world.ripples@.take(n as int) =~= self.world.ripples@);
            assert(ripples_from(pre, n as int, self.rnd_gen.state).0 =~= Seq::<Ripple>::empty());
            assert(total.0 =~= self.world.ripples@);
        }
    }

    /// Trees without wood left die: they leave the mature trees (by
    /// `swap_keep`, highest index first) and their positions join the stumps.
    pub fn murder_trees(&mut self)
        ensures
            final(self).world.mature@ == swap_keep(old(self).world.mature@,
                mask_of(old(self).world.mature@, |t: MatureTree| has_wood(t)), 0),
            final(self).world.dead@ == old(self).world.dead@ + removed_desc(old(self).world.mature@,
                mask_of(old(self).world.mature@, |t: MatureTree| has_wood(t)), 0).map_values(
                |t: MatureTree| mature_pos(t)),
            final(self).world.mature@.to_multiset()
                == old(self).world.mature@.filter(|t: MatureTree| has_wood(t)).to_multiset(),
            same_but_nature(*old(self), *final(self)),
            final(self).rnd_gen == old(self).rnd_gen,
            final(self).world.ripples == old(self).world.ripples,
            final(self).world.young == old(self).world.young,
            old(self).wf() ==> final(self).wf(),
            stage_wood(*final(self)) == stage_wood(*old(self)),
            tree_count(*final(self)) == tree_count(*old(self)),
            tree_spots(*final(self)) == tree_spots(*old(self)),
    {
        proof {
            lemma_murder_spots(self.world.mature@, self.world.young@, self.world.dead@);
        }
        let ghost s = self.world.mature@;
        let ghost keep = mask_of(s, |t: MatureTree| has_wood(t));
        let ghost dead0 = self.world.dead@;
        let mut i = self.world.mature.len();
        proof {
            assert(s.subrange(0, i as int) + swap_keep(s, keep, i as int) =~= s);
        }
        while i > 0
            invariant
                i <= s.len(),
                keep == mask_of(s, |t: MatureTree| has_wood(t)),
                self.world.mature@ == s.subrange(0, i as int) + swap_keep(s, keep, i as int),
                self.world.dead@ == dead0 + removed_desc(s, keep, i as int).map_values(|t: MatureTree| mature_pos(t)),
                same_but_nature(*old(self), *self),
                self.rnd_gen == old(self).rnd_gen,
                self.world.ripples == old(self).world.ripples,
                self.world.young == old(self).world.young,
                s == old(self).world.mature@,
                dead0 == old(self).world.dead@,
            decreases i,
        {
            i -= 1;
            proof {
                lemma_swap_keep_step(s, keep, (i + 1) as int, self.world.mature@);
            }
            let (_, position, health) = self.world.mature[i];
            let ghost before = self.world.dead@;
            if health.amount == 0 {
                self.world.mature.swap_remove(i);
                self.world.dead.push(position);
            }
            proof {
                let r = removed_desc(s, keep, i as int);
                let r1 = removed_desc(s, keep, i + 1);
                assert(r == r1 + (if keep[i as int] { Seq::empty() } else { seq![s[i as int]] }));
                assert(r.map_values(|t: MatureTree| mature_pos(t)) =~= r1.map_values(|t: MatureTree| mature_pos(t))
                    + (if keep[i as int] { Seq::empty() } else { seq![s[i as int].1] }));
            }
        }
        proof {
            assert(s.subrange(0, 0) + swap_keep(s, keep, 0) =~= swap_keep(s, keep, 0));
            lemma_swap_keep_multiset(s, |t: MatureTree| has_wood(t), 0);
            assert(s.subrange(0, s.len() as int) =~= s);
            lemma_swap_keep_len(s, keep, 0);
            lemma_swap_keep_wood(s, keep, 0);
            lemma_removed_all(s, keep, 0, |t: MatureTree| t.2.amount == 0);
            let removed = removed_desc(s, keep, 0);
            assert forall|k: int| 0 <= k < removed.len() implies #[trigger] removed[k].2.amount == 0 by {
                assert((|t: MatureTree| t.2.amount == 0)(removed[k]));
            }
            lemma_no_wood(removed);
            if old(self).wf() {
                lemma_swap_keep_all(s, keep, 0, |t: MatureTree| nonneg_pos(t.1));
                lemma_removed_all(s, keep, 0, |t: MatureTree| nonneg_pos(t.1));
                let r = removed_desc(s, keep, 0);
                let d = self.world.dead@;
                assert forall|k: int| 0 <= k < d.len() implies nonneg_pos(#[trigger] d[k]) by {
                    if k >= dead0.len() {
                        assert(d[k] == r[k - dead0.len()].1);
                        assert((|t: MatureTree| nonneg_pos(t.1))(r[k - dead0.len()]));
                    }
                }
                let m = self.world.mature@;
                assert forall|k: int| 0 <= k < m.len() implies nonneg_pos(#[trigger] m[k].1) by {
                    assert((|t: MatureTree| nonneg_pos(t.1))(m[k]));
                }
            }
        }
    }
}


proof fn lemma_revive_draws_len(i: int, st: u32)
    requires
        i >= 0,
    ensures
        revive_draws(i, st).0.len() == i,
    decreases i,
{
    if i > 0 {
        lemma_revive_draws_len(i - 1, xorshift_next(st));
        lemma_revive_draws_len(i - 1, xorshift_next(xorshift_next(st)));
    }
}

impl GameStage {
    /// Each stump (highest index first) comes back with a chance of 2 in
    /// 1001 as a little oak (chance 3 in 10) or a little pine of growth 0.
    pub fn revive_stumps(&mut self)
        ensures
            stumps_revived(old(self).world.dead@, old(self).world.young@, old(self).rnd_gen.state,
                final(self).world.dead@, final(self).world.young@, final(self).rnd_gen.state),
            same_but_nature(*old(self), *final(self)),
            final(self).world.ripples == old(self).world.ripples,
            final(self).world.mature == old(self).world.mature,
    {
        let ghost s = self.world.dead@;
        let ghost young0 = self.world.young@;
        let ghost st0 = self.rnd_gen.state;
        let ghost total = revive_draws(s.len() as int, st0);
        let ghost mut keep: Seq<bool> = Seq::new(s.len(), |k: int| true);
        let ghost mut kinds: Seq<Object> = Seq::empty();
        let mut i = self.world.dead.len();
        proof {
            lemma_revive_draws_len(i as int, st0);
            assert(s.subrange(0, i as int) + swap_keep(s, keep, i as int) =~= s);
            assert(self.world.young@.subrange(0, young0.len() as int) =~= young0);
            assert(total.0 =~= revive_draws(i as int, st0).0 + keep.subrange(i as int, s.len() as int));
            assert(total.1 =~= kinds + revive_draws(i as int, st0).1);
        }
        while i > 0
            invariant
                i <= s.len(),
                keep.len() == s.len(),
                forall|j: int| 0 <= j < i ==> #[trigger] keep[j],
                s == old(self).world.dead@,
                young0 == old(self).world.young@,
                total == revive_draws(s.len() as int, old(self).rnd_gen.state),
                total.0 == revive_draws(i as int, self.rnd_gen.state).0 + keep.subrange(i as int, s.len() as int),
                total.1 == kinds + revive_draws(i as int, self.rnd_gen.state).1,
                total.2 == revive_draws(i as int, self.rnd_gen.state).2,
                revive_draws(i as int, self.rnd_gen.state).0.len() == i,
                kinds.len() == removed_desc(s, keep, i as int).len(),
                self.world.dead@ == s.subrange(0, i as int) + swap_keep(s, keep, i as int),
                self.world.young@.len() == young0.len() + removed_desc(s, keep, i as int).len(),
                self.world.young@.subrange(0, young0.len() as int) == young0,
                forall|k: int| 0 <= k < removed_desc(s, keep, i as int).len() ==>
                    #[trigger] self.world.young@[young0.len() + k] == (kinds[k],
                        removed_desc(s, keep, i as int)[k], AgePoints { amount: 0 }),
                forall|k: int| 0 <= k < kinds.len() ==>
                    (#[trigger] kinds[k] == Object::LittleOak || kinds[k] == Object::LittlePine),
                same_but_nature(*old(self), *self),
                self.world.ripples == old(self).world.ripples,
                self.world.mature == old(self).world.mature,
            decreases i,
        {
            i -= 1;
            let ghost keep0 = keep;
            let ghost kinds0 = kinds;
            let ghost cur = self.world.dead@;
            let ghost y0 = self.world.young@;
            let ghost st = self.rnd_gen.state;
            let ghost r1 = removed_desc(s, keep0, (i + 1) as int);
            proof {
                lemma_swap_keep_step(s, keep, (i + 1) as int, cur);
                lemma_revive_draws_len(i as int, xorshift_next(st));
                lemma_revive_draws_len(i as int, xorshift_next(xorshift_next(st)));
            }
            let roll = self.rnd_gen.gen_range(0, 1000);
            if roll < 2 {
                let pos = self.world.dead.swap_remove(i);
                let kind_roll = self.rnd_gen.gen_range(0, 9);
                let kind = if kind_roll >= 7 { Object::LittleOak } else { Object::LittlePine };
                self.world.young.push((kind, pos, AgePoints { amount: 0 }));
                proof {
                    keep = keep.update(i as int, false);
                    kinds = kinds.push(kind);
                    lemma_mask_frame(s, keep0, keep, (i + 1) as int);
                    lemma_swap_keep_step(s, keep, (i + 1) as int, cur);
                    assert(pos == s[i as int]);
                }
            }
            proof {
                let rest = revive_draws(i as int, self.rnd_gen.state);
                assert(keep.subrange(i as int, s.len() as int) =~= seq![keep[i as int]]
                    + keep0.subrange(i + 1, s.len() as int));
                assert(rest.0.push(keep[i as int]) + keep0.subrange(i + 1, s.len() as int)
                    =~= rest.0 + keep.subrange(i as int, s.len() as int));
                if roll < 2 {
                    assert(kinds0 + (seq![kinds[kinds.len() - 1]] + rest.1) =~= kinds + rest.1);
                }
                lemma_mask_frame(s, keep0, keep, (i + 1) as int);
                lemma_removed_step(s, keep, i as int);
                let r = removed_desc(s, keep, i as int);
                assert(r1 == removed_desc(s, keep, (i + 1) as int));
                assert(self.world.young@.subrange(0, young0.len() as int) =~= young0);
                assert forall|k: int| 0 <= k < r.len() implies
                    #[trigger] self.world.young@[young0.len() + k] == (kinds[k], r[k], AgePoints { amount: 0 }) by {
                    if k < r1.len() {
                        assert(self.world.young@[young0.len() + k] == y0[young0.len() + k]);
                        assert(r[k] == r1[k]);
                        assert(kinds[k] == kinds0[k]);
                    } else {
                        assert(k == r1.len());
                        assert(r[k] == s[i as int]);
                    }
                }
            }
        }
        proof {
            assert(s.subrange(0, 0) + swap_keep(s, keep, 0) =~= swap_keep(s, keep, 0));
            assert(keep.subrange(0, s.len() as int) =~= keep);
            assert(kinds + Seq::<Object>::empty() =~= kinds);
        }
    }

    /// Ripe young trees (highest index first) leave the young trees and
    /// join the mature ones, grown up.
    pub fn promote_ripe_young(&mut self)
        ensures
            ripe_promoted(old(self).world.young@, old(self).world.mature@,
                final(self).world.young@, final(self).world.mature@),
            same_but_nature(*old(self), *final(self)),
            final(self).rnd_gen == old(self).rnd_gen,
            final(self).world.ripples == old(self).world.ripples,
            final(self).world.dead == old(self).world.dead,
    {
        let ghost s = self.world.young@;
        let ghost keep = mask_of(s, |t: YoungTree| !is_ripe(t));
        let ghost mature0 = self.world.mature@;
        let mut i = self.world.young.len();
        proof {
            assert(s.subrange(0, i as int) + swap_keep(s, keep, i as int) =~= s);
            assert(mature0 =~= mature0 + removed_desc(s, keep, i as int).map_values(|t: YoungTree| grown_up(t)));
        }
        while i > 0
            invariant
                i <= s.len(),
                s == old(self).world.young@,
                mature0 == old(self).world.mature@,
                keep == mask_of(s, |t: YoungTree| !is_ripe(t)),
                self.world.young@ == s.subrange(0, i as int) + swap_keep(s, keep, i as int),
                self.world.mature@ == mature0 + removed_desc(s, keep, i as int).map_values(|t: YoungTree| grown_up(t)),
                same_but_nature(*old(self), *self),
                self.rnd_gen == old(self).rnd_gen,
                self.world.ripples == old(self).world.ripples,
                self.world.dead == old(self).world.dead,
            decreases i,
        {
            i -= 1;
            proof {
                lemma_swap_keep_step(s, keep, (i + 1) as int, self.world.young@);
                lemma_removed_step(s, keep, i as int);
            }
            let (object, position, age_pts) = self.world.young[i];
            if object == Object::LittleOak && age_pts.amount >= OAK_AGE_TILL_MATURE {
                self.world.young.swap_remove(i);
                self.world.mature.push((Object::Oak, position, HealthPoints { amount: OAK_HP_MAX }));
            } else if object == Object::LittlePine && age_pts.amount >= PINE_AGE_TILL_MATURE {
                self.world.young.swap_remove(i);
                self.world.mature.push((Object::Pine, position, HealthPoints { amount: PINE_HP_MAX }));
            }
            proof {
                let r = removed_desc(s, keep, i as int);
                let r1 = removed_desc(s, keep, (i + 1) as int);
                assert(r.map_values(|t: YoungTree| grown_up(t)) =~= r1.map_values(|t: YoungTree| grown_up(t))
                    + (if keep[i as int] { Seq::empty() } else { seq![grown_up(s[i as int])] }));
            }
        }
        proof {
            assert(s.subrange(0, 0) + swap_keep(s, keep, 0) =~= swap_keep(s, keep, 0));
        }
    }

    /// Each little pine grows by one with a chance of 45 in 100, each
    /// little oak with a chance of 30 in 100.
    pub fn age_young(&mut self)
        requires
            forall|k: int| 0 <= k < old(self).world.young@.len() ==>
                #[trigger] old(self).world.young@[k].2.amount < u16::MAX,
        ensures
            final(self).world.young@ == aged_from(old(self).world.young@, 0, old(self).rnd_gen.state).0,
            final(self).rnd_gen.state == aged_from(old(self).world.young@, 0, old(self).rnd_gen.state).1,
            young_aged(old(self).world.young@, final(self).world.young@),
            same_but_nature(*old(self), *final(self)),
            final(self).world.ripples == old(self).world.ripples,
            final(self).world.mature == old(self).world.mature,
            final(self).world.dead == old(self).world.dead,
    {
        let n = self.world.young.len();
        let ghost pre = self.world.young@;
        let ghost total = aged_from(pre, 0, self.rnd_gen.state);
        let mut k: usize = 0;
        proof {
            assert(self.world.young@.take(0) + total.0 =~= total.0);
        }
        while k < n
            invariant
                k <= n,
                n == old(self).world.young@.len(),
                pre == old(self).world.young@,
                total == aged_from(pre, 0, old(self).rnd_gen.state),
                total.0 == self.world.young@.take(k as int) + aged_from(pre, k as int, self.rnd_gen.state).0,
                total.1 == aged_from(pre, k as int, self.rnd_gen.state).1,
                self.world.young@.len() == n,
                forall|j: int| k <= j < n ==> #[trigger] self.world.young@[j] == old(self).world.young@[j],
                forall|j: int| 0 <= j < n ==> #[trigger] old(self).world.young@[j].2.amount < u16::MAX,
                forall|j: int| 0 <= j < k ==> {
                    let t = #[trigger] self.world.young@[j];
                    let o = old(self).world.young@[j];
                    &&& t.0 == o.0
                    &&& t.1 == o.1
                    &&& (t.2.amount == o.2.amount || (t.2.amount == o.2.amount + 1
                        && (t.0 == Object::LittlePine || t.0 == Object::LittleOak)))
                },
                same_but_nature(*old(self), *self),
                self.world.ripples == old(self).world.ripples,
                self.world.mature == old(self).world.mature,
                self.world.dead == old(self).world.dead,
            decreases n - k,
        {
            let ghost st = self.rnd_gen.state;
            let ghost before = self.world.young@;
            let (obj, pos, age_pts) = self.world.young[k];
            let is_grow = match obj {
                Object::LittlePine => self.rnd_gen.gen_range(0, 99) < 45,
                Object::LittleOak => self.rnd_gen.gen_range(0, 99) < 30,
                _ => false,
            };
            if is_grow {
                self.world.young[k] = (obj, pos, AgePoints { amount: age_pts.amount + 1 });
            }
            proof {
                let rest = aged_from(pre, k + 1, self.rnd_gen.state);
                assert(aged_from(pre, k as int, st) == (seq![self.world.young@[k as int]] + rest.0, rest.1));
                assert(self.world.young@.take(k + 1) =~= before.take(k as int).push(self.world.young@[k as int]));
                assert(self.world.young@.take(k + 1) + rest.0 =~= before.take(k as int)
                    + (seq![self.world.young@[k as int]] + rest.0));
            }
            k += 1;
        }
        proof {
            assert(self.world.young@.take(n as int) =~= self.world.young@);
            assert(aged_from(pre, n as int, self.rnd_gen.state).0 =~= Seq::<YoungTree>::empty());
        }
    }

    /// Every `GROW_TICKS` frames: stumps may come back as little trees, ripe
    /// young trees become mature, and young trees grow.
    pub fn grow_trees(&mut self)
        requires
            old(self).wf(),
        ensures
            exists|dead1: Seq<(i16, i16)>, young1: Seq<YoungTree>, young2: Seq<YoungTree>, st1: u32| {
                &&& stumps_revived(old(self).world.dead@, old(self).world.young@, old(self).rnd_gen.state,
                    dead1, young1, st1)
                &&& ripe_promoted(young1, old(self).world.mature@, young2, final(self).world.mature@)
                &&& final(self).world.young@ == aged_from(young2, 0, st1).0
                &&& final(self).rnd_gen.state == aged_from(young2, 0, st1).1
                &&& young_aged(young2, final(self).world.young@)
                &&& final(self).world.dead@ == dead1
            },
            same_but_nature(*old(self), *final(self)),
            final(self).world.ripples == old(self).world.ripples,
            final(self).wf(),
            stage_wood(*final(self)) >= stage_wood(*old(self)),
            tree_count(*final(self)) == tree_count(*old(self)),
            tree_spots(*final(self)) == tree_spots(*old(self)),
    {
        self.revive_stumps();
        let ghost dead1 = self.world.dead@;
        let ghost young1 = self.world.young@;
        let ghost mature0 = self.world.mature@;
        let ghost st1 = self.rnd_gen.state;
        proof {
            let keep = revive_draws(old(self).world.dead@.len() as int, old(self).rnd_gen.state).0;
            let d0 = old(self).world.dead@;
            let y0 = old(self).world.young@;
            let back = removed_desc(d0, keep, 0);
            lemma_swap_keep_all(d0, keep, 0, |p: (i16, i16)| nonneg_pos(p));
            lemma_removed_all(d0, keep, 0, |p: (i16, i16)| nonneg_pos(p));
            lemma_swap_keep_len(d0, keep, 0);
            assert forall|k: int| 0 <= k < dead1.len() implies nonneg_pos(#[trigger] dead1[k]) by {
                assert((|p: (i16, i16)| nonneg_pos(p))(dead1[k]));
            }
            assert forall|k: int| 0 <= k < young1.len() implies
                young_ok(#[trigger] young1[k]) && nonneg_pos(young1[k].1) by {
                if k < y0.len() {
                    assert(young1[k] == young1.subrange(0, y0.len() as int)[k]);
                } else {
                    let j = k - y0.len();
                    assert(young1[y0.len() + j].1 == back[j]);
                    assert(revive_draws(d0.len() as int, old(self).rnd_gen.state).1[j] == young1[y0.len() + j].0);
                    assert((|p: (i16, i16)| nonneg_pos(p))(back[j]));
                }
            }
        }
        self.promote_ripe_young();
        let ghost young2 = self.world.young@;
        proof {
            let keep = mask_of(young1, |t: YoungTree| !is_ripe(t));
            let p = |t: YoungTree| young_ok(t) && !is_ripe(t) && nonneg_pos(t.1);
            assert forall|j: int| 0 <= j < young1.len() && keep[j] implies #[trigger] p(young1[j]) by {}
            lemma_swap_keep_all(young1, keep, 0, p);
            assert forall|k: int| 0 <= k < young2.len() implies
                young_ok(#[trigger] young2[k]) && !is_ripe(young2[k]) && nonneg_pos(young2[k].1) by {
                assert(p(young2[k]));
            }
            let q = |t: YoungTree| nonneg_pos(t.1);
            lemma_removed_all(young1, keep, 0, q);
            lemma_swap_keep_len(young1, keep, 0);
            let promoted = removed_desc(young1, keep, 0).map_values(|t: YoungTree| grown_up(t));
            lemma_wood_trees_concat(mature0, promoted);
            lemma_wood_nonneg(promoted);
            let r = removed_desc(young1, keep, 0);
            let m = self.world.mature@;
            assert forall|k: int| 0 <= k < m.len() implies nonneg_pos(#[trigger] m[k].1) by {
                if k >= mature0.len() {
                    assert(q(r[k - mature0.len()]));
                    assert(m[k] == grown_up(r[k - mature0.len()]));
                }
            }
        }
        self.age_young();
        proof {
            lemma_grow_spots(old(self).world.dead@, old(self).world.young@, old(self).world.mature@,
                old(self).rnd_gen.state, dead1, young1, st1, young2, self.world.mature@, self.world.young@);
            let y3 = self.world.young@;
            assert forall|k: int| 0 <= k < y3.len() implies
                young_ok(#[trigger] y3[k]) && nonneg_pos(y3[k].1) by {
                assert(young_ok(young2[k]) && !is_ripe(young2[k]));
            }
        }
    }
}


/// When the last stump is removed by `swap_keep`-style removal, it is the
/// first element collected; when it is kept, not everything is collected.
proof fn lemma_removed_desc_last<T>(s: Seq<T>, keep: Seq<bool>, i: int)
    requires
        keep.len() == s.len(),
        0 <= i < s.len(),
    ensures
        !keep[s.len() - 1] ==> removed_desc(s, keep, i).len() > 0
            && removed_desc(s, keep, i)[0] == s[s.len() - 1],
        keep[s.len() - 1] ==> removed_desc(s, keep, i).len() < s.len() - i,
        removed_desc(s, keep, i).len() <= s.len() - i,
    decreases s.len() - i,
{
    lemma_removed_step(s, keep, i);
    let r = removed_desc(s, keep, i + 1);
    if i < s.len() - 1 {
        lemma_removed_desc_last(s, keep, i + 1);
    } else {
        assert(r.len() == 0);
    }
    let extra = if keep[i] { Seq::<T>::empty() } else { seq![s[i]] };
    assert((r + extra).len() == r.len() + extra.len());
    if r.len() > 0 {
        assert((r + extra)[0] == r[0]);
    }
}

/// Every stump either stays or comes back as a little tree, and the young
/// trees there were stay first. The first revival draw is for the last
/// stump: when that draw from `0..=1000` is below 2, the last stump leaves
/// the stumps and is the first tree to come back, as a little oak or pine of
/// growth 0 at its position; when it is not, some stump is left.
pub proof fn law_stump_revival(
    dead: Seq<(i16, i16)>,
    young: Seq<YoungTree>,
    st: u32,
    dead2: Seq<(i16, i16)>,
    young2: Seq<YoungTree>,
    st2: u32,
)
    requires
        stumps_revived(dead, young, st, dead2, young2, st2),
    ensures
        dead2.len() + young2.len() == dead.len() + young.len(),
        young2.subrange(0, young.len() as int) == young,
        dead.len() > 0 && range_value(xorshift_next(st), 0, 1000) < 2 ==> {
            &&& dead2.len() < dead.len()
            &&& young2.len() > young.len()
            &&& young2[young.len() as int].1 == dead[dead.len() - 1]
            &&& young2[young.len() as int].2.amount == 0
            &&& (young2[young.len() as int].0 == Object::LittleOak
                || young2[young.len() as int].0 == Object::LittlePine)
        },
        dead.len() > 0 && range_value(xorshift_next(st), 0, 1000) >= 2 ==> dead2.len() > 0,
{
    let n = dead.len() as int;
    let draws = revive_draws(n, st);
    let keep = draws.0;
    lemma_swap_keep_len(dead, keep, 0);
    if n > 0 {
        let s1 = xorshift_next(st);
        lemma_revive_draws_len(n - 1, s1);
        lemma_revive_draws_len(n - 1, xorshift_next(s1));
        assert(keep[n - 1] == !(range_value(s1, 0, 1000) < 2));
        lemma_removed_desc_last(dead, keep, 0);
        if range_value(s1, 0, 1000) < 2 {
            assert(young2[young.len() + 0int] == (draws.1[0], removed_desc(dead, keep, 0)[0], AgePoints { amount: 0 }));
        }
    }
}

} // verus!
