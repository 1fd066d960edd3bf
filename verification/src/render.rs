use vstd::prelude::*;
use crate::game_stage::{GameStage, World, Ripple};
use crate::objects::{DrawCommand, Object, object_sprites, object_fits};
use crate::tilemap::terrain_draws;

verus! {

/// An object of the scene with its pixel position.
pub type Placed = (Object, (i16, i16));

/// Everything standing on the map, in the order it is collected for
/// drawing: workers, mature trees, young trees, stumps, store houses.
pub open spec fn scene_objects(w: World) -> Seq<Placed> {
    w.workers@.map_values(|k: crate::game_stage::Worker| (Object::Worker, k.pos))
    + w.mature@.map_values(|t: crate::game_stage::MatureTree| (t.0, t.1))
    + w.young@.map_values(|t: crate::game_stage::YoungTree| (t.0, t.1))
    + w.dead@.map_values(|p: (i16, i16)| (Object::Stump, p))
    + w.store@.map_values(|s: crate::game_stage::StoreEntry| (Object::BigHouse, s.0))
}

/// `a` is drawn before `b` when it stands higher on the screen, or on the
/// same row further left.
pub open spec fn drawn_before(a: Placed, b: Placed) -> bool {
    a.1.1 < b.1.1 || (a.1.1 == b.1.1 && a.1.0 < b.1.0)
}

/// Two objects standing on the same pixel.
pub open spec fn same_spot(a: Placed, b: Placed) -> bool {
    a.1 == b.1
}

/// Some place of `perm` holds `m`.
pub open spec fn covers(perm: Seq<int>, m: int) -> bool {
    exists|i: int| 0 <= i < perm.len() && perm[i] == m
}

/// `out` is `input` sorted by screen position (top to bottom, then left to
/// right), objects on the same spot keeping their order: `perm` tells for
/// each place of `out` the place of `input` it comes from.
pub open spec fn stable_sorted_with(input: Seq<Placed>, out: Seq<Placed>, perm: Seq<int>) -> bool {
    &&& out.len() == input.len()
    &&& perm.len() == out.len()
    &&& forall|i: int| 0 <= i < perm.len() ==> 0 <= #[trigger] perm[i] < input.len()
    &&& forall|i: int, j: int| 0 <= i < j < perm.len() ==> perm[i] != perm[j]
    &&& forall|m: int| 0 <= m < input.len() ==> #[trigger] covers(perm, m)
    &&& forall|i: int| 0 <= i < out.len() ==> #[trigger] out[i] == input[perm[i]]
    &&& forall|i: int, j: int| 0 <= i < j < out.len() ==> !drawn_before(#[trigger] out[j], #[trigger] out[i])
    &&& forall|i: int, j: int| 0 <= i < j < out.len() && same_spot(out[i], out[j]) ==> perm[i] < perm[j]
}

/// `out` is a stable sort of `input` by screen position.
pub open spec fn stable_sorted(input: Seq<Placed>, out: Seq<Placed>) -> bool {
    exists|perm: Seq<int>| stable_sorted_with(input, out, perm)
}

/// The sprites of a list of placed objects, one object after another.
pub open spec fn sprites_of(list: Seq<Placed>) -> Seq<DrawCommand>
    decreases list.len(),
{
    if list.len() == 0 {
        Seq::empty()
    } else {
        sprites_of(list.drop_last()) + object_sprites(list.last().0, list.last().1.0 as int, list.last().1.1 as int)
    }
}

/// The ripple lines: one per ripple, at its position plus its offset.
pub open spec fn ripple_draws(ripples: Seq<Ripple>) -> Seq<DrawCommand> {
    ripples.map_values(|r: Ripple| DrawCommand::Ripple {
        x: (r.0.0 + r.1.0) as i32,
        y: (r.0.1 + r.1.1) as i32,
    })
}

proof fn lemma_i16_fits(o: Object, x: i16, y: i16)
    ensures
        object_fits(o, x as int, y as int),
{
}

/// Sorts placed objects by screen position, keeping the order of objects on
/// the same spot (insertion sort).
pub fn sort_for_drawing(input: &Vec<Placed>) -> (out: Vec<Placed>)
    ensures
        stable_sorted(input@, out@),
{
    let mut out: Vec<Placed> = Vec::new();
    let ghost mut perm: Seq<int> = Seq::empty();
    let mut k: usize = 0;
    while k < input.len()
        invariant
            k <= input@.len(),
            stable_sorted_with(input@.take(k as int), out@, perm),
            forall|i: int| 0 <= i < perm.len() ==> 0 <= #[trigger] perm[i] < k,
        decreases input@.len() - k,
    {
        let e = input[k];
        let mut j = out.len();
        while j > 0
            invariant
                j <= out@.len(),
                forall|i: int| j <= i < out@.len() ==> drawn_before(e, #[trigger] out@[i]),
            ensures
                j <= out@.len(),
                forall|i: int| j <= i < out@.len() ==> drawn_before(e, #[trigger] out@[i]),
                j > 0 ==> !drawn_before(e, out@[j - 1]),
            decreases j,
        {
            let o = out[j - 1];
            if o.1.1 > e.1.1 || (o.1.1 == e.1.1 && o.1.0 > e.1.0) {
                j -= 1;
            } else {
                break;
            }
        }
        let ghost old_out = out@;
        let ghost old_perm = perm;
        out.insert(j, e);
        proof {
            perm = old_perm.insert(j as int, k as int);
            let inp = input@.take(k + 1);
            assert(forall|i: int| 0 <= i < k ==> #[trigger] inp[i] == input@.take(k as int)[i]);
            assert(inp[k as int] == e);
            assert forall|i: int| 0 <= i < out@.len() implies #[trigger] out@[i] == inp[perm[i]] by {
                if i < j {
                    assert(out@[i] == old_out[i]);
                } else if i > j {
                    assert(out@[i] == old_out[i - 1]);
                }
            }
            assert forall|i: int| 0 <= i < perm.len() implies 0 <= #[trigger] perm[i] < k + 1 by {
                if i < j {
                    assert(perm[i] == old_perm[i]);
                } else if i > j {
                    assert(perm[i] == old_perm[i - 1]);
                }
            }
            assert forall|a: int, b: int| 0 <= a < b < perm.len() implies perm[a] != perm[b] by {
                if a != j && b != j {
                    let a0 = if a < j { a } else { a - 1 };
                    let b0 = if b < j { b } else { b - 1 };
                    assert(perm[a] == old_perm[a0]);
                    assert(perm[b] == old_perm[b0]);
                }
            }
            assert forall|a: int, b: int| 0 <= a < b < out@.len() implies
                !drawn_before(#[trigger] out@[b], #[trigger] out@[a]) by {
                let a0 = if a < j { a } else { a - 1 };
                let b0 = if b < j { b } else { b - 1 };
                if a == j {
                    assert(drawn_before(e, old_out[b0]));
                } else if b == j {
                    assert(!drawn_before(e, old_out[j - 1]));
                    if a < j - 1 {
                        assert(!drawn_before(old_out[j - 1], old_out[a]));
                    }
                    assert(out@[a] == old_out[a]);
                } else {
                    assert(out@[a] == old_out[a0]);
                    assert(out@[b] == old_out[b0]);
                }
            }
            assert forall|a: int, b: int| 0 <= a < b < out@.len() && same_spot(out@[a], out@[b])
                implies perm[a] < perm[b] by {
                let a0 = if a < j { a } else { a - 1 };
                let b0 = if b < j { b } else { b - 1 };
                if a == j {
                    assert(drawn_before(e, old_out[b0]));
                } else if b == j {
                    assert(perm[a] == old_perm[a0]);
                } else {
                    assert(perm[a] == old_perm[a0]);
                    assert(perm[b] == old_perm[b0]);
                    assert(out@[a] == old_out[a0]);
                    assert(out@[b] == old_out[b0]);
                }
            }
            assert forall|m: int| 0 <= m < inp.len() implies #[trigger] covers(perm, m) by {
                if m < k {
                    assert(covers(old_perm, m));
                    let i0 = choose|i: int| 0 <= i < old_perm.len() && old_perm[i] == m;
                    if i0 < j {
                        assert(perm[i0] == m);
                    } else {
                        assert(perm[i0 + 1] == m);
                    }
                } else {
                    assert(perm[j as int] == m);
                }
            }
            assert(stable_sorted_with(inp, out@, perm));
        }
        k += 1;
    }
    proof {
        assert(input@.take(input@.len() as int) =~= input@);
    }
    out
}

/// Drawing order is fully determined: two stable sorts of the same objects
/// by screen position are the same sequence.
pub proof fn lemma_stable_sort_unique(input: Seq<Placed>, o1: Seq<Placed>, o2: Seq<Placed>)
    requires
        stable_sorted(input, o1),
        stable_sorted(input, o2),
    ensures
        o1 == o2,
    decreases input.len(),
{
    let p1 = choose|perm: Seq<int>| stable_sorted_with(input, o1, perm);
    let p2 = choose|perm: Seq<int>| stable_sorted_with(input, o2, perm);
    let n = input.len() as int;
    if n == 0 {
        assert(o1 =~= o2);
    } else {
        let e = input[n - 1];
        assert(covers(p1, n - 1));
        assert(covers(p2, n - 1));
        let q1 = choose|i: int| 0 <= i < p1.len() && p1[i] == n - 1;
        let q2 = choose|i: int| 0 <= i < p2.len() && p2[i] == n - 1;
        let (r1, s1) = lemma_drop_last_input(input, o1, p1, q1);
        let (r2, s2) = lemma_drop_last_input(input, o2, p2, q2);
        lemma_stable_sort_unique(input.take(n - 1), r1, r2);
        if q1 < q2 {
            let x = r1[q1];
            assert(x == o1[q1 + 1]);
            assert(!drawn_before(o1[q1 + 1], o1[q1]));
            assert(!same_spot(o1[q1], o1[q1 + 1]));
            assert(x == o2[q1]);
            assert(!drawn_before(o2[q2], o2[q1]));
        } else if q2 < q1 {
            let x = r2[q2];
            assert(x == o2[q2 + 1]);
            assert(!drawn_before(o2[q2 + 1], o2[q2]));
            assert(!same_spot(o2[q2], o2[q2 + 1]));
            assert(x == o1[q2]);
            assert(!drawn_before(o1[q1], o1[q2]));
        }
        assert(o1 =~= r1.insert(q1, e));
        assert(o2 =~= r2.insert(q2, e));
    }
}

/// Taking the last input object out of a stable sort (from place `q` of the
/// output) leaves a stable sort of the other objects.
proof fn lemma_drop_last_input(input: Seq<Placed>, out: Seq<Placed>, perm: Seq<int>, q: int)
    -> (r: (Seq<Placed>, Seq<int>))
    requires
        stable_sorted_with(input, out, perm),
        input.len() > 0,
        0 <= q < perm.len(),
        perm[q] == input.len() - 1,
    ensures
        r.0 == out.remove(q),
        r.1 == perm.remove(q),
        stable_sorted_with(input.take(input.len() - 1), r.0, r.1),
        stable_sorted(input.take(input.len() - 1), r.0),
{
    let n = input.len() as int;
    let inp = input.take(n - 1);
    let o = out.remove(q);
    let p = perm.remove(q);
    assert forall|i: int| 0 <= i < p.len() implies 0 <= #[trigger] p[i] < inp.len() by {
        if i < q {
            assert(p[i] == perm[i] && perm[i] != perm[q]);
        } else {
            assert(p[i] == perm[i + 1] && perm[i + 1] != perm[q]);
        }
    }
    assert forall|a: int, b: int| 0 <= a < b < p.len() implies p[a] != p[b] by {
        let a0 = if a < q { a } else { a + 1 };
        let b0 = if b < q { b } else { b + 1 };
        assert(p[a] == perm[a0] && p[b] == perm[b0]);
    }
    assert forall|i: int| 0 <= i < o.len() implies #[trigger] o[i] == inp[p[i]] by {
        let i0 = if i < q { i } else { i + 1 };
        assert(o[i] == out[i0] && p[i] == perm[i0]);
    }
    assert forall|a: int, b: int| 0 <= a < b < o.len() implies
        !drawn_before(#[trigger] o[b], #[trigger] o[a]) by {
        let a0 = if a < q { a } else { a + 1 };
        let b0 = if b < q { b } else { b + 1 };
        assert(o[a] == out[a0] && o[b] == out[b0]);
    }
    assert forall|a: int, b: int| 0 <= a < b < o.len() && same_spot(o[a], o[b]) implies p[a] < p[b] by {
        let a0 = if a < q { a } else { a + 1 };
        let b0 = if b < q { b } else { b + 1 };
        assert(o[a] == out[a0] && o[b] == out[b0]);
        assert(p[a] == perm[a0] && p[b] == perm[b0]);
    }
    assert forall|m: int| 0 <= m < inp.len() implies #[trigger] covers(p, m) by {
        assert(covers(perm, m));
        let i0 = choose|i: int| 0 <= i < perm.len() && perm[i] == m;
        assert(i0 != q);
        if i0 < q {
            assert(p[i0] == m);
        } else {
            assert(p[i0 - 1] == m);
        }
    }
    assert(stable_sorted_with(inp, o, p));
    (o, p)
}

impl GameStage {
    /// The water ripple lines.
    pub fn render_ripples(&self) -> (r: Vec<DrawCommand>)
        ensures
            r@ == ripple_draws(self.world.ripples@),
    {
        let mut out: Vec<DrawCommand> = Vec::new();
        let mut i: usize = 0;
        while i < self.world.ripples.len()
            invariant
                i <= self.world.ripples@.len(),
                out@ == ripple_draws(self.world.ripples@.take(i as int)),
            decreases self.world.ripples@.len() - i,
        {
            let ((x, y), off) = self.world.ripples[i];
            let cmd = DrawCommand::Ripple { x: x as i32 + off.0 as i32, y: y as i32 + off.1 as i32 };
            out.push(cmd);
            proof {
                assert(self.world.ripples@.take(i + 1) =~= self.world.ripples@.take(i as int).push(
                    self.world.ripples@[i as int]));
                assert(ripple_draws(self.world.ripples@.take(i + 1)) =~= ripple_draws(
                    self.world.ripples@.take(i as int)).push(cmd));
            }
            i += 1;
        }
        proof {
            assert(self.world.ripples@.take(self.world.ripples@.len() as int) =~= self.world.ripples@);
        }
        out
    }

    /// The sprites of all objects, sorted by screen position.
    pub fn render_objects(&self) -> (r: Vec<DrawCommand>)
        ensures
            exists|sorted: Seq<Placed>| stable_sorted(scene_objects(self.world), sorted)
                && r@ == sprites_of(sorted),
    {
        let mut buffer: Vec<Placed> = Vec::new();
        let mut i: usize = 0;
        while i < self.world.workers.len()
            invariant
                i <= self.world.workers@.len(),
                buffer@ == self.world.workers@.take(i as int).map_values(
                    |k: crate::game_stage::Worker| (Object::Worker, k.pos)),
            decreases self.world.workers@.len() - i,
        {
            buffer.push((Object::Worker, self.world.workers[i].pos));
            proof {
                assert(self.world.workers@.take(i + 1) =~= self.world.workers@.take(i as int).push(
                    self.world.workers@[i as int]));
            }
            i += 1;
        }
        let ghost b1 = buffer@;
        let mut i: usize = 0;
        while i < self.world.mature.len()
            invariant
                i <= self.world.mature@.len(),
                buffer@ == b1 + self.world.mature@.take(i as int).map_values(
                    |t: crate::game_stage::MatureTree| (t.0, t.1)),
            decreases self.world.mature@.len() - i,
        {
            let t = self.world.mature[i];
            buffer.push((t.0, t.1));
            proof {
                assert(self.world.mature@.take(i + 1) =~= self.world.mature@.take(i as int).push(
                    self.world.mature@[i as int]));
            }
            i += 1;
        }
        let ghost b2 = buffer@;
        let mut i: usize = 0;
        while i < self.world.young.len()
            invariant
                i <= self.world.young@.len(),
                buffer@ == b2 + self.world.young@.take(i as int).map_values(
                    |t: crate::game_stage::YoungTree| (t.0, t.1)),
            decreases self.world.young@.len() - i,
        {
            let t = self.world.young[i];
            buffer.push((t.0, t.1));
            proof {
                assert(self.world.young@.take(i + 1) =~= self.world.young@.take(i as int).push(
                    self.world.young@[i as int]));
            }
            i += 1;
        }
        let ghost b3 = buffer@;
        let mut i: usize = 0;
        while i < self.world.dead.len()
            invariant
                i <= self.world.dead@.len(),
                buffer@ == b3 + self.world.dead@.take(i as int).map_values(|p: (i16, i16)| (Object::Stump, p)),
            decreases self.world.dead@.len() - i,
        {
            buffer.push((Object::Stump, self.world.dead[i]));
            proof {
                assert(self.world.dead@.take(i + 1) =~= self.world.dead@.take(i as int).push(
                    self.world.dead@[i as int]));
            }
            i += 1;
        }
        let ghost b4 = buffer@;
        let mut i: usize = 0;
        while i < self.world.store.len()
            invariant
                i <= self.world.store@.len(),
                buffer@ == b4 + self.world.store@.take(i as int).map_values(
                    |s: crate::game_stage::StoreEntry| (Object::BigHouse, s.0)),
            decreases self.world.store@.len() - i,
        {
            buffer.push((Object::BigHouse, self.world.store[i].0));
            proof {
                assert(self.world.store@.take(i + 1) =~= self.world.store@.take(i as int).push(
                    self.world.store@[i as int]));
            }
            i += 1;
        }
        proof {
            assert(self.world.workers@.take(self.world.workers@.len() as int) =~= self.world.workers@);
            assert(self.world.mature@.take(self.world.mature@.len() as int) =~= self.world.mature@);
            assert(self.world.young@.take(self.world.young@.len() as int) =~= self.world.young@);
            assert(self.world.dead@.take(self.world.dead@.len() as int) =~= self.world.dead@);
            assert(self.world.store@.take(self.world.store@.len() as int) =~= self.world.store@);
            assert(buffer@ =~= scene_objects(self.world));
        }
        let sorted = sort_for_drawing(&buffer);
        let mut out: Vec<DrawCommand> = Vec::new();
        let mut k: usize = 0;
        while k < sorted.len()
            invariant
                k <= sorted@.len(),
                out@ == sprites_of(sorted@.take(k as int)),
            decreases sorted@.len() - k,
        {
            let (object, (x, y)) = sorted[k];
            proof {
                lemma_i16_fits(object, x, y);
            }
            let mut sprites = object.blit(x as i32, y as i32);
            out.append(&mut sprites);
            proof {
                assert(sorted@.take(k + 1).drop_last() =~= sorted@.take(k as int));
            }
            k += 1;
        }
        proof {
            assert(sorted@.take(sorted@.len() as int) =~= sorted@);
        }
        out
    }

    /// Everything to draw for one frame: water ripples, terrain, then the
    /// objects sorted by screen position.
    pub fn render(&self) -> (r: Vec<DrawCommand>)
        ensures
            exists|sorted: Seq<Placed>| stable_sorted(scene_objects(self.world), sorted)
                && r@ == ripple_draws(self.world.ripples@) + terrain_draws(self.tilemap.map@, 20)
                    + sprites_of(sorted),
    {
        let mut out = self.render_ripples();
        let mut terrain = self.tilemap.draw();
        out.append(&mut terrain);
        let mut objects = self.render_objects();
        out.append(&mut objects);
        out
    }
}


/// `at` places each object of the world (workers, mature trees, young trees, stumps and
/// store houses, in that order) at a distinct index of `drawn`.
pub open spec fn drawn_once(w: World, drawn: Seq<Placed>, at: Seq<int>) -> bool {
    let nw = w.workers@.len() as int;
    let nm = w.mature@.len() as int;
    let ny = w.young@.len() as int;
    let nd = w.dead@.len() as int;
    &&& at.len() == drawn.len()
    &&& forall|a: int| 0 <= a < at.len() ==> 0 <= #[trigger] at[a] < drawn.len()
    &&& forall|a: int, b: int| 0 <= a < b < at.len() ==> at[a] != at[b]
    &&& forall|k: int| 0 <= k < nw ==> drawn[#[trigger] at[k]] == (Object::Worker, w.workers@[k].pos)
    &&& forall|k: int| 0 <= k < nm ==>
        drawn[#[trigger] at[nw + k]] == (w.mature@[k].0, w.mature@[k].1)
    &&& forall|k: int| 0 <= k < ny ==>
        drawn[#[trigger] at[nw + nm + k]] == (w.young@[k].0, w.young@[k].1)
    &&& forall|k: int| 0 <= k < nd ==>
        drawn[#[trigger] at[nw + nm + ny + k]] == (Object::Stump, w.dead@[k])
    &&& forall|k: int| 0 <= k < w.store@.len() ==>
        drawn[#[trigger] at[nw + nm + ny + nd + k]] == (Object::BigHouse, w.store@[k].0)
}

/// Every object of the world is drawn, each exactly once: the objects in
/// drawing order hold, each at a place of its own, every worker, every
/// mature tree, every young tree, every stump and every store house of the
/// world, and nothing else.
pub proof fn law_render_draws_every_object(w: World, sorted: Seq<Placed>)
    requires
        stable_sorted(scene_objects(w), sorted),
    ensures
        sorted.len() == w.workers@.len() + w.mature@.len() + w.young@.len() + w.dead@.len() + w.store@.len(),
        exists|at: Seq<int>| #[trigger] drawn_once(w, sorted, at),
{
    let input = scene_objects(w);
    let perm = choose|perm: Seq<int>| stable_sorted_with(input, sorted, perm);
    let n = input.len() as int;
    let nw = w.workers@.len() as int;
    let nm = w.mature@.len() as int;
    let ny = w.young@.len() as int;
    let nd = w.dead@.len() as int;
    let at = Seq::new(n as nat, |m: int| choose|i: int| 0 <= i < perm.len() && perm[i] == m);
    assert forall|m: int| 0 <= m < n implies 0 <= #[trigger] at[m] < perm.len() && perm[at[m]] == m
        && sorted[at[m]] == input[m] by {
        assert(covers(perm, m));
    }
    assert forall|a: int, b: int| 0 <= a < b < at.len() implies at[a] != at[b] by {
        assert(perm[at[a]] == a && perm[at[b]] == b);
    }
    let s1 = w.workers@.map_values(|k: crate::game_stage::Worker| (Object::Worker, k.pos));
    let s2 = w.mature@.map_values(|t: crate::game_stage::MatureTree| (t.0, t.1));
    let s3 = w.young@.map_values(|t: crate::game_stage::YoungTree| (t.0, t.1));
    let s4 = w.dead@.map_values(|p: (i16, i16)| (Object::Stump, p));
    let s5 = w.store@.map_values(|s: crate::game_stage::StoreEntry| (Object::BigHouse, s.0));
    assert(input == s1 + s2 + s3 + s4 + s5);
    assert forall|k: int| 0 <= k < nw implies sorted[#[trigger] at[k]] == (Object::Worker, w.workers@[k].pos) by {
        assert(input[k] == s1[k]);
    }
    assert forall|k: int| 0 <= k < nm implies sorted[#[trigger] at[nw + k]] == (w.mature@[k].0, w.mature@[k].1) by {
        assert(input[nw + k] == s2[k]);
    }
    assert forall|k: int| 0 <= k < ny implies
        sorted[#[trigger] at[nw + nm + k]] == (w.young@[k].0, w.young@[k].1) by {
        assert(input[nw + nm + k] == s3[k]);
    }
    assert forall|k: int| 0 <= k < nd implies
        sorted[#[trigger] at[nw + nm + ny + k]] == (Object::Stump, w.dead@[k]) by {
        assert(input[nw + nm + ny + k] == s4[k]);
    }
    assert forall|k: int| 0 <= k < w.store@.len() implies
        sorted[#[trigger] at[nw + nm + ny + nd + k]] == (Object::BigHouse, w.store@[k].0) by {
        assert(input[nw + nm + ny + nd + k] == s5[k]);
    }
    assert(drawn_once(w, sorted, at));
}

} // verus!
