//! Collecting the primitives under a point and ordering them nearest first.

use vstd::prelude::*;
use crate::geometry::{distance_sq, hit_distance, within, Primitive, WorldPoint};

verus! {

/// A primitive under the pointer, with the key it is ranked by.
#[derive(Clone, Copy, Debug, PartialEq, Eq, Structural)]
pub struct RankedHit {
    pub entity: u64,
    /// Squared distance from the pointer to the primitive's centre.
    pub distance_sq: u128,
    /// The `z` of the primitive's transform.
    pub depth: i64,
}

/// What a primitive that is hit contributes to the ranking.
pub open spec fn candidate(point: WorldPoint, prim: Primitive) -> RankedHit {
    RankedHit {
        entity: prim.entity,
        distance_sq: distance_sq(point, prim.transform) as u128,
        depth: prim.transform.z,
    }
}

/// The primitives that contain `point`, in the order of `prims`.
pub open spec fn hits_of(point: WorldPoint, prims: Seq<Primitive>) -> Seq<RankedHit>
    decreases prims.len(),
{
    if prims.len() == 0 {
        Seq::empty()
    } else {
        let front = hits_of(point, prims.drop_last());
        if within(point, prims.last()) {
            front.push(candidate(point, prims.last()))
        } else {
            front
        }
    }
}

/// No hit is farther than a later one.
pub open spec fn nearest_first(s: Seq<RankedHit>) -> bool {
    forall|i: int, j: int|
        0 <= i < j < s.len() ==> (#[trigger] s[i]).distance_sq <= (#[trigger] s[j]).distance_sq
}

/// The hits of `s` at squared distance `d`, in the order of `s`.
pub open spec fn at_distance(s: Seq<RankedHit>, d: u128) -> Seq<RankedHit>
    decreases s.len(),
{
    if s.len() == 0 {
        Seq::empty()
    } else {
        let front = at_distance(s.drop_last(), d);
        if s.last().distance_sq == d {
            front.push(s.last())
        } else {
            front
        }
    }
}

/// Where a hit at squared distance `d` goes in `s`: behind the last hit
/// that is no farther.
pub open spec fn slot(s: Seq<RankedHit>, d: u128) -> int
    decreases s.len(),
{
    if s.len() == 0 || s.last().distance_sq <= d {
        s.len() as int
    } else {
        slot(s.drop_last(), d)
    }
}

/// `s` with `h` put in its slot.
pub open spec fn placed(s: Seq<RankedHit>, h: RankedHit) -> Seq<RankedHit> {
    s.insert(slot(s, h.distance_sq), h)
}

/// `s` ordered nearest first, hits at equal distance in the order of `s`.
pub open spec fn ranked(s: Seq<RankedHit>) -> Seq<RankedHit>
    decreases s.len(),
{
    if s.len() == 0 {
        Seq::empty()
    } else {
        placed(ranked(s.drop_last()), s.last())
    }
}

proof fn slot_divides(s: Seq<RankedHit>, d: u128)
    ensures
        0 <= slot(s, d) <= s.len(),
        forall|i: int| slot(s, d) <= i < s.len() ==> (#[trigger] s[i]).distance_sq > d,
        slot(s, d) > 0 ==> s[slot(s, d) - 1].distance_sq <= d,
    decreases s.len(),
{
    if !(s.len() == 0 || s.last().distance_sq <= d) {
        let front = s.drop_last();
        slot_divides(front, d);
        let k = slot(front, d);
        assert forall|i: int| k <= i < s.len() implies (#[trigger] s[i]).distance_sq > d by {
            if i < front.len() {
                assert(front[i] == s[i]);
            }
        }
        if k > 0 {
            assert(front[k - 1] == s[k - 1]);
        }
    }
}

proof fn slot_is_determined(s: Seq<RankedHit>, d: u128, k: int)
    requires
        0 <= k <= s.len(),
        forall|i: int| k <= i < s.len() ==> (#[trigger] s[i]).distance_sq > d,
        k > 0 ==> s[k - 1].distance_sq <= d,
    ensures
        slot(s, d) == k,
    decreases s.len(),
{
    if s.len() == 0 {
    } else if s.last().distance_sq <= d {
        if k < s.len() {
            assert(s[s.len() - 1].distance_sq > d);
        }
    } else {
        let front = s.drop_last();
        assert(k < s.len());
        assert forall|i: int| k <= i < front.len() implies (#[trigger] front[i]).distance_sq > d by {
            assert(front[i] == s[i]);
        }
        if k > 0 {
            assert(front[k - 1] == s[k - 1]);
        }
        slot_is_determined(front, d, k);
    }
}

proof fn placed_keeps_order(s: Seq<RankedHit>, h: RankedHit)
    requires
        nearest_first(s),
    ensures
        nearest_first(placed(s, h)),
        placed(s, h).len() == s.len() + 1,
{
    let k = slot(s, h.distance_sq);
    slot_divides(s, h.distance_sq);
    let t = placed(s, h);
    assert(t.len() == s.len() + 1);
    assert forall|i: int, j: int| 0 <= i < j < t.len() implies (#[trigger] t[i]).distance_sq
        <= (#[trigger] t[j]).distance_sq by {
        if j < k {
            assert(t[i] == s[i] && t[j] == s[j]);
        } else if j == k {
            assert(t[i] == s[i] && t[j] == h);
            if i < k - 1 {
                assert(s[i].distance_sq <= s[k - 1].distance_sq);
            }
        } else if i < k {
            assert(t[i] == s[i] && t[j] == s[j - 1]);
            if i < j - 1 {
                assert(s[i].distance_sq <= s[j - 1].distance_sq);
            }
        } else if i == k {
            assert(t[i] == h && t[j] == s[j - 1]);
        } else {
            assert(t[i] == s[i - 1] && t[j] == s[j - 1]);
        }
    }
}

proof fn at_distance_of_concat(a: Seq<RankedHit>, b: Seq<RankedHit>, d: u128)
    ensures
        at_distance(a + b, d) == at_distance(a, d) + at_distance(b, d),
    decreases b.len(),
{
    if b.len() == 0 {
        assert(a + b =~= a);
        assert(at_distance(a, d) + at_distance(b, d) =~= at_distance(a, d));
    } else {
        at_distance_of_concat(a, b.drop_last(), d);
        assert((a + b).drop_last() =~= a + b.drop_last());
        assert((a + b).last() == b.last());
        let x = at_distance(a, d);
        let y = at_distance(b.drop_last(), d);
        assert((x + y).push(b.last()) =~= x + y.push(b.last()));
    }
}

proof fn at_distance_of_farther(s: Seq<RankedHit>, d: u128)
    requires
        forall|i: int| 0 <= i < s.len() ==> (#[trigger] s[i]).distance_sq != d,
    ensures
        at_distance(s, d) == Seq::<RankedHit>::empty(),
    decreases s.len(),
{
    if s.len() > 0 {
        let front = s.drop_last();
        assert forall|i: int| 0 <= i < front.len() implies (#[trigger] front[i]).distance_sq
            != d by {
            assert(front[i] == s[i]);
        }
        at_distance_of_farther(front, d);
        assert(s[s.len() - 1].distance_sq != d);
    }
}

proof fn placed_goes_last_among_equals(s: Seq<RankedHit>, h: RankedHit, d: u128)
    ensures
        at_distance(placed(s, h), d) == if h.distance_sq == d {
            at_distance(s, d).push(h)
        } else {
            at_distance(s, d)
        },
{
    let k = slot(s, h.distance_sq);
    slot_divides(s, h.distance_sq);
    let head = s.subrange(0, k);
    let tail = s.subrange(k, s.len() as int);
    assert(s =~= head + tail);
    assert(placed(s, h) =~= head.push(h) + tail);
    at_distance_of_concat(head, tail, d);
    at_distance_of_concat(head.push(h), tail, d);
    assert(head.push(h).drop_last() =~= head);
    assert(head.push(h).last() == h);
    if h.distance_sq == d {
        assert forall|i: int| 0 <= i < tail.len() implies (#[trigger] tail[i]).distance_sq
            != d by {
            assert(tail[i] == s[k + i]);
        }
        at_distance_of_farther(tail, d);
        assert(at_distance(head, d).push(h) + Seq::<RankedHit>::empty() =~= at_distance(
            head,
            d,
        ).push(h));
        assert(at_distance(head, d) + Seq::<RankedHit>::empty() =~= at_distance(head, d));
    }
}

/// Ranking keeps every hit and orders them nearest first.
pub proof fn ranked_is_nearest_first(s: Seq<RankedHit>)
    ensures
        nearest_first(ranked(s)),
        ranked(s).len() == s.len(),
    decreases s.len(),
{
    if s.len() > 0 {
        ranked_is_nearest_first(s.drop_last());
        placed_keeps_order(ranked(s.drop_last()), s.last());
    }
}

/// Ranking is stable: the hits at any one distance come out in the order
/// in which they went in.
pub proof fn ranked_is_stable(s: Seq<RankedHit>, d: u128)
    ensures
        at_distance(ranked(s), d) == at_distance(s, d),
    decreases s.len(),
{
    if s.len() > 0 {
        ranked_is_stable(s.drop_last(), d);
        placed_goes_last_among_equals(ranked(s.drop_last()), s.last(), d);
    }
}

/// Order and stability leave no choice: two sequences that are both nearest
/// first and agree, at every distance, on the hits at that distance and
/// their order, are equal. So `ranked(s)` is the only nearest-first
/// sequence that keeps the hits at each distance as they stand in `s`.
pub proof fn ranking_is_determined(t: Seq<RankedHit>, u: Seq<RankedHit>)
    requires
        nearest_first(t),
        nearest_first(u),
        forall|d: u128| at_distance(t, d) == at_distance(u, d),
    ensures
        t == u,
    decreases t.len(),
{
    if t.len() == 0 {
        if u.len() > 0 {
            assert(at_distance(t, u.last().distance_sq).len() == 0);
            assert(at_distance(u, u.last().distance_sq).len() > 0);
        }
        assert(t =~= u);
    } else {
        let x = t.last();
        let m = x.distance_sq;
        assert(at_distance(t, m) == at_distance(t.drop_last(), m).push(x));
        if u.len() == 0 {
            assert(at_distance(u, m).len() == 0);
        }
        let y = u.last();
        let n = y.distance_sq;
        assert(at_distance(u, n) == at_distance(u.drop_last(), n).push(y));
        if n > m {
            assert forall|i: int| 0 <= i < t.len() implies (#[trigger] t[i]).distance_sq != n by {
                if i < t.len() - 1 {
                    assert(t[i].distance_sq <= t[t.len() - 1].distance_sq);
                }
            }
            at_distance_of_farther(t, n);
        }
        if n < m {
            assert forall|i: int| 0 <= i < u.len() implies (#[trigger] u[i]).distance_sq != m by {
                if i < u.len() - 1 {
                    assert(u[i].distance_sq <= u[u.len() - 1].distance_sq);
                }
            }
            at_distance_of_farther(u, m);
        }
        assert(n == m);
        assert(at_distance(t, m).last() == x);
        assert(at_distance(u, m).last() == y);
        assert(x == y);
        let tf = t.drop_last();
        let uf = u.drop_last();
        assert forall|d: u128| at_distance(tf, d) == at_distance(uf, d) by {
            assert(at_distance(t, d) == at_distance(u, d));
            if d == m {
                assert(at_distance(tf, d) =~= at_distance(t, d).drop_last());
                assert(at_distance(uf, d) =~= at_distance(u, d).drop_last());
            }
        }
        assert(nearest_first(tf)) by {
            assert forall|i: int, j: int| 0 <= i < j < tf.len() implies (#[trigger] tf[i]).distance_sq
                <= (#[trigger] tf[j]).distance_sq by {
                assert(tf[i] == t[i] && tf[j] == t[j]);
            }
        }
        assert(nearest_first(uf)) by {
            assert forall|i: int, j: int| 0 <= i < j < uf.len() implies (#[trigger] uf[i]).distance_sq
                <= (#[trigger] uf[j]).distance_sq by {
                assert(uf[i] == u[i] && uf[j] == u[j]);
            }
        }
        ranking_is_determined(tf, uf);
        assert(t =~= tf.push(x));
        assert(u =~= uf.push(y));
    }
}

/// Ranking reorders and nothing else: each hit comes out as often as it
/// went in.
pub proof fn ranked_is_a_permutation(s: Seq<RankedHit>)
    ensures
        ranked(s).to_multiset() == s.to_multiset(),
        forall|h: RankedHit| ranked(s).contains(h) <==> s.contains(h),
    decreases s.len(),
{
    broadcast use vstd::seq_lib::group_to_multiset_ensures;

    if s.len() == 0 {
        assert(ranked(s) =~= s);
    } else {
        let front = s.drop_last();
        let h = s.last();
        ranked_is_a_permutation(front);
        let r = ranked(front);
        let k = slot(r, h.distance_sq);
        slot_divides(r, h.distance_sq);
        let t = placed(r, h);
        assert(t[k] == h);
        assert(t.remove(k) =~= r);
        assert(t.contains(h));
        assert(t.to_multiset() =~= r.to_multiset().insert(h));
        assert(s =~= front.push(h));
        assert(t.to_multiset() =~= s.to_multiset());
    }
    assert forall|h: RankedHit| ranked(s).contains(h) <==> s.contains(h) by {
        assert(ranked(s).contains(h) <==> ranked(s).to_multiset().count(h) > 0);
        assert(s.contains(h) <==> s.to_multiset().count(h) > 0);
    }
}

/// The hits under a point are the candidates of the primitives that contain
/// it: each hit comes from such a primitive, and each such primitive gives
/// a hit.
pub proof fn hits_of_are_the_primitives_within(point: WorldPoint, prims: Seq<Primitive>)
    ensures
        forall|h: RankedHit|
            hits_of(point, prims).contains(h) <==> exists|j: int|
                0 <= j < prims.len() && within(point, #[trigger] prims[j]) && h == candidate(
                    point,
                    prims[j],
                ),
    decreases prims.len(),
{
    let all = hits_of(point, prims);
    if prims.len() == 0 {
        assert forall|h: RankedHit| !all.contains(h) by {}
    } else {
        let front = prims.drop_last();
        let last = prims.last();
        let sub = hits_of(point, front);
        hits_of_are_the_primitives_within(point, front);
        assert forall|h: RankedHit| all.contains(h) <==> exists|j: int|
            0 <= j < prims.len() && within(point, #[trigger] prims[j]) && h == candidate(
                point,
                prims[j],
            ) by {
            if all.contains(h) {
                let i = choose|i: int| 0 <= i < all.len() && all[i] == h;
                if i < sub.len() {
                    assert(sub[i] == h);
                    assert(sub.contains(h));
                    let j = choose|j: int|
                        0 <= j < front.len() && within(point, #[trigger] front[j]) && h
                            == candidate(point, front[j]);
                    assert(prims[j] == front[j]);
                } else {
                    assert(within(point, prims[prims.len() - 1]));
                }
            }
            if exists|j: int|
                0 <= j < prims.len() && within(point, #[trigger] prims[j]) && h == candidate(
                    point,
                    prims[j],
                ) {
                let j = choose|j: int|
                    0 <= j < prims.len() && within(point, #[trigger] prims[j]) && h == candidate(
                        point,
                        prims[j],
                    );
                if j < front.len() {
                    assert(front[j] == prims[j]);
                    assert(sub.contains(h));
                    let i = choose|i: int| 0 <= i < sub.len() && sub[i] == h;
                    assert(all[i] == h);
                } else {
                    assert(all[all.len() - 1] == h);
                }
            }
        }
    }
}

/// Tests every primitive against `point` and keeps those that contain it,
/// in the order of `prims`, each with its squared distance and depth.
pub fn collect_hits(point: WorldPoint, prims: &Vec<Primitive>) -> (hits: Vec<RankedHit>)
    ensures
        hits@ == hits_of(point, prims@),
{
    let mut hits: Vec<RankedHit> = Vec::new();
    let mut i: usize = 0;
    while i < prims.len()
        invariant
            i <= prims.len(),
            hits@ == hits_of(point, prims@.take(i as int)),
        decreases prims.len() - i,
    {
        let prim = &prims[i];
        proof {
            assert(prims@.take(i + 1).drop_last() =~= prims@.take(i as int));
            assert(prims@.take(i + 1).last() == prims@[i as int]);
        }
        match hit_distance(point, prim) {
            Some(d) => {
                hits.push(RankedHit { entity: prim.entity, distance_sq: d, depth: prim.transform.z });
            },
            None => {},
        }
        i += 1;
    }
    proof {
        assert(prims@.take(prims.len() as int) =~= prims@);
    }
    hits
}

/// Orders hits nearest first. Hits at equal distance keep their relative
/// order.
pub fn rank_hits(hits: &Vec<RankedHit>) -> (out: Vec<RankedHit>)
    ensures
        out@ == ranked(hits@),
        out.len() == hits.len(),
        nearest_first(out@),
        forall|d: u128| at_distance(out@, d) == at_distance(hits@, d),
{
    let mut out: Vec<RankedHit> = Vec::new();
    let mut i: usize = 0;
    while i < hits.len()
        invariant
            i <= hits.len(),
            out@ == ranked(hits@.take(i as int)),
            out.len() == i,
        decreases hits.len() - i,
    {
        let h = hits[i];
        let mut k: usize = out.len();
        while k > 0 && out[k - 1].distance_sq > h.distance_sq
            invariant
                k <= out.len(),
                forall|j: int| k <= j < out.len() ==> (#[trigger] out@[j]).distance_sq > h.distance_sq,
            decreases k,
        {
            k -= 1;
        }
        proof {
            slot_is_determined(out@, h.distance_sq, k as int);
            assert(hits@.take(i + 1).drop_last() =~= hits@.take(i as int));
            assert(hits@.take(i + 1).last() == h);
        }
        out.insert(k, h);
        i += 1;
    }
    proof {
        assert(hits@.take(hits.len() as int) =~= hits@);
        ranked_is_nearest_first(hits@);
        assert forall|d: u128| at_distance(out@, d) == at_distance(hits@, d) by {
            ranked_is_stable(hits@, d);
        }
    }
    out
}

} // verus!
