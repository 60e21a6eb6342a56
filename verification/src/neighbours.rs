//! The bounded set of nearest neighbours that a search keeps.
//!
//! A neighbour is a pair of a distance and a label. A search keeps `K` slots; a
//! slot at distance `u32::MAX` is vacant and carries the label 0.

use vstd::multiset::Multiset;
use vstd::prelude::*;

verus! {

broadcast use {vstd::multiset::group_multiset_axioms, vstd::seq_lib::group_to_multiset_ensures};

/// The number of neighbours that vote on a transaction.
pub const K: usize = 5;

/// Distances and labels, slot by slot.
pub open spec fn slots(d: Seq<u32>, l: Seq<u8>) -> Seq<(u32, u8)> {
    Seq::new(d.len(), |i: int| (d[i], l[i]))
}

/// `K` vacant slots.
pub open spec fn vacant() -> Seq<(u32, u8)> {
    Seq::new(K as nat, |i: int| (u32::MAX, 0u8))
}

/// Whether `m` is the first of the slots at the greatest distance.
pub open spec fn is_farthest(s: Seq<(u32, u8)>, m: int) -> bool {
    &&& 0 <= m < s.len()
    &&& forall|i: int| 0 <= i < s.len() ==> (#[trigger] s[i]).0 <= s[m].0
    &&& forall|i: int| 0 <= i < m ==> (#[trigger] s[i]).0 < s[m].0
}

/// The first of the slots at the greatest distance.
pub open spec fn farthest(s: Seq<(u32, u8)>) -> int {
    choose|m: int| is_farthest(s, m)
}

/// The slots after a neighbour was offered: it takes the place of the farthest
/// one if it is strictly closer.
pub open spec fn offered(s: Seq<(u32, u8)>, e: (u32, u8)) -> Seq<(u32, u8)> {
    if e.0 < s[farthest(s)].0 {
        s.update(farthest(s), e)
    } else {
        s
    }
}

/// The slots after neighbours were offered one after the other.
pub open spec fn offered_all(s: Seq<(u32, u8)>, es: Seq<(u32, u8)>) -> Seq<(u32, u8)>
    decreases es.len(),
{
    if es.len() == 0 {
        s
    } else {
        offered(offered_all(s, es.drop_last()), es.last())
    }
}

/// Whether `near` is a choice of the `k` nearest among `all`: as many as there
/// are, up to `k`, and none that was left out is closer than one that was taken.
/// Among equal distances any may be taken.
pub open spec fn nearest(
    near: Multiset<(u32, u8)>,
    all: Multiset<(u32, u8)>,
    k: nat,
) -> bool {
    &&& near.subset_of(all)
    &&& near.len() == if all.len() < k {
        all.len()
    } else {
        k
    }
    &&& forall|x: (u32, u8), y: (u32, u8)| #[trigger]
        near.contains(x) && #[trigger] all.sub(near).contains(y) ==> x.0 <= y.0
}

/// The sum of the labels of neighbours.
pub open spec fn label_sum(s: Seq<(u32, u8)>) -> int
    decreases s.len(),
{
    if s.len() == 0 {
        0
    } else {
        label_sum(s.drop_last()) + s.last().1
    }
}

/// The sum of labels.
pub open spec fn vote_sum(l: Seq<u8>) -> int
    decreases l.len(),
{
    if l.len() == 0 {
        0
    } else {
        vote_sum(l.drop_last()) + l.last()
    }
}

/// A slot that holds a neighbour.
pub open spec fn occupied() -> spec_fn((u32, u8)) -> bool {
    |e: (u32, u8)| e.0 != u32::MAX
}

/// The neighbours that the slots hold.
pub open spec fn kept(s: Seq<(u32, u8)>) -> Seq<(u32, u8)> {
    s.filter(occupied())
}

/// The slots hold the nearest of the neighbours seen, the others are vacant.
pub open spec fn holds_nearest(s: Seq<(u32, u8)>, seen: Multiset<(u32, u8)>) -> bool {
    &&& s.len() == K
    &&& forall|i: int| 0 <= i < s.len() && (#[trigger] s[i]).0 == u32::MAX ==> s[i].1 == 0
    &&& nearest(kept(s).to_multiset(), seen, K as nat)
}

proof fn lemma_farthest_exists(s: Seq<(u32, u8)>, n: int) -> (m: int)
    requires
        1 <= n <= s.len(),
    ensures
        is_farthest(s.take(n), m),
    decreases n,
{
    let t = s.take(n);
    if n == 1 {
        assert(is_farthest(t, 0));
        0
    } else {
        let m = lemma_farthest_exists(s, n - 1);
        let u = s.take(n - 1);
        assert(forall|i: int| 0 <= i < n - 1 ==> u[i] == t[i]);
        if t[n - 1].0 > t[m].0 {
            assert forall|i: int| 0 <= i < n implies (#[trigger] t[i]).0 <= t[n - 1].0 by {
                if i < n - 1 {
                    assert(u[i].0 <= u[m].0);
                }
            }
            assert forall|i: int| 0 <= i < n - 1 implies (#[trigger] t[i]).0 < t[n - 1].0 by {
                assert(u[i].0 <= u[m].0);
            }
            assert(is_farthest(t, n - 1));
            n - 1
        } else {
            assert forall|i: int| 0 <= i < n implies (#[trigger] t[i]).0 <= t[m].0 by {
                if i < n - 1 {
                    assert(u[i].0 <= u[m].0);
                }
            }
            assert forall|i: int| 0 <= i < m implies (#[trigger] t[i]).0 < t[m].0 by {
                assert(u[i].0 < u[m].0);
            }
            assert(is_farthest(t, m));
            m
        }
    }
}

/// There is a farthest slot.
proof fn lemma_farthest(s: Seq<(u32, u8)>)
    requires
        s.len() > 0,
    ensures
        is_farthest(s, farthest(s)),
{
    let m = lemma_farthest_exists(s, s.len() as int);
    assert(s.take(s.len() as int) =~= s);
    assert(is_farthest(s, m));
}

/// There is only one farthest slot.
pub proof fn lemma_farthest_unique(s: Seq<(u32, u8)>, m: int)
    requires
        is_farthest(s, m),
    ensures
        m == farthest(s),
{
    let f = farthest(s);
    assert(is_farthest(s, f));
    assert(s[m].0 <= s[f].0 && s[f].0 <= s[m].0);
}

/// A sub-multiset that is as large as the whole is the whole.
proof fn lemma_subset_same_len(a: Multiset<(u32, u8)>, b: Multiset<(u32, u8)>)
    requires
        a.subset_of(b),
        a.len() >= b.len(),
    ensures
        a == b,
{
    let rest = b.sub(a);
    assert(b =~= a.add(rest));
    assert(rest.len() == 0);
    assert forall|e: (u32, u8)| a.count(e) == b.count(e) by {
        assert(rest.count(e) <= rest.len());
    }
    assert(a =~= b);
}

/// What the slots hold, counted: the slots that are not vacant.
proof fn lemma_kept(s: Seq<(u32, u8)>)
    ensures
        forall|e: (u32, u8)| #[trigger]
            kept(s).to_multiset().count(e) == if e.0 != u32::MAX {
                s.to_multiset().count(e)
            } else {
                0
            },
        kept(s).len() <= s.len(),
        kept(s).len() == s.len() <==> forall|i: int|
            0 <= i < s.len() ==> (#[trigger] s[i]).0 != u32::MAX,
    decreases s.len(),
{
    reveal(Seq::filter);
    if s.len() == 0 {
        assert(kept(s) =~= Seq::empty());
    } else {
        let t = s.drop_last();
        lemma_kept(t);
        assert(s =~= t.push(s.last()));
        assert(s.to_multiset() =~= t.to_multiset().insert(s.last()));
        if s.last().0 != u32::MAX {
            assert(kept(s) == kept(t).push(s.last()));
            assert(kept(s).to_multiset() =~= kept(t).to_multiset().insert(s.last()));
            assert(forall|i: int| 0 <= i < t.len() ==> t[i] == s[i]);
        } else {
            assert(kept(s) == kept(t));
            assert(s[s.len() - 1].0 == u32::MAX);
        }
    }
}

/// Without vacant slots all is kept.
pub proof fn lemma_kept_all(s: Seq<(u32, u8)>)
    requires
        forall|i: int| 0 <= i < s.len() ==> (#[trigger] s[i]).0 != u32::MAX,
    ensures
        kept(s) == s,
    decreases s.len(),
{
    reveal(Seq::filter);
    if s.len() > 0 {
        let t = s.drop_last();
        assert(forall|i: int| 0 <= i < t.len() ==> t[i] == s[i]);
        lemma_kept_all(t);
        assert(s.last() == s[s.len() - 1]);
        assert(s =~= t.push(s.last()));
    } else {
        assert(kept(s) =~= s);
    }
}

/// Vacant slots carry the label 0, so that they add nothing to the votes.
pub proof fn lemma_kept_label_sum(s: Seq<(u32, u8)>)
    requires
        forall|i: int| 0 <= i < s.len() && (#[trigger] s[i]).0 == u32::MAX ==> s[i].1 == 0,
    ensures
        label_sum(kept(s)) == label_sum(s),
    decreases s.len(),
{
    reveal(Seq::filter);
    if s.len() == 0 {
        assert(kept(s) =~= Seq::empty());
    } else {
        let t = s.drop_last();
        lemma_kept_label_sum(t);
        assert(s.last() == s[s.len() - 1]);
        if s.last().0 != u32::MAX {
            assert(kept(s) == kept(t).push(s.last()));
            assert(kept(s).drop_last() =~= kept(t));
        } else {
            assert(kept(s) == kept(t));
        }
    }
}

/// The labels of the slots are what the slots' neighbours add up to.
pub proof fn lemma_vote_sum(d: Seq<u32>, l: Seq<u8>)
    requires
        d.len() == l.len(),
    ensures
        label_sum(slots(d, l)) == vote_sum(l),
    decreases l.len(),
{
    if l.len() > 0 {
        lemma_vote_sum(d.drop_last(), l.drop_last());
        assert(slots(d, l).drop_last() =~= slots(d.drop_last(), l.drop_last()));
    }
}

/// A slot holds no neighbour that is farther than the farthest.
proof fn lemma_kept_within(s: Seq<(u32, u8)>, x: (u32, u8))
    requires
        s.len() > 0,
        kept(s).to_multiset().contains(x),
    ensures
        x.0 <= s[farthest(s)].0,
{
    lemma_kept(s);
    lemma_farthest(s);
    assert(s.to_multiset().contains(x));
    assert(s.contains(x));
    let i = choose|i: int| 0 <= i < s.len() && s[i] == x;
    assert(s[i].0 <= s[farthest(s)].0);
}

/// Vacant slots hold the nearest of nothing.
pub proof fn lemma_vacant_holds_nearest()
    ensures
        holds_nearest(vacant(), Multiset::empty()),
{
    lemma_kept(vacant());
    assert forall|e: (u32, u8)| kept(vacant()).to_multiset().count(e) == 0 by {
        if e.0 != u32::MAX && vacant().to_multiset().count(e) > 0 {
            assert(vacant().contains(e));
        }
    }
    assert(kept(vacant()).to_multiset() =~= Multiset::empty());
}

/// Offering a neighbour keeps the slots the nearest of those seen.
pub proof fn lemma_offered_holds_nearest(
    s: Seq<(u32, u8)>,
    seen: Multiset<(u32, u8)>,
    e: (u32, u8),
)
    requires
        holds_nearest(s, seen),
        e.0 != u32::MAX,
    ensures
        holds_nearest(offered(s, e), seen.insert(e)),
{
    let f = farthest(s);
    let t = offered(s, e);
    let near = kept(s).to_multiset();
    let near2 = kept(t).to_multiset();
    let seen2 = seen.insert(e);
    lemma_farthest(s);
    lemma_kept(s);
    lemma_kept(t);
    assert forall|i: int| 0 <= i < t.len() && (#[trigger] t[i]).0 == u32::MAX implies t[i].1
        == 0 by {
        assert(i != f ==> t[i] == s[i]);
    }
    if e.0 < s[f].0 {
        assert(s.to_multiset().contains(s[f])) by {
            assert(s.contains(s[f]));
        }
        assert(t.to_multiset() =~= s.to_multiset().insert(e).remove(s[f]));
        if s[f].0 == u32::MAX {
            lemma_subset_same_len(near, seen);
            assert(near2 =~= near.insert(e));
            assert(near2 =~= seen2);
            assert(forall|y: (u32, u8)| !seen2.sub(near2).contains(y));
        } else {
            assert(near2 =~= near.insert(e).remove(s[f]));
            assert(near2.subset_of(seen2));
            assert forall|x: (u32, u8), y: (u32, u8)| #[trigger]
                near2.contains(x) && #[trigger] seen2.sub(near2).contains(y) implies x.0
                <= y.0 by {
                if x != e {
                    assert(near.contains(x));
                    lemma_kept_within(s, x);
                }
                if y != s[f] {
                    assert(seen.sub(near).contains(y));
                    assert(near.contains(s[f]));
                }
            }
        }
    } else {
        assert(seen2.sub(near) =~= seen.sub(near).insert(e));
        assert forall|x: (u32, u8), y: (u32, u8)| #[trigger]
            near2.contains(x) && #[trigger] seen2.sub(near2).contains(y) implies x.0
            <= y.0 by {
            lemma_kept_within(s, x);
            if y != e {
                assert(seen.sub(near).contains(y));
            }
        }
    }
}

/// Offering neighbours one after the other keeps the slots the nearest of those
/// seen; what stands for a vacant slot is passed over.
pub proof fn lemma_offered_all_holds_nearest(
    s: Seq<(u32, u8)>,
    seen: Multiset<(u32, u8)>,
    es: Seq<(u32, u8)>,
)
    requires
        holds_nearest(s, seen),
    ensures
        holds_nearest(offered_all(s, es), seen.add(kept(es).to_multiset())),
    decreases es.len(),
{
    reveal(Seq::filter);
    if es.len() == 0 {
        assert(kept(es) =~= Seq::empty());
        assert(seen.add(kept(es).to_multiset()) =~= seen);
    } else {
        let front = es.drop_last();
        let e = es.last();
        lemma_offered_all_holds_nearest(s, seen, front);
        if e.0 != u32::MAX {
            assert(kept(es) == kept(front).push(e));
            assert(seen.add(kept(es).to_multiset()) =~= seen.add(
                kept(front).to_multiset(),
            ).insert(e));
            lemma_offered_holds_nearest(
                offered_all(s, front),
                seen.add(kept(front).to_multiset()),
                e,
            );
        } else {
            assert(kept(es) == kept(front));
        }
    }
}

/// Merging two searches gives the nearest of all that the two have seen: what the
/// second had already dropped is no closer than what the merge keeps.
pub proof fn merge_holds_nearest(
    a: Seq<(u32, u8)>,
    seen_a: Multiset<(u32, u8)>,
    b: Seq<(u32, u8)>,
    seen_b: Multiset<(u32, u8)>,
)
    requires
        holds_nearest(a, seen_a),
        holds_nearest(b, seen_b),
    ensures
        holds_nearest(offered_all(a, b), seen_a.add(seen_b)),
{
    lemma_offered_all_holds_nearest(a, seen_a, b);
    let m = offered_all(a, b);
    let near = kept(m).to_multiset();
    let kb = kept(b).to_multiset();
    let some = seen_a.add(kb);
    let all = seen_a.add(seen_b);
    if kb.len() < K {
        lemma_subset_same_len(kb, seen_b);
    } else {
        let rest = seen_b.sub(kb);
        assert(near.subset_of(all));
        assert forall|x: (u32, u8), y: (u32, u8)| #[trigger]
            near.contains(x) && #[trigger] all.sub(near).contains(y) implies x.0 <= y.0 by {
            if some.sub(near).contains(y) {
            } else {
                assert(rest.contains(y));
                if x.0 > y.0 {
                    assert forall|e: (u32, u8)| #[trigger]
                        kb.count(e) <= near.count(e) by {
                        if kb.count(e) > 0 {
                            assert(kb.contains(e));
                            assert(e.0 <= y.0);
                            assert(!some.sub(near).contains(e));
                        }
                    }
                    lemma_subset_same_len(kb, near);
                    assert(kb.contains(x));
                }
            }
        }
    }
}

/// Which neighbours vote is settled by the distances alone, unless neighbours at
/// one distance but with different labels stand on both sides of the choice.
pub proof fn nearest_is_unique(
    near: Multiset<(u32, u8)>,
    other: Multiset<(u32, u8)>,
    all: Multiset<(u32, u8)>,
    k: nat,
)
    requires
        nearest(near, all, k),
        nearest(other, all, k),
        forall|x: (u32, u8), y: (u32, u8)| #[trigger]
            near.contains(x) && #[trigger] all.sub(near).contains(y) && x.0 == y.0 ==> x.1
                == y.1,
    ensures
        near == other,
{
    if near != other {
        if near.subset_of(other) {
            lemma_subset_same_len(near, other);
        }
        if other.subset_of(near) {
            lemma_subset_same_len(other, near);
        }
        let e = choose|e: (u32, u8)| near.count(e) > other.count(e);
        let f = choose|f: (u32, u8)| other.count(f) > near.count(f);
        assert(near.contains(e) && all.sub(near).contains(f));
        assert(other.contains(f) && all.sub(other).contains(e));
    }
}

/// The first of the slots at the greatest distance.
pub(crate) fn farthest_slot(d: &[u32; K]) -> (mx: usize)
    ensures
        mx < K,
        forall|l: Seq<u8>| l.len() == K ==> is_farthest(#[trigger] slots(d@, l), mx as int),
{
    let mut mx: usize = 0;
    if d[1] > d[mx] {
        mx = 1;
    }
    if d[2] > d[mx] {
        mx = 2;
    }
    if d[3] > d[mx] {
        mx = 3;
    }
    if d[4] > d[mx] {
        mx = 4;
    }
    mx
}

/// Merges the slots of two searches: the occupied slots of the second are offered
/// to the first, in their order.
pub fn merge_top_k(a_d: [u32; K], a_l: [u8; K], b_d: [u32; K], b_l: [u8; K]) -> (top: (
    [u32; K],
    [u8; K],
))
    ensures
        slots(top.0@, top.1@) == offered_all(slots(a_d@, a_l@), slots(b_d@, b_l@)),
{
    let mut d = a_d;
    let mut l = a_l;
    let ghost a = slots(a_d@, a_l@);
    let ghost b = slots(b_d@, b_l@);
    let mut i: usize = 0;
    assert(b.take(0) =~= Seq::empty());
    while i < K
        invariant
            i <= K,
            b == slots(b_d@, b_l@),
            slots(d@, l@) == offered_all(a, b.take(i as int)),
        decreases K - i,
    {
        let ghost s = slots(d@, l@);
        proof {
            assert(b.take(i + 1).drop_last() =~= b.take(i as int));
            assert(b.take(i + 1).last() == b[i as int]);
        }
        if b_d[i] != u32::MAX {
            let mx: usize = farthest_slot(&d);
            proof {
                lemma_farthest_unique(s, mx as int);
            }
            if b_d[i] < d[mx] {
                d[mx] = b_d[i];
                l[mx] = b_l[i];
                assert(slots(d@, l@) =~= s.update(mx as int, b[i as int]));
            }
        }
        i += 1;
    }
    assert(b.take(K as int) =~= b);
    (d, l)
}

/// The number of frauds among the slots: the sum of their labels.
pub fn fraud_count(top_l: &[u8; K]) -> (fraud: u32)
    ensures
        fraud == vote_sum(top_l@),
        fraud == top_l@[0] + top_l@[1] + top_l@[2] + top_l@[3] + top_l@[4],
{
    let mut fraud: u32 = 0;
    let mut i: usize = 0;
    while i < K
        invariant
            i <= K,
            fraud == vote_sum(top_l@.take(i as int)),
            fraud <= 255 * i,
        decreases K - i,
    {
        proof {
            assert(top_l@.take(i + 1).drop_last() =~= top_l@.take(i as int));
        }
        fraud += top_l[i] as u32;
        i += 1;
    }
    assert(top_l@.take(K as int) =~= top_l@);
    proof {
        reveal_with_fuel(vote_sum, 6);
    }
    fraud
}

/// A neighbour that is closer than the farthest slot takes the first of the farthest
/// ones, and one that is not changes nothing.
pub proof fn a_closer_neighbour_takes_the_farthest_slot(
    s: Seq<(u32, u8)>,
    m: int,
    e: (u32, u8),
)
    requires
        0 <= m < s.len(),
        forall|i: int| 0 <= i < s.len() ==> (#[trigger] s[i]).0 <= s[m].0,
        forall|i: int| 0 <= i < m ==> (#[trigger] s[i]).0 < s[m].0,
    ensures
        e.0 < s[m].0 ==> offered(s, e) == s.update(m, e),
        e.0 >= s[m].0 ==> offered(s, e) == s,
        offered_all(s, Seq::empty()) == s,
{
    lemma_farthest_unique(s, m);
}

/// Neighbours are offered one after the other.
pub proof fn neighbours_are_offered_in_order(
    s: Seq<(u32, u8)>,
    es: Seq<(u32, u8)>,
    e: (u32, u8),
)
    ensures
        offered_all(s, es.push(e)) == offered(offered_all(s, es), e),
{
    assert(es.push(e).drop_last() =~= es);
}

/// Whatever is offered, the slots end up with as many of all there are as there are
/// slots, and none that was left out is closer than one that was taken.
pub proof fn offers_keep_the_nearest(s: Seq<(u32, u8)>, es: Seq<(u32, u8)>)
    requires
        s.len() > 0,
    ensures
        ({
            let kept = offered_all(s, es);
            let all = s.to_multiset().add(es.to_multiset());
            &&& kept.len() == s.len()
            &&& kept.to_multiset().subset_of(all)
            &&& forall|x: (u32, u8), y: (u32, u8)| #[trigger]
                kept.to_multiset().contains(x) && #[trigger] all.sub(
                    kept.to_multiset(),
                ).contains(y) ==> x.0 <= y.0
        }),
    decreases es.len(),
{
    if es.len() == 0 {
        assert(s.to_multiset().add(es.to_multiset()) =~= s.to_multiset());
        assert(forall|y: (u32, u8)| !s.to_multiset().sub(s.to_multiset()).contains(y));
    } else {
        let front = es.drop_last();
        let e = es.last();
        offers_keep_the_nearest(s, front);
        let r = offered_all(s, front);
        let t = offered(r, e);
        let f = farthest(r);
        let all = s.to_multiset().add(front.to_multiset());
        let all2 = s.to_multiset().add(es.to_multiset());
        let near = r.to_multiset();
        let near2 = t.to_multiset();
        lemma_farthest(r);
        assert(es =~= front.push(e));
        assert(all2 =~= all.insert(e));
        assert(near.contains(r[f])) by {
            assert(r.contains(r[f]));
        }
        assert forall|x: (u32, u8)| near.contains(x) implies x.0 <= r[f].0 by {
            assert(r.contains(x));
            let i = choose|i: int| 0 <= i < r.len() && r[i] == x;
            assert(r[i].0 <= r[f].0);
        }
        if e.0 < r[f].0 {
            assert(near2 =~= near.insert(e).remove(r[f]));
            assert forall|x: (u32, u8), y: (u32, u8)| #[trigger]
                near2.contains(x) && #[trigger] all2.sub(near2).contains(y) implies x.0
                <= y.0 by {
                if x != e {
                    assert(near.contains(x));
                }
                if y != r[f] {
                    assert(all.sub(near).contains(y));
                }
            }
        } else {
            assert forall|x: (u32, u8), y: (u32, u8)| #[trigger]
                near2.contains(x) && #[trigger] all2.sub(near2).contains(y) implies x.0
                <= y.0 by {
                if y != e {
                    assert(all.sub(near).contains(y));
                }
            }
        }
    }
}

/// Merging two searches keeps five of their ten slots, each with its distance and its
/// label, and none that was left out is closer than one that was kept.
pub proof fn merging_keeps_the_nearest_slots(
    a_d: [u32; K],
    a_l: [u8; K],
    b_d: [u32; K],
    b_l: [u8; K],
    top: ([u32; K], [u8; K]),
)
    requires
        call_ensures(merge_top_k, (a_d, a_l, b_d, b_l), top),
    ensures
        call_requires(merge_top_k, (a_d, a_l, b_d, b_l)),
        ({
            let kept = Seq::new(5, |i: int| (top.0@[i], top.1@[i])).to_multiset();
            let all = Seq::new(5, |i: int| (a_d@[i], a_l@[i])).to_multiset().add(
                Seq::new(5, |i: int| (b_d@[i], b_l@[i])).to_multiset(),
            );
            &&& kept.subset_of(all)
            &&& forall|x: (u32, u8), y: (u32, u8)| #[trigger]
                kept.contains(x) && #[trigger] all.sub(kept).contains(y) ==> x.0 <= y.0
        }),
{
    assert(slots(a_d@, a_l@) =~= Seq::new(5, |i: int| (a_d@[i], a_l@[i])));
    assert(slots(b_d@, b_l@) =~= Seq::new(5, |i: int| (b_d@[i], b_l@[i])));
    assert(slots(top.0@, top.1@) =~= Seq::new(5, |i: int| (top.0@[i], top.1@[i])));
    offers_keep_the_nearest(slots(a_d@, a_l@), slots(b_d@, b_l@));
}

/// Offers that are no closer than any slot change nothing.
proof fn lemma_no_closer_offers(s: Seq<(u32, u8)>, es: Seq<(u32, u8)>)
    requires
        s.len() > 0,
        forall|i: int, j: int|
            0 <= i < s.len() && 0 <= j < es.len() ==> (#[trigger] s[i]).0 <= (
            #[trigger] es[j]).0,
    ensures
        offered_all(s, es) == s,
    decreases es.len(),
{
    if es.len() > 0 {
        let front = es.drop_last();
        assert(forall|j: int| 0 <= j < front.len() ==> front[j] == es[j]);
        lemma_no_closer_offers(s, front);
        lemma_farthest(s);
        assert(es.last() == es[es.len() - 1]);
    }
}

/// A slot is displaced by a closer one only: where no slot of the second search is
/// closer than one of the first, the first is kept as it is.
pub proof fn merging_displaces_only_for_closer_slots(
    a_d: [u32; K],
    a_l: [u8; K],
    b_d: [u32; K],
    b_l: [u8; K],
    top: ([u32; K], [u8; K]),
)
    requires
        forall|i: int, j: int|
            0 <= i < 5 && 0 <= j < 5 ==> #[trigger] a_d@[i] <= #[trigger] b_d@[j],
        call_ensures(merge_top_k, (a_d, a_l, b_d, b_l), top),
    ensures
        top.0@ == a_d@,
        top.1@ == a_l@,
{
    let a = slots(a_d@, a_l@);
    let b = slots(b_d@, b_l@);
    assert forall|i: int, j: int| 0 <= i < a.len() && 0 <= j < b.len() implies (
    #[trigger] a[i]).0 <= (#[trigger] b[j]).0 by {
        assert(a_d@[i] <= b_d@[j]);
    }
    lemma_no_closer_offers(a, b);
    let t = slots(top.0@, top.1@);
    assert forall|i: int| 0 <= i < 5 implies top.0@[i] == a_d@[i] && top.1@[i] == a_l@[i] by {
        assert(t[i] == a[i]);
    }
    assert(top.0@ =~= a_d@);
    assert(top.1@ =~= a_l@);
}

/// The frauds are the sum of the five labels.
pub proof fn labels_are_added(labels: &[u8; K], fraud: u32)
    requires
        call_ensures(fraud_count, (labels,), fraud),
    ensures
        fraud == labels@[0] + labels@[1] + labels@[2] + labels@[3] + labels@[4],
{
}

/// The sum of labels is the sum over the neighbours, one after the other.
pub proof fn label_sums_add_up(s: Seq<(u32, u8)>, e: (u32, u8))
    ensures
        label_sum(Seq::empty()) == 0,
        label_sum(s.push(e)) == label_sum(s) + e.1,
{
    assert(s.push(e).drop_last() =~= s);
}

/// Slots are what they hold and vacant slots.
pub(crate) proof fn lemma_kept_and_vacant(s: Seq<(u32, u8)>)
    requires
        forall|i: int| 0 <= i < s.len() && (#[trigger] s[i]).0 == u32::MAX ==> s[i].1 == 0,
    ensures
        kept(s).len() <= s.len(),
        s.to_multiset() == kept(s).to_multiset().add(
            Seq::new((s.len() - kept(s).len()) as nat, |i: int| (u32::MAX, 0u8)).to_multiset(),
        ),
    decreases s.len(),
{
    reveal(Seq::filter);
    lemma_kept(s);
    let n = (s.len() - kept(s).len()) as nat;
    let free = Seq::new(n, |i: int| (u32::MAX, 0u8));
    if s.len() == 0 {
        assert(kept(s) =~= Seq::empty());
        assert(free =~= Seq::empty());
        assert(s.to_multiset() =~= kept(s).to_multiset().add(free.to_multiset()));
    } else {
        let t = s.drop_last();
        assert(forall|i: int| 0 <= i < t.len() ==> t[i] == s[i]);
        lemma_kept_and_vacant(t);
        let m = (t.len() - kept(t).len()) as nat;
        let less = Seq::new(m, |i: int| (u32::MAX, 0u8));
        assert(s.last() == s[s.len() - 1]);
        assert(s =~= t.push(s.last()));
        if s.last().0 != u32::MAX {
            assert(kept(s) == kept(t).push(s.last()));
            assert(free =~= less);
        } else {
            assert(kept(s) == kept(t));
            assert(free =~= less.push(s.last()));
        }
        assert(s.to_multiset() =~= kept(s).to_multiset().add(free.to_multiset()));
    }
}

} // verus!
