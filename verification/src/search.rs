//! The search for the nearest reference vectors.

use crate::dataset::{
    chunk_records, dataset_byte_by_byte, image_of, image_records, image_round_trip, padded, Chunk,
    Dataset, Record, RefEntry, DIMS, PADDED_DIMS, PADDING,
};
use crate::neighbours::{
    farthest, farthest_slot, fraud_count, holds_nearest, is_farthest, kept, label_sum,
    lemma_farthest_unique, lemma_kept_all, lemma_kept_and_vacant, lemma_kept_label_sum,
    lemma_offered_all_holds_nearest, lemma_vacant_holds_nearest, lemma_vote_sum,
    merge_holds_nearest, merge_top_k, nearest, nearest_is_unique, offered, offered_all, slots,
    vacant, K,
};
use crate::parallel::{map_reduce, Reduction};
use vstd::multiset::Multiset;
use vstd::prelude::*;

verus! {

broadcast use {vstd::multiset::group_multiset_axioms, vstd::seq_lib::group_to_multiset_ensures};

/// The square of the difference of two vectors in dimension `i`.
pub open spec fn sq_diff(a: Seq<u8>, b: Seq<u8>, i: int) -> int {
    (a[i] - b[i]) * (a[i] - b[i])
}

/// The squared distance of two vectors in their first `n` dimensions.
pub open spec fn sq_dist(a: Seq<u8>, b: Seq<u8>, n: int) -> int
    decreases n,
{
    if n <= 0 {
        0
    } else {
        sq_dist(a, b, n - 1) + sq_diff(a, b, n - 1)
    }
}

/// The squared Euclidean distance of two padded vectors.
pub open spec fn distance(a: Seq<u8>, b: Seq<u8>) -> int {
    sq_dist(a, b, PADDED_DIMS as int)
}

/// The records as neighbours of a query: each with its distance and its label.
pub open spec fn neighbours(records: Seq<Record>, query: Seq<u8>) -> Seq<(u32, u8)> {
    Seq::new(
        records.len(),
        |i: int| (distance(query, records[i].vector) as u32, records[i].label),
    )
}

proof fn lemma_sq_diff(a: Seq<u8>, b: Seq<u8>, i: int)
    ensures
        0 <= sq_diff(a, b, i) <= 65025,
{
    let d = a[i] - b[i];
    assert(0 <= d * d <= 65025) by (nonlinear_arith)
        requires
            -255 <= d <= 255,
    ;
}

/// A distance is far below the mark of a vacant slot.
proof fn lemma_sq_dist_bound(a: Seq<u8>, b: Seq<u8>, n: int)
    requires
        n >= 0,
    ensures
        0 <= sq_dist(a, b, n) <= n * 65025,
    decreases n,
{
    if n > 0 {
        lemma_sq_dist_bound(a, b, n - 1);
        lemma_sq_diff(a, b, n - 1);
    }
}

/// The squared distance of two padded vectors, one dimension after the other.
pub fn dist_sq_u8_scalar(a: &[u8], b: &[u8]) -> (s: u32)
    requires
        a@.len() >= PADDED_DIMS,
        b@.len() >= PADDED_DIMS,
    ensures
        s == distance(a@, b@),
{
    let mut s: u32 = 0;
    let mut i: usize = 0;
    while i < PADDED_DIMS
        invariant
            i <= PADDED_DIMS,
            a@.len() >= PADDED_DIMS,
            b@.len() >= PADDED_DIMS,
            s == sq_dist(a@, b@, i as int),
        decreases PADDED_DIMS - i,
    {
        proof {
            lemma_sq_dist_bound(a@, b@, i as int);
            lemma_sq_diff(a@, b@, i as int);
        }
        let d: i32 = (a[i] as i32) - (b[i] as i32);
        s += (d * d) as u32;
        i += 1;
    }
    s
}

/// Widens a query to lanes of 16 bits, once for all the vectors it is held against.
pub fn preload(query: &[u8; PADDED_DIMS]) -> (lanes: [i16; PADDED_DIMS])
    ensures
        forall|i: int| 0 <= i < PADDED_DIMS ==> lanes@[i] == query@[i],
{
    let mut lanes: [i16; PADDED_DIMS] = [0i16; PADDED_DIMS];
    let mut i: usize = 0;
    while i < PADDED_DIMS
        invariant
            i <= PADDED_DIMS,
            forall|j: int| 0 <= j < i ==> lanes@[j] == query@[j],
        decreases PADDED_DIMS - i,
    {
        lanes[i] = query[i] as i16;
        i += 1;
    }
    lanes
}

/// The square of the difference of a widened query and a vector in dimension `i`.
pub open spec fn lane_sq_diff(lanes: Seq<i16>, b: Seq<u8>, i: int) -> int {
    (lanes[i] - b[i]) * (lanes[i] - b[i])
}

/// The squared distance of a widened query and a vector in `n` dimensions.
pub open spec fn lane_sq_dist(lanes: Seq<i16>, b: Seq<u8>, n: int) -> int
    decreases n,
{
    if n <= 0 {
        0
    } else {
        lane_sq_dist(lanes, b, n - 1) + lane_sq_diff(lanes, b, n - 1)
    }
}

/// Widening a query leaves its distances as they are.
proof fn lemma_lane_sq_dist(a: Seq<u8>, lanes: Seq<i16>, b: Seq<u8>, n: int)
    requires
        forall|i: int| 0 <= i < n ==> lanes[i] == a[i],
    ensures
        lane_sq_dist(lanes, b, n) == sq_dist(a, b, n),
    decreases n,
{
    if n > 0 {
        lemma_lane_sq_dist(a, lanes, b, n - 1);
    }
}

/// The sum of the squared differences in the lanes `2 * j` and `2 * j + 1`.
fn pair_sq(lanes: &[i16; PADDED_DIMS], b: &[u8], j: usize) -> (s: u32)
    requires
        2 * j + 1 < PADDED_DIMS,
        b@.len() >= PADDED_DIMS,
        0 <= lanes@[2 * j as int] <= 255,
        0 <= lanes@[2 * j + 1] <= 255,
    ensures
        s == lane_sq_diff(lanes@, b@, 2 * j as int) + lane_sq_diff(lanes@, b@, 2 * j + 1),
        s <= 130050,
{
    let d0: i32 = lanes[2 * j] as i32 - b[2 * j] as i32;
    let d1: i32 = lanes[2 * j + 1] as i32 - b[2 * j + 1] as i32;
    assert(0 <= d0 * d0 <= 65025) by (nonlinear_arith)
        requires
            -255 <= d0 <= 255,
    ;
    assert(0 <= d1 * d1 <= 65025) by (nonlinear_arith)
        requires
            -255 <= d1 <= 255,
    ;
    (d0 * d0 + d1 * d1) as u32
}

/// The squared distance of a widened query and a padded vector: eight sums of
/// pairs of lanes, added up by halves.
pub fn dist_sq_preloaded(lanes: &[i16; PADDED_DIMS], b: &[u8]) -> (s: u32)
    requires
        b@.len() >= PADDED_DIMS,
        forall|i: int| 0 <= i < PADDED_DIMS ==> 0 <= #[trigger] lanes@[i] <= 255,
    ensures
        s == lane_sq_dist(lanes@, b@, PADDED_DIMS as int),
{
    let s0: u32 = pair_sq(lanes, b, 0) + pair_sq(lanes, b, 4);
    let s1: u32 = pair_sq(lanes, b, 1) + pair_sq(lanes, b, 5);
    let s2: u32 = pair_sq(lanes, b, 2) + pair_sq(lanes, b, 6);
    let s3: u32 = pair_sq(lanes, b, 3) + pair_sq(lanes, b, 7);
    proof {
        reveal_with_fuel(lane_sq_dist, 17);
    }
    (s0 + s2) + (s1 + s3)
}

/// The slots of a running search, with the one that goes next.
struct TopK {
    d: [u32; K],
    l: [u8; K],
    mx: usize,
    thr: u32,
}

impl TopK {
    spec fn slots(&self) -> Seq<(u32, u8)> {
        slots(self.d@, self.l@)
    }

    /// `mx` is the farthest slot and `thr` its distance.
    spec fn wf(&self) -> bool {
        &&& is_farthest(self.slots(), self.mx as int)
        &&& self.thr == self.d@[self.mx as int]
    }

    fn new() -> (top: TopK)
        ensures
            top.wf(),
            top.slots() == vacant(),
    {
        let top = TopK { d: [u32::MAX; K], l: [0u8; K], mx: 0, thr: u32::MAX };
        assert(top.slots() =~= vacant());
        top
    }

    /// Offers a neighbour.
    fn offer(&mut self, d: u32, l: u8)
        requires
            old(self).wf(),
        ensures
            final(self).wf(),
            final(self).slots() == offered(old(self).slots(), (d, l)),
    {
        proof {
            lemma_farthest_unique(self.slots(), self.mx as int);
        }
        if d < self.thr {
            self.d[self.mx] = d;
            self.l[self.mx] = l;
            assert(self.slots() =~= offered(old(self).slots(), (d, l)));
            self.mx = farthest_slot(&self.d);
            self.thr = self.d[self.mx];
        }
    }
}

/// Offering the neighbours up to `i + 1` is offering those up to `i` and then one.
proof fn lemma_offered_all_step(s: Seq<(u32, u8)>, es: Seq<(u32, u8)>, i: int)
    requires
        0 <= i < es.len(),
    ensures
        offered_all(s, es.take(i + 1)) == offered(offered_all(s, es.take(i)), es[i]),
{
    assert(es.take(i + 1).drop_last() =~= es.take(i));
}

/// Once all slots are at distance 0 no neighbour changes them any more.
proof fn lemma_exact_matches_stay(s: Seq<(u32, u8)>, es: Seq<(u32, u8)>, i: int, n: int)
    requires
        0 <= i <= n <= es.len(),
        ({
            let t = offered_all(s, es.take(i));
            t[farthest(t)].0 == 0
        }),
    ensures
        offered_all(s, es.take(n)) == offered_all(s, es.take(i)),
    decreases n,
{
    if i < n {
        lemma_exact_matches_stay(s, es, i, n - 1);
        lemma_offered_all_step(s, es, n - 1);
    }
}

/// The padded vector of record `i` of a chunk.
fn vector_at<'a>(chunk: &Chunk<'a>, i: usize) -> (v: &'a [u8])
    requires
        chunk.wf(),
        i < chunk.count,
    ensures
        v@ == chunk@[i as int].vector,
        v@.len() == PADDED_DIMS,
{
    assert(chunk.vectors@.len() == chunk.vectors.len());
    &chunk.vectors[i * PADDED_DIMS..i * PADDED_DIMS + PADDED_DIMS]
}

/// Searches a chunk for the nearest of its records. Every record is offered in its
/// order, which settles ties, four at a time as long as there are four. The search ends
/// early when all slots are exact matches.
pub fn scan_chunk(chunk: &Chunk, query: &[u8; PADDED_DIMS]) -> (top: ([u32; K], [u8; K]))
    requires
        chunk.wf(),
    ensures
        holds_nearest(slots(top.0@, top.1@), neighbours(chunk@, query@).to_multiset()),
        slots(top.0@, top.1@) == offered_all(vacant(), neighbours(chunk@, query@)),
{
    let count: usize = chunk.count;
    let count4: usize = count - count % 4;
    let lanes: [i16; PADDED_DIMS] = preload(query);
    let mut top: TopK = TopK::new();
    let mut i: usize = 0;
    let ghost es = neighbours(chunk@, query@);
    assert(es.take(0) =~= Seq::empty());
    while i < count4 && top.thr != 0
        invariant
            chunk.wf(),
            count == chunk.count,
            count4 == count - count % 4,
            i % 4 == 0,
            i <= count4,
            forall|j: int| 0 <= j < PADDED_DIMS ==> lanes@[j] == query@[j],
            es == neighbours(chunk@, query@),
            top.wf(),
            top.slots() == offered_all(vacant(), es.take(i as int)),
        decreases count4 - i,
    {
        let d0: u32 = dist_sq_preloaded(&lanes, vector_at(chunk, i));
        let d1: u32 = dist_sq_preloaded(&lanes, vector_at(chunk, i + 1));
        let d2: u32 = dist_sq_preloaded(&lanes, vector_at(chunk, i + 2));
        let d3: u32 = dist_sq_preloaded(&lanes, vector_at(chunk, i + 3));
        proof {
            assert forall|j: int| i <= j < i + 4 implies #[trigger] es[j] == (
                lane_sq_dist(lanes@, chunk@[j].vector, PADDED_DIMS as int) as u32,
                chunk.labels@[j],
            ) by {
                lemma_lane_sq_dist(query@, lanes@, chunk@[j].vector, PADDED_DIMS as int);
            }
            lemma_offered_all_step(vacant(), es, i as int);
            lemma_offered_all_step(vacant(), es, i + 1);
            lemma_offered_all_step(vacant(), es, i + 2);
            lemma_offered_all_step(vacant(), es, i + 3);
        }
        top.offer(d0, chunk.labels[i]);
        top.offer(d1, chunk.labels[i + 1]);
        top.offer(d2, chunk.labels[i + 2]);
        top.offer(d3, chunk.labels[i + 3]);
        i += 4;
    }
    while i < count && top.thr != 0
        invariant
            chunk.wf(),
            count == chunk.count,
            i <= count,
            es == neighbours(chunk@, query@),
            top.wf(),
            top.slots() == offered_all(vacant(), es.take(i as int)),
        decreases count - i,
    {
        let d: u32 = dist_sq_u8_scalar(query, vector_at(chunk, i));
        proof {
            lemma_offered_all_step(vacant(), es, i as int);
        }
        top.offer(d, chunk.labels[i]);
        i += 1;
    }
    proof {
        if i < count {
            lemma_farthest_unique(top.slots(), top.mx as int);
            lemma_exact_matches_stay(vacant(), es, i as int, count as int);
        }
        assert(es.take(count as int) =~= es);
        lemma_scan_holds_nearest(chunk@, query@);
    }
    (top.d, top.l)
}

/// Whether `fraud` is a vote of the `K` nearest records: the sum of the labels of
/// some choice of them.
pub open spec fn is_vote(fraud: int, records: Seq<Record>, query: Seq<u8>) -> bool {
    exists|near: Seq<(u32, u8)>| #[trigger]
        nearest(near.to_multiset(), neighbours(records, query).to_multiset(), K as nat)
            && fraud == label_sum(near)
}

/// The neighbours of two runs of records are those of the first and of the second.
proof fn lemma_neighbours_add(a: Seq<Record>, b: Seq<Record>, query: Seq<u8>)
    ensures
        neighbours(a + b, query).to_multiset() == neighbours(a, query).to_multiset().add(
            neighbours(b, query).to_multiset(),
        ),
{
    assert(neighbours(a + b, query) =~= neighbours(a, query) + neighbours(b, query));
    vstd::seq_lib::lemma_multiset_commutative(neighbours(a, query), neighbours(b, query));
}

/// A search of records that starts from vacant slots holds their nearest.
proof fn lemma_scan_holds_nearest(records: Seq<Record>, query: Seq<u8>)
    ensures
        holds_nearest(
            offered_all(vacant(), neighbours(records, query)),
            neighbours(records, query).to_multiset(),
        ),
{
    let es = neighbours(records, query);
    assert forall|i: int| 0 <= i < es.len() implies (#[trigger] es[i]).0 != u32::MAX by {
        lemma_sq_dist_bound(query, records[i].vector, PADDED_DIMS as int);
    }
    lemma_vacant_holds_nearest();
    lemma_kept_all(es);
    lemma_offered_all_holds_nearest(vacant(), Multiset::empty(), es);
    assert(Multiset::empty().add(es.to_multiset()) =~= es.to_multiset());
}

/// The records of chunks, from `lo` to `mid` and from `mid` to `hi`.
proof fn lemma_chunk_records_split(chunks: Seq<Chunk>, lo: int, mid: int, hi: int)
    requires
        0 <= lo <= mid <= hi <= chunks.len(),
    ensures
        chunk_records(chunks.subrange(lo, hi)) == chunk_records(chunks.subrange(lo, mid))
            + chunk_records(chunks.subrange(mid, hi)),
    decreases hi - mid,
{
    if mid == hi {
        assert(chunks.subrange(mid, hi) =~= Seq::empty());
        assert(chunk_records(chunks.subrange(lo, hi)) =~= chunk_records(chunks.subrange(lo, mid))
            + chunk_records(chunks.subrange(mid, hi)));
    } else {
        lemma_chunk_records_split(chunks, lo, mid, hi - 1);
        assert(chunks.subrange(lo, hi).drop_last() =~= chunks.subrange(lo, hi - 1));
        assert(chunks.subrange(mid, hi).drop_last() =~= chunks.subrange(mid, hi - 1));
        assert(chunk_records(chunks.subrange(lo, hi)) =~= chunk_records(chunks.subrange(lo, mid))
            + chunk_records(chunks.subrange(mid, hi)));
    }
}

/// However the scans of chunks are grouped when they are merged, what comes out
/// holds the nearest of all their records.
proof fn lemma_reduction_holds_nearest<
    'a,
    M: Fn(&Chunk<'a>) -> ([u32; K], [u8; K]),
    I: Fn() -> ([u32; K], [u8; K]),
    O: Fn(([u32; K], [u8; K]), ([u32; K], [u8; K])) -> ([u32; K], [u8; K]),
>(
    how: Reduction<([u32; K], [u8; K])>,
    chunks: Seq<Chunk<'a>>,
    lo: int,
    hi: int,
    map: M,
    identity: I,
    op: O,
    query: Seq<u8>,
)
    requires
        0 <= lo <= hi <= chunks.len(),
        how.reduces(chunks, lo, hi, map, identity, op),
        forall|chunk: Chunk<'a>, r: ([u32; K], [u8; K])| #[trigger]
            call_ensures(map, (&chunk,), r) ==> slots(r.0@, r.1@) == offered_all(
                vacant(),
                neighbours(chunk@, query),
            ),
        forall|r: ([u32; K], [u8; K])| #[trigger]
            call_ensures(identity, (), r) ==> slots(r.0@, r.1@) == vacant(),
        forall|a: ([u32; K], [u8; K]), b: ([u32; K], [u8; K]), r: ([u32; K], [u8; K])| #[trigger]
            call_ensures(op, (a, b), r) ==> slots(r.0@, r.1@) == offered_all(
                slots(a.0@, a.1@),
                slots(b.0@, b.1@),
            ),
    ensures
        holds_nearest(
            slots(how.value().0@, how.value().1@),
            neighbours(chunk_records(chunks.subrange(lo, hi)), query).to_multiset(),
        ),
    decreases how,
{
    let part = chunks.subrange(lo, hi);
    match how {
        Reduction::Identity { value } => {
            assert(part =~= Seq::empty());
            assert(neighbours(chunk_records(part), query) =~= Seq::empty());
            assert(neighbours(chunk_records(part), query).to_multiset() =~= Multiset::empty());
            lemma_vacant_holds_nearest();
        },
        Reduction::Item { value } => {
            assert(part.drop_last() =~= Seq::empty());
            assert(chunk_records(part) =~= chunks[lo]@) by {
                assert(chunk_records(part.drop_last()) =~= Seq::empty());
                assert(part.last() == chunks[lo]);
            }
            lemma_scan_holds_nearest(chunks[lo]@, query);
        },
        Reduction::Join { left, mid, right, value } => {
            lemma_reduction_holds_nearest(*left, chunks, lo, mid, map, identity, op, query);
            lemma_reduction_holds_nearest(*right, chunks, mid, hi, map, identity, op, query);
            let a = chunk_records(chunks.subrange(lo, mid));
            let b = chunk_records(chunks.subrange(mid, hi));
            lemma_chunk_records_split(chunks, lo, mid, hi);
            lemma_neighbours_add(a, b, query);
            merge_holds_nearest(
                slots(left.value().0@, left.value().1@),
                neighbours(a, query).to_multiset(),
                slots(right.value().0@, right.value().1@),
                neighbours(b, query).to_multiset(),
            );
        },
    }
}

/// Searches the chunks side by side and returns the number of frauds among the `K`
/// records nearest to the query.
///
/// Where records at one distance from the query compete for the last places, any
/// of them may be taken: the threads that merge the chunks settle it.
pub fn knn_search(ds: &Dataset, query: &[u8; PADDED_DIMS]) -> (fraud: u32)
    requires
        ds.wf(),
    ensures
        is_vote(fraud as int, ds@, query@),
{
    let map = |chunk: &Chunk| -> (top: ([u32; K], [u8; K]))
        requires
            chunk.wf(),
        ensures
            slots(top.0@, top.1@) == offered_all(vacant(), neighbours(chunk@, query@)),
        { scan_chunk(chunk, query) };
    let identity = || -> (top: ([u32; K], [u8; K]))
        ensures
            slots(top.0@, top.1@) == vacant(),
        {
            let top = ([u32::MAX; K], [0u8; K]);
            assert(slots(top.0@, top.1@) =~= vacant());
            top
        };
    let op = |a: ([u32; K], [u8; K]), b: ([u32; K], [u8; K])| -> (top: ([u32; K], [u8; K]))
        ensures
            slots(top.0@, top.1@) == offered_all(slots(a.0@, a.1@), slots(b.0@, b.1@)),
        { merge_top_k(a.0, a.1, b.0, b.1) };
    let top: ([u32; K], [u8; K]) = map_reduce(ds.chunks.as_slice(), map, identity, op);
    let fraud: u32 = fraud_count(&top.1);
    proof {
        let n = ds.chunks@.len() as int;
        let how = choose|how: Reduction<([u32; K], [u8; K])>| #[trigger]
            how.reduces(ds.chunks@, 0, n, map, identity, op) && how.value() == top;
        lemma_reduction_holds_nearest(how, ds.chunks@, 0, n, map, identity, op, query@);
        assert(ds.chunks@.subrange(0, n) =~= ds.chunks@);
        let s = slots(top.0@, top.1@);
        lemma_kept_label_sum(s);
        lemma_vote_sum(top.0@, top.1@);
        assert(nearest(
            kept(s).to_multiset(),
            neighbours(ds@, query@).to_multiset(),
            K as nat,
        ));
    }
    fraud
}

/// Taking a neighbour out of a sequence takes its label out of the sum.
proof fn lemma_label_sum_remove(s: Seq<(u32, u8)>, i: int)
    requires
        0 <= i < s.len(),
    ensures
        label_sum(s) == label_sum(s.remove(i)) + s[i].1,
    decreases s.len(),
{
    if i == s.len() - 1 {
        assert(s.remove(i) =~= s.drop_last());
    } else {
        lemma_label_sum_remove(s.drop_last(), i);
        assert(s.remove(i).drop_last() =~= s.drop_last().remove(i));
        assert(s.remove(i).last() == s.last());
    }
}

/// The sum of the labels does not depend on the order.
proof fn lemma_label_sum_multiset(s: Seq<(u32, u8)>, t: Seq<(u32, u8)>)
    requires
        s.to_multiset() == t.to_multiset(),
    ensures
        label_sum(s) == label_sum(t),
    decreases s.len(),
{
    assert(s.len() == s.to_multiset().len() && t.len() == t.to_multiset().len());
    if s.len() > 0 {
        let e = s.last();
        assert(s.contains(e)) by {
            assert(s[s.len() - 1] == e);
        }
        assert(t.to_multiset().contains(e));
        let i = choose|i: int| 0 <= i < t.len() && t[i] == e;
        lemma_label_sum_remove(t, i);
        assert(s.drop_last() =~= s.remove(s.len() - 1));
        assert(s.drop_last().to_multiset() =~= s.to_multiset().remove(e));
        assert(t.remove(i).to_multiset() =~= t.to_multiset().remove(e));
        lemma_label_sum_multiset(s.drop_last(), t.remove(i));
    }
}

/// The vote is settled by the records and the query alone, whatever the order of
/// the search, unless records at one distance but with different labels stand on
/// both sides of the choice.
pub proof fn vote_is_unique(
    fraud: int,
    near: Seq<(u32, u8)>,
    records: Seq<Record>,
    query: Seq<u8>,
)
    requires
        is_vote(fraud, records, query),
        nearest(near.to_multiset(), neighbours(records, query).to_multiset(), K as nat),
        forall|x: (u32, u8), y: (u32, u8)| #[trigger]
            near.to_multiset().contains(x) && #[trigger] neighbours(
                records,
                query,
            ).to_multiset().sub(near.to_multiset()).contains(y) && x.0 == y.0 ==> x.1 == y.1,
    ensures
        fraud == label_sum(near),
{
    let all = neighbours(records, query).to_multiset();
    let other = choose|other: Seq<(u32, u8)>| #[trigger]
        nearest(other.to_multiset(), all, K as nat) && fraud == label_sum(other);
    nearest_is_unique(near.to_multiset(), other.to_multiset(), all, K as nat);
    lemma_label_sum_multiset(near, other);
}

proof fn lemma_label_sum_bound(s: Seq<(u32, u8)>)
    requires
        forall|i: int| 0 <= i < s.len() ==> (#[trigger] s[i]).1 <= 1,
    ensures
        0 <= label_sum(s) <= s.len(),
    decreases s.len(),
{
    if s.len() > 0 {
        assert(forall|i: int| 0 <= i < s.len() - 1 ==> s.drop_last()[i] == s[i]);
        assert(s.last() == s[s.len() - 1]);
        lemma_label_sum_bound(s.drop_last());
    }
}

/// Where every label is 0 or 1 the vote counts frauds: it is at most `K`, and at
/// most the number of records.
pub proof fn vote_counts_frauds(fraud: int, records: Seq<Record>, query: Seq<u8>)
    requires
        is_vote(fraud, records, query),
        forall|i: int| 0 <= i < records.len() ==> (#[trigger] records[i]).label <= 1,
    ensures
        0 <= fraud <= K,
        fraud <= records.len(),
{
    let es = neighbours(records, query);
    let all = es.to_multiset();
    let near = choose|near: Seq<(u32, u8)>| #[trigger]
        nearest(near.to_multiset(), all, K as nat) && fraud == label_sum(near);
    assert forall|i: int| 0 <= i < near.len() implies (#[trigger] near[i]).1 <= 1 by {
        assert(near.contains(near[i]));
        assert(near.to_multiset().contains(near[i]));
        assert(all.contains(near[i]));
        assert(es.contains(near[i]));
        let j = choose|j: int| 0 <= j < es.len() && es[j] == near[i];
        assert(records[j].label <= 1);
    }
    lemma_label_sum_bound(near);
    assert(near.len() == near.to_multiset().len());
    assert(es.len() == all.len());
}

/// A search of the image of reference entries counts between 0 and `K` frauds.
pub proof fn image_votes_count_frauds(fraud: int, entries: Seq<RefEntry>, query: Seq<u8>)
    requires
        entries.len() <= u32::MAX,
        forall|i: int| 0 <= i < entries.len() ==> (#[trigger] entries[i]).vector@.len() == DIMS,
        is_vote(fraud, image_records(image_of(entries)), query),
    ensures
        0 <= fraud <= K,
{
    image_round_trip(entries);
    vote_counts_frauds(fraud, image_records(image_of(entries)), query);
}

proof fn lemma_sq_dist_zero(a: Seq<u8>, b: Seq<u8>, n: int)
    requires
        n >= 0,
    ensures
        sq_dist(a, b, n) == 0 <==> forall|i: int| 0 <= i < n ==> a[i] == b[i],
    decreases n,
{
    if n > 0 {
        lemma_sq_dist_zero(a, b, n - 1);
        lemma_sq_dist_bound(a, b, n - 1);
        lemma_sq_diff(a, b, n - 1);
        let d = a[n - 1] - b[n - 1];
        assert(d * d == 0 <==> d == 0) by (nonlinear_arith);
    }
}

/// Two padded vectors are at distance 0 exactly if they are the same.
pub proof fn distance_zero_iff_equal(a: Seq<u8>, b: Seq<u8>)
    requires
        a.len() == PADDED_DIMS,
        b.len() == PADDED_DIMS,
    ensures
        distance(a, b) == 0 <==> a == b,
{
    lemma_sq_dist_zero(a, b, PADDED_DIMS as int);
    if distance(a, b) == 0 {
        assert(a =~= b);
    }
}

proof fn lemma_sq_dist_prefix(a: Seq<u8>, b: Seq<u8>, c: Seq<u8>, d: Seq<u8>, n: int)
    requires
        forall|i: int| 0 <= i < n ==> a[i] == c[i] && b[i] == d[i],
    ensures
        sq_dist(a, b, n) == sq_dist(c, d, n),
    decreases n,
{
    if n > 0 {
        lemma_sq_dist_prefix(a, b, c, d, n - 1);
    }
}

/// Padding does not count: the distance of two padded vectors is that of the
/// vectors in their `DIMS` dimensions.
pub proof fn padding_keeps_distance(a: Seq<u8>, b: Seq<u8>)
    requires
        a.len() == DIMS,
        b.len() == DIMS,
    ensures
        distance(padded(a), padded(b)) == sq_dist(a, b, DIMS as int),
{
    lemma_sq_dist_prefix(padded(a), padded(b), a, b, DIMS as int);
    reveal_with_fuel(sq_dist, 3);
    assert(padded(a)[14] == PADDING && padded(b)[14] == PADDING);
    assert(padded(a)[15] == PADDING && padded(b)[15] == PADDING);
    assert(sq_diff(padded(a), padded(b), 14) == 0);
    assert(sq_diff(padded(a), padded(b), 15) == 0);
}

proof fn lemma_sq_dist_one(a: Seq<u8>, b: Seq<u8>, i: int, n: int)
    requires
        0 <= i,
        forall|j: int| 0 <= j < n && j != i ==> a[j] == b[j],
    ensures
        sq_dist(a, b, n) == if i < n {
            (a[i] - b[i]) * (a[i] - b[i])
        } else {
            0
        },
    decreases n,
{
    if n > 0 {
        lemma_sq_dist_one(a, b, i, n - 1);
        if i != n - 1 {
            lemma_sq_diff_zero(a, b, n - 1);
        }
    }
}

proof fn lemma_sq_diff_zero(a: Seq<u8>, b: Seq<u8>, i: int)
    requires
        a[i] == b[i],
    ensures
        sq_diff(a, b, i) == 0,
{
    let d = a[i] - b[i];
    assert(d * d == 0) by (nonlinear_arith)
        requires
            d == 0,
    ;
}

proof fn lemma_sq_dist_adds(a: Seq<u8>, b: Seq<u8>, c: Seq<u8>, n: int)
    requires
        forall|j: int| 0 <= j < n ==> c[j] == a[j] || #[trigger] c[j] == b[j],
    ensures
        sq_dist(a, b, n) == sq_dist(a, c, n) + sq_dist(c, b, n),
    decreases n,
{
    if n > 0 {
        lemma_sq_dist_adds(a, b, c, n - 1);
        if c[n - 1] == a[n - 1] {
            lemma_sq_diff_zero(a, c, n - 1);
        } else {
            lemma_sq_diff_zero(c, b, n - 1);
        }
    }
}

/// Vectors that agree in all dimensions but one are as far apart as they differ there,
/// squared.
pub proof fn distance_in_one_dimension(a: Seq<u8>, b: Seq<u8>, i: int)
    requires
        0 <= i < 16,
        forall|j: int| 0 <= j < 16 && j != i ==> a[j] == b[j],
    ensures
        distance(a, b) == (a[i] - b[i]) * (a[i] - b[i]),
{
    lemma_sq_dist_one(a, b, i, 16);
}

/// Distances over dimensions add up: a vector that takes some dimensions from one vector
/// and the others from another parts their distance in two.
pub proof fn distances_add_up(a: Seq<u8>, b: Seq<u8>, c: Seq<u8>)
    requires
        forall|j: int| 0 <= j < 16 ==> c[j] == a[j] || #[trigger] c[j] == b[j],
    ensures
        distance(a, b) == distance(a, c) + distance(c, b),
{
    lemma_sq_dist_adds(a, b, c, 16);
}

/// `dist_sq_u8_scalar` on vectors that agree in all dimensions but one gives the square
/// of the difference there.
pub proof fn scalar_distance_in_one_dimension(a: &[u8], b: &[u8], i: int, s: u32)
    requires
        0 <= i < 16,
        forall|j: int| 0 <= j < 16 && j != i ==> a@[j] == b@[j],
        call_ensures(dist_sq_u8_scalar, (a, b), s),
    ensures
        s == (a@[i] - b@[i]) * (a@[i] - b@[i]),
{
    distance_in_one_dimension(a@, b@, i);
}

/// What `dist_sq_u8_scalar` gives adds up over dimensions, and is the same either way.
pub proof fn scalar_distances_add_up(
    a: &[u8],
    b: &[u8],
    c: &[u8],
    ab: u32,
    ba: u32,
    ac: u32,
    cb: u32,
)
    requires
        forall|j: int| 0 <= j < 16 ==> c@[j] == a@[j] || #[trigger] c@[j] == b@[j],
        call_ensures(dist_sq_u8_scalar, (a, b), ab),
        call_ensures(dist_sq_u8_scalar, (b, a), ba),
        call_ensures(dist_sq_u8_scalar, (a, c), ac),
        call_ensures(dist_sq_u8_scalar, (c, b), cb),
    ensures
        ab == ac + cb,
        ba == ab,
{
    distances_add_up(a@, b@, c@);
    lemma_sq_dist_swapped(a@, b@, 16);
}

proof fn lemma_sq_dist_swapped(a: Seq<u8>, b: Seq<u8>, n: int)
    ensures
        sq_dist(a, b, n) == sq_dist(b, a, n),
    decreases n,
{
    if n > 0 {
        lemma_sq_dist_swapped(a, b, n - 1);
        let x = a[n - 1] as int;
        let y = b[n - 1] as int;
        assert((x - y) * (x - y) == (y - x) * (y - x)) by (nonlinear_arith);
    }
}

/// A widened query is as far from a vector as the query is.
pub proof fn widened_queries_keep_their_distances(
    query: &[u8; PADDED_DIMS],
    lanes: [i16; PADDED_DIMS],
    b: &[u8],
    s: u32,
    wide: u32,
    slice: &[u8],
)
    requires
        slice@ == query@,
        call_ensures(preload, (query,), lanes),
        call_ensures(dist_sq_u8_scalar, (slice, b), s),
        call_ensures(dist_sq_preloaded, (&lanes, b), wide),
    ensures
        wide == s,
        b@.len() >= 16 ==> call_requires(dist_sq_preloaded, (&lanes, b)),
        b@.len() >= 16 ==> call_requires(dist_sq_u8_scalar, (slice, b)),
{
    lemma_lane_sq_dist(query@, lanes@, b@, 16);
}

/// Neighbours taken from others, with the places they were taken from: no place is taken
/// twice, and what stands at a place that was not taken was left over.
proof fn lemma_taken_places(near: Seq<(u32, u8)>, es: Seq<(u32, u8)>) -> (places: Seq<int>)
    requires
        near.to_multiset().subset_of(es.to_multiset()),
    ensures
        places.len() == near.len(),
        places.no_duplicates(),
        forall|k: int|
            0 <= k < places.len() ==> 0 <= #[trigger] places[k] < es.len() && es[places[k]]
                == near[k],
        forall|j: int|
            0 <= j < es.len() && !places.contains(j) ==> near.to_multiset().count(
                #[trigger] es[j],
            ) < es.to_multiset().count(es[j]),
    decreases near.len(),
{
    if near.len() == 0 {
        assert forall|j: int| 0 <= j < es.len() implies near.to_multiset().count(
            #[trigger] es[j],
        ) < es.to_multiset().count(es[j]) by {
            assert(es.contains(es[j]));
            assert(es.to_multiset().contains(es[j]));
        }
        Seq::empty()
    } else {
        let n = near.len() as int;
        let e = near.last();
        let near2 = near.drop_last();
        assert(near.contains(e)) by {
            assert(near[n - 1] == e);
        }
        assert(near.to_multiset().contains(e));
        assert(es.to_multiset().contains(e));
        assert(es.contains(e));
        let i = choose|i: int| 0 <= i < es.len() && es[i] == e;
        let es2 = es.remove(i);
        assert(near2 =~= near.remove(n - 1));
        assert(near2.to_multiset() =~= near.to_multiset().remove(e));
        assert(es2.to_multiset() =~= es.to_multiset().remove(e));
        let places2 = lemma_taken_places(near2, es2);
        let places = Seq::new(
            near.len(),
            |k: int|
                if k == n - 1 {
                    i
                } else if places2[k] < i {
                    places2[k]
                } else {
                    places2[k] + 1
                },
        );
        assert forall|k: int| 0 <= k < places.len() implies 0 <= #[trigger] places[k] < es.len()
            && es[places[k]] == near[k] by {
            if k < n - 1 {
                assert(es2[places2[k]] == near2[k]);
            }
        }
        assert forall|j: int| 0 <= j < es.len() && !places.contains(j) implies near.to_multiset()
            .count(#[trigger] es[j]) < es.to_multiset().count(es[j]) by {
            assert(places[n - 1] == i);
            let j2 = if j < i {
                j
            } else {
                j - 1
            };
            assert(es2[j2] == es[j]);
            if places2.contains(j2) {
                let k = choose|k: int| 0 <= k < places2.len() && places2[k] == j2;
                assert(places[k] == j);
            }
        }
        places
    }
}

/// The labels at places add up to the sum of the labels of what stands there.
proof fn lemma_labels_at_places(near: Seq<(u32, u8)>, records: Seq<Record>, places: Seq<int>)
    requires
        places.len() == near.len(),
        forall|k: int| 0 <= k < places.len() ==> records[#[trigger] places[k]].label == near[k].1,
    ensures
        label_sum(near) == places.fold_left(0int, |sum: int, i: int| sum + records[i].label),
    decreases near.len(),
{
    if near.len() > 0 {
        let n = near.len() as int;
        let near2 = near.drop_last();
        let places2 = places.drop_last();
        assert(forall|k: int| 0 <= k < n - 1 ==> places2[k] == places[k]);
        lemma_labels_at_places(near2, records, places2);
        assert(places.last() == places[n - 1]);
        let f = |sum: int, i: int| sum + records[i].label;
        assert(places.fold_left(0int, f) == f(places2.fold_left(0int, f), places.last())) by {
            reveal(Seq::fold_left);
        }
    }
}

/// A vote is that of the five nearest records, or of all if there are fewer: they are
/// `near`, no record that is not among them is closer to the query than one that is, and
/// their labels add up to the vote.
pub proof fn the_nearest_records_vote(fraud: int, records: Seq<Record>, query: Seq<u8>) -> (near:
    Seq<int>)
    requires
        is_vote(fraud, records, query),
    ensures
        near.no_duplicates(),
        near.len() == if records.len() < 5 {
            records.len()
        } else {
            5
        },
        forall|k: int| 0 <= k < near.len() ==> 0 <= #[trigger] near[k] < records.len(),
        forall|k: int, j: int|
            0 <= k < near.len() && 0 <= j < records.len() && !near.contains(j) ==> distance(
                query,
                records[#[trigger] near[k]].vector,
            ) <= distance(query, (#[trigger] records[j]).vector),
        fraud == near.fold_left(0int, |sum: int, i: int| sum + records[i].label),
{
    let es = neighbours(records, query);
    let taken = choose|taken: Seq<(u32, u8)>| #[trigger]
        nearest(taken.to_multiset(), es.to_multiset(), K as nat) && fraud == label_sum(taken);
    let near = lemma_taken_places(taken, es);
    lemma_places_are_nearest(records, query, taken, near);
    lemma_labels_at_places(taken, records, near);
    assert(taken.len() == taken.to_multiset().len());
    assert(es.len() == es.to_multiset().len());
    near
}

/// The places of the nearest neighbours are those of the nearest records.
proof fn lemma_places_are_nearest(
    records: Seq<Record>,
    query: Seq<u8>,
    taken: Seq<(u32, u8)>,
    near: Seq<int>,
)
    requires
        ({
            let es = neighbours(records, query);
            &&& nearest(taken.to_multiset(), es.to_multiset(), K as nat)
            &&& near.len() == taken.len()
            &&& forall|k: int|
                0 <= k < near.len() ==> 0 <= #[trigger] near[k] < es.len() && es[near[k]]
                    == taken[k]
            &&& forall|j: int|
                0 <= j < es.len() && !near.contains(j) ==> taken.to_multiset().count(
                    #[trigger] es[j],
                ) < es.to_multiset().count(es[j])
        }),
    ensures
        forall|k: int, j: int|
            0 <= k < near.len() && 0 <= j < records.len() && !near.contains(j) ==> distance(
                query,
                records[#[trigger] near[k]].vector,
            ) <= distance(query, (#[trigger] records[j]).vector),
{
    let es = neighbours(records, query);
    assert forall|k: int, j: int|
        0 <= k < near.len() && 0 <= j < records.len() && !near.contains(j) implies distance(
        query,
        records[#[trigger] near[k]].vector,
    ) <= distance(query, (#[trigger] records[j]).vector) by {
        let x = es[near[k]];
        let y = es[j];
        assert(taken.contains(x)) by {
            assert(taken[k] == x);
        }
        assert(taken.to_multiset().contains(x));
        assert(es.to_multiset().sub(taken.to_multiset()).contains(y));
        lemma_sq_dist_bound(query, records[near[k]].vector, 16);
        lemma_sq_dist_bound(query, records[j].vector, 16);
    }
}

/// A search counts the frauds among the five nearest records of the dataset.
pub proof fn a_search_asks_the_nearest_records(
    ds: &Dataset,
    query: &[u8; PADDED_DIMS],
    fraud: u32,
) -> (near: Seq<int>)
    requires
        call_ensures(knn_search, (ds, query), fraud),
    ensures
        near.no_duplicates(),
        near.len() == if ds@.len() < 5 {
            ds@.len()
        } else {
            5
        },
        forall|k: int| 0 <= k < near.len() ==> 0 <= #[trigger] near[k] < ds@.len(),
        forall|k: int, j: int|
            0 <= k < near.len() && 0 <= j < ds@.len() && !near.contains(j) ==> distance(
                query@,
                ds@[#[trigger] near[k]].vector,
            ) <= distance(query@, (#[trigger] ds@[j]).vector),
        fraud == near.fold_left(0int, |sum: int, i: int| sum + ds@[i].label),
{
    the_nearest_records_vote(fraud as int, ds@, query@)
}

/// A search of the dataset of an image counts the frauds among the five records whose
/// bytes in the image are nearest to the query.
pub proof fn a_search_asks_the_nearest_bytes(
    data: &[u8],
    ds: Dataset,
    query: &[u8; PADDED_DIMS],
    fraud: u32,
) -> (near: Seq<int>)
    requires
        call_ensures(Dataset::from_mmap, (data,), ds),
        call_ensures(knn_search, (&ds, query), fraud),
    ensures
        call_requires(knn_search, (&ds, query)),
        near.no_duplicates(),
        ({
            let n = data@[0] + 256 * data@[1] + 65536 * data@[2] + 16777216 * data@[3];
            let labels = 64 + 16 * n;
            &&& near.len() == if n < 5 {
                n
            } else {
                5
            }
            &&& forall|k: int| 0 <= k < near.len() ==> 0 <= #[trigger] near[k] < n
            &&& forall|k: int, j: int|
                0 <= k < near.len() && 0 <= j < n && !#[trigger] near.contains(j) ==> distance(
                    query@,
                    data@.subrange(64 + 16 * #[trigger] near[k], 80 + 16 * near[k]),
                ) <= distance(query@, data@.subrange(64 + 16 * j, 80 + 16 * j))
            &&& fraud == near.fold_left(0int, |sum: int, i: int| sum + data@[labels + i])
        }),
{
    dataset_byte_by_byte(data, ds);
    let near = a_search_asks_the_nearest_records(&ds, query, fraud);
    let n = data@[0] + 256 * data@[1] + 65536 * data@[2] + 16777216 * data@[3];
    let labels = 64 + 16 * n;
    assert forall|k: int, j: int|
        0 <= k < near.len() && 0 <= j < n && !#[trigger] near.contains(j) implies distance(
        query@,
        data@.subrange(64 + 16 * #[trigger] near[k], 80 + 16 * near[k]),
    ) <= distance(query@, data@.subrange(64 + 16 * j, 80 + 16 * j)) by {
        assert(ds@[near[k]].vector == data@.subrange(64 + 16 * near[k], 80 + 16 * near[k]));
        assert(ds@[j].vector == data@.subrange(64 + 16 * j, 80 + 16 * j));
    }
    lemma_same_labels(near, ds@, data@, labels);
    near
}

proof fn lemma_same_labels(near: Seq<int>, records: Seq<Record>, data: Seq<u8>, labels: int)
    requires
        forall|k: int|
            0 <= k < near.len() ==> records[#[trigger] near[k]].label == data[labels + near[k]],
    ensures
        near.fold_left(0int, |sum: int, i: int| sum + records[i].label) == near.fold_left(
            0int,
            |sum: int, i: int| sum + data[labels + i],
        ),
    decreases near.len(),
{
    reveal(Seq::fold_left);
    if near.len() > 0 {
        let front = near.drop_last();
        assert(forall|k: int| 0 <= k < front.len() ==> front[k] == near[k]);
        lemma_same_labels(front, records, data, labels);
        assert(near.last() == near[near.len() - 1]);
    }
}

/// The slots of a scanned part hold the distances and the labels of its five nearest
/// records, in some order, and where there are fewer the other slots are vacant.
pub proof fn a_scan_finds_the_nearest_records(
    chunk: &Chunk,
    query: &[u8; PADDED_DIMS],
    top: ([u32; K], [u8; K]),
) -> (near: Seq<int>)
    requires
        chunk.wf(),
        call_ensures(scan_chunk, (chunk, query), top),
    ensures
        near.no_duplicates(),
        near.len() == if chunk.count < 5 {
            chunk.count as int
        } else {
            5
        },
        forall|k: int| 0 <= k < near.len() ==> 0 <= #[trigger] near[k] < chunk.count,
        forall|k: int, j: int|
            0 <= k < near.len() && 0 <= j < chunk.count && !#[trigger] near.contains(j)
                ==> distance(
                query@,
                chunk.vectors@.subrange(16 * #[trigger] near[k], 16 * near[k] + 16),
            ) <= distance(query@, chunk.vectors@.subrange(16 * j, 16 * j + 16)),
        Seq::new(5, |k: int| (top.0@[k], top.1@[k])).to_multiset() == Seq::new(
            5,
            |k: int|
                if k < near.len() {
                    (
                        distance(
                            query@,
                            chunk.vectors@.subrange(16 * near[k], 16 * near[k] + 16),
                        ) as u32,
                        chunk.labels@[near[k]],
                    )
                } else {
                    (u32::MAX, 0u8)
                },
        ).to_multiset(),
{
    let s = slots(top.0@, top.1@);
    let es = neighbours(chunk@, query@);
    let taken = kept(s);
    let near = lemma_taken_places(taken, es);
    lemma_places_are_nearest(chunk@, query@, taken, near);
    assert(taken.len() == taken.to_multiset().len());
    assert(es.len() == es.to_multiset().len());
    assert forall|k: int, j: int|
        0 <= k < near.len() && 0 <= j < chunk.count && !#[trigger] near.contains(
            j,
        ) implies distance(
        query@,
        chunk.vectors@.subrange(16 * #[trigger] near[k], 16 * near[k] + 16),
    ) <= distance(query@, chunk.vectors@.subrange(16 * j, 16 * j + 16)) by {
        assert(chunk@[near[k]].vector == chunk.vectors@.subrange(
            16 * near[k],
            16 * near[k] + 16,
        ));
        assert(chunk@[j].vector == chunk.vectors@.subrange(16 * j, 16 * j + 16));
    }
    let full = Seq::new(
        5,
        |k: int|
            if k < near.len() {
                (
                    distance(
                        query@,
                        chunk.vectors@.subrange(16 * near[k], 16 * near[k] + 16),
                    ) as u32,
                    chunk.labels@[near[k]],
                )
            } else {
                (u32::MAX, 0u8)
            },
    );
    let free = Seq::new((s.len() - taken.len()) as nat, |i: int| (u32::MAX, 0u8));
    lemma_kept_and_vacant(s);
    assert forall|k: int| 0 <= k < near.len() implies #[trigger] full[k] == taken[k] by {
        assert(es[near[k]] == taken[k]);
        assert(chunk@[near[k]].vector == chunk.vectors@.subrange(
            16 * near[k],
            16 * near[k] + 16,
        ));
    }
    assert(full =~= taken + free);
    vstd::seq_lib::lemma_multiset_commutative(taken, free);
    assert(s =~= Seq::new(5, |k: int| (top.0@[k], top.1@[k])));
    near
}

/// Every part can be scanned.
pub proof fn every_part_can_be_scanned(chunk: &Chunk, query: &[u8; PADDED_DIMS])
    requires
        chunk.vectors@.len() == 16 * chunk.count,
        chunk.labels@.len() == chunk.count,
    ensures
        call_requires(scan_chunk, (chunk, query)),
{
}

/// A vote is not below 0.
pub(crate) proof fn lemma_votes_are_not_negative(fraud: int, records: Seq<Record>, query: Seq<u8>)
    requires
        is_vote(fraud, records, query),
    ensures
        fraud >= 0,
{
    let near = choose|near: Seq<(u32, u8)>| #[trigger]
        nearest(near.to_multiset(), neighbours(records, query).to_multiset(), K as nat) && fraud
            == label_sum(near);
    lemma_label_sum_not_negative(near);
}

proof fn lemma_label_sum_not_negative(s: Seq<(u32, u8)>)
    ensures
        label_sum(s) >= 0,
    decreases s.len(),
{
    if s.len() > 0 {
        lemma_label_sum_not_negative(s.drop_last());
    }
}

} // verus!
