//! The Pareto frontier of sampled points: the points that no other point beats
//! on both height `B` and size `|Λ|`, and the points of smallest size.
use vstd::prelude::*;
use crate::point::{Point, INFINITY_KEY, rank, rank_of};

verus! {

broadcast use vstd::seq_lib::group_to_multiset_ensures;

/// Lexicographic `<=` on triples of integers, the order of `(u64, u64, u64)`.
pub open spec fn triple_le(x: (u64, u64, u64), y: (u64, u64, u64)) -> bool {
    x.0 < y.0 || (x.0 == y.0 && (x.1 < y.1 || (x.1 == y.1 && x.2 <= y.2)))
}

/// `<[(u64, u64, u64)]>::sort_unstable`, through `Vec`'s deref to a slice.
///
/// Its documentation says that it sorts the slice, in the order of the element
/// type, which for tuples of integers is the lexicographic order; sorting
/// rearranges the elements, so the contents stay the same as a multiset.
/// Which of two equal elements comes first is left open, and equal triples
/// are indistinguishable.
#[verifier::external_body]
fn sort_triples(v: &mut Vec<(u64, u64, u64)>)
    ensures
        final(v)@.to_multiset() == old(v)@.to_multiset(),
        forall|i: int, j: int|
            0 <= i < j < final(v)@.len() ==> triple_le(#[trigger] final(v)@[i], #[trigger] final(v)@[j]),
{
    v.sort_unstable();
}

/// A rearrangement of a sequence without repeated elements.
proof fn lemma_rearrangement<A>(u: Seq<A>, t: Seq<A>)
    requires
        t.to_multiset() == u.to_multiset(),
        u.no_duplicates(),
    ensures
        t.len() == u.len(),
        t.no_duplicates(),
        forall|m: int| 0 <= m < t.len() ==> u.contains(#[trigger] t[m]),
        forall|j: int| 0 <= j < u.len() ==> t.contains(#[trigger] u[j]),
{
    u.lemma_multiset_has_no_duplicates();
    t.lemma_multiset_has_no_duplicates_conv();
    assert(t.to_multiset().len() == t.len());
    assert(u.to_multiset().len() == u.len());
    assert forall|m: int| 0 <= m < t.len() implies u.contains(#[trigger] t[m]) by {
        assert(t.contains(t[m]));
        assert(t.to_multiset().count(t[m]) > 0);
    }
    assert forall|j: int| 0 <= j < u.len() implies t.contains(#[trigger] u[j]) by {
        assert(u.contains(u[j]));
        assert(u.to_multiset().count(u[j]) > 0);
    }
}

/// `y` is at most as high and at most as large as `x`.
pub open spec fn weakly_below(y: Point, x: Point) -> bool {
    y.b_max <= x.b_max && y.lambda_key <= x.lambda_key
}

/// `x` and `y` have the same height and the same size.
pub open spec fn same_pair(y: Point, x: Point) -> bool {
    y.b_max == x.b_max && y.lambda_key == x.lambda_key
}

/// `x` has a finite size and no point of `s` is at most as high and at most as
/// large as `x` without having the same height and size.
pub open spec fn on_frontier(s: Seq<Point>, x: Point) -> bool {
    &&& x.lambda_key < INFINITY_KEY
    &&& forall|j: int| 0 <= j < s.len() && #[trigger] weakly_below(s[j], x) ==> same_pair(s[j], x)
}

/// `s[j]` is the first point of `s` with its height and size.
pub open spec fn first_of_pair(s: Seq<Point>, j: int) -> bool {
    forall|i: int| 0 <= i < j ==> !same_pair(#[trigger] s[i], s[j])
}

/// `s[j]` is a point of the frontier of `s`, and the first with its height and size.
pub open spec fn frontier_member(s: Seq<Point>, j: int) -> bool {
    0 <= j < s.len() && on_frontier(s, s[j]) && first_of_pair(s, j)
}

/// `x` is the first point of `s` with its height and size, and on the frontier.
pub open spec fn drawn_from_frontier(s: Seq<Point>, x: Point) -> bool {
    exists|j: int| #[trigger] frontier_member(s, j) && s[j] == x
}

/// `out` is the Pareto frontier of `s`: exactly the first point of each
/// height and size on the frontier, by increasing height (and so by
/// decreasing size).
pub open spec fn is_frontier_of(s: Seq<Point>, out: Seq<Point>) -> bool {
    &&& forall|k: int| 0 <= k < out.len() ==> #[trigger] drawn_from_frontier(s, out[k])
    &&& forall|j: int| #[trigger] frontier_member(s, j) ==> out.contains(s[j])
    &&& forall|k1: int, k2: int|
        0 <= k1 < k2 < out.len() ==> (#[trigger] out[k1]).b_max < (#[trigger] out[k2]).b_max
            && out[k1].lambda_key > out[k2].lambda_key
}

/// The triple by which the frontier search orders point `j`.
pub open spec fn frontier_triple(p: Point, j: int) -> (u64, u64, u64) {
    (rank_of(p.b_max) as u64, p.lambda_key, j as u64)
}

proof fn lemma_rank_cast(b: i64)
    ensures
        (rank_of(b) as u64) as int == rank_of(b),
{
}

/// In sorted order, position `m` has a finite size below all sizes before it.
spec fn kept_at(t: Seq<(u64, u64, u64)>, m: int) -> bool {
    t[m].1 < INFINITY_KEY && forall|m2: int| 0 <= m2 < m ==> (#[trigger] t[m2]).1 > t[m].1
}

/// What the sorted triples say of the points they were made from.
spec fn sorted_triples_of(s: Seq<Point>, t: Seq<(u64, u64, u64)>) -> bool {
    &&& s.len() <= u64::MAX
    &&& t.len() == s.len()
    &&& t.no_duplicates()
    &&& forall|m: int|
        #![trigger t[m]]
        0 <= m < t.len() ==> t[m].2 < s.len() && t[m] == frontier_triple(s[t[m].2 as int], t[m].2 as int)
    &&& forall|j: int| 0 <= j < s.len() ==> t.contains(#[trigger] frontier_triple(s[j], j))
    &&& forall|i: int, j: int| 0 <= i < j < t.len() ==> triple_le(#[trigger] t[i], #[trigger] t[j])
}

proof fn lemma_position_of(s: Seq<Point>, t: Seq<(u64, u64, u64)>, j: int) -> (m: int)
    requires
        sorted_triples_of(s, t),
        0 <= j < s.len(),
    ensures
        0 <= m < t.len(),
        t[m] == frontier_triple(s[j], j),
        t[m].2 == j,
{
    assert(t.contains(frontier_triple(s[j], j)));
    let m = choose|m: int| 0 <= m < t.len() && t[m] == frontier_triple(s[j], j);
    m
}

proof fn lemma_kept_is_member(s: Seq<Point>, t: Seq<(u64, u64, u64)>, m: int)
    requires
        sorted_triples_of(s, t),
        0 <= m < t.len(),
        kept_at(t, m),
    ensures
        frontier_member(s, t[m].2 as int),
{
    let j = t[m].2 as int;
    assert(t[m] == frontier_triple(s[j], j));
    assert forall|i: int| 0 <= i < s.len() && #[trigger] weakly_below(s[i], s[j]) implies same_pair(
        s[i],
        s[j],
    ) by {
        let m2 = lemma_position_of(s, t, i);
        if m2 < m {
            assert(t[m2].1 > t[m].1);
        } else if m2 > m {
            assert(triple_le(t[m], t[m2]));
        }
    }
    assert forall|i: int| 0 <= i < j implies !same_pair(#[trigger] s[i], s[j]) by {
        let m2 = lemma_position_of(s, t, i);
        if same_pair(s[i], s[j]) {
            if m2 < m {
                assert(t[m2].1 > t[m].1);
            } else if m2 > m {
                assert(triple_le(t[m], t[m2]));
            }
        }
    }
}

proof fn lemma_member_is_kept(s: Seq<Point>, t: Seq<(u64, u64, u64)>, j: int) -> (m: int)
    requires
        sorted_triples_of(s, t),
        frontier_member(s, j),
    ensures
        0 <= m < t.len(),
        t[m].2 == j,
        kept_at(t, m),
{
    let m = lemma_position_of(s, t, j);
    assert forall|m2: int| 0 <= m2 < m implies (#[trigger] t[m2]).1 > t[m].1 by {
        let i = t[m2].2 as int;
        assert(t[m2] == frontier_triple(s[i], i));
        assert(triple_le(t[m2], t[m]));
        if t[m2].1 <= t[m].1 {
            assert(weakly_below(s[i], s[j]));
            assert(same_pair(s[i], s[j]));
            assert(t[m2] != t[m]);
            assert(i < j);
        }
    }
    m
}

/// The Pareto frontier of `points`.
///
/// Sorts the points by height, then size (the first point of equal ones
/// first), and keeps each point whose size is finite and below the size of
/// every point before it.
pub fn pareto_frontier(points: &Vec<Point>) -> (out: Vec<Point>)
    ensures
        is_frontier_of(points@, out@),
        frontier_law(points@, out@),
{
    let n = points.len();
    let mut triples: Vec<(u64, u64, u64)> = Vec::new();
    for i in 0..n
        invariant
            n == points.len(),
            triples.len() == i,
            forall|j: int| 0 <= j < i ==> #[trigger] triples@[j] == frontier_triple(points@[j], j),
    {
        triples.push((rank(points[i].b_max), points[i].lambda_key, i as u64));
    }
    let ghost u = triples@;
    proof {
        assert forall|a: int, b: int| 0 <= a < u.len() && 0 <= b < u.len() && a != b implies u[a]
            != u[b] by {
            assert(u[a].2 != u[b].2);
        }
    }
    sort_triples(&mut triples);
    let ghost t = triples@;
    proof {
        lemma_rearrangement(u, t);
        assert forall|m: int| #![trigger t[m]] 0 <= m < t.len() implies t[m].2 < n && t[m]
            == frontier_triple(points@[t[m].2 as int], t[m].2 as int) by {
            assert(u.contains(t[m]));
            let j = choose|j: int| 0 <= j < u.len() && u[j] == t[m];
            assert(u[j] == frontier_triple(points@[j], j));
        }
        assert forall|j: int| 0 <= j < n implies t.contains(
            #[trigger] frontier_triple(points@[j], j),
        ) by {
            assert(t.contains(u[j]));
        }
        assert(sorted_triples_of(points@, t));
    }
    let mut out: Vec<Point> = Vec::new();
    let ghost mut pos: Seq<int> = Seq::empty();
    let mut cur_min: u64 = INFINITY_KEY;
    for k in 0..n
        invariant
            n == points.len(),
            triples@ == t,
            sorted_triples_of(points@, t),
            pos.len() == out.len(),
            forall|i: int|
                #![trigger pos[i]]
                0 <= i < pos.len() ==> 0 <= pos[i] < k && kept_at(t, pos[i]) && out@[i]
                    == points@[t[pos[i]].2 as int],
            forall|i1: int, i2: int| 0 <= i1 < i2 < pos.len() ==> #[trigger] pos[i1] < #[trigger] pos[i2],
            forall|m: int| 0 <= m < k && #[trigger] kept_at(t, m) ==> pos.contains(m),
            cur_min <= INFINITY_KEY,
            forall|m: int| 0 <= m < k ==> cur_min <= (#[trigger] t[m]).1,
            cur_min == INFINITY_KEY || exists|m: int| 0 <= m < k && (#[trigger] t[m]).1 == cur_min,
    {
        let ghost old_pos = pos;
        let (_r, key, idx) = triples[k];
        proof {
            assert(t[k as int].2 < n);
        }
        if key < cur_min {
            proof {
                assert(kept_at(t, k as int));
            }
            out.push(points[idx as usize]);
            proof {
                pos = pos.push(k as int);
            }
            cur_min = key;
        } else {
            proof {
                if cur_min < INFINITY_KEY {
                    let m = choose|m: int| 0 <= m < k && (#[trigger] t[m]).1 == cur_min;
                    assert(!kept_at(t, k as int));
                }
            }
        }
        proof {
            assert forall|m: int| 0 <= m < k + 1 && #[trigger] kept_at(t, m) implies pos.contains(
                m,
            ) by {
                if m == k {
                    assert(pos[pos.len() - 1] == k);
                } else {
                    assert(old_pos.contains(m));
                    let i = choose|i: int| 0 <= i < old_pos.len() && old_pos[i] == m;
                    assert(pos[i] == m);
                }
            }
        }
    }
    proof {
        lemma_scan_is_frontier(points@, t, pos, out@);
        lemma_frontier_law(points@, out@);
    }
    out
}

proof fn lemma_scan_is_frontier(s: Seq<Point>, t: Seq<(u64, u64, u64)>, pos: Seq<int>, out: Seq<Point>)
    requires
        sorted_triples_of(s, t),
        pos.len() == out.len(),
        forall|i: int|
            #![trigger pos[i]]
            0 <= i < pos.len() ==> 0 <= pos[i] < t.len() && kept_at(t, pos[i]) && out[i] == s[t[pos[i]].2 as int],
        forall|i1: int, i2: int| 0 <= i1 < i2 < pos.len() ==> #[trigger] pos[i1] < #[trigger] pos[i2],
        forall|m: int| 0 <= m < t.len() && #[trigger] kept_at(t, m) ==> pos.contains(m),
    ensures
        is_frontier_of(s, out),
{
    assert forall|k: int| 0 <= k < out.len() implies #[trigger] drawn_from_frontier(s, out[k]) by {
        lemma_kept_is_member(s, t, pos[k]);
        let j = t[pos[k]].2 as int;
        assert(frontier_member(s, j) && s[j] == out[k]);
    }
    assert forall|j: int| #[trigger] frontier_member(s, j) implies out.contains(s[j]) by {
        let m = lemma_member_is_kept(s, t, j);
        assert(pos.contains(m));
        let i = choose|i: int| 0 <= i < pos.len() && pos[i] == m;
        assert(out[i] == s[j]);
    }
    assert forall|k1: int, k2: int| 0 <= k1 < k2 < out.len() implies (#[trigger] out[k1]).b_max < (
    #[trigger] out[k2]).b_max && out[k1].lambda_key > out[k2].lambda_key by {
        let m1 = pos[k1];
        let m2 = pos[k2];
        assert(m1 < m2);
        assert(kept_at(t, m2));
        assert(t[m1].1 > t[m2].1);
        assert(triple_le(t[m1], t[m2]));
        let j1 = t[m1].2 as int;
        let j2 = t[m2].2 as int;
        assert(t[m1] == frontier_triple(s[j1], j1));
        assert(t[m2] == frontier_triple(s[j2], j2));
        lemma_rank_cast(s[j1].b_max);
        lemma_rank_cast(s[j2].b_max);
    }
}


/// Every point of `t` is a point of `s`, and each point on the frontier of `s`
/// has a point in `t` of the same height and size.
pub open spec fn covers(s: Seq<Point>, t: Seq<Point>) -> bool {
    &&& forall|k: int| 0 <= k < t.len() ==> s.contains(#[trigger] t[k])
    &&& forall|j: int|
        0 <= j < s.len() && #[trigger] on_frontier(s, s[j]) ==> exists|k: int|
            0 <= k < t.len() && #[trigger] same_pair(t[k], s[j])
}

/// Some point of `s` with height `b_max` and size key `key` is on the frontier of `s`.
pub open spec fn frontier_pair(s: Seq<Point>, b_max: i64, key: u64) -> bool {
    exists|j: int|
        0 <= j < s.len() && s[j].b_max == b_max && s[j].lambda_key == key && #[trigger] on_frontier(
            s,
            s[j],
        )
}

/// The frontier of a sequence covers it.
pub proof fn lemma_frontier_covers(s: Seq<Point>, out: Seq<Point>)
    requires
        is_frontier_of(s, out),
    ensures
        covers(s, out),
{
    assert forall|k: int| 0 <= k < out.len() implies s.contains(#[trigger] out[k]) by {
        assert(drawn_from_frontier(s, out[k]));
        let j = choose|j: int| #[trigger] frontier_member(s, j) && s[j] == out[k];
        assert(s[j] == out[k]);
    }
    assert forall|j: int| 0 <= j < s.len() && #[trigger] on_frontier(s, s[j]) implies exists|k: int|
        0 <= k < out.len() && #[trigger] same_pair(out[k], s[j]) by {
        let j0 = lemma_first_of_pair(s, j);
        assert(frontier_member(s, j0));
        assert(out.contains(s[j0]));
        let k = choose|k: int| 0 <= k < out.len() && out[k] == s[j0];
        assert(same_pair(out[k], s[j]));
    }
}

/// The first point of `s` with the height and size of `s[j]`.
proof fn lemma_first_of_pair(s: Seq<Point>, j: int) -> (j0: int)
    requires
        0 <= j < s.len(),
        on_frontier(s, s[j]),
    ensures
        0 <= j0 <= j,
        same_pair(s[j0], s[j]),
        s[j0].b_max == s[j].b_max && s[j0].lambda_key == s[j].lambda_key,
        frontier_member(s, j0),
    decreases j,
{
    if exists|i: int| 0 <= i < j && same_pair(#[trigger] s[i], s[j]) {
        let i = choose|i: int| 0 <= i < j && same_pair(#[trigger] s[i], s[j]);
        assert forall|l: int| 0 <= l < s.len() && #[trigger] weakly_below(s[l], s[i]) implies same_pair(
            s[l],
            s[i],
        ) by {
            assert(weakly_below(s[l], s[j]));
        }
        lemma_first_of_pair(s, i)
    } else {
        j
    }
}

/// Below every point of `s` whose size is finite lies a point on the
/// frontier of `s`.
proof fn lemma_frontier_point_below(s: Seq<Point>, j: int) -> (i: int)
    requires
        0 <= j < s.len(),
        s[j].lambda_key < INFINITY_KEY,
    ensures
        0 <= i < s.len(),
        weakly_below(s[i], s[j]),
        on_frontier(s, s[i]),
    decreases rank_of(s[j].b_max) + s[j].lambda_key,
{
    if on_frontier(s, s[j]) {
        j
    } else {
        let l = choose|l: int| 0 <= l < s.len() && #[trigger] weakly_below(s[l], s[j]) && !same_pair(s[l], s[j]);
        let i = lemma_frontier_point_below(s, l);
        i
    }
}

/// Filtering a set of points down to anything that keeps its frontier (such
/// as the frontier of each chunk) does not change the frontier: the heights
/// and sizes on the frontier of `t` are those on the frontier of `s`.
pub proof fn lemma_prefiltered_frontier(s: Seq<Point>, t: Seq<Point>)
    requires
        covers(s, t),
    ensures
        forall|b_max: i64, key: u64| frontier_pair(s, b_max, key) <==> frontier_pair(t, b_max, key),
{
    assert forall|b_max: i64, key: u64| frontier_pair(s, b_max, key) implies frontier_pair(t, b_max, key) by {
        let j = choose|j: int|
            0 <= j < s.len() && s[j].b_max == b_max && s[j].lambda_key == key && #[trigger] on_frontier(s, s[j]);
        let k = choose|k: int| 0 <= k < t.len() && #[trigger] same_pair(t[k], s[j]);
        assert forall|l: int| 0 <= l < t.len() && #[trigger] weakly_below(t[l], t[k]) implies same_pair(
            t[l],
            t[k],
        ) by {
            assert(s.contains(t[l]));
            let m = choose|m: int| 0 <= m < s.len() && s[m] == t[l];
            assert(weakly_below(s[m], s[j]));
        }
        assert(on_frontier(t, t[k]));
    }
    assert forall|b_max: i64, key: u64| frontier_pair(t, b_max, key) implies frontier_pair(s, b_max, key) by {
        let k = choose|k: int|
            0 <= k < t.len() && t[k].b_max == b_max && t[k].lambda_key == key && #[trigger] on_frontier(t, t[k]);
        assert(s.contains(t[k]));
        let j = choose|j: int| 0 <= j < s.len() && s[j] == t[k];
        assert forall|l: int| 0 <= l < s.len() && #[trigger] weakly_below(s[l], s[j]) implies same_pair(
            s[l],
            s[j],
        ) by {
            if !same_pair(s[l], s[j]) {
                let i = lemma_frontier_point_below(s, l);
                let k2 = choose|k2: int| 0 <= k2 < t.len() && #[trigger] same_pair(t[k2], s[i]);
                assert(weakly_below(t[k2], t[k]));
            }
        }
        assert(on_frontier(s, s[j]));
    }
}

/// Frontiers of chunks, put together, cover the frontier of the chunks put
/// together.
pub proof fn lemma_covers_concat(s1: Seq<Point>, t1: Seq<Point>, s2: Seq<Point>, t2: Seq<Point>)
    requires
        covers(s1, t1),
        covers(s2, t2),
    ensures
        covers(s1 + s2, t1 + t2),
{
    let s = s1 + s2;
    let t = t1 + t2;
    assert forall|k: int| 0 <= k < t.len() implies s.contains(#[trigger] t[k]) by {
        if k < t1.len() {
            assert(t[k] == t1[k]);
            assert(s1.contains(t1[k]));
            let j = choose|j: int| 0 <= j < s1.len() && s1[j] == t1[k];
            assert(s[j] == t[k]);
        } else {
            assert(t[k] == t2[k - t1.len()]);
            assert(s2.contains(t2[k - t1.len()]));
            let j = choose|j: int| 0 <= j < s2.len() && s2[j] == t2[k - t1.len()];
            assert(s[j + s1.len()] == t[k]);
        }
    }
    assert forall|j: int| 0 <= j < s.len() && #[trigger] on_frontier(s, s[j]) implies exists|k: int|
        0 <= k < t.len() && #[trigger] same_pair(t[k], s[j]) by {
        if j < s1.len() {
            assert(s[j] == s1[j]);
            assert forall|l: int| 0 <= l < s1.len() && #[trigger] weakly_below(s1[l], s1[j]) implies same_pair(
                s1[l],
                s1[j],
            ) by {
                assert(s[l] == s1[l]);
            }
            assert(on_frontier(s1, s1[j]));
            let k = choose|k: int| 0 <= k < t1.len() && #[trigger] same_pair(t1[k], s1[j]);
            assert(t[k] == t1[k]);
            assert(same_pair(t[k], s[j]));
        } else {
            let j2 = j - s1.len();
            assert(s[j] == s2[j2]);
            assert forall|l: int| 0 <= l < s2.len() && #[trigger] weakly_below(s2[l], s2[j2]) implies same_pair(
                s2[l],
                s2[j2],
            ) by {
                assert(s[l + s1.len()] == s2[l]);
            }
            assert(on_frontier(s2, s2[j2]));
            let k = choose|k: int| 0 <= k < t2.len() && #[trigger] same_pair(t2[k], s2[j2]);
            assert(t[k + t1.len()] == t2[k]);
            assert(same_pair(t[k + t1.len()], s[j]));
        }
    }
}

/// A sequence covers itself (points carried over unfiltered).
pub proof fn lemma_covers_self(s: Seq<Point>)
    ensures
        covers(s, s),
{
    assert forall|k: int| 0 <= k < s.len() implies s.contains(#[trigger] s[k]) by {
    }
    assert forall|j: int| 0 <= j < s.len() && #[trigger] on_frontier(s, s[j]) implies exists|k: int|
        0 <= k < s.len() && #[trigger] same_pair(s[k], s[j]) by {
        assert(same_pair(s[j], s[j]));
    }
}


/// In the order by size, `s[i]` comes before `s[j]` (the earlier index first
/// among points of equal size).
pub open spec fn size_precedes(s: Seq<Point>, i: int, j: int) -> bool {
    s[i].lambda_key < s[j].lambda_key || (s[i].lambda_key == s[j].lambda_key && i < j)
}

/// `out` is `s[idx[0]], s[idx[1]], ...`, where `idx` lists in order of size
/// the indices of the `out.len()` smallest points of `s`.
pub open spec fn smallest_by_size(s: Seq<Point>, idx: Seq<int>, out: Seq<Point>) -> bool {
    &&& idx.len() == out.len()
    &&& forall|k: int| #![trigger idx[k]] 0 <= k < idx.len() ==> 0 <= idx[k] < s.len() && out[k] == s[idx[k]]
    &&& forall|k1: int, k2: int|
        0 <= k1 < k2 < idx.len() ==> size_precedes(s, #[trigger] idx[k1], #[trigger] idx[k2])
    &&& forall|j: int, k: int|
        0 <= j < s.len() && 0 <= k < idx.len() && !idx.contains(j) ==> #[trigger] size_precedes(
            s,
            idx[k],
            j,
        )
}

/// The `limit` points of smallest size, smallest first.
pub fn smallest_points(points: &Vec<Point>, limit: usize) -> (out: Vec<Point>)
    ensures
        out.len() == if limit < points.len() {
            limit as int
        } else {
            points.len() as int
        },
        exists|idx: Seq<int>| smallest_by_size(points@, idx, out@),
        smallest_law(points@, out@),
{
    let n = points.len();
    let mut triples: Vec<(u64, u64, u64)> = Vec::new();
    for i in 0..n
        invariant
            n == points.len(),
            triples.len() == i,
            forall|j: int| 0 <= j < i ==> #[trigger] triples@[j] == (points@[j].lambda_key, j as u64, 0u64),
    {
        triples.push((points[i].lambda_key, i as u64, 0));
    }
    let ghost u = triples@;
    proof {
        assert forall|a: int, b: int| 0 <= a < u.len() && 0 <= b < u.len() && a != b implies u[a]
            != u[b] by {
            assert(u[a].1 != u[b].1);
        }
    }
    sort_triples(&mut triples);
    let ghost t = triples@;
    proof {
        lemma_rearrangement(u, t);
        assert forall|m: int| #![trigger t[m]] 0 <= m < t.len() implies t[m].1 < n && t[m]
            == (points@[t[m].1 as int].lambda_key, t[m].1, 0u64) by {
            assert(u.contains(t[m]));
            let j = choose|j: int| 0 <= j < u.len() && u[j] == t[m];
        }
    }
    let count = if limit < n {
        limit
    } else {
        n
    };
    let mut out: Vec<Point> = Vec::new();
    for k in 0..count
        invariant
            count <= n,
            n == points.len(),
            triples@ == t,
            t.len() == n,
            forall|m: int|
                #![trigger t[m]]
                0 <= m < t.len() ==> t[m].1 < n && t[m] == (points@[t[m].1 as int].lambda_key, t[m].1, 0u64),
            out.len() == k,
            forall|i: int| 0 <= i < k ==> #[trigger] out@[i] == points@[t[i].1 as int],
    {
        let idx = triples[k].1;
        out.push(points[idx as usize]);
    }
    let ghost idx = Seq::new(count as nat, |k: int| t[k].1 as int);
    proof {
        assert forall|k1: int, k2: int| 0 <= k1 < k2 < idx.len() implies size_precedes(
            points@,
            #[trigger] idx[k1],
            #[trigger] idx[k2],
        ) by {
            assert(triple_le(t[k1], t[k2]));
            assert(t[k1] != t[k2]);
        }
        assert forall|j: int, k: int|
            0 <= j < n && 0 <= k < idx.len() && !idx.contains(j) implies #[trigger] size_precedes(
            points@,
            idx[k],
            j,
        ) by {
            assert(t.contains(u[j]));
            let m = choose|m: int| 0 <= m < t.len() && t[m] == u[j];
            if m < count {
                assert(idx[m] == j);
            }
            assert(triple_le(t[k], t[m]));
            assert(t[k] != t[m]);
        }
        assert(smallest_by_size(points@, idx, out@));
        lemma_smallest_law(points@, idx, out@);
    }
    out
}


/// Two sequences with the same points, each by strictly increasing height,
/// are the same sequence.
proof fn lemma_same_points_by_height(a: Seq<Point>, b: Seq<Point>)
    requires
        forall|x: Point| a.contains(x) <==> b.contains(x),
        forall|k1: int, k2: int| 0 <= k1 < k2 < a.len() ==> (#[trigger] a[k1]).b_max < (#[trigger] a[k2]).b_max,
        forall|k1: int, k2: int| 0 <= k1 < k2 < b.len() ==> (#[trigger] b[k1]).b_max < (#[trigger] b[k2]).b_max,
    ensures
        a == b,
    decreases a.len() + b.len(),
{
    if a.len() == 0 {
        if b.len() > 0 {
            assert(b.contains(b[0]));
        }
        assert(a =~= b);
    } else if b.len() == 0 {
        assert(a.contains(a[0]));
    } else {
        assert(a.contains(a[0]));
        assert(b.contains(b[0]));
        let i = choose|i: int| 0 <= i < b.len() && b[i] == a[0];
        let i2 = choose|i2: int| 0 <= i2 < a.len() && a[i2] == b[0];
        if i2 > 0 {
            assert(a[0].b_max < a[i2].b_max);
            if i > 0 {
                assert(b[0].b_max < b[i].b_max);
            }
        }
        assert(a[0] == b[0]);
        let ta = a.drop_first();
        let tb = b.drop_first();
        assert forall|x: Point| ta.contains(x) implies tb.contains(x) by {
            let m = choose|m: int| 0 <= m < ta.len() && ta[m] == x;
            assert(a[m + 1] == x);
            assert(a.contains(x));
            let l = choose|l: int| 0 <= l < b.len() && b[l] == x;
            if l == 0 {
                assert(a[0].b_max < a[m + 1].b_max);
            }
            assert(tb[l - 1] == x);
        }
        assert forall|x: Point| tb.contains(x) implies ta.contains(x) by {
            let m = choose|m: int| 0 <= m < tb.len() && tb[m] == x;
            assert(b[m + 1] == x);
            assert(b.contains(x));
            let l = choose|l: int| 0 <= l < a.len() && a[l] == x;
            if l == 0 {
                assert(b[0].b_max < b[m + 1].b_max);
            }
            assert(ta[l - 1] == x);
        }
        assert forall|k1: int, k2: int| 0 <= k1 < k2 < ta.len() implies (#[trigger] ta[k1]).b_max < (
        #[trigger] ta[k2]).b_max by {
            assert(ta[k1] == a[k1 + 1] && ta[k2] == a[k2 + 1]);
        }
        assert forall|k1: int, k2: int| 0 <= k1 < k2 < tb.len() implies (#[trigger] tb[k1]).b_max < (
        #[trigger] tb[k2]).b_max by {
            assert(tb[k1] == b[k1 + 1] && tb[k2] == b[k2 + 1]);
        }
        lemma_same_points_by_height(ta, tb);
        assert(a =~= seq![a[0]] + ta);
        assert(b =~= seq![b[0]] + tb);
    }
}

/// A set of points has exactly one frontier.
pub proof fn lemma_frontier_unique(s: Seq<Point>, a: Seq<Point>, b: Seq<Point>)
    requires
        is_frontier_of(s, a),
        is_frontier_of(s, b),
    ensures
        a == b,
{
    assert forall|x: Point| a.contains(x) implies b.contains(x) by {
        let k = choose|k: int| 0 <= k < a.len() && a[k] == x;
        assert(drawn_from_frontier(s, a[k]));
        let j = choose|j: int| #[trigger] frontier_member(s, j) && s[j] == a[k];
    }
    assert forall|x: Point| b.contains(x) implies a.contains(x) by {
        let k = choose|k: int| 0 <= k < b.len() && b[k] == x;
        assert(drawn_from_frontier(s, b[k]));
        let j = choose|j: int| #[trigger] frontier_member(s, j) && s[j] == b[k];
    }
    lemma_same_points_by_height(a, b);
}

/// The frontier of a frontier is that frontier: filtering twice changes
/// nothing.
pub proof fn lemma_frontier_idempotent(s: Seq<Point>, f: Seq<Point>, g: Seq<Point>)
    requires
        is_frontier_of(s, f),
        is_frontier_of(f, g),
    ensures
        g == f,
{
    assert forall|k: int| 0 <= k < f.len() implies #[trigger] drawn_from_frontier(f, f[k]) by {
        assert(drawn_from_frontier(s, f[k]));
        let j = choose|j: int| #[trigger] frontier_member(s, j) && s[j] == f[k];
        assert forall|l: int| 0 <= l < f.len() && #[trigger] weakly_below(f[l], f[k]) implies same_pair(
            f[l],
            f[k],
        ) by {
            if l < k {
                assert(f[l].lambda_key > f[k].lambda_key);
            } else if l > k {
                assert(f[k].b_max < f[l].b_max);
            }
        }
        assert forall|i: int| 0 <= i < k implies !same_pair(#[trigger] f[i], f[k]) by {
            assert(f[i].b_max < f[k].b_max);
        }
        assert(frontier_member(f, k));
    }
    assert forall|j: int| #[trigger] frontier_member(f, j) implies f.contains(f[j]) by {
    }
    assert(is_frontier_of(f, f));
    lemma_frontier_unique(f, g, f);
}


/// What the frontier is for, in plain comparisons: every point kept is a
/// sampled point of finite size; no sampled point is at most as high and at
/// most as large as a kept one without having its height and size; every
/// sampled point of finite size is matched or beaten on both by a kept one;
/// and the kept points rise in height while they fall in size.
pub open spec fn frontier_law(s: Seq<Point>, out: Seq<Point>) -> bool {
    &&& forall|k: int| 0 <= k < out.len() ==> s.contains(#[trigger] out[k]) && out[k].lambda_key < INFINITY_KEY
    &&& forall|k: int, j: int|
        0 <= k < out.len() && 0 <= j < s.len() && (#[trigger] s[j]).b_max <= (#[trigger] out[k]).b_max
            && s[j].lambda_key <= out[k].lambda_key ==> s[j].b_max == out[k].b_max && s[j].lambda_key
            == out[k].lambda_key
    &&& forall|j: int|
        0 <= j < s.len() && (#[trigger] s[j]).lambda_key < INFINITY_KEY ==> exists|k: int|
            0 <= k < out.len() && (#[trigger] out[k]).b_max <= s[j].b_max && out[k].lambda_key <= s[j].lambda_key
    &&& forall|k1: int, k2: int|
        0 <= k1 < k2 < out.len() ==> (#[trigger] out[k1]).b_max < (#[trigger] out[k2]).b_max
            && out[k1].lambda_key > out[k2].lambda_key
}

/// The frontier of a set of points obeys the frontier law.
pub proof fn lemma_frontier_law(s: Seq<Point>, out: Seq<Point>)
    requires
        is_frontier_of(s, out),
    ensures
        frontier_law(s, out),
{
    assert forall|k: int| 0 <= k < out.len() implies s.contains(#[trigger] out[k]) && out[k].lambda_key
        < INFINITY_KEY by {
        assert(drawn_from_frontier(s, out[k]));
        let j = choose|j: int| #[trigger] frontier_member(s, j) && s[j] == out[k];
        assert(s[j] == out[k]);
    }
    assert forall|k: int, j: int|
        0 <= k < out.len() && 0 <= j < s.len() && (#[trigger] s[j]).b_max <= (#[trigger] out[k]).b_max
            && s[j].lambda_key <= out[k].lambda_key implies s[j].b_max == out[k].b_max && s[j].lambda_key
        == out[k].lambda_key by {
        assert(drawn_from_frontier(s, out[k]));
        let m = choose|m: int| #[trigger] frontier_member(s, m) && s[m] == out[k];
        assert(weakly_below(s[j], s[m]));
    }
    assert forall|j: int| 0 <= j < s.len() && (#[trigger] s[j]).lambda_key < INFINITY_KEY implies exists|k: int|
        0 <= k < out.len() && (#[trigger] out[k]).b_max <= s[j].b_max && out[k].lambda_key <= s[j].lambda_key by {
        let i = lemma_frontier_point_below(s, j);
        let i0 = lemma_first_of_pair(s, i);
        assert(frontier_member(s, i0));
        assert(out.contains(s[i0]));
        let k = choose|k: int| 0 <= k < out.len() && out[k] == s[i0];
        assert(out[k].b_max <= s[j].b_max && out[k].lambda_key <= s[j].lambda_key);
    }
}


/// What the list of smallest points is, in plain comparisons: it is made of
/// distinct positions of `s`, in order of size, and no point left out is
/// smaller than a point taken.
pub open spec fn smallest_law(s: Seq<Point>, out: Seq<Point>) -> bool {
    exists|idx: Seq<int>|
        {
            &&& idx.len() == out.len()
            &&& forall|k: int| #![trigger idx[k]] 0 <= k < idx.len() ==> 0 <= idx[k] < s.len() && out[k] == s[idx[k]]
            &&& forall|k1: int, k2: int|
                0 <= k1 < k2 < idx.len() ==> #[trigger] idx[k1] != #[trigger] idx[k2]
            &&& forall|k1: int, k2: int|
                0 <= k1 < k2 < out.len() ==> (#[trigger] out[k1]).lambda_key <= (#[trigger] out[k2]).lambda_key
            &&& forall|j: int, k: int|
                0 <= j < s.len() && 0 <= k < out.len() && !idx.contains(j) ==> (#[trigger] s[j]).lambda_key
                    >= (#[trigger] out[k]).lambda_key
        }
}

/// The smallest points by size obey the law of smallest points.
pub proof fn lemma_smallest_law(s: Seq<Point>, idx: Seq<int>, out: Seq<Point>)
    requires
        smallest_by_size(s, idx, out),
    ensures
        smallest_law(s, out),
{
    assert forall|k1: int, k2: int| 0 <= k1 < k2 < idx.len() implies #[trigger] idx[k1] != #[trigger] idx[k2] by {
        assert(size_precedes(s, idx[k1], idx[k2]));
    }
    assert forall|k1: int, k2: int| 0 <= k1 < k2 < out.len() implies (#[trigger] out[k1]).lambda_key <= (
    #[trigger] out[k2]).lambda_key by {
        assert(size_precedes(s, idx[k1], idx[k2]));
        assert(out[k1] == s[idx[k1]] && out[k2] == s[idx[k2]]);
    }
    assert forall|j: int, k: int| 0 <= j < s.len() && 0 <= k < out.len() && !idx.contains(j) implies (
    #[trigger] s[j]).lambda_key >= (#[trigger] out[k]).lambda_key by {
        assert(size_precedes(s, idx[k], j));
        assert(out[k] == s[idx[k]]);
    }
}

} // verus!
