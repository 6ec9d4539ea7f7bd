//! Regimes of `C(ε)`: the runs of `ε` values over which one point of the
//! frontier dictates the constant.
//!
//! For each `ε` of the scan (by index `i`), `winners[i]` is the index in the
//! frontier of the point that attains the minimum.  A regime gathers the `ε`
//! values whose winning point has the same coefficients `(b1, b2)`: it runs
//! from the first such `ε` to the last, and is reported with the point that
//! won first.
use vstd::prelude::*;
use crate::point::Point;
use std::collections::HashMap;

verus! {

broadcast use vstd::std_specs::hash::group_hash_axioms;

/// One regime: the first and last index of the `ε` values it covers, and
/// its point.
#[derive(Clone, Copy, Debug, PartialEq, Eq, Structural)]
pub struct Regime {
    pub first: usize,
    pub last: usize,
    pub point: Point,
}

/// Every winner is an index into the frontier.
pub open spec fn winners_in_range(winners: Seq<usize>, pareto: Seq<Point>) -> bool {
    forall|i: int| 0 <= i < winners.len() ==> #[trigger] winners[i] < pareto.len()
}

/// The coefficients `(b1, b2)` of the point that won at `ε` index `i`.
pub open spec fn winner_key(winners: Seq<usize>, pareto: Seq<Point>, i: int) -> (i64, i64) {
    (pareto[winners[i] as int].b1, pareto[winners[i] as int].b2)
}

/// `r` is the regime of the coefficients that win at `r.first`, among the
/// first `n` values of `ε`: `r.first` and `r.last` are the first and last
/// index below `n` at which they win, and `r.point` is the winner at `r.first`.
pub open spec fn is_regime_within(winners: Seq<usize>, pareto: Seq<Point>, r: Regime, n: int) -> bool {
    &&& r.first <= r.last < n <= winners.len()
    &&& r.point == pareto[winners[r.first as int] as int]
    &&& winner_key(winners, pareto, r.last as int) == winner_key(winners, pareto, r.first as int)
    &&& forall|i: int|
        0 <= i < r.first ==> #[trigger] winner_key(winners, pareto, i) != winner_key(
            winners,
            pareto,
            r.first as int,
        )
    &&& forall|i: int|
        r.last < i < n ==> #[trigger] winner_key(winners, pareto, i) != winner_key(
            winners,
            pareto,
            r.first as int,
        )
}

/// `r` is a regime of the whole scan.
pub open spec fn is_regime(winners: Seq<usize>, pareto: Seq<Point>, r: Regime) -> bool {
    is_regime_within(winners, pareto, r, winners.len() as int)
}

/// The coefficients that win at `ε` index `i` are those of a regime of `regimes`.
pub open spec fn key_covered(winners: Seq<usize>, pareto: Seq<Point>, regimes: Seq<Regime>, i: int) -> bool {
    exists|k: int|
        0 <= k < regimes.len() && #[trigger] winner_key(winners, pareto, regimes[k].first as int)
            == winner_key(winners, pareto, i)
}

/// `out` is the list of regimes of the scan, ordered as `ascending` says.
pub open spec fn are_regimes_of(winners: Seq<usize>, pareto: Seq<Point>, out: Seq<Regime>, ascending: bool) -> bool {
    &&& forall|k: int| 0 <= k < out.len() ==> is_regime(winners, pareto, #[trigger] out[k])
    &&& forall|i: int| 0 <= i < winners.len() ==> #[trigger] key_covered(winners, pareto, out, i)
    &&& forall|k1: int, k2: int|
        0 <= k1 < k2 < out.len() ==> if ascending {
            (#[trigger] out[k1]).first < (#[trigger] out[k2]).first
        } else {
            out[k1].first > out[k2].first
        }
}

/// The coefficients `(b1, b2)` as one integer; distinct pairs give distinct
/// integers.
pub open spec fn coefficient_key(b1: i64, b2: i64) -> int {
    b1 * 0x1_0000_0000_0000_0000 + (b2 + 0x8000_0000_0000_0000)
}

/// The key of a point's coefficients, as the index of regimes holds it.
pub open spec fn point_key(p: Point) -> i128 {
    coefficient_key(p.b1, p.b2) as i128
}

proof fn lemma_point_key_injective(x: Point, y: Point)
    requires
        point_key(x) == point_key(y),
    ensures
        x.b1 == y.b1 && x.b2 == y.b2,
{
    let kx = coefficient_key(x.b1, x.b2);
    let ky = coefficient_key(y.b1, y.b2);
    assert(kx == point_key(x) as int);
    assert(ky == point_key(y) as int);
    assert(x.b1 == y.b1) by (nonlinear_arith)
        requires
            x.b1 * 0x1_0000_0000_0000_0000 + (x.b2 + 0x8000_0000_0000_0000) == y.b1 * 0x1_0000_0000_0000_0000
                + (y.b2 + 0x8000_0000_0000_0000),
            -0x8000_0000_0000_0000 <= x.b2 < 0x8000_0000_0000_0000,
            -0x8000_0000_0000_0000 <= y.b2 < 0x8000_0000_0000_0000,
    ;
}

/// Executable form of `point_key`.
fn coefficient_key_of(b1: i64, b2: i64) -> (k: i128)
    ensures
        k == coefficient_key(b1, b2),
{
    (b1 as i128) * 0x1_0000_0000_0000_0000i128 + (b2 as i128 + 0x8000_0000_0000_0000i128)
}

/// `index` maps the key of each regime's coefficients to the regime's position.
pub open spec fn indexes(index: Map<i128, usize>, regimes: Seq<Regime>) -> bool {
    &&& forall|k: int|
        #![trigger regimes[k]]
        0 <= k < regimes.len() ==> index.contains_key(point_key(regimes[k].point)) && index[point_key(
            regimes[k].point,
        )] == k
    &&& forall|key: i128|
        #[trigger] index.contains_key(key) ==> index[key] < regimes.len() && point_key(
            regimes[index[key] as int].point,
        ) == key
}

/// The position of the regime whose point has coefficients `(b1, b2)`, if any.
fn find_regime(regimes: &Vec<Regime>, index: &HashMap<i128, usize>, b1: i64, b2: i64) -> (r: Option<usize>)
    requires
        indexes(index@, regimes@),
    ensures
        r matches Some(g) ==> g < regimes.len() && regimes@[g as int].point.b1 == b1
            && regimes@[g as int].point.b2 == b2,
        r is None ==> forall|k: int|
            0 <= k < regimes.len() ==> !((#[trigger] regimes@[k]).point.b1 == b1 && regimes@[k].point.b2
                == b2),
{
    let key = coefficient_key_of(b1, b2);
    let probe = Point { b1, b2, b_max: 0, lambda_key: 0 };
    assert(point_key(probe) == key);
    match index.get(&key) {
        Some(g) => {
            proof {
                assert(index@.contains_key(key));
                lemma_point_key_injective(regimes@[*g as int].point, probe);
            }
            Some(*g)
        },
        None => {
            proof {
                assert forall|k: int| 0 <= k < regimes.len() implies !((#[trigger] regimes@[k]).point.b1
                    == b1 && regimes@[k].point.b2 == b2) by {
                    if regimes@[k].point.b1 == b1 && regimes@[k].point.b2 == b2 {
                        assert(index@.contains_key(point_key(regimes@[k].point)));
                    }
                }
            }
            None
        },
    }
}

/// The regimes of a scan of `ε`, ordered by their first `ε`: by increasing
/// index when `ascending` (the `ε` values increase with the index), by
/// decreasing index otherwise.
pub fn group_regimes(winners: &Vec<usize>, pareto: &Vec<Point>, ascending: bool) -> (out: Vec<Regime>)
    requires
        winners_in_range(winners@, pareto@),
    ensures
        are_regimes_of(winners@, pareto@, out@, ascending),
        regimes_law(winners@, pareto@, out@, ascending),
{
    let ghost w = winners@;
    let ghost p = pareto@;
    let n = winners.len();
    let mut groups: Vec<Regime> = Vec::new();
    let mut index: HashMap<i128, usize> = HashMap::new();
    for i in 0..n
        invariant
            n == winners.len(),
            indexes(index@, groups@),
            w == winners@,
            p == pareto@,
            winners_in_range(w, p),
            forall|k: int| 0 <= k < groups.len() ==> is_regime_within(w, p, #[trigger] groups@[k], i as int),
            forall|k1: int, k2: int|
                0 <= k1 < k2 < groups.len() ==> (#[trigger] groups@[k1]).first < (#[trigger] groups@[k2]).first,
            forall|j: int| 0 <= j < i ==> #[trigger] key_covered(w, p, groups@, j),
    {
        proof {
            assert(winners@[i as int] < pareto.len());
        }
        let point = pareto[winners[i]];
        let ghost key_i = winner_key(w, p, i as int);
        let ghost old_groups = groups@;
        match find_regime(&groups, &index, point.b1, point.b2) {
            Some(g) => {
                let r = groups[g];
                proof {
                    assert(is_regime_within(w, p, r, i as int));
                    assert(winner_key(w, p, r.first as int) == key_i);
                    assert forall|k: int| 0 <= k < old_groups.len() && k != g implies winner_key(
                        w,
                        p,
                        (#[trigger] old_groups[k]).first as int,
                    ) != key_i by {
                        assert(is_regime_within(w, p, old_groups[k], i as int));
                        if k < g {
                            assert(old_groups[k].first < r.first);
                        } else {
                            assert(r.first < old_groups[k].first);
                        }
                    }
                }
                groups.set(g, Regime { first: r.first, last: i, point: r.point });
                proof {
                    assert forall|k: int| 0 <= k < groups.len() implies #[trigger] groups@[k].point
                        == old_groups[k].point by {
                    }
                    assert(indexes(index@, groups@));
                    assert forall|k: int| 0 <= k < groups.len() implies is_regime_within(
                        w,
                        p,
                        #[trigger] groups@[k],
                        i + 1,
                    ) by {
                        if k != g {
                            assert(groups@[k] == old_groups[k]);
                            assert(is_regime_within(w, p, old_groups[k], i as int));
                            assert(winner_key(w, p, old_groups[k].first as int) != key_i);
                        }
                    }
                    assert forall|j: int| 0 <= j < i + 1 implies #[trigger] key_covered(w, p, groups@, j) by {
                        if j == i {
                            assert(winner_key(w, p, groups@[g as int].first as int) == key_i);
                        } else {
                            assert(key_covered(w, p, old_groups, j));
                            let k = choose|k: int|
                                0 <= k < old_groups.len() && #[trigger] winner_key(
                                    w,
                                    p,
                                    old_groups[k].first as int,
                                ) == winner_key(w, p, j);
                            assert(groups@[k].first == old_groups[k].first);
                        }
                    }
                }
            },
            None => {
                proof {
                    assert forall|j: int| 0 <= j < i implies #[trigger] winner_key(w, p, j) != key_i by {
                        assert(key_covered(w, p, old_groups, j));
                        let k = choose|k: int|
                            0 <= k < old_groups.len() && #[trigger] winner_key(w, p, old_groups[k].first as int)
                                == winner_key(w, p, j);
                        assert(is_regime_within(w, p, old_groups[k], i as int));
                    }
                }
                let ghost old_index = index@;
                let key = coefficient_key_of(point.b1, point.b2);
                proof {
                    assert(key == point_key(point));
                    assert(!old_index.contains_key(key)) by {
                        if old_index.contains_key(key) {
                            let g = old_index[key];
                            lemma_point_key_injective(old_groups[g as int].point, point);
                        }
                    }
                }
                index.insert(key, groups.len());
                groups.push(Regime { first: i, last: i, point });
                proof {
                    assert forall|key2: i128| #[trigger] index@.contains_key(key2) implies index@[key2] < groups.len()
                        && point_key(groups@[index@[key2] as int].point) == key2 by {
                        if key2 != key {
                            assert(old_index.contains_key(key2));
                            assert(groups@[old_index[key2] as int] == old_groups[old_index[key2] as int]);
                        }
                    }
                    assert forall|k: int| #![trigger groups@[k]] 0 <= k < groups.len() implies index@.contains_key(
                        point_key(groups@[k].point),
                    ) && index@[point_key(groups@[k].point)] == k by {
                        if k < old_groups.len() {
                            assert(groups@[k] == old_groups[k]);
                            assert(old_index.contains_key(point_key(old_groups[k].point)));
                            if point_key(old_groups[k].point) == key {
                                assert(false);
                            }
                        }
                    }
                    assert(indexes(index@, groups@));
                    assert forall|k: int| 0 <= k < groups.len() implies is_regime_within(
                        w,
                        p,
                        #[trigger] groups@[k],
                        i + 1,
                    ) by {
                        if k < old_groups.len() {
                            assert(groups@[k] == old_groups[k]);
                            assert(is_regime_within(w, p, old_groups[k], i as int));
                            if winner_key(w, p, old_groups[k].first as int) == key_i {
                                assert(old_groups[k].point.b1 == point.b1);
                            }
                        }
                    }
                    assert forall|j: int| 0 <= j < i + 1 implies #[trigger] key_covered(w, p, groups@, j) by {
                        if j == i {
                            assert(winner_key(w, p, groups@[old_groups.len() as int].first as int) == key_i);
                        } else {
                            assert(key_covered(w, p, old_groups, j));
                            let k = choose|k: int|
                                0 <= k < old_groups.len() && #[trigger] winner_key(
                                    w,
                                    p,
                                    old_groups[k].first as int,
                                ) == winner_key(w, p, j);
                            assert(groups@[k] == old_groups[k]);
                        }
                    }
                }
            },
        }
    }
    if ascending {
        proof {
            lemma_regimes_law(w, p, groups@, ascending);
        }
        return groups;
    }
    let m = groups.len();
    let mut out: Vec<Regime> = Vec::new();
    for k in 0..m
        invariant
            m == groups.len(),
            out.len() == k,
            forall|l: int| 0 <= l < k ==> #[trigger] out@[l] == groups@[m - 1 - l],
    {
        out.push(groups[m - 1 - k]);
    }
    proof {
        assert forall|i: int| 0 <= i < n implies #[trigger] key_covered(w, p, out@, i) by {
            assert(key_covered(w, p, groups@, i));
            let k = choose|k: int|
                0 <= k < groups.len() && #[trigger] winner_key(w, p, groups@[k].first as int) == winner_key(
                    w,
                    p,
                    i,
                );
            assert(out@[m - 1 - k] == groups@[k]);
        }
        assert forall|k1: int, k2: int| 0 <= k1 < k2 < out.len() implies (#[trigger] out@[k1]).first > (
        #[trigger] out@[k2]).first by {
            assert(out@[k1] == groups@[m - 1 - k1]);
            assert(out@[k2] == groups@[m - 1 - k2]);
        }
    }
    proof {
        lemma_regimes_law(w, p, out@, ascending);
    }
    out
}


/// Each value of `ε` lies in exactly one regime: the one of the coefficients
/// that win there, which runs over it.
pub proof fn lemma_one_regime_per_value(
    winners: Seq<usize>,
    pareto: Seq<Point>,
    out: Seq<Regime>,
    ascending: bool,
    i: int,
)
    requires
        are_regimes_of(winners, pareto, out, ascending),
        0 <= i < winners.len(),
    ensures
        exists|k: int|
            0 <= k < out.len() && out[k].first <= i <= out[k].last && #[trigger] winner_key(
                winners,
                pareto,
                out[k].first as int,
            ) == winner_key(winners, pareto, i),
        forall|k1: int, k2: int|
            0 <= k1 < out.len() && 0 <= k2 < out.len() && winner_key(winners, pareto, (#[trigger] out[k1]).first as int)
                == winner_key(winners, pareto, i) && winner_key(winners, pareto, (#[trigger] out[k2]).first as int)
                == winner_key(winners, pareto, i) ==> k1 == k2,
{
    assert(key_covered(winners, pareto, out, i));
    let k = choose|k: int|
        0 <= k < out.len() && #[trigger] winner_key(winners, pareto, out[k].first as int) == winner_key(
            winners,
            pareto,
            i,
        );
    assert(is_regime(winners, pareto, out[k]));
    assert(out[k].first <= i <= out[k].last);
    assert forall|k1: int, k2: int|
        0 <= k1 < out.len() && 0 <= k2 < out.len() && winner_key(winners, pareto, (#[trigger] out[k1]).first as int)
            == winner_key(winners, pareto, i) && winner_key(winners, pareto, (#[trigger] out[k2]).first as int)
            == winner_key(winners, pareto, i) implies k1 == k2 by {
        assert(is_regime(winners, pareto, out[k1]));
        assert(is_regime(winners, pareto, out[k2]));
        if k1 < k2 {
            assert(out[k1].first != out[k2].first);
        } else if k2 < k1 {
            assert(out[k1].first != out[k2].first);
        }
    }
}


/// `ε` index `i` lies in the run of a regime whose coefficients are those
/// that win at `i`.
pub open spec fn in_run_of_winner(winners: Seq<usize>, pareto: Seq<Point>, out: Seq<Regime>, i: int) -> bool {
    exists|k: int|
        0 <= k < out.len() && out[k].first <= i <= out[k].last && pareto[winners[i] as int].b1 == (
        #[trigger] out[k]).point.b1 && pareto[winners[i] as int].b2 == out[k].point.b2
}

/// The regimes in plain terms: each is reported with the point that wins at
/// its first `ε`; its coefficients win at its first and last `ε` and at no
/// `ε` before the first or after the last; each `ε` lies in the run of the
/// regime of the coefficients that win there; regimes are listed by their
/// first `ε`, increasing when `ascending`, else decreasing.
pub open spec fn regimes_law(winners: Seq<usize>, pareto: Seq<Point>, out: Seq<Regime>, ascending: bool) -> bool {
    &&& forall|k: int|
        #![trigger out[k]]
        0 <= k < out.len() ==> {
            &&& out[k].first <= out[k].last < winners.len()
            &&& out[k].point == pareto[winners[out[k].first as int] as int]
            &&& pareto[winners[out[k].last as int] as int].b1 == out[k].point.b1
            &&& pareto[winners[out[k].last as int] as int].b2 == out[k].point.b2
        }
    &&& forall|k: int, i: int|
        0 <= k < out.len() && 0 <= i < winners.len() && (i < out[k].first || out[k].last < i) ==> !(
        pareto[(#[trigger] winners[i]) as int].b1 == (#[trigger] out[k]).point.b1 && pareto[winners[i] as int].b2
            == out[k].point.b2)
    &&& forall|i: int| 0 <= i < winners.len() ==> #[trigger] in_run_of_winner(winners, pareto, out, i)
    &&& forall|k1: int, k2: int|
        0 <= k1 < k2 < out.len() ==> if ascending {
            (#[trigger] out[k1]).first < (#[trigger] out[k2]).first
        } else {
            out[k1].first > out[k2].first
        }
}

/// The regimes of a scan obey the law of regimes.
pub proof fn lemma_regimes_law(winners: Seq<usize>, pareto: Seq<Point>, out: Seq<Regime>, ascending: bool)
    requires
        are_regimes_of(winners, pareto, out, ascending),
    ensures
        regimes_law(winners, pareto, out, ascending),
{
    assert forall|k: int, i: int|
        0 <= k < out.len() && 0 <= i < winners.len() && (i < out[k].first || out[k].last < i) implies !(
        pareto[(#[trigger] winners[i]) as int].b1 == (#[trigger] out[k]).point.b1 && pareto[winners[i] as int].b2
            == out[k].point.b2) by {
        assert(is_regime(winners, pareto, out[k]));
        if pareto[winners[i] as int].b1 == out[k].point.b1 && pareto[winners[i] as int].b2 == out[k].point.b2 {
            assert(winner_key(winners, pareto, i) == winner_key(winners, pareto, out[k].first as int));
        }
    }
    assert forall|i: int| 0 <= i < winners.len() implies #[trigger] in_run_of_winner(winners, pareto, out, i) by {
        lemma_one_regime_per_value(winners, pareto, out, ascending, i);
        let k = choose|k: int|
            0 <= k < out.len() && out[k].first <= i <= out[k].last && #[trigger] winner_key(
                winners,
                pareto,
                out[k].first as int,
            ) == winner_key(winners, pareto, i);
        assert(is_regime(winners, pareto, out[k]));
        assert(out[k].point == pareto[winners[out[k].first as int] as int]);
        assert(out[k].first <= i <= out[k].last && pareto[winners[i] as int].b1 == out[k].point.b1
            && pareto[winners[i] as int].b2 == out[k].point.b2);
    }
    assert forall|k: int| #![trigger out[k]] 0 <= k < out.len() implies {
        &&& out[k].first <= out[k].last < winners.len()
        &&& out[k].point == pareto[winners[out[k].first as int] as int]
        &&& pareto[winners[out[k].last as int] as int].b1 == out[k].point.b1
        &&& pareto[winners[out[k].last as int] as int].b2 == out[k].point.b2
    } by {
        assert(is_regime(winners, pareto, out[k]));
    }
}

} // verus!
