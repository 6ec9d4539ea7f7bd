//! The values of `b1` that a run still has to sample.
use vstd::prelude::*;
use std::collections::HashSet;

verus! {

broadcast use vstd::std_specs::hash::group_hash_axioms;

/// `b1` is sampled: it is not zero and not among the values already done.
pub open spec fn is_pending(b: int, completed: Set<i64>) -> bool {
    b != 0 && !completed.contains(b as i64)
}

/// The pending values of `lo ..= hi`, in increasing order.
pub open spec fn pending_spec(lo: int, hi: int, completed: Set<i64>) -> Seq<i64>
    decreases hi - lo + 1,
{
    if hi < lo {
        Seq::empty()
    } else {
        pending_spec(lo, hi - 1, completed) + if is_pending(hi, completed) {
            seq![hi as i64]
        } else {
            Seq::<i64>::empty()
        }
    }
}

/// The values of `b1_min ..= b1_max`, in increasing order, without `0` and
/// without those in `completed` (already sampled in an earlier run).
pub fn pending_b1_values(b1_min: i64, b1_max: i64, completed: &HashSet<i64>) -> (out: Vec<i64>)
    ensures
        out@ == pending_spec(b1_min as int, b1_max as int, completed@),
        forall|x: i64|
            #[trigger] out@.contains(x) <==> b1_min <= x <= b1_max && x != 0 && !completed@.contains(x),
        forall|i: int, j: int| 0 <= i < j < out.len() ==> out@[i] < out@[j],
{
    proof {
        lemma_pending_values(b1_min as int, b1_max as int, completed@);
    }
    let mut out: Vec<i64> = Vec::new();
    if b1_min > b1_max {
        return out;
    }
    let mut b = b1_min;
    assert(pending_spec(b1_min as int, b1_min - 1, completed@) =~= Seq::<i64>::empty());
    loop
        invariant_except_break
            out@ == pending_spec(b1_min as int, b - 1, completed@),
        invariant
            b1_min <= b <= b1_max,
        ensures
            out@ == pending_spec(b1_min as int, b1_max as int, completed@),
        decreases b1_max - b,
    {
        if b != 0 && !completed.contains(&b) {
            out.push(b);
            assert(out@ =~= pending_spec(b1_min as int, b as int, completed@));
        } else {
            assert(out@ =~= pending_spec(b1_min as int, b as int, completed@));
        }
        if b == b1_max {
            break;
        }
        b = b + 1;
    }
    out
}


/// The values to sample are exactly those of `lo ..= hi` other than `0` and
/// the completed ones, each once, in increasing order.
pub proof fn lemma_pending_values(lo: int, hi: int, completed: Set<i64>)
    requires
        i64::MIN <= lo,
        hi <= i64::MAX,
    ensures
        forall|x: i64|
            #[trigger] pending_spec(lo, hi, completed).contains(x) <==> lo <= x <= hi && x != 0
                && !completed.contains(x),
        forall|i: int, j: int|
            0 <= i < j < pending_spec(lo, hi, completed).len() ==> pending_spec(lo, hi, completed)[i]
                < pending_spec(lo, hi, completed)[j],
        forall|i: int|
            0 <= i < pending_spec(lo, hi, completed).len() ==> lo <= #[trigger] pending_spec(lo, hi, completed)[i]
                <= hi,
    decreases hi - lo + 1,
{
    let s = pending_spec(lo, hi, completed);
    if hi >= lo {
        lemma_pending_values(lo, hi - 1, completed);
        let t = pending_spec(lo, hi - 1, completed);
        let keep = hi != 0 && !completed.contains(hi as i64);
        assert((hi as i64) as int == hi);
        if keep {
            assert(s == t + seq![hi as i64]);
            assert forall|x: i64| s.contains(x) <==> lo <= x <= hi && x != 0 && !completed.contains(x) by {
                if s.contains(x) {
                    let k = choose|k: int| 0 <= k < s.len() && s[k] == x;
                    if k < t.len() {
                        assert(t[k] == x);
                        assert(t.contains(x));
                        assert(lo <= x <= hi - 1 && x != 0 && !completed.contains(x));
                    } else {
                        assert(x == hi);
                    }
                    assert(lo <= x <= hi && x != 0 && !completed.contains(x));
                }
                if lo <= x <= hi && x != 0 && !completed.contains(x) {
                    if x == hi {
                        assert(s[t.len() as int] == x);
                    } else {
                        assert(t.contains(x));
                        let k = choose|k: int| 0 <= k < t.len() && t[k] == x;
                        assert(s[k] == x);
                    }
                    assert(s.contains(x));
                }
            }
            assert forall|i: int| 0 <= i < s.len() implies lo <= #[trigger] s[i] <= hi by {
                if i < t.len() {
                    assert(s[i] == t[i]);
                }
            }
            assert forall|i: int, j: int| 0 <= i < j < s.len() implies s[i] < s[j] by {
                assert(s[i] == t[i]);
                if j < t.len() {
                    assert(s[j] == t[j]);
                }
            }
        } else {
            assert(s =~= t);
            assert forall|x: i64| s.contains(x) <==> lo <= x <= hi && x != 0 && !completed.contains(x) by {
                if s.contains(x) {
                    assert(t.contains(x));
                }
                if lo <= x <= hi && x != 0 && !completed.contains(x) {
                    assert(x != hi);
                    assert(t.contains(x));
                }
            }
        }
    } else {
        assert(s =~= Seq::<i64>::empty());
    }
}

} // verus!
