//! Convergents `p_k / q_k` of a continued fraction `[a_0; a_1, a_2, ...]`,
//! the best rational approximations of `|log α1 / log α2|`.
use vstd::prelude::*;
use crate::natural::{is_trimmed, Natural};

verus! {

/// Numerators of the convergents, shifted by two:
/// `cf_num(a, 0) = p_{-2} = 0`, `cf_num(a, 1) = p_{-1} = 1`, and
/// `cf_num(a, k + 2) = p_k = a_k·p_{k-1} + p_{k-2}`.
pub open spec fn cf_num(a: Seq<nat>, n: nat) -> nat
    decreases n,
{
    if n == 0 {
        0
    } else if n == 1 {
        1
    } else {
        a[n - 2] * cf_num(a, (n - 1) as nat) + cf_num(a, (n - 2) as nat)
    }
}

/// Denominators of the convergents, shifted by two:
/// `q_{-2} = 1`, `q_{-1} = 0`, `q_k = a_k·q_{k-1} + q_{k-2}`.
pub open spec fn cf_den(a: Seq<nat>, n: nat) -> nat
    decreases n,
{
    if n == 0 {
        1
    } else if n == 1 {
        0
    } else {
        a[n - 2] * cf_den(a, (n - 1) as nat) + cf_den(a, (n - 2) as nat)
    }
}

/// The partial quotients as numbers.
pub open spec fn quotient_values(quotients: Seq<Natural>) -> Seq<nat> {
    quotients.map_values(|x: Natural| x@)
}

/// `out` lists the convergents `(p_k, q_k)` of the continued fraction whose
/// partial quotients are `quotients`, one for each quotient, without zero
/// limbs at the top.
pub open spec fn are_convergents_of(quotients: Seq<Natural>, out: Seq<(Natural, Natural)>) -> bool {
    &&& out.len() == quotients.len()
    &&& forall|k: int|
        #![trigger out[k]]
        0 <= k < out.len() ==> out[k].0@ == cf_num(quotient_values(quotients), (k + 2) as nat)
            && out[k].1@ == cf_den(quotient_values(quotients), (k + 2) as nat) && is_trimmed(out[k].0)
            && is_trimmed(out[k].1)
}

/// The convergents `(p_k, q_k)` of the continued fraction whose partial
/// quotients are `quotients`, one for each quotient.
pub fn compute_convergents(quotients: &Vec<Natural>) -> (out: Vec<(Natural, Natural)>)
    ensures
        are_convergents_of(quotients@, out@),
        convergent_recurrence(quotients@, out@),
{
    let ghost a = quotient_values(quotients@);
    let n = quotients.len();
    let mut out: Vec<(Natural, Natural)> = Vec::new();
    let mut p_m2 = Natural::from_u64(0);
    let mut q_m2 = Natural::from_u64(1);
    let mut p_m1 = Natural::from_u64(1);
    let mut q_m1 = Natural::from_u64(0);
    for k in 0..n
        invariant
            n == quotients.len(),
            a == quotient_values(quotients@),
            out.len() == k,
            p_m2@ == cf_num(a, k as nat),
            q_m2@ == cf_den(a, k as nat),
            p_m1@ == cf_num(a, (k + 1) as nat),
            q_m1@ == cf_den(a, (k + 1) as nat),
            forall|i: int|
                #![trigger out@[i]]
                0 <= i < k ==> out@[i].0@ == cf_num(a, (i + 2) as nat) && out@[i].1@ == cf_den(
                    a,
                    (i + 2) as nat,
                ) && is_trimmed(out@[i].0) && is_trimmed(out@[i].1),
    {
        let quotient = &quotients[k];
        assert(quotient@ == a[k as int]);
        let p = Natural::mul_add(quotient, &p_m1, &p_m2);
        let q = Natural::mul_add(quotient, &q_m1, &q_m2);
        out.push((p.duplicate(), q.duplicate()));
        p_m2 = p_m1;
        p_m1 = p;
        q_m2 = q_m1;
        q_m1 = q;
    }
    proof {
        lemma_convergent_recurrence(quotients@, out@);
    }
    out
}

/// The determinant of consecutive convergents is `±1`:
/// `p_k·q_{k-1} − p_{k-1}·q_k = (−1)^(k+1)`, here with the shift by two
/// (`n = k + 1`).  It holds whatever the partial quotients are.
pub proof fn lemma_convergent_determinant(a: Seq<nat>, n: nat)
    ensures
        cf_num(a, n + 1) * cf_den(a, n) - cf_num(a, n) * cf_den(a, n + 1) == if n % 2 == 0 {
            1int
        } else {
            -1int
        },
    decreases n,
{
    if n > 0 {
        lemma_convergent_determinant(a, (n - 1) as nat);
        let x = a[n - 1];
        let p1 = cf_num(a, n);
        let p0 = cf_num(a, (n - 1) as nat);
        let q1 = cf_den(a, n);
        let q0 = cf_den(a, (n - 1) as nat);
        assert(cf_num(a, n + 1) == x * p1 + p0);
        assert(cf_den(a, n + 1) == x * q1 + q0);
        assert((x * p1 + p0) * q1 - p1 * (x * q1 + q0) == -(p1 * q0 - p0 * q1)) by (nonlinear_arith);
        assert(p1 * q0 - p0 * q1 == if (n - 1) as nat % 2 == 0 {
            1int
        } else {
            -1int
        });
        assert((n % 2 == 0) == ((n - 1) as nat % 2 == 1));
    } else {
        assert(cf_num(a, 1) == 1);
        assert(cf_den(a, 0) == 1);
        assert(cf_num(a, 0) == 0);
        assert(cf_den(a, 1) == 0);
    }
}

/// Every convergent is in lowest terms: no `d > 1` divides both `p_k` and `q_k`.
pub proof fn lemma_convergent_in_lowest_terms(a: Seq<nat>, n: nat, d: nat)
    requires
        d > 1,
    ensures
        !(cf_num(a, n) % d == 0 && cf_den(a, n) % d == 0),
{
    lemma_convergent_determinant(a, n);
    let p = cf_num(a, n) as int;
    let q = cf_den(a, n) as int;
    let p1 = cf_num(a, n + 1) as int;
    let q1 = cf_den(a, n + 1) as int;
    if p % (d as int) == 0 && q % (d as int) == 0 {
        let x = p / (d as int);
        let y = q / (d as int);
        assert(p == d * x) by (nonlinear_arith)
            requires
                p % (d as int) == 0,
                x == p / (d as int),
                d > 1,
        ;
        assert(q == d * y) by (nonlinear_arith)
            requires
                q % (d as int) == 0,
                y == q / (d as int),
                d > 1,
        ;
        let z = p1 * y - x * q1;
        assert(p1 * q - p * q1 == d * z) by (nonlinear_arith)
            requires
                p == d * x,
                q == d * y,
                z == p1 * y - x * q1,
        ;
        assert(false) by (nonlinear_arith)
            requires
                d * z == 1 || d * z == -1,
                d > 1,
        ;
    }
}


/// A convergent depends only on the quotients up to its own: sequences of
/// quotients that agree on a prefix have the same convergents over it.
pub proof fn lemma_convergents_of_prefix(a: Seq<nat>, b: Seq<nat>, n: nat)
    requires
        a.len() <= b.len(),
        forall|i: int| 0 <= i < a.len() ==> a[i] == b[i],
        n <= a.len() + 1,
    ensures
        cf_num(a, n) == cf_num(b, n),
        cf_den(a, n) == cf_den(b, n),
    decreases n,
{
    if n >= 2 {
        lemma_convergents_of_prefix(a, b, (n - 1) as nat);
        lemma_convergents_of_prefix(a, b, (n - 2) as nat);
        assert(a[n - 2] == b[n - 2]);
    }
}

/// Asking for more convergents only extends the list: when the quotients of
/// `short` begin those of `long`, the convergents computed from `short` are
/// the first ones computed from `long`.
pub proof fn lemma_convergent_list_prefix(
    short: Seq<Natural>,
    long: Seq<Natural>,
    short_out: Seq<(Natural, Natural)>,
    long_out: Seq<(Natural, Natural)>,
)
    requires
        short.len() <= long.len(),
        forall|i: int| 0 <= i < short.len() ==> (#[trigger] short[i])@ == long[i]@,
        are_convergents_of(short, short_out),
        are_convergents_of(long, long_out),
    ensures
        short_out.len() <= long_out.len(),
        forall|k: int|
            0 <= k < short_out.len() ==> (#[trigger] short_out[k]).0@ == long_out[k].0@ && short_out[k].1@
                == long_out[k].1@,
{
    let a = quotient_values(short);
    let b = quotient_values(long);
    assert forall|i: int| 0 <= i < a.len() implies a[i] == b[i] by {
        assert(short[i]@ == long[i]@);
    }
    assert forall|k: int| 0 <= k < short_out.len() implies (#[trigger] short_out[k]).0@
        == long_out[k].0@ && short_out[k].1@ == long_out[k].1@ by {
        lemma_convergents_of_prefix(a, b, (k + 2) as nat);
        assert(long_out[k].0@ == cf_num(b, (k + 2) as nat));
    }
}


/// The list of convergents in plain terms: one per quotient; the first is
/// `a_0 / 1`, the second `(a_1·a_0 + 1) / a_1`, and each later one is
/// `p_k = a_k·p_{k−1} + p_{k−2}` over `q_k = a_k·q_{k−1} + q_{k−2}`.
pub open spec fn convergent_recurrence(quotients: Seq<Natural>, out: Seq<(Natural, Natural)>) -> bool {
    &&& out.len() == quotients.len()
    &&& out.len() >= 1 ==> out[0].0@ == quotients[0]@ && out[0].1@ == 1
    &&& out.len() >= 2 ==> out[1].0@ == quotients[1]@ * quotients[0]@ + 1 && out[1].1@ == quotients[1]@
    &&& forall|k: int|
        2 <= k < out.len() ==> (#[trigger] out[k]).0@ == quotients[k]@ * out[k - 1].0@ + out[k - 2].0@
            && out[k].1@ == quotients[k]@ * out[k - 1].1@ + out[k - 2].1@
}

/// Convergents follow their recurrence.
pub proof fn lemma_convergent_recurrence(quotients: Seq<Natural>, out: Seq<(Natural, Natural)>)
    requires
        are_convergents_of(quotients, out),
    ensures
        convergent_recurrence(quotients, out),
{
    let a = quotient_values(quotients);
    assert(cf_num(a, 0) == 0 && cf_num(a, 1) == 1);
    assert(cf_den(a, 0) == 1 && cf_den(a, 1) == 0);
    assert(out.len() >= 1 ==> out[0].0@ == quotients[0]@ && out[0].1@ == 1) by {
        if out.len() >= 1 {
            assert(a[0] == quotients[0]@);
            assert(out[0].0@ == cf_num(a, 2));
            assert(cf_num(a, 2) == a[0] * 1 + 0);
            assert(cf_den(a, 2) == a[0] * 0 + 1);
            assert(out[0].1@ == cf_den(a, 2));
        }
    }
    assert(out.len() >= 2 ==> out[1].0@ == quotients[1]@ * quotients[0]@ + 1 && out[1].1@ == quotients[1]@) by {
        if out.len() >= 2 {
            assert(a[0] == quotients[0]@);
            assert(a[1] == quotients[1]@);
            assert(out[1].0@ == cf_num(a, 3));
            assert(out[1].1@ == cf_den(a, 3));
            assert(cf_num(a, 3) == a[1] * cf_num(a, 2) + cf_num(a, 1));
            assert(cf_den(a, 3) == a[1] * cf_den(a, 2) + cf_den(a, 1));
            assert(cf_num(a, 2) == a[0] * 1 + 0);
            assert(cf_den(a, 2) == a[0] * 0 + 1);
        }
    }
    assert forall|k: int| 2 <= k < out.len() implies (#[trigger] out[k]).0@ == quotients[k]@ * out[k - 1].0@
        + out[k - 2].0@ && out[k].1@ == quotients[k]@ * out[k - 1].1@ + out[k - 2].1@ by {
        assert(a[k] == quotients[k]@);
        assert(out[k].0@ == cf_num(a, (k + 2) as nat));
        assert(out[k - 1].0@ == cf_num(a, (k + 1) as nat));
        assert(out[k - 2].0@ == cf_num(a, k as nat));
        assert(out[k].1@ == cf_den(a, (k + 2) as nat));
        assert(out[k - 1].1@ == cf_den(a, (k + 1) as nat));
        assert(out[k - 2].1@ == cf_den(a, k as nat));
    }
}

} // verus!
