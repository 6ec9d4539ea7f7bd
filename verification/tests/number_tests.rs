use lang_const_empirical::convergents::compute_convergents;
use lang_const_empirical::natural::Natural;

fn natural(x: u128) -> Natural {
    let mut limbs = Vec::new();
    let mut v = x;
    while v > 0 {
        limbs.push((v & 0xffff_ffff) as u32);
        v >>= 32;
    }
    Natural { limbs }
}

fn value(n: &Natural) -> u128 {
    let mut v: u128 = 0;
    for (i, l) in n.limbs.iter().enumerate() {
        if *l != 0 {
            v += (*l as u128) << (32 * i);
        }
    }
    v
}

#[test]
fn from_u64_and_zero() {
    assert_eq!(value(&Natural::from_u64(0)), 0);
    assert_eq!(value(&Natural::from_u64(u64::MAX)), u64::MAX as u128);
    assert!(Natural::from_u64(0).is_zero());
    assert!(Natural { limbs: vec![0, 0, 0] }.is_zero());
    assert!(!Natural { limbs: vec![0, 0, 1] }.is_zero());
}

#[test]
fn add_carries_across_limbs() {
    let a = natural(0xffff_ffff_ffff_ffff);
    let b = natural(1);
    assert_eq!(value(&a.add(&b)), 1u128 << 64);
    assert_eq!(value(&Natural { limbs: vec![] }.add(&natural(5))), 5);
}

#[test]
fn mul_limb_and_shift() {
    let a = natural(0xffff_ffff_ffff_ffff);
    assert_eq!(value(&a.mul_limb(0xffff_ffff)), 0xffff_ffff_ffff_ffffu128 * 0xffff_ffffu128);
    assert_eq!(value(&natural(3).shifted(2)), 3u128 << 64);
    assert_eq!(value(&natural(0).mul_limb(7)), 0);
}

#[test]
fn mul_add_is_exact() {
    let cases: [(u128, u128, u128); 5] = [
        (0, 0, 0),
        (1, 1, 1),
        (0xffff_ffff_ffff, 0xffff_ffff_ffff, 0xffff_ffff_ffff_ffff),
        (1u128 << 40, 123_456_789_012_345, 98_765),
        (u64::MAX as u128, u64::MAX as u128 - 1, u64::MAX as u128),
    ];
    for (a, b, c) in cases {
        let r = Natural::mul_add(&natural(a), &natural(b), &natural(c));
        assert_eq!(value(&r), a * b + c);
        assert!(r.limbs.last().map_or(true, |l| *l != 0));
    }
}

#[test]
fn trimmed_drops_top_zero_limbs() {
    let t = Natural { limbs: vec![5, 0, 0] }.trimmed();
    assert_eq!(t.limbs, vec![5]);
    assert!(Natural { limbs: vec![0, 0] }.trimmed().limbs.is_empty());
}

fn pairs(q: &[u128]) -> Vec<(u128, u128)> {
    let quotients: Vec<Natural> = q.iter().map(|x| natural(*x)).collect();
    compute_convergents(&quotients).iter().map(|(p, q)| (value(p), value(q))).collect()
}

#[test]
fn convergents_of_sqrt_two() {
    assert_eq!(pairs(&[1, 2, 2, 2, 2]), vec![(1, 1), (3, 2), (7, 5), (17, 12), (41, 29)]);
}

#[test]
fn convergents_of_golden_ratio_are_fibonacci() {
    let got = pairs(&[1; 10]);
    let fib = [1u128, 1, 2, 3, 5, 8, 13, 21, 34, 55, 89, 144];
    for (k, (p, q)) in got.iter().enumerate() {
        assert_eq!((*p, *q), (fib[k + 1], fib[k]));
    }
}

#[test]
fn convergents_of_a_number_below_one() {
    assert_eq!(pairs(&[0, 3, 7]), vec![(0, 1), (1, 3), (7, 22)]);
    assert!(pairs(&[]).is_empty());
}

#[test]
fn consecutive_convergents_have_determinant_one() {
    let q = [3u128, 7, 15, 1, 292, 1, 1, 1, 2, 1, 3, 1, 14];
    let c = pairs(&q);
    assert_eq!(c[3], (355, 113));
    for k in 1..c.len() {
        let (p1, q1) = c[k];
        let (p0, q0) = c[k - 1];
        let det = p1 as i128 * q0 as i128 - p0 as i128 * q1 as i128;
        assert_eq!(det, if k % 2 == 0 { -1 } else { 1 });
    }
}

#[test]
fn convergents_with_huge_quotients() {
    let big = 1u128 << 60;
    let got = pairs(&[big, big]);
    assert_eq!(got, vec![(big, 1), (big * big + 1, big)]);
}

fn gcd(a: u128, b: u128) -> u128 {
    if b == 0 { a } else { gcd(b, a % b) }
}

#[test]
fn convergents_are_in_lowest_terms() {
    for (p, q) in pairs(&[2, 1, 2, 1, 1, 4, 1, 1, 6, 1, 1, 8]) {
        assert_eq!(gcd(p, q), 1);
    }
}

#[test]
fn duplicate_keeps_the_limbs() {
    let a = Natural { limbs: vec![1, 0, 7, 0] };
    let b = a.duplicate();
    assert_eq!(b.limbs, a.limbs);
}

#[test]
fn more_quotients_only_extend_the_convergents() {
    let q = [2u128, 3, 1, 4, 1, 5, 9, 2, 6];
    let all = pairs(&q);
    for n in 0..=q.len() {
        assert_eq!(pairs(&q[..n]), all[..n].to_vec());
    }
}
