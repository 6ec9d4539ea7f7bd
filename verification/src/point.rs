//! One sampled linear form: the coefficients `b1`, `b2`, their height `B`, and
//! the size of the form `|Λ| = |b1·log α1 + b2·log α2|`, held as an order key.
//!
//! `|Λ|` is a non-negative binary64 value (possibly `+∞` or NaN).  The library
//! never holds it as a float: it holds its IEEE-754 bit pattern.  For
//! non-negative values that pattern orders exactly as the values do, `+∞` has
//! the pattern `INFINITY_KEY`, and every NaN lies above it, so comparing keys
//! is comparing sizes.
use vstd::prelude::*;

verus! {

/// The order key of `+∞`: every finite non-negative size has a smaller key.
pub const INFINITY_KEY: u64 = 0x7ff0_0000_0000_0000;

/// A point `(b1, b2)` of the search with its height and the key of `|Λ|`.
#[derive(Clone, Copy, Debug, PartialEq, Eq, Structural)]
pub struct Point {
    pub b1: i64,
    pub b2: i64,
    /// `max(|b1|, |b2|)`, with `i64`'s wrapping absolute value.
    pub b_max: i64,
    /// Order key of `|Λ|` (its bit pattern).
    pub lambda_key: u64,
}

/// `i64` mapped onto `0 ..= u64::MAX` without changing its order.
pub open spec fn rank_of(b: i64) -> int {
    b as int + 0x8000_0000_0000_0000
}

/// Executable form of `rank_of`.
pub fn rank(b: i64) -> (r: u64)
    ensures
        r as int == rank_of(b),
{
    if b >= 0 {
        b as u64 + 0x8000_0000_0000_0000u64
    } else {
        (b + 0x7fff_ffff_ffff_ffffi64 + 1) as u64
    }
}

/// `x.wrapping_abs()` for `i64`: `|x|`, except that `i64::MIN` stays `i64::MIN`.
pub open spec fn wrapping_abs_spec(x: i64) -> i64 {
    if x == i64::MIN {
        x
    } else if x < 0 {
        (-x) as i64
    } else {
        x
    }
}

/// The height `B` that the search records for `(b1, b2)`:
/// `b1.wrapping_abs().max(b2.wrapping_abs())`.
pub open spec fn height_spec(b1: i64, b2: i64) -> i64 {
    let a1 = wrapping_abs_spec(b1);
    let a2 = wrapping_abs_spec(b2);
    if a1 >= a2 {
        a1
    } else {
        a2
    }
}

/// `x.wrapping_abs()`.
pub fn wrapping_abs(x: i64) -> (r: i64)
    ensures
        r == wrapping_abs_spec(x),
        x != i64::MIN ==> r >= 0 && (r == x || r == -x),
        x == i64::MIN ==> r == i64::MIN,
{
    proof {
        lemma_wrapping_abs(x);
    }
    if x == i64::MIN {
        x
    } else if x < 0 {
        -x
    } else {
        x
    }
}

/// The height `max(|b1|, |b2|)` of a point, as the search computes it.
pub fn height(b1: i64, b2: i64) -> (r: i64)
    ensures
        r == height_spec(b1, b2),
        b1 != i64::MIN && b2 != i64::MIN ==> r >= b1 && r >= -b1 && r >= b2 && r >= -b2 && (r == b1
            || r == -b1 || r == b2 || r == -b2),
{
    proof {
        if b1 != i64::MIN && b2 != i64::MIN {
            lemma_height_is_larger_magnitude(b1, b2);
        }
    }
    let a1 = wrapping_abs(b1);
    let a2 = wrapping_abs(b2);
    if a1 >= a2 {
        a1
    } else {
        a2
    }
}

/// The point recorded for `b1`, if any.
///
/// `b2` is the rounding down of `b1·ratio` when `floor_not_worse` (the form at
/// the rounding down is no larger than at the rounding up), else the rounding
/// up; `lambda_key` is the key of the size at that rounding.  When the rounding
/// taken does not fit in `i64`, no point is recorded: its size belongs to no
/// `b2` that a point could hold.
pub open spec fn chosen_point_spec(
    b1: i64,
    floor: Option<i64>,
    ceil: Option<i64>,
    floor_not_worse: bool,
    floor_key: u64,
    ceil_key: u64,
) -> Option<Point> {
    let rounded = if floor_not_worse {
        floor
    } else {
        ceil
    };
    match rounded {
        Some(b2) => Some(
            Point {
                b1,
                b2,
                b_max: height_spec(b1, b2),
                lambda_key: if floor_not_worse {
                    floor_key
                } else {
                    ceil_key
                },
            },
        ),
        None => None,
    }
}

/// Builds the point for `b1` from the two roundings of `b1·ratio` (`None` for
/// one that does not fit in `i64`) and the comparison of the form at them.
pub fn choose_point(
    b1: i64,
    floor: Option<i64>,
    ceil: Option<i64>,
    floor_not_worse: bool,
    floor_key: u64,
    ceil_key: u64,
) -> (p: Option<Point>)
    ensures
        p == chosen_point_spec(b1, floor, ceil, floor_not_worse, floor_key, ceil_key),
        p is Some <==> (if floor_not_worse {
            floor
        } else {
            ceil
        }) is Some,
        p matches Some(q) ==> {
            &&& q.b1 == b1
            &&& Some(q.b2) == if floor_not_worse {
                floor
            } else {
                ceil
            }
            &&& q.lambda_key == if floor_not_worse {
                floor_key
            } else {
                ceil_key
            }
            &&& q.b_max == height_spec(q.b1, q.b2)
        },
{
    proof {
        lemma_chosen_point(b1, floor, ceil, floor_not_worse, floor_key, ceil_key);
    }
    let (rounded, lambda_key) = if floor_not_worse {
        (floor, floor_key)
    } else {
        (ceil, ceil_key)
    };
    match rounded {
        Some(b2) => Some(Point { b1, b2, b_max: height(b1, b2), lambda_key }),
        None => None,
    }
}

/// A rounding negated: the rounding down of `−x` is minus the rounding up
/// of `x`, and the other way round.
pub open spec fn negated(rounded: Option<i64>) -> Option<i64> {
    match rounded {
        Some(v) => Some((-v) as i64),
        None => None,
    }
}

/// `wrapping_abs` is the magnitude, except at `i64::MIN`, which has none in
/// `i64` and is left as it is.
pub proof fn lemma_wrapping_abs(x: i64)
    ensures
        x != i64::MIN ==> wrapping_abs_spec(x) >= 0 && (wrapping_abs_spec(x) == x || wrapping_abs_spec(x) == -x),
        x == i64::MIN ==> wrapping_abs_spec(x) == i64::MIN,
{
}

/// The height is the larger magnitude: it is at least `|b1|` and `|b2|`
/// and equal to one of them.
pub proof fn lemma_height_is_larger_magnitude(b1: i64, b2: i64)
    requires
        b1 != i64::MIN,
        b2 != i64::MIN,
    ensures
        height_spec(b1, b2) >= b1,
        height_spec(b1, b2) >= -b1,
        height_spec(b1, b2) >= b2,
        height_spec(b1, b2) >= -b2,
        height_spec(b1, b2) == b1 || height_spec(b1, b2) == -b1 || height_spec(b1, b2) == b2
            || height_spec(b1, b2) == -b2,
{
}

/// With `i64::MIN`, which `wrapping_abs` leaves as it is, the height is the
/// magnitude of the other coefficient (or `i64::MIN` when both are).
pub proof fn lemma_height_with_min(b: i64)
    ensures
        height_spec(i64::MIN, b) == height_spec(b, i64::MIN),
        height_spec(i64::MIN, b) == if b == i64::MIN {
            i64::MIN as int
        } else if b < 0 {
            -b
        } else {
            b as int
        },
{
}

/// The point recorded for `b1` is `(b1, b2)` with `b2` the rounding taken,
/// the size key of that rounding, and the height of its own coefficients
/// `(b1, b2)`, whatever the other rounding is; nothing is recorded exactly
/// when the rounding taken does not fit in `i64`.
pub proof fn lemma_chosen_point(
    b1: i64,
    floor: Option<i64>,
    ceil: Option<i64>,
    floor_not_worse: bool,
    floor_key: u64,
    ceil_key: u64,
)
    ensures
        ({
            let taken = if floor_not_worse {
                floor
            } else {
                ceil
            };
            let r = chosen_point_spec(b1, floor, ceil, floor_not_worse, floor_key, ceil_key);
            &&& (r is Some <==> taken is Some)
            &&& r matches Some(p) ==> {
                &&& p.b1 == b1
                &&& Some(p.b2) == taken
                &&& p.lambda_key == if floor_not_worse {
                    floor_key
                } else {
                    ceil_key
                }
                &&& p.b_max == height_spec(p.b1, p.b2)
                &&& (p.b1 != i64::MIN && p.b2 != i64::MIN) ==> {
                    &&& p.b_max >= p.b1 && p.b_max >= -p.b1 && p.b_max >= p.b2 && p.b_max >= -p.b2
                    &&& p.b_max == p.b1 || p.b_max == -p.b1 || p.b_max == p.b2 || p.b_max == -p.b2
                }
            }
        }),
{
    let r = chosen_point_spec(b1, floor, ceil, floor_not_worse, floor_key, ceil_key);
    if r is Some {
        let p = r->0;
        if p.b1 != i64::MIN && p.b2 != i64::MIN {
            lemma_height_is_larger_magnitude(p.b1, p.b2);
        }
    }
}

/// The height does not see signs: `B(−b1, −b2) = B(b1, b2)`.
pub proof fn lemma_height_symmetric(b1: i64, b2: i64)
    requires
        b1 != i64::MIN,
        b2 != i64::MIN,
    ensures
        height_spec((-b1) as i64, (-b2) as i64) == height_spec(b1, b2),
{
}

/// Sampling `−b1` records the mirror image of the point of `b1`.
///
/// For `−b1` the roundings of `−b1·ratio` are the negated roundings of
/// `b1·ratio` with down and up exchanged, and (when the form takes different
/// sizes at them) so are the comparison and the two size keys.  The point
/// recorded then has `−b1`, `−b2`, the same height and the same size, and it
/// is recorded exactly when the point of `b1` is.
pub proof fn lemma_choose_point_symmetric(
    b1: i64,
    floor: Option<i64>,
    ceil: Option<i64>,
    floor_not_worse: bool,
    floor_key: u64,
    ceil_key: u64,
)
    requires
        b1 != i64::MIN,
        floor != Some(i64::MIN),
        ceil != Some(i64::MIN),
    ensures
        ({
            let r1 = chosen_point_spec(b1, floor, ceil, floor_not_worse, floor_key, ceil_key);
            let r2 = chosen_point_spec(
                (-b1) as i64,
                negated(ceil),
                negated(floor),
                !floor_not_worse,
                ceil_key,
                floor_key,
            );
            &&& (r1 is Some <==> r2 is Some)
            &&& r1 is Some ==> {
                let p1 = r1->0;
                let p2 = r2->0;
                &&& p2.b1 == -p1.b1
                &&& p2.b2 == -p1.b2
                &&& p2.b_max == p1.b_max
                &&& p2.lambda_key == p1.lambda_key
            }
        }),
{
    let r1 = chosen_point_spec(b1, floor, ceil, floor_not_worse, floor_key, ceil_key);
    if r1 is Some {
        let p1 = r1->0;
        lemma_height_symmetric(b1, p1.b2);
    }
}

} // verus!
