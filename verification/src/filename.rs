//! File names for a run, made from the expressions of `α1` and `α2`.
use vstd::prelude::*;

verus! {

broadcast use vstd::string::group_string_axioms;

/// The Unicode `White_Space` property: `U+0009 ..= U+000D`, `U+0020`,
/// `U+0085`, `U+00A0`, `U+1680`, `U+2000 ..= U+200A`, `U+2028`, `U+2029`,
/// `U+202F`, `U+205F` and `U+3000`.
pub open spec fn is_white_space(c: char) -> bool {
    let v = c as u32;
    ||| 0x09 <= v <= 0x0d
    ||| v == 0x20
    ||| v == 0x85
    ||| v == 0xa0
    ||| v == 0x1680
    ||| 0x2000 <= v <= 0x200a
    ||| v == 0x2028
    ||| v == 0x2029
    ||| v == 0x202f
    ||| v == 0x205f
    ||| v == 0x3000
}

/// `char::is_whitespace`, which its documentation defines as having the
/// Unicode `White_Space` property; the contract lists those code points.
#[verifier::external_body]
fn char_is_whitespace(c: char) -> (r: bool)
    ensures
        r == is_white_space(c),
{
    c.is_whitespace()
}

/// `String::push`, which appends one character at the end.
#[verifier::external_body]
fn push_char(s: &mut String, c: char)
    ensures
        final(s)@ == old(s)@.push(c),
{
    s.push(c);
}

/// The character that stands for `c` in a file name: a slash or backslash
/// becomes the division slash `∕` (U+2215), white space becomes `_`, and
/// anything else stays.
pub open spec fn filename_char(c: char) -> char {
    if c == '/' || c == '\\' {
        '\u{2215}'
    } else if is_white_space(c) {
        '_'
    } else {
        c
    }
}

/// `t` is `s` made fit for a file name, character by character: a slash or
/// backslash becomes `∕` (U+2215), white space becomes `_`, and every other
/// character is kept as it is; in particular every ASCII character other than
/// `/` (0x2F), `\` (0x5C), space (0x20) and tab to carriage return (0x09 to 0x0D).
pub open spec fn renamed_for_files(s: Seq<char>, t: Seq<char>) -> bool {
    &&& t.len() == s.len()
    &&& forall|i: int| 0 <= i < s.len() && (s[i] == '/' || s[i] == '\\') ==> #[trigger] t[i] == '\u{2215}'
    &&& forall|i: int| 0 <= i < s.len() && is_white_space(s[i]) ==> #[trigger] t[i] == '_'
    &&& forall|i: int|
        0 <= i < s.len() && s[i] != '/' && s[i] != '\\' && !is_white_space(s[i]) ==> #[trigger] t[i] == s[i]
    &&& forall|i: int|
        0 <= i < s.len() && (s[i] as u32) < 0x80 && (s[i] as u32) != 0x2f && (s[i] as u32) != 0x5c && (s[i] as u32)
            != 0x20 && !(0x09 <= (s[i] as u32) && (s[i] as u32) <= 0x0d) ==> #[trigger] t[i] == s[i]
}

/// Making a text fit for a file name keeps its length, turns slashes and
/// backslashes into `∕` and white space into `_`, and keeps every other
/// character.
pub proof fn lemma_sanitized(s: Seq<char>)
    ensures
        renamed_for_files(s, s.map_values(|c: char| filename_char(c))),
{
    let t = s.map_values(|c: char| filename_char(c));
    assert forall|i: int|
        0 <= i < s.len() && (s[i] as u32) < 0x80 && (s[i] as u32) != 0x2f && (s[i] as u32) != 0x5c && (s[i] as u32)
            != 0x20 && !(0x09 <= (s[i] as u32) && (s[i] as u32) <= 0x0d) implies #[trigger] t[i] == s[i] by {
        assert(!is_white_space(s[i]));
        assert(s[i] != '/' && s[i] != '\\');
    }
}

/// `s` with each character replaced as `filename_char` says.
pub fn sanitize_for_filename(s: &str) -> (r: String)
    ensures
        r@ == s@.map_values(|c: char| filename_char(c)),
        renamed_for_files(s@, r@),
{
    proof {
        lemma_sanitized(s@);
    }
    let mut out = String::new();
    let n = s.unicode_len();
    for i in 0..n
        invariant
            n == s@.len(),
            out@ == s@.take(i as int).map_values(|c: char| filename_char(c)),
    {
        let c = s.get_char(i);
        let d = if c == '/' || c == '\\' {
            '\u{2215}'
        } else if char_is_whitespace(c) {
            '_'
        } else {
            c
        };
        push_char(&mut out, d);
        proof {
            assert(s@.take(i + 1) =~= s@.take(i as int).push(c));
            assert(out@ =~= s@.take(i + 1).map_values(|c: char| filename_char(c)));
        }
    }
    proof {
        assert(s@.take(n as int) =~= s@);
    }
    out
}


/// The decimal digit `d` as a character.
pub open spec fn digit_char(d: nat) -> char {
    (d + 48) as char
}

/// The decimal numeral of `n`, without leading zeros.
pub open spec fn decimal_spec(n: nat) -> Seq<char>
    decreases n,
{
    if n < 10 {
        seq![digit_char(n)]
    } else {
        decimal_spec(n / 10).push(digit_char(n % 10))
    }
}

/// The decimal numeral of `x`, with a minus sign when it is negative (as
/// `{}` formats an integer).
pub open spec fn signed_decimal_spec(x: int) -> Seq<char> {
    if x < 0 {
        seq!['-'] + decimal_spec((-x) as nat)
    } else {
        decimal_spec(x as nat)
    }
}

/// The number that a string of decimal digits spells.
pub open spec fn digits_value(d: Seq<char>) -> int
    decreases d.len(),
{
    if d.len() == 0 {
        0
    } else {
        digits_value(d.drop_last()) * 10 + (d.last() as int - 48)
    }
}

/// `d` is the decimal numeral of `n >= 0`: one or more digits `0`–`9`, without
/// a leading zero, spelling `n`.
pub open spec fn is_digits_of(n: int, d: Seq<char>) -> bool {
    &&& d.len() >= 1
    &&& forall|k: int| 0 <= k < d.len() ==> '0' <= #[trigger] d[k] <= '9'
    &&& digits_value(d) == n
    &&& d.len() > 1 ==> d[0] != '0'
}

/// `d` is the decimal numeral of `x`: a minus sign and the digits of `−x`
/// when `x` is negative, else the digits of `x`.
pub open spec fn is_numeral_of(x: int, d: Seq<char>) -> bool {
    if x < 0 {
        d.len() >= 1 && d[0] == '-' && is_digits_of(-x, d.drop_first())
    } else {
        is_digits_of(x, d)
    }
}

/// The numeral of `n` spells `n` in decimal digits without a leading zero.
pub proof fn lemma_decimal(n: nat)
    ensures
        is_digits_of(n as int, decimal_spec(n)),
    decreases n,
{
    let d = decimal_spec(n);
    if n < 10 {
        assert(d.drop_last() =~= Seq::<char>::empty());
        assert(digits_value(d.drop_last()) == 0);
    } else {
        lemma_decimal(n / 10);
        let p = decimal_spec(n / 10);
        assert(d.drop_last() =~= p);
        assert(d[0] == p[0]);
        assert forall|k: int| 0 <= k < d.len() implies '0' <= #[trigger] d[k] <= '9' by {
            if k < p.len() {
                assert(d[k] == p[k]);
            }
        }
        if n / 10 < 10 {
            assert(p[0] == digit_char(n / 10));
            assert(p[0] as int == n / 10 + 48);
            assert(p[0] != '0');
        } else {
            lemma_decimal(n / 10 / 10);
            assert(p.len() == decimal_spec(n / 10 / 10).len() + 1);
            assert(p[0] != '0');
        }
        assert(d[0] != '0');
    }
}

/// The signed numeral of `x` is its decimal numeral.
pub proof fn lemma_signed_decimal(x: int)
    ensures
        is_numeral_of(x, signed_decimal_spec(x)),
{
    if x < 0 {
        lemma_decimal((-x) as nat);
        assert((seq!['-'] + decimal_spec((-x) as nat)).drop_first() =~= decimal_spec((-x) as nat));
    } else {
        lemma_decimal(x as nat);
    }
}

/// Appends the decimal numeral of `x` to `out`.
pub fn push_decimal(out: &mut String, x: i64)
    ensures
        final(out)@ == old(out)@ + signed_decimal_spec(x as int),
        exists|d: Seq<char>| is_numeral_of(x as int, d) && final(out)@ == old(out)@ + d,
{
    proof {
        lemma_signed_decimal(x as int);
    }
    let ghost start = out@;
    let mut m: u64 = if x < 0 {
        (0i128 - x as i128) as u64
    } else {
        x as u64
    };
    let ghost n = m as nat;
    if x < 0 {
        push_char(out, '-');
    }
    let ghost prefix = out@;
    let mut rev: Vec<char> = Vec::new();
    let ghost mut suffix: Seq<char> = Seq::empty();
    while m >= 10
        invariant
            decimal_spec(n) == decimal_spec(m as nat) + suffix,
            suffix.len() == rev.len(),
            forall|j: int| 0 <= j < rev.len() ==> #[trigger] suffix[j] == rev@[rev.len() - 1 - j],
        decreases m,
    {
        let d = (m % 10) as u8;
        let c = (d + 48) as char;
        proof {
            assert(c == digit_char((m % 10) as nat));
            suffix = seq![c] + suffix;
        }
        rev.push(c);
        m = m / 10;
    }
    let c = ((m as u8) + 48) as char;
    push_char(out, c);
    let r = rev.len();
    let mut k = r;
    while k > 0
        invariant
            k <= r,
            r == rev.len(),
            suffix.len() == r,
            forall|j: int| 0 <= j < rev.len() ==> #[trigger] suffix[j] == rev@[rev.len() - 1 - j],
            out@ == prefix + seq![c] + suffix.take(r - k),
        decreases k,
    {
        k = k - 1;
        push_char(out, rev[k]);
        proof {
            assert(suffix.take(r - k) =~= suffix.take(r - k - 1).push(suffix[r - k - 1]));
        }
    }
    proof {
        assert(suffix.take(r as int) =~= suffix);
        assert(decimal_spec(m as nat) == seq![c]);
        if x < 0 {
            assert(prefix == start + seq!['-']);
        } else {
            assert(prefix == start);
        }
        assert(out@ =~= start + signed_decimal_spec(x as int));
    }
}

/// The name of a run's files:
/// `a1_{a1}_a2_{a2}_b1_{b1_min}_to_{b1_max}`, with the expressions made fit
/// for file names.
pub open spec fn run_name_spec(a1: Seq<char>, a2: Seq<char>, b1_min: int, b1_max: int) -> Seq<char> {
    "a1_"@ + a1.map_values(|c: char| filename_char(c)) + "_a2_"@ + a2.map_values(
        |c: char| filename_char(c),
    ) + "_b1_"@ + signed_decimal_spec(b1_min) + "_to_"@ + signed_decimal_spec(b1_max)
}

/// A run's name is `a1_`, then `a1` made fit for a file name, `_a2_`, then
/// `a2` made fit for a file name in the same way, then `_b1_`, the decimal
/// numeral of `b1_min`, `_to_` and the decimal numeral of `b1_max`.
pub open spec fn names_run(a1: Seq<char>, a2: Seq<char>, b1_min: int, b1_max: int, r: Seq<char>) -> bool {
    exists|t1: Seq<char>, t2: Seq<char>, d1: Seq<char>, d2: Seq<char>|
        renamed_for_files(a1, t1) && renamed_for_files(a2, t2) && is_numeral_of(b1_min, d1) && is_numeral_of(
            b1_max,
            d2,
        ) && r == "a1_"@ + t1 + "_a2_"@ + t2 + "_b1_"@ + d1 + "_to_"@ + d2
}

/// The name of a run treats both expressions alike.
pub proof fn lemma_run_name(a1: Seq<char>, a2: Seq<char>, b1_min: int, b1_max: int)
    ensures
        names_run(a1, a2, b1_min, b1_max, run_name_spec(a1, a2, b1_min, b1_max)),
{
    lemma_sanitized(a1);
    lemma_sanitized(a2);
    lemma_signed_decimal(b1_min);
    lemma_signed_decimal(b1_max);
    let t1 = a1.map_values(|c: char| filename_char(c));
    let t2 = a2.map_values(|c: char| filename_char(c));
    let d1 = signed_decimal_spec(b1_min);
    let d2 = signed_decimal_spec(b1_max);
    assert(renamed_for_files(a1, t1) && renamed_for_files(a2, t2) && is_numeral_of(b1_min, d1) && is_numeral_of(
        b1_max,
        d2,
    ) && run_name_spec(a1, a2, b1_min, b1_max) == "a1_"@ + t1 + "_a2_"@ + t2 + "_b1_"@ + d1 + "_to_"@ + d2);
}

/// The name of a run's directory and files.
pub fn run_name(a1: &str, a2: &str, b1_min: i64, b1_max: i64) -> (r: String)
    ensures
        r@ == run_name_spec(a1@, a2@, b1_min as int, b1_max as int),
        names_run(a1@, a2@, b1_min as int, b1_max as int, r@),
{
    proof {
        lemma_run_name(a1@, a2@, b1_min as int, b1_max as int);
    }
    let mut out = String::from_str("a1_");
    let s1 = sanitize_for_filename(a1);
    out.append(s1.as_str());
    out.append("_a2_");
    let s2 = sanitize_for_filename(a2);
    out.append(s2.as_str());
    out.append("_b1_");
    push_decimal(&mut out, b1_min);
    out.append("_to_");
    push_decimal(&mut out, b1_max);
    proof {
        assert(out@ =~= run_name_spec(a1@, a2@, b1_min as int, b1_max as int));
    }
    out
}

} // verus!
