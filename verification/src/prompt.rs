//! What a line typed at a prompt gives: its text without surrounding white
//! space, or nothing when only white space was typed.
use vstd::prelude::*;
use crate::filename::is_white_space;

verus! {

/// `s` without its leading white space.
pub open spec fn trim_start_spec(s: Seq<char>) -> Seq<char>
    decreases s.len(),
{
    if s.len() > 0 && is_white_space(s[0]) {
        trim_start_spec(s.drop_first())
    } else {
        s
    }
}

/// `s` without its trailing white space.
pub open spec fn trim_end_spec(s: Seq<char>) -> Seq<char>
    decreases s.len(),
{
    if s.len() > 0 && is_white_space(s.last()) {
        trim_end_spec(s.drop_last())
    } else {
        s
    }
}

/// `s` without leading and trailing white space.
pub open spec fn trim_spec(s: Seq<char>) -> Seq<char> {
    trim_end_spec(trim_start_spec(s))
}

/// `str::trim`, which its documentation describes as removing leading and
/// trailing white space, white space being the Unicode `White_Space` property.
#[verifier::external_body]
fn str_trim(s: &str) -> (r: &str)
    ensures
        r@ == trim_spec(s@),
{
    s.trim()
}

/// The reply typed on `line`: `Some` of the line without surrounding white
/// space, or `None` when nothing but white space was typed (the prompt then
/// asks again, or takes its default).
pub fn prompt_reply(line: &str) -> (r: Option<String>)
    ensures
        match r {
            Some(v) => v@ == trim_spec(line@) && v@.len() > 0,
            None => trim_spec(line@).len() == 0,
        },
        match r {
            Some(v) => is_trim_of(line@, v@) && v@.len() > 0,
            None => forall|k: int| 0 <= k < line@.len() ==> is_white_space(#[trigger] line@[k]),
        },
{
    proof {
        lemma_trim(line@);
        if trim_spec(line@).len() == 0 {
            let (i, j) = choose|i: int, j: int| trim_at(line@, trim_spec(line@), i, j);
            assert forall|k: int| 0 <= k < line@.len() implies is_white_space(#[trigger] line@[k]) by {
                if k >= j {
                    assert(is_white_space(line@[k]));
                }
            }
        }
    }
    let trimmed = str_trim(line);
    if trimmed.is_empty() {
        None
    } else {
        Some(trimmed.to_owned())
    }
}


/// `t` is `s[i..j]`, everything outside it is white space, and it neither
/// begins nor ends with white space.
pub open spec fn trim_at(s: Seq<char>, t: Seq<char>, i: int, j: int) -> bool {
    &&& 0 <= i <= j <= s.len()
    &&& t == s.subrange(i, j)
    &&& forall|k: int| 0 <= k < i ==> is_white_space(#[trigger] s[k])
    &&& forall|k: int| j <= k < s.len() ==> is_white_space(#[trigger] s[k])
    &&& i < j ==> !is_white_space(s[i]) && !is_white_space(s[j - 1])
}

/// `t` is `s` without surrounding white space.
pub open spec fn is_trim_of(s: Seq<char>, t: Seq<char>) -> bool {
    exists|i: int, j: int| trim_at(s, t, i, j)
}

proof fn lemma_trim_start(s: Seq<char>) -> (i: int)
    ensures
        0 <= i <= s.len(),
        trim_start_spec(s) == s.subrange(i, s.len() as int),
        forall|k: int| 0 <= k < i ==> is_white_space(#[trigger] s[k]),
        i < s.len() ==> !is_white_space(s[i]),
    decreases s.len(),
{
    if s.len() > 0 && is_white_space(s[0]) {
        let i0 = lemma_trim_start(s.drop_first());
        assert(s.drop_first().subrange(i0, s.len() - 1) =~= s.subrange(i0 + 1, s.len() as int));
        assert forall|k: int| 0 <= k < i0 + 1 implies is_white_space(#[trigger] s[k]) by {
            if k > 0 {
                assert(s[k] == s.drop_first()[k - 1]);
            }
        }
        assert(i0 + 1 < s.len() ==> s[i0 + 1] == s.drop_first()[i0]);
        i0 + 1
    } else {
        assert(s.subrange(0, s.len() as int) =~= s);
        0
    }
}

proof fn lemma_trim_end(s: Seq<char>) -> (j: int)
    ensures
        0 <= j <= s.len(),
        trim_end_spec(s) == s.subrange(0, j),
        forall|k: int| j <= k < s.len() ==> is_white_space(#[trigger] s[k]),
        j > 0 ==> !is_white_space(s[j - 1]),
    decreases s.len(),
{
    if s.len() > 0 && is_white_space(s.last()) {
        let j0 = lemma_trim_end(s.drop_last());
        assert(s.drop_last().subrange(0, j0) =~= s.subrange(0, j0));
        assert forall|k: int| j0 <= k < s.len() implies is_white_space(#[trigger] s[k]) by {
            if k < s.len() - 1 {
                assert(s[k] == s.drop_last()[k]);
            }
        }
        assert(j0 > 0 ==> s[j0 - 1] == s.drop_last()[j0 - 1]);
        j0
    } else {
        assert(s.subrange(0, s.len() as int) =~= s);
        s.len() as int
    }
}

/// Trimming removes exactly the white space around the text: the result is
/// a stretch of the line with only white space outside it, and it neither
/// begins nor ends with white space.
pub proof fn lemma_trim(s: Seq<char>)
    ensures
        is_trim_of(s, trim_spec(s)),
{
    let i = lemma_trim_start(s);
    let u = trim_start_spec(s);
    let j = lemma_trim_end(u);
    let t = trim_spec(s);
    assert(t =~= s.subrange(i, i + j));
    assert forall|k: int| i + j <= k < s.len() implies is_white_space(#[trigger] s[k]) by {
        assert(u[k - i] == s[k]);
        assert(is_white_space(u[k - i]));
    }
    if i < i + j {
        assert(u[0] == s[i]);
        assert(u[j - 1] == s[i + j - 1]);
    }
    assert(trim_at(s, t, i, i + j));
}

} // verus!
