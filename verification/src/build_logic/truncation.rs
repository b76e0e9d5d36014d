//! Pass 3: whitespace truncation (`{%-` and `-%}`) of the static texts
//! next to the tags that ask for it.

use vstd::prelude::*;
use crate::build_logic::tokenizer::{tokens_view, SpecToken, Token};
use crate::text::chars_of;

verus! {

/// The whitespace that truncation removes: exactly space, tab, carriage
/// return and line feed; no other character (not the non-breaking space).
pub open spec fn spec_is_whitespace_rule9(c: char) -> bool {
    c == ' ' || c == '\t' || c == '\r' || c == '\n'
}

pub fn is_whitespace_rule9(c: char) -> (r: bool)
    ensures
        r == spec_is_whitespace_rule9(c),
{
    c == ' ' || c == '\t' || c == '\r' || c == '\n'
}

/// `s` without the truncation whitespace it starts with.
pub open spec fn trim_start_rule9(s: Seq<char>) -> Seq<char>
    decreases s.len(),
{
    if s.len() > 0 && spec_is_whitespace_rule9(s[0]) {
        trim_start_rule9(s.drop_first())
    } else {
        s
    }
}

/// `s` without the truncation whitespace it ends with.
pub open spec fn trim_end_rule9(s: Seq<char>) -> Seq<char>
    decreases s.len(),
{
    if s.len() > 0 && spec_is_whitespace_rule9(s.last()) {
        trim_end_rule9(s.drop_last())
    } else {
        s
    }
}

/// The tag at `k` asks to truncate the static text before it.
pub open spec fn trims_left(ts: Seq<SpecToken>, k: int) -> bool {
    0 <= k < ts.len() && ts[k] matches SpecToken::Tagged { trim_left: true, .. }
}

/// The tag at `k` asks to truncate the static text after it.
pub open spec fn trims_right(ts: Seq<SpecToken>, k: int) -> bool {
    0 <= k < ts.len() && ts[k] matches SpecToken::Tagged { trim_right: true, .. }
}

/// Token `i` once the tags before `done` have been applied: a static text
/// loses its leading whitespace when the tag before it (if applied) has
/// `-%}`, then its trailing whitespace when the tag after it (if applied)
/// has `{%-`. Tags are left as they are.
pub open spec fn truncated_upto(ts: Seq<SpecToken>, done: int, i: int) -> SpecToken {
    match ts[i] {
        SpecToken::Static { text } => {
            let a = if i - 1 < done && trims_right(ts, i - 1) {
                trim_start_rule9(text)
            } else {
                text
            };
            let b = if i + 1 < done && trims_left(ts, i + 1) {
                trim_end_rule9(a)
            } else {
                a
            };
            SpecToken::Static { text: b }
        },
        _ => ts[i],
    }
}

/// Truncation of a whole token sequence.
pub open spec fn spec_truncate(ts: Seq<SpecToken>) -> Seq<SpecToken> {
    Seq::new(ts.len(), |i: int| truncated_upto(ts, ts.len() as int, i))
}

/// `text` without its leading truncation whitespace.
fn trim_start_whitespace<'a>(text: &'a str) -> (r: &'a str)
    ensures
        r@ == trim_start_rule9(text@),
{
    let cs = chars_of(text);
    let n = cs.len();
    let mut i: usize = 0;
    assert(cs@.subrange(0, n as int) =~= cs@);
    while i < n && is_whitespace_rule9(cs[i])
        invariant
            i <= n == cs@.len(),
            cs@ == text@,
            trim_start_rule9(cs@.subrange(i as int, n as int)) == trim_start_rule9(text@),
        decreases n - i,
    {
        assert(cs@.subrange(i as int, n as int).drop_first() =~= cs@.subrange(i + 1, n as int));
        i += 1;
    }
    assert(cs@.subrange(0, n as int) =~= cs@);
    text.substring_char(i, n)
}

/// `text` without its trailing truncation whitespace.
fn trim_end_whitespace<'a>(text: &'a str) -> (r: &'a str)
    ensures
        r@ == trim_end_rule9(text@),
{
    let cs = chars_of(text);
    let n = cs.len();
    let mut j: usize = n;
    assert(cs@.subrange(0, n as int) =~= cs@);
    while j > 0 && is_whitespace_rule9(cs[j - 1])
        invariant
            j <= n == cs@.len(),
            cs@ == text@,
            trim_end_rule9(cs@.subrange(0, j as int)) == trim_end_rule9(text@),
        decreases j,
    {
        assert(cs@.subrange(0, j as int).drop_last() =~= cs@.subrange(0, j - 1));
        j -= 1;
    }
    assert(cs@.subrange(0, n as int) =~= cs@);
    text.substring_char(0, j)
}

/// Pass 3: for each `Tagged` token with a truncation flag, removes the
/// whitespace at the facing end of the adjacent `Static` token: the one
/// before for `trim_left` (`{%-`), the one after for `trim_right` (`-%}`).
/// No limit on the quantity removed. `Tagged` tokens are never modified.
pub fn apply_truncation<'a>(tokens: &mut [Token<'a>])
    ensures
        tokens_view(final(tokens)@) == spec_truncate(tokens_view(old(tokens)@)),
{
    let ghost ts = tokens_view(tokens@);
    let n = tokens.len();
    let mut i: usize = 0;
    assert forall|j: int| 0 <= j < n implies #[trigger] tokens_view(tokens@)[j] == truncated_upto(
        ts,
        0,
        j,
    ) by {
        if ts[j] is Static {
            assert(!(j + 1 < 0));
        }
    }
    while i < n
        invariant
            n == tokens@.len(),
            ts.len() == n,
            i <= n,
            forall|j: int| 0 <= j < n ==> #[trigger] tokens_view(tokens@)[j] == truncated_upto(
                ts,
                i as int,
                j,
            ),
        decreases n - i,
    {
        let ghost before = tokens_view(tokens@);
        assert(before[i as int] == truncated_upto(ts, i as int, i as int));
        let cur = tokens[i];
        match cur {
            Token::Static { .. } => {},
            Token::Tagged { trim_left, trim_right, .. } => {
                assert(ts[i as int] == cur@);
                if trim_left && i > 0 {
                    if let Token::Static { text } = tokens[i - 1] {
                        tokens[i - 1] = Token::Static { text: trim_end_whitespace(text) };
                    }
                }
                if trim_right && i + 1 < n {
                    if let Token::Static { text } = tokens[i + 1] {
                        tokens[i + 1] = Token::Static { text: trim_start_whitespace(text) };
                    }
                }
            },
        }
        assert forall|j: int| 0 <= j < n implies #[trigger] tokens_view(tokens@)[j]
            == truncated_upto(ts, i + 1, j) by {
            assert(before[j] == truncated_upto(ts, i as int, j));
            if j != i - 1 && j != i + 1 {
                assert(tokens_view(tokens@)[j] == before[j]);
            }
        }
        i += 1;
    }
    assert(tokens_view(tokens@) =~= spec_truncate(ts));
}


proof fn lemma_trim_start_rule9(s: Seq<char>)
    ensures
        trim_start_rule9(s).len() <= s.len(),
        trim_start_rule9(s) == s.subrange(s.len() - trim_start_rule9(s).len(), s.len() as int),
        trim_start_rule9(s).len() == 0 || !spec_is_whitespace_rule9(trim_start_rule9(s)[0]),
        trim_start_rule9(trim_start_rule9(s)) == trim_start_rule9(s),
        forall|j: int|
            0 <= j < s.len() - trim_start_rule9(s).len() ==> spec_is_whitespace_rule9(#[trigger] s[j]),
    decreases s.len(),
{
    if s.len() > 0 && spec_is_whitespace_rule9(s[0]) {
        lemma_trim_start_rule9(s.drop_first());
        let r = trim_start_rule9(s.drop_first());
        assert forall|j: int| 0 <= j < s.len() - r.len() implies spec_is_whitespace_rule9(
            #[trigger] s[j],
        ) by {
            if j > 0 {
                assert(s[j] == s.drop_first()[j - 1]);
            }
        }
        assert(s.drop_first().subrange(s.len() - 1 - r.len(), s.len() - 1) =~= s.subrange(
            s.len() - r.len(),
            s.len() as int,
        ));
    } else {
        assert(s.subrange(0, s.len() as int) =~= s);
    }
}

proof fn lemma_trim_end_rule9(s: Seq<char>)
    ensures
        trim_end_rule9(s).len() <= s.len(),
        trim_end_rule9(s) == s.subrange(0, trim_end_rule9(s).len() as int),
        trim_end_rule9(s).len() == 0 || !spec_is_whitespace_rule9(trim_end_rule9(s).last()),
        trim_end_rule9(trim_end_rule9(s)) == trim_end_rule9(s),
        forall|j: int|
            trim_end_rule9(s).len() <= j < s.len() ==> spec_is_whitespace_rule9(#[trigger] s[j]),
    decreases s.len(),
{
    if s.len() > 0 && spec_is_whitespace_rule9(s.last()) {
        lemma_trim_end_rule9(s.drop_last());
        let r = trim_end_rule9(s.drop_last());
        assert forall|j: int| r.len() <= j < s.len() implies spec_is_whitespace_rule9(
            #[trigger] s[j],
        ) by {
            if j < s.len() - 1 {
                assert(s[j] == s.drop_last()[j]);
            }
        }
        assert(s.drop_last().subrange(0, r.len() as int) =~= s.subrange(0, r.len() as int));
    } else {
        assert(s.subrange(0, s.len() as int) =~= s);
    }
}

/// Dropping trailing whitespace from a text that does not start with
/// whitespace gives a text that does not start with whitespace either.
proof fn lemma_trim_end_keeps_start(t: Seq<char>)
    requires
        t.len() == 0 || !spec_is_whitespace_rule9(t[0]),
    ensures
        trim_start_rule9(trim_end_rule9(t)) == trim_end_rule9(t),
{
    lemma_trim_end_rule9(t);
    let r = trim_end_rule9(t);
    if r.len() > 0 {
        assert(r[0] == t[0]);
    }
}

/// Truncation changes no tag, nor the kind nor the number of tokens.
pub proof fn law_truncation_keeps_tags(ts: Seq<SpecToken>)
    ensures
        spec_truncate(ts).len() == ts.len(),
        forall|i: int|
            0 <= i < ts.len() ==> (#[trigger] spec_truncate(ts)[i] is Static <==> ts[i] is Static),
        forall|i: int| 0 <= i < ts.len() && ts[i] is Tagged ==> #[trigger] spec_truncate(ts)[i] == ts[i],
{
}

/// After truncation, the static text before a `{%-` tag no longer ends
/// with whitespace, and the static text after a `-%}` tag no longer starts
/// with whitespace.
pub proof fn law_truncation_clears_marked_sides(ts: Seq<SpecToken>)
    ensures
        forall|i: int|
            #![trigger spec_truncate(ts)[i]]
            0 <= i < ts.len() && spec_truncate(ts)[i] is Static && trims_left(ts, i + 1) ==> {
                let t = spec_truncate(ts)[i]->Static_text;
                t.len() == 0 || !spec_is_whitespace_rule9(t.last())
            },
        forall|i: int|
            #![trigger spec_truncate(ts)[i]]
            0 <= i < ts.len() && spec_truncate(ts)[i] is Static && trims_right(ts, i - 1) ==> {
                let t = spec_truncate(ts)[i]->Static_text;
                t.len() == 0 || !spec_is_whitespace_rule9(t[0])
            },
{
    assert forall|i: int|
        #![trigger spec_truncate(ts)[i]]
        0 <= i < ts.len() && spec_truncate(ts)[i] is Static && trims_left(ts, i + 1) implies {
        let t = spec_truncate(ts)[i]->Static_text;
        t.len() == 0 || !spec_is_whitespace_rule9(t.last())
    } by {
        let text = ts[i]->Static_text;
        lemma_trim_start_rule9(text);
        if trims_right(ts, i - 1) {
            lemma_trim_end_rule9(trim_start_rule9(text));
        } else {
            lemma_trim_end_rule9(text);
        }
    }
    assert forall|i: int|
        #![trigger spec_truncate(ts)[i]]
        0 <= i < ts.len() && spec_truncate(ts)[i] is Static && trims_right(ts, i - 1) implies {
        let t = spec_truncate(ts)[i]->Static_text;
        t.len() == 0 || !spec_is_whitespace_rule9(t[0])
    } by {
        let text = ts[i]->Static_text;
        lemma_trim_start_rule9(text);
        if trims_left(ts, i + 1) {
            lemma_trim_end_keeps_start(trim_start_rule9(text));
            lemma_trim_start_rule9(trim_end_rule9(trim_start_rule9(text)));
        }
    }
}

/// Truncating twice is truncating once.
pub proof fn law_truncation_idempotent(ts: Seq<SpecToken>)
    ensures
        spec_truncate(spec_truncate(ts)) == spec_truncate(ts),
{
    let t1 = spec_truncate(ts);
    let t2 = spec_truncate(t1);
    assert forall|i: int| 0 <= i < ts.len() implies #[trigger] t2[i] == t1[i] by {
        assert(trims_left(t1, i + 1) == trims_left(ts, i + 1));
        assert(trims_right(t1, i - 1) == trims_right(ts, i - 1));
        if ts[i] is Static {
            let x = ts[i]->Static_text;
            let a = if trims_right(ts, i - 1) {
                trim_start_rule9(x)
            } else {
                x
            };
            lemma_trim_start_rule9(x);
            lemma_trim_end_rule9(a);
            lemma_trim_start_rule9(a);
            if trims_right(ts, i - 1) && trims_left(ts, i + 1) {
                lemma_trim_end_keeps_start(a);
            }
        }
    }
    assert(t2 =~= t1);
}

/// `r` is `t` with, at most, whitespace removed from its start (only when
/// `may_trim_start`) and from its end (only when `may_trim_end`).
pub open spec fn trimmed_piece(t: Seq<char>, r: Seq<char>, may_trim_start: bool, may_trim_end: bool) -> bool {
    exists|a: int, b: int|
        #![trigger t.subrange(a, b)]
        {
            &&& 0 <= a <= b <= t.len()
            &&& r == t.subrange(a, b)
            &&& forall|j: int| 0 <= j < a ==> spec_is_whitespace_rule9(#[trigger] t[j])
            &&& forall|j: int| b <= j < t.len() ==> spec_is_whitespace_rule9(#[trigger] t[j])
            &&& a > 0 ==> may_trim_start
            &&& b < t.len() ==> may_trim_end
        }
}

/// Truncation touches only the marked sides: each static text loses only
/// whitespace, from its start only when the tag before it has `-%}`, and
/// from its end only when the tag after it has `{%-`; every other
/// character stays in place.
pub proof fn law_truncation_touches_only_marked_sides(ts: Seq<SpecToken>)
    ensures
        forall|i: int|
            #![trigger spec_truncate(ts)[i]]
            0 <= i < ts.len() && ts[i] is Static ==> trimmed_piece(
                ts[i]->Static_text,
                spec_truncate(ts)[i]->Static_text,
                trims_right(ts, i - 1),
                trims_left(ts, i + 1),
            ),
{
    assert forall|i: int|
        #![trigger spec_truncate(ts)[i]]
        0 <= i < ts.len() && ts[i] is Static implies trimmed_piece(
        ts[i]->Static_text,
        spec_truncate(ts)[i]->Static_text,
        trims_right(ts, i - 1),
        trims_left(ts, i + 1),
    ) by {
        let t = ts[i]->Static_text;
        lemma_trim_start_rule9(t);
        let a: int = if trims_right(ts, i - 1) {
            t.len() - trim_start_rule9(t).len()
        } else {
            0
        };
        let t1 = t.subrange(a, t.len() as int);
        if !trims_right(ts, i - 1) {
            assert(t1 =~= t);
        }
        lemma_trim_end_rule9(t1);
        let b: int = if trims_left(ts, i + 1) {
            a + trim_end_rule9(t1).len()
        } else {
            t.len() as int
        };
        let r = spec_truncate(ts)[i]->Static_text;
        assert(r == t.subrange(a, b)) by {
            if trims_left(ts, i + 1) {
                assert(trim_end_rule9(t1) =~= t.subrange(a, b));
            } else {
                assert(t1 =~= t.subrange(a, b));
            }
        }
        assert forall|j: int| b <= j < t.len() implies spec_is_whitespace_rule9(#[trigger] t[j]) by {
            assert(t[j] == t1[j - a]);
        }
    }
}

} // verus!
