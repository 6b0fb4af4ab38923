use vstd::prelude::*;
use regex::Regex;
use crate::data::ExtractError;

verus! {

#[verifier::external_type_specification]
#[verifier::external_body]
pub struct ExRegex(Regex);

#[verifier::external_type_specification]
#[verifier::external_body]
pub struct ExRegexError(regex::Error);

/// The heading pattern: two `#` characters and the rest of their line.
pub const HEADING: &'static str = "##(.*)";

/// A heading marker (`##`) starts at index `i` of `s`.
pub open spec fn marker_at(s: Seq<char>, i: int) -> bool {
    0 <= i && i + 1 < s.len() && s[i] == '#' && s[i + 1] == '#'
}

/// The first index at or after `i` where a marker starts, or `s.len()` if there is none.
pub open spec fn marker_from(s: Seq<char>, i: int) -> int
    decreases s.len() - i,
{
    if i < 0 || i + 1 >= s.len() {
        s.len() as int
    } else if marker_at(s, i) {
        i
    } else {
        marker_from(s, i + 1)
    }
}

/// The first index at or after `i` that holds a newline, or `s.len()` if there is none.
pub open spec fn line_end(s: Seq<char>, i: int) -> int
    decreases s.len() - i,
{
    if i < 0 || i >= s.len() {
        s.len() as int
    } else if s[i] == '\n' {
        i
    } else {
        line_end(s, i + 1)
    }
}

/// Every heading match in `s`, left to right: each is a marker and the rest of its
/// line, and the search goes on after the end of the previous match.
pub open spec fn all_matches(s: Seq<char>) -> Seq<Seq<char>>
    decreases s.len(),
{
    let k = marker_from(s, 0);
    let e = line_end(s, k + 2);
    if k >= s.len() || e <= 0 || e > s.len() {
        Seq::empty()
    } else {
        seq![s.subrange(k, e)] + all_matches(s.subrange(e, s.len() as int))
    }
}

pub proof fn lemma_marker_from(s: Seq<char>, i: int)
    requires
        0 <= i,
    ensures
        i <= marker_from(s, i) <= s.len() || (marker_from(s, i) == s.len() && i > s.len()),
        marker_from(s, i) < s.len() ==> marker_at(s, marker_from(s, i)),
        forall|j: int| i <= j < marker_from(s, i) ==> !marker_at(s, j),
    decreases s.len() - i,
{
    if i + 1 < s.len() && !marker_at(s, i) {
        lemma_marker_from(s, i + 1);
    }
}

pub proof fn lemma_line_end(s: Seq<char>, i: int)
    requires
        0 <= i,
    ensures
        i <= line_end(s, i) <= s.len() || (line_end(s, i) == s.len() && i > s.len()),
        line_end(s, i) < s.len() ==> s[line_end(s, i)] == '\n',
        forall|j: int| i <= j < line_end(s, i) ==> s[j] != '\n',
    decreases s.len() - i,
{
    if i < s.len() && s[i] != '\n' {
        lemma_line_end(s, i + 1);
    }
}

/// Relies on `regex::Regex::new`: compiles a pattern, or says why it cannot.
#[verifier::external_body]
fn compile(pattern: &str) -> (r: Result<Regex, regex::Error>) {
    Regex::new(pattern)
}

/// Finds heading markers in text. Every value holds the regex that `new` compiled
/// from `HEADING`, and no other is ever built.
pub struct HeadingMatcher {
    re: Regex,
}

impl HeadingMatcher {
    /// Compiles the heading pattern; a failure is reported as `Pattern`.
    pub fn new() -> (r: Result<HeadingMatcher, ExtractError>)
        ensures
            r matches Err(e) ==> e == ExtractError::Pattern,
    {
        match compile(HEADING) {
            Ok(re) => Ok(HeadingMatcher { re }),
            Err(_) => Err(ExtractError::Pattern),
        }
    }

    /// Relies on `regex::Regex::find` for the pattern `##(.*)`, in which `.` is any
    /// character but a newline: the leftmost `##` and the rest of its line. The text is
    /// handed back cut in three: before the match, the match, after it.
    #[verifier::external_body]
    fn find_split(&self, text: &str) -> (r: Option<(String, String, String)>)
        ensures
            r is None <==> marker_from(text@, 0) >= text@.len(),
            r matches Some((b, m, a)) ==> ({
                let k = marker_from(text@, 0);
                let e = line_end(text@, k + 2);
                &&& b@ == text@.subrange(0, k)
                &&& m@ == text@.subrange(k, e)
                &&& a@ == text@.subrange(e, text@.len() as int)
            }),
    {
        self.re.find(text).map(
            |m| (text[..m.start()].to_string(), m.as_str().to_string(), text[m.end()..].to_string()),
        )
    }

    /// The first heading match of `text`, with what comes before and after it.
    pub fn first_match(&self, text: &str) -> (r: Option<(String, String, String)>)
        ensures
            r is None <==> marker_from(text@, 0) >= text@.len(),
            r matches Some((b, m, a)) ==> ({
                let k = marker_from(text@, 0);
                &&& b@ + m@ + a@ == text@
                &&& m@ == all_matches(text@)[0]
                &&& a@ == text@.subrange(line_end(text@, k + 2), text@.len() as int)
                &&& b@ == text@.subrange(0, k)
                &&& all_matches(text@) == seq![m@] + all_matches(a@)
            }),
    {
        let r = self.find_split(text);
        proof {
            lemma_marker_from(text@, 0);
            let k = marker_from(text@, 0);
            if k < text@.len() {
                lemma_line_end(text@, k + 2);
                assert(text@ == text@.subrange(0, k) + text@.subrange(k, line_end(text@, k + 2))
                    + text@.subrange(line_end(text@, k + 2), text@.len() as int));
            }
        }
        r
    }

    /// Every heading match of `text`, left to right.
    pub fn all_matches(&self, text: &str) -> (r: Vec<String>)
        ensures
            r@.map_values(|s: String| s@) == all_matches(text@),
    {
        let mut out: Vec<String> = Vec::new();
        let mut rest: String = text.to_owned();
        loop
            invariant
                out@.map_values(|s: String| s@) + all_matches(rest@) == all_matches(text@),
            decreases rest@.len(),
        {
            match self.first_match(rest.as_str()) {
                None => {
                    proof {
                        lemma_marker_from(rest@, 0);
                        assert(all_matches(rest@) == Seq::<Seq<char>>::empty());
                        assert(out@.map_values(|s: String| s@) + all_matches(rest@)
                            == out@.map_values(|s: String| s@));
                    }
                    return out;
                },
                Some((_b, m, a)) => {
                    proof {
                        lemma_marker_from(rest@, 0);
                        lemma_line_end(rest@, marker_from(rest@, 0) + 2);
                        let old_out = out@.map_values(|s: String| s@);
                        assert(old_out.push(m@) + all_matches(a@) == old_out + (seq![m@]
                            + all_matches(a@)));
                    }
                    let ghost before = out@;
                    let ghost mv = m@;
                    out.push(m);
                    proof {
                        assert(out@.map_values(|s: String| s@) =~= before.map_values(
                            |s: String| s@,
                        ).push(mv));
                    }
                    rest = a;
                },
            }
        }
    }
}

} // verus!

verus! {

pub proof fn lemma_marker_from_skip(s: Seq<char>, i: int, j: int)
    requires
        0 <= i <= j,
        forall|m: int| i <= m < j ==> !marker_at(s, m),
    ensures
        marker_from(s, i) == marker_from(s, j),
    decreases j - i,
{
    if i < j && i + 1 < s.len() {
        lemma_marker_from_skip(s, i + 1, j);
    }
}

pub proof fn lemma_marker_shift(s: Seq<char>, p: int, i: int)
    requires
        0 <= p <= s.len(),
        0 <= i,
    ensures
        marker_from(s.skip(p), i) == marker_from(s, i + p) - p,
    decreases s.len() - p - i,
{
    let t = s.skip(p);
    if i + 1 < t.len() {
        assert(marker_at(t, i) == marker_at(s, i + p));
        if !marker_at(t, i) {
            lemma_marker_shift(s, p, i + 1);
        }
    }
}

pub proof fn lemma_line_end_shift(s: Seq<char>, p: int, i: int)
    requires
        0 <= p <= s.len(),
        0 <= i,
    ensures
        line_end(s.skip(p), i) == line_end(s, i + p) - p,
    decreases s.len() - p - i,
{
    let t = s.skip(p);
    if i < t.len() && t[i] != '\n' {
        lemma_line_end_shift(s, p, i + 1);
    }
}

/// Text in front of `b` in which no marker starts leaves the matches of `b` as
/// they are.
pub proof fn lemma_matches_after_prefix(pre: Seq<char>, b: Seq<char>)
    requires
        forall|i: int| 0 <= i < pre.len() ==> !marker_at(pre + b, i),
    ensures
        all_matches(pre + b) == all_matches(b),
{
    let s = pre + b;
    let p = pre.len() as int;
    assert(s.skip(p) == b);
    lemma_marker_from_skip(s, 0, p);
    lemma_marker_shift(s, p, 0);
    lemma_marker_from(b, 0);
    let k = marker_from(b, 0);
    if k < b.len() {
        lemma_line_end_shift(s, p, k + 2);
        lemma_line_end(b, k + 2);
        let e = line_end(b, k + 2);
        assert(s.subrange(k + p, e + p) == b.subrange(k, e));
        assert(s.subrange(e + p, s.len() as int) == b.subrange(e, b.len() as int));
    }
}

} // verus!

verus! {

pub proof fn lemma_line_end_at(s: Seq<char>, i: int, n: int)
    requires
        0 <= i <= n < s.len(),
        forall|j: int| i <= j < n ==> s[j] != '\n',
        s[n] == '\n',
    ensures
        line_end(s, i) == n,
    decreases n - i,
{
    if i < n {
        lemma_line_end_at(s, i + 1, n);
    }
}

} // verus!
