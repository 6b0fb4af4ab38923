use vstd::prelude::*;

verus! {

/// Relies on `str::chars` collected into a `Vec`: the characters of `s`, in order.
#[verifier::external_body]
pub fn chars_of(s: &str) -> (r: Vec<char>)
    ensures
        r@ == s@,
{
    s.chars().collect()
}

/// Relies on `FromIterator<&char>` for `String`: the string made of these characters.
#[verifier::external_body]
pub fn string_of(v: &[char]) -> (r: String)
    ensures
        r@ == v@,
{
    v.iter().collect()
}

/// Appends the characters of `s` to `v`.
pub fn push_all(v: &mut Vec<char>, s: &[char])
    ensures
        final(v)@ == old(v)@ + s@,
{
    let mut i: usize = 0;
    while i < s.len()
        invariant
            0 <= i <= s@.len(),
            v@ == old(v)@ + s@.subrange(0, i as int),
        decreases s@.len() - i,
    {
        v.push(s[i]);
        i += 1;
        proof {
            assert(s@.subrange(0, i as int) == s@.subrange(0, i - 1) + seq![s@[i - 1]]);
        }
    }
    assert(s@.subrange(0, s@.len() as int) == s@);
}

} // verus!

verus! {

/// The characters of `v` from `lo` up to `hi`.
pub fn copy_range(v: &[char], lo: usize, hi: usize) -> (r: Vec<char>)
    requires
        lo <= hi <= v@.len(),
    ensures
        r@ == v@.subrange(lo as int, hi as int),
{
    let mut r: Vec<char> = Vec::new();
    let mut i: usize = lo;
    while i < hi
        invariant
            lo <= i <= hi <= v@.len(),
            r@ == v@.subrange(lo as int, i as int),
        decreases hi - i,
    {
        r.push(v[i]);
        i += 1;
        proof {
            assert(v@.subrange(lo as int, i as int) == v@.subrange(lo as int, i - 1).push(v@[i - 1]));
        }
    }
    r
}

/// ASCII whitespace as `char::is_ascii_whitespace` has it.
pub open spec fn is_ascii_ws(c: char) -> bool {
    c == ' ' || c == '\t' || c == '\n' || c == '\r' || c == '\x0C'
}

pub fn ascii_ws(c: char) -> (r: bool)
    ensures
        r == is_ascii_ws(c),
{
    c == ' ' || c == '\t' || c == '\n' || c == '\r' || c == '\x0C'
}

/// How many characters at the start of `s` are `c`.
pub open spec fn lead_count(s: Seq<char>, c: char) -> nat
    decreases s.len(),
{
    if s.len() > 0 && s[0] == c {
        1 + lead_count(s.drop_first(), c)
    } else {
        0
    }
}

/// How many characters at the end of `s` are `c`.
pub open spec fn trail_count(s: Seq<char>, c: char) -> nat
    decreases s.len(),
{
    if s.len() > 0 && s.last() == c {
        1 + trail_count(s.drop_last(), c)
    } else {
        0
    }
}

/// The length of the run of non-whitespace characters that starts `s`.
pub open spec fn word_len(s: Seq<char>) -> nat
    decreases s.len(),
{
    if s.len() > 0 && !is_ascii_ws(s[0]) {
        1 + word_len(s.drop_first())
    } else {
        0
    }
}

/// The words of `s`: its maximal runs of non-whitespace characters, in order.
pub open spec fn words(s: Seq<char>) -> Seq<Seq<char>>
    decreases s.len(),
{
    if s.len() == 0 {
        Seq::empty()
    } else if is_ascii_ws(s[0]) {
        words(s.drop_first())
    } else if 0 < word_len(s) <= s.len() {
        seq![s.take(word_len(s) as int)] + words(s.skip(word_len(s) as int))
    } else {
        Seq::empty()
    }
}

/// The pieces joined with `sep` between each two.
pub open spec fn join_sep(ws: Seq<Seq<char>>, sep: char) -> Seq<char>
    decreases ws.len(),
{
    if ws.len() == 0 {
        Seq::empty()
    } else if ws.len() == 1 {
        ws[0]
    } else {
        join_sep(ws.drop_last(), sep) + seq![sep] + ws.last()
    }
}

/// `s` without the runs of `*` at its start and at its end.
pub open spec fn strip_stars(s: Seq<char>) -> Seq<char> {
    let u = s.skip(lead_count(s, '*') as int);
    u.take(u.len() - trail_count(u, '*'))
}

pub proof fn lemma_lead_count(s: Seq<char>, c: char, n: int)
    requires
        0 <= n <= s.len(),
        forall|j: int| 0 <= j < n ==> s[j] == c,
        n == s.len() || s[n] != c,
    ensures
        lead_count(s, c) == n,
    decreases n,
{
    if n > 0 {
        lemma_lead_count(s.drop_first(), c, n - 1);
    }
}

pub proof fn lemma_trail_count(s: Seq<char>, c: char, n: int)
    requires
        0 <= n <= s.len(),
        forall|j: int| s.len() - n <= j < s.len() ==> s[j] == c,
        n == s.len() || s[s.len() - n - 1] != c,
    ensures
        trail_count(s, c) == n,
    decreases n,
{
    if n > 0 {
        lemma_trail_count(s.drop_last(), c, n - 1);
    }
}

pub proof fn lemma_word_len(s: Seq<char>, n: int)
    requires
        0 <= n <= s.len(),
        forall|j: int| 0 <= j < n ==> !is_ascii_ws(s[j]),
        n == s.len() || is_ascii_ws(s[n]),
    ensures
        word_len(s) == n,
    decreases n,
{
    if n > 0 {
        lemma_word_len(s.drop_first(), n - 1);
    }
}

/// The number of leading `c` characters of `v`.
pub fn count_lead(v: &[char], c: char) -> (r: usize)
    ensures
        r == lead_count(v@, c),
        r <= v@.len(),
{
    let mut i: usize = 0;
    while i < v.len() && v[i] == c
        invariant
            0 <= i <= v@.len(),
            forall|j: int| 0 <= j < i ==> v@[j] == c,
        decreases v@.len() - i,
    {
        i += 1;
    }
    proof {
        lemma_lead_count(v@, c, i as int);
    }
    i
}

/// The number of trailing `c` characters of `v`.
pub fn count_trail(v: &[char], c: char) -> (r: usize)
    ensures
        r == trail_count(v@, c),
        r <= v@.len(),
{
    let mut n: usize = 0;
    while n < v.len() && v[v.len() - 1 - n] == c
        invariant
            0 <= n <= v@.len(),
            forall|j: int| v@.len() - n <= j < v@.len() ==> v@[j] == c,
        decreases v@.len() - n,
    {
        n += 1;
    }
    proof {
        lemma_trail_count(v@, c, n as int);
    }
    n
}

/// The words of `v`, in order.
pub fn split_words(v: &[char]) -> (r: Vec<Vec<char>>)
    ensures
        r@.map_values(|w: Vec<char>| w@) == words(v@),
{
    let mut out: Vec<Vec<char>> = Vec::new();
    let mut i: usize = 0;
    proof {
        assert(v@.skip(0) == v@);
        assert(out@.map_values(|w: Vec<char>| w@) + words(v@) == words(v@));
    }
    while i < v.len()
        invariant
            0 <= i <= v@.len(),
            words(v@) == out@.map_values(|w: Vec<char>| w@) + words(v@.skip(i as int)),
        decreases v@.len() - i,
    {
        if ascii_ws(v[i]) {
            proof {
                assert(v@.skip(i as int).drop_first() == v@.skip(i + 1));
            }
            i += 1;
        } else {
            let mut j: usize = i;
            while j < v.len() && !ascii_ws(v[j])
                invariant
                    i <= j <= v@.len(),
                    forall|k: int| i <= k < j ==> !is_ascii_ws(v@[k]),
                decreases v@.len() - j,
            {
                j += 1;
            }
            let w = copy_range(v, i, j);
            proof {
                let t = v@.skip(i as int);
                lemma_word_len(t, (j - i) as int);
                assert(t.take((j - i) as int) == w@);
                assert(t.skip((j - i) as int) == v@.skip(j as int));
                assert(words(t) == seq![w@] + words(v@.skip(j as int)));
            }
            let ghost before = out@;
            out.push(w);
            proof {
                assert(out@.map_values(|w: Vec<char>| w@) == before.map_values(
                    |w: Vec<char>| w@,
                ).push(w@));
                assert(before.map_values(|w: Vec<char>| w@).push(w@) + words(v@.skip(j as int))
                    == before.map_values(|w: Vec<char>| w@) + (seq![w@] + words(
                    v@.skip(j as int),
                )));
            }
            i = j;
        }
    }
    proof {
        assert(words(v@.skip(i as int)) == Seq::<Seq<char>>::empty());
        assert(out@.map_values(|w: Vec<char>| w@) + Seq::<Seq<char>>::empty() == out@.map_values(
            |w: Vec<char>| w@,
        ));
    }
    out
}

/// The pieces joined with `sep` between each two.
pub fn join_with(ws: &Vec<Vec<char>>, sep: char) -> (r: Vec<char>)
    ensures
        r@ == join_sep(ws@.map_values(|w: Vec<char>| w@), sep),
{
    let ghost m = ws@.map_values(|w: Vec<char>| w@);
    let mut out: Vec<char> = Vec::new();
    if ws.len() == 0 {
        return out;
    }
    push_all(&mut out, ws[0].as_slice());
    proof {
        assert(m.take(1).drop_last() == m.take(0));
        assert(join_sep(m.take(1), sep) == m[0]);
    }
    let mut k: usize = 1;
    while k < ws.len()
        invariant
            1 <= k <= ws@.len(),
            m == ws@.map_values(|w: Vec<char>| w@),
            out@ == join_sep(m.take(k as int), sep),
        decreases ws@.len() - k,
    {
        out.push(sep);
        push_all(&mut out, ws[k].as_slice());
        proof {
            assert(m.take(k + 1).drop_last() == m.take(k as int));
        }
        k += 1;
    }
    proof {
        assert(m.take(k as int) == m);
    }
    out
}

/// `v` without its leading and trailing runs of `*`.
pub fn trim_stars(v: &[char]) -> (r: Vec<char>)
    ensures
        r@ == strip_stars(v@),
{
    let a = count_lead(v, '*');
    let u = copy_range(v, a, v.len());
    let b = count_trail(u.as_slice(), '*');
    proof {
        assert(u@ == v@.skip(a as int));
    }
    let r = copy_range(u.as_slice(), 0, u.len() - b);
    proof {
        assert(r@ == u@.take(u@.len() - b));
    }
    r
}

} // verus!

verus! {

/// `s` ends with `t`.
pub open spec fn ends_with(s: Seq<char>, t: Seq<char>) -> bool {
    s.len() >= t.len() && s.skip(s.len() - t.len()) == t
}

/// Whether `v` ends with `t`.
pub fn has_suffix(v: &[char], t: &[char]) -> (r: bool)
    ensures
        r == ends_with(v@, t@),
{
    if v.len() < t.len() {
        return false;
    }
    let off = v.len() - t.len();
    let mut i: usize = 0;
    while i < t.len()
        invariant
            off + t@.len() == v@.len(),
            v@.len() <= usize::MAX,
            0 <= i <= t@.len(),
            forall|j: int| 0 <= j < i ==> v@[off + j] == t@[j],
        decreases t@.len() - i,
    {
        if v[off + i] != t[i] {
            proof {
                assert(v@.skip(off as int)[i as int] != t@[i as int]);
            }
            return false;
        }
        i += 1;
    }
    proof {
        assert(v@.skip(off as int) =~= t@);
    }
    true
}

} // verus!

verus! {

/// The first index at or after `i` that holds `c`, or `s.len()` if there is none.
pub open spec fn char_from(s: Seq<char>, c: char, i: int) -> int
    decreases s.len() - i,
{
    if i < 0 || i >= s.len() {
        s.len() as int
    } else if s[i] == c {
        i
    } else {
        char_from(s, c, i + 1)
    }
}

pub proof fn lemma_char_from(s: Seq<char>, c: char, i: int, n: int)
    requires
        0 <= i <= n <= s.len(),
        forall|j: int| i <= j < n ==> s[j] != c,
        n == s.len() || s[n] == c,
    ensures
        char_from(s, c, i) == n,
    decreases n - i,
{
    if i < n {
        lemma_char_from(s, c, i + 1, n);
    }
}

/// The parts of `s` between the `/` characters (one more than there are `/`).
pub open spec fn segments(s: Seq<char>) -> Seq<Seq<char>>
    decreases s.len(),
{
    let k = char_from(s, '/', 0);
    if k < 0 || k >= s.len() {
        seq![s]
    } else {
        seq![s.take(k)] + segments(s.skip(k + 1))
    }
}

/// The parts that are not `..`, in order.
pub open spec fn drop_parent_refs(ws: Seq<Seq<char>>) -> Seq<Seq<char>>
    decreases ws.len(),
{
    if ws.len() == 0 {
        Seq::empty()
    } else if ws[0] == seq!['.', '.'] {
        drop_parent_refs(ws.drop_first())
    } else {
        seq![ws[0]] + drop_parent_refs(ws.drop_first())
    }
}

} // verus!

verus! {

pub proof fn lemma_drop_parent_refs_append(a: Seq<Seq<char>>, b: Seq<Seq<char>>)
    ensures
        drop_parent_refs(a + b) == drop_parent_refs(a) + drop_parent_refs(b),
    decreases a.len(),
{
    if a.len() == 0 {
        assert(a + b == b);
    } else {
        assert((a + b).drop_first() == a.drop_first() + b);
        lemma_drop_parent_refs_append(a.drop_first(), b);
    }
}

} // verus!
