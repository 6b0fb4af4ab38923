use vstd::prelude::*;
use crate::data::{ExtractError, SortOrder};
use crate::matcher::{
    all_matches, lemma_marker_from, lemma_marker_shift, marker_from, HeadingMatcher,
};
use crate::text::{
    chars_of, copy_range, count_lead, drop_parent_refs, ends_with, has_suffix, join_sep,
    join_with, lead_count, lemma_char_from, lemma_drop_parent_refs_append, lemma_lead_count,
    segments, split_words, string_of, strip_stars, trim_stars, words,
};

verus! {

/// The extension of a markdown file.
pub const MARKDOWN_EXT: &'static str = ".md";

/// The heading that opens a generated table of contents.
pub const SENTINEL: &'static str = "## Content";

/// Where the search for the first heading after a generated table of contents
/// starts: past the sentinel line and the rule below it.
pub const SENTINEL_BLOCK_LEN: usize = 15;

/// Whether the last part of `path` ends in `.md`.
///
/// A path ends in `.md` exactly when its last `/`-separated part does.
pub fn check_path_extention(path: &str) -> (r: bool)
    ensures
        r == ends_with(path@, MARKDOWN_EXT@),
{
    let v = chars_of(path);
    let ext = chars_of(MARKDOWN_EXT);
    has_suffix(v.as_slice(), ext.as_slice())
}

/// Checks that a file given to extract is a markdown file.
pub fn check_markdown_file(path: &str) -> (r: Result<(), ExtractError>)
    ensures
        r is Ok <==> ends_with(path@, MARKDOWN_EXT@),
        r matches Err(e) ==> e == ExtractError::NotMarkdown,
{
    if check_path_extention(path) {
        Ok(())
    } else {
        Err(ExtractError::NotMarkdown)
    }
}

/// The depth and text of a raw heading: the depth is the number of leading `#`;
/// the text is the rest with its whitespace collapsed to single spaces and trimmed,
/// then the runs of `*` at both ends removed.
pub open spec fn parse_heading(s: Seq<char>) -> (int, Seq<char>) {
    let k = lead_count(s, '#');
    (k as int, strip_stars(join_sep(words(s.skip(k as int)), ' ')))
}

/// Parses a raw heading line into its depth and its text.
pub fn parse_title(title: &str) -> (r: (usize, String))
    ensures
        (r.0 as int, r.1@) == parse_heading(title@),
{
    let v = chars_of(title);
    let k = count_lead(v.as_slice(), '#');
    let rest = copy_range(v.as_slice(), k, v.len());
    let ws = split_words(rest.as_slice());
    let joined = join_with(&ws, ' ');
    let text = trim_stars(joined.as_slice());
    proof {
        assert(rest@ == title@.skip(k as int));
    }
    (k, string_of(text.as_slice()))
}

/// `path` without its `..` parts.
pub open spec fn report_form(path: Seq<char>) -> Seq<char> {
    join_sep(drop_parent_refs(segments(path)), '/')
}

/// Keeps `w` in `out` unless it is `..`.
fn push_unless_parent(out: &mut Vec<Vec<char>>, w: Vec<char>)
    ensures
        final(out)@.map_values(|x: Vec<char>| x@) == old(out)@.map_values(|x: Vec<char>| x@)
            + drop_parent_refs(seq![w@]),
{
    let ghost wv = w@;
    proof {
        assert(seq![wv].drop_first() == Seq::<Seq<char>>::empty());
        assert(drop_parent_refs(Seq::<Seq<char>>::empty()) == Seq::<Seq<char>>::empty());
        assert(seq![wv] + Seq::<Seq<char>>::empty() == seq![wv]);
    }
    if w.len() == 2 && w[0] == '.' && w[1] == '.' {
        proof {
            assert(wv == seq!['.', '.']);
            assert(old(out)@.map_values(|x: Vec<char>| x@) + Seq::<Seq<char>>::empty()
                == old(out)@.map_values(|x: Vec<char>| x@));
        }
    } else {
        out.push(w);
        proof {
            assert(out@.map_values(|x: Vec<char>| x@) == old(out)@.map_values(|x: Vec<char>| x@).push(wv));
        }
    }
}

/// The path with every `..` part taken out, for reports.
pub fn reprot_path(path: &str) -> (r: String)
    ensures
        r@ == report_form(path@),
{
    let v = chars_of(path);
    let mut out: Vec<Vec<char>> = Vec::new();
    let mut start: usize = 0;
    let mut i: usize = 0;
    proof {
        assert(v@.skip(0) == v@);
    }
    while i < v.len()
        invariant
            0 <= start <= i <= v@.len(),
            forall|j: int| start <= j < i ==> v@[j] != '/',
            drop_parent_refs(segments(v@)) == out@.map_values(|x: Vec<char>| x@) + drop_parent_refs(
                segments(v@.skip(start as int)),
            ),
        decreases v@.len() - i,
    {
        if v[i] == '/' {
            let w = copy_range(v.as_slice(), start, i);
            proof {
                let t = v@.skip(start as int);
                lemma_char_from(t, '/', 0, (i - start) as int);
                assert(t.take((i - start) as int) == w@);
                assert(t.skip((i - start) + 1) == v@.skip(i + 1));
                assert(segments(t) == seq![w@] + segments(v@.skip(i + 1)));
                assert((seq![w@] + segments(v@.skip(i + 1))).drop_first() == segments(v@.skip(i + 1)));
                lemma_drop_parent_refs_append(seq![w@], segments(v@.skip(i + 1)));
            }
            let ghost before = out@.map_values(|x: Vec<char>| x@);
            push_unless_parent(&mut out, w);
            proof {
                assert(before + drop_parent_refs(seq![w@]) + drop_parent_refs(segments(v@.skip(i + 1)))
                    == before + (drop_parent_refs(seq![w@]) + drop_parent_refs(segments(v@.skip(i + 1)))));
            }
            start = i + 1;
        }
        i += 1;
    }
    let w = copy_range(v.as_slice(), start, v.len());
    proof {
        let t = v@.skip(start as int);
        lemma_char_from(t, '/', 0, t.len() as int);
        assert(t == w@);
        assert(segments(t) == seq![w@]);
        assert(drop_parent_refs(seq![w@]) == drop_parent_refs(seq![w@]) + drop_parent_refs(Seq::<Seq<char>>::empty()));
    }
    push_unless_parent(&mut out, w);
    let joined = join_with(&out, '/');
    string_of(joined.as_slice())
}

/// The text that stays when a table of contents is generated again: when the first
/// heading is the sentinel and a heading starts at or after the end of the sentinel
/// block, everything from that heading on; otherwise all of `s`.
pub open spec fn split_body(s: Seq<char>) -> Seq<char> {
    let ms = all_matches(s);
    let k = marker_from(s, SENTINEL_BLOCK_LEN as int);
    if ms.len() > 0 && ms[0] == SENTINEL@ && k < s.len() {
        s.skip(k)
    } else {
        s
    }
}

/// Drops a table of contents that an earlier run put at the top of the document:
/// the result starts at the first heading after the sentinel block. A document
/// without one, or with no heading after it, comes back whole.
pub fn check_delete_previous_content(matcher: &HeadingMatcher, file_content: &str) -> (r: String)
    ensures
        r@ == split_body(file_content@),
{
    if let Some((_b, m, _a)) = matcher.first_match(file_content) {
        let sentinel = String::from_str(SENTINEL);
        if m == sentinel {
            let v = chars_of(file_content);
            if v.len() > SENTINEL_BLOCK_LEN {
                let tail_chars = copy_range(v.as_slice(), SENTINEL_BLOCK_LEN, v.len());
                let tail = string_of(tail_chars.as_slice());
                if let Some((_b2, m2, a2)) = matcher.first_match(tail.as_str()) {
                    proof {
                        lemma_marker_shift(file_content@, SENTINEL_BLOCK_LEN as int, 0);
                        lemma_marker_from(tail@, 0);
                        assert(tail@ == file_content@.skip(SENTINEL_BLOCK_LEN as int));
                        let k2 = marker_from(tail@, 0);
                        assert(m2@ + a2@ == tail@.skip(k2));
                        assert(tail@.skip(k2) == file_content@.skip(
                            marker_from(file_content@, SENTINEL_BLOCK_LEN as int),
                        ));
                    }
                    let mut r = m2;
                    r.append(a2.as_str());
                    return r;
                } else {
                    proof {
                        lemma_marker_shift(file_content@, SENTINEL_BLOCK_LEN as int, 0);
                    }
                }
            }
        }
    }
    file_content.to_owned()
}

/// The name of the index file written into each directory.
pub const CONTENT_FILE_NAME: &'static str = "Content.md";

/// One child of a directory as it was found on disk: its name, whether it is a
/// directory, when it was last changed (nanoseconds since the epoch, `None` when
/// that could not be read), and, for a directory, its own children.
#[derive(Debug)]
pub struct Entry {
    pub name: String,
    pub is_dir: bool,
    pub modified: Option<u128>,
    pub children: Vec<Entry>,
}

/// When an entry was last changed; an unknown time counts as the epoch.
pub open spec fn time_key(e: Entry) -> int {
    match e.modified {
        Some(t) => t as int,
        None => 0,
    }
}

/// `a` comes strictly before `b` in character order.
pub open spec fn name_lt(a: Seq<char>, b: Seq<char>) -> bool
    decreases a.len(),
{
    if b.len() == 0 {
        false
    } else if a.len() == 0 {
        true
    } else if (a[0] as u32) < (b[0] as u32) {
        true
    } else if a[0] == b[0] {
        name_lt(a.drop_first(), b.drop_first())
    } else {
        false
    }
}

/// `a` must be listed before `b`.
pub open spec fn goes_before(a: Entry, b: Entry, order: SortOrder) -> bool {
    match order {
        SortOrder::Alphabet => name_lt(a.name@, b.name@),
        SortOrder::UpdateTime => time_key(a) < time_key(b),
    }
}

/// `a` may be listed before `b`.
pub open spec fn in_order(a: Entry, b: Entry, order: SortOrder) -> bool {
    !goes_before(b, a, order)
}

/// Every two neighbours are in order.
pub open spec fn sorted_by(s: Seq<Entry>, order: SortOrder) -> bool {
    forall|k: int| 0 <= k < s.len() - 1 ==> #[trigger] in_order(s[k], s[k + 1], order)
}

/// The entry is not a directory's own index file.
pub open spec fn is_listed(e: Entry) -> bool {
    e.name@ != CONTENT_FILE_NAME@
}

/// The entries that are not index files, in order.
pub open spec fn listed(s: Seq<Entry>) -> Seq<Entry>
    decreases s.len(),
{
    if s.len() == 0 {
        Seq::empty()
    } else if is_listed(s[0]) {
        seq![s[0]] + listed(s.drop_first())
    } else {
        listed(s.drop_first())
    }
}

/// Where `e` goes among `s`: after every entry that must come before it.
pub open spec fn insert_pos(s: Seq<Entry>, e: Entry, order: SortOrder) -> nat
    decreases s.len(),
{
    if s.len() > 0 && goes_before(s[0], e, order) {
        1 + insert_pos(s.drop_first(), e, order)
    } else {
        0
    }
}

/// The listed entries of `s`, ordered: each entry, from the last to the first, goes
/// in after every entry that must come before it, so entries that tie keep their
/// order.
pub open spec fn sorted_listing(s: Seq<Entry>, order: SortOrder) -> Seq<Entry>
    decreases s.len(),
{
    if s.len() == 0 {
        Seq::empty()
    } else {
        let rest = sorted_listing(s.drop_first(), order);
        if is_listed(s[0]) {
            rest.insert(insert_pos(rest, s[0], order) as int, s[0])
        } else {
            rest
        }
    }
}

pub proof fn lemma_insert_pos(s: Seq<Entry>, e: Entry, order: SortOrder, n: int)
    requires
        0 <= n <= s.len(),
        forall|k: int| 0 <= k < n ==> goes_before(s[k], e, order),
        n == s.len() || !goes_before(s[n], e, order),
    ensures
        insert_pos(s, e, order) == n,
    decreases n,
{
    if n > 0 {
        lemma_insert_pos(s.drop_first(), e, order, n - 1);
    }
}

pub proof fn lemma_name_lt_asym(a: Seq<char>, b: Seq<char>)
    ensures
        name_lt(a, b) ==> !name_lt(b, a),
    decreases a.len(),
{
    if a.len() > 0 && b.len() > 0 && a[0] == b[0] {
        lemma_name_lt_asym(a.drop_first(), b.drop_first());
    }
}

pub proof fn lemma_name_lt_skip(a: Seq<char>, b: Seq<char>, i: int)
    requires
        0 <= i <= a.len(),
        i <= b.len(),
        forall|j: int| 0 <= j < i ==> a[j] == b[j],
    ensures
        name_lt(a, b) == name_lt(a.skip(i), b.skip(i)),
    decreases i,
{
    if i > 0 {
        assert(a[0] == b[0]);
        assert(name_lt(a, b) == name_lt(a.drop_first(), b.drop_first()));
        lemma_name_lt_skip(a.drop_first(), b.drop_first(), i - 1);
        assert(a.drop_first().skip(i - 1) == a.skip(i));
        assert(b.drop_first().skip(i - 1) == b.skip(i));
    } else {
        assert(a.skip(0) == a);
        assert(b.skip(0) == b);
    }
}

/// Whether `a` comes strictly before `b` in character order.
fn name_less(a: &String, b: &String) -> (r: bool)
    ensures
        r == name_lt(a@, b@),
{
    let x = chars_of(a.as_str());
    let y = chars_of(b.as_str());
    let mut i: usize = 0;
    while i < x.len() && i < y.len() && x[i] == y[i]
        invariant
            0 <= i <= x@.len(),
            i <= y@.len(),
            forall|j: int| 0 <= j < i ==> x@[j] == y@[j],
        decreases x@.len() - i,
    {
        i += 1;
    }
    proof {
        lemma_name_lt_skip(x@, y@, i as int);
    }
    if i == y.len() {
        false
    } else if i == x.len() {
        true
    } else {
        (x[i] as u32) < (y[i] as u32)
    }
}

/// Whether `a` must be listed before `b`.
fn entry_before(a: &Entry, b: &Entry, order: SortOrder) -> (r: bool)
    ensures
        r == goes_before(*a, *b, order),
{
    match order {
        SortOrder::Alphabet => name_less(&a.name, &b.name),
        SortOrder::UpdateTime => {
            let ta: u128 = match a.modified {
                Some(t) => t,
                None => 0,
            };
            let tb: u128 = match b.modified {
                Some(t) => t,
                None => 0,
            };
            ta < tb
        },
    }
}

/// The children of a directory without its index file, ordered by name or by the
/// time they were last changed (an unknown time first); entries that tie keep the
/// order in which they came.
pub fn sort_filter_entries(entries: Vec<Entry>, order: SortOrder) -> (r: Vec<Entry>)
    ensures
        r@ == sorted_listing(entries@, order),
        sorted_by(r@, order),
        r@.to_multiset() == listed(entries@).to_multiset(),
        forall|k: int| 0 <= k < r@.len() ==> is_listed(#[trigger] r@[k]),
{
    broadcast use vstd::seq_lib::group_to_multiset_ensures;
    let ghost orig = entries@;
    let mut entries = entries;
    let mut out: Vec<Entry> = Vec::new();
    let content_name = String::from_str(CONTENT_FILE_NAME);
    proof {
        assert(orig.skip(orig.len() as int) == Seq::<Entry>::empty());
    }
    while entries.len() > 0
        invariant
            entries@.len() <= orig.len(),
            entries@ == orig.take(entries@.len() as int),
            content_name@ == CONTENT_FILE_NAME@,
            out@ == sorted_listing(orig.skip(entries@.len() as int), order),
            sorted_by(out@, order),
            out@.to_multiset() == listed(orig.skip(entries@.len() as int)).to_multiset(),
            forall|k: int| 0 <= k < out@.len() ==> is_listed(#[trigger] out@[k]),
        decreases entries@.len(),
    {
        let ghost n = entries@.len() as int;
        let e = entries.pop().unwrap();
        proof {
            assert(e == orig[n - 1]);
            assert(orig.skip(n - 1).drop_first() == orig.skip(n));
            assert(orig.skip(n - 1)[0] == e);
            assert(entries@ == orig.take(n - 1));
        }
        if e.name == content_name {
            proof {
                assert(!is_listed(e));
                assert(listed(orig.skip(n - 1)) == listed(orig.skip(n)));
                assert(sorted_listing(orig.skip(n - 1), order) == sorted_listing(orig.skip(n), order));
            }
        } else {
            let mut j: usize = 0;
            while j < out.len() && entry_before(&out[j], &e, order)
                invariant
                    0 <= j <= out@.len(),
                    forall|k: int| 0 <= k < j ==> goes_before(out@[k], e, order),
                decreases out@.len() - j,
            {
                j += 1;
            }
            let ghost prev = out@;
            proof {
                lemma_insert_pos(prev, e, order, j as int);
                assert(sorted_listing(orig.skip(n - 1), order) == prev.insert(j as int, e));
                assert(j < prev.len() ==> !goes_before(prev[j as int], e, order));
                if j > 0 {
                    assert(goes_before(prev[j - 1], e, order));
                    lemma_name_lt_asym(prev[j - 1].name@, e.name@);
                    assert(in_order(prev[j - 1], e, order));
                }
            }
            let ghost ev = e;
            out.insert(j, e);
            proof {
                let s = out@;
                assert(s == prev.insert(j as int, ev));
                assert forall|k: int| 0 <= k < s.len() - 1 implies #[trigger] in_order(s[k], s[k + 1], order) by {
                    if k + 1 < j {
                        assert(in_order(prev[k], prev[k + 1], order));
                    } else if k + 1 == j {
                    } else if k == j {
                    } else {
                        let m = k - 1;
                        assert(in_order(prev[m], prev[m + 1], order));
                    }
                }
                let l = listed(orig.skip(n));
                assert(listed(orig.skip(n - 1)) == seq![ev] + l);
                assert(seq![ev] + l == l.insert(0, ev));
                vstd::seq_lib::to_multiset_insert(l, 0, ev);
                vstd::seq_lib::to_multiset_insert(prev, j as int, ev);
            }
        }
    }
    proof {
        assert(orig.skip(0) == orig);
    }
    out
}

/// A heading written as `k` markers, a space and a text parses to depth `k` and the
/// text with its whitespace collapsed and its outer `*` runs removed.
pub proof fn lemma_parse_heading_shape(k: nat, text: Seq<char>)
    ensures
        parse_heading(Seq::new(k, |i: int| '#') + seq![' '] + text) == (
            k as int,
            strip_stars(join_sep(words(text), ' ')),
        ),
{
    let s = Seq::new(k, |i: int| '#') + seq![' '] + text;
    lemma_lead_count(s, '#', k as int);
    let r = s.skip(k as int);
    assert(r.drop_first() =~= text);
    assert(words(r) == words(text));
}

} // verus!
