use vstd::prelude::*;
use crate::matcher::{
    all_matches, lemma_line_end_at, lemma_marker_from_skip, lemma_matches_after_prefix,
    marker_at, marker_from, HeadingMatcher,
};
use crate::data::SortOrder;
use crate::text::{chars_of, copy_range, ends_with, has_suffix, push_all, string_of};
use crate::util::{
    check_delete_previous_content, parse_heading, parse_title, sort_filter_entries,
    sorted_listing, split_body, Entry, MARKDOWN_EXT, SENTINEL,
};
use crate::text::{join_sep, lemma_lead_count, lemma_trail_count, lemma_word_len, words};

verus! {

/// What a rewritten document starts with.
pub const FILE_TEMPLATE: &'static str = "\n## Content\n---\n";

/// What a directory index starts with.
pub const DIR_TEMPLATE: &'static str = "\n---\n";

/// The text of a heading that never enters an outline.
pub const CONTENT_TITLE: &'static str = "Content";

/// `n` tabs (none when `n` is not positive).
pub open spec fn tabs(n: int) -> Seq<char> {
    Seq::new(if n > 0 { n as nat } else { 0 }, |i: int| '\t')
}

/// The indentation of a line at nesting `level`: one tab per level below 2.
pub open spec fn indent(level: int) -> Seq<char> {
    tabs(level - 2)
}

/// A bullet that links to `name`: inside the document (`#`) for a heading, or to
/// another note for a file.
pub open spec fn content_row(level: int, name: Seq<char>, if_file: bool) -> Seq<char> {
    indent(level) + (if if_file {
        "* [[#"@
    } else {
        "* [["@
    }) + name + "]]\n"@
}

/// The bold label of a subdirectory.
pub open spec fn dir_row(level: int, name: Seq<char>) -> Seq<char> {
    indent(level) + "* **"@ + name + ":**\n"@
}

fn push_indent(out: &mut Vec<char>, level: usize)
    ensures
        final(out)@ == old(out)@ + indent(level as int),
{
    let n: usize = if level >= 2 {
        level - 2
    } else {
        0
    };
    let mut i: usize = 0;
    while i < n
        invariant
            0 <= i <= n,
            n == (if level >= 2 { level - 2 } else { 0 }),
            out@ == old(out)@ + tabs(i as int),
        decreases n - i,
    {
        out.push('\t');
        i += 1;
        proof {
            assert(tabs(i as int) == tabs(i - 1).push('\t'));
        }
    }
}

/// One bullet line: indented by `level`, linking to `name` (with `#` for a heading
/// inside the same document).
pub fn gen_content_row(level: usize, name: &str, if_file: bool) -> (r: String)
    ensures
        r@ == content_row(level as int, name@, if_file),
{
    let mut row: Vec<char> = Vec::new();
    push_indent(&mut row, level);
    let open = if if_file {
        chars_of("* [[#")
    } else {
        chars_of("* [[")
    };
    push_all(&mut row, open.as_slice());
    push_all(&mut row, chars_of(name).as_slice());
    push_all(&mut row, chars_of("]]\n").as_slice());
    string_of(row.as_slice())
}

/// The bold label line of a subdirectory, indented by `level`.
pub fn gen_dir_name(level: usize, name: &str) -> (r: String)
    ensures
        r@ == dir_row(level as int, name@),
{
    let mut row: Vec<char> = Vec::new();
    push_indent(&mut row, level);
    push_all(&mut row, chars_of("* **").as_slice());
    push_all(&mut row, chars_of(name).as_slice());
    push_all(&mut row, chars_of(":**\n").as_slice());
    string_of(row.as_slice())
}

/// A heading as depth and text.
pub open spec fn heading_view(h: (usize, String)) -> (int, Seq<char>) {
    (h.0 as int, h.1@)
}

/// The headings with their depths closed up: the first keeps its depth, and each
/// later one is at most one deeper than the one before it (as rewritten).
pub open spec fn fill_gaps(hs: Seq<(int, Seq<char>)>) -> Seq<(int, Seq<char>)>
    decreases hs.len(),
{
    if hs.len() <= 1 {
        hs
    } else {
        let p = fill_gaps(hs.drop_last());
        let prev = p.last().0;
        let d = hs.last().0;
        p.push((if d > prev + 1 { prev + 1 } else { d }, hs.last().1))
    }
}

pub proof fn lemma_fill_gaps_len(hs: Seq<(int, Seq<char>)>)
    ensures
        fill_gaps(hs).len() == hs.len(),
    decreases hs.len(),
{
    if hs.len() > 1 {
        lemma_fill_gaps_len(hs.drop_last());
    }
}

/// Closes up the depth gaps of the headings, left to right (2, 4, 4, 5 becomes
/// 2, 3, 3, 4).
pub fn fill_title_gap(titles: &mut Vec<(usize, String)>)
    ensures
        final(titles)@.map_values(|h: (usize, String)| heading_view(h)) == fill_gaps(
            old(titles)@.map_values(|h: (usize, String)| heading_view(h)),
        ),
{
    let ghost orig = old(titles)@.map_values(|h: (usize, String)| heading_view(h));
    if titles.len() == 0 {
        return;
    }
    let mut cur: usize = titles[0].0;
    let mut i: usize = 1;
    proof {
        assert(orig.take(1).len() == 1);
        assert(titles@.map_values(|h: (usize, String)| heading_view(h)).take(1) == orig.take(1));
    }
    while i < titles.len()
        invariant
            1 <= i <= titles@.len(),
            titles@.len() == orig.len(),
            orig == old(titles)@.map_values(|h: (usize, String)| heading_view(h)),
            cur == titles@[i - 1].0,
            titles@.map_values(|h: (usize, String)| heading_view(h)).take(i as int) == fill_gaps(
                orig.take(i as int),
            ),
            forall|j: int| i <= j < titles@.len() ==> heading_view(titles@[j]) == orig[j],
        decreases titles@.len() - i,
    {
        let ghost prev_view = titles@.map_values(|h: (usize, String)| heading_view(h));
        let d = titles[i].0;
        proof {
            lemma_fill_gaps_len(orig.take(i as int));
            assert(orig.take(i + 1).drop_last() == orig.take(i as int));
            assert(fill_gaps(orig.take(i as int)).last() == prev_view[i - 1]);
        }
        if d > cur && d - cur > 1 {
            let t = titles[i].1.clone();
            titles.set(i, (cur + 1, t));
        }
        cur = titles[i].0;
        proof {
            let nv = titles@.map_values(|h: (usize, String)| heading_view(h));
            assert(nv.take(i + 1) == nv.take(i as int).push(nv[i as int]));
            assert(nv.take(i as int) == prev_view.take(i as int));
        }
        i += 1;
    }
    proof {
        assert(orig.take(i as int) == orig);
        assert(titles@.map_values(|h: (usize, String)| heading_view(h)).take(i as int)
            == titles@.map_values(|h: (usize, String)| heading_view(h)));
    }
}

} // verus!

verus! {

/// A heading stays in an outline when it is no deeper than `depth` and is not the
/// table of contents' own heading.
pub open spec fn keeps(h: (int, Seq<char>), depth: int) -> bool {
    h.0 <= depth && h.1 != CONTENT_TITLE@
}

/// The headings that stay, in order.
pub open spec fn kept(hs: Seq<(int, Seq<char>)>, depth: int) -> Seq<(int, Seq<char>)>
    decreases hs.len(),
{
    if hs.len() == 0 {
        Seq::empty()
    } else if keeps(hs[0], depth) {
        seq![hs[0]] + kept(hs.drop_first(), depth)
    } else {
        kept(hs.drop_first(), depth)
    }
}

/// The outline of a document: its parsed heading matches, those that stay, with
/// their depth gaps closed up.
pub open spec fn outline(s: Seq<char>, depth: int) -> Seq<(int, Seq<char>)> {
    fill_gaps(kept(all_matches(s).map_values(|m: Seq<char>| parse_heading(m)), depth))
}

/// The table of contents of an outline: one row per heading.
pub open spec fn render_toc(hs: Seq<(int, Seq<char>)>) -> Seq<char>
    decreases hs.len(),
{
    if hs.len() == 0 {
        Seq::empty()
    } else {
        render_toc(hs.drop_last()) + content_row(hs.last().0, hs.last().1, true)
    }
}

/// A document after extraction: the header, its table of contents, and its body
/// with any earlier table of contents dropped.
pub open spec fn file_output(s: Seq<char>, depth: int) -> Seq<char> {
    FILE_TEMPLATE@ + render_toc(outline(s, depth)) + split_body(s)
}

/// The outline of a document, as depth and text pairs.
pub fn extract_file_titles(matcher: &HeadingMatcher, content: &str, depth: usize) -> (r: Vec<(usize, String)>)
    ensures
        r@.map_values(|h: (usize, String)| heading_view(h)) == outline(content@, depth as int),
{
    let ms = matcher.all_matches(content);
    let ghost parsed = all_matches(content@).map_values(|m: Seq<char>| parse_heading(m));
    let mut res: Vec<(usize, String)> = Vec::new();
    let content_title = String::from_str(CONTENT_TITLE);
    let mut i: usize = 0;
    proof {
        assert(parsed.skip(0) == parsed);
        assert(res@.map_values(|h: (usize, String)| heading_view(h)) + kept(parsed, depth as int)
            == kept(parsed, depth as int));
    }
    while i < ms.len()
        invariant
            0 <= i <= ms@.len(),
            ms@.map_values(|s: String| s@) == all_matches(content@),
            parsed == all_matches(content@).map_values(|m: Seq<char>| parse_heading(m)),
            content_title@ == CONTENT_TITLE@,
            kept(parsed, depth as int) == res@.map_values(|h: (usize, String)| heading_view(h))
                + kept(parsed.skip(i as int), depth as int),
        decreases ms@.len() - i,
    {
        let (d, t) = parse_title(ms[i].as_str());
        let keep = d <= depth && !(t == content_title);
        proof {
            let rest = parsed.skip(i as int);
            assert(rest[0] == parse_heading(ms@[i as int]@));
            assert(rest.drop_first() == parsed.skip(i + 1));
            assert(keep == keeps(rest[0], depth as int));
        }
        let ghost before = res@.map_values(|h: (usize, String)| heading_view(h));
        if keep {
            let ghost hv = (d as int, t@);
            res.push((d, t));
            proof {
                assert(res@.map_values(|h: (usize, String)| heading_view(h)) == before.push(hv));
                assert(before.push(hv) + kept(parsed.skip(i + 1), depth as int) == before + (seq![hv]
                    + kept(parsed.skip(i + 1), depth as int)));
            }
        }
        i += 1;
    }
    proof {
        assert(kept(parsed.skip(i as int), depth as int) == Seq::<(int, Seq<char>)>::empty());
        assert(res@.map_values(|h: (usize, String)| heading_view(h)) + Seq::<(int, Seq<char>)>::empty()
            == res@.map_values(|h: (usize, String)| heading_view(h)));
    }
    fill_title_gap(&mut res);
    res
}

/// The new text of a document: the header, a table of contents of its headings no
/// deeper than `depth`, and its body without any earlier table of contents.
pub fn extract_file_content(matcher: &HeadingMatcher, content: &str, depth: usize) -> (r: String)
    ensures
        r@ == file_output(content@, depth as int),
{
    let titles = extract_file_titles(matcher, content, depth);
    let ghost hs = titles@.map_values(|h: (usize, String)| heading_view(h));
    let mut res = chars_of(FILE_TEMPLATE);
    let mut i: usize = 0;
    while i < titles.len()
        invariant
            0 <= i <= titles@.len(),
            hs == titles@.map_values(|h: (usize, String)| heading_view(h)),
            res@ == FILE_TEMPLATE@ + render_toc(hs.take(i as int)),
        decreases titles@.len() - i,
    {
        let row = gen_content_row(titles[i].0, titles[i].1.as_str(), true);
        push_all(&mut res, chars_of(row.as_str()).as_slice());
        proof {
            assert(hs.take(i + 1).drop_last() == hs.take(i as int));
        }
        i += 1;
    }
    proof {
        assert(hs.take(i as int) == hs);
    }
    let body = check_delete_previous_content(matcher, content);
    push_all(&mut res, chars_of(body.as_str()).as_slice());
    string_of(res.as_slice())
}

/// Closing up depth gaps keeps the first depth, never lets a depth rise by more than
/// one from the one before, and leaves alone every depth that does not need it.
pub proof fn lemma_fill_gaps(hs: Seq<(int, Seq<char>)>)
    ensures
        fill_gaps(hs).len() == hs.len(),
        hs.len() > 0 ==> fill_gaps(hs)[0] == hs[0],
        forall|i: int| 0 < i < hs.len() ==> #[trigger] fill_gaps(hs)[i].0 - fill_gaps(hs)[i - 1].0 <= 1,
        forall|i: int|
            0 < i < hs.len() && hs[i].0 - fill_gaps(hs)[i - 1].0 <= 1 ==> #[trigger] fill_gaps(hs)[i]
                == hs[i],
        forall|i: int| 0 <= i < hs.len() ==> fill_gaps(hs)[i].1 == hs[i].1,
    decreases hs.len(),
{
    if hs.len() > 1 {
        lemma_fill_gaps(hs.drop_last());
        let p = fill_gaps(hs.drop_last());
        assert forall|i: int| 0 < i < hs.len() - 1 implies fill_gaps(hs)[i] == p[i]
            && fill_gaps(hs)[i - 1] == p[i - 1] && hs[i] == hs.drop_last()[i] by {}
    }
}

} // verus!

verus! {

/// The name of a directory that is never indexed.
pub const IMAGES_DIR: &'static str = "imgs";

/// `pre` is `src` with the same names, kinds and times, and each one's children
/// arranged.
pub open spec fn children_arranged(pre: Seq<Entry>, src: Seq<Entry>, order: SortOrder) -> bool
    decreases src, 0nat,
{
    &&& pre.len() == src.len()
    &&& forall|i: int|
        0 <= i < src.len() ==> {
            &&& (#[trigger] pre[i]).name@ == src[i].name@
            &&& pre[i].is_dir == src[i].is_dir
            &&& pre[i].modified == src[i].modified
            &&& arranged_from(pre[i].children@, src[i].children@, order)
        }
}

/// `r` is the tree `src` with every level sorted and filtered: the children of each
/// entry are arranged first, then the entries themselves are listed in order.
pub open spec fn arranged_from(r: Seq<Entry>, src: Seq<Entry>, order: SortOrder) -> bool
    decreases src, 1nat,
{
    exists|pre: Seq<Entry>| children_arranged(pre, src, order) && r == sorted_listing(pre, order)
}

/// Sorts and filters every level of a directory tree.
pub fn arrange(entries: Vec<Entry>, order: SortOrder) -> (r: Vec<Entry>)
    ensures
        arranged_from(r@, entries@, order),
    decreases entries@,
{
    let ghost src = entries@;
    let mut rest = entries;
    let mut pre: Vec<Entry> = Vec::new();
    let mut i: usize = 0;
    proof {
        assert(src.len() == rest.len());
        assert(src.skip(0) == src);
    }
    while rest.len() > 0
        invariant
            i <= src.len(),
            src.len() <= usize::MAX,
            rest@ == src.skip(i as int),
            src == entries@,
            children_arranged(pre@, src.take(i as int), order),
        decreases rest@.len(),
    {
        let e = rest.remove(0);
        proof {
            assert(e == src[i as int]);
            assert(rest@ == src.skip(i + 1));
            assert(decreases_to!(src => src[i as int]));
            assert(decreases_to!(src[i as int] => src[i as int].children));
            assert(decreases_to!(src[i as int].children => src[i as int].children@));
        }
        let Entry { name, is_dir, modified, children } = e;
        proof {
            assert(children == src[i as int].children);
            assert(decreases_to!(src => children@));
        }
        let arranged = arrange(children, order);
        let ghost before = pre@;
        pre.push(Entry { name, is_dir, modified, children: arranged });
        proof {
            let t = src.take(i + 1);
            assert(t.len() == pre@.len());
            assert forall|k: int| 0 <= k < t.len() implies {
                &&& (#[trigger] pre@[k]).name@ == t[k].name@
                &&& pre@[k].is_dir == t[k].is_dir
                &&& pre@[k].modified == t[k].modified
                &&& arranged_from(pre@[k].children@, t[k].children@, order)
            } by {
                if k < i {
                    assert(pre@[k] == before[k]);
                    assert(t[k] == src.take(i as int)[k]);
                }
            }
        }
        i += 1;
    }
    proof {
        assert(src.take(i as int) == src);
    }
    let r = sort_filter_entries(pre, order);
    proof {
        assert(children_arranged(pre@, src, order) && r@ == sorted_listing(pre@, order));
    }
    r
}

/// The level below `level` (a level cannot grow past the largest `usize`).
pub open spec fn next_level(level: int) -> int {
    if level < usize::MAX {
        level + 1
    } else {
        level
    }
}

/// A file name without its `.md`.
pub open spec fn stem(name: Seq<char>) -> Seq<char> {
    name.take(name.len() - MARKDOWN_EXT@.len())
}

/// The lines that an arranged tree adds to a directory index: a label for each
/// directory followed by its own lines one level deeper, a link for each markdown
/// file, nothing for `imgs` and for other files. `prefix` is the path from the
/// indexed directory.
pub open spec fn index_lines(t: Seq<Entry>, level: int, prefix: Seq<char>) -> Seq<char>
    decreases t,
{
    if t.len() == 0 {
        Seq::empty()
    } else {
        let e = t.last();
        index_lines(t.drop_last(), level, prefix) + if e.name@ == IMAGES_DIR@ {
            Seq::empty()
        } else if e.is_dir {
            dir_row(level, e.name@) + index_lines(
                e.children@,
                next_level(level),
                prefix + e.name@ + "/"@,
            )
        } else if ends_with(e.name@, MARKDOWN_EXT@) {
            content_row(level, prefix + stem(e.name@) + "|"@ + stem(e.name@), false)
        } else {
            Seq::empty()
        }
    }
}

/// The markdown files of an arranged tree, in the order of the index, as paths from
/// the indexed directory.
pub open spec fn index_files(t: Seq<Entry>, prefix: Seq<char>) -> Seq<Seq<char>>
    decreases t,
{
    if t.len() == 0 {
        Seq::empty()
    } else {
        let e = t.last();
        index_files(t.drop_last(), prefix) + if e.name@ == IMAGES_DIR@ {
            Seq::empty()
        } else if e.is_dir {
            index_files(e.children@, prefix + e.name@ + "/"@)
        } else if ends_with(e.name@, MARKDOWN_EXT@) {
            seq![prefix + e.name@]
        } else {
            Seq::empty()
        }
    }
}

/// Writes the index lines of an arranged tree and collects its markdown files.
fn render_entries(
    t: &Vec<Entry>,
    level: usize,
    prefix: &Vec<char>,
    out: &mut Vec<char>,
    files: &mut Vec<String>,
)
    ensures
        final(out)@ == old(out)@ + index_lines(t@, level as int, prefix@),
        final(files)@.map_values(|f: String| f@) == old(files)@.map_values(|f: String| f@)
            + index_files(t@, prefix@),
    decreases t@,
{
    let imgs = String::from_str(IMAGES_DIR);
    let ext = chars_of(MARKDOWN_EXT);
    let mut i: usize = 0;
    while i < t.len()
        invariant
            0 <= i <= t@.len(),
            imgs@ == IMAGES_DIR@,
            ext@ == MARKDOWN_EXT@,
            out@ == old(out)@ + index_lines(t@.take(i as int), level as int, prefix@),
            files@.map_values(|f: String| f@) == old(files)@.map_values(|f: String| f@)
                + index_files(t@.take(i as int), prefix@),
        decreases t@.len() - i,
    {
        let e = &t[i];
        let ghost out0 = out@;
        let ghost files0 = files@.map_values(|f: String| f@);
        proof {
            assert(t@.take(i + 1).drop_last() == t@.take(i as int));
            assert(t@.take(i + 1).last() == t@[i as int]);
        }
        if e.name == imgs {
            proof {
                assert(out@ == out0 + Seq::<char>::empty());
                assert(files0 == files0 + Seq::<Seq<char>>::empty());
            }
        } else if e.is_dir {
            let row = gen_dir_name(level, e.name.as_str());
            push_all(out, chars_of(row.as_str()).as_slice());
            let mut sub: Vec<char> = copy_range(prefix.as_slice(), 0, prefix.len());
            push_all(&mut sub, chars_of(e.name.as_str()).as_slice());
            push_all(&mut sub, chars_of("/").as_slice());
            let next: usize = if level < usize::MAX {
                level + 1
            } else {
                level
            };
            proof {
                assert(prefix@.subrange(0, prefix@.len() as int) == prefix@);
                assert(decreases_to!(t@ => t@[i as int]));
            }
            render_entries(&e.children, next, &sub, out, files);
            proof {
                let d = dir_row(level as int, e.name@);
                let l = index_lines(e.children@, next as int, sub@);
                assert(out0 + d + l == out0 + (d + l));
            }
        } else {
            let name = chars_of(e.name.as_str());
            if has_suffix(name.as_slice(), ext.as_slice()) {
                let st = copy_range(name.as_slice(), 0, name.len() - ext.len());
                let mut link: Vec<char> = copy_range(prefix.as_slice(), 0, prefix.len());
                push_all(&mut link, st.as_slice());
                push_all(&mut link, chars_of("|").as_slice());
                push_all(&mut link, st.as_slice());
                let ls = string_of(link.as_slice());
                let row = gen_content_row(level, ls.as_str(), false);
                push_all(out, chars_of(row.as_str()).as_slice());
                let mut path: Vec<char> = copy_range(prefix.as_slice(), 0, prefix.len());
                push_all(&mut path, name.as_slice());
                let ps = string_of(path.as_slice());
                let ghost pv = ps@;
                files.push(ps);
                proof {
                    assert(prefix@.subrange(0, prefix@.len() as int) == prefix@);
                    assert(files@.map_values(|f: String| f@) == files0.push(pv));
                }
            } else {
                proof {
                    assert(out@ == out0 + Seq::<char>::empty());
                    assert(files0 == files0 + Seq::<Seq<char>>::empty());
                }
            }
        }
        i += 1;
    }
    proof {
        assert(t@.take(i as int) == t@);
    }
}

/// A directory's index: the text of its index file and the markdown files it lists,
/// as paths from the directory.
pub struct DirIndex {
    pub content: String,
    pub files: Vec<String>,
}

/// Builds the index of a directory from its children as found on disk: every level
/// is sorted and filtered, then the header is followed by the lines of the tree.
pub fn dir_index(entries: Vec<Entry>, order: SortOrder) -> (r: DirIndex)
    ensures
        exists|t: Seq<Entry>|
            {
                &&& arranged_from(t, entries@, order)
                &&& r.content@ == DIR_TEMPLATE@ + index_lines(t, 2, Seq::empty())
                &&& r.files@.map_values(|f: String| f@) == index_files(t, Seq::empty())
            },
{
    let tree = arrange(entries, order);
    let mut out = chars_of(DIR_TEMPLATE);
    let mut files: Vec<String> = Vec::new();
    let prefix: Vec<char> = Vec::new();
    render_entries(&tree, 2, &prefix, &mut out, &mut files);
    proof {
        assert(files@.map_values(|f: String| f@) == Seq::<Seq<char>>::empty() + index_files(tree@, prefix@));
        assert(Seq::<Seq<char>>::empty() + index_files(tree@, prefix@) == index_files(tree@, prefix@));
        assert(prefix@ == Seq::<char>::empty());
    }
    DirIndex { content: string_of(out.as_slice()), files }
}

} // verus!

verus! {

pub proof fn lemma_toc_last(hs: Seq<(int, Seq<char>)>)
    ensures
        hs.len() == 0 ==> render_toc(hs).len() == 0,
        hs.len() > 0 ==> render_toc(hs).len() > 0 && render_toc(hs).last() == '\n',
{
    if hs.len() > 0 {
        reveal_strlit("]]\n");
        let h = hs.last();
        let row = content_row(h.0, h.1, true);
        assert(row.last() == '\n');
    }
}

/// No marker starts in `toc`.
pub open spec fn marker_free(toc: Seq<char>) -> bool {
    forall|i: int| !marker_at(toc, i)
}

/// A document whose body starts with a heading and whose new table of contents
/// holds no `##`: after a table of contents is generated for it, the first match is
/// the sentinel, then come the matches of the body, and dropping the generated table
/// of contents gives back exactly that body.
pub proof fn lemma_split_after_generate(d: Seq<char>, depth: int)
    requires
        split_body(d).len() >= 2,
        split_body(d)[0] == '#',
        split_body(d)[1] == '#',
        marker_free(render_toc(outline(d, depth))),
    ensures
        all_matches(file_output(d, depth)) == seq![SENTINEL@] + all_matches(split_body(d)),
        split_body(file_output(d, depth)) == split_body(d),
{
    reveal_strlit("\n## Content\n---\n");
    reveal_strlit("## Content");
    let t = FILE_TEMPLATE@;
    let toc = render_toc(outline(d, depth));
    let b = split_body(d);
    let g = file_output(d, depth);
    lemma_toc_last(outline(d, depth));
    assert(g == t + toc + b);
    assert(t.len() == 16);
    let n: int = 16 + toc.len() as int;
    // the sentinel is the first match
    assert(!marker_at(g, 0));
    assert(marker_at(g, 1));
    assert(marker_from(g, 1) == 1);
    assert(marker_from(g, 0) == marker_from(g, 1));
    lemma_line_end_at(g, 3, 11);
    assert(g.subrange(1, 11) =~= SENTINEL@);
    // after it, only the body holds markers
    let x = t.skip(11) + toc;
    assert(g.skip(11) =~= x + b);
    assert forall|i: int| 0 <= i < x.len() implies !marker_at(x + b, i) by {
        if i >= 5 && i + 1 < x.len() {
            assert(!marker_at(toc, i - 5));
        }
    }
    lemma_matches_after_prefix(x, b);
    assert(all_matches(g) == seq![g.subrange(1, 11)] + all_matches(g.skip(11)));
    // the search after the sentinel block stops at the body
    assert forall|m: int| 15 <= m < n implies !marker_at(g, m) by {
        if 16 <= m && m + 1 < n {
            assert(!marker_at(toc, m - 16));
        }
    }
    lemma_marker_from_skip(g, 15, n);
    assert(marker_at(g, n));
    assert(marker_from(g, n) == n);
    assert(g.skip(n) =~= b);
}

/// The heading that opens a generated table of contents never enters an outline.
pub proof fn lemma_sentinel_heading()
    ensures
        parse_heading(SENTINEL@) == (2int, CONTENT_TITLE@),
{
    reveal_strlit("## Content");
    reveal_strlit("Content");
    let s = SENTINEL@;
    lemma_lead_count(s, '#', 2);
    let r = s.skip(2);
    assert(r.drop_first() =~= CONTENT_TITLE@);
    let c = CONTENT_TITLE@;
    lemma_word_len(c, 7);
    assert(c.take(7) =~= c);
    assert(c.skip(7) =~= Seq::<char>::empty());
    assert(words(c) == seq![c] + words(Seq::<char>::empty()));
    assert(words(r) == words(c));
    assert(words(r) =~= seq![c]);
    assert(join_sep(seq![c], ' ') == c);
    lemma_lead_count(c, '*', 0);
    assert(c.skip(0) =~= c);
    lemma_trail_count(c, '*', 0);
    assert(c.take(7) =~= c);
}

/// Extracting a document twice gives what extracting it once gives, when its body
/// starts with a heading, its table of contents holds no `##`, and any table of
/// contents it already carried held no heading that stays in its outline.
pub proof fn lemma_extract_idempotent(d: Seq<char>, depth: int)
    requires
        split_body(d).len() >= 2,
        split_body(d)[0] == '#',
        split_body(d)[1] == '#',
        marker_free(render_toc(outline(d, depth))),
        outline(split_body(d), depth) == outline(d, depth),
    ensures
        file_output(file_output(d, depth), depth) == file_output(d, depth),
{
    lemma_split_after_generate(d, depth);
    lemma_sentinel_heading();
    let g = file_output(d, depth);
    let b = split_body(d);
    let mb = all_matches(b);
    let pm = (seq![SENTINEL@] + mb).map_values(|m: Seq<char>| parse_heading(m));
    let pb = mb.map_values(|m: Seq<char>| parse_heading(m));
    assert(pm =~= seq![parse_heading(SENTINEL@)] + pb);
    assert(pm.drop_first() =~= pb);
    assert(!keeps(pm[0], depth));
    assert(kept(pm, depth) == kept(pb, depth));
    assert(outline(g, depth) == outline(b, depth));
}

} // verus!

verus! {

/// The depth filter keeps a heading exactly when it is no deeper than `depth` (and
/// is not the table of contents' own heading): one at `depth` stays, one deeper goes.
pub proof fn lemma_depth_filter(hs: Seq<(int, Seq<char>)>, depth: int)
    ensures
        forall|i: int| 0 <= i < kept(hs, depth).len() ==> keeps(#[trigger] kept(hs, depth)[i], depth),
        forall|i: int| 0 <= i < hs.len() && keeps(#[trigger] hs[i], depth) ==> kept(hs, depth).contains(hs[i]),
    decreases hs.len(),
{
    if hs.len() > 0 {
        let rest = hs.drop_first();
        lemma_depth_filter(rest, depth);
        let k = kept(hs, depth);
        let kr = kept(rest, depth);
        if keeps(hs[0], depth) {
            assert(k == seq![hs[0]] + kr);
            assert forall|i: int| 0 <= i < k.len() implies keeps(#[trigger] k[i], depth) by {
                if i > 0 {
                    assert(k[i] == kr[i - 1]);
                }
            }
            assert forall|i: int| 0 <= i < hs.len() && keeps(#[trigger] hs[i], depth) implies k.contains(hs[i]) by {
                if i == 0 {
                    assert(k[0] == hs[0]);
                } else {
                    assert(hs[i] == rest[i - 1]);
                    let j = choose|j: int| 0 <= j < kr.len() && kr[j] == rest[i - 1];
                    assert(k[j + 1] == kr[j]);
                }
            }
        } else {
            assert forall|i: int| 0 <= i < hs.len() && keeps(#[trigger] hs[i], depth) implies k.contains(hs[i]) by {
                assert(i != 0);
                assert(hs[i] == rest[i - 1]);
            }
        }
    }
}

} // verus!
