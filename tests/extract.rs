use ob_plugin::data::SortOrder;
use ob_plugin::extract::{
    dir_index, extract_file_content, extract_file_titles, fill_title_gap, gen_content_row,
    gen_dir_name,
};
use ob_plugin::matcher::HeadingMatcher;
use ob_plugin::util::Entry;

fn matcher() -> HeadingMatcher {
    HeadingMatcher::new().unwrap()
}

fn file(name: &str, modified: Option<u128>) -> Entry {
    Entry { name: name.to_string(), is_dir: false, modified, children: Vec::new() }
}

fn dir(name: &str, modified: Option<u128>, children: Vec<Entry>) -> Entry {
    Entry { name: name.to_string(), is_dir: true, modified, children }
}

#[test]
fn test_regex() {
    let text = "#### This is a sample text";

    let bres = matcher().first_match(text);
    assert!(bres.is_some());
    let (_before, whole, _after) = bres.unwrap();

    assert!(whole.len() > 2);
    assert_eq!(&whole[2..], "## This is a sample text");
}

#[test]
fn matches_run_to_the_end_of_the_line() {
    let m = matcher();
    let all = m.all_matches("intro ## one\nplain\n### two ##\n# single");
    assert_eq!(all, vec!["## one".to_string(), "### two ##".to_string()]);
    assert!(m.first_match("no headings # here").is_none());
}

#[test]
fn rows_are_indented_by_level() {
    assert_eq!(gen_content_row(2, "A", true), "* [[#A]]\n");
    assert_eq!(gen_content_row(4, "B", true), "\t\t* [[#B]]\n");
    assert_eq!(gen_content_row(3, "sub/a|a", false), "\t* [[sub/a|a]]\n");
    assert_eq!(gen_dir_name(2, "notes"), "* **notes:**\n");
    assert_eq!(gen_dir_name(3, "deep"), "\t* **deep:**\n");
}

#[test]
fn gaps_are_closed_left_to_right() {
    let mut titles: Vec<(usize, String)> =
        vec![2, 4, 4, 5].into_iter().map(|d| (d, format!("t{}", d))).collect();
    fill_title_gap(&mut titles);
    let depths: Vec<usize> = titles.iter().map(|t| t.0).collect();
    // Each depth is clamped against the one before it as rewritten: 4 after 3 stays.
    assert_eq!(depths, vec![2, 3, 4, 5]);
    assert_eq!(titles[1].1, "t4");

    let mut rising: Vec<(usize, String)> = vec![(3, "a".to_string()), (2, "b".to_string()), (6, "c".to_string())];
    fill_title_gap(&mut rising);
    assert_eq!(rising.iter().map(|t| t.0).collect::<Vec<_>>(), vec![3, 2, 3]);

    let mut deep: Vec<(usize, String)> = vec![(2, "a".to_string()), (5, "b".to_string()), (7, "c".to_string())];
    fill_title_gap(&mut deep);
    assert_eq!(deep.iter().map(|t| t.0).collect::<Vec<_>>(), vec![2, 3, 4]);

    let mut empty: Vec<(usize, String)> = Vec::new();
    fill_title_gap(&mut empty);
    assert!(empty.is_empty());
}

#[test]
fn file_scenario_end_to_end() {
    let text = "# Title\n## A\n#### B\nsome text";
    let titles = extract_file_titles(&matcher(), text, 7);
    assert_eq!(titles, vec![(2, "A".to_string()), (3, "B".to_string())]);
    assert_eq!(
        extract_file_content(&matcher(), text, 7),
        "\n## Content\n---\n* [[#A]]\n\t* [[#B]]\n# Title\n## A\n#### B\nsome text"
    );
}

#[test]
fn depth_filter_boundary() {
    let text = "## A\n### B\n#### C\n";
    let titles = extract_file_titles(&matcher(), text, 3);
    assert_eq!(titles, vec![(2, "A".to_string()), (3, "B".to_string())]);
    let all = extract_file_titles(&matcher(), text, 4);
    assert_eq!(all.len(), 3);
}

#[test]
fn content_heading_and_emphasis() {
    let text = "## Content\n## **Bold**\n### *Both* \n";
    let titles = extract_file_titles(&matcher(), text, 7);
    assert_eq!(titles, vec![(2, "Bold".to_string()), (3, "Both".to_string())]);
}

#[test]
fn extraction_is_idempotent() {
    let m = matcher();
    let text = "## Intro\nhello\n### Part\nworld\n";
    let once = extract_file_content(&m, text, 7);
    assert_eq!(once, "\n## Content\n---\n* [[#Intro]]\n\t* [[#Part]]\n## Intro\nhello\n### Part\nworld\n");
    let twice = extract_file_content(&m, &once, 7);
    assert_eq!(twice, once);
}

#[test]
fn directory_scenario_skips_images() {
    let entries = vec![
        file("b.md", Some(10)),
        dir("imgs", Some(1), vec![file("x.md", None)]),
        file("a.md", Some(20)),
        file("Content.md", Some(5)),
    ];
    let index = dir_index(entries, SortOrder::Alphabet);
    assert_eq!(index.content, "\n---\n* [[a|a]]\n* [[b|b]]\n");
    assert_eq!(index.files, vec!["a.md".to_string(), "b.md".to_string()]);
    assert!(!index.content.contains("imgs"));
}

#[test]
fn directory_scenario_by_update_time() {
    let entries = vec![
        file("a.md", Some(20)),
        dir("imgs", Some(1), Vec::new()),
        file("b.md", Some(10)),
    ];
    let index = dir_index(entries, SortOrder::UpdateTime);
    assert_eq!(index.content, "\n---\n* [[b|b]]\n* [[a|a]]\n");
}

#[test]
fn nested_directories_are_labelled() {
    let entries = vec![
        file("notes.txt", None),
        dir("sub", None, vec![file("z.md", None), dir("deep", None, vec![file("y.md", None)])]),
        file("top.md", None),
    ];
    let index = dir_index(entries, SortOrder::Alphabet);
    assert_eq!(
        index.content,
        "\n---\n* **sub:**\n\t* **deep:**\n\t\t* [[sub/deep/y|y]]\n\t* [[sub/z|z]]\n* [[top|top]]\n"
    );
    assert_eq!(index.files, vec!["sub/deep/y.md", "sub/z.md", "top.md"]);
}
