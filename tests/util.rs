use ob_plugin::data::{ExtractError, SortOrder};
use ob_plugin::matcher::HeadingMatcher;
use ob_plugin::util::{
    check_delete_previous_content, check_markdown_file, check_path_extention, parse_title,
    reprot_path, sort_filter_entries, Entry,
};

fn entry(name: &str, modified: Option<u128>) -> Entry {
    Entry { name: name.to_string(), is_dir: false, modified, children: Vec::new() }
}

#[test]
fn path_extension() {
    assert!(check_path_extention("/path/to/this.md"));
    assert!(!check_path_extention("/path/to/this.me"));
    assert!(!check_path_extention("md"));
    assert!(!check_path_extention("dir.md/"));
}

#[test]
fn markdown_file_check() {
    assert_eq!(check_markdown_file("/a/b.md"), Ok(()));
    assert_eq!(check_markdown_file("/a/b.txt"), Err(ExtractError::NotMarkdown));
}

#[test]
fn title_parsing() {
    assert_eq!(parse_title("### Concurrent "), (3, "Concurrent".to_owned()));
    assert_eq!(parse_title("#### Memory layout in go"), (4, "Memory layout in go".to_owned()));
    assert_eq!(parse_title("### **Foo**"), (3, "Foo".to_owned()));
    assert_eq!(parse_title("##   spaced \t out  "), (2, "spaced out".to_owned()));
    assert_eq!(parse_title("##"), (2, "".to_owned()));
}

#[test]
fn report_paths() {
    assert_eq!(reprot_path("../../path/to/t.md"), "path/to/t.md".to_owned());
    assert_eq!(reprot_path("path/to/t.md"), "path/to/t.md".to_owned());
    assert_eq!(reprot_path("a/../b"), "a/b".to_owned());
}

#[test]
fn previous_content_is_dropped() {
    let m = HeadingMatcher::new().unwrap();
    assert_eq!(check_delete_previous_content(&m, "## Content\n***\n## Prelude"), "## Prelude");
    assert_eq!(check_delete_previous_content(&m, "## Content\n---\n## Prelude"), "## Prelude");
    assert_eq!(check_delete_previous_content(&m, "## Prelude"), "## Prelude");
    assert_eq!(check_delete_previous_content(&m, "## Content\n---\nonly text"), "## Content\n---\nonly text");
    assert_eq!(check_delete_previous_content(&m, "## Content"), "## Content");
}

#[test]
fn entries_by_name() {
    let entries = vec![entry("b.md", None), entry("Content.md", None), entry("a.md", None), entry("B.md", None)];
    let sorted = sort_filter_entries(entries, SortOrder::Alphabet);
    let names: Vec<&str> = sorted.iter().map(|e| e.name.as_str()).collect();
    assert_eq!(names, vec!["B.md", "a.md", "b.md"]);
}

#[test]
fn entries_by_update_time() {
    let entries = vec![
        entry("late.md", Some(30)),
        entry("unknown.md", None),
        entry("Content.md", Some(1)),
        entry("early.md", Some(10)),
        entry("tie.md", Some(30)),
    ];
    let sorted = sort_filter_entries(entries, SortOrder::UpdateTime);
    let names: Vec<&str> = sorted.iter().map(|e| e.name.as_str()).collect();
    assert_eq!(names, vec!["unknown.md", "early.md", "late.md", "tie.md"]);
}

#[test]
fn sort_order_names() {
    assert_eq!(SortOrder::Alphabet.name(), "alphabet");
    assert_eq!(SortOrder::UpdateTime.name(), "update time");
}
