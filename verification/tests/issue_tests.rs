use brakoll::issue::{find_issues, issues_of_files, parse_issue_line, FoundFile};
use brakoll::status::IssueStatus;

fn cs(s: &str) -> Vec<char> {
    s.chars().collect()
}

#[test]
fn readme_example_line_is_read_field_by_field() {
    let line = "// *brakoll - d: fix typo in debug print, p: 10, t: debug, s: open";
    let i = parse_issue_line(&"src/main.rs".to_string(), 3, &cs(line), 2);
    assert_eq!(i.desc, "fix typo in debug print");
    assert_eq!(i.prio, 10);
    assert_eq!(i.tag, "debug");
    assert_eq!(i.status, IssueStatus::Open);
    assert_eq!(i.file, "src/main.rs");
    assert_eq!(i.line, 3);
    assert_eq!(i.id, 2);
}

#[test]
fn missing_fields_fall_back_to_defaults() {
    let i = parse_issue_line(&"f".to_string(), 1, &cs("# *brakoll - d: only a description"), 5);
    assert_eq!(i.desc, "only a description");
    assert_eq!(i.prio, 0);
    assert_eq!(i.tag, "n/a");
    assert_eq!(i.status, IssueStatus::Open);
}

#[test]
fn bad_priority_and_unknown_status_fall_back() {
    let i = parse_issue_line(&"f".to_string(), 1, &cs("*brakoll d: x, p: high, s: someday"), 2);
    assert_eq!(i.prio, 0);
    assert_eq!(i.status, IssueStatus::Open);
    let j = parse_issue_line(&"f".to_string(), 1, &cs("*brakoll d: x, p: 4294967296"), 2);
    assert_eq!(j.prio, 0);
}

#[test]
fn status_abbreviations_and_case_are_accepted() {
    let p = parse_issue_line(&"f".to_string(), 1, &cs("*brakoll d: x, s: PR"), 2);
    assert_eq!(p.status, IssueStatus::InProgress);
    let c = parse_issue_line(&"f".to_string(), 1, &cs("*brakoll d: x, s: Cl"), 2);
    assert_eq!(c.status, IssueStatus::Closed);
    let o = parse_issue_line(&"f".to_string(), 1, &cs("*brakoll d: x, s: op"), 2);
    assert_eq!(o.status, IssueStatus::Open);
}

#[test]
fn later_fields_override_earlier_ones_and_odd_pieces_are_skipped() {
    let i = parse_issue_line(
        &"f".to_string(),
        1,
        &cs("*brakoll d: first, t: a, junk, t : b, d: second"),
        2,
    );
    assert_eq!(i.desc, "second");
    assert_eq!(i.tag, "b");
}

#[test]
fn text_before_the_description_is_ignored() {
    let a = parse_issue_line(&"f".to_string(), 1, &cs("*brakoll - d: x, p: 3"), 2);
    let b = parse_issue_line(&"f".to_string(), 1, &cs("-- // # *brakoll - d: x, p: 3"), 2);
    assert_eq!((a.desc, a.prio, a.tag), (b.desc, b.prio, b.tag));
}

#[test]
fn only_lines_with_marker_and_description_are_found() {
    let content = "fn main() {}\n// *brakoll - d: one\n// *brakoll without field\n// d: no marker\r\n  *brakoll d: two\r\n";
    let found = find_issues(content);
    assert_eq!(found.len(), 2);
    assert_eq!(found[0], (2, "// *brakoll - d: one".to_string()));
    assert_eq!(found[1], (5, "  *brakoll d: two".to_string()));
    assert!(find_issues("").is_empty());
}

#[test]
fn issues_of_files_number_ids_from_two_in_order() {
    let files = vec![
        FoundFile { path: "a.rs".to_string(), content: "*brakoll d: a1\nx\n*brakoll d: a2".to_string() },
        FoundFile { path: "b.rs".to_string(), content: "nothing".to_string() },
        FoundFile { path: "c.rs".to_string(), content: "\n\n*brakoll d: c1, t: t".to_string() },
    ];
    let issues = issues_of_files(&files);
    let got: Vec<(String, usize, String, u32)> =
        issues.iter().map(|i| (i.file.clone(), i.line, i.desc.clone(), i.id)).collect();
    assert_eq!(
        got,
        vec![
            ("a.rs".to_string(), 1, "a1".to_string(), 2),
            ("a.rs".to_string(), 3, "a2".to_string(), 3),
            ("c.rs".to_string(), 3, "c1".to_string(), 4),
        ]
    );
}

#[test]
fn leading_text_with_d_letters_is_ignored() {
    let a = parse_issue_line(&"f".to_string(), 1, &cs("// *brakoll - d: x, p: 3, t: ui"), 2);
    let b = parse_issue_line(&"f".to_string(), 1, &cs("// todo: dd *brakoll - d: x, p: 3, t: ui"), 2);
    assert_eq!((a.desc, a.prio, a.tag, a.status), (b.desc, b.prio, b.tag, b.status));
}
