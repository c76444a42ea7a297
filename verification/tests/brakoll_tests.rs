use brakoll::arg::{parse, Arguments};
use brakoll::brakoll::{Brakoll, StatusEditError};
use brakoll::issue::{find_issues, parse_issue_line, FoundFile, Issue};
use brakoll::render::{issues_found_line, summary_lines};
use brakoll::summary::{status_tally, tag_tally};
use brakoll::status::IssueStatus;

fn issue(id: u32, prio: u32, status: IssueStatus, tag: &str, desc: &str) -> Issue {
    Issue {
        file: format!("/home/ana/p/f{}.rs", id),
        line: id as usize,
        desc: desc.to_string(),
        prio,
        tag: tag.to_string(),
        status,
        id,
    }
}

fn args(w: &[&str]) -> Arguments {
    parse(&w.iter().map(|s| s.to_string()).collect())
}

fn tracker(w: &[&str], issues: Vec<Issue>) -> Brakoll {
    let mut b = Brakoll::new(args(w), "/home/ana/p".to_string());
    b.issues = issues;
    b
}

fn ids(b: &Brakoll) -> Vec<u32> {
    b.issues.iter().map(|i| i.id).collect()
}

fn sample() -> Vec<Issue> {
    vec![
        issue(2, 5, IssueStatus::Open, "bug", "crash on start"),
        issue(3, 1, IssueStatus::InProgress, "feature", "add sort"),
        issue(4, 9, IssueStatus::Closed, "bug", "typo"),
        issue(5, 1, IssueStatus::Open, "debug", "remove prints"),
        issue(6, 5, IssueStatus::Open, "n/a", "misc"),
        issue(7, 0, IssueStatus::Closed, "feature", "tree view"),
    ]
}

#[test]
fn a_new_tracker_is_empty() {
    let b = Brakoll::new(args(&[]), "/x".to_string());
    assert!(b.issues.is_empty());
    assert_eq!(b.target_dir, "/x");
}

#[test]
fn filters_keep_matching_issues_in_order() {
    let mut b = tracker(&["-t", "bug"], sample());
    b.apply_filter_flags_to_issues_list();
    assert_eq!(ids(&b), vec![2, 4, 5]);

    let mut b = tracker(&["-s", "open", "-d", "r"], sample());
    b.apply_filter_flags_to_issues_list();
    assert_eq!(ids(&b), vec![2, 5]);

    let mut b = tracker(&[], sample());
    b.apply_filter_flags_to_issues_list();
    assert_eq!(ids(&b), vec![2, 3, 4, 5, 6, 7]);
}

#[test]
fn filtering_twice_changes_nothing_more() {
    let mut b = tracker(&["-t", "bug", "-s", "op"], sample());
    b.apply_filter_flags_to_issues_list();
    let once = ids(&b);
    b.apply_filter_flags_to_issues_list();
    assert_eq!(ids(&b), once);
    assert_eq!(once, vec![2, 5]);
}

#[test]
fn sorting_orders_by_status_then_priority_keeping_ties() {
    let mut b = tracker(&[], sample());
    b.sort_list();
    assert_eq!(ids(&b), vec![7, 4, 5, 2, 6, 3]);
}

#[test]
fn sorting_a_sorted_list_changes_nothing() {
    let mut b = tracker(&[], sample());
    b.sort_list();
    let once = ids(&b);
    b.sort_list();
    assert_eq!(ids(&b), once);
}

#[test]
fn summary_counts_tags_and_statuses_most_frequent_first() {
    let b = tracker(&[], sample());
    let tags = tag_tally(&b.issues);
    let statuses = status_tally(&b.issues);
    assert_eq!(tags[0], ("bug".to_string(), 2));
    assert_eq!(tags[1], ("feature".to_string(), 2));
    assert_eq!(tags.len(), 4);
    assert_eq!(tags.iter().map(|t| t.1).sum::<usize>(), 6);
    assert_eq!(statuses[0], (IssueStatus::Open, 3));
    assert_eq!(statuses.len(), 3);
    assert_eq!(statuses.iter().map(|t| t.1).sum::<usize>(), 6);
    let empty = tracker(&[], vec![]);
    assert!(tag_tally(&empty.issues).is_empty() && status_tally(&empty.issues).is_empty());
}

#[test]
fn summary_prints_found_line_then_tallies() {
    let b = tracker(
        &[],
        vec![
            issue(2, 5, IssueStatus::Open, "bug", "a"),
            issue(3, 1, IssueStatus::Open, "bug", "b"),
            issue(4, 1, IssueStatus::Closed, "ui", "c"),
        ],
    );
    assert_eq!(
        b.summary(),
        vec![
            "3 issues found",
            "",
            "tags",
            "-------",
            "2\t: bug",
            "1\t: ui",
            "",
            "status",
            "-------",
            "\x1b[34m2\t: open\x1b[0m",
            "\x1b[32m1\t: closed\x1b[0m",
        ]
    );
    let one = tracker(&[], vec![issue(2, 5, IssueStatus::Open, "bug", "a")]);
    assert_eq!(one.summary()[0], "1 issue found");
    let none = tracker(&[], vec![]);
    assert_eq!(none.summary(), vec!["0 issues found", "", "tags", "-------", "", "status", "-------"]);
}

#[test]
fn found_line_counts_issues() {
    assert_eq!(issues_found_line(0), "0 issues found");
    assert_eq!(issues_found_line(1), "1 issue found");
    assert_eq!(issues_found_line(12), "12 issues found");
}

#[test]
fn summary_lines_are_formatted() {
    let tags = vec![("bug".to_string(), 2), ("x".to_string(), 1)];
    let statuses = vec![(IssueStatus::Closed, 3)];
    let lines = summary_lines(&tags, &statuses);
    assert_eq!(
        lines,
        vec![
            "tags",
            "-------",
            "2\t: bug",
            "1\t: x",
            "",
            "status",
            "-------",
            "\x1b[32m3\t: closed\x1b[0m",
        ]
    );
}

#[test]
fn ids_are_found_only_when_unique() {
    let mut v = sample();
    v.push(issue(3, 0, IssueStatus::Open, "dup", "dup"));
    let b = tracker(&[], v);
    assert_eq!(b.issue_with_id(4), Some(2));
    assert_eq!(b.issue_with_id(3), None);
    assert_eq!(b.issue_with_id(99), None);
}

#[test]
fn clipboard_text_uses_tag_file_name_line_and_description() {
    let mut b = tracker(&[], sample());
    b.args.copy_id = 2;
    assert_eq!(b.clipboard_text(), Some("bug (f2.rs:2): crash on start".to_string()));
    b.args.copy_id = 6;
    assert_eq!(b.clipboard_text(), Some("issue (f6.rs:6): misc".to_string()));
    b.args.copy_id = 42;
    assert_eq!(b.clipboard_text(), None);
}

#[test]
fn status_change_rewrites_the_issue_line() {
    let mut b = tracker(&[], vec![issue(2, 5, IssueStatus::Open, "bug", "crash")]);
    b.issues[0].line = 2;
    b.args.change_status = (2, Some(IssueStatus::Closed));
    let content = "fn a() {}\n// *brakoll - d: crash, p: 5, t: bug, s: open\nfn b() {}\n";
    let new = b.change_status_of_issue(content).unwrap().unwrap();
    assert_eq!(new, "fn a() {}\n// *brakoll - d: crash, p: 5, t: bug, s: closed\nfn b() {}");
    let reread = find_issues(&new);
    assert_eq!(reread.len(), 1);
    let (n, text) = &reread[0];
    let again_issue = parse_issue_line(&"f".to_string(), *n, &text.chars().collect::<Vec<char>>(), 2);
    assert_eq!((*n, again_issue.status), (2, IssueStatus::Closed));
    b.args.change_status = (2, Some(IssueStatus::InProgress));
    let again = b.change_status_of_issue(&new).unwrap().unwrap();
    assert!(again.lines().nth(1).unwrap().ends_with("s: in progress"));
}

#[test]
fn status_change_reports_missing_line_or_field() {
    let mut b = tracker(&[], vec![issue(2, 5, IssueStatus::Open, "bug", "crash")]);
    b.args.change_status = (2, Some(IssueStatus::Closed));
    b.issues[0].line = 9;
    assert_eq!(b.change_status_of_issue("one\ntwo"), Err(StatusEditError::LineOutOfRange(9)));
    b.issues[0].line = 0;
    assert_eq!(b.change_status_of_issue("one"), Err(StatusEditError::LineOutOfRange(0)));
    b.issues[0].line = 1;
    assert_eq!(
        b.change_status_of_issue("*brakoll d: x\n"),
        Err(StatusEditError::StatusNotFound { status: IssueStatus::Open, line: 1 })
    );
}

#[test]
fn status_change_needs_exactly_one_issue_with_the_id() {
    let content = "// *brakoll - d: crash, s: open";
    let mut b = tracker(&[], vec![issue(2, 5, IssueStatus::Open, "bug", "crash")]);
    b.issues[0].line = 1;
    b.args.change_status = (7, Some(IssueStatus::Closed));
    assert_eq!(b.change_status_of_issue(content), Ok(None));
    b.issues.push(issue(2, 1, IssueStatus::Open, "bug", "other"));
    b.args.change_status = (2, Some(IssueStatus::Closed));
    assert_eq!(b.change_status_of_issue(content), Ok(None));
    b.issues.pop();
    assert_eq!(
        b.change_status_of_issue(content),
        Ok(Some("// *brakoll - d: crash, s: closed".to_string()))
    );
}

#[test]
fn listing_lines_show_header_place_and_text() {
    let b = tracker(
        &[],
        vec![
            issue(2, 5, IssueStatus::Open, "bug", "crash"),
            issue(3, 1, IssueStatus::Closed, "n/a", "done"),
        ],
    );
    let lines = b.list_lines(&Some("/home/ana".to_string()));
    assert_eq!(
        lines,
        vec![
            "2 issues found",
            "",
            "\x1b[34m[2] 5 - open",
            "~/p/f2.rs:2",
            "bug: crash",
            "\x1b[0m",
            "\x1b[32m[3] closed",
            "~/p/f3.rs:3",
            "n/a: done",
            "\x1b[0m",
        ]
    );
    assert_eq!(b.list().len(), 10);
}

#[test]
fn status_labels_and_colors() {
    assert_eq!(IssueStatus::Open.label(), "open");
    assert_eq!(IssueStatus::InProgress.label(), "in progress");
    assert_eq!(IssueStatus::Closed.label(), "closed");
    assert_eq!(IssueStatus::InProgress.color(), "\x1b[31m");
    assert_eq!(
        (IssueStatus::Closed.rank(), IssueStatus::Open.rank(), IssueStatus::InProgress.rank()),
        (0, 1, 2)
    );
}

#[test]
fn a_written_status_label_reads_back() {
    let labels = [
        ("open", IssueStatus::Open),
        ("in progress", IssueStatus::InProgress),
        ("closed", IssueStatus::Closed),
    ];
    for (label, st) in labels {
        let content = format!("fn f() {{}}\n// *brakoll - d: tidy up, s: {}\n", label);
        let b = Brakoll::new(args(&[]), "/p".to_string());
        let found = vec![FoundFile { path: "/p/a.rs".to_string(), content }];
        let r = b.process_issues(&found);
        assert_eq!(r.len(), 1);
        assert_eq!(r[0].status, st);
        assert_eq!(r[0].line, 2);
        assert_eq!(r[0].id, 2);
        assert_eq!(r[0].desc, "tidy up");
        assert_eq!(r[0].prio, 0);
        assert_eq!(r[0].tag, "n/a");
    }
}

#[test]
fn status_change_keeps_description_priority_and_tag() {
    let mut b = tracker(&[], vec![issue(2, 3, IssueStatus::Open, "ui", "fix it")]);
    b.issues[0].line = 1;
    b.args.change_status = (2, Some(IssueStatus::InProgress));
    let content = "# *brakoll - d: fix it , p: 3, t:  ui, s: open";
    let before = parse_issue_line(&"f".to_string(), 1, &content.chars().collect::<Vec<char>>(), 2);
    let new = b.change_status_of_issue(content).unwrap().unwrap();
    let after = parse_issue_line(&"f".to_string(), 1, &new.chars().collect::<Vec<char>>(), 2);
    assert_eq!((before.desc.as_str(), before.prio, before.tag.as_str()), ("fix it", 3, "ui"));
    assert_eq!((after.desc, after.prio, after.tag), (before.desc, before.prio, before.tag));
    assert_eq!(after.status, IssueStatus::InProgress);
}
