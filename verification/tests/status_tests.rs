use brakoll::issue::parse_issue_line;
use brakoll::status::{status_from_text, IssueStatus};
use brakoll::text::{decimal_chars, parse_u32_chars};

fn named_by_std(text: &str) -> Option<IssueStatus> {
    let l = text.to_lowercase();
    if l.contains("op") || l.contains("en") {
        Some(IssueStatus::Open)
    } else if l.contains("pr") || l.contains("og") {
        Some(IssueStatus::InProgress)
    } else if l.contains("cl") || l.contains("os") {
        Some(IssueStatus::Closed)
    } else {
        None
    }
}

#[test]
fn status_words_agree_with_unicode_lowercasing() {
    for t in [
        "open", "OPEN", "Progress", "prog", "closed", "CL", "done", "", "İstanbul", "KELVIN K",
        "ÖPEN", "clOSe", "en", "og", "os", "xyz",
    ] {
        let chars: Vec<char> = t.chars().collect();
        assert_eq!(status_from_text(&chars), named_by_std(t), "{t}");
    }
}

#[test]
fn status_labels_read_back_as_their_status() {
    for st in [IssueStatus::Open, IssueStatus::InProgress, IssueStatus::Closed] {
        let chars: Vec<char> = st.label().chars().collect();
        assert_eq!(status_from_text(&chars), Some(st));
    }
}

#[test]
fn priorities_read_back_from_their_decimal_text() {
    for p in [0u32, 1, 9, 10, 12345, u32::MAX] {
        assert_eq!(parse_u32_chars(&decimal_chars(p as u64)), Some(p));
    }
}

#[test]
fn a_changed_status_line_reads_back_with_the_new_status() {
    let line = "// *brakoll - d: crash, p: 5, t: bug, s: closed";
    let chars: Vec<char> = line.chars().collect();
    let i = parse_issue_line(&"f".to_string(), 1, &chars, 2);
    assert_eq!(i.status, IssueStatus::Closed);
    assert_eq!(i.desc, "crash");
}
