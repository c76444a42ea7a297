use brakoll::arg::{lacks_flag_value, parse};
use brakoll::status::IssueStatus;

fn words(w: &[&str]) -> Vec<String> {
    w.iter().map(|s| s.to_string()).collect()
}

#[test]
fn no_words_give_the_defaults() {
    let a = parse(&words(&[]));
    assert!(!a.help && !a.summary && !a.no_rec);
    assert_eq!(a.filter_tag, "");
    assert_eq!(a.filter_desc, "");
    assert_eq!(a.filter_status, None);
    assert_eq!(a.opt_dir, "");
    assert_eq!(a.change_status, (0, None));
    assert_eq!(a.copy_id, 0);
}

#[test]
fn filters_take_the_next_word_trimmed() {
    let a = parse(&words(&["-t", " bug ", "-d", "typo", "-s", "Prog"]));
    assert_eq!(a.filter_tag, "bug");
    assert_eq!(a.filter_desc, "typo");
    assert_eq!(a.filter_status, Some(IssueStatus::InProgress));
}

#[test]
fn status_filter_that_names_nothing_is_no_filter() {
    let a = parse(&words(&["-s", "xyz"]));
    assert_eq!(a.filter_status, None);
    let b = parse(&words(&["-s", "closed"]));
    assert_eq!(b.filter_status, Some(IssueStatus::Closed));
}

#[test]
fn subcommands_set_their_switch() {
    let a = parse(&words(&["summary", "help"]));
    assert!(a.summary && a.help);
}

#[test]
fn first_other_word_is_the_directory_and_ends_the_reading() {
    let a = parse(&words(&["-t", "x", "src", "-d", "ignored"]));
    assert_eq!(a.opt_dir, "src");
    assert_eq!(a.filter_tag, "x");
    assert_eq!(a.filter_desc, "");
}

#[test]
fn a_flag_without_value_is_detected() {
    assert!(lacks_flag_value(&words(&["-t"])));
    assert!(lacks_flag_value(&words(&["summary", "-s"])));
    assert!(!lacks_flag_value(&words(&["dir", "-s"])));
    assert!(!lacks_flag_value(&words(&["-d", "-s"])));
}

#[test]
fn r_flag_asks_for_a_flat_search() {
    let a = parse(&words(&["-r"]));
    assert!(a.no_rec);
    assert_eq!(a.opt_dir, "");
    assert!(!a.help && !a.summary);
    assert_eq!(a.filter_tag, "");
    assert_eq!(a.filter_desc, "");
    assert_eq!(a.filter_status, None);
}

#[test]
fn r_flag_goes_with_a_directory() {
    let a = parse(&words(&["-r", "src"]));
    assert!(a.no_rec);
    assert_eq!(a.opt_dir, "src");
    let b = parse(&words(&["src", "-r"]));
    assert!(!b.no_rec);
    assert_eq!(b.opt_dir, "src");
}
