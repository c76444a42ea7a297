use brakoll::loading_bar::{KeyPress, LoadingBar, State};

#[test]
fn a_new_bar_is_active_and_empty() {
    let b = LoadingBar::new(10, 4, 7);
    assert_eq!(b.state, State::Active);
    assert_eq!(b.processed_counter, 0);
    assert_eq!(b.files_to_process, 10);
    assert_eq!((b.icp_col, b.icp_row), (4, 7));
}

#[test]
fn escape_and_ctrl_c_stop_the_search() {
    let mut b = LoadingBar::new(1, 0, 0);
    b.controls(KeyPress::Other);
    assert_eq!(b.state, State::Active);
    b.controls(KeyPress::Esc);
    assert_eq!(b.state, State::Quit);
    b.controls(KeyPress::Other);
    assert_eq!(b.state, State::Quit);
    let mut c = LoadingBar::new(1, 0, 0);
    c.controls(KeyPress::CtrlC);
    assert_eq!(c.state, State::Quit);
}

#[test]
fn advancing_past_the_total_stops_the_search() {
    let mut b = LoadingBar::new(2, 0, 0);
    assert!(b.advance());
    assert!(b.advance());
    assert_eq!(b.state, State::Active);
    assert!(!b.advance());
    assert_eq!(b.state, State::Quit);
    assert_eq!(b.processed_counter, 3);
}

#[test]
fn progress_text_and_columns() {
    let mut b = LoadingBar::new(12, 5, 0);
    b.advance();
    let t = b.progress_text();
    assert_eq!(t, "1/12 ");
    assert_eq!(b.column_after(&t, 3), 5 + 5 + 3);
    let n = LoadingBar::new(-3, 0, 0);
    assert_eq!(n.progress_text(), "0/-3 ");
}
