//! The progress bar shown while files are searched: its state, its text, and
//! how it reacts to keys and to each file found.
use vstd::prelude::*;
use crate::text::{chars_of, concat, signed_decimal, signed_decimal_chars, string_of};

verus! {

/// Whether the search goes on.
#[derive(Clone, Copy, Debug, PartialEq, Eq, Structural)]
pub enum State {
    Active,
    Quit,
}

/// A key press, as far as the bar cares: Escape, Ctrl+C, or any other key.
#[derive(Clone, Copy, Debug, PartialEq, Eq, Structural)]
pub enum KeyPress {
    Esc,
    CtrlC,
    Other,
}

/// The progress of a search over a known number of files.
pub struct LoadingBar {
    pub state: State,
    pub processed_counter: i32,
    pub files_to_process: i32,
    /// The column and row where the bar is drawn from (public so that contracts
    /// can speak of them).
    pub icp_col: u16,
    pub icp_row: u16,
}

/// The width of the bar, in cells.
pub const LOADING_BAR_SIZE: i32 = 30;

/// The progress text: files processed, a slash, files to process, and a space.
pub open spec fn progress_text_of(processed: i32, total: i32) -> Seq<char> {
    signed_decimal(processed as int) + "/"@ + signed_decimal(total as int) + " "@
}

impl LoadingBar {
    /// A bar for `files_to_process` files, drawn from column `icp_col` of row `icp_row`.
    pub fn new(files_to_process: i32, icp_col: u16, icp_row: u16) -> (r: LoadingBar)
        ensures
            r.state == State::Active,
            r.processed_counter == 0,
            r.files_to_process == files_to_process,
            r.icp_col == icp_col,
            r.icp_row == icp_row,
    {
        LoadingBar { state: State::Active, processed_counter: 0, files_to_process, icp_col, icp_row }
    }

    /// Reacts to a key: while the search is active, Escape or Ctrl+C stops it;
    /// any other key, or any key once stopped, changes nothing.
    pub fn controls(&mut self, key: KeyPress)
        ensures
            final(self).state == if old(self).state == State::Active && (key == KeyPress::Esc
                || key == KeyPress::CtrlC) {
                State::Quit
            } else {
                old(self).state
            },
            final(self).processed_counter == old(self).processed_counter,
            final(self).files_to_process == old(self).files_to_process,
            final(self).icp_col == old(self).icp_col,
            final(self).icp_row == old(self).icp_row,
    {
        match self.state {
            State::Active => {
                match key {
                    KeyPress::Esc => {
                        self.state = State::Quit;
                    },
                    KeyPress::CtrlC => {
                        self.state = State::Quit;
                    },
                    KeyPress::Other => {},
                }
            },
            State::Quit => {},
        }
    }

    /// Counts one more file found. Returns whether the bar is to be drawn again:
    /// so while the count stays within the number of files to process; past it
    /// the search is stopped.
    pub fn advance(&mut self) -> (draw: bool)
        requires
            old(self).processed_counter < i32::MAX,
        ensures
            final(self).processed_counter == old(self).processed_counter + 1,
            draw == (final(self).processed_counter <= old(self).files_to_process),
            final(self).state == if draw {
                old(self).state
            } else {
                State::Quit
            },
            final(self).files_to_process == old(self).files_to_process,
            final(self).icp_col == old(self).icp_col,
            final(self).icp_row == old(self).icp_row,
    {
        self.processed_counter = self.processed_counter + 1;
        if self.processed_counter <= self.files_to_process {
            true
        } else {
            self.state = State::Quit;
            false
        }
    }

    /// The text written before the bar, as `3/10 `.
    pub fn progress_text(&self) -> (r: String)
        ensures
            r@ == progress_text_of(self.processed_counter, self.files_to_process),
    {
        let a = signed_decimal_chars(self.processed_counter as i64);
        let b = signed_decimal_chars(self.files_to_process as i64);
        let t = concat(a.as_slice(), chars_of("/").as_slice());
        let t = concat(t.as_slice(), b.as_slice());
        let t = concat(t.as_slice(), chars_of(" ").as_slice());
        string_of(t.as_slice())
    }

    /// The column `offset` cells after the progress text `text`, counting the
    /// text's length in characters modulo 2^16, as the terminal columns are `u16`.
    pub fn column_after(&self, text: &str, offset: u16) -> (r: u16)
        requires
            self.icp_col + (text@.len() % 0x10000) + offset <= u16::MAX,
        ensures
            r == self.icp_col + (text@.len() % 0x10000) + offset,
    {
        let n = chars_of(text).len();
        let w = (n % 0x10000) as u16;
        self.icp_col + w + offset
    }
}

} // verus!
