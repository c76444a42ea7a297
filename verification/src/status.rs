//! The status of an issue: open, in progress or closed.
use vstd::prelude::*;
use crate::text::{contains, contains_chars, lower_all, lower_chars};

verus! {

/// Where an issue stands.
#[derive(Clone, Copy, Debug, PartialEq, Eq, Hash, Structural)]
pub enum IssueStatus {
    Closed,
    Open,
    InProgress,
}

/// The terminal color code with which an issue of this status is printed.
pub open spec fn color_of(s: IssueStatus) -> Seq<char> {
    match s {
        IssueStatus::Closed => "\x1b[32m"@,
        IssueStatus::Open => "\x1b[34m"@,
        IssueStatus::InProgress => "\x1b[31m"@,
    }
}

/// The position of a status in a listing: closed first, then open, then in progress.
pub open spec fn rank_of(s: IssueStatus) -> u8 {
    match s {
        IssueStatus::Closed => 0,
        IssueStatus::Open => 1,
        IssueStatus::InProgress => 2,
    }
}

/// The name under which a status is shown.
pub open spec fn label_of(s: IssueStatus) -> Seq<char> {
    match s {
        IssueStatus::Open => "open"@,
        IssueStatus::InProgress => "in progress"@,
        IssueStatus::Closed => "closed"@,
    }
}

/// The status that a piece of text names, read case-insensitively: a text holding
/// `op` or `en` names open, else one holding `pr` or `og` names in progress,
/// else one holding `cl` or `os` names closed; any other text names none.
pub open spec fn status_named(text: Seq<char>) -> Option<IssueStatus> {
    let l = lower_all(text);
    if contains(l, seq!['o', 'p']) || contains(l, seq!['e', 'n']) {
        Some(IssueStatus::Open)
    } else if contains(l, seq!['p', 'r']) || contains(l, seq!['o', 'g']) {
        Some(IssueStatus::InProgress)
    } else if contains(l, seq!['c', 'l']) || contains(l, seq!['o', 's']) {
        Some(IssueStatus::Closed)
    } else {
        None
    }
}

impl IssueStatus {
    /// The terminal color code of this status.
    pub fn color(&self) -> (r: &'static str)
        ensures
            r@ == color_of(*self),
    {
        match self {
            IssueStatus::Closed => "\x1b[32m",
            IssueStatus::Open => "\x1b[34m",
            IssueStatus::InProgress => "\x1b[31m",
        }
    }

    /// The sort rank of this status.
    pub fn rank(&self) -> (r: u8)
        ensures
            r == rank_of(*self),
    {
        match self {
            IssueStatus::Closed => 0,
            IssueStatus::Open => 1,
            IssueStatus::InProgress => 2,
        }
    }

    /// The name of this status, as it is shown to the user.
    pub fn label(&self) -> (r: String)
        ensures
            r@ == label_of(*self),
    {
        match self {
            IssueStatus::Open => String::from_str("open"),
            IssueStatus::InProgress => String::from_str("in progress"),
            IssueStatus::Closed => String::from_str("closed"),
        }
    }
}

/// The status that `text` names (see `status_named`); matching is on the
/// lowercased text, so `OPEN`, `Prog` and `cLoSeD` are recognised.
pub fn status_from_text(text: &[char]) -> (r: Option<IssueStatus>)
    ensures
        r == status_named(text@),
{
    let l = lower_chars(text);
    let op = vec!['o', 'p'];
    let en = vec!['e', 'n'];
    let pr = vec!['p', 'r'];
    let og = vec!['o', 'g'];
    let cl = vec!['c', 'l'];
    let os = vec!['o', 's'];
    assert(op@ =~= seq!['o', 'p']);
    assert(en@ =~= seq!['e', 'n']);
    assert(pr@ =~= seq!['p', 'r']);
    assert(og@ =~= seq!['o', 'g']);
    assert(cl@ =~= seq!['c', 'l']);
    assert(os@ =~= seq!['o', 's']);
    if contains_chars(l.as_slice(), op.as_slice()) || contains_chars(l.as_slice(), en.as_slice()) {
        Some(IssueStatus::Open)
    } else if contains_chars(l.as_slice(), pr.as_slice()) || contains_chars(
        l.as_slice(),
        og.as_slice(),
    ) {
        Some(IssueStatus::InProgress)
    } else if contains_chars(l.as_slice(), cl.as_slice()) || contains_chars(
        l.as_slice(),
        os.as_slice(),
    ) {
        Some(IssueStatus::Closed)
    } else {
        None
    }
}

} // verus!
