//! The tracker: the issues found under a directory and the options of the run,
//! with the operations that the command line offers on them.
use vstd::prelude::*;
use crate::arg::Arguments;
use crate::issue::{
    FoundFile, Issue, IssueModel, file_entries, files_view, issues_from, issues_of_files,
    issues_view,
};
use crate::listing::{sort_for_listing, stable_sorted};
use crate::status::{IssueStatus, label_of};
use crate::text::{
    chars_of, concat, contains, contains_chars, decimal, decimal_chars, find, find_chars,
    lemma_find_bounds, lines, lines_chars, rsplit_once, rsplit_once_chars, slice_range,
    string_of,
};

verus! {

/// The issue tracker of one run.
pub struct Brakoll {
    /// The directory that is searched.
    pub target_dir: String,
    /// The issues found.
    pub issues: Vec<Issue>,
    /// The options of the run.
    pub args: Arguments,
}

/// An issue is kept by the filters: its description holds the description filter,
/// its tag holds the tag filter, and its status is the status filter, each where
/// that filter is set (an empty text is no filter).
pub open spec fn passes_filters(
    desc: Seq<char>,
    tag: Seq<char>,
    status: Option<IssueStatus>,
    i: IssueModel,
) -> bool {
    &&& desc.len() > 0 ==> contains(i.desc, desc)
    &&& tag.len() > 0 ==> contains(i.tag, tag)
    &&& status matches Some(st) ==> i.status == st
}

/// The issues of `s` that the filters keep, in order.
pub open spec fn kept(
    s: Seq<IssueModel>,
    desc: Seq<char>,
    tag: Seq<char>,
    status: Option<IssueStatus>,
) -> Seq<IssueModel>
    decreases s.len(),
{
    if s.len() == 0 {
        Seq::empty()
    } else {
        let r = kept(s.drop_last(), desc, tag, status);
        if passes_filters(desc, tag, status, s.last()) {
            r.push(s.last())
        } else {
            r
        }
    }
}

/// The number of issues of `s` with id `id`.
pub open spec fn id_count(s: Seq<IssueModel>, id: u32) -> nat
    decreases s.len(),
{
    if s.len() == 0 {
        0
    } else {
        id_count(s.drop_last(), id) + if s.last().id == id { 1nat } else { 0nat }
    }
}

/// Why the status of an issue could not be changed in its file.
#[derive(Debug, PartialEq, Eq, Structural)]
pub enum StatusEditError {
    /// The issue's line number is 0 or past the end of the file.
    LineOutOfRange(usize),
    /// The issue's line holds no `s:` field.
    StatusNotFound { status: IssueStatus, line: usize },
}

/// `ls` joined with `\n` between consecutive lines.
pub open spec fn join_lines(ls: Seq<Seq<char>>) -> Seq<char>
    decreases ls.len(),
{
    if ls.len() == 0 {
        Seq::empty()
    } else if ls.len() == 1 {
        ls[0]
    } else {
        join_lines(ls.drop_last()) + seq!['\n'] + ls.last()
    }
}

/// The status field key: `s:`.
pub open spec fn status_key() -> Seq<char> {
    seq!['s', ':']
}

/// The line with its status field, from the first `s:` on, replaced by `s: ` and
/// the new status.
pub open spec fn with_status(l: Seq<char>, new_status: IssueStatus) -> Seq<char> {
    match find(l, status_key()) {
        Some(pos) => l.take(pos as int) + "s: "@ + label_of(new_status),
        None => l,
    }
}

/// The text of a file once line `n` (counted from 1) gets the new status: the
/// lines of the text, that one rewritten, joined with `\n`.  The line must exist
/// and hold `s:`.
pub open spec fn rewritten_text(
    content: Seq<char>,
    n: int,
    old_status: IssueStatus,
    new_status: IssueStatus,
) -> Result<Seq<char>, StatusEditError> {
    let ls = lines(content);
    if n == 0 || n > ls.len() {
        Err(StatusEditError::LineOutOfRange(n as usize))
    } else if !contains(ls[n - 1], status_key()) {
        Err(StatusEditError::StatusNotFound { status: old_status, line: n as usize })
    } else {
        Ok(join_lines(ls.update(n - 1, with_status(ls[n - 1], new_status))))
    }
}

/// The status that a status change writes: the one asked for.  Where none is
/// asked for, `change_status_of_issue` is only called on inputs that end in an
/// error, so `Open` never reaches a file.
pub open spec fn new_status_of(asked: Option<IssueStatus>) -> IssueStatus {
    match asked {
        Some(st) => st,
        None => IssueStatus::Open,
    }
}

/// The text copied for an issue: its tag (`issue` in place of `n/a`), then the
/// file name, line number and description, as in `bug (main.rs:12): fix it`.
pub open spec fn clipboard_line(i: IssueModel) -> Seq<char> {
    let tag = if i.tag == "n/a"@ { "issue"@ } else { i.tag };
    let name = match rsplit_once(i.file, '/') {
        Some(parts) => parts.1,
        None => i.file,
    };
    tag + " ("@ + name + ":"@ + decimal(i.line as nat) + "): "@ + i.desc
}

/// The characters `s:`.
fn status_key_chars() -> (r: Vec<char>)
    ensures
        r@ == status_key(),
{
    let r = vec!['s', ':'];
    assert(r@ =~= status_key());
    r
}

/// Joins lines with `\n`.
fn join_lines_chars(ls: &Vec<Vec<char>>) -> (r: Vec<char>)
    ensures
        r@ == join_lines(ls@.map_values(|v: Vec<char>| v@)),
{
    let ghost lv = ls@.map_values(|v: Vec<char>| v@);
    let mut r: Vec<char> = Vec::new();
    assert(lv.take(0) =~= Seq::<Seq<char>>::empty());
    for i in 0..ls.len()
        invariant
            lv == ls@.map_values(|v: Vec<char>| v@),
            r@ == join_lines(lv.take(i as int)),
    {
        assert(lv.take(i + 1).drop_last() =~= lv.take(i as int));
        assert(lv.take(i + 1).last() == ls@[i as int]@);
        if i == 0 {
            r = slice_range(ls[0].as_slice(), 0, ls[0].len());
            assert(r@ =~= lv.take(1)[0]);
        } else {
            r.push('\n');
            r = concat(r.as_slice(), ls[i].as_slice());
        }
    }
    assert(lv.take(ls.len() as int) =~= lv);
    r
}

impl Brakoll {
    /// A tracker for `target_dir`, with no issues yet.
    pub fn new(args: Arguments, target_dir: String) -> (r: Brakoll)
        ensures
            r.args == args,
            r.target_dir == target_dir,
            r.issues@.len() == 0,
    {
        Brakoll { target_dir, issues: Vec::new(), args }
    }

    /// The issues stated in the found files, in file order and then line order,
    /// with ids 2, 3, 4, ... in that order.
    pub fn process_issues(&self, files_found: &Vec<FoundFile>) -> (r: Vec<Issue>)
        requires
            file_entries(files_view(files_found@)).len() < u32::MAX,
        ensures
            issues_view(r@) == issues_from(file_entries(files_view(files_found@))),
    {
        issues_of_files(files_found)
    }

    /// Keeps the issues that the description, tag and status filters of the
    /// arguments let through, in their order.
    pub fn apply_filter_flags_to_issues_list(&mut self)
        ensures
            issues_view(final(self).issues@) == kept(
                issues_view(old(self).issues@),
                old(self).args.filter_desc@,
                old(self).args.filter_tag@,
                old(self).args.filter_status,
            ),
            final(self).args == old(self).args,
            final(self).target_dir == old(self).target_dir,
    {
        let desc = chars_of(self.args.filter_desc.as_str());
        let tag = chars_of(self.args.filter_tag.as_str());
        let status = self.args.filter_status;
        let mut all: Vec<Issue> = Vec::new();
        std::mem::swap(&mut all, &mut self.issues);
        let ghost src = issues_view(all@);
        let mut out: Vec<Issue> = Vec::new();
        let n = all.len();
        let mut idx: usize = 0;
        assert(src.take(0) =~= Seq::<IssueModel>::empty());
        for e in it: all.into_iter()
            invariant
                idx == it.index(),
                n == src.len(),
                src == issues_view(it.seq()),
                desc@ == old(self).args.filter_desc@,
                tag@ == old(self).args.filter_tag@,
                status == old(self).args.filter_status,
                issues_view(out@) == kept(src.take(idx as int), desc@, tag@, status),
        {
            assert(idx < n);
            assert(e@ == src[idx as int]);
            assert(src.take(idx + 1).drop_last() =~= src.take(idx as int));
            assert(src.take(idx + 1).last() == e@);
            let d = chars_of(e.desc.as_str());
            let t = chars_of(e.tag.as_str());
            let keep_desc = desc.len() == 0 || contains_chars(d.as_slice(), desc.as_slice());
            let keep_tag = tag.len() == 0 || contains_chars(t.as_slice(), tag.as_slice());
            let keep_status = match status {
                Some(st) => e.status == st,
                None => true,
            };
            if keep_desc && keep_tag && keep_status {
                let ghost before = issues_view(out@);
                out.push(e);
                assert(issues_view(out@) =~= before.push(e@));
            }
            idx += 1;
        }
        assert(src.take(idx as int) =~= src);
        self.issues = out;
    }

    /// Puts the issues in listing order: by status rank (closed, open, in
    /// progress), then by priority, lowest first; ties keep their order.
    pub fn sort_list(&mut self)
        ensures
            stable_sorted(issues_view(old(self).issues@), issues_view(final(self).issues@)),
            final(self).args == old(self).args,
            final(self).target_dir == old(self).target_dir,
    {
        let mut all: Vec<Issue> = Vec::new();
        std::mem::swap(&mut all, &mut self.issues);
        self.issues = sort_for_listing(all);
    }

    /// The position of the issue with id `id`, when exactly one issue has it.
    pub fn issue_with_id(&self, id: u32) -> (r: Option<usize>)
        ensures
            r is Some <==> id_count(issues_view(self.issues@), id) == 1,
            r matches Some(k) ==> k < self.issues@.len() && self.issues@[k as int].id == id,
    {
        let ghost s = issues_view(self.issues@);
        let mut found: Option<usize> = None;
        let mut count: usize = 0;
        let n = self.issues.len();
        assert(s.take(0) =~= Seq::<IssueModel>::empty());
        for i in 0..n
            invariant
                n == self.issues@.len(),
                s == issues_view(self.issues@),
                count <= i,
                count == if id_count(s.take(i as int), id) >= 2 {
                    2
                } else {
                    id_count(s.take(i as int), id)
                },
                count == 0 <==> found is None,
                found matches Some(k) ==> k < n && self.issues@[k as int].id == id,
        {
            assert(s.take(i + 1).drop_last() =~= s.take(i as int));
            assert(s.take(i + 1).last() == s[i as int]);
            assert(s[i as int].id == self.issues@[i as int].id);
            assert(id_count(s.take(i + 1), id) == id_count(s.take(i as int), id) + if s[i as int].id
                == id {
                1nat
            } else {
                0nat
            });
            if self.issues[i].id == id && count < 2 {
                if count == 0 {
                    found = Some(i);
                }
                count += 1;
            }
        }
        assert(s.take(n as int) =~= s);
        if count == 1 {
            found
        } else {
            None
        }
    }

    /// The text that the copy command puts on the clipboard: that of the only
    /// issue whose id is the copy id, or nothing when no issue or more than one
    /// has it.
    pub fn clipboard_text(&self) -> (r: Option<String>)
        requires
            id_count(issues_view(self.issues@), self.args.copy_id) == 1 ==> forall|j: int|
                0 <= j < self.issues@.len() && (#[trigger] self.issues@[j]).id == self.args.copy_id
                    ==> rsplit_once(self.issues@[j].file@, '/') is Some,
        ensures
            r is Some <==> id_count(issues_view(self.issues@), self.args.copy_id) == 1,
            r matches Some(t) ==> exists|k: int|
                0 <= k < self.issues@.len() && self.issues@[k].id == self.args.copy_id && t@
                    == clipboard_line(#[trigger] self.issues@[k]@),
    {
        match self.issue_with_id(self.args.copy_id) {
            None => None,
            Some(k) => {
                let issue = &self.issues[k];
                let file = chars_of(issue.file.as_str());
                let name = match rsplit_once_chars(file.as_slice(), '/') {
                    Some((_, after)) => after,
                    None => file,
                };
                let tag = chars_of(issue.tag.as_str());
                let na = chars_of("n/a");
                let tag = if crate::text::chars_eq(tag.as_slice(), na.as_slice()) {
                    chars_of("issue")
                } else {
                    tag
                };
                let t = concat(tag.as_slice(), chars_of(" (").as_slice());
                let t = concat(t.as_slice(), name.as_slice());
                let t = concat(t.as_slice(), chars_of(":").as_slice());
                let t = concat(t.as_slice(), decimal_chars(issue.line as u64).as_slice());
                let t = concat(t.as_slice(), chars_of("): ").as_slice());
                let t = concat(t.as_slice(), chars_of(issue.desc.as_str()).as_slice());
                assert(t@ == clipboard_line(self.issues@[k as int]@));
                Some(string_of(t.as_slice()))
            },
        }
    }

    /// The new text of the file of the issue with the id that the arguments
    /// name, once its status becomes the one they ask for; `content` is the
    /// current text of that issue's file.  When no issue or more than one has
    /// that id, nothing is changed and the result is `Ok(None)`.
    pub fn change_status_of_issue(&self, content: &str) -> (r: Result<
        Option<String>,
        StatusEditError,
    >)
        requires
            self.args.change_status.1 is None ==> forall|k: int|
                0 <= k < self.issues@.len() && (#[trigger] self.issues@[k]).id
                    == self.args.change_status.0 && id_count(
                    issues_view(self.issues@),
                    self.args.change_status.0,
                ) == 1 ==> rewritten_text(
                    content@,
                    self.issues@[k].line as int,
                    self.issues@[k].status,
                    IssueStatus::Open,
                ) is Err,
        ensures
            id_count(issues_view(self.issues@), self.args.change_status.0) != 1 ==> r matches Ok(
                None,
            ),
            id_count(issues_view(self.issues@), self.args.change_status.0) == 1 ==> exists|k: int|
                0 <= k < self.issues@.len() && (#[trigger] self.issues@[k]).id
                    == self.args.change_status.0 && match (r, rewritten_text(
                    content@,
                    self.issues@[k].line as int,
                    self.issues@[k].status,
                    new_status_of(self.args.change_status.1),
                )) {
                    (Ok(Some(t)), Ok(u)) => t@ == u,
                    (Err(e), Err(f)) => e == f,
                    _ => false,
                },
    {
        match self.issue_with_id(self.args.change_status.0) {
            None => Ok(None),
            Some(k) => {
                match self.rewrite_status(k, content) {
                    Ok(t) => Ok(Some(t)),
                    Err(e) => Err(e),
                }
            },
        }
    }

    /// The new text of the file of issue `k` once its status becomes the one
    /// that the arguments ask for; `content` is the file's current text.
    fn rewrite_status(&self, k: usize, content: &str) -> (r: Result<String, StatusEditError>)
        requires
            k < self.issues@.len(),
        ensures
            match (r, rewritten_text(
                content@,
                self.issues@[k as int].line as int,
                self.issues@[k as int].status,
                new_status_of(self.args.change_status.1),
            )) {
                (Ok(t), Ok(u)) => t@ == u,
                (Err(e), Err(f)) => e == f,
                _ => false,
            },
    {
        let issue = &self.issues[k];
        let new_status = match self.args.change_status.1 {
            Some(st) => st,
            None => IssueStatus::Open,
        };
        let text = chars_of(content);
        let mut ls = lines_chars(text.as_slice());
        let ghost lv = ls@.map_values(|v: Vec<char>| v@);
        if issue.line == 0 || issue.line > ls.len() {
            return Err(StatusEditError::LineOutOfRange(issue.line));
        }
        let n = issue.line - 1;
        let key = status_key_chars();
        let pos = match find_chars(ls[n].as_slice(), key.as_slice()) {
            None => {
                return Err(StatusEditError::StatusNotFound { status: issue.status, line: issue.line });
            },
            Some(p) => p,
        };
        proof {
            lemma_find_bounds(lv[n as int], status_key(), 0);
        }
        let head = slice_range(ls[n].as_slice(), 0, pos);
        let label = chars_of(new_status.label().as_str());
        let head = concat(head.as_slice(), chars_of("s: ").as_slice());
        let new_line = concat(head.as_slice(), label.as_slice());
        assert(new_line@ == with_status(lv[n as int], new_status));
        ls.set(n, new_line);
        assert(ls@.map_values(|v: Vec<char>| v@) =~= lv.update(
            n as int,
            with_status(lv[n as int], new_status),
        ));
        let joined = join_lines_chars(&ls);
        Ok(string_of(joined.as_slice()))
    }
}

} // verus!
