//! The text that the listing and the summary print, line by line.
use vstd::prelude::*;
use crate::brakoll::Brakoll;
use crate::issue::{Issue, IssueModel, issues_view};
use crate::status::{IssueStatus, color_of, label_of};
use crate::summary::{
    is_status_tally, is_tag_tally, status_tally, status_tally_view, tag_tally, tag_tally_view,
};
use crate::text::{chars_of, concat, decimal, decimal_chars, string_of};
use crate::utils::{home_dir_text, shortened};

verus! {

/// The first line of an issue in the listing: its color code, then `[id]`, then
/// the status; issues that are not closed show their priority before the status.
pub open spec fn header_line(i: IssueModel) -> Seq<char> {
    color_of(i.status) + "["@ + decimal(i.id as nat) + "] "@ + if i.status == IssueStatus::Closed {
        label_of(i.status)
    } else {
        decimal(i.prio as nat) + " - "@ + label_of(i.status)
    }
}

/// The line that says how many issues were found: `1 issue found`, or the
/// number followed by `issues found`.
pub open spec fn found_line(n: nat) -> Seq<char> {
    if n == 1 {
        "1 issue found"@
    } else {
        decimal(n) + " issues found"@
    }
}

/// The line that says how many issues were found.
pub fn issues_found_line(n: usize) -> (r: String)
    ensures
        r@ == found_line(n as nat),
{
    if n == 1 {
        String::from_str("1 issue found")
    } else {
        let t = concat(decimal_chars(n as u64).as_slice(), chars_of(" issues found").as_slice());
        string_of(t.as_slice())
    }
}

/// The four lines of an issue in the listing: the header, `file:line` with the
/// home directory shortened, `tag: description`, and the color reset.
pub open spec fn issue_lines(i: IssueModel, home: Option<Seq<char>>) -> Seq<Seq<char>> {
    seq![
        header_line(i),
        shortened(i.file, home) + ":"@ + decimal(i.line as nat),
        i.tag + ": "@ + i.desc,
        "\x1b[0m"@,
    ]
}

/// The lines of the listing of `s`, issue after issue.
pub open spec fn list_text(s: Seq<IssueModel>, home: Option<Seq<char>>) -> Seq<Seq<char>>
    decreases s.len(),
{
    if s.len() == 0 {
        Seq::empty()
    } else {
        list_text(s.drop_last(), home) + issue_lines(s.last(), home)
    }
}

/// What the listing prints: the found line, an empty line, then the lines of
/// each issue in turn.
pub open spec fn listing_text(s: Seq<IssueModel>, home: Option<Seq<char>>) -> Seq<Seq<char>> {
    seq![found_line(s.len()), Seq::empty()] + list_text(s, home)
}

/// A tag's line in the summary: `count<TAB>: tag`.
pub open spec fn tag_line(e: (Seq<char>, nat)) -> Seq<char> {
    decimal(e.1) + "\t: "@ + e.0
}

/// A status's line in the summary, in the status's color.
pub open spec fn status_line(e: (IssueStatus, nat)) -> Seq<char> {
    color_of(e.0) + decimal(e.1) + "\t: "@ + label_of(e.0) + "\x1b[0m"@
}

/// The summary lines of the tag counts.
pub open spec fn tag_lines(tags: Seq<(Seq<char>, nat)>) -> Seq<Seq<char>> {
    tags.map_values(|e: (Seq<char>, nat)| tag_line(e))
}

/// The summary lines of the status counts.
pub open spec fn status_lines(statuses: Seq<(IssueStatus, nat)>) -> Seq<Seq<char>> {
    statuses.map_values(|e: (IssueStatus, nat)| status_line(e))
}

/// The lines of the summary: the tag counts under a `tags` heading, then the
/// status counts under a `status` heading after an empty line.
pub open spec fn summary_text(tags: Seq<(Seq<char>, nat)>, statuses: Seq<(IssueStatus, nat)>) -> Seq<
    Seq<char>,
> {
    seq!["tags"@, "-------"@] + tag_lines(tags) + seq![Seq::empty(), "status"@, "-------"@]
        + status_lines(statuses)
}

/// What the summary prints for `n` issues: the found line, an empty line, then
/// the lines of the tallies.
pub open spec fn summary_output(
    n: nat,
    tags: Seq<(Seq<char>, nat)>,
    statuses: Seq<(IssueStatus, nat)>,
) -> Seq<Seq<char>> {
    seq![found_line(n), Seq::empty()] + summary_text(tags, statuses)
}

/// The views of a list of strings.
pub open spec fn strings_view(v: Seq<String>) -> Seq<Seq<char>> {
    v.map_values(|s: String| s@)
}

/// Appends strings built from `lines` to `out`.
fn push_all(out: &mut Vec<String>, lines: Vec<Vec<char>>)
    ensures
        strings_view(final(out)@) == strings_view(old(out)@) + lines@.map_values(
            |v: Vec<char>| v@,
        ),
{
    let ghost start = strings_view(out@);
    let ghost lv = lines@.map_values(|v: Vec<char>| v@);
    for i in 0..lines.len()
        invariant
            lv == lines@.map_values(|v: Vec<char>| v@),
            strings_view(out@) == start + lv.take(i as int),
    {
        let ghost before = strings_view(out@);
        out.push(string_of(lines[i].as_slice()));
        assert(strings_view(out@) =~= before.push(lv[i as int]));
        assert(start + lv.take(i + 1) =~= (start + lv.take(i as int)).push(lv[i as int]));
    }
    assert(lv.take(lines.len() as int) =~= lv);
}

/// The four lines of one issue.
fn issue_lines_chars(i: &Issue, home: &Option<String>) -> (r: Vec<Vec<char>>)
    ensures
        r@.map_values(|v: Vec<char>| v@) == issue_lines(
            i@,
            match home {
                Some(h) => Some(h@),
                None => None,
            },
        ),
{
    let id = decimal_chars(i.id as u64);
    let label = chars_of(i.status.label().as_str());
    let head = concat(chars_of(i.status.color()).as_slice(), chars_of("[").as_slice());
    let head = concat(head.as_slice(), id.as_slice());
    let head = concat(head.as_slice(), chars_of("] ").as_slice());
    let head = match i.status {
        IssueStatus::Closed => concat(head.as_slice(), label.as_slice()),
        _ => {
            let p = decimal_chars(i.prio as u64);
            let h = concat(head.as_slice(), p.as_slice());
            let h = concat(h.as_slice(), chars_of(" - ").as_slice());
            concat(h.as_slice(), label.as_slice())
        },
    };
    let path = crate::utils::shorten_path_with_home(i.file.as_str(), home);
    let place = concat(chars_of(path.as_str()).as_slice(), chars_of(":").as_slice());
    let place = concat(place.as_slice(), decimal_chars(i.line as u64).as_slice());
    let what = concat(chars_of(i.tag.as_str()).as_slice(), chars_of(": ").as_slice());
    let what = concat(what.as_slice(), chars_of(i.desc.as_str()).as_slice());
    let reset = chars_of("\x1b[0m");
    let ghost hv = match home {
        Some(h) => Some(h@),
        None => None,
    };
    assert(head@ == header_line(i@));
    assert(place@ == shortened(i.file@, hv) + ":"@ + decimal(i.line as nat));
    assert(what@ == i.tag@ + ": "@ + i.desc@);
    let r = vec![head, place, what, reset];
    assert(r@.map_values(|v: Vec<char>| v@) =~= issue_lines(
        i@,
        match home {
            Some(h) => Some(h@),
            None => None,
        },
    ));
    r
}

impl Brakoll {
    /// The lines that list the issues, when the home directory is `home`.
    pub fn list_lines(&self, home: &Option<String>) -> (r: Vec<String>)
        ensures
            strings_view(r@) == listing_text(
                issues_view(self.issues@),
                match home {
                    Some(h) => Some(h@),
                    None => None,
                },
            ),
    {
        let ghost hv = match home {
            Some(h) => Some(h@),
            None => None,
        };
        let ghost s = issues_view(self.issues@);
        let mut out: Vec<String> = Vec::new();
        out.push(issues_found_line(self.issues.len()));
        out.push(String::new());
        let ghost head = strings_view(out@);
        assert(head =~= seq![found_line(s.len()), Seq::empty()]);
        assert(s.take(0) =~= Seq::<IssueModel>::empty());
        assert(strings_view(out@) =~= head + list_text(s.take(0), hv));
        for i in 0..self.issues.len()
            invariant
                s == issues_view(self.issues@),
                hv == match home {
                    Some(h) => Some(h@),
                    None => None,
                },
                head == seq![found_line(s.len()), Seq::empty()],
                strings_view(out@) == head + list_text(s.take(i as int), hv),
        {
            assert(s.take(i + 1).drop_last() =~= s.take(i as int));
            assert(s.take(i + 1).last() == self.issues@[i as int]@);
            let lines = issue_lines_chars(&self.issues[i], home);
            push_all(&mut out, lines);
            assert(strings_view(out@) =~= head + list_text(s.take(i + 1), hv));
        }
        assert(s.take(self.issues.len() as int) =~= s);
        out
    }

    /// The lines that list the issues, with the home directory of the running
    /// user shortened to `~`.
    pub fn list(&self) -> (r: Vec<String>)
        ensures
            exists|home: Option<Seq<char>>|
                (home matches Some(h) ==> h.len() > 0) && strings_view(r@) == listing_text(
                    issues_view(self.issues@),
                    home,
                ),
    {
        let home = home_dir_text();
        self.list_lines(&home)
    }

    /// What the summary prints: the found line, an empty line, then how many
    /// issues carry each tag and each status, the most frequent first.
    pub fn summary(&self) -> (r: Vec<String>)
        ensures
            exists|tags: Seq<(Seq<char>, nat)>, statuses: Seq<(IssueStatus, nat)>|
                is_tag_tally(issues_view(self.issues@), tags) && is_status_tally(
                    issues_view(self.issues@),
                    statuses,
                ) && strings_view(r@) == summary_output(
                    self.issues@.len() as nat,
                    tags,
                    statuses,
                ),
    {
        let tags = tag_tally(&self.issues);
        let statuses = status_tally(&self.issues);
        let body = summary_lines(&tags, &statuses);
        let mut out: Vec<String> = Vec::new();
        out.push(issues_found_line(self.issues.len()));
        out.push(String::new());
        let ghost head = strings_view(out@);
        let mut lines: Vec<Vec<char>> = Vec::new();
        for i in 0..body.len()
            invariant
                lines@.map_values(|v: Vec<char>| v@) == strings_view(body@).take(i as int),
        {
            let ghost before = lines@.map_values(|v: Vec<char>| v@);
            lines.push(chars_of(body[i].as_str()));
            assert(lines@.map_values(|v: Vec<char>| v@) =~= before.push(body@[i as int]@));
            assert(strings_view(body@).take(i + 1) =~= strings_view(body@).take(i as int).push(
                body@[i as int]@,
            ));
        }
        assert(strings_view(body@).take(body.len() as int) =~= strings_view(body@));
        push_all(&mut out, lines);
        assert(strings_view(out@) =~= summary_output(
            self.issues@.len() as nat,
            tag_tally_view(tags@),
            status_tally_view(statuses@),
        ));
        out
    }
}

/// The lines of the summary of the given tallies.
pub fn summary_lines(tags: &Vec<(String, usize)>, statuses: &Vec<(IssueStatus, usize)>) -> (r: Vec<
    String,
>)
    ensures
        strings_view(r@) == summary_text(tag_tally_view(tags@), status_tally_view(statuses@)),
{
    let mut head: Vec<Vec<char>> = Vec::new();
    head.push(chars_of("tags"));
    head.push(chars_of("-------"));
    let ghost tv = tag_tally_view(tags@);
    let mut tl: Vec<Vec<char>> = Vec::new();
    for i in 0..tags.len()
        invariant
            tv == tag_tally_view(tags@),
            tl@.map_values(|v: Vec<char>| v@) == tag_lines(tv.take(i as int)),
    {
        let count = decimal_chars(tags[i].1 as u64);
        let l = concat(count.as_slice(), chars_of("\t: ").as_slice());
        let l = concat(l.as_slice(), chars_of(tags[i].0.as_str()).as_slice());
        let ghost before = tl@.map_values(|v: Vec<char>| v@);
        tl.push(l);
        assert(tl@.map_values(|v: Vec<char>| v@) =~= before.push(tag_line(tv[i as int])));
        assert(tag_lines(tv.take(i + 1)) =~= tag_lines(tv.take(i as int)).push(
            tag_line(tv[i as int]),
        ));
    }
    assert(tv.take(tags.len() as int) =~= tv);
    let mut mid: Vec<Vec<char>> = Vec::new();
    mid.push(Vec::new());
    mid.push(chars_of("status"));
    mid.push(chars_of("-------"));
    let ghost sv = status_tally_view(statuses@);
    let mut sl: Vec<Vec<char>> = Vec::new();
    for i in 0..statuses.len()
        invariant
            sv == status_tally_view(statuses@),
            sl@.map_values(|v: Vec<char>| v@) == status_lines(sv.take(i as int)),
    {
        let st = statuses[i].0;
        let count = decimal_chars(statuses[i].1 as u64);
        let l = concat(chars_of(st.color()).as_slice(), count.as_slice());
        let l = concat(l.as_slice(), chars_of("\t: ").as_slice());
        let l = concat(l.as_slice(), chars_of(st.label().as_str()).as_slice());
        let l = concat(l.as_slice(), chars_of("\x1b[0m").as_slice());
        let ghost before = sl@.map_values(|v: Vec<char>| v@);
        sl.push(l);
        assert(sl@.map_values(|v: Vec<char>| v@) =~= before.push(status_line(sv[i as int])));
        assert(status_lines(sv.take(i + 1)) =~= status_lines(sv.take(i as int)).push(
            status_line(sv[i as int]),
        ));
    }
    assert(sv.take(statuses.len() as int) =~= sv);
    let mut out: Vec<String> = Vec::new();
    let ghost hv = head@.map_values(|v: Vec<char>| v@);
    let ghost mv = mid@.map_values(|v: Vec<char>| v@);
    assert(hv =~= seq!["tags"@, "-------"@]);
    assert(mv =~= seq![Seq::<char>::empty(), "status"@, "-------"@]);
    push_all(&mut out, head);
    push_all(&mut out, tl);
    push_all(&mut out, mid);
    push_all(&mut out, sl);
    assert(strings_view(out@) =~= summary_text(tv, sv));
    out
}

} // verus!
