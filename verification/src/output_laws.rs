//! What the search, the filters, the listing and the copy command give, stated
//! over their inputs: which lines are found, which issues are kept, how each
//! listed file is named and what a copied text names.
use vstd::prelude::*;
use crate::brakoll::{clipboard_line, kept};
use crate::issue::{IssueModel, desc_key, marker, numbered_issue_lines, raw_issues};
use crate::laws::lemma_decimal_digits;
use crate::render::{issue_lines, list_text, listing_text};
use crate::status::IssueStatus;
use crate::text::{contains, decimal, free_of, lines, rfind_char, rsplit_once};

verus! {

proof fn lemma_numbered_complete(ls: Seq<Seq<char>>)
    ensures
        forall|n: int|
            1 <= n <= ls.len() && contains(#[trigger] ls[n - 1], marker()) && contains(
                ls[n - 1],
                desc_key(),
            ) ==> exists|e: int|
                0 <= e < numbered_issue_lines(ls).len() && #[trigger] numbered_issue_lines(ls)[e]
                    == (n, ls[n - 1]),
    decreases ls.len(),
{
    if ls.len() > 0 {
        let d = ls.drop_last();
        lemma_numbered_complete(d);
        let r = numbered_issue_lines(d);
        let full = numbered_issue_lines(ls);
        assert forall|n: int|
            1 <= n <= ls.len() && contains(#[trigger] ls[n - 1], marker()) && contains(
                ls[n - 1],
                desc_key(),
            ) implies exists|e: int| 0 <= e < full.len() && #[trigger] full[e] == (n, ls[n - 1]) by {
            if n == ls.len() {
                assert(full[full.len() - 1] == (n, ls[n - 1]));
            } else {
                assert(d[n - 1] == ls[n - 1]);
                let e = choose|e: int| 0 <= e < r.len() && #[trigger] r[e] == (n, d[n - 1]);
                assert(full[e] == r[e]);
            }
        }
    }
}

/// Every line of a file's text that holds the marker `*brakoll` and `d:` is
/// reported by the issue search, under its line number counted from 1; lines
/// next to one another are each reported.
pub proof fn lemma_issue_lines_complete(content: Seq<char>)
    ensures
        forall|n: int|
            1 <= n <= lines(content).len() && contains(#[trigger] lines(content)[n - 1], marker())
                && contains(lines(content)[n - 1], desc_key()) ==> exists|e: int|
                0 <= e < raw_issues(content).len() && #[trigger] raw_issues(content)[e] == (
                    n,
                    lines(content)[n - 1],
                ),
{
    let ls = lines(content);
    lemma_numbered_complete(ls);
    assert(raw_issues(content) == numbered_issue_lines(ls));
    assert forall|n: int|
        1 <= n <= ls.len() && contains(#[trigger] ls[n - 1], marker()) && contains(
            ls[n - 1],
            desc_key(),
        ) implies exists|e: int|
        0 <= e < raw_issues(content).len() && #[trigger] raw_issues(content)[e] == (n, ls[n - 1]) by {
        let e = choose|e: int|
            0 <= e < numbered_issue_lines(ls).len() && #[trigger] numbered_issue_lines(ls)[e] == (
                n,
                ls[n - 1],
            );
        assert(raw_issues(content)[e] == (n, ls[n - 1]));
    }
}

/// The filters keep exactly the issues whose description holds the description
/// filter, whose tag holds the tag filter and whose status is the status filter,
/// each where that filter is set; the tag filter looks at the tag alone, the
/// description filter at the description alone.
pub proof fn lemma_filters_keep_exactly(
    s: Seq<IssueModel>,
    desc: Seq<char>,
    tag: Seq<char>,
    status: Option<IssueStatus>,
)
    ensures
        forall|x: IssueModel|
            #[trigger] kept(s, desc, tag, status).contains(x) <==> {
                &&& s.contains(x)
                &&& desc.len() > 0 ==> contains(x.desc, desc)
                &&& tag.len() > 0 ==> contains(x.tag, tag)
                &&& status matches Some(st) ==> x.status == st
            },
    decreases s.len(),
{
    if s.len() > 0 {
        let d = s.drop_last();
        lemma_filters_keep_exactly(d, desc, tag, status);
        assert forall|x: IssueModel| #[trigger] s.contains(x) <==> (d.contains(x) || x == s.last()) by {
            if s.contains(x) {
                let j = choose|j: int| 0 <= j < s.len() && s[j] == x;
                if j < s.len() - 1 {
                    assert(d[j] == x);
                }
            }
            if d.contains(x) {
                let j = choose|j: int| 0 <= j < d.len() && d[j] == x;
                assert(s[j] == x);
            }
            if x == s.last() {
                assert(s[s.len() - 1] == x);
            }
        }
        let r = kept(d, desc, tag, status);
        assert forall|x: IssueModel| #[trigger] r.push(s.last()).contains(x) <==> (r.contains(x)
            || x == s.last()) by {
            let rp = r.push(s.last());
            if rp.contains(x) {
                let j = choose|j: int| 0 <= j < rp.len() && rp[j] == x;
                if j < r.len() {
                    assert(r[j] == x);
                }
            }
            if r.contains(x) {
                let j = choose|j: int| 0 <= j < r.len() && r[j] == x;
                assert(rp[j] == x);
            }
            if x == s.last() {
                assert(rp[r.len() as int] == x);
            }
        }
    } else {
        assert forall|x: IssueModel| !(#[trigger] kept(s, desc, tag, status).contains(x))
            && !s.contains(x) by {}
    }
}

/// The copied text of an issue does not depend on its id, priority or status.
pub proof fn lemma_clipboard_ignores_id(i: IssueModel, id: u32, prio: u32, status: IssueStatus)
    ensures
        clipboard_line(IssueModel { id: id, prio: prio, status: status, ..i }) == clipboard_line(i),
{
}

/// The copied text names the issue's line: issues that differ only in their line
/// number copy to different texts.
pub proof fn lemma_clipboard_names_line(i: IssueModel, line: int)
    requires
        i.line >= 0,
        line >= 0,
        line != i.line,
    ensures
        clipboard_line(IssueModel { line: line, ..i }) != clipboard_line(i),
{
    let j = IssueModel { line: line, ..i };
    let tag = if i.tag == "n/a"@ { "issue"@ } else { i.tag };
    let name = match crate::text::rsplit_once(i.file, '/') {
        Some(parts) => parts.1,
        None => i.file,
    };
    let a = tag + " ("@ + name + ":"@;
    let b = "): "@ + i.desc;
    let x = decimal(i.line as nat);
    let y = decimal(line as nat);
    assert(clipboard_line(i) =~= a + x + b);
    assert(clipboard_line(j) =~= a + y + b);
    if clipboard_line(i) == clipboard_line(j) {
        assert(x.len() == y.len());
        assert(x =~= (a + x + b).subrange(a.len() as int, (a.len() + x.len()) as int));
        assert(y =~= (a + y + b).subrange(a.len() as int, (a.len() + y.len()) as int));
        lemma_decimal_digits(i.line as nat);
        lemma_decimal_digits(line as nat);
        assert(false);
    }
}

proof fn lemma_rfind_last_sep(dir: Seq<char>, name: Seq<char>, c: char)
    requires
        free_of(name, c),
    ensures
        rfind_char(dir + seq![c] + name, c) == Some(dir.len()),
    decreases name.len(),
{
    let s = dir + seq![c] + name;
    if name.len() > 0 {
        assert(s.last() == name.last());
        assert(s.drop_last() =~= dir + seq![c] + name.drop_last());
        lemma_rfind_last_sep(dir, name.drop_last(), c);
    } else {
        assert(s.last() == c);
    }
}

/// The copied text names the file by its name alone: issues whose files have
/// the same name, in whatever directories, copy to the same text.
pub proof fn lemma_clipboard_names_file_only(
    i: IssueModel,
    dir1: Seq<char>,
    dir2: Seq<char>,
    name: Seq<char>,
)
    requires
        free_of(name, '/'),
    ensures
        clipboard_line(IssueModel { file: dir1 + seq!['/'] + name, ..i }) == clipboard_line(
            IssueModel { file: dir2 + seq!['/'] + name, ..i },
        ),
{
    lemma_rfind_last_sep(dir1, name, '/');
    lemma_rfind_last_sep(dir2, name, '/');
    let f1 = dir1 + seq!['/'] + name;
    let f2 = dir2 + seq!['/'] + name;
    assert(rsplit_once(f1, '/').unwrap().1 =~= name);
    assert(rsplit_once(f2, '/').unwrap().1 =~= name);
}

proof fn lemma_list_text_blocks(s: Seq<IssueModel>, home: Option<Seq<char>>)
    ensures
        list_text(s, home).len() == 4 * s.len(),
        forall|j: int, t: int|
            0 <= j < s.len() && 0 <= t < 4 ==> #[trigger] list_text(s, home)[4 * j + t]
                == issue_lines(s[j], home)[t],
    decreases s.len(),
{
    if s.len() > 0 {
        let d = s.drop_last();
        lemma_list_text_blocks(d, home);
        assert forall|j: int, t: int| 0 <= j < s.len() && 0 <= t < 4 implies #[trigger] list_text(
            s,
            home,
        )[4 * j + t] == issue_lines(s[j], home)[t] by {
            if j < d.len() {
                assert(s[j] == d[j]);
                assert(list_text(d, home)[4 * j + t] == issue_lines(d[j], home)[t]);
            }
        }
    }
}

/// In the listing, the found line and an empty line come first, then four lines
/// for each issue in order; the second of these names the issue's file and
/// line.  The file is shown as its path, or, where the path starts with the
/// home directory, as `~` followed by the rest of the path: putting the home
/// directory back in place of the `~` gives the path again.  A path that does
/// not start with the home directory is shown unchanged.
pub proof fn lemma_listing_names_files(s: Seq<IssueModel>, home: Option<Seq<char>>)
    requires
        home matches Some(h) ==> h.len() > 0,
    ensures
        listing_text(s, home).len() == 2 + 4 * s.len(),
        forall|j: int|
            0 <= j < s.len() ==> exists|shown: Seq<char>|
                #[trigger] listing_text(s, home)[2 + 4 * j + 1] == shown + ":"@ + decimal(
                    s[j].line as nat,
                ) && {
                    ||| shown == s[j].file && !(home matches Some(h) && h.len() <= s[j].file.len()
                        && s[j].file.take(h.len() as int) == h)
                    ||| home matches Some(h) && shown.len() > 0 && shown[0] == '~' && h
                        + shown.skip(1) == s[j].file && shown.len() <= s[j].file.len()
                },
{
    reveal_strlit("~");
    lemma_list_text_blocks(s, home);
    assert forall|j: int| 0 <= j < s.len() implies exists|shown: Seq<char>|
        #[trigger] listing_text(s, home)[2 + 4 * j + 1] == shown + ":"@ + decimal(
            s[j].line as nat,
        ) && {
            ||| shown == s[j].file && !(home matches Some(h) && h.len() <= s[j].file.len()
                && s[j].file.take(h.len() as int) == h)
            ||| home matches Some(h) && shown.len() > 0 && shown[0] == '~' && h + shown.skip(1)
                == s[j].file && shown.len() <= s[j].file.len()
        } by {
        let f = s[j].file;
        let shown = crate::utils::shortened(f, home);
        assert(listing_text(s, home)[2 + 4 * j + 1] == list_text(s, home)[4 * j + 1]);
        match home {
            Some(h) => {
                if h.len() <= f.len() && f.take(h.len() as int) == h {
                    assert(shown.skip(1) =~= f.skip(h.len() as int));
                    assert(h + shown.skip(1) =~= f);
                }
            },
            None => {},
        }
    }
}

} // verus!
