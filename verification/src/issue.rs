//! Issues and how they are read from the comment lines of source files.
//!
//! An issue is a single line that holds the marker `*brakoll` and a description
//! field, e.g. `// *brakoll - d: fix typo, p: 10, t: debug, s: open`.  The fields
//! are read from the text that starts at the first `d:`: it is split at commas,
//! each piece is split at its first colon into a key and a value, and the keys
//! `d`, `p`, `t` and `s` give the description, priority, tag and status.
use vstd::prelude::*;
use crate::status::{IssueStatus, status_named, status_from_text};
use crate::text::{
    chars_eq, chars_of, contains, contains_chars, find, find_chars, lemma_find_bounds, lines,
    lines_chars, parse_u32, parse_u32_chars, slice_range, split, split_chars, split_once,
    split_once_chars, string_of, trim, trim_chars,
};

verus! {

/// An issue found in a source file.
#[derive(Clone, Debug)]
pub struct Issue {
    pub file: String,
    pub line: usize,
    pub desc: String,
    pub prio: u32,
    pub tag: String,
    pub status: IssueStatus,
    pub id: u32,
}

/// The mathematical content of an `Issue`.
pub struct IssueModel {
    pub file: Seq<char>,
    pub line: int,
    pub desc: Seq<char>,
    pub prio: u32,
    pub tag: Seq<char>,
    pub status: IssueStatus,
    pub id: u32,
}

impl View for Issue {
    type V = IssueModel;

    open spec fn view(&self) -> IssueModel {
        IssueModel {
            file: self.file@,
            line: self.line as int,
            desc: self.desc@,
            prio: self.prio,
            tag: self.tag@,
            status: self.status,
            id: self.id,
        }
    }
}

/// The views of a sequence of issues.
pub open spec fn issues_view(s: Seq<Issue>) -> Seq<IssueModel> {
    s.map_values(|i: Issue| i@)
}

/// The marker that every issue line carries.
pub open spec fn marker() -> Seq<char> {
    seq!['*', 'b', 'r', 'a', 'k', 'o', 'l', 'l']
}

/// The field that starts an issue's description: `d:`.
pub open spec fn desc_key() -> Seq<char> {
    seq!['d', ':']
}

/// The description of an issue whose `d` field is absent.
pub open spec fn default_desc() -> Seq<char> {
    "issue"@
}

/// The tag of an issue whose `t` field is absent.
pub open spec fn default_tag() -> Seq<char> {
    "n/a"@
}

/// A line that states an issue: it holds the marker and `d:`.
pub open spec fn is_issue_line(l: Seq<char>) -> bool {
    contains(l, marker()) && contains(l, desc_key())
}

/// The issue lines among `ls`, each with its line number counted from 1.
pub open spec fn numbered_issue_lines(ls: Seq<Seq<char>>) -> Seq<(int, Seq<char>)>
    decreases ls.len(),
{
    if ls.len() == 0 {
        Seq::empty()
    } else {
        let r = numbered_issue_lines(ls.drop_last());
        if is_issue_line(ls.last()) {
            r.push((ls.len() as int, ls.last()))
        } else {
            r
        }
    }
}

/// The issue lines of a file's text, with their line numbers.
pub open spec fn raw_issues(content: Seq<char>) -> Seq<(int, Seq<char>)> {
    numbered_issue_lines(lines(content))
}

/// The comma-separated pieces of an issue line, from its first `d:` on; a line
/// without `d:` yields a single empty piece.
pub open spec fn issue_pieces(raw: Seq<char>) -> Seq<Seq<char>> {
    match find(raw, desc_key()) {
        Some(pos) => split(raw.skip(pos as int), ','),
        None => split(Seq::empty(), ','),
    }
}

/// The value that the last piece with key `key` gives, trimmed; pieces without a
/// colon are skipped.
pub open spec fn field_value(pieces: Seq<Seq<char>>, key: Seq<char>) -> Option<Seq<char>>
    decreases pieces.len(),
{
    if pieces.len() == 0 {
        None
    } else {
        match split_once(trim(pieces.last()), ':') {
            Some(kv) => if trim(kv.0) == key {
                Some(trim(kv.1))
            } else {
                field_value(pieces.drop_last(), key)
            },
            None => field_value(pieces.drop_last(), key),
        }
    }
}

/// The value of a field, or the empty text when it is absent.
pub open spec fn field_or_empty(pieces: Seq<Seq<char>>, key: Seq<char>) -> Seq<char> {
    match field_value(pieces, key) {
        Some(v) => v,
        None => Seq::empty(),
    }
}

/// The issue that line `line` of `file`, with text `raw`, states, under id `id`.
pub open spec fn parse_issue(file: Seq<char>, line: int, raw: Seq<char>, id: u32) -> IssueModel {
    let pieces = issue_pieces(raw);
    IssueModel {
        file: file,
        line: line,
        desc: match field_value(pieces, seq!['d']) {
            Some(d) => d,
            None => default_desc(),
        },
        prio: match parse_u32(field_or_empty(pieces, seq!['p'])) {
            Some(p) => p,
            None => 0,
        },
        tag: match field_value(pieces, seq!['t']) {
            Some(t) => t,
            None => default_tag(),
        },
        status: match status_named(field_or_empty(pieces, seq!['s'])) {
            Some(s) => s,
            None => IssueStatus::Open,
        },
        id: id,
    }
}

/// The view of an optional character vector.
pub open spec fn opt_view(o: Option<Vec<char>>) -> Option<Seq<char>> {
    match o {
        Some(v) => Some(v@),
        None => None,
    }
}

/// The marker `*brakoll` as characters.
fn marker_chars() -> (r: Vec<char>)
    ensures
        r@ == marker(),
{
    let r = vec!['*', 'b', 'r', 'a', 'k', 'o', 'l', 'l'];
    assert(r@ =~= marker());
    r
}

/// `d:` as characters.
fn desc_key_chars() -> (r: Vec<char>)
    ensures
        r@ == desc_key(),
{
    let r = vec!['d', ':'];
    assert(r@ =~= desc_key());
    r
}

/// The lines of `content` that state issues, each with its line number counted from 1.
pub fn find_issues(content: &str) -> (r: Vec<(usize, String)>)
    ensures
        r@.map_values(|p: (usize, String)| (p.0 as int, p.1@)) == raw_issues(content@),
{
    let text = chars_of(content);
    let ls = lines_chars(text.as_slice());
    let ghost lv = ls@.map_values(|v: Vec<char>| v@);
    let m = marker_chars();
    let dk = desc_key_chars();
    let mut r: Vec<(usize, String)> = Vec::new();
    let n = ls.len();
    assert(lv.take(0) =~= Seq::<Seq<char>>::empty());
    for i in 0..n
        invariant
            n == ls@.len(),
            lv == ls@.map_values(|v: Vec<char>| v@),
            m@ == marker(),
            dk@ == desc_key(),
            r@.map_values(|p: (usize, String)| (p.0 as int, p.1@)) == numbered_issue_lines(
                lv.take(i as int),
            ),
    {
        let ghost prev = r@.map_values(|p: (usize, String)| (p.0 as int, p.1@));
        assert(lv.take(i + 1).drop_last() =~= lv.take(i as int));
        assert(lv.take(i + 1).last() == ls@[i as int]@);
        let l = ls[i].as_slice();
        if contains_chars(l, m.as_slice()) && contains_chars(l, dk.as_slice()) {
            r.push((i + 1, string_of(l)));
            assert(r@.map_values(|p: (usize, String)| (p.0 as int, p.1@)) =~= prev.push(
                ((i + 1) as int, lv[i as int]),
            ));
        }
    }
    assert(lv.take(n as int) =~= lv);
    r
}

/// One character as a sequence.
fn key_chars(c: char) -> (r: Vec<char>)
    ensures
        r@ == seq![c],
{
    let r = vec![c];
    assert(r@ =~= seq![c]);
    r
}

/// The fields of an issue line: its description, priority text, tag and status text,
/// each as the last piece with that key gives it.
pub fn issue_fields(raw: &[char]) -> (r: (
    Option<Vec<char>>,
    Option<Vec<char>>,
    Option<Vec<char>>,
    Option<Vec<char>>,
))
    ensures
        opt_view(r.0) == field_value(issue_pieces(raw@), seq!['d']),
        opt_view(r.1) == field_value(issue_pieces(raw@), seq!['p']),
        opt_view(r.2) == field_value(issue_pieces(raw@), seq!['t']),
        opt_view(r.3) == field_value(issue_pieces(raw@), seq!['s']),
{
    let dk = desc_key_chars();
    let tail: Vec<char> = match find_chars(raw, dk.as_slice()) {
        Some(pos) => {
            proof {
                lemma_find_bounds(raw@, desc_key(), 0);
            }
            let t = slice_range(raw, pos, raw.len());
            assert(t@ =~= raw@.skip(pos as int));
            t
        },
        None => Vec::new(),
    };
    let pieces = split_chars(tail.as_slice(), ',');
    let ghost pv = pieces@.map_values(|v: Vec<char>| v@);
    assert(pv == issue_pieces(raw@));
    let kd = key_chars('d');
    let kp = key_chars('p');
    let kt = key_chars('t');
    let ks = key_chars('s');
    let mut d: Option<Vec<char>> = None;
    let mut p: Option<Vec<char>> = None;
    let mut t: Option<Vec<char>> = None;
    let mut s: Option<Vec<char>> = None;
    assert(pv.take(0) =~= Seq::<Seq<char>>::empty());
    for i in 0..pieces.len()
        invariant
            pv == pieces@.map_values(|v: Vec<char>| v@),
            kd@ == seq!['d'],
            kp@ == seq!['p'],
            kt@ == seq!['t'],
            ks@ == seq!['s'],
            opt_view(d) == field_value(pv.take(i as int), seq!['d']),
            opt_view(p) == field_value(pv.take(i as int), seq!['p']),
            opt_view(t) == field_value(pv.take(i as int), seq!['t']),
            opt_view(s) == field_value(pv.take(i as int), seq!['s']),
    {
        assert(pv.take(i + 1).drop_last() =~= pv.take(i as int));
        assert(pv.take(i + 1).last() == pieces@[i as int]@);
        assert(seq!['d'][0] == 'd' && seq!['p'][0] == 'p' && seq!['t'][0] == 't' && seq!['s'][0]
            == 's');
        let piece = trim_chars(pieces[i].as_slice());
        match split_once_chars(piece.as_slice(), ':') {
            Some((k, v)) => {
                let key = trim_chars(k.as_slice());
                if chars_eq(key.as_slice(), kt.as_slice()) {
                    t = Some(trim_chars(v.as_slice()));
                } else if chars_eq(key.as_slice(), kd.as_slice()) {
                    d = Some(trim_chars(v.as_slice()));
                } else if chars_eq(key.as_slice(), ks.as_slice()) {
                    s = Some(trim_chars(v.as_slice()));
                } else if chars_eq(key.as_slice(), kp.as_slice()) {
                    p = Some(trim_chars(v.as_slice()));
                }
            },
            None => {},
        }
    }
    assert(pv.take(pieces.len() as int) =~= pv);
    (d, p, t, s)
}

/// The issue that line `line` of `file`, with text `raw`, states, under id `id`.
pub fn parse_issue_line(file: &String, line: usize, raw: &[char], id: u32) -> (r: Issue)
    ensures
        r@ == parse_issue(file@, line as int, raw@, id),
{
    let (d, p, t, s) = issue_fields(raw);
    let desc = match d {
        Some(v) => string_of(v.as_slice()),
        None => String::from_str("issue"),
    };
    let tag = match t {
        Some(v) => string_of(v.as_slice()),
        None => String::from_str("n/a"),
    };
    let p_text: Vec<char> = match p {
        Some(v) => v,
        None => Vec::new(),
    };
    assert(p_text@ == field_or_empty(issue_pieces(raw@), seq!['p']));
    let prio = match parse_u32_chars(p_text.as_slice()) {
        Some(v) => v,
        None => 0,
    };
    let s_text: Vec<char> = match s {
        Some(v) => v,
        None => Vec::new(),
    };
    assert(s_text@ == field_or_empty(issue_pieces(raw@), seq!['s']));
    let status = match status_from_text(s_text.as_slice()) {
        Some(st) => st,
        None => IssueStatus::Open,
    };
    Issue { file: file.clone(), line, desc, prio, tag, status, id }
}

/// A file that was found, with its text.
pub struct FoundFile {
    pub path: String,
    pub content: String,
}

/// The paths and texts of found files.
pub open spec fn files_view(files: Seq<FoundFile>) -> Seq<(Seq<char>, Seq<char>)> {
    files.map_values(|f: FoundFile| (f.path@, f.content@))
}

/// Every issue line of the files, in file order and then line order, with its
/// file's path and its line number.
pub open spec fn file_entries(files: Seq<(Seq<char>, Seq<char>)>) -> Seq<(Seq<char>, int, Seq<char>)>
    decreases files.len(),
{
    if files.len() == 0 {
        Seq::empty()
    } else {
        file_entries(files.drop_last()) + raw_issues(files.last().1).map_values(
            |r: (int, Seq<char>)| (files.last().0, r.0, r.1),
        )
    }
}

/// The issues that the entries state; the entry at position `j` gets id `j + 2`.
pub open spec fn issues_from(es: Seq<(Seq<char>, int, Seq<char>)>) -> Seq<IssueModel> {
    Seq::new(es.len(), |j: int| parse_issue(es[j].0, es[j].1, es[j].2, (j + 2) as u32))
}

/// A prefix of the files has no more issue lines than the files.
pub proof fn lemma_file_entries_prefix(files: Seq<(Seq<char>, Seq<char>)>, i: int)
    requires
        0 <= i <= files.len(),
    ensures
        file_entries(files.take(i)).len() <= file_entries(files).len(),
    decreases files.len(),
{
    if i < files.len() {
        assert(files.drop_last().take(i) =~= files.take(i));
        lemma_file_entries_prefix(files.drop_last(), i);
    } else {
        assert(files.take(i) =~= files);
    }
}

/// Reads the issues of all found files; ids are given in order, from 2 on.
pub fn issues_of_files(files_found: &Vec<FoundFile>) -> (r: Vec<Issue>)
    requires
        file_entries(files_view(files_found@)).len() < u32::MAX,
    ensures
        issues_view(r@) == issues_from(file_entries(files_view(files_found@))),
{
    let ghost fv = files_view(files_found@);
    let mut parsed_issues: Vec<Issue> = Vec::new();
    let mut id_counter: u32 = 1;
    let nf = files_found.len();
    assert(fv.take(0) =~= Seq::<(Seq<char>, Seq<char>)>::empty());
    assert(issues_view(parsed_issues@) =~= issues_from(Seq::empty()));
    for i in 0..nf
        invariant
            nf == files_found@.len(),
            fv == files_view(files_found@),
            file_entries(fv).len() < u32::MAX,
            issues_view(parsed_issues@) == issues_from(file_entries(fv.take(i as int))),
            id_counter == parsed_issues@.len() + 1,
    {
        let f = &files_found[i];
        let raw = find_issues(f.content.as_str());
        let ghost prev = file_entries(fv.take(i as int));
        let ghost rv = raw@.map_values(|p: (usize, String)| (p.0 as int, p.1@));
        let ghost added = rv.map_values(|r: (int, Seq<char>)| (fv[i as int].0, r.0, r.1));
        assert(fv.take(i + 1).drop_last() =~= fv.take(i as int));
        assert(fv.take(i + 1).last() == fv[i as int]);
        assert(file_entries(fv.take(i + 1)) == prev + added);
        proof {
            lemma_file_entries_prefix(fv, i + 1);
        }
        let nr = raw.len();
        assert(added.take(0) =~= Seq::<(Seq<char>, int, Seq<char>)>::empty());
        assert(prev + added.take(0) =~= prev);
        for k in 0..nr
            invariant
                nr == raw@.len(),
                rv == raw@.map_values(|p: (usize, String)| (p.0 as int, p.1@)),
                added == rv.map_values(|r: (int, Seq<char>)| (f.path@, r.0, r.1)),
                (prev + added).len() <= file_entries(fv).len(),
                file_entries(fv).len() < u32::MAX,
                issues_view(parsed_issues@) == issues_from(prev + added.take(k as int)),
                id_counter == parsed_issues@.len() + 1,
        {
            let ghost es = prev + added.take(k as int);
            assert(es.len() < (prev + added).len());
            assert(parsed_issues@.len() == issues_view(parsed_issues@).len());
            assert(parsed_issues@.len() == es.len());
            id_counter += 1;
            let text = chars_of(raw[k].1.as_str());
            let issue = parse_issue_line(&f.path, raw[k].0, text.as_slice(), id_counter);
            let ghost es2 = prev + added.take(k + 1);
            assert(es2 =~= es.push(added[k as int]));
            assert(rv[k as int] == (raw@[k as int].0 as int, raw@[k as int].1@));
            assert(added[k as int] == (f.path@, raw@[k as int].0 as int, text@));
            let ghost before = issues_view(parsed_issues@);
            parsed_issues.push(issue);
            assert(issues_view(parsed_issues@) =~= before.push(issue@));
            assert(issues_view(parsed_issues@) =~= issues_from(es2));
        }
        assert(added.take(nr as int) =~= added);
    }
    assert(fv.take(nf as int) =~= fv);
    parsed_issues
}

} // verus!
