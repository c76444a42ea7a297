//! What a status change leaves in a file: the issue's line, read again, states
//! the new status.
use vstd::prelude::*;
use crate::brakoll::{join_lines, rewritten_text, status_key, with_status};
use crate::issue::{
    IssueModel, default_tag, desc_key, field_or_empty, field_value, file_entries, is_issue_line, issue_pieces,
    issues_from, marker, numbered_issue_lines, parse_issue, raw_issues,
};
use crate::laws::lemma_label_names_status;
use crate::status::{IssueStatus, label_of, status_named};
use crate::text::{
    contains, find, find_from, free_of, is_ws, lemma_find_first, lemma_find_some, lemma_lines_free,
    lemma_find_none, lemma_split_after_sep, lemma_split_free, lines, parse_u32, occurs_at, split, split_once, strip_cr, trim,
    trim_end, trim_start,
};

verus! {

/// The status field of a line is a field of its own: the line has `d:` and, after
/// it, a comma followed only by whitespace up to the first `s:`, and the marker
/// comes before that `s:`.  Lines written as `... d: text, p: 1, t: tag, s: open`
/// are of this kind.
pub open spec fn status_field_placed(l: Seq<char>) -> bool {
    match (find(l, desc_key()), find(l, status_key())) {
        (Some(q), Some(p)) => contains(l.take(p as int), marker()) && exists|m: int|
            q + 2 <= m < p && l[m] == ',' && forall|j: int| m < j < p ==> is_ws(#[trigger] l[j]),
        _ => false,
    }
}

/// Splitting joined lines at line feeds gives the lines back.
proof fn lemma_split_join(xs: Seq<Seq<char>>)
    requires
        xs.len() >= 1,
        forall|i: int| 0 <= i < xs.len() ==> free_of(#[trigger] xs[i], '\n'),
    ensures
        split(join_lines(xs), '\n') == xs,
    decreases xs.len(),
{
    if xs.len() == 1 {
        lemma_split_free(xs[0], '\n');
        assert(xs =~= seq![xs[0]]);
    } else {
        let d = xs.drop_last();
        assert forall|i: int| 0 <= i < d.len() implies free_of(#[trigger] d[i], '\n') by {
            assert(d[i] == xs[i]);
        }
        lemma_split_join(d);
        assert(free_of(xs[xs.len() - 1], '\n'));
        lemma_split_after_sep(join_lines(d), xs.last(), '\n');
        assert(d.push(xs.last()) =~= xs);
    }
}

/// A line that is not empty and does not end in a carriage return is read back
/// unchanged from the joined text.
proof fn lemma_lines_of_join(xs: Seq<Seq<char>>, i: int)
    requires
        0 <= i < xs.len(),
        forall|k: int| 0 <= k < xs.len() ==> free_of(#[trigger] xs[k], '\n'),
        xs[i].len() > 0,
        xs[i].last() != '\r',
    ensures
        i < lines(join_lines(xs)).len(),
        lines(join_lines(xs))[i] == xs[i],
{
    lemma_split_join(xs);
    let parts = split(join_lines(xs), '\n');
    if i < xs.len() - 1 {
        assert(lines(join_lines(xs))[i] == strip_cr(parts[i]));
    } else {
        assert(parts.last().len() > 0);
    }
}

/// Leading whitespace does not change what `trim_start` leaves.
proof fn lemma_trim_start_skips_ws(w: Seq<char>, y: Seq<char>)
    requires
        forall|j: int| 0 <= j < w.len() ==> is_ws(#[trigger] w[j]),
    ensures
        trim_start(w + y) == trim_start(y),
    decreases w.len(),
{
    if w.len() > 0 {
        assert((w + y).drop_first() =~= w.drop_first() + y);
        assert(is_ws(w[0]));
        assert((w + y)[0] == w[0]);
        lemma_trim_start_skips_ws(w.drop_first(), y);
    } else {
        assert(w + y =~= y);
    }
}

proof fn lemma_label_facts(st: IssueStatus)
    ensures
        label_of(st).len() > 0,
        !is_ws(label_of(st)[0]),
        !is_ws(label_of(st).last()),
        label_of(st).last() != '\r',
        free_of(label_of(st), ','),
        free_of(label_of(st), '\n'),
{
    reveal_strlit("open");
    reveal_strlit("in progress");
    reveal_strlit("closed");
}

/// Trailing whitespace is all that `trim_end` removes: it keeps a prefix that
/// reaches past every character that is not whitespace.
proof fn lemma_trim_end_prefix(s: Seq<char>, i: int)
    requires
        0 <= i < s.len(),
        !is_ws(s[i]),
    ensures
        i < trim_end(s).len() <= s.len(),
        trim_end(s) == s.take(trim_end(s).len() as int),
    decreases s.len(),
{
    if is_ws(s.last()) {
        assert(s.drop_last()[i] == s[i]);
        assert(trim_end(s) == trim_end(s.drop_last()));
        lemma_trim_end_prefix(s.drop_last(), i);
        assert(s.drop_last().take(trim_end(s).len() as int) =~= s.take(trim_end(s).len() as int));
    } else {
        assert(s.take(s.len() as int) =~= s);
    }
}

/// The fields of a line whose last piece is a status field `s:`: that piece gives
/// the status text, and every other field is given by the pieces before it.
pub proof fn lemma_status_field_last(y: Seq<char>, q: int, m: int, w: Seq<char>, z: Seq<char>)
    requires
        0 <= q,
        find(y, desc_key()) == Some(q as nat),
        q + 2 <= m < y.len(),
        y[m] == ',',
        y.skip(m + 1) == w + z,
        forall|j: int| 0 <= j < w.len() ==> is_ws(#[trigger] w[j]),
        z.len() >= 2,
        z[0] == 's',
        z[1] == ':',
        free_of(z, ','),
    ensures
        field_value(issue_pieces(y), seq!['s']) == Some(trim(trim(z).skip(2))),
        forall|k: Seq<char>|
            k != seq!['s'] ==> #[trigger] field_value(issue_pieces(y), k) == field_value(
                split(y.subrange(q, m), ','),
                k,
            ),
{
    let sub = y.subrange(q, m);
    let last = w + z;
    assert forall|j: int| 0 <= j < last.len() implies y[m + 1 + j] == last[j] by {
        assert(y.skip(m + 1)[j] == y[m + 1 + j]);
    }
    assert(y.skip(q) =~= sub + seq![','] + last);
    assert(free_of(last, ',')) by {
        assert forall|j: int| 0 <= j < last.len() implies last[j] != ',' by {
            if j < w.len() {
                assert(is_ws(w[j]));
            } else {
                assert(last[j] == z[j - w.len()]);
            }
        }
    }
    lemma_split_after_sep(sub, last, ',');
    let pieces = issue_pieces(y);
    assert(pieces == split(sub, ',').push(last));
    assert(pieces.drop_last() =~= split(sub, ','));
    assert(pieces.last() == last);
    lemma_trim_start_skips_ws(w, z);
    assert(trim_start(z) == z);
    lemma_trim_end_prefix(z, 1);
    let tz = trim_end(z);
    assert(trim(last) == tz);
    assert(tz[0] == z.take(tz.len() as int)[0]);
    assert(tz[1] == z.take(tz.len() as int)[1]);
    assert(tz[0] == 's' && tz[1] == ':');
    assert(tz.subrange(0, 1) != seq![':']) by {
        assert(tz.subrange(0, 1)[0] == 's');
    }
    assert(tz.subrange(1, 2) =~= seq![':']);
    assert(find_from(tz, seq![':'], 1) == Some(1nat));
    assert(find_from(tz, seq![':'], 0) == find_from(tz, seq![':'], 1));
    let sp = split_once(tz, ':').unwrap();
    assert(sp.0 =~= seq!['s']);
    assert(trim_end(seq!['s']) == seq!['s']);
    assert(trim(sp.0) == seq!['s']);
    assert(sp.1 == tz.skip(2));
}

/// After a status change on a line whose status field is a field of its own,
/// the file's line at that number, read again, is still an issue line, and the
/// issue it states has the new status.  When the status field is also the last
/// field of the line, the description, priority and tag read back unchanged.
pub proof fn lemma_status_change_reads_back(
    content: Seq<char>,
    n: int,
    old_status: IssueStatus,
    new_status: IssueStatus,
    file: Seq<char>,
    id: u32,
)
    requires
        1 <= n <= lines(content).len(),
        status_field_placed(lines(content)[n - 1]),
    ensures
        rewritten_text(content, n, old_status, new_status) is Ok,
        rewritten_text(content, n, old_status, new_status) matches Ok(t) && n <= lines(t).len()
            && is_issue_line(lines(t)[n - 1]) && parse_issue(file, n, lines(t)[n - 1], id).status
            == new_status,
        status_field_last(lines(content)[n - 1]) ==> (rewritten_text(
            content,
            n,
            old_status,
            new_status,
        ) matches Ok(t) && parse_issue(file, n, lines(t)[n - 1], id) == (IssueModel {
            status: new_status,
            ..parse_issue(file, n, lines(content)[n - 1], id)
        })),
{
    reveal_strlit("s: ");
    let ls = lines(content);
    let l = ls[n - 1];
    let q = find(l, desc_key()).unwrap() as int;
    let p = find(l, status_key()).unwrap() as int;
    let m = choose|m: int|
        q + 2 <= m < p && l[m] == ',' && forall|j: int| m < j < p ==> is_ws(#[trigger] l[j]);
    lemma_find_first(l, desc_key(), 0);
    lemma_find_first(l, status_key(), 0);
    assert(contains(l, status_key()));
    let label = label_of(new_status);
    lemma_label_facts(new_status);
    let head = l.take(p);
    let nl = head + "s: "@ + label;
    assert(nl == with_status(l, new_status));
    let ls2 = ls.update(n - 1, nl);
    // The rewritten line holds no line feed, and neither do the others.
    lemma_lines_free(content);
    assert(free_of(l, '\n'));
    assert forall|k: int| 0 <= k < ls2.len() implies free_of(#[trigger] ls2[k], '\n') by {
        if k == n - 1 {
            assert forall|j: int| 0 <= j < nl.len() implies nl[j] != '\n' by {
                if j < p {
                    assert(nl[j] == l[j]);
                } else if j < p + 3 {
                } else {
                    assert(nl[j] == label[j - p - 3]);
                }
            }
        }
    }
    assert(nl.last() == label.last());
    lemma_lines_of_join(ls2, n - 1);
    let t = join_lines(ls2);
    assert(lines(t)[n - 1] == nl);
    // The first `d:` of the new line is where it was.
    assert(nl.take(p) =~= head);
    assert(occurs_at(nl, desc_key(), q)) by {
        assert(nl.subrange(q, q + 2) =~= l.subrange(q, q + 2));
    }
    lemma_find_some(nl, desc_key(), 0, q);
    lemma_find_first(nl, desc_key(), 0);
    let q2 = find(nl, desc_key()).unwrap() as int;
    if q2 < q {
        assert(nl.subrange(q2, q2 + 2) =~= l.subrange(q2, q2 + 2));
        assert(!occurs_at(l, desc_key(), q2));
    }
    assert(q2 == q);
    // The last piece of the new line is its status field.
    let w = l.subrange(m + 1, p);
    let y = w + "s: "@ + label;
    assert(nl.skip(q) =~= l.subrange(q, m) + seq![','] + y);
    assert(free_of(y, ',')) by {
        assert forall|j: int| 0 <= j < y.len() implies y[j] != ',' by {
            if j < w.len() {
                assert(w[j] == l[m + 1 + j]);
                assert(is_ws(l[m + 1 + j]));
            } else if j < w.len() + 3 {
            } else {
                assert(y[j] == label[j - w.len() - 3]);
            }
        }
    }
    lemma_split_after_sep(l.subrange(q, m), y, ',');
    let pieces = issue_pieces(nl);
    assert(pieces.last() == y);
    let z = "s: "@ + label;
    assert(y =~= w + z);
    assert forall|j: int| 0 <= j < w.len() implies is_ws(#[trigger] w[j]) by {
        assert(w[j] == l[m + 1 + j]);
    }
    lemma_trim_start_skips_ws(w, z);
    assert(trim_start(z) == z);
    assert(z.last() == label.last());
    assert(trim_end(z) == z);
    assert(trim(y) == z);
    // `s: label` splits at its colon into the key `s` and ` label`.
    assert(z.subrange(0, 1) != seq![':']) by {
        assert(z.subrange(0, 1)[0] == 's');
    }
    assert(z.subrange(1, 2) =~= seq![':']);
    assert(find_from(z, seq![':'], 1) == Some(1nat));
    assert(find_from(z, seq![':'], 0) == find_from(z, seq![':'], 1));
    assert(find(z, seq![':']) == Some(1nat));
    let sp = split_once(z, ':').unwrap();
    assert(sp.0 =~= seq!['s']);
    assert(sp.1 =~= seq![' '] + label);
    assert(trim_end(seq!['s']) == seq!['s']);
    assert(trim(sp.0) == seq!['s']);
    lemma_trim_start_skips_ws(seq![' '], label);
    assert(trim_start(label) == label);
    assert(trim_end(label) == label);
    assert(trim(sp.1) == label);
    assert(field_value(pieces, seq!['s']) == Some(label));
    assert(field_or_empty(pieces, seq!['s']) == label);
    lemma_label_names_status(new_status);
    // The new line still holds the marker and `d:`.
    assert(contains(head, marker()));
    lemma_find_first(head, marker(), 0);
    let k = find(head, marker()).unwrap() as int;
    assert(nl.subrange(k, k + marker().len()) =~= head.subrange(k, k + marker().len()));
    lemma_find_some(nl, marker(), 0, k);
    if status_field_last(l) {
        lemma_rewrite_keeps_fields(l, new_status, file, n, id);
    }
}

/// Rewriting the status of a line whose status field is a field of its own and
/// its last field changes the status it states and nothing else.
proof fn lemma_rewrite_keeps_fields(
    l: Seq<char>,
    new_status: IssueStatus,
    file: Seq<char>,
    n: int,
    id: u32,
)
    requires
        status_field_placed(l),
        status_field_last(l),
    ensures
        parse_issue(file, n, with_status(l, new_status), id) == (IssueModel {
            status: new_status,
            ..parse_issue(file, n, l, id)
        }),
{
    reveal_strlit("s: ");
    let q = find(l, desc_key()).unwrap() as int;
    let p = find(l, status_key()).unwrap() as int;
    let m = choose|m: int|
        q + 2 <= m < p && l[m] == ',' && forall|j: int| m < j < p ==> is_ws(#[trigger] l[j]);
    lemma_find_first(l, desc_key(), 0);
    lemma_find_first(l, status_key(), 0);
    let label = label_of(new_status);
    lemma_label_facts(new_status);
    let nl = l.take(p) + "s: "@ + label;
    assert(nl == with_status(l, new_status));
    // The first `d:` of the new line is where it was.
    assert(occurs_at(nl, desc_key(), q)) by {
        assert(nl.subrange(q, q + 2) =~= l.subrange(q, q + 2));
    }
    lemma_find_some(nl, desc_key(), 0, q);
    lemma_find_first(nl, desc_key(), 0);
    let q2 = find(nl, desc_key()).unwrap() as int;
    if q2 < q {
        assert(nl.subrange(q2, q2 + 2) =~= l.subrange(q2, q2 + 2));
        assert(!occurs_at(l, desc_key(), q2));
    }
    assert(q2 == q);
    let w = l.subrange(m + 1, p);
    assert forall|j: int| 0 <= j < w.len() implies is_ws(#[trigger] w[j]) by {
        assert(w[j] == l[m + 1 + j]);
    }
    let z = "s: "@ + label;
    let zo = l.skip(p);
    assert(occurs_at(l, status_key(), p));
    assert(zo[0] == l.subrange(p, p + 2)[0] && zo[1] == l.subrange(p, p + 2)[1]);
    assert(l.skip(m + 1) =~= w + zo);
    assert(nl.skip(m + 1) =~= w + z);
    assert(nl[m] == l[m]);
    assert(free_of(z, ',')) by {
        assert forall|j: int| 0 <= j < z.len() implies z[j] != ',' by {
            if j >= 3 {
                assert(z[j] == label[j - 3]);
            }
        }
    }
    lemma_status_field_last(l, q, m, w, zo);
    lemma_status_field_last(nl, q, m, w, z);
    assert(nl.subrange(q, m) =~= l.subrange(q, m));
    // The new status field reads as the new status.
    assert(trim_start(z) == z);
    assert(z.last() == label.last());
    assert(trim_end(z) == z);
    assert(z.skip(2) =~= seq![' '] + label);
    lemma_trim_start_skips_ws(seq![' '], label);
    assert(trim_start(label) == label);
    assert(trim_end(label) == label);
    assert(field_or_empty(issue_pieces(nl), seq!['s']) == label);
    lemma_label_names_status(new_status);
    assert(seq!['d'][0] != seq!['s'][0] && seq!['t'][0] != seq!['s'][0] && seq!['p'][0]
        != seq!['s'][0]);
    assert(seq!['d'] != seq!['s'] && seq!['t'] != seq!['s'] && seq!['p'] != seq!['s']);
    assert(field_value(issue_pieces(nl), seq!['d']) == field_value(issue_pieces(l), seq!['d']));
    assert(field_value(issue_pieces(nl), seq!['t']) == field_value(issue_pieces(l), seq!['t']));
    assert(field_value(issue_pieces(nl), seq!['p']) == field_value(issue_pieces(l), seq!['p']));
}

/// A list of lines none of which states an issue has no issue lines.
proof fn lemma_no_issue_lines(ls: Seq<Seq<char>>)
    requires
        forall|k: int| 0 <= k < ls.len() ==> !is_issue_line(#[trigger] ls[k]),
    ensures
        numbered_issue_lines(ls) == Seq::<(int, Seq<char>)>::empty(),
    decreases ls.len(),
{
    if ls.len() > 0 {
        let d = ls.drop_last();
        assert forall|k: int| 0 <= k < d.len() implies !is_issue_line(#[trigger] d[k]) by {
            assert(d[k] == ls[k]);
        }
        lemma_no_issue_lines(d);
        assert(!is_issue_line(ls[ls.len() - 1]));
    }
}

/// A list of lines whose only issue line is line `i` (counted from 0) has that one
/// issue line, numbered `i + 1`.
proof fn lemma_one_issue_line(ls: Seq<Seq<char>>, i: int)
    requires
        0 <= i < ls.len(),
        is_issue_line(ls[i]),
        forall|k: int| 0 <= k < ls.len() && k != i ==> !is_issue_line(#[trigger] ls[k]),
    ensures
        numbered_issue_lines(ls) == seq![(i + 1, ls[i])],
    decreases ls.len(),
{
    let d = ls.drop_last();
    if i == ls.len() - 1 {
        assert forall|k: int| 0 <= k < d.len() implies !is_issue_line(#[trigger] d[k]) by {
            assert(d[k] == ls[k]);
        }
        lemma_no_issue_lines(d);
        assert(Seq::<(int, Seq<char>)>::empty().push((i + 1, ls[i])) =~= seq![(i + 1, ls[i])]);
    } else {
        assert forall|k: int| 0 <= k < d.len() && k != i implies !is_issue_line(#[trigger] d[k]) by {
            assert(d[k] == ls[k]);
        }
        assert(d[i] == ls[i]);
        lemma_one_issue_line(d, i);
        assert(!is_issue_line(ls[ls.len() - 1]));
    }
}

/// A file whose one issue line is written as text holding the marker (and no
/// `d:`), then `d: `, a description without commas, `, s: ` and the label of a
/// status, yields exactly one issue: that line's, under id 2, with that status,
/// priority 0 and the default tag; a description written without surrounding
/// whitespace reads back as written.
pub proof fn lemma_written_status_reads_back(
    f: Seq<char>,
    c: Seq<char>,
    i: int,
    pre: Seq<char>,
    x: Seq<char>,
    st: IssueStatus,
)
    requires
        0 <= i < lines(c).len(),
        lines(c)[i] == pre + "d: "@ + x + ", s: "@ + label_of(st),
        contains(pre, marker()),
        !contains(pre, desc_key()),
        free_of(x, ','),
        forall|k: int| 0 <= k < lines(c).len() && k != i ==> !is_issue_line(#[trigger] lines(c)[k]),
    ensures
        issues_from(file_entries(seq![(f, c)])).len() == 1,
        issues_from(file_entries(seq![(f, c)]))[0].file == f,
        issues_from(file_entries(seq![(f, c)]))[0].line == i + 1,
        issues_from(file_entries(seq![(f, c)]))[0].id == 2,
        issues_from(file_entries(seq![(f, c)]))[0].status == st,
        issues_from(file_entries(seq![(f, c)]))[0].prio == 0,
        issues_from(file_entries(seq![(f, c)]))[0].tag == default_tag(),
        x.len() > 0 && !is_ws(x[0]) && !is_ws(x.last()) ==> issues_from(
            file_entries(seq![(f, c)]),
        )[0].desc == x,
{
    reveal_strlit("d: ");
    reveal_strlit(", s: ");
    reveal_strlit("s: ");
    let label = label_of(st);
    lemma_label_facts(st);
    let l = lines(c)[i];
    let q = pre.len() as int;
    let m = q + 3 + x.len();
    // The first `d:` of the line is the one after `pre`.
    assert(occurs_at(l, desc_key(), q)) by {
        assert(l.subrange(q, q + 2) =~= desc_key());
    }
    lemma_find_some(l, desc_key(), 0, q);
    lemma_find_first(l, desc_key(), 0);
    let q2 = find(l, desc_key()).unwrap() as int;
    if q2 < q {
        if q2 + 1 < q {
            assert(pre.subrange(q2, q2 + 2) =~= l.subrange(q2, q2 + 2));
            lemma_find_some(pre, desc_key(), 0, q2);
        } else {
            assert(l[q2 + 1] == 'd');
            assert(l.subrange(q2, q2 + 2)[1] == l[q2 + 1]);
        }
    }
    assert(q2 == q);
    // The line states an issue.
    lemma_find_first(pre, marker(), 0);
    let k = find(pre, marker()).unwrap() as int;
    assert(l.subrange(k, k + marker().len()) =~= pre.subrange(k, k + marker().len()));
    lemma_find_some(l, marker(), 0, k);
    assert(is_issue_line(l));
    // The issues of the file.
    lemma_one_issue_line(lines(c), i);
    assert(seq![(f, c)].drop_last() =~= Seq::<(Seq<char>, Seq<char>)>::empty());
    assert(seq![(f, c)].last() == (f, c));
    let es = file_entries(seq![(f, c)]);
    assert(file_entries(Seq::<(Seq<char>, Seq<char>)>::empty()) =~= Seq::empty());
    assert(raw_issues(c) == seq![(i + 1, l)]);
    assert(es =~= seq![(f, i + 1, l)]);
    let iss = issues_from(es);
    assert(iss[0] == parse_issue(f, i + 1, l, 2));
    // The pieces: the description, then the status field.
    let w = seq![' '];
    let z = "s: "@ + label;
    assert(l[m] == ',');
    assert(l.skip(m + 1) =~= w + z);
    assert(free_of(z, ',')) by {
        assert forall|j: int| 0 <= j < z.len() implies z[j] != ',' by {
            if j >= 3 {
                assert(z[j] == label[j - 3]);
            }
        }
    }
    assert forall|j: int| 0 <= j < w.len() implies is_ws(#[trigger] w[j]) by {
        assert(w[j] == ' ');
    }
    lemma_status_field_last(l, q, m, w, z);
    let pieces = issue_pieces(l);
    // The status field reads as the status.
    assert(trim_start(z) == z);
    assert(z.last() == label.last());
    assert(trim_end(z) == z);
    assert(z.skip(2) =~= seq![' '] + label);
    lemma_trim_start_skips_ws(seq![' '], label);
    assert(trim_start(label) == label);
    assert(trim_end(label) == label);
    assert(field_or_empty(pieces, seq!['s']) == label);
    lemma_label_names_status(st);
    // The description piece has key `d`, so it gives no priority and no tag.
    let dp = l.subrange(q, m);
    assert(dp =~= "d: "@ + x);
    assert(free_of(dp, ',')) by {
        assert forall|j: int| 0 <= j < dp.len() implies dp[j] != ',' by {
            if j >= 3 {
                assert(dp[j] == x[j - 3]);
            }
        }
    }
    lemma_split_free(dp, ',');
    let ds = split(dp, ',');
    assert(ds =~= seq![dp]);
    assert(trim_start(dp) == dp);
    lemma_trim_end_prefix(dp, 1);
    let td = trim(dp);
    assert(td[0] == dp.take(td.len() as int)[0]);
    assert(td[1] == dp.take(td.len() as int)[1]);
    assert(td.subrange(0, 1) != seq![':']) by {
        assert(td.subrange(0, 1)[0] == 'd');
    }
    assert(td.subrange(1, 2) =~= seq![':']);
    assert(find_from(td, seq![':'], 1) == Some(1nat));
    assert(find_from(td, seq![':'], 0) == find_from(td, seq![':'], 1));
    let sp = split_once(td, ':').unwrap();
    assert(sp.0 =~= seq!['d']);
    assert(trim_end(seq!['d']) == seq!['d']);
    assert(trim(sp.0) == seq!['d']);
    assert(ds.drop_last() =~= Seq::<Seq<char>>::empty());
    assert(seq!['d'][0] != seq!['p'][0] && seq!['d'][0] != seq!['t'][0]);
    assert(seq!['d'] != seq!['p'] && seq!['d'] != seq!['t']);
    assert(ds.last() == dp);
    assert(split_once(trim(ds.last()), ':') == Some(sp));
    assert(field_value(Seq::<Seq<char>>::empty(), seq!['p']) is None);
    assert(field_value(Seq::<Seq<char>>::empty(), seq!['t']) is None);
    assert(field_value(ds, seq!['p']) is None);
    assert(field_value(ds, seq!['t']) is None);
    assert(field_value(pieces, seq!['p']) is None);
    assert(field_value(pieces, seq!['t']) is None);
    assert(parse_u32(Seq::<char>::empty()) is None);
    if x.len() > 0 && !is_ws(x[0]) && !is_ws(x.last()) {
        assert(dp.last() == x.last());
        assert(trim_end(dp) == dp);
        assert(sp.1 =~= seq![' '] + x);
        lemma_trim_start_skips_ws(seq![' '], x);
        assert(trim_start(x) == x);
        assert(trim_end(x) == x);
        assert(field_value(ds, seq!['d']) == Some(x));
        assert(field_value(pieces, seq!['d']) == Some(x));
    }
}

/// Trailing whitespace after text that ends in a character that is not
/// whitespace is trimmed from the part after that text alone.
proof fn lemma_trim_end_after(a: Seq<char>, b: Seq<char>)
    requires
        a.len() > 0,
        !is_ws(a.last()),
    ensures
        trim_end(a + b) == a + trim_end(b),
    decreases b.len(),
{
    if b.len() == 0 {
        assert(a + b =~= a);
        assert(a + trim_end(b) =~= a);
    } else {
        assert((a + b).last() == b.last());
        if is_ws(b.last()) {
            assert((a + b).drop_last() =~= a + b.drop_last());
            lemma_trim_end_after(a, b.drop_last());
        }
    }
}

/// A whitespace character at the end makes no difference to `trim`.
proof fn lemma_trim_drop_ws_last(v: Seq<char>)
    requires
        v.len() > 0,
        is_ws(v.last()),
    ensures
        trim(v) == trim(v.drop_last()),
    decreases v.len(),
{
    if is_ws(v[0]) {
        if v.len() == 1 {
            assert(trim_start(v.drop_first()) == v.drop_first());
            assert(trim_start(v.drop_last()) == v.drop_last());
        } else {
            assert(v.drop_first().last() == v.last());
            lemma_trim_drop_ws_last(v.drop_first());
            assert(v.drop_last()[0] == v[0]);
            assert(v.drop_last().drop_first() =~= v.drop_first().drop_last());
        }
    } else {
        assert(v.drop_last()[0] == v[0]);
    }
}

/// Trimming the end first changes nothing of what `trim` gives.
proof fn lemma_trim_of_trim_end(v: Seq<char>)
    ensures
        trim(trim_end(v)) == trim(v),
    decreases v.len(),
{
    if v.len() > 0 && is_ws(v.last()) {
        lemma_trim_of_trim_end(v.drop_last());
        lemma_trim_drop_ws_last(v);
    }
}

/// A piece written as whitespace, a one-letter key, `:` and a value splits into
/// that key and the value trimmed.
proof fn lemma_field_piece(w: Seq<char>, k: char, v: Seq<char>)
    requires
        forall|j: int| 0 <= j < w.len() ==> is_ws(#[trigger] w[j]),
        !is_ws(k),
        k != ':',
    ensures
        split_once(trim(w + seq![k, ':'] + v), ':') matches Some(kv) && trim(kv.0) == seq![k]
            && trim(kv.1) == trim(v),
{
    let a = seq![k, ':'];
    assert(w + a + v =~= w + (a + v));
    lemma_trim_start_skips_ws(w, a + v);
    assert((a + v)[0] == k);
    assert(trim_start(a + v) == a + v);
    assert(a.last() == ':');
    lemma_trim_end_after(a, v);
    let t = a + trim_end(v);
    assert(trim(w + a + v) == t);
    assert(t.subrange(0, 1) != seq![':']) by {
        assert(t.subrange(0, 1)[0] == k);
    }
    assert(t.subrange(1, 2) =~= seq![':']);
    assert(find_from(t, seq![':'], 1) == Some(1nat));
    assert(find_from(t, seq![':'], 0) == find_from(t, seq![':'], 1));
    let sp = split_once(t, ':').unwrap();
    assert(sp.0 =~= seq![k]);
    assert(sp.1 =~= trim_end(v));
    assert(trim_start(seq![k]) == seq![k]);
    assert(trim_end(seq![k]) == seq![k]);
    lemma_trim_of_trim_end(v);
}

/// Text made of two parts without a character has none.
proof fn lemma_free_concat(a: Seq<char>, b: Seq<char>, c: char)
    requires
        free_of(a, c),
        free_of(b, c),
    ensures
        free_of(a + b, c),
{
    assert forall|j: int| 0 <= j < (a + b).len() implies (a + b)[j] != c by {
        if j >= a.len() {
            assert((a + b)[j] == b[j - a.len()]);
        } else {
            assert((a + b)[j] == a[j]);
        }
    }
}

/// The first `d:` of text that holds none before `d: ` is the one there.
proof fn lemma_first_desc_key(pre: Seq<char>, rest: Seq<char>)
    requires
        !contains(pre, desc_key()),
        rest.len() >= 2,
        rest[0] == 'd',
        rest[1] == ':',
    ensures
        find(pre + rest, desc_key()) == Some(pre.len()),
{
    let l = pre + rest;
    let q = pre.len() as int;
    assert(occurs_at(l, desc_key(), q)) by {
        assert(l.subrange(q, q + 2) =~= desc_key());
    }
    lemma_find_some(l, desc_key(), 0, q);
    lemma_find_first(l, desc_key(), 0);
    let q2 = find(l, desc_key()).unwrap() as int;
    if q2 < q {
        if q2 + 1 < q {
            assert(pre.subrange(q2, q2 + 2) =~= l.subrange(q2, q2 + 2));
            lemma_find_some(pre, desc_key(), 0, q2);
        } else {
            assert(l[q2 + 1] == 'd');
            assert(l.subrange(q2, q2 + 2)[1] == l[q2 + 1]);
        }
    }
}

/// The fields of a line in the documented form `d: D, p: P, t: T, s: S`.
proof fn lemma_documented_fields(
    pre: Seq<char>,
    d: Seq<char>,
    p: Seq<char>,
    t: Seq<char>,
    s: Seq<char>,
)
    requires
        !contains(pre, desc_key()),
        free_of(d, ','),
        free_of(p, ','),
        free_of(t, ','),
        free_of(s, ','),
    ensures
        ({
            let pieces = issue_pieces(
                pre + "d: "@ + d + ", p: "@ + p + ", t: "@ + t + ", s: "@ + s,
            );
            &&& field_value(pieces, seq!['d']) == Some(trim(d))
            &&& field_value(pieces, seq!['p']) == Some(trim(p))
            &&& field_value(pieces, seq!['t']) == Some(trim(t))
            &&& field_value(pieces, seq!['s']) == Some(trim(s))
        }),
{
    reveal_strlit("d: ");
    reveal_strlit(", p: ");
    reveal_strlit(", t: ");
    reveal_strlit(", s: ");
    let l = pre + "d: "@ + d + ", p: "@ + p + ", t: "@ + t + ", s: "@ + s;
    let p1 = seq!['d', ':', ' '] + d;
    let p2 = seq![' ', 'p', ':', ' '] + p;
    let p3 = seq![' ', 't', ':', ' '] + t;
    let p4 = seq![' ', 's', ':', ' '] + s;
    let c = seq![','];
    assert(l =~= pre + (p1 + c + p2 + c + p3 + c + p4));
    lemma_first_desc_key(pre, p1 + c + p2 + c + p3 + c + p4);
    let q = pre.len() as int;
    let a1 = p1 + c + p2;
    let a2 = a1 + c + p3;
    assert(l.skip(q) =~= a2 + c + p4);
    assert(free_of(seq!['d', ':', ' '], ','));
    assert(free_of(seq![' ', 'p', ':', ' '], ','));
    assert(free_of(seq![' ', 't', ':', ' '], ','));
    assert(free_of(seq![' ', 's', ':', ' '], ','));
    lemma_free_concat(seq!['d', ':', ' '], d, ',');
    lemma_free_concat(seq![' ', 'p', ':', ' '], p, ',');
    lemma_free_concat(seq![' ', 't', ':', ' '], t, ',');
    lemma_free_concat(seq![' ', 's', ':', ' '], s, ',');
    lemma_split_free(p1, ',');
    lemma_split_after_sep(p1, p2, ',');
    lemma_split_after_sep(a1, p3, ',');
    lemma_split_after_sep(a2, p4, ',');
    let pieces = issue_pieces(l);
    assert(pieces =~= seq![p1, p2, p3, p4]);
    assert(p1 =~= Seq::<char>::empty() + seq!['d', ':'] + (seq![' '] + d));
    assert(p2 =~= seq![' '] + seq!['p', ':'] + (seq![' '] + p));
    assert(p3 =~= seq![' '] + seq!['t', ':'] + (seq![' '] + t));
    assert(p4 =~= seq![' '] + seq!['s', ':'] + (seq![' '] + s));
    lemma_field_piece(Seq::<char>::empty(), 'd', seq![' '] + d);
    lemma_field_piece(seq![' '], 'p', seq![' '] + p);
    lemma_field_piece(seq![' '], 't', seq![' '] + t);
    lemma_field_piece(seq![' '], 's', seq![' '] + s);
    lemma_trim_start_skips_ws(seq![' '], d);
    lemma_trim_start_skips_ws(seq![' '], p);
    lemma_trim_start_skips_ws(seq![' '], t);
    lemma_trim_start_skips_ws(seq![' '], s);
    assert(seq!['d'] != seq!['s'] && seq!['d'] != seq!['t'] && seq!['d'] != seq!['p']) by {
        assert(seq!['d'][0] != seq!['s'][0] && seq!['d'][0] != seq!['t'][0] && seq!['d'][0]
            != seq!['p'][0]);
    }
    assert(seq!['p'] != seq!['s'] && seq!['p'] != seq!['t'] && seq!['t'] != seq!['s']) by {
        assert(seq!['p'][0] != seq!['s'][0] && seq!['p'][0] != seq!['t'][0] && seq!['t'][0]
            != seq!['s'][0]);
    }
    let ps3 = seq![p1, p2, p3];
    let ps2 = seq![p1, p2];
    let ps1 = seq![p1];
    assert(pieces.drop_last() =~= ps3);
    assert(ps3.drop_last() =~= ps2);
    assert(ps2.drop_last() =~= ps1);
    assert(ps1.drop_last() =~= Seq::<Seq<char>>::empty());
    assert(field_value(pieces, seq!['s']) == Some(trim(s)));
    assert(field_value(ps1, seq!['d']) == Some(trim(d)));
    assert(field_value(ps2, seq!['d']) == Some(trim(d)));
    assert(field_value(ps3, seq!['d']) == Some(trim(d)));
    assert(field_value(ps2, seq!['p']) == Some(trim(p)));
    assert(field_value(ps3, seq!['p']) == Some(trim(p)));
    assert(field_value(ps3, seq!['t']) == Some(trim(t)));
}

/// In a line of the documented form whose only `s:` before the status value is
/// the status key, the status field is a field of its own and the last one.
proof fn lemma_documented_status_key(
    pre: Seq<char>,
    d: Seq<char>,
    p: Seq<char>,
    t: Seq<char>,
    s: Seq<char>,
)
    requires
        contains(pre, marker()),
        !contains(pre, desc_key()),
        free_of(s, ','),
        !contains(pre + "d: "@ + d + ", p: "@ + p + ", t: "@ + t, status_key()),
    ensures
        status_field_placed(pre + "d: "@ + d + ", p: "@ + p + ", t: "@ + t + ", s: "@ + s),
        status_field_last(pre + "d: "@ + d + ", p: "@ + p + ", t: "@ + t + ", s: "@ + s),
{
    reveal_strlit("d: ");
    reveal_strlit(", s: ");
    let h = pre + "d: "@ + d + ", p: "@ + p + ", t: "@ + t;
    let l = h + ", s: "@ + s;
    let q = pre.len() as int;
    assert(h =~= pre + ("d: "@ + d + ", p: "@ + p + ", t: "@ + t));
    assert(l =~= pre + ("d: "@ + d + ", p: "@ + p + ", t: "@ + t + ", s: "@ + s));
    lemma_first_desc_key(pre, "d: "@ + d + ", p: "@ + p + ", t: "@ + t + ", s: "@ + s);
    let m = h.len() as int;
    let sp = m + 2;
    assert(l.take(m) =~= h);
    assert(l[m] == ',');
    assert(l[m + 1] == ' ');
    assert(occurs_at(l, status_key(), sp)) by {
        assert(l.subrange(sp, sp + 2) =~= status_key());
    }
    lemma_find_some(l, status_key(), 0, sp);
    lemma_find_first(l, status_key(), 0);
    let sp2 = find(l, status_key()).unwrap() as int;
    if sp2 < sp {
        if sp2 + 2 <= m {
            assert(h.subrange(sp2, sp2 + 2) =~= l.subrange(sp2, sp2 + 2));
            lemma_find_some(h, status_key(), 0, sp2);
        } else {
            assert(l.subrange(sp2, sp2 + 2)[0] == l[sp2]);
            assert(l.subrange(sp2, sp2 + 2)[1] == l[sp2 + 1]);
        }
    }
    assert(sp2 == sp);
    assert(l.skip(sp) =~= seq!['s', ':', ' '] + s);
    assert(free_of(seq!['s', ':', ' '], ','));
    lemma_free_concat(seq!['s', ':', ' '], s, ',');
    assert(status_field_last(l));
    assert(is_ws(l[m + 1]));
    assert forall|j: int| m < j < sp implies is_ws(#[trigger] l[j]) by {
        assert(j == m + 1);
    }
    assert(q + 2 <= m);
    lemma_find_first(pre, marker(), 0);
    let k = find(pre, marker()).unwrap() as int;
    assert(l.take(sp).subrange(k, k + marker().len()) =~= pre.subrange(k, k + marker().len()));
    lemma_find_some(l.take(sp), marker(), 0, k);
}

/// A line in the documented form `... *brakoll - d: D, p: P, t: T, s: S`, whose
/// fields hold no commas and whose only `s:` before `S` is the status key,
/// states description `D`, priority `P`, tag `T` and status `S` (each trimmed,
/// with the defaults where `P` or `S` says nothing); after a status change the
/// line states the same issue with the new status.
pub proof fn lemma_documented_line_status_change(
    content: Seq<char>,
    n: int,
    pre: Seq<char>,
    d: Seq<char>,
    p: Seq<char>,
    t: Seq<char>,
    s: Seq<char>,
    old_status: IssueStatus,
    new_status: IssueStatus,
    file: Seq<char>,
    id: u32,
)
    requires
        1 <= n <= lines(content).len(),
        lines(content)[n - 1] == pre + "d: "@ + d + ", p: "@ + p + ", t: "@ + t + ", s: "@ + s,
        contains(pre, marker()),
        !contains(pre, desc_key()),
        free_of(d, ','),
        free_of(p, ','),
        free_of(t, ','),
        free_of(s, ','),
        !contains(pre + "d: "@ + d + ", p: "@ + p + ", t: "@ + t, status_key()),
    ensures
        parse_issue(file, n, lines(content)[n - 1], id) == (IssueModel {
            file: file,
            line: n,
            desc: trim(d),
            prio: match parse_u32(trim(p)) {
                Some(v) => v,
                None => 0,
            },
            tag: trim(t),
            status: match status_named(trim(s)) {
                Some(x) => x,
                None => IssueStatus::Open,
            },
            id: id,
        }),
        rewritten_text(content, n, old_status, new_status) matches Ok(u) && n <= lines(u).len()
            && parse_issue(file, n, lines(u)[n - 1], id) == (IssueModel {
            status: new_status,
            ..parse_issue(file, n, lines(content)[n - 1], id)
        }),
{
    lemma_documented_fields(pre, d, p, t, s);
    lemma_documented_status_key(pre, d, p, t, s);
    lemma_status_change_reads_back(content, n, old_status, new_status, file, id);
}

/// The first `s:` of the line starts its last field: no comma follows it.
pub open spec fn status_field_last(l: Seq<char>) -> bool {
    match find(l, status_key()) {
        Some(p) => free_of(l.skip(p as int), ','),
        None => false,
    }
}

} // verus!
