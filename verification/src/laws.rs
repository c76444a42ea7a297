//! Properties of the tracker as a whole, each proved over the specifications
//! that the operations' contracts use.
use vstd::prelude::*;
use crate::brakoll::{kept, passes_filters};
use crate::summary::{
    is_status_tally, is_tag_tally, keys_distinct, listed, status_count, tag_count,
};
use crate::issue::{
    IssueModel, desc_key, file_entries, is_issue_line, issue_pieces, issues_from, numbered_issue_lines,
    parse_issue, raw_issues,
};
use crate::listing::{key_le, key_of, sorted_for_listing, stable_sorted, with_key};
use crate::status::{IssueStatus, label_of, status_named};
use crate::text::{
    contains, decimal, digit_char, digit_value, digits_value, find, free_of, is_digit,
    lemma_find_first, lemma_find_none, lemma_find_some, lines, lower_all, occurs_at, parse_u32,
    unsigned_part,
};

verus! {

/// Issues read from files get distinct ids: the `j`-th issue read has id `j + 2`.
pub proof fn lemma_ids_distinct(es: Seq<(Seq<char>, int, Seq<char>)>, a: int, b: int)
    requires
        es.len() < u32::MAX,
        0 <= a < es.len(),
        0 <= b < es.len(),
        a != b,
    ensures
        issues_from(es)[a].id != issues_from(es)[b].id,
        issues_from(es)[a].id == a + 2,
{
}

/// The name under which a status is shown reads back as that status.
pub proof fn lemma_label_names_status(st: IssueStatus)
    ensures
        status_named(label_of(st)) == Some(st),
{
    reveal_strlit("open");
    reveal_strlit("in progress");
    reveal_strlit("closed");
    let l = lower_all(label_of(st));
    match st {
        IssueStatus::Open => {
            assert(l =~= seq!['o', 'p', 'e', 'n']);
            assert(l.subrange(0, 2) =~= seq!['o', 'p']);
            lemma_find_some(l, seq!['o', 'p'], 0, 0);
        },
        IssueStatus::InProgress => {
            assert(l =~= seq!['i', 'n', ' ', 'p', 'r', 'o', 'g', 'r', 'e', 's', 's']);
            lemma_absent(l, 'o', 'p');
            lemma_absent(l, 'e', 'n');
            assert(l.subrange(3, 5) =~= seq!['p', 'r']);
            lemma_find_some(l, seq!['p', 'r'], 0, 3);
        },
        IssueStatus::Closed => {
            assert(l =~= seq!['c', 'l', 'o', 's', 'e', 'd']);
            lemma_absent(l, 'o', 'p');
            lemma_absent(l, 'e', 'n');
            lemma_absent(l, 'p', 'r');
            lemma_absent(l, 'o', 'g');
            assert(l.subrange(0, 2) =~= seq!['c', 'l']);
            lemma_find_some(l, seq!['c', 'l'], 0, 0);
        },
    }
}

/// A two-letter text that appears at no position of `l` is not contained in it.
proof fn lemma_absent(l: Seq<char>, a: char, b: char)
    requires
        forall|j: int| 0 <= j < l.len() - 1 ==> !(#[trigger] l[j] == a && l[j + 1] == b),
    ensures
        !contains(l, seq![a, b]),
{
    assert forall|j: int| 0 <= j implies !occurs_at(l, seq![a, b], j) by {
        if occurs_at(l, seq![a, b], j) {
            assert(l.subrange(j, j + 2)[0] == a);
            assert(l.subrange(j, j + 2)[1] == b);
        }
    }
    lemma_find_none(l, seq![a, b], 0);
}

/// An issue of `s` with key `k` makes the selection by `k` non-empty, and a
/// non-empty selection comes from some issue with that key.
proof fn lemma_with_key_members(s: Seq<IssueModel>, k: (u8, u32))
    ensures
        with_key(s, k).len() > 0 <==> exists|j: int| 0 <= j < s.len() && key_of(s[j]) == k,
    decreases s.len(),
{
    if s.len() > 0 {
        lemma_with_key_members(s.drop_last(), k);
        if exists|j: int| 0 <= j < s.len() && key_of(s[j]) == k {
            let j = choose|j: int| 0 <= j < s.len() && key_of(s[j]) == k;
            if j < s.len() - 1 {
                assert(s.drop_last()[j] == s[j]);
            }
        }
        if exists|j: int| 0 <= j < s.len() - 1 && key_of(s.drop_last()[j]) == k {
            let j = choose|j: int| 0 <= j < s.len() - 1 && key_of(s.drop_last()[j]) == k;
            assert(s[j] == s.drop_last()[j]);
        }
    }
}

/// Two sequences in listing order that agree, key by key, on which issues they
/// hold and in what order, are the same sequence.
pub proof fn lemma_listing_order_unique(t1: Seq<IssueModel>, t2: Seq<IssueModel>)
    requires
        sorted_for_listing(t1),
        sorted_for_listing(t2),
        forall|k: (u8, u32)| #[trigger] with_key(t1, k) == with_key(t2, k),
    ensures
        t1 == t2,
    decreases t1.len() + t2.len(),
{
    if t1.len() == 0 && t2.len() == 0 {
        assert(t1 =~= t2);
    } else if t1.len() == 0 {
        let k = key_of(t2.last());
        assert(with_key(t2, k).len() > 0);
        assert(with_key(t1, k).len() == 0);
    } else if t2.len() == 0 {
        let k = key_of(t1.last());
        assert(with_key(t1, k).len() > 0);
        assert(with_key(t2, k).len() == 0);
    } else {
        let k1 = key_of(t1.last());
        let k2 = key_of(t2.last());
        assert(with_key(t1, k1).len() > 0);
        assert(with_key(t2, k2).len() > 0);
        lemma_with_key_members(t2, k1);
        lemma_with_key_members(t1, k2);
        let j2 = choose|j: int| 0 <= j < t2.len() && key_of(t2[j]) == k1;
        let j1 = choose|j: int| 0 <= j < t1.len() && key_of(t1[j]) == k2;
        if j2 < t2.len() - 1 {
            assert(key_le(key_of(t2[j2]), key_of(t2[t2.len() - 1])));
        }
        if j1 < t1.len() - 1 {
            assert(key_le(key_of(t1[j1]), key_of(t1[t1.len() - 1])));
        }
        assert(k1 == k2);
        assert(t1.last() == with_key(t1, k1).last());
        assert(t2.last() == with_key(t2, k1).last());
        let u1 = t1.drop_last();
        let u2 = t2.drop_last();
        assert forall|k: (u8, u32)| #[trigger] with_key(u1, k) == with_key(u2, k) by {
            assert(with_key(t1, k) == with_key(t2, k));
            if k == k1 {
                assert(with_key(u1, k) =~= with_key(t1, k).drop_last());
                assert(with_key(u2, k) =~= with_key(t2, k).drop_last());
            }
        }
        assert forall|i: int, j: int| 0 <= i < j < u1.len() implies key_le(
            key_of(u1[i]),
            key_of(u1[j]),
        ) by {
            assert(u1[i] == t1[i] && u1[j] == t1[j]);
        }
        assert forall|i: int, j: int| 0 <= i < j < u2.len() implies key_le(
            key_of(u2[i]),
            key_of(u2[j]),
        ) by {
            assert(u2[i] == t2[i] && u2[j] == t2[j]);
        }
        lemma_listing_order_unique(u1, u2);
        assert(t1 =~= u1.push(t1.last()));
        assert(t2 =~= u2.push(t2.last()));
    }
}

/// Sorting for the listing has one outcome: any two stable sorts of the same
/// issues are equal.
pub proof fn lemma_listing_sort_unique(s: Seq<IssueModel>, t1: Seq<IssueModel>, t2: Seq<IssueModel>)
    requires
        stable_sorted(s, t1),
        stable_sorted(s, t2),
    ensures
        t1 == t2,
{
    assert forall|k: (u8, u32)| #[trigger] with_key(t1, k) == with_key(t2, k) by {
        assert(with_key(t1, k) == with_key(s, k));
        assert(with_key(t2, k) == with_key(s, k));
    }
    lemma_listing_order_unique(t1, t2);
}

/// Sorting issues that are already in listing order leaves them as they are.
pub proof fn lemma_listing_sort_keeps_sorted(s: Seq<IssueModel>, t: Seq<IssueModel>)
    requires
        sorted_for_listing(s),
        stable_sorted(s, t),
    ensures
        t == s,
{
    lemma_listing_order_unique(t, s);
}

/// Filtering twice with the same filters keeps what filtering once keeps.
pub proof fn lemma_filter_idempotent(
    s: Seq<IssueModel>,
    desc: Seq<char>,
    tag: Seq<char>,
    status: Option<IssueStatus>,
)
    ensures
        kept(kept(s, desc, tag, status), desc, tag, status) == kept(s, desc, tag, status),
        forall|j: int|
            0 <= j < kept(s, desc, tag, status).len() ==> passes_filters(
                desc,
                tag,
                status,
                #[trigger] kept(s, desc, tag, status)[j],
            ),
    decreases s.len(),
{
    if s.len() > 0 {
        lemma_filter_idempotent(s.drop_last(), desc, tag, status);
        let r = kept(s.drop_last(), desc, tag, status);
        if passes_filters(desc, tag, status, s.last()) {
            assert(r.push(s.last()).drop_last() =~= r);
        }
    }
}

/// How many times `k` occurs in `ks`.
pub open spec fn occurrences<K>(ks: Seq<K>, k: K) -> nat
    decreases ks.len(),
{
    if ks.len() == 0 {
        0
    } else {
        occurrences(ks.drop_last(), k) + if ks.last() == k { 1nat } else { 0nat }
    }
}

/// The sum of the counts of a tally.
pub open spec fn tally_total<K>(r: Seq<(K, nat)>) -> nat
    decreases r.len(),
{
    if r.len() == 0 {
        0
    } else {
        tally_total(r.drop_last()) + r.last().1
    }
}

/// The sum, over the keys of `r`, of their occurrences in `ks`.
spec fn occurrence_sum<K>(ks: Seq<K>, r: Seq<(K, nat)>) -> nat
    decreases r.len(),
{
    if r.len() == 0 {
        0
    } else {
        occurrence_sum(ks, r.drop_last()) + occurrences(ks, r.last().0)
    }
}

/// How many entries of `r` have key `k`.
spec fn hits<K>(r: Seq<(K, nat)>, k: K) -> nat
    decreases r.len(),
{
    if r.len() == 0 {
        0
    } else {
        hits(r.drop_last(), k) + if r.last().0 == k { 1nat } else { 0nat }
    }
}

proof fn lemma_hits_one<K>(r: Seq<(K, nat)>, k: K)
    requires
        keys_distinct(r),
    ensures
        listed(r, k) ==> hits(r, k) == 1,
        !listed(r, k) ==> hits(r, k) == 0,
    decreases r.len(),
{
    if r.len() > 0 {
        let d = r.drop_last();
        assert forall|i: int, j: int|
            0 <= i < d.len() && 0 <= j < d.len() && i != j implies d[i].0 != d[j].0 by {
            assert(d[i] == r[i] && d[j] == r[j]);
        }
        lemma_hits_one(d, k);
        if listed(d, k) {
            let j = choose|j: int| 0 <= j < d.len() && d[j].0 == k;
            assert(r[j] == d[j]);
            assert(r.last().0 != k);
        }
        if listed(r, k) && r.last().0 != k {
            let j = choose|j: int| 0 <= j < r.len() && r[j].0 == k;
            assert(d[j] == r[j]);
        }
        if !listed(r, k) {
            if listed(d, k) {
                let j = choose|j: int| 0 <= j < d.len() && d[j].0 == k;
                assert(r[j] == d[j]);
            }
            assert(r[r.len() - 1].0 != k);
        }
    }
}

proof fn lemma_occurrence_sum_step<K>(ks: Seq<K>, r: Seq<(K, nat)>)
    requires
        ks.len() > 0,
    ensures
        occurrence_sum(ks, r) == occurrence_sum(ks.drop_last(), r) + hits(r, ks.last()),
    decreases r.len(),
{
    if r.len() > 0 {
        lemma_occurrence_sum_step(ks, r.drop_last());
    }
}

proof fn lemma_occurrence_sum_empty<K>(ks: Seq<K>, r: Seq<(K, nat)>)
    requires
        ks.len() == 0,
    ensures
        occurrence_sum(ks, r) == 0,
    decreases r.len(),
{
    if r.len() > 0 {
        lemma_occurrence_sum_empty(ks, r.drop_last());
    }
}

proof fn lemma_occurrence_sum_total<K>(ks: Seq<K>, r: Seq<(K, nat)>)
    requires
        keys_distinct(r),
        forall|i: int| 0 <= i < ks.len() ==> listed(r, #[trigger] ks[i]),
    ensures
        occurrence_sum(ks, r) == ks.len(),
    decreases ks.len(),
{
    if ks.len() == 0 {
        lemma_occurrence_sum_empty(ks, r);
    } else {
        let d = ks.drop_last();
        assert forall|i: int| 0 <= i < d.len() implies listed(r, #[trigger] d[i]) by {
            assert(d[i] == ks[i]);
        }
        lemma_occurrence_sum_total(d, r);
        lemma_occurrence_sum_step(ks, r);
        assert(listed(r, ks[ks.len() - 1]));
        lemma_hits_one(r, ks.last());
    }
}

proof fn lemma_tally_total_is_sum<K>(ks: Seq<K>, r: Seq<(K, nat)>)
    requires
        forall|j: int| 0 <= j < r.len() ==> #[trigger] r[j].1 == occurrences(ks, r[j].0),
    ensures
        tally_total(r) == occurrence_sum(ks, r),
    decreases r.len(),
{
    if r.len() > 0 {
        let d = r.drop_last();
        assert forall|j: int| 0 <= j < d.len() implies #[trigger] d[j].1 == occurrences(ks, d[j].0) by {
            assert(d[j] == r[j]);
        }
        lemma_tally_total_is_sum(ks, d);
        assert(r[r.len() - 1].1 == occurrences(ks, r[r.len() - 1].0));
    }
}

/// A tally with distinct keys that covers every key of `ks` and counts each
/// key's occurrences has counts that add up to the length of `ks`.
pub proof fn lemma_tally_adds_up<K>(ks: Seq<K>, r: Seq<(K, nat)>)
    requires
        keys_distinct(r),
        forall|i: int| 0 <= i < ks.len() ==> listed(r, #[trigger] ks[i]),
        forall|j: int| 0 <= j < r.len() ==> #[trigger] r[j].1 == occurrences(ks, r[j].0),
    ensures
        tally_total(r) == ks.len(),
{
    lemma_tally_total_is_sum(ks, r);
    lemma_occurrence_sum_total(ks, r);
}

proof fn lemma_tag_count_occurrences(s: Seq<IssueModel>, t: Seq<char>)
    ensures
        tag_count(s, t) == occurrences(s.map_values(|i: IssueModel| i.tag), t),
    decreases s.len(),
{
    if s.len() > 0 {
        lemma_tag_count_occurrences(s.drop_last(), t);
        assert(s.map_values(|i: IssueModel| i.tag).drop_last() =~= s.drop_last().map_values(
            |i: IssueModel| i.tag,
        ));
    }
}

proof fn lemma_status_count_occurrences(s: Seq<IssueModel>, st: IssueStatus)
    ensures
        status_count(s, st) == occurrences(s.map_values(|i: IssueModel| i.status), st),
    decreases s.len(),
{
    if s.len() > 0 {
        lemma_status_count_occurrences(s.drop_last(), st);
        assert(s.map_values(|i: IssueModel| i.status).drop_last() =~= s.drop_last().map_values(
            |i: IssueModel| i.status,
        ));
    }
}

/// The tag counts of the summary add up to the number of issues.
pub proof fn lemma_tag_tally_total(s: Seq<IssueModel>, r: Seq<(Seq<char>, nat)>)
    requires
        is_tag_tally(s, r),
    ensures
        tally_total(r) == s.len(),
{
    let ks = s.map_values(|i: IssueModel| i.tag);
    assert forall|i: int| 0 <= i < ks.len() implies listed(r, #[trigger] ks[i]) by {
        assert(ks[i] == s[i].tag);
    }
    assert forall|j: int| 0 <= j < r.len() implies #[trigger] r[j].1 == occurrences(ks, r[j].0) by {
        lemma_tag_count_occurrences(s, r[j].0);
    }
    lemma_tally_adds_up(ks, r);
}

/// The status counts of the summary add up to the number of issues.
pub proof fn lemma_status_tally_total(s: Seq<IssueModel>, r: Seq<(IssueStatus, nat)>)
    requires
        is_status_tally(s, r),
    ensures
        tally_total(r) == s.len(),
{
    let ks = s.map_values(|i: IssueModel| i.status);
    assert forall|i: int| 0 <= i < ks.len() implies listed(r, #[trigger] ks[i]) by {
        assert(ks[i] == s[i].status);
    }
    assert forall|j: int| 0 <= j < r.len() implies #[trigger] r[j].1 == occurrences(ks, r[j].0) by {
        lemma_status_count_occurrences(s, r[j].0);
    }
    lemma_tally_adds_up(ks, r);
}

pub(crate) proof fn lemma_decimal_digits(n: nat)
    ensures
        decimal(n).len() > 0,
        forall|i: int| 0 <= i < decimal(n).len() ==> is_digit(#[trigger] decimal(n)[i]),
        digits_value(decimal(n)) == n,
    decreases n,
{
    if n < 10 {
        assert(digit_value(digit_char(n)) == n);
        assert(decimal(n).drop_last() =~= Seq::<char>::empty());
        assert(digits_value(Seq::<char>::empty()) == 0);
        assert(digits_value(decimal(n)) == digits_value(decimal(n).drop_last()) * 10 + digit_value(
            decimal(n).last(),
        ));
        assert(digits_value(decimal(n)) == n);
    } else {
        lemma_decimal_digits(n / 10);
        let d = decimal(n);
        assert(d.drop_last() =~= decimal(n / 10));
        assert(digit_value(digit_char(n % 10)) == n % 10);
        assert((n / 10) * 10 + n % 10 == n) by (nonlinear_arith);
        assert(d.last() == digit_char(n % 10));
        assert(digits_value(d) == digits_value(decimal(n / 10)) * 10 + digit_value(d.last()));
        assert(digits_value(d) == n);
        assert forall|i: int| 0 <= i < d.len() implies is_digit(#[trigger] d[i]) by {
            if i < d.len() - 1 {
                assert(d[i] == decimal(n / 10)[i]);
            }
        }
    }
}

/// A priority written in decimal, as the listing shows it, reads back as the
/// same priority.
pub proof fn lemma_priority_text_round_trip(p: u32)
    ensures
        parse_u32(decimal(p as nat)) == Some(p),
{
    lemma_decimal_digits(p as nat);
    let d = decimal(p as nat);
    assert(is_digit(d[0]));
    assert(unsigned_part(d) == d);
}

/// Every line that the issue search reports is the line of the text at that
/// number (counted from 1), and states an issue; the numbers increase.
pub proof fn lemma_issue_lines_sound(content: Seq<char>)
    ensures
        forall|e: int|
            0 <= e < raw_issues(content).len() ==> {
                let (n, l) = #[trigger] raw_issues(content)[e];
                &&& 1 <= n <= lines(content).len()
                &&& lines(content)[n - 1] == l
                &&& is_issue_line(l)
            },
        forall|a: int, b: int|
            0 <= a < b < raw_issues(content).len() ==> raw_issues(content)[a].0 < raw_issues(
                content,
            )[b].0,
{
    lemma_numbered_sound(lines(content));
}

proof fn lemma_numbered_sound(ls: Seq<Seq<char>>)
    ensures
        forall|e: int|
            0 <= e < numbered_issue_lines(ls).len() ==> {
                let (n, l) = #[trigger] numbered_issue_lines(ls)[e];
                &&& 1 <= n <= ls.len()
                &&& ls[n - 1] == l
                &&& is_issue_line(l)
            },
        forall|a: int, b: int|
            0 <= a < b < numbered_issue_lines(ls).len() ==> numbered_issue_lines(ls)[a].0
                < numbered_issue_lines(ls)[b].0,
    decreases ls.len(),
{
    if ls.len() > 0 {
        let d = ls.drop_last();
        lemma_numbered_sound(d);
        let r = numbered_issue_lines(d);
        assert forall|e: int| 0 <= e < r.len() implies #[trigger] r[e].0 <= d.len() && ls[r[e].0
            - 1] == r[e].1 by {
            assert(d[r[e].0 - 1] == ls[r[e].0 - 1]);
        }
    }
}

/// Two lines that agree from their first `d:` on state the same issue, whatever
/// text comes before.
pub proof fn lemma_text_before_fields_ignored(
    l1: Seq<char>,
    l2: Seq<char>,
    file: Seq<char>,
    line: int,
    id: u32,
)
    requires
        same_from_fields(l1, l2),
    ensures
        parse_issue(file, line, l1, id) == parse_issue(file, line, l2, id),
{
    assert(issue_pieces(l1) == issue_pieces(l2));
}

/// Both lines hold `d:` and agree from their first `d:` on.
pub open spec fn same_from_fields(l1: Seq<char>, l2: Seq<char>) -> bool {
    match (find(l1, desc_key()), find(l2, desc_key())) {
        (Some(a), Some(b)) => l1.skip(a as int) == l2.skip(b as int),
        _ => false,
    }
}

/// Putting text before an issue line changes nothing of what it states, as long
/// as no `d:` starts in that text (such as `//`, `#`, `--` or `// todo`).
pub proof fn lemma_leading_text_ignored(
    pre: Seq<char>,
    raw: Seq<char>,
    file: Seq<char>,
    line: int,
    id: u32,
)
    requires
        contains(raw, desc_key()),
        !contains(pre + raw.take(1), desc_key()),
    ensures
        same_from_fields(pre + raw, raw),
        parse_issue(file, line, pre + raw, id) == parse_issue(file, line, raw, id),
{
    let s = pre + raw;
    lemma_find_first(raw, desc_key(), 0);
    let q = find(raw, desc_key()).unwrap() as int;
    let k = pre.len() + q;
    assert(s.subrange(k, k + 2) =~= raw.subrange(q, q + 2));
    lemma_find_some(s, desc_key(), 0, k);
    lemma_find_first(s, desc_key(), 0);
    let k2 = find(s, desc_key()).unwrap() as int;
    if k2 < k {
        if k2 < pre.len() {
            let h = pre + raw.take(1);
            assert(h.subrange(k2, k2 + 2) =~= s.subrange(k2, k2 + 2));
            lemma_find_some(h, desc_key(), 0, k2);
        } else {
            assert(s.subrange(k2, k2 + 2) =~= raw.subrange(k2 - pre.len(), k2 - pre.len() + 2));
            assert(!occurs_at(raw, desc_key(), k2 - pre.len()));
        }
    }
    assert(k2 == k);
    assert(s.skip(k) =~= raw.skip(q));
    lemma_text_before_fields_ignored(s, raw, file, line, id);
}

/// Two lists of lines that are equal line by line, except for issue lines that
/// agree from their first `d:` on.
pub open spec fn same_but_leading_text(ls1: Seq<Seq<char>>, ls2: Seq<Seq<char>>) -> bool {
    &&& ls1.len() == ls2.len()
    &&& forall|i: int|
        0 <= i < ls1.len() ==> #[trigger] ls1[i] == ls2[i] || (is_issue_line(ls1[i])
            && is_issue_line(ls2[i]) && same_from_fields(ls1[i], ls2[i]))
}

proof fn lemma_numbered_same_but_leading(ls1: Seq<Seq<char>>, ls2: Seq<Seq<char>>)
    requires
        same_but_leading_text(ls1, ls2),
    ensures
        numbered_issue_lines(ls1).len() == numbered_issue_lines(ls2).len(),
        forall|j: int|
            0 <= j < numbered_issue_lines(ls1).len() ==> #[trigger] numbered_issue_lines(ls1)[j].0
                == numbered_issue_lines(ls2)[j].0 && (numbered_issue_lines(ls1)[j].1
                == numbered_issue_lines(ls2)[j].1 || same_from_fields(
                numbered_issue_lines(ls1)[j].1,
                numbered_issue_lines(ls2)[j].1,
            )),
    decreases ls1.len(),
{
    if ls1.len() > 0 {
        let d1 = ls1.drop_last();
        let d2 = ls2.drop_last();
        assert forall|i: int| 0 <= i < d1.len() implies #[trigger] d1[i] == d2[i] || (is_issue_line(
            d1[i],
        ) && is_issue_line(d2[i]) && same_from_fields(d1[i], d2[i])) by {
            assert(d1[i] == ls1[i] && d2[i] == ls2[i]);
        }
        lemma_numbered_same_but_leading(d1, d2);
        let k = ls1.len() - 1;
        assert(ls1[k] == ls2[k] || (is_issue_line(ls1[k]) && is_issue_line(ls2[k])
            && same_from_fields(ls1[k], ls2[k])));
    }
}

/// A file whose lines differ from another's only in the text before the fields
/// of some issue lines yields the same issues, apart from the file they name.
pub proof fn lemma_files_differing_before_fields(
    f1: Seq<char>,
    c1: Seq<char>,
    f2: Seq<char>,
    c2: Seq<char>,
)
    requires
        same_but_leading_text(lines(c1), lines(c2)),
    ensures
        issues_from(file_entries(seq![(f1, c1)])).len() == issues_from(
            file_entries(seq![(f2, c2)]),
        ).len(),
        forall|j: int|
            0 <= j < issues_from(file_entries(seq![(f1, c1)])).len() ==> #[trigger] issues_from(
                file_entries(seq![(f1, c1)]),
            )[j] == (IssueModel { file: f1, ..issues_from(file_entries(seq![(f2, c2)]))[j] }),
{
    lemma_numbered_same_but_leading(lines(c1), lines(c2));
    let r1 = raw_issues(c1);
    let r2 = raw_issues(c2);
    let e1 = file_entries(seq![(f1, c1)]);
    let e2 = file_entries(seq![(f2, c2)]);
    assert(seq![(f1, c1)].drop_last() =~= Seq::<(Seq<char>, Seq<char>)>::empty());
    assert(seq![(f2, c2)].drop_last() =~= Seq::<(Seq<char>, Seq<char>)>::empty());
    assert(file_entries(Seq::<(Seq<char>, Seq<char>)>::empty()) =~= Seq::empty());
    assert(seq![(f1, c1)].last() == (f1, c1));
    assert(seq![(f2, c2)].last() == (f2, c2));
    assert(e1 =~= r1.map_values(|r: (int, Seq<char>)| (f1, r.0, r.1)));
    assert(e2 =~= r2.map_values(|r: (int, Seq<char>)| (f2, r.0, r.1)));
    assert forall|j: int| 0 <= j < issues_from(e1).len() implies #[trigger] issues_from(e1)[j] == (
    IssueModel { file: f1, ..issues_from(e2)[j] }) by {
        assert(r1[j].0 == r2[j].0);
        if r1[j].1 != r2[j].1 {
            lemma_text_before_fields_ignored(r1[j].1, r2[j].1, f1, r1[j].0, (j + 2) as u32);
        }
    }
}

} // verus!
