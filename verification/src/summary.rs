//! Counting issues by tag and by status, most frequent first.
use vstd::prelude::*;
use crate::issue::{Issue, IssueModel, issues_view};
use crate::status::IssueStatus;
use crate::text::{chars_eq, chars_of, string_of};

verus! {

broadcast use {vstd::seq_lib::group_to_multiset_ensures, vstd::multiset::group_multiset_axioms};

/// The number of issues with tag `t`.
pub open spec fn tag_count(s: Seq<IssueModel>, t: Seq<char>) -> nat
    decreases s.len(),
{
    if s.len() == 0 {
        0
    } else {
        tag_count(s.drop_last(), t) + if s.last().tag == t { 1nat } else { 0nat }
    }
}

/// The number of issues with status `st`.
pub open spec fn status_count(s: Seq<IssueModel>, st: IssueStatus) -> nat
    decreases s.len(),
{
    if s.len() == 0 {
        0
    } else {
        status_count(s.drop_last(), st) + if s.last().status == st { 1nat } else { 0nat }
    }
}

/// The counts are in non-increasing order.
pub open spec fn by_count_desc<K>(r: Seq<(K, nat)>) -> bool {
    forall|i: int, j: int| 0 <= i < j < r.len() ==> r[i].1 >= r[j].1
}

/// No key occurs twice.
pub open spec fn keys_distinct<K>(r: Seq<(K, nat)>) -> bool {
    forall|i: int, j: int| 0 <= i < r.len() && 0 <= j < r.len() && i != j ==> r[i].0 != r[j].0
}

/// `r` is the tally of the tags of `s`: one entry per tag that occurs, holding how
/// many issues carry it, the most frequent first.
pub open spec fn is_tag_tally(s: Seq<IssueModel>, r: Seq<(Seq<char>, nat)>) -> bool {
    &&& keys_distinct(r)
    &&& by_count_desc(r)
    &&& forall|j: int| 0 <= j < r.len() ==> r[j].1 == tag_count(s, r[j].0) && r[j].1 > 0
    &&& forall|k: int| 0 <= k < s.len() ==> listed(r, #[trigger] s[k].tag)
}

/// Key `key` has an entry in `r`.
pub open spec fn listed<K>(r: Seq<(K, nat)>, key: K) -> bool {
    exists|j: int| 0 <= j < r.len() && r[j].0 == key
}

/// `r` is the tally of the statuses of `s`: one entry per status that occurs,
/// holding how many issues have it, the most frequent first.
pub open spec fn is_status_tally(s: Seq<IssueModel>, r: Seq<(IssueStatus, nat)>) -> bool {
    &&& keys_distinct(r)
    &&& by_count_desc(r)
    &&& forall|j: int| 0 <= j < r.len() ==> r[j].1 == status_count(s, r[j].0) && r[j].1 > 0
    &&& forall|k: int| 0 <= k < s.len() ==> listed(r, #[trigger] s[k].status)
}

/// The view of a tag tally.
pub open spec fn tag_tally_view(r: Seq<(String, usize)>) -> Seq<(Seq<char>, nat)> {
    r.map_values(|e: (String, usize)| (e.0@, e.1 as nat))
}

/// The view of a status tally.
pub open spec fn status_tally_view(r: Seq<(IssueStatus, usize)>) -> Seq<(IssueStatus, nat)> {
    r.map_values(|e: (IssueStatus, usize)| (e.0, e.1 as nat))
}

proof fn lemma_tag_count_positive(s: Seq<IssueModel>, t: Seq<char>)
    requires
        tag_count(s, t) > 0,
    ensures
        exists|k: int| 0 <= k < s.len() && s[k].tag == t,
    decreases s.len(),
{
    if s.last().tag != t {
        lemma_tag_count_positive(s.drop_last(), t);
        let k = choose|k: int| 0 <= k < s.len() - 1 && s.drop_last()[k].tag == t;
        assert(s[k] == s.drop_last()[k]);
    }
}

proof fn lemma_status_count_positive(s: Seq<IssueModel>, st: IssueStatus)
    requires
        status_count(s, st) > 0,
    ensures
        exists|k: int| 0 <= k < s.len() && s[k].status == st,
    decreases s.len(),
{
    if s.last().status != st {
        lemma_status_count_positive(s.drop_last(), st);
        let k = choose|k: int| 0 <= k < s.len() - 1 && s.drop_last()[k].status == st;
        assert(s[k] == s.drop_last()[k]);
    }
}

/// Sorts entries by count, largest first.
fn sort_by_count_desc<K>(v: Vec<(K, usize)>) -> (r: Vec<(K, usize)>)
    ensures
        r@.to_multiset() == v@.to_multiset(),
        forall|i: int, j: int| 0 <= i < j < r@.len() ==> r@[i].1 >= r@[j].1,
{
    let ghost src = v@;
    let mut out: Vec<(K, usize)> = Vec::new();
    let mut idx: usize = 0;
    let n = v.len();
    assert(src.take(0) =~= Seq::<(K, usize)>::empty());
    for e in it: v.into_iter()
        invariant
            idx == it.index(),
            n == src.len(),
            src == it.seq(),
            out@.to_multiset() == src.take(idx as int).to_multiset(),
            forall|i: int, j: int| 0 <= i < j < out@.len() ==> out@[i].1 >= out@[j].1,
    {
        assert(idx < n);
        assert(e == src[idx as int]);
        let ghost ov = out@;
        let mut p = out.len();
        while p > 0 && out[p - 1].1 < e.1
            invariant
                p <= out@.len(),
                ov == out@,
                forall|j: int| p <= j < ov.len() ==> #[trigger] ov[j].1 < e.1,
            decreases p,
        {
            p -= 1;
        }
        out.insert(p, e);
        proof {
            assert(src.take(idx + 1) =~= src.take(idx as int).push(e));
            let nv = out@;
            assert(nv == ov.insert(p as int, e));
            assert forall|i: int, j: int| 0 <= i < j < nv.len() implies nv[i].1 >= nv[j].1 by {
                if j < p {
                } else if j == p {
                    if i < p - 1 {
                        assert(ov[i].1 >= ov[p - 1].1);
                    }
                } else if i < p {
                    assert(nv[j] == ov[j - 1]);
                } else if i == p {
                    assert(nv[j] == ov[j - 1]);
                } else {
                    assert(nv[i] == ov[i - 1]);
                    assert(nv[j] == ov[j - 1]);
                }
            }
        }
        idx += 1;
    }
    assert(src.take(idx as int) =~= src);
    out
}

/// Entries with distinct keys stay so when they are rearranged.
proof fn lemma_rearranged_keys_distinct<K>(a: Seq<(K, usize)>, b: Seq<(K, usize)>)
    requires
        a.to_multiset() == b.to_multiset(),
        forall|i: int, j: int| 0 <= i < a.len() && 0 <= j < a.len() && i != j ==> a[i].0 != a[j].0,
    ensures
        forall|i: int, j: int| 0 <= i < b.len() && 0 <= j < b.len() && i != j ==> b[i].0 != b[j].0,
        b.no_duplicates(),
{
    assert(a.no_duplicates());
    a.lemma_multiset_has_no_duplicates();
    b.lemma_multiset_has_no_duplicates_conv();
    assert forall|i: int, j: int| 0 <= i < b.len() && 0 <= j < b.len() && i != j implies b[i].0
        != b[j].0 by {
        if b[i].0 == b[j].0 {
            assert(b.to_multiset().count(b[i]) > 0);
            assert(b.to_multiset().count(b[j]) > 0);
            assert(a.contains(b[i]));
            assert(a.contains(b[j]));
            let x = choose|x: int| 0 <= x < a.len() && a[x] == b[i];
            let y = choose|y: int| 0 <= y < a.len() && a[y] == b[j];
            assert(x == y);
        }
    }
}

/// Some key of `keys` has view `t`.
spec fn key_in(keys: Seq<Vec<char>>, t: Seq<char>) -> bool {
    exists|j: int| 0 <= j < keys.len() && keys[j]@ == t
}

/// The tally of the tags of `issues`.
pub fn tag_tally(issues: &Vec<Issue>) -> (r: Vec<(String, usize)>)
    ensures
        is_tag_tally(issues_view(issues@), tag_tally_view(r@)),
{
    let ghost s = issues_view(issues@);
    let mut keys: Vec<Vec<char>> = Vec::new();
    let mut counts: Vec<usize> = Vec::new();
    let n = issues.len();
    for i in 0..n
        invariant
            n == issues@.len(),
            s == issues_view(issues@),
            keys@.len() == counts@.len(),
            forall|a: int, b: int|
                0 <= a < keys@.len() && 0 <= b < keys@.len() && a != b ==> keys@[a]@ != keys@[b]@,
            forall|j: int|
                0 <= j < keys@.len() ==> counts@[j] == tag_count(s.take(i as int), keys@[j]@)
                    && counts@[j] > 0,
            forall|j: int| 0 <= j < counts@.len() ==> counts@[j] <= i,
            forall|k: int| 0 <= k < i ==> key_in(keys@, #[trigger] s[k].tag),
    {
        let tag = chars_of(issues[i].tag.as_str());
        let ghost t = s[i as int].tag;
        assert(s.take(i + 1).drop_last() =~= s.take(i as int));
        assert(s.take(i + 1).last() == s[i as int]);
        let mut j: usize = 0;
        while j < keys.len() && !chars_eq(keys[j].as_slice(), tag.as_slice())
            invariant
                j <= keys@.len(),
                tag@ == t,
                forall|m: int| 0 <= m < j ==> keys@[m]@ != t,
            decreases keys@.len() - j,
        {
            j += 1;
        }
        let found = j < keys.len();
        let ghost old_keys = keys@;
        if found {
            let c = counts[j];
            counts.set(j, c + 1);
        } else {
            proof {
                if tag_count(s.take(i as int), t) > 0 {
                    lemma_tag_count_positive(s.take(i as int), t);
                    let k = choose|k: int| 0 <= k < i && s.take(i as int)[k].tag == t;
                    assert(s[k].tag == t);
                }
            }
            keys.push(tag);
            counts.push(1);
        }
        assert forall|k: int| 0 <= k < i + 1 implies key_in(keys@, #[trigger] s[k].tag) by {
            if k == i {
                if found {
                    assert(keys@[j as int]@ == s[k].tag);
                } else {
                    assert(keys@[keys@.len() - 1]@ == s[k].tag);
                }
            } else {
                assert(key_in(old_keys, s[k].tag));
                let j3 = choose|j3: int| 0 <= j3 < old_keys.len() && old_keys[j3]@ == s[k].tag;
                assert(keys@[j3] == old_keys[j3]);
            }
        }
    }
    assert(s.take(n as int) =~= s);
    let mut entries: Vec<(String, usize)> = Vec::new();
    let mut keys = keys;
    let mut m = keys.len();
    // The entries in the order their tags were first met.
    while m > 0
        invariant
            m <= keys@.len(),
            keys@.len() == counts@.len(),
            entries@.len() == counts@.len() - m,
            forall|q: int|
                0 <= q < entries@.len() ==> entries@[q].0@ == keys@[m + q]@ && entries@[q].1
                    == counts@[m + q],
        decreases m,
    {
        m -= 1;
        let k = string_of(keys[m].as_slice());
        entries.insert(0, (k, counts[m]));
    }
    let sorted = sort_by_count_desc(entries);
    proof {
        assert forall|a: int, b: int|
            0 <= a < entries@.len() && 0 <= b < entries@.len() && a != b implies entries@[a].0
                != entries@[b].0 by {
            assert(entries@[a].0@ == keys@[a]@);
            assert(entries@[b].0@ == keys@[b]@);
        }
        lemma_rearranged_keys_distinct(entries@, sorted@);
        let rv = tag_tally_view(sorted@);
        assert forall|q: int| 0 <= q < rv.len() implies rv[q].1 == tag_count(s, rv[q].0) && rv[q].1
            > 0 by {
            assert(sorted@.to_multiset().count(sorted@[q]) > 0);
            assert(entries@.contains(sorted@[q]));
            let p = choose|p: int| 0 <= p < entries@.len() && entries@[p] == sorted@[q];
            assert(entries@[p].0@ == keys@[p]@);
        }
        assert forall|a: int, b: int|
            0 <= a < rv.len() && 0 <= b < rv.len() && a != b implies rv[a].0 != rv[b].0 by {
            if rv[a].0 == rv[b].0 {
                assert(sorted@.to_multiset().count(sorted@[a]) > 0);
                assert(sorted@.to_multiset().count(sorted@[b]) > 0);
                assert(entries@.contains(sorted@[a]));
                assert(entries@.contains(sorted@[b]));
                let pa = choose|p: int| 0 <= p < entries@.len() && entries@[p] == sorted@[a];
                let pb = choose|p: int| 0 <= p < entries@.len() && entries@[p] == sorted@[b];
                assert(entries@[pa].0@ == keys@[pa]@);
                assert(entries@[pb].0@ == keys@[pb]@);
                assert(pa == pb);
            }
        }
        assert forall|k: int| 0 <= k < s.len() implies listed(rv, #[trigger] s[k].tag) by {
            assert(key_in(keys@, s[k].tag));
            let j = choose|j: int| 0 <= j < keys@.len() && keys@[j]@ == s[k].tag;
            assert(entries@[j].0@ == s[k].tag);
            assert(entries@.to_multiset().count(entries@[j]) > 0);
            assert(sorted@.contains(entries@[j]));
            let q = choose|q: int| 0 <= q < sorted@.len() && sorted@[q] == entries@[j];
            assert(rv[q].0 == s[k].tag);
        }
    }
    sorted
}

/// The tally of the statuses of `issues`.
pub fn status_tally(issues: &Vec<Issue>) -> (r: Vec<(IssueStatus, usize)>)
    ensures
        is_status_tally(issues_view(issues@), status_tally_view(r@)),
{
    let ghost s = issues_view(issues@);
    let mut entries: Vec<(IssueStatus, usize)> = Vec::new();
    let n = issues.len();
    for i in 0..n
        invariant
            n == issues@.len(),
            s == issues_view(issues@),
            forall|a: int, b: int|
                0 <= a < entries@.len() && 0 <= b < entries@.len() && a != b ==> entries@[a].0
                    != entries@[b].0,
            forall|j: int|
                0 <= j < entries@.len() ==> entries@[j].1 == status_count(
                    s.take(i as int),
                    entries@[j].0,
                ) && entries@[j].1 > 0,
            forall|j: int| 0 <= j < entries@.len() ==> entries@[j].1 <= i,
            forall|k: int| 0 <= k < i ==> status_in(entries@, #[trigger] s[k].status),
    {
        let st = issues[i].status;
        assert(s.take(i + 1).drop_last() =~= s.take(i as int));
        assert(s.take(i + 1).last() == s[i as int]);
        let mut j: usize = 0;
        while j < entries.len() && entries[j].0 != st
            invariant
                j <= entries@.len(),
                forall|m: int| 0 <= m < j ==> entries@[m].0 != st,
            decreases entries@.len() - j,
        {
            j += 1;
        }
        let found = j < entries.len();
        let ghost old_entries = entries@;
        if found {
            let c = entries[j].1;
            entries.set(j, (st, c + 1));
        } else {
            proof {
                if status_count(s.take(i as int), st) > 0 {
                    lemma_status_count_positive(s.take(i as int), st);
                    let k = choose|k: int| 0 <= k < i && s.take(i as int)[k].status == st;
                    assert(s[k].status == st);
                }
            }
            entries.push((st, 1));
        }
        assert forall|k: int| 0 <= k < i + 1 implies status_in(entries@, #[trigger] s[k].status) by {
            if k == i {
                if found {
                    assert(entries@[j as int].0 == s[k].status);
                } else {
                    assert(entries@[entries@.len() - 1].0 == s[k].status);
                }
            } else {
                assert(status_in(old_entries, s[k].status));
                let j3 = choose|j3: int| 0 <= j3 < old_entries.len() && old_entries[j3].0 == s[k].status;
                assert(entries@[j3].0 == old_entries[j3].0);
            }
        }
    }
    assert(s.take(n as int) =~= s);
    let sorted = sort_by_count_desc(entries);
    proof {
        lemma_rearranged_keys_distinct(entries@, sorted@);
        let rv = status_tally_view(sorted@);
        assert forall|q: int| 0 <= q < rv.len() implies rv[q].1 == status_count(s, rv[q].0)
            && rv[q].1 > 0 by {
            assert(sorted@.to_multiset().count(sorted@[q]) > 0);
            assert(entries@.contains(sorted@[q]));
        }
        assert forall|k: int| 0 <= k < s.len() implies listed(rv, #[trigger] s[k].status) by {
            assert(status_in(entries@, s[k].status));
            let j = choose|j: int| 0 <= j < entries@.len() && entries@[j].0 == s[k].status;
            assert(entries@.to_multiset().count(entries@[j]) > 0);
            assert(sorted@.contains(entries@[j]));
            let q = choose|q: int| 0 <= q < sorted@.len() && sorted@[q] == entries@[j];
            assert(rv[q].0 == s[k].status);
        }
    }
    sorted
}

/// Some entry of `e` has key `st`.
spec fn status_in(e: Seq<(IssueStatus, usize)>, st: IssueStatus) -> bool {
    exists|j: int| 0 <= j < e.len() && e[j].0 == st
}

} // verus!
