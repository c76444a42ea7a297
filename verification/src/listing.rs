//! The order in which issues are listed: by status rank (closed, open, in
//! progress), then by priority, lowest first; issues that agree on both keep the
//! order in which they were found.
use vstd::prelude::*;
use crate::issue::{Issue, IssueModel, issues_view};
use crate::status::rank_of;

verus! {

broadcast use vstd::seq_lib::group_to_multiset_ensures;

/// The sort key of an issue: its status rank and its priority.
pub open spec fn key_of(i: IssueModel) -> (u8, u32) {
    (rank_of(i.status), i.prio)
}

/// Key `a` comes no later than key `b`.
pub open spec fn key_le(a: (u8, u32), b: (u8, u32)) -> bool {
    a.0 < b.0 || (a.0 == b.0 && a.1 <= b.1)
}

/// The issues are in listing order.
pub open spec fn sorted_for_listing(s: Seq<IssueModel>) -> bool {
    forall|i: int, j: int| 0 <= i < j < s.len() ==> key_le(key_of(s[i]), key_of(s[j]))
}

/// The issues of `s` whose key is `k`, in the order of `s`.
pub open spec fn with_key(s: Seq<IssueModel>, k: (u8, u32)) -> Seq<IssueModel>
    decreases s.len(),
{
    if s.len() == 0 {
        Seq::empty()
    } else {
        let r = with_key(s.drop_last(), k);
        if key_of(s.last()) == k {
            r.push(s.last())
        } else {
            r
        }
    }
}

/// `t` is `s` sorted for listing, stably.
pub open spec fn stable_sorted(s: Seq<IssueModel>, t: Seq<IssueModel>) -> bool {
    &&& sorted_for_listing(t)
    &&& t.to_multiset() == s.to_multiset()
    &&& forall|k: (u8, u32)| #[trigger] with_key(t, k) == with_key(s, k)
}

/// Selecting by key distributes over concatenation.
pub proof fn lemma_with_key_add(a: Seq<IssueModel>, b: Seq<IssueModel>, k: (u8, u32))
    ensures
        with_key(a + b, k) == with_key(a, k) + with_key(b, k),
    decreases b.len(),
{
    if b.len() == 0 {
        assert(a + b =~= a);
        assert(with_key(a, k) + with_key(b, k) =~= with_key(a, k));
    } else {
        lemma_with_key_add(a, b.drop_last(), k);
        assert((a + b).drop_last() =~= a + b.drop_last());
        assert((a + b).last() == b.last());
        if key_of(b.last()) == k {
            assert(with_key(a, k) + with_key(b.drop_last(), k).push(b.last()) =~= (with_key(a, k)
                + with_key(b.drop_last(), k)).push(b.last()));
        }
    }
}

/// No issue of `s` has key `k`: selecting by `k` gives nothing.
pub proof fn lemma_with_key_none(s: Seq<IssueModel>, k: (u8, u32))
    requires
        forall|j: int| 0 <= j < s.len() ==> key_of(#[trigger] s[j]) != k,
    ensures
        with_key(s, k) == Seq::<IssueModel>::empty(),
    decreases s.len(),
{
    if s.len() > 0 {
        lemma_with_key_none(s.drop_last(), k);
    }
}

/// Inserting `e` after every issue whose key is no greater and before every
/// issue whose key is greater keeps the per-key order and appends `e` to its key.
proof fn lemma_insert_keeps_keys(r: Seq<IssueModel>, p: int, e: IssueModel, k: (u8, u32))
    requires
        0 <= p <= r.len(),
        forall|j: int| p <= j < r.len() ==> !key_le(key_of(#[trigger] r[j]), key_of(e)),
    ensures
        with_key(r.insert(p, e), k) == if key_of(e) == k {
            with_key(r, k).push(e)
        } else {
            with_key(r, k)
        },
{
    let a = r.take(p);
    let b = r.skip(p);
    assert(r =~= a + b);
    assert(r.insert(p, e) =~= a.push(e) + b);
    lemma_with_key_add(a, b, k);
    lemma_with_key_add(a.push(e), b, k);
    assert(a.push(e).drop_last() =~= a);
    if key_of(e) == k {
        assert forall|j: int| 0 <= j < b.len() implies key_of(#[trigger] b[j]) != k by {
            assert(b[j] == r[p + j]);
        }
        lemma_with_key_none(b, k);
        assert(with_key(a, k) + with_key(b, k) =~= with_key(a, k));
        assert(with_key(a, k).push(e) + with_key(b, k) =~= with_key(a, k).push(e));
    }
}

/// Sorts issues into listing order, stably.
pub fn sort_for_listing(issues: Vec<Issue>) -> (r: Vec<Issue>)
    ensures
        stable_sorted(issues_view(issues@), issues_view(r@)),
{
    let ghost src = issues_view(issues@);
    let mut out: Vec<Issue> = Vec::new();
    let mut idx: usize = 0;
    let n = issues.len();
    assert(src.take(0) =~= Seq::<IssueModel>::empty());
    for e in it: issues.into_iter()
        invariant
            idx == it.index(),
            n == src.len(),
            src == issues_view(it.seq()),
            sorted_for_listing(issues_view(out@)),
            issues_view(out@).to_multiset() == src.take(idx as int).to_multiset(),
            forall|k: (u8, u32)| #[trigger]
                with_key(issues_view(out@), k) == with_key(src.take(idx as int), k),
    {
        let ghost ov = issues_view(out@);
        assert(idx < n);
        assert(e@ == src[idx as int]);
        let er = e.status.rank();
        let mut p = out.len();
        while p > 0 && (out[p - 1].status.rank() > er || (out[p - 1].status.rank() == er
            && out[p - 1].prio > e.prio))
            invariant
                p <= out@.len(),
                ov == issues_view(out@),
                er == rank_of(e.status),
                forall|j: int| p <= j < ov.len() ==> !key_le(key_of(#[trigger] ov[j]), key_of(e@)),
            decreases p,
        {
            p -= 1;
        }
        proof {
            assert forall|j: int| 0 <= j < p implies key_le(key_of(#[trigger] ov[j]), key_of(e@)) by {
                if j < p - 1 {
                    assert(key_le(key_of(ov[j]), key_of(ov[p - 1])));
                }
            }
            assert forall|k: (u8, u32)| #[trigger] with_key(ov.insert(p as int, e@), k) == with_key(
                src.take(idx + 1),
                k,
            ) by {
                lemma_insert_keeps_keys(ov, p as int, e@, k);
                assert(src.take(idx + 1).drop_last() =~= src.take(idx as int));
            }
            assert(src.take(idx + 1) =~= src.take(idx as int).push(e@));
        }
        out.insert(p, e);
        assert(issues_view(out@) =~= ov.insert(p as int, e@));
        proof {
            let nv = ov.insert(p as int, e@);
            assert forall|i: int, j: int| 0 <= i < j < nv.len() implies key_le(
                key_of(nv[i]),
                key_of(nv[j]),
            ) by {
                if j < p {
                } else if j == p {
                } else if i < p {
                    assert(nv[j] == ov[j - 1]);
                } else if i == p {
                    assert(nv[j] == ov[j - 1]);
                } else {
                    assert(nv[i] == ov[i - 1]);
                    assert(nv[j] == ov[j - 1]);
                }
            }
        }
        idx += 1;
    }
    assert(src.take(idx as int) =~= src);
    out
}

} // verus!
