//! Sequences without repetition.

use vstd::prelude::*;

verus! {

/// `s` with `x` added at the end unless it is there already.
pub open spec fn push_unique<T>(s: Seq<T>, x: T) -> Seq<T> {
    if s.contains(x) {
        s
    } else {
        s.push(x)
    }
}

/// The distinct members of `s`, in the order of their first occurrence.
pub open spec fn unique<T>(s: Seq<T>) -> Seq<T>
    decreases s.len(),
{
    if s.len() == 0 {
        Seq::empty()
    } else {
        push_unique(unique(s.drop_last()), s.last())
    }
}

/// A prefix that is one longer ends with the next member.
pub proof fn lemma_take_push<T>(s: Seq<T>, k: int)
    requires
        0 <= k < s.len(),
    ensures
        s.take(k + 1) == s.take(k).push(s[k]),
        unique(s.take(k + 1)) == push_unique(unique(s.take(k)), s[k]),
{
    assert(s.take(k + 1) =~= s.take(k).push(s[k]));
    assert(s.take(k).push(s[k]).drop_last() =~= s.take(k));
}

/// The distinct members of a prefix are no more than those of the whole.
pub proof fn lemma_unique_grows<T>(s: Seq<T>, k: int)
    requires
        0 <= k <= s.len(),
    ensures
        unique(s.take(k)).len() <= unique(s).len(),
    decreases s.len() - k,
{
    if k == s.len() {
        assert(s.take(k) =~= s);
    } else {
        lemma_take_push(s, k);
        lemma_unique_grows(s, k + 1);
    }
}

/// There are no more distinct members than members.
pub proof fn lemma_unique_short<T>(s: Seq<T>)
    ensures
        unique(s).len() <= s.len(),
    decreases s.len(),
{
    if s.len() > 0 {
        lemma_unique_short(s.drop_last());
    }
}

/// In `unique(s)` nothing occurs twice, and it holds what `s` holds.
pub proof fn lemma_unique_no_duplicates<T>(s: Seq<T>)
    ensures
        unique(s).no_duplicates(),
        forall|k: T| unique(s).contains(k) <==> s.contains(k),
    decreases s.len(),
{
    if s.len() > 0 {
        let head = s.drop_last();
        lemma_unique_no_duplicates(head);
        let u = unique(head);
        assert forall|k: T| unique(s).contains(k) <==> s.contains(k) by {
            if s.contains(k) {
                let i = choose|i: int| 0 <= i < s.len() && s[i] == k;
                if i < s.len() - 1 {
                    assert(head[i] == k);
                    assert(head.contains(k));
                    assert(u.contains(k));
                    if !u.contains(s.last()) {
                        let j = choose|j: int| 0 <= j < u.len() && u[j] == k;
                        assert(u.push(s.last())[j] == k);
                    }
                } else {
                    if !u.contains(s.last()) {
                        assert(u.push(s.last())[u.len() as int] == k);
                    }
                }
            }
            if unique(s).contains(k) {
                let j = choose|j: int| 0 <= j < unique(s).len() && unique(s)[j] == k;
                if u.contains(s.last()) || j < u.len() {
                    assert(u[j] == k);
                    assert(u.contains(k));
                    assert(head.contains(k));
                    let i = choose|i: int| 0 <= i < head.len() && head[i] == k;
                    assert(s[i] == k);
                } else {
                    assert(s[s.len() - 1] == k);
                }
            }
        }
    }
}

/// The number of distinct members is the size of the set of members.
pub proof fn lemma_unique_counts<T>(s: Seq<T>)
    ensures
        unique(s).len() == s.to_set().len(),
{
    lemma_unique_no_duplicates(s);
    unique(s).unique_seq_to_set();
    assert(unique(s).to_set() =~= s.to_set());
}

} // verus!
