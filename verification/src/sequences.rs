//! Facts about ascending sequences and about filtering.

use vstd::prelude::*;

verus! {

/// Whether each element is smaller than the next.
pub open spec fn is_ascending(s: Seq<usize>) -> bool {
    forall|i: int, j: int| 0 <= i < j < s.len() ==> s[i] < s[j]
}

/// The numbers from zero up to, not including, `n`.
pub open spec fn indices(n: nat) -> Seq<usize> {
    Seq::new(n, |i: int| i as usize)
}

/// Filtering an ascending sequence keeps it ascending, and keeps exactly the
/// elements that pass the test.
pub proof fn lemma_filter_ascending(s: Seq<usize>, keep: spec_fn(usize) -> bool)
    requires
        is_ascending(s),
    ensures
        is_ascending(s.filter(keep)),
        forall|x: usize| #[trigger] s.filter(keep).contains(x) <==> s.contains(x) && keep(x),
    decreases s.len(),
{
    let kept = s.filter(keep);
    assert forall|x: usize| #[trigger] kept.contains(x) <==> s.contains(x) && keep(x) by {
        if kept.contains(x) {
            let i = choose|i: int| 0 <= i < kept.len() && kept[i] == x;
            s.lemma_filter_pred(keep, i);
            s.lemma_filter_contains_rev(keep, x);
        }
        if s.contains(x) && keep(x) {
            let j = choose|j: int| 0 <= j < s.len() && s[j] == x;
            s.lemma_filter_contains(keep, j);
        }
    }
    if s.len() > 0 {
        let front = s.drop_last();
        lemma_filter_ascending(front, keep);
        front.lemma_filter_push(s.last(), keep);
        assert(front.push(s.last()) =~= s);
        assert forall|i: int, j: int| 0 <= i < j < kept.len() implies kept[i] < kept[j] by {
            if j >= front.filter(keep).len() {
                // the last element kept is the last of `s`; what stands before it comes from `front`
                assert(front.filter(keep).contains(kept[i]));
                let k = choose|k: int| 0 <= k < front.len() && front[k] == kept[i];
                assert(s[k] < s[s.len() - 1]);
            }
        }
    } else {
        s.lemma_filter_len(keep);
    }
}

/// Where nothing passes the test, nothing is kept.
pub proof fn lemma_filter_none<A>(s: Seq<A>, keep: spec_fn(A) -> bool)
    requires
        forall|i: int| 0 <= i < s.len() ==> !keep(#[trigger] s[i]),
    ensures
        s.filter(keep) == Seq::<A>::empty(),
{
    if s.filter(keep).len() > 0 {
        let x = s.filter(keep)[0];
        s.lemma_filter_pred(keep, 0);
        s.lemma_filter_contains_rev(keep, x);
    }
}

/// Where everything passes the test, everything is kept.
pub proof fn lemma_filter_all<A>(s: Seq<A>, keep: spec_fn(A) -> bool)
    requires
        forall|i: int| 0 <= i < s.len() ==> keep(#[trigger] s[i]),
    ensures
        s.filter(keep) == s,
    decreases s.len(),
{
    s.lemma_filter_len(keep);
    if s.len() > 0 {
        let front = s.drop_last();
        lemma_filter_all(front, keep);
        front.lemma_filter_push(s.last(), keep);
        assert(front.push(s.last()) =~= s);
    }
}

/// Filtering goes through a cut of the sequence at `pos`, and through the
/// insertion of an element there.
pub proof fn lemma_filter_insert<A>(s: Seq<A>, pos: int, x: A, keep: spec_fn(A) -> bool)
    requires
        0 <= pos <= s.len(),
    ensures
        s.filter(keep) == s.take(pos).filter(keep) + s.skip(pos).filter(keep),
        s.insert(pos, x).filter(keep) == s.take(pos).filter(keep) + seq![x].filter(keep) + s.skip(
            pos,
        ).filter(keep),
        seq![x].filter(keep) == if keep(x) {
            seq![x]
        } else {
            Seq::<A>::empty()
        },
{
    assert(s =~= s.take(pos) + s.skip(pos));
    Seq::filter_distributes_over_add(s.take(pos), s.skip(pos), keep);
    assert(s.insert(pos, x) =~= s.take(pos) + seq![x] + s.skip(pos));
    Seq::filter_distributes_over_add(s.take(pos), seq![x], keep);
    Seq::filter_distributes_over_add(s.take(pos) + seq![x], s.skip(pos), keep);
    // a single element is kept or dropped
    let none = Seq::<A>::empty();
    none.lemma_filter_len(keep);
    none.lemma_filter_push(x, keep);
}

/// The first element that passes the test is the first that is kept.
pub proof fn lemma_filter_first<A>(s: Seq<A>, keep: spec_fn(A) -> bool, first: int)
    requires
        0 <= first < s.len(),
        keep(s[first]),
        forall|i: int| 0 <= i < first ==> !keep(#[trigger] s[i]),
    ensures
        s.filter(keep).len() > 0,
        s.filter(keep)[0] == s[first],
{
    lemma_filter_insert(s, first, s[first], keep);
    lemma_filter_none(s.take(first), keep);
    let rest = s.skip(first);
    assert(rest =~= seq![s[first]] + rest.skip(1));
    Seq::filter_distributes_over_add(seq![s[first]], rest.skip(1), keep);
}

} // verus!
