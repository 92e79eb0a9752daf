//! What holds of filtered and folded lists.

use vstd::prelude::*;

verus! {

/// A filtered list holds exactly the members that pass.
pub proof fn lemma_filter_members<A>(s: Seq<A>, p: spec_fn(A) -> bool)
    ensures
        forall|x: A| s.filter(p).contains(x) <==> s.contains(x) && p(x),
{
    assert forall|x: A| s.filter(p).contains(x) <==> s.contains(x) && p(x) by {
        let f = s.filter(p);
        if f.contains(x) {
            s.lemma_filter_contains_rev(p, x);
            let k = choose|k: int| 0 <= k < f.len() && f[k] == x;
            s.lemma_filter_pred(p, k);
        }
        if s.contains(x) && p(x) {
            let k = choose|k: int| 0 <= k < s.len() && s[k] == x;
            s.lemma_filter_contains(p, k);
        }
    }
}

/// A list that every member passes is its own filtered list.
pub proof fn lemma_filter_all<A>(s: Seq<A>, p: spec_fn(A) -> bool)
    requires
        forall|i: int| 0 <= i < s.len() ==> p(#[trigger] s[i]),
    ensures
        s.filter(p) == s,
    decreases s.len(),
{
    reveal(Seq::filter);
    if s.len() > 0 {
        let front = s.drop_last();
        assert forall|i: int| 0 <= i < front.len() implies p(#[trigger] front[i]) by {
            assert(front[i] == s[i]);
        }
        lemma_filter_all(front, p);
        assert(p(s[s.len() - 1]));
        assert(s =~= front.push(s.last()));
    } else {
        assert(s.filter(p) =~= s);
    }
}

/// The sum of a list is that of its front and its last member.
pub proof fn lemma_fold_last(s: Seq<int>)
    requires
        s.len() > 0,
    ensures
        s.fold_left(0, |a: int, x: int| a + x) == s.drop_last().fold_left(
            0,
            |a: int, x: int| a + x,
        ) + s.last(),
{
    reveal_with_fuel(Seq::fold_left, 2);
}

} // verus!
