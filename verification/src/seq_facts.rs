//! Facts about filtering sequences that the move generators rely on.
use vstd::prelude::*;

verus! {

/// Filtering the first `i + 1` elements adds the `i`-th one exactly when it passes.
pub proof fn lemma_filter_take_step<A>(s: Seq<A>, pred: spec_fn(A) -> bool, i: int)
    requires
        0 <= i < s.len(),
    ensures
        s.take(i + 1).filter(pred) == (if pred(s[i]) {
            s.take(i).filter(pred).push(s[i])
        } else {
            s.take(i).filter(pred)
        }),
{
    reveal(Seq::filter);
    assert(s.take(i + 1).drop_last() =~= s.take(i));
}

/// What a filter keeps comes from the sequence and passes the test.
pub proof fn lemma_filter_subset<A>(s: Seq<A>, pred: spec_fn(A) -> bool)
    ensures
        forall|i: int|
            0 <= i < s.filter(pred).len() ==> s.contains(#[trigger] s.filter(pred)[i]) && pred(
                s.filter(pred)[i],
            ),
    decreases s.len(),
{
    reveal(Seq::filter);
    if s.len() > 0 {
        let t = s.drop_last();
        lemma_filter_subset(t, pred);
        let f = s.filter(pred);
        assert forall|i: int| 0 <= i < f.len() implies s.contains(#[trigger] f[i]) && pred(f[i]) by {
            if i < t.filter(pred).len() {
                assert(f[i] == t.filter(pred)[i]);
                let j = choose|j: int| 0 <= j < t.len() && t[j] == f[i];
                assert(s[j] == f[i]);
            } else {
                assert(f[i] == s[s.len() - 1]);
            }
        }
    }
}

/// A filter of a prefix is no longer than the filter of the whole.
pub proof fn lemma_filter_take_len<A>(s: Seq<A>, pred: spec_fn(A) -> bool, i: int)
    requires
        0 <= i <= s.len(),
    ensures
        s.take(i).filter(pred).len() <= s.filter(pred).len(),
{
    assert(s =~= s.take(i) + s.skip(i));
    Seq::filter_distributes_over_add(s.take(i), s.skip(i), pred);
}

/// Filtering keeps an order: where each element of `s` may come after every earlier one, the same
/// holds of what the filter keeps.
pub proof fn lemma_filter_keeps_order<A>(
    s: Seq<A>,
    pred: spec_fn(A) -> bool,
    after: spec_fn(A, A) -> bool,
)
    requires
        forall|i: int, j: int| 0 <= i < j < s.len() ==> after(#[trigger] s[j], #[trigger] s[i]),
    ensures
        forall|i: int, j: int|
            0 <= i < j < s.filter(pred).len() ==> after(
                #[trigger] s.filter(pred)[j],
                #[trigger] s.filter(pred)[i],
            ),
    decreases s.len(),
{
    reveal(Seq::filter);
    if s.len() > 0 {
        let t = s.drop_last();
        assert forall|i: int, j: int| 0 <= i < j < t.len() implies after(
            #[trigger] t[j],
            #[trigger] t[i],
        ) by {
            assert(t[i] == s[i] && t[j] == s[j]);
        }
        lemma_filter_keeps_order(t, pred, after);
        lemma_filter_subset(t, pred);
        let ft = t.filter(pred);
        let f = s.filter(pred);
        assert forall|i: int, j: int| 0 <= i < j < f.len() implies after(
            #[trigger] f[j],
            #[trigger] f[i],
        ) by {
            assert(f[i] == ft[i]);
            if j < ft.len() {
                assert(f[j] == ft[j]);
            } else {
                assert(f[j] == s[s.len() - 1]);
                assert(t.contains(ft[i]));
                let k = choose|k: int| 0 <= k < t.len() && t[k] == ft[i];
                assert(s[k] == t[k]);
            }
        }
    }
}

} // verus!
