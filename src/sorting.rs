use vstd::prelude::*;
use vstd::relations::{sorted_by, total_ordering};
use vstd::seq_lib::{group_to_multiset_ensures, lemma_sorted_unique};

verus! {

/// Sorts `items` by insertion under the total order `le`, which `before`
/// decides. Elements that compare equal both ways are identical, so the result
/// is the one sorted sequence with the same elements.
pub(crate) fn insertion_sort<T: Copy, F: Fn(&T, &T) -> bool>(
    items: &Vec<T>,
    before: &F,
    Ghost(le): Ghost<spec_fn(T, T) -> bool>,
) -> (r: Vec<T>)
    requires
        total_ordering(le),
        forall|a: &T, b: &T| #[trigger] before.requires((a, b)),
        forall|a: &T, b: &T, r: bool| before.ensures((a, b), r) ==> r == le(*a, *b),
    ensures
        r@ == items@.sort_by(le),
{
    let mut out: Vec<T> = Vec::new();
    let mut i: usize = 0;
    proof {
        assert(out@ =~= items@.take(0));
    }
    while i < items.len()
        invariant
            i <= items.len(),
            total_ordering(le),
            forall|a: &T, b: &T| #[trigger] before.requires((a, b)),
            forall|a: &T, b: &T, r: bool| before.ensures((a, b), r) ==> r == le(*a, *b),
            sorted_by(out@, le),
            out@.to_multiset() == items@.take(i as int).to_multiset(),
        decreases items.len() - i,
    {
        let x = items[i];
        let mut pos: usize = 0;
        while pos < out.len() && before(&out[pos], &x)
            invariant
                pos <= out.len(),
                forall|a: &T, b: &T| #[trigger] before.requires((a, b)),
                forall|a: &T, b: &T, r: bool| before.ensures((a, b), r) ==> r == le(*a, *b),
                forall|k: int| 0 <= k < pos ==> #[trigger] le(out@[k], x),
            decreases out.len() - pos,
        {
            pos = pos + 1;
        }
        let ghost prior = out@;
        out.insert(pos, x);
        proof {
            broadcast use group_to_multiset_ensures;

            assert forall|a: int, b: int| 0 <= a < b < out@.len() implies #[trigger] le(
                out@[a],
                out@[b],
            ) by {
                if pos < prior.len() {
                    assert(!le(prior[pos as int], x));
                    assert(le(x, prior[pos as int]));
                }
                if b <= pos {
                } else if a < pos {
                    assert(le(out@[a], x));
                    if b - 1 > pos {
                        assert(le(prior[pos as int], prior[b - 1]));
                    }
                } else if a == pos {
                    if b - 1 > pos {
                        assert(le(prior[pos as int], prior[b - 1]));
                    }
                }
            }
            assert(items@.take(i + 1) == items@.take(i as int).push(x));
        }
        i = i + 1;
    }
    proof {
        assert(items@.take(i as int) == items@);
        items@.lemma_sort_by_ensures(le);
        lemma_sorted_unique(out@, items@.sort_by(le), le);
    }
    out
}

} // verus!
