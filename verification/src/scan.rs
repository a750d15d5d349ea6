//! Where a sequence first holds an item of a given kind.
use vstd::prelude::*;

verus! {

/// How many items stand before the first of which `stop` is true: all of them
/// where it is true of none.
pub open spec fn stop_index<A>(items: Seq<A>, stop: spec_fn(A) -> bool) -> nat
    decreases items.len(),
{
    if items.len() == 0 || stop(items[0]) {
        0
    } else {
        1 + stop_index(items.drop_first(), stop)
    }
}

/// The first item of the kind is the one before which there is none of the
/// kind.
pub proof fn lemma_stop_index<A>(items: Seq<A>, stop: spec_fn(A) -> bool, k: int)
    requires
        0 <= k <= items.len(),
        forall|j: int| 0 <= j < k ==> !stop(#[trigger] items[j]),
        k == items.len() || stop(items[k]),
    ensures
        stop_index(items, stop) == k,
    decreases k,
{
    if k > 0 {
        let rest = items.drop_first();
        assert forall|j: int| 0 <= j < k - 1 implies !stop(#[trigger] rest[j]) by {
            assert(rest[j] == items[j + 1]);
        }
        assert(!stop(items[0]));
        lemma_stop_index(rest, stop, k - 1);
    }
}

/// Before the first item of the kind there is none of the kind, and where the
/// items do not end there, an item of the kind stands there.
pub proof fn lemma_stop_index_bounds<A>(items: Seq<A>, stop: spec_fn(A) -> bool)
    ensures
        stop_index(items, stop) <= items.len(),
        forall|j: int| 0 <= j < stop_index(items, stop) ==> !stop(#[trigger] items[j]),
        stop_index(items, stop) < items.len() ==> stop(items[stop_index(items, stop) as int]),
    decreases items.len(),
{
    if !(items.len() == 0 || stop(items[0])) {
        let rest = items.drop_first();
        lemma_stop_index_bounds(rest, stop);
        assert forall|j: int| 0 <= j < stop_index(items, stop) implies !stop(
            #[trigger] items[j],
        ) by {
            if j > 0 {
                assert(rest[j - 1] == items[j]);
            }
        }
    }
}

} // verus!
