//! Sequences of identifiers in the order of use.

use crate::types::NodeId;
use vstd::prelude::*;

verus! {

/// Position of the last occurrence of `id` in `ids`, or -1 where it does not
/// occur.
pub open spec fn last_index_of(ids: Seq<NodeId>, id: NodeId) -> int
    decreases ids.len(),
{
    if ids.len() == 0 {
        -1
    } else if ids.last() == id {
        ids.len() - 1
    } else {
        last_index_of(ids.drop_last(), id)
    }
}

/// `ids` without the last occurrence of `id`.
pub open spec fn without_last(ids: Seq<NodeId>, id: NodeId) -> Seq<NodeId> {
    ids.remove(last_index_of(ids, id))
}

/// `last_index_of` finds an occurrence, and none comes after it.
pub proof fn lemma_last_index_of(ids: Seq<NodeId>, id: NodeId)
    ensures
        ids.contains(id) <==> 0 <= last_index_of(ids, id),
        -1 <= last_index_of(ids, id) < ids.len(),
        0 <= last_index_of(ids, id) ==> ids[last_index_of(ids, id)] == id,
        forall|j: int| last_index_of(ids, id) < j < ids.len() ==> ids[j] != id,
    decreases ids.len(),
{
    if ids.len() == 0 {
    } else if ids.last() == id {
        assert(ids[ids.len() - 1] == id);
    } else {
        let front = ids.drop_last();
        lemma_last_index_of(front, id);
        if ids.contains(id) {
            let k = choose|k: int| 0 <= k < ids.len() && ids[k] == id;
            assert(front[k] == id);
        }
        if 0 <= last_index_of(front, id) {
            assert(ids[last_index_of(front, id)] == id);
        }
        assert forall|j: int| last_index_of(ids, id) < j < ids.len() implies ids[j] != id by {
            if j < front.len() {
                assert(front[j] != id);
            }
        }
    }
}

/// What is left when one element leaves a sequence without duplicates: the
/// other elements, still without duplicates.
pub proof fn lemma_remove_distinct(ids: Seq<NodeId>, i: int)
    requires
        ids.no_duplicates(),
        0 <= i < ids.len(),
    ensures
        ids.remove(i).no_duplicates(),
        ids.remove(i).len() == ids.len() - 1,
        forall|x: NodeId| #[trigger] ids.remove(i).contains(x) <==> ids.contains(x) && x != ids[i],
{
    let r = ids.remove(i);
    assert forall|x: NodeId| #[trigger] r.contains(x) <==> ids.contains(x) && x != ids[i] by {
        if r.contains(x) {
            let k = choose|k: int| 0 <= k < r.len() && r[k] == x;
            if k < i {
                assert(ids[k] == x);
            } else {
                assert(ids[k + 1] == x);
            }
        }
        if ids.contains(x) && x != ids[i] {
            let k = choose|k: int| 0 <= k < ids.len() && ids[k] == x;
            if k < i {
                assert(r[k] == x);
            } else {
                assert(r[k - 1] == x);
            }
        }
    }
}

/// Moving an element to the end keeps the length and the elements, puts the
/// element last, and brings in no repetition.
pub proof fn lemma_moved_last(ids: Seq<NodeId>, id: NodeId)
    requires
        ids.contains(id),
    ensures
        without_last(ids, id).push(id).len() == ids.len(),
        without_last(ids, id).push(id).last() == id,
        forall|x: NodeId| #[trigger] without_last(ids, id).push(id).contains(x) <==> ids.contains(x),
        ids.no_duplicates() ==> without_last(ids, id).push(id).no_duplicates(),
{
    lemma_last_index_of(ids, id);
    let k = last_index_of(ids, id);
    let cut = ids.remove(k);
    let after = cut.push(id);
    assert forall|x: NodeId| #[trigger] after.contains(x) <==> ids.contains(x) by {
        if after.contains(x) {
            let j = choose|j: int| 0 <= j < after.len() && after[j] == x;
            if j < cut.len() {
                if j < k {
                    assert(ids[j] == x);
                } else {
                    assert(ids[j + 1] == x);
                }
            }
        }
        if ids.contains(x) {
            let j = choose|j: int| 0 <= j < ids.len() && ids[j] == x;
            if j == k {
                assert(after[after.len() - 1] == x);
            } else if j < k {
                assert(after[j] == x);
            } else {
                assert(after[j - 1] == x);
            }
        }
    }
    if ids.no_duplicates() {
        lemma_remove_distinct(ids, k);
        assert forall|i: int, j: int|
            0 <= i < after.len() && 0 <= j < after.len() && i != j implies after[i] != after[j] by {
            if i < cut.len() {
                assert(cut.contains(after[i]));
            }
            if j < cut.len() {
                assert(cut.contains(after[j]));
            }
        }
    }
}

/// Removes the last occurrence of `id` from `ids`.
pub fn remove_id(ids: &mut Vec<NodeId>, id: NodeId)
    requires
        old(ids)@.contains(id),
    ensures
        final(ids)@ == without_last(old(ids)@, id),
{
    proof {
        lemma_last_index_of(ids@, id);
    }
    let mut i: usize = ids.len();
    while i > 0
        invariant
            i <= ids.len(),
            ids@ == old(ids)@,
            forall|j: int| i <= j < ids.len() ==> ids@[j] != id,
            0 <= last_index_of(ids@, id) < ids.len(),
            ids@[last_index_of(ids@, id)] == id,
            forall|j: int| last_index_of(ids@, id) < j < ids.len() ==> ids@[j] != id,
        decreases i,
    {
        i -= 1;
        if ids[i] == id {
            ids.remove(i);
            return ;
        }
    }
}

/// The last element of `ids` that satisfies `good`.
pub open spec fn last_where(ids: Seq<NodeId>, good: spec_fn(NodeId) -> bool) -> Option<NodeId>
    decreases ids.len(),
{
    if ids.len() == 0 {
        None
    } else if good(ids.last()) {
        Some(ids.last())
    } else {
        last_where(ids.drop_last(), good)
    }
}

/// Where no element satisfies `good`, `last_where` finds none.
pub proof fn lemma_last_where_none(ids: Seq<NodeId>, good: spec_fn(NodeId) -> bool)
    requires
        forall|i: int| 0 <= i < ids.len() ==> !good(#[trigger] ids[i]),
    ensures
        last_where(ids, good) is None,
    decreases ids.len(),
{
    if ids.len() > 0 {
        assert(!good(ids[ids.len() - 1]));
        let front = ids.drop_last();
        assert forall|i: int| 0 <= i < front.len() implies !good(#[trigger] front[i]) by {
            assert(front[i] == ids[i]);
        }
        lemma_last_where_none(front, good);
    }
}

} // verus!
