//! Outputs as the embedding layer reports them.

use crate::types::{OutputId, Rect};
use vstd::prelude::*;

verus! {

/// A new output, or the new geometry of a known one.
#[derive(Debug, Clone, Copy)]
pub struct OutputInfo {
    pub id: OutputId,
    pub rect: Rect,
}

/// Position of the first of `outputs` with the identifier `to`, or the
/// length of `outputs` where there is none.
pub open spec fn first_bound(outputs: Seq<OutputInfo>, to: Option<OutputId>) -> int
    decreases outputs.len(),
{
    if outputs.len() == 0 {
        0
    } else if Some(outputs[0].id) == to {
        0
    } else {
        1 + first_bound(outputs.drop_first(), to)
    }
}

/// Whether one of `outputs` has the identifier `to`.
pub open spec fn reported(outputs: Seq<OutputInfo>, to: Option<OutputId>) -> bool {
    first_bound(outputs, to) < outputs.len()
}

/// The outputs that get a workspace of their own beside a workspace bound to
/// `to`: all but the first that has the identifier `to`.
pub open spec fn unbound(outputs: Seq<OutputInfo>, to: Option<OutputId>) -> Seq<OutputInfo> {
    if first_bound(outputs, to) < outputs.len() {
        outputs.remove(first_bound(outputs, to))
    } else {
        outputs
    }
}

/// The rectangle of a workspace bound to `to` after `outputs` were
/// reported: that of the first output with this identifier, or `rect` as
/// before where there is none.
pub open spec fn claimed_rect(outputs: Seq<OutputInfo>, to: Option<OutputId>, rect: Rect) -> Rect {
    if first_bound(outputs, to) < outputs.len() {
        outputs[first_bound(outputs, to)].rect
    } else {
        rect
    }
}

/// `first_bound` is the position of an output bound to `to`, and none
/// before it is.
pub proof fn lemma_first_bound(outputs: Seq<OutputInfo>, to: Option<OutputId>)
    ensures
        0 <= first_bound(outputs, to) <= outputs.len(),
        first_bound(outputs, to) < outputs.len() ==> Some(outputs[first_bound(outputs, to)].id)
            == to,
        forall|j: int| 0 <= j < first_bound(outputs, to) ==> Some(#[trigger] outputs[j].id) != to,
    decreases outputs.len(),
{
    if outputs.len() == 0 {
    } else if Some(outputs[0].id) == to {
    } else {
        let rest = outputs.drop_first();
        lemma_first_bound(rest, to);
        assert forall|j: int| 0 <= j < first_bound(outputs, to) implies Some(
            #[trigger] outputs[j].id,
        ) != to by {
            if j > 0 {
                assert(outputs[j] == rest[j - 1]);
            }
        }
    }
}

/// Whether none of the outputs before position `i` has the identifier of the
/// output at `i`.
pub open spec fn first_of_its_output(outputs: Seq<OutputInfo>, i: int) -> bool {
    forall|k: int| 0 <= k < i ==> (#[trigger] outputs[k]).id != outputs[i].id
}

/// Whether no two of `outputs` have the same identifier.
pub open spec fn distinct_outputs(outputs: Seq<OutputInfo>) -> bool {
    forall|a: int, b: int|
        0 <= a < b < outputs.len() ==> (#[trigger] outputs[a]).id != (#[trigger] outputs[b]).id
}

/// The position of the workspace of the output at `i` beside a workspace
/// bound to `to`, which stands at position 0: the first output with the
/// identifier `to` has that workspace, and the others follow in their order.
pub open spec fn place(outputs: Seq<OutputInfo>, to: Option<OutputId>, i: int) -> int {
    if i == first_bound(outputs, to) {
        0
    } else if i < first_bound(outputs, to) {
        i + 1
    } else {
        i
    }
}

/// Tests `reported`.
pub fn is_reported(outputs: &Vec<OutputInfo>, to: Option<OutputId>) -> (r: bool)
    ensures
        r == reported(outputs@, to),
{
    proof {
        lemma_first_bound(outputs@, to);
    }
    let bound = match to {
        Some(id) => id,
        None => {
            return false;
        },
    };
    let mut i: usize = 0;
    while i < outputs.len()
        invariant
            i <= outputs.len(),
            to == Some(bound),
            forall|j: int| 0 <= j < i ==> (#[trigger] outputs[j]).id != bound,
            first_bound(outputs@, to) < outputs.len() ==> Some(
                outputs[first_bound(outputs@, to)].id,
            ) == to,
            0 <= first_bound(outputs@, to) <= outputs.len(),
            forall|j: int|
                0 <= j < first_bound(outputs@, to) ==> Some(#[trigger] outputs[j].id) != to,
        decreases outputs.len() - i,
    {
        if outputs[i].id == bound {
            return true;
        }
        i += 1;
    }
    false
}

/// The smallest identifier from 1 to 254 that none of `used` has.
pub fn new_output_id(used: &Vec<OutputId>) -> (r: Option<OutputId>)
    ensures
        match r {
            Some(id) => 1 <= id < 255 && !used@.contains(id) && forall|k: OutputId|
                1 <= k < id ==> used@.contains(k),
            None => forall|k: OutputId| 1 <= k < 255 ==> used@.contains(k),
        },
{
    let mut id: OutputId = 1;
    while id < 255
        invariant
            1 <= id <= 255,
            forall|k: OutputId| 1 <= k < id ==> used@.contains(k),
        decreases 255 - id,
    {
        let mut taken = false;
        let mut i: usize = 0;
        while i < used.len()
            invariant
                i <= used.len(),
                taken <==> exists|j: int| 0 <= j < i && used@[j] == id,
            decreases used.len() - i,
        {
            if used[i] == id {
                taken = true;
            }
            i += 1;
        }
        if !taken {
            return Some(id);
        }
        id += 1;
    }
    None
}

} // verus!
