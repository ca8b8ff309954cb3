//! The interaction policy of dock tabs while dragging.

use vstd::prelude::*;

verus! {

/// Interaction capabilities of one dock tab under the current edit policy.
#[derive(Clone, Copy, Debug, PartialEq, Eq, Structural)]
pub struct TabInteractionPolicy {
    pub draggable: bool,
    pub accepts_drop: bool,
    pub detachable: bool,
}

/// What a tab may do: pinned tabs stay fixed but remain drop targets, and nothing moves
/// while the layout is locked.
pub fn tab_interaction_policy(layout_editable: bool, pinned: bool, detach_allowed: bool) -> (r: TabInteractionPolicy)
    ensures
        r.draggable == (layout_editable && !pinned),
        r.accepts_drop == layout_editable,
        r.detachable == (layout_editable && !pinned && detach_allowed),
{
    TabInteractionPolicy {
        draggable: layout_editable && !pinned,
        accepts_drop: layout_editable,
        detachable: layout_editable && !pinned && detach_allowed,
    }
}

} // verus!
