use vstd::prelude::*;

use egui::Pos2;

use crate::thought::Thought;

verus! {

/// What the pointer is in the middle of: dragging a thought out of the
/// inbox (its index there, where the drag started, and whether it has left
/// the inbox) and the thought that is being carried.
#[derive(Clone)]
pub struct Actions {
    pub start_drag: Option<(usize, Pos2, bool)>,
    pub thought_drag: Option<Thought>,
}

impl Default for Actions {
    /// Nothing is being dragged.
    fn default() -> (r: Self)
        ensures
            r.start_drag is None,
            r.thought_drag is None,
    {
        Self { start_drag: None, thought_drag: None }
    }
}

} // verus!
