//! What a render pass reports back: the layout events it produced, the tabs it took out of the
//! tree, and the gesture still in flight when it ended.

use vstd::prelude::*;

use crate::address::{GapPath, SurfaceIndex};
use crate::drag::DragSource;

verus! {

/// A single layout-affecting event observed during one render pass.
///
/// [`DockEvent::SeparatorDragging`] is fired every frame while a separator is being dragged and is
/// not worth persisting; every other event is a finalised edit, worth an undo entry or a save.
#[non_exhaustive]
#[derive(Clone, Copy, Debug, PartialEq, Eq, Structural)]
pub enum DockEvent {
    /// Live separator drag in progress.
    SeparatorDragging,
    /// A finalised, discrete layout mutation.
    LayoutCommitted,
    /// A "+"-shaped crossing had its row/column grouping transposed; nothing moved on screen.
    CrossSplitTransposed,
}

impl DockEvent {
    /// `true` for everything except [`DockEvent::SeparatorDragging`].
    pub open spec fn spec_is_committed(&self) -> bool {
        !(*self is SeparatorDragging)
    }

    /// `true` for everything except [`DockEvent::SeparatorDragging`].
    #[verifier::when_used_as_spec(spec_is_committed)]
    pub fn is_committed(&self) -> (b: bool)
        ensures
            b == self.spec_is_committed(),
    {
        match self {
            DockEvent::SeparatorDragging => false,
            _ => true,
        }
    }
}

/// The thing a gesture in flight is holding.
#[derive(Clone, Copy, Debug, PartialEq, Eq, Structural)]
pub enum DragSubject {
    /// A tab, by identity.
    Tab(DragSource),
    /// The separator in this gap of a row.
    Separator(GapPath),
    /// The junction on the line in this gap of a row.
    Junction(GapPath),
    /// A floating window, by its title bar.
    Window(SurfaceIndex),
}

/// One gesture the dock's hand is holding at the end of a pass.
#[derive(Clone, Copy, Debug, PartialEq, Eq, Structural)]
pub struct DragInFlight {
    pub subject: DragSubject,
}

/// Summary of what happened while rendering a dock.
#[non_exhaustive]
#[derive(Clone, Debug)]
pub struct DockAreaResponse<Tab> {
    /// Events emitted during this frame, in the order they occurred.
    pub events: Vec<DockEvent>,
    /// The tabs this frame actually took out of the tree, in the order they were taken.
    pub closed: Vec<Tab>,
    /// What the hand was holding when the pass ended, if anything.
    pub dragging: Option<DragInFlight>,
}

/// Whether any event at all is in `events`.
pub open spec fn spec_layout_changed(events: Seq<DockEvent>) -> bool {
    events.len() > 0
}

/// Whether a finalised event is among `events`.
pub open spec fn spec_layout_committed(events: Seq<DockEvent>) -> bool {
    exists|i: int| 0 <= i < events.len() && (#[trigger] events[i]).spec_is_committed()
}

impl<Tab> Default for DockAreaResponse<Tab> {
    fn default() -> (r: Self)
        ensures
            r.events@ == Seq::<DockEvent>::empty(),
            r.closed@ == Seq::<Tab>::empty(),
            r.dragging is None,
    {
        DockAreaResponse { events: Vec::new(), closed: Vec::new(), dragging: None }
    }
}

impl<Tab> DockAreaResponse<Tab> {
    /// A response carrying these events, closed tabs and gesture.
    pub fn new(events: Vec<DockEvent>, closed: Vec<Tab>, dragging: Option<DragInFlight>) -> (r:
        Self)
        ensures
            r.events == events,
            r.closed == closed,
            r.dragging == dragging,
    {
        DockAreaResponse { events, closed, dragging }
    }

    /// `true` if any layout mutation happened this frame, including an in-progress separator
    /// drag.
    pub fn layout_changed(&self) -> (b: bool)
        ensures
            b == spec_layout_changed(self.events@),
    {
        !self.events.is_empty()
    }

    /// `true` if at least one finalised event fired this frame: the trigger for undo entries and
    /// saves.
    pub fn layout_committed(&self) -> (b: bool)
        ensures
            b == spec_layout_committed(self.events@),
    {
        let mut k: usize = 0;
        while k < self.events.len()
            invariant
                k <= self.events@.len(),
                forall|i: int| 0 <= i < k ==> !(#[trigger] self.events@[i]).spec_is_committed(),
            decreases self.events@.len() - k,
        {
            if self.events[k].is_committed() {
                return true;
            }
            k = k + 1;
        }
        false
    }
}

/// A committed frame is always a changed frame: whatever makes [`DockAreaResponse::layout_committed`]
/// answer `true` also makes [`DockAreaResponse::layout_changed`] answer `true`.
pub proof fn lemma_committed_implies_changed(events: Seq<DockEvent>)
    ensures
        spec_layout_committed(events) ==> spec_layout_changed(events),
{
}

/// A frame whose only events are live separator drags changed the layout but committed nothing.
pub proof fn lemma_dragging_alone_commits_nothing(events: Seq<DockEvent>)
    requires
        forall|i: int| 0 <= i < events.len() ==> #[trigger] events[i] == DockEvent::SeparatorDragging,
    ensures
        !spec_layout_committed(events),
{
}

} // verus!
