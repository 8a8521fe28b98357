use egui_dockyard::drag::DragSource;
use egui_dockyard::events::{DockAreaResponse, DockEvent, DragInFlight, DragSubject};
use egui_dockyard::{NodeId, SurfaceIndex, TabId};

#[test]
fn only_a_live_drag_is_not_committed() {
    assert!(!DockEvent::SeparatorDragging.is_committed());
    assert!(DockEvent::LayoutCommitted.is_committed());
    assert!(DockEvent::CrossSplitTransposed.is_committed());
}

#[test]
fn an_empty_frame_changed_nothing() {
    let r: DockAreaResponse<String> = DockAreaResponse::default();
    assert!(!r.layout_changed());
    assert!(!r.layout_committed());
    assert!(r.closed.is_empty());
    assert!(r.dragging.is_none());
}

#[test]
fn a_frame_of_live_drags_changed_the_layout_but_committed_nothing() {
    let r: DockAreaResponse<String> = DockAreaResponse::new(
        vec![DockEvent::SeparatorDragging, DockEvent::SeparatorDragging],
        vec![],
        None,
    );
    assert!(r.layout_changed());
    assert!(!r.layout_committed());
}

#[test]
fn one_finalised_event_commits_the_frame() {
    let source = DragSource { surface: SurfaceIndex::main(), node: NodeId(0), tab: TabId(1) };
    let r = DockAreaResponse::new(
        vec![DockEvent::SeparatorDragging, DockEvent::CrossSplitTransposed],
        vec!["closed"],
        Some(DragInFlight { subject: DragSubject::Tab(source) }),
    );
    assert!(r.layout_changed());
    assert!(r.layout_committed());
    assert_eq!(r.closed, vec!["closed"]);
    assert_eq!(r.dragging, Some(DragInFlight { subject: DragSubject::Tab(source) }));
}
