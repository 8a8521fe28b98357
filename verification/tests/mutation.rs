use egui_dockyard::drag::{DragSource, TabDestination};
use egui_dockyard::events::DockEvent;
use egui_dockyard::mutation::{CloseVerdict, DockDraw, DockMutation, TabRemoval};
use egui_dockyard::{NodeId, NodePath, SurfaceIndex, TabId, TabIndex, TabInsert, TabPath};

fn leaf(n: usize) -> NodePath {
    NodePath::new(SurfaceIndex::main(), NodeId(n))
}

fn tab(n: usize, i: usize) -> TabPath {
    TabPath::at(leaf(n), TabIndex(i))
}

fn close(n: usize, i: usize) -> DockMutation<f32> {
    DockMutation::Remove(TabRemoval::Tab { path: tab(n, i), successor: None })
}

fn kinds(ms: &[DockMutation<f32>]) -> Vec<String> {
    ms.iter()
        .map(|m| match m {
            DockMutation::Activate(p) => format!("activate {}:{}", p.node.0, p.tab.0),
            DockMutation::Focus(p) => format!("focus {}", p.node.0),
            DockMutation::Remove(TabRemoval::Tab { path, successor }) => {
                format!("close {}:{} {:?}", path.node.0, path.tab.0, successor.map(|s| s.0))
            }
            DockMutation::Remove(TabRemoval::Node(p)) => format!("close leaf {}", p.node.0),
            DockMutation::Remove(TabRemoval::Window(s)) => format!("close window {}", s.0),
            DockMutation::Measured(x) => format!("measured {x}"),
            other => format!("{other:?}"),
        })
        .collect()
}

#[test]
fn each_verdict_does_what_it_says_and_the_rest_stays_in_place() {
    let mut draw = DockDraw::new(
        vec![DockEvent::SeparatorDragging],
        vec![
            DockMutation::Measured(1.5),
            close(0, 0),
            close(0, 1),
            DockMutation::Remove(TabRemoval::Node(leaf(2))),
            close(0, 2),
            DockMutation::Focus(leaf(3)),
        ],
        None,
    );
    let mut seen = Vec::new();
    draw.settle_closes(|removal| {
        seen.push(removal);
        match seen.len() {
            1 => CloseVerdict::Close { successor: Some(TabIndex(4)) },
            2 => CloseVerdict::Focus,
            3 => CloseVerdict::Focus,
            _ => CloseVerdict::Ignore,
        }
    });
    assert_eq!(seen.len(), 4, "every close is asked about, once");
    assert_eq!(seen[3], TabRemoval::Tab { path: tab(0, 2), successor: None });
    assert_eq!(
        kinds(draw.mutations()),
        vec![
            "measured 1.5",
            "close 0:0 Some(4)",
            "activate 0:1",
            "focus 0",
            "focus 3",
        ]
    );
    assert_eq!(draw.events(), &vec![DockEvent::SeparatorDragging]);
}

#[test]
fn a_frame_settled_with_plain_closes_is_unchanged() {
    let mut draw: DockDraw<f32> = DockDraw::new(vec![], vec![close(0, 0), close(1, 1)], None);
    draw.settle_closes(|_| CloseVerdict::Close { successor: None });
    assert_eq!(kinds(draw.mutations()), vec!["close 0:0 None", "close 1:1 None"]);
}

#[test]
fn the_requests_are_applied_in_the_one_order() {
    let source = DragSource { surface: SurfaceIndex::main(), node: NodeId(0), tab: TabId(0) };
    let draw: DockDraw<f32> = DockDraw::new(
        vec![],
        vec![
            DockMutation::Focus(leaf(9)),                          // 0
            close(0, 0),                                           // 1
            DockMutation::Activate(tab(0, 1)),                     // 2
            DockMutation::Detach(tab(1, 0)),                       // 3
            DockMutation::MoveTab {                                // 4
                source,
                destination: TabDestination::Node(leaf(2), TabInsert::Append),
            },
            close(0, 2),                                           // 5
            DockMutation::Measured(0.25),                          // 6
            DockMutation::Detach(tab(1, 1)),                       // 7
            DockMutation::Focus(leaf(8)),                          // 8
            DockMutation::SetLeafCollapsed { path: leaf(1), collapsed: true }, // 9
        ],
        None,
    );
    assert_eq!(draw.apply_order(), vec![2, 6, 9, 7, 5, 3, 1, 4, 8]);
    assert_eq!(draw.new_focused(), Some(leaf(8)));
}

#[test]
fn a_frame_with_no_focus_request_moves_no_focus() {
    let draw: DockDraw<f32> = DockDraw::new(vec![], vec![close(0, 0)], None);
    assert_eq!(draw.apply_order(), vec![0]);
    assert_eq!(draw.new_focused(), None);
}

#[test]
fn a_removal_keeps_its_successor_only_for_a_tab() {
    let r = TabRemoval::Tab { path: tab(0, 0), successor: None };
    assert_eq!(
        r.with_successor(Some(TabIndex(1))),
        TabRemoval::Tab { path: tab(0, 0), successor: Some(TabIndex(1)) }
    );
    let w = TabRemoval::Window(SurfaceIndex(2));
    assert_eq!(w.with_successor(Some(TabIndex(1))), w);
}

#[test]
fn pushing_an_event_keeps_the_earlier_ones() {
    let mut draw: DockDraw<f32> = DockDraw::new(vec![DockEvent::LayoutCommitted], vec![], None);
    draw.push_event(DockEvent::CrossSplitTransposed);
    assert_eq!(
        draw.events(),
        &vec![DockEvent::LayoutCommitted, DockEvent::CrossSplitTransposed]
    );
    assert!(draw.dragging().is_none());
}
