use egui_dockyard::cross_split::transpose_cross_split;
use egui_dockyard::dock_state::DockState;
use egui_dockyard::drag::{DragSource, TabDestination};
use egui_dockyard::events::DockEvent;
use egui_dockyard::mutation::{DockDraw, DockMutation, TabRemoval};
use egui_dockyard::node::{Node, SplitNode};
use egui_dockyard::{NodeId, NodePath, Split, SurfaceIndex, TabId, TabIndex, TabInsert, TabPath};

fn main_leaf() -> NodePath {
    NodePath::new(SurfaceIndex::main(), NodeId(0))
}

fn at(i: usize) -> TabPath {
    TabPath::at(main_leaf(), TabIndex(i))
}

fn tabs_of(dock: &DockState<&'static str>, path: NodePath) -> Vec<&'static str> {
    dock.leaf(path).unwrap().tabs().clone()
}

fn rect() -> egui::Rect {
    egui::Rect::from_min_size(egui::Pos2::new(0.0, 0.0), egui::Vec2::new(10.0, 10.0))
}

#[test]
fn a_frame_is_put_on_the_dock_in_its_order_and_reports_what_it_closed() {
    let mut dock = DockState::new(vec!["a", "b", "c"]);
    let window = dock.add_window(vec!["w"]);
    let draw: DockDraw<f32> = DockDraw::new(
        vec![DockEvent::SeparatorDragging],
        vec![
            DockMutation::Activate(at(1)),
            DockMutation::Remove(TabRemoval::Tab { path: at(0), successor: None }),
            DockMutation::Detach(at(2)),
            DockMutation::Remove(TabRemoval::Window(window)),
            DockMutation::Focus(main_leaf()),
        ],
        None,
    );
    let response = draw.apply(&mut dock);
    // The window goes first, then the detach of `c`, then the close of `a`: later cuts first.
    assert_eq!(response.closed, vec!["w", "a"]);
    assert_eq!(response.events, vec![DockEvent::SeparatorDragging, DockEvent::LayoutCommitted, DockEvent::LayoutCommitted, DockEvent::LayoutCommitted, DockEvent::LayoutCommitted, DockEvent::LayoutCommitted]);
    assert_eq!(tabs_of(&dock, main_leaf()), vec!["b"]);
    assert_eq!(dock.leaf(main_leaf()).unwrap().active(), Some(TabId(1)));
    assert_eq!(dock.surface_count(), 3);
    assert!(!dock.is_surface_valid(window));
    assert_eq!(tabs_of(&dock, NodePath::new(SurfaceIndex(2), NodeId(0))), vec!["c"]);
    assert_eq!(dock.focused(), Some(main_leaf()));
}

#[test]
fn a_request_that_finds_nothing_reports_nothing() {
    let mut dock = DockState::new(vec!["a", "b"]);
    dock.set_focus(main_leaf());
    let gone = DragSource { surface: SurfaceIndex::main(), node: NodeId(0), tab: TabId(7) };
    let draw: DockDraw<f32> = DockDraw::new(
        vec![],
        vec![
            DockMutation::Activate(at(0)),
            DockMutation::Remove(TabRemoval::Tab { path: at(5), successor: None }),
            DockMutation::Remove(TabRemoval::Node(NodePath::new(SurfaceIndex::main(), NodeId(9)))),
            DockMutation::Remove(TabRemoval::Window(SurfaceIndex::main())),
            DockMutation::Detach(at(3)),
            DockMutation::MoveTab { source: gone, destination: TabDestination::Window(rect()) },
            DockMutation::Focus(main_leaf()),
            DockMutation::Measured(0.5),
        ],
        None,
    );
    let response = draw.apply(&mut dock);
    assert!(response.closed.is_empty());
    assert!(response.events.is_empty());
    assert_eq!(tabs_of(&dock, main_leaf()), vec!["a", "b"]);
    assert_eq!(dock.surface_count(), 1);
}

#[test]
fn closing_a_node_hands_back_its_tabs_in_order() {
    let mut dock = DockState::new(vec!["a", "b", "c"]);
    let draw: DockDraw<f32> =
        DockDraw::new(vec![], vec![DockMutation::Remove(TabRemoval::Node(main_leaf()))], None);
    let response = draw.apply(&mut dock);
    assert_eq!(response.closed, vec!["a", "b", "c"]);
    assert_eq!(response.events, vec![DockEvent::LayoutCommitted]);
    assert!(dock.node(main_leaf()).is_err());
}

#[test]
fn closing_the_shown_tab_shows_the_named_successor_or_the_one_beside_it() {
    let mut dock = DockState::new(vec!["a", "b", "c"]);
    assert_eq!(dock.close_tab(at(0), Some(TabIndex(1))), Some("a"));
    assert_eq!(dock.leaf(main_leaf()).unwrap().active(), Some(TabId(2)));
    assert_eq!(dock.close_tab(at(1), None), Some("c"));
    assert_eq!(dock.leaf(main_leaf()).unwrap().active(), Some(TabId(1)));
    assert_eq!(dock.close_tab(at(4), None), None);
    assert!(dock.activate_tab(at(0)) == false);
}

#[test]
fn a_drop_moves_the_tab_where_it_was_aimed() {
    let mut dock = DockState::new(vec!["a", "b", "c"]);
    // Onto its own bar: after the tab beside it.
    assert!(dock.move_tab(at(0), TabDestination::Node(main_leaf(), TabInsert::Insert(TabIndex(2)))));
    assert_eq!(tabs_of(&dock, main_leaf()), vec!["b", "a", "c"]);
    assert_eq!(dock.leaf(main_leaf()).unwrap().tab_id_at(TabIndex(1)), Some(TabId(0)));
    // Where it already is: nothing changes.
    assert!(!dock.move_tab(at(1), TabDestination::Node(main_leaf(), TabInsert::Insert(TabIndex(2)))));
    assert!(!dock.move_tab(at(2), TabDestination::Node(main_leaf(), TabInsert::Append)));
    // Into a window of its own.
    assert!(dock.move_tab(at(2), TabDestination::Window(rect())));
    let window = NodePath::new(SurfaceIndex(1), NodeId(0));
    assert_eq!(tabs_of(&dock, window), vec!["c"]);
    // Onto another leaf: under a fresh identity, shown there.
    assert!(dock.move_tab(at(0), TabDestination::Node(window, TabInsert::Insert(TabIndex(0)))));
    assert_eq!(tabs_of(&dock, window), vec!["b", "c"]);
    assert_eq!(dock.leaf(window).unwrap().active(), Some(TabId(1)));
    assert_eq!(tabs_of(&dock, main_leaf()), vec!["a"]);
}

#[test]
fn a_drop_beside_a_node_splits_it_and_relinks_what_pointed_at_it() {
    let mut dock = DockState::new(vec!["a", "b"]);
    assert!(dock.move_tab(at(1), TabDestination::Node(main_leaf(), TabInsert::Split(Split::Left))));
    assert_eq!(dock.main_surface().root(), Some(NodeId(2)));
    match dock.node(NodePath::new(SurfaceIndex::main(), NodeId(2))).unwrap() {
        Node::Split(split) => {
            assert!(split.horizontal);
            assert_eq!(split.children, vec![NodeId(1), NodeId(0)]);
        }
        _ => panic!("the joint is a split"),
    }
    assert_eq!(tabs_of(&dock, NodePath::new(SurfaceIndex::main(), NodeId(1))), vec!["b"]);
    assert_eq!(tabs_of(&dock, main_leaf()), vec!["a"]);
    // Splitting a leaf with its only tab changes nothing.
    assert!(!dock.move_tab(at(0), TabDestination::Node(main_leaf(), TabInsert::Split(Split::Below))));
    // Below the new leaf: the old link to it, in the joint, now points at the new joint.
    let new_leaf = NodePath::new(SurfaceIndex::main(), NodeId(1));
    assert!(dock.move_tab(at(0), TabDestination::Node(new_leaf, TabInsert::Split(Split::Below))));
    match dock.node(NodePath::new(SurfaceIndex::main(), NodeId(2))).unwrap() {
        Node::Split(split) => assert_eq!(split.children, vec![NodeId(4), NodeId(0)]),
        _ => panic!("the joint is a split"),
    }
    match dock.node(NodePath::new(SurfaceIndex::main(), NodeId(4))).unwrap() {
        Node::Split(split) => {
            assert!(!split.horizontal);
            assert_eq!(split.children, vec![NodeId(1), NodeId(3)]);
        }
        _ => panic!("the new joint is a split"),
    }
}

#[test]
fn a_drop_onto_an_empty_surface_makes_the_tab_its_root() {
    let mut dock = DockState::new(vec!["a", "b"]);
    let window = dock.add_window(vec![]);
    assert!(dock.move_tab(at(1), TabDestination::EmptySurface(window)));
    let root = dock.surface(window).unwrap().root().unwrap();
    assert_eq!(root, NodeId(1));
    assert_eq!(tabs_of(&dock, NodePath::new(window, root)), vec!["b"]);
    assert_eq!(tabs_of(&dock, main_leaf()), vec!["a"]);
}

#[test]
fn the_focus_is_announced_only_when_it_moves() {
    let mut dock = DockState::new(vec!["a"]);
    assert!(dock.set_focus(main_leaf()));
    assert!(!dock.set_focus(main_leaf()));
    assert_eq!(dock.focused(), Some(main_leaf()));
}

#[test]
fn folding_stowing_and_minimizing_are_announced_only_when_they_change_something() {
    let mut dock = DockState::new(vec!["a"]);
    let window = dock.add_window(vec!["w"]);
    let split = dock
        .push_node(SurfaceIndex::main(), Node::Split(SplitNode { horizontal: true, children: vec![NodeId(0)], stowed: false }))
        .unwrap();
    let split_path = NodePath::new(SurfaceIndex::main(), split);
    let draw: DockDraw<f32> = DockDraw::new(
        vec![],
        vec![
            DockMutation::SetLeafCollapsed { path: main_leaf(), collapsed: true },
            DockMutation::SetLeafCollapsed { path: main_leaf(), collapsed: true },
            DockMutation::SetSplitStowed { path: split_path, stowed: true },
            DockMutation::SetSplitStowed { path: main_leaf(), stowed: true },
            DockMutation::SetWindowMinimized { surface: window, minimized: true },
            DockMutation::SetWindowMinimized { surface: SurfaceIndex::main(), minimized: true },
            DockMutation::WindowShown { surface: window, took_expanded_height: false },
        ],
        None,
    );
    let response = draw.apply(&mut dock);
    assert_eq!(response.events, vec![DockEvent::LayoutCommitted; 3]);
    assert!(dock.leaf(main_leaf()).unwrap().is_collapsed());
    match dock.node(split_path).unwrap() {
        Node::Split(s) => assert!(s.stowed),
        _ => panic!("still a split"),
    }
    assert!(dock.surface(window).unwrap().is_minimized());
    assert!(!dock.main_surface().is_minimized());
}

fn split_at(dock: &DockState<&'static str>, id: usize) -> (bool, Vec<NodeId>) {
    match dock.node(NodePath::new(SurfaceIndex::main(), NodeId(id))).unwrap() {
        Node::Split(s) => (s.horizontal, s.children.clone()),
        _ => panic!("node {id} is a split"),
    }
}

#[test]
fn a_transposition_is_written_over_the_splits_it_reuses() {
    let main = SurfaceIndex::main();
    let mut dock = DockState::new(vec!["p0"]);
    for tab in ["p1", "q0", "q1"] {
        dock.push_node(main, Node::leaf_with(vec![tab])).unwrap();
    }
    let stack = |children: Vec<NodeId>| Node::Split(SplitNode { horizontal: false, children, stowed: false });
    dock.push_node(main, stack(vec![NodeId(0), NodeId(1)])).unwrap();
    dock.push_node(main, stack(vec![NodeId(2), NodeId(3)])).unwrap();
    let outer = dock
        .push_node(main, Node::Split(SplitNode { horizontal: true, children: vec![NodeId(4), NodeId(5)], stowed: false }))
        .unwrap();
    assert!(dock.set_root(main, outer));
    let ids = |v: &[usize]| v.iter().map(|&n| NodeId(n)).collect::<Vec<_>>();
    let shape = transpose_cross_split(outer, true, &ids(&[0, 1]), &ids(&[4]), &ids(&[2, 3]), &ids(&[5]), 0, 0);
    let draw: DockDraw<f32> =
        DockDraw::new(vec![], vec![DockMutation::Transpose { surface: main, shape }], None);
    let response = draw.apply(&mut dock);
    assert!(response.events.is_empty());
    assert_eq!(split_at(&dock, 6), (false, ids(&[4, 5])));
    assert_eq!(split_at(&dock, 4), (true, ids(&[0, 2])));
    assert_eq!(split_at(&dock, 5), (true, ids(&[1, 3])));
    assert_eq!(dock.main_surface().root(), Some(NodeId(6)));
    // A shape that would write a split over a leaf is not written at all.
    let wrong = transpose_cross_split(NodeId(0), true, &ids(&[0, 1]), &ids(&[4]), &ids(&[2, 3]), &ids(&[5]), 0, 0);
    assert!(!dock.regroup(main, &wrong));
    assert_eq!(split_at(&dock, 4), (true, ids(&[0, 2])));
}

#[test]
fn closing_the_shown_tab_without_a_successor_returns_to_the_one_shown_before() {
    let mut dock = DockState::new(vec!["a", "b", "c", "d"]);
    assert!(dock.activate_tab(at(3)));
    assert!(dock.activate_tab(at(1)));
    // `b` is shown, `d` was shown before it: closing `b` goes back to `d`, not to `c` beside it.
    assert_eq!(dock.close_tab(at(1), None), Some("b"));
    assert_eq!(dock.leaf(main_leaf()).unwrap().active(), Some(TabId(3)));
    // `d` gone too, the history still remembers `a`.
    assert_eq!(dock.close_tab(at(2), None), Some("d"));
    assert_eq!(dock.leaf(main_leaf()).unwrap().active(), Some(TabId(0)));
}

#[test]
fn a_closed_node_is_unlinked_from_its_split_and_its_root() {
    let main = SurfaceIndex::main();
    let mut dock = DockState::new(vec!["a"]);
    let other = dock.push_node(main, Node::leaf_with(vec!["b"])).unwrap();
    let split = dock
        .push_node(main, Node::Split(SplitNode { horizontal: true, children: vec![NodeId(0), other], stowed: false }))
        .unwrap();
    assert!(dock.set_root(main, split));
    assert_eq!(dock.close_node(main_leaf()), Some(vec!["a"]));
    assert_eq!(split_at(&dock, split.0), (true, vec![other]));
    assert_eq!(dock.main_surface().root(), Some(split));
    assert_eq!(dock.close_node(NodePath::new(main, split)), Some(vec![]));
    assert_eq!(dock.main_surface().root(), None);
}
