use egui_dockyard::apply::{destination_is_live, drain_tabs};
use egui_dockyard::dock_state::DockState;
use egui_dockyard::drag::{TabDestination, TreeComponent};
use egui_dockyard::node::{Node, SplitNode};
use egui_dockyard::{NodeId, NodePath, Split, SurfaceIndex, TabIndex, TabInsert, TabPath};

/// A leaf on its way out hands its tabs over whole, and in the order it held them.
#[test]
fn a_drained_node_gives_up_every_tab_in_order() {
    let mut node = Node::leaf_with(vec!["A".to_owned(), "B".to_owned(), "C".to_owned()]);

    assert_eq!(drain_tabs(&mut node), ["A", "B", "C"]);
    assert_eq!(node.tabs_count(), 0, "and keeps none of them");
    assert!(
        drain_tabs(&mut node).is_empty(),
        "draining an emptied node asks for nothing more"
    );
}

#[test]
fn draining_a_split_takes_nothing_and_leaves_it_a_split() {
    let mut node: Node<&str> = Node::Split(SplitNode {
        horizontal: true,
        children: vec![NodeId(1), NodeId(2)],
        stowed: false,
    });
    assert!(drain_tabs(&mut node).is_empty());
    assert!(matches!(node, Node::Split(_)));
}

#[test]
fn drained_leaf_stays_a_leaf() {
    let mut node = Node::leaf_with(vec![1, 2]);
    assert_eq!(drain_tabs(&mut node), vec![1, 2]);
    assert!(node.is_leaf());
}

fn main_leaf() -> NodePath {
    NodePath::new(SurfaceIndex::main(), NodeId(0))
}

#[test]
fn a_window_destination_is_always_live() {
    let dock = DockState::new(vec!["a"]);
    let rect = egui::Rect::from_min_size(egui::Pos2::ZERO, egui::Vec2::new(10.0, 20.0));
    assert!(destination_is_live(&dock, TabDestination::Window(rect)));
}

#[test]
fn an_empty_surface_destination_lives_as_long_as_its_surface() {
    let mut dock = DockState::new(vec!["a"]);
    let window = dock.add_window(vec!["b"]);
    assert!(destination_is_live(&dock, TabDestination::EmptySurface(window)));
    assert!(dock.remove_window(window).is_some());
    assert!(!destination_is_live(&dock, TabDestination::EmptySurface(window)));
    assert!(destination_is_live(&dock, TabDestination::EmptySurface(SurfaceIndex::main())));
    assert!(!destination_is_live(&dock, TabDestination::EmptySurface(SurfaceIndex(7))));
}

#[test]
fn an_insertion_may_aim_at_the_far_edge_of_the_bar_but_not_past_it() {
    let mut dock = DockState::new(vec!["a", "b", "c"]);
    let at = |i| TabDestination::Node(main_leaf(), TabInsert::Insert(TabIndex(i)));
    assert!(destination_is_live(&dock, at(2)));
    assert!(destination_is_live(&dock, at(3)));
    assert!(!destination_is_live(&dock, at(4)));

    // A close shortens the bar to exactly the aimed-at index: "at the end" is still a slot.
    assert_eq!(dock.remove_tab(TabPath::at(main_leaf(), TabIndex(0))), Some("a"));
    assert!(destination_is_live(&dock, at(2)));
    assert!(!destination_is_live(&dock, at(3)));
}

#[test]
fn an_insertion_needs_a_leaf_but_an_append_or_split_takes_any_node() {
    let mut dock = DockState::new(vec!["a"]);
    let split = dock
        .push_node(
            SurfaceIndex::main(),
            Node::Split(SplitNode { horizontal: false, children: vec![NodeId(0)], stowed: false }),
        )
        .unwrap();
    let path = NodePath::new(SurfaceIndex::main(), split);
    assert!(!destination_is_live(&dock, TabDestination::Node(path, TabInsert::Insert(TabIndex(0)))));
    assert!(destination_is_live(&dock, TabDestination::Node(path, TabInsert::Append)));
    assert!(destination_is_live(&dock, TabDestination::Node(path, TabInsert::Split(Split::Left))));

    assert!(dock.remove_node(path).is_some());
    assert!(!destination_is_live(&dock, TabDestination::Node(path, TabInsert::Append)));
}

#[test]
fn a_destination_taken_from_a_hovered_node_dies_with_the_node() {
    let mut dock = DockState::new(vec!["a"]);
    let hovered = TreeComponent::Node(main_leaf());
    assert!(!hovered.node_is_gone(&dock));
    assert!(destination_is_live(&dock, hovered.as_tab_destination()));
    assert!(dock.remove_node(main_leaf()).is_some());
    assert!(hovered.node_is_gone(&dock));
    assert!(!destination_is_live(&dock, hovered.as_tab_destination()));
}
