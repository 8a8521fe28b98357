use egui_dockyard::dock_state::DockState;
use egui_dockyard::drag::{DragSource, TabDestination, TreeComponent};
use egui_dockyard::{NodeId, NodePath, SurfaceIndex, TabId, TabIndex, TabInsert, TabPath};

fn main_leaf() -> NodePath {
    NodePath::new(SurfaceIndex::main(), NodeId(0))
}

#[test]
fn a_carried_tab_is_found_where_it_is_now() {
    let mut dock = DockState::new(vec!["a", "b", "c"]);
    let source = DragSource { surface: SurfaceIndex::main(), node: NodeId(0), tab: TabId(2) };
    assert_eq!(source.resolve(&dock), Some(TabPath::at(main_leaf(), TabIndex(2))));
    assert_eq!(source.node_path(), main_leaf());

    // A neighbour to its left is closed: the carried tab is still carried, one slot further left.
    assert_eq!(dock.remove_tab(TabPath::at(main_leaf(), TabIndex(0))), Some("a"));
    assert_eq!(source.resolve(&dock), Some(TabPath::at(main_leaf(), TabIndex(1))));
}

#[test]
fn a_drag_whose_tab_was_closed_is_over() {
    let mut dock = DockState::new(vec!["a", "b"]);
    let source = DragSource { surface: SurfaceIndex::main(), node: NodeId(0), tab: TabId(0) };
    assert_eq!(dock.remove_tab(TabPath::at(main_leaf(), TabIndex(0))), Some("a"));
    assert_eq!(source.resolve(&dock), None);
    // Nor does a tab arriving afterwards inherit the identity.
    dock.push_tab(main_leaf(), "c");
    assert_eq!(source.resolve(&dock), None);
}

#[test]
fn a_drag_from_a_leaf_that_is_gone_is_over() {
    let mut dock = DockState::new(vec!["a"]);
    let w = dock.add_window(vec!["w"]);
    let source = DragSource { surface: w, node: NodeId(0), tab: TabId(0) };
    assert_eq!(source.resolve(&dock), Some(TabPath::new(w, NodeId(0), TabIndex(0))));
    dock.remove_window(w);
    assert_eq!(source.resolve(&dock), None);
}

#[test]
fn a_component_names_its_surface_and_node() {
    let tab = TabPath::new(SurfaceIndex::window(1), NodeId(4), TabIndex(3));
    let node = NodePath::new(SurfaceIndex::window(0), NodeId(2));
    let surface = TreeComponent::Surface(SurfaceIndex::window(2));

    assert_eq!(TreeComponent::Tab(tab).node_address(), (SurfaceIndex(2), Some(NodeId(4))));
    assert_eq!(TreeComponent::Node(node).node_address(), (SurfaceIndex(1), Some(NodeId(2))));
    assert_eq!(surface.node_address(), (SurfaceIndex(3), None));
    assert_eq!(TreeComponent::Tab(tab).surface_address(), SurfaceIndex(2));
    assert_eq!(surface.surface_address(), SurfaceIndex(3));
    assert!(surface.is_surface());
    assert!(!TreeComponent::Node(node).is_surface());
}

#[test]
fn dropping_onto_a_component_means_what_it_is() {
    let tab = TabPath::new(SurfaceIndex::main(), NodeId(4), TabIndex(3));
    assert_eq!(
        TreeComponent::Tab(tab).as_tab_destination(),
        TabDestination::Node(tab.node_path(), TabInsert::Insert(TabIndex(3)))
    );
    assert_eq!(
        TreeComponent::Node(main_leaf()).as_tab_destination(),
        TabDestination::Node(main_leaf(), TabInsert::Append)
    );
    assert_eq!(
        TreeComponent::Surface(SurfaceIndex(1)).as_tab_destination(),
        TabDestination::EmptySurface(SurfaceIndex(1))
    );
}

#[test]
fn a_surface_never_goes_stale_but_a_node_does() {
    let mut dock = DockState::new(vec!["a"]);
    assert!(!TreeComponent::Surface(SurfaceIndex(9)).node_is_gone(&dock));
    let tab = TreeComponent::Tab(TabPath::at(main_leaf(), TabIndex(5)));
    assert!(!tab.node_is_gone(&dock));
    dock.remove_node(main_leaf());
    assert!(tab.node_is_gone(&dock));
}
