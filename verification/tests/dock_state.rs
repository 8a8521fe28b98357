use egui_dockyard::dock_state::{DockState, NodeError};
use egui_dockyard::leaf::LeafNode;
use egui_dockyard::node::{Node, SplitNode};
use egui_dockyard::{NodeId, NodePath, SurfaceIndex, TabId, TabIndex, TabPath};

#[test]
fn a_new_dock_is_one_leaf_on_the_main_surface() {
    let dock = DockState::new(vec!["a tab", "another tab"]);
    assert_eq!(dock.surface_count(), 1);
    let root = dock.main_surface().root().unwrap();
    assert_eq!(root, NodeId(0));
    let leaf = dock.leaf(NodePath::new(SurfaceIndex::main(), root)).unwrap();
    assert_eq!(leaf.len(), 2);
    assert_eq!(leaf.tabs(), &vec!["a tab", "another tab"]);
    assert_eq!(leaf.tab_id_at(TabIndex(0)), Some(TabId(0)));
    assert_eq!(leaf.tab_id_at(TabIndex(1)), Some(TabId(1)));
    assert_eq!(leaf.tab_id_at(TabIndex(2)), None);
}

#[test]
fn a_lookup_says_why_it_found_nothing() {
    let mut dock = DockState::new(vec!["a"]);
    let split = dock
        .push_node(SurfaceIndex::main(), Node::Split(SplitNode { horizontal: true, children: vec![], stowed: false }))
        .unwrap();
    assert_eq!(split, NodeId(1));
    let split_path = NodePath::new(SurfaceIndex::main(), split);
    assert!(dock.node(split_path).is_ok());
    assert_eq!(dock.leaf(split_path).err(), Some(NodeError::NotALeaf));
    assert_eq!(
        dock.node(NodePath::new(SurfaceIndex::main(), NodeId(5))).err(),
        Some(NodeError::InvalidNode)
    );
    assert_eq!(
        dock.node(NodePath::new(SurfaceIndex::window(0), NodeId(0))).err(),
        Some(NodeError::InvalidSurface)
    );
}

#[test]
fn a_closed_neighbour_leaves_a_tab_its_identity() {
    let mut dock = DockState::new(vec!["first", "second", "third"]);
    let path = NodePath::new(SurfaceIndex::main(), dock.main_surface().root().unwrap());
    let closed = dock.leaf(path).unwrap().tab_id_at(TabIndex(1)).unwrap();
    let survivor = dock.leaf(path).unwrap().tab_id_at(TabIndex(2)).unwrap();

    assert_eq!(dock.remove_tab(TabPath::at(path, TabIndex(1))), Some("second"));
    let leaf = dock.leaf(path).unwrap();
    assert_eq!(leaf.len(), 2, "the scene has to have done the removal");
    assert_eq!(leaf.tab_id_at(TabIndex(1)), Some(survivor));
    assert_ne!(leaf.tab_id_at(TabIndex(1)), Some(closed));
    assert_eq!(leaf.index_of(closed), None);
    assert_eq!(leaf.index_of(survivor), Some(TabIndex(1)));
}

#[test]
fn an_identity_is_never_handed_out_twice() {
    let mut leaf = LeafNode::with_tabs(vec!["a", "b"]);
    let b = leaf.tab_id_at(TabIndex(1)).unwrap();
    assert_eq!(leaf.remove_tab(TabIndex(1)), Some("b"));
    let c = leaf.push_tab("c").unwrap();
    assert_ne!(c, b);
    assert_eq!(c, TabId(2));
    assert_eq!(leaf.index_of(b), None);
    assert_eq!(leaf.index_of(c), Some(TabIndex(1)));
    let d = leaf.insert_tab(TabIndex(0), "d").unwrap();
    assert_eq!(d, TabId(3));
    assert_eq!(leaf.tabs(), &vec!["d", "a", "c"]);
    assert_eq!(leaf.index_of(c), Some(TabIndex(2)));
}

#[test]
fn a_removal_past_the_end_of_the_bar_changes_nothing() {
    let mut dock = DockState::new(vec!["a"]);
    let path = NodePath::new(SurfaceIndex::main(), NodeId(0));
    assert_eq!(dock.remove_tab(TabPath::at(path, TabIndex(1))), None);
    assert_eq!(dock.leaf(path).unwrap().len(), 1);
    assert_eq!(dock.push_tab(path, "b"), Some(TabId(1)));
    assert_eq!(dock.leaf(path).unwrap().tabs(), &vec!["a", "b"]);
    assert_eq!(dock.push_tab(NodePath::new(SurfaceIndex::main(), NodeId(3)), "c"), None);
}

#[test]
fn a_removed_node_identity_names_nothing_again() {
    let mut dock = DockState::new(vec!["a"]);
    let path = NodePath::new(SurfaceIndex::main(), NodeId(0));
    let node = dock.remove_node(path).unwrap();
    assert_eq!(node.tabs_count(), 1);
    assert!(dock.node(path).is_err());
    let again = dock.push_node(SurfaceIndex::main(), Node::leaf_with(vec!["b"])).unwrap();
    assert_eq!(again, NodeId(1));
    assert!(dock.node(path).is_err());
    assert!(dock.set_root(SurfaceIndex::main(), again));
    assert!(!dock.set_root(SurfaceIndex::main(), NodeId(0)));
    assert_eq!(dock.main_surface().root(), Some(NodeId(1)));
}

#[test]
fn windows_come_and_go_but_the_main_surface_stays() {
    let mut dock = DockState::new(vec!["a"]);
    let w = dock.add_window(vec!["w"]);
    assert_eq!(w, SurfaceIndex::window(0));
    assert!(w.is_window());
    assert!(dock.is_surface_valid(w));
    assert!(dock.remove_window(SurfaceIndex::main()).is_none());
    let removed = dock.remove_window(w).unwrap();
    assert_eq!(removed.node_count(), 1);
    assert!(!dock.is_surface_valid(w));
    let w2 = dock.add_window(vec!["x"]);
    assert_ne!(w2, w);
    assert!(dock.is_surface_valid(SurfaceIndex::main()));
    assert!(SurfaceIndex::main().is_main());
}
