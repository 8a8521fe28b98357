//! What a drag carries and where it can put it down.
//!
//! The carried tab is held by **identity** ([`DragSource`]), because a drag outlives the frame it
//! started in and the leaf it came from can be edited while it is in flight: a position would
//! name a different tab, or none, after a neighbour is closed. The destination half is a
//! [`TreeComponent`], and what a drop onto it means is a [`TabDestination`].

use vstd::prelude::*;

use crate::address::{NodeId, NodePath, SurfaceIndex, TabId, TabIndex, TabInsert, TabPath};
use crate::dock_state::{closes_tab, leaf_at, node_at, node_error, DockState, SurfaceView};
use crate::leaf::lemma_removal_keeps_identities;

verus! {

/// The rectangle a new floating window is given, as the drawing code measured it.
#[verifier::external_type_specification]
#[verifier::external_body]
pub struct ExRect(egui::Rect);

/// Where a dragged tab is dropped.
#[derive(Clone, Copy, Debug, PartialEq)]
pub enum TabDestination {
    /// Into a new floating window, placed at this rectangle.
    Window(egui::Rect),
    /// Into the node at this path, the way `TabInsert` says.
    Node(NodePath, TabInsert),
    /// Into a surface that has no node at all.
    EmptySurface(SurfaceIndex),
}

/// The tab a drag is carrying, addressed by identity.
#[derive(Clone, Copy, Debug, PartialEq, Eq, Structural)]
pub struct DragSource {
    /// The surface the tab was picked up from.
    pub surface: SurfaceIndex,
    /// The leaf it came out of.
    pub node: NodeId,
    /// The tab itself, by the identity its leaf handed out.
    pub tab: TabId,
}

/// Where the tab `source` carries sits in the dock `dock` now, or `None` if it has left the tree.
pub open spec fn spec_resolve<Tab>(dock: Seq<Option<SurfaceView<Tab>>>, source: DragSource) -> Option<
    TabPath,
> {
    match leaf_at(dock, NodePath { surface: source.surface, node: source.node }) {
        Some(leaf) => match leaf@.position_of(source.tab) {
            Some(i) => Some(
                TabPath { surface: source.surface, node: source.node, tab: TabIndex(i as usize) },
            ),
            None => None,
        },
        None => None,
    }
}

/// Closing a tab ends exactly the drags that carried it.
///
/// After the tab at `path` is closed, a drag whose tab is that one resolves to nothing, and every
/// other drag resolves exactly when it did before — to the same tab, which in the closed tab's
/// leaf may now sit one position further left.
pub proof fn lemma_close_ends_only_its_own_drag<Tab>(
    before: Seq<Option<SurfaceView<Tab>>>,
    after: Seq<Option<SurfaceView<Tab>>>,
    path: TabPath,
    source: DragSource,
)
    requires
        closes_tab(before, after, path),
        leaf_at(before, path.spec_node_path())->0.wf(),
    ensures
        ({
            let closed = leaf_at(before, path.spec_node_path())->0@.ids[path.tab.0 as int];
            &&& source.spec_node_path() == path.spec_node_path() && source.tab == closed
                ==> spec_resolve(after, source) is None
            &&& !(source.spec_node_path() == path.spec_node_path() && source.tab == closed) ==> {
                &&& spec_resolve(after, source) is Some <==> spec_resolve(before, source) is Some
                &&& leaf_at(before, source.spec_node_path())->0@.position_of(source.tab) matches Some(
                    i,
                ) ==> leaf_at(after, source.spec_node_path())->0@.position_of(source.tab) matches Some(
                    j,
                ) && leaf_at(after, source.spec_node_path())->0@.tabs[j] == leaf_at(
                    before,
                    source.spec_node_path(),
                )->0@.tabs[i]
            }
        }),
{
    let np = path.spec_node_path();
    let l = leaf_at(before, np)->0@;
    let k = path.tab.0 as int;
    let sp = source.spec_node_path();
    if sp == np {
        lemma_removal_keeps_identities(l, k, source.tab);
        if l.position_of(source.tab) is Some {
            let i = l.position_of(source.tab)->0;
            assert(0 <= i < l.ids.len()) by {
                assert(l.ids.contains(source.tab));
            }
        }
        if l.removed(k).position_of(source.tab) is Some {
            let j = l.removed(k).position_of(source.tab)->0;
            assert(0 <= j < l.removed(k).ids.len()) by {
                assert(l.removed(k).ids.contains(source.tab));
            }
        }
    } else {
        assert(node_at(after, sp) == node_at(before, sp)) by {
            let si = sp.surface.0 as int;
            if si < before.len() && before[si] is Some {
                assert(after[si] is Some);
                let n = sp.node.0 as int;
                if n < before[si]->0.nodes.len() {
                    assert(after[si]->0.nodes[n] == before[si]->0.nodes[n]);
                }
            } else if si < before.len() {
                assert(!(after[si] is Some));
            }
        }
    }
}

impl DragSource {
    pub open spec fn spec_node_path(&self) -> NodePath {
        NodePath { surface: self.surface, node: self.node }
    }

    /// Where the dragged tab sits now, or `None` if it has left the tree.
    pub fn resolve<Tab>(&self, dock_state: &DockState<Tab>) -> (path: Option<TabPath>)
        requires
            dock_state.wf(),
        ensures
            path == spec_resolve(dock_state@, *self),
    {
        let leaf = match dock_state.leaf(NodePath::new(self.surface, self.node)) {
            Ok(leaf) => leaf,
            Err(_) => return None,
        };
        proof {
            let ghost l = leaf_at(dock_state@, self.spec_node_path())->0;
            assert(dock_state@[self.surface.0 as int]->0.wf());
            assert(l.wf());
        }
        let tab = match leaf.index_of(self.tab) {
            Some(tab) => tab,
            None => return None,
        };
        Some(TabPath::new(self.surface, self.node, tab))
    }

    /// The leaf the tab was picked up from, as one address.
    #[verifier::when_used_as_spec(spec_node_path)]
    pub fn node_path(&self) -> (path: NodePath)
        ensures
            path.surface == self.surface,
            path.node == self.node,
    {
        NodePath::new(self.surface, self.node)
    }
}

/// What the pointer is over while a tab is carried: a whole (empty) surface, a node, or one tab
/// of a bar.
#[derive(Clone, Copy, Debug, PartialEq, Eq, Structural)]
pub enum TreeComponent {
    Surface(SurfaceIndex),
    Node(NodePath),
    Tab(TabPath),
}

impl TreeComponent {
    /// The surface this addresses, and the node on it if it addresses one.
    pub open spec fn spec_node_address(&self) -> (SurfaceIndex, Option<NodeId>) {
        match *self {
            TreeComponent::Surface(surface) => (surface, None),
            TreeComponent::Node(dst) => (dst.surface, Some(dst.node)),
            TreeComponent::Tab(dst) => (dst.surface, Some(dst.node)),
        }
    }

    pub open spec fn spec_as_tab_destination(&self) -> TabDestination {
        match *self {
            TreeComponent::Surface(surface) => TabDestination::EmptySurface(surface),
            TreeComponent::Node(dst) => TabDestination::Node(dst, TabInsert::Append),
            TreeComponent::Tab(dst) => TabDestination::Node(
                dst.spec_node_path(),
                TabInsert::Insert(dst.tab),
            ),
        }
    }

    /// Whether the node this addresses has left the dock `dock`.
    pub open spec fn spec_node_is_gone<Tab>(&self, dock: Seq<Option<SurfaceView<Tab>>>) -> bool {
        match self.spec_node_address() {
            (surface, Some(node)) => node_error(dock, NodePath { surface, node }) is Some,
            (_, None) => false,
        }
    }

    /// What dropping onto this means: onto a surface, into the empty surface; onto a node,
    /// appended to it; onto a tab, inserted where that tab is.
    #[verifier::when_used_as_spec(spec_as_tab_destination)]
    pub fn as_tab_destination(&self) -> (d: TabDestination)
        ensures
            d == self.spec_as_tab_destination(),
    {
        match *self {
            TreeComponent::Surface(surface) => TabDestination::EmptySurface(surface),
            TreeComponent::Node(dst) => TabDestination::Node(dst, TabInsert::Append),
            TreeComponent::Tab(dst) => TabDestination::Node(
                dst.node_path(),
                TabInsert::Insert(dst.tab),
            ),
        }
    }

    /// The surface this addresses, and the node on it if it addresses one.
    #[verifier::when_used_as_spec(spec_node_address)]
    pub fn node_address(&self) -> (a: (SurfaceIndex, Option<NodeId>))
        ensures
            a == self.spec_node_address(),
    {
        match *self {
            TreeComponent::Surface(surface) => (surface, None),
            TreeComponent::Node(dst) => (dst.surface, Some(dst.node)),
            TreeComponent::Tab(dst) => (dst.surface, Some(dst.node)),
        }
    }

    /// The surface this addresses, whichever kind of address it is.
    pub fn surface_address(&self) -> (surface: SurfaceIndex)
        ensures
            surface == self.spec_node_address().0,
    {
        match *self {
            TreeComponent::Surface(surface) => surface,
            TreeComponent::Node(NodePath { surface, .. }) => surface,
            TreeComponent::Tab(TabPath { surface, .. }) => surface,
        }
    }

    /// Whether this addresses a whole surface rather than a node or a tab.
    pub fn is_surface(&self) -> (b: bool)
        ensures
            b <==> *self is Surface,
    {
        match self {
            TreeComponent::Surface(_) => true,
            _ => false,
        }
    }

    /// Whether the node this addresses has left its tree since this was recorded. A surface
    /// addresses no node, and never goes stale this way.
    pub fn node_is_gone<Tab>(&self, dock_state: &DockState<Tab>) -> (gone: bool)
        ensures
            gone == self.spec_node_is_gone(dock_state@),
    {
        match self.node_address() {
            (surface, Some(node)) => dock_state.node(NodePath::new(surface, node)).is_err(),
            (_, None) => false,
        }
    }
}

} // verus!
