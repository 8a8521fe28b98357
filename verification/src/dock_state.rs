//! The whole dock: the main surface and the floating windows, each a tree of nodes.
//!
//! Nodes are kept in an arena per surface and addressed by their place in it. A removed node
//! leaves an empty slot behind rather than letting the arena close up, so a [`NodeId`] is never
//! handed to a second node; a removed window likewise leaves its slot empty.

use vstd::prelude::*;

use crate::address::{NodeId, NodePath, SurfaceIndex, TabId, TabIndex, TabPath};
use crate::leaf::{LeafNode, LeafView};
use crate::node::{Node, SplitNode};
use crate::apply::drain_tabs;

verus! {

/// Why a path names no node (or no leaf) of a dock.
#[derive(Clone, Copy, Debug, PartialEq, Eq, Structural)]
pub enum NodeError {
    /// No surface (or no longer one) at this index.
    InvalidSurface,
    /// The surface holds no node (or no longer one) under this identity.
    InvalidNode,
    /// The node exists but is not a leaf.
    NotALeaf,
}

/// One surface: the nodes it has ever held, by identity, and the root of its tree.
pub struct Surface<Tab> {
    nodes: Vec<Node<Tab>>,
    root: Option<NodeId>,
    minimized: bool,
}

/// The abstract contents of a surface.
pub struct SurfaceView<Tab> {
    pub nodes: Seq<Node<Tab>>,
    pub root: Option<NodeId>,
    /// Whether the surface, a floating window, is minimized to its title bar.
    pub minimized: bool,
}

impl<Tab> View for Surface<Tab> {
    type V = SurfaceView<Tab>;

    closed spec fn view(&self) -> SurfaceView<Tab> {
        SurfaceView { nodes: self.nodes@, root: self.root, minimized: self.minimized }
    }
}

impl<Tab> SurfaceView<Tab> {
    /// Every node of the surface is well formed.
    pub open spec fn wf(self) -> bool {
        forall|i: int| 0 <= i < self.nodes.len() ==> (#[trigger] self.nodes[i]).wf()
    }

    /// The node with identity `id`, unless there never was one or it has been removed.
    pub open spec fn node_at(self, id: NodeId) -> Option<Node<Tab>> {
        if id.0 < self.nodes.len() && !(self.nodes[id.0 as int] is Empty) {
            Some(self.nodes[id.0 as int])
        } else {
            None
        }
    }
}

impl<Tab> Surface<Tab> {
    /// The root of this surface's tree, if it has one.
    pub fn root(&self) -> (root: Option<NodeId>)
        ensures
            root == self@.root,
    {
        self.root
    }

    /// Whether this surface, a floating window, is minimized to its title bar.
    pub fn is_minimized(&self) -> (b: bool)
        ensures
            b == self@.minimized,
    {
        self.minimized
    }

    /// How many node identities this surface has handed out.
    pub fn node_count(&self) -> (n: usize)
        ensures
            n == self@.nodes.len(),
    {
        self.nodes.len()
    }

    /// A surface whose tree is one leaf holding `tabs`.
    pub fn with_leaf(tabs: Vec<Tab>) -> (s: Surface<Tab>)
        requires
            tabs.len() < u64::MAX,
        ensures
            s@.wf(),
            s@.root == Some(NodeId(0)),
            !s@.minimized,
            s@.nodes.len() == 1,
            s@.nodes[0] is Leaf,
            s@.nodes[0].tabs_of() == tabs@,
            s@.nodes[0]->Leaf_0@.next_id == tabs.len(),
            forall|i: int| 0 <= i < tabs.len() ==> (#[trigger] s@.nodes[0]->Leaf_0@.ids[i]).0 == i,
            s@.nodes[0]->Leaf_0@.active == if tabs.len() == 0 {
                None
            } else {
                Some(TabId(0))
            },
            !s@.nodes[0]->Leaf_0@.collapsed,
            s@.nodes[0]->Leaf_0@.history == Seq::<TabId>::empty(),
    {
        let mut nodes: Vec<Node<Tab>> = Vec::new();
        nodes.push(Node::leaf_with(tabs));
        Surface { nodes, root: Some(NodeId(0)), minimized: false }
    }

    /// Take every tab out of every node of this surface, node by node, each node's tabs left to
    /// right.
    pub fn drain_all(self) -> (taken: Vec<Tab>)
        requires
            self@.wf(),
        ensures
            taken@ == all_tabs(self@.nodes),
    {
        let ghost sv = self@;
        let mut nodes = self.nodes;
        let ghost orig = nodes@;
        proof {
            assert forall|m: int| 0 <= m < orig.len() implies (#[trigger] orig[m]).wf() by {
                assert(sv.nodes[m] == orig[m]);
            }
        }
        let n = nodes.len();
        let mut taken: Vec<Tab> = Vec::new();
        let mut k: usize = 0;
        while k < n
            invariant
                n == orig.len(),
                k <= n,
                nodes@.len() == n,
                forall|m: int| k <= m < n ==> #[trigger] nodes@[m] == orig[m],
                forall|m: int| 0 <= m < n ==> (#[trigger] orig[m]).wf(),
                taken@ == all_tabs(orig.subrange(0, k as int)),
            decreases n - k,
        {
            let mut node: Node<Tab> = Node::Empty;
            std::mem::swap(&mut node, &mut nodes[k]);
            assert(node == orig[k as int]);
            let mut t = drain_tabs(&mut node);
            taken.append(&mut t);
            proof {
                let pre = orig.subrange(0, k + 1);
                assert(pre.drop_last() =~= orig.subrange(0, k as int));
                assert(pre.last() == orig[k as int]);
            }
            k = k + 1;
        }
        proof {
            assert(orig.subrange(0, n as int) =~= orig);
        }
        taken
    }

    /// The node with identity `id`, if it is (still) there.
    pub fn node(&self, id: NodeId) -> (node: Option<&Node<Tab>>)
        ensures
            match self@.node_at(id) {
                Some(n) => node == Some(&n),
                None => node is None,
            },
    {
        if id.0 < self.nodes.len() && !self.nodes[id.0].is_empty() {
            Some(&self.nodes[id.0])
        } else {
            None
        }
    }
}

/// Everything a dock holds.
pub struct DockState<Tab> {
    surfaces: Vec<Option<Surface<Tab>>>,
    focused: Option<NodePath>,
}

impl<Tab> View for DockState<Tab> {
    type V = Seq<Option<SurfaceView<Tab>>>;

    closed spec fn view(&self) -> Seq<Option<SurfaceView<Tab>>> {
        self.surfaces@.map_values(|s: Option<Surface<Tab>>| match s {
            Some(s) => Some(s@),
            None => None,
        })
    }
}

/// The surface `surface` of the dock `dock`, if it exists.
pub open spec fn surface_of<Tab>(
    dock: Seq<Option<SurfaceView<Tab>>>,
    surface: SurfaceIndex,
) -> Option<SurfaceView<Tab>> {
    if surface.0 < dock.len() {
        dock[surface.0 as int]
    } else {
        None
    }
}

/// The node at `path` in the dock `dock`, if there is one.
pub open spec fn node_at<Tab>(dock: Seq<Option<SurfaceView<Tab>>>, path: NodePath) -> Option<
    Node<Tab>,
> {
    match surface_of(dock, path.surface) {
        Some(s) => s.node_at(path.node),
        None => None,
    }
}

/// The leaf at `path` in the dock `dock`, if the node there is one.
pub open spec fn leaf_at<Tab>(dock: Seq<Option<SurfaceView<Tab>>>, path: NodePath) -> Option<
    LeafNode<Tab>,
> {
    match node_at(dock, path) {
        Some(Node::Leaf(l)) => Some(l),
        _ => None,
    }
}

/// The error a lookup of the node at `path` answers with, if any.
pub open spec fn node_error<Tab>(dock: Seq<Option<SurfaceView<Tab>>>, path: NodePath) -> Option<
    NodeError,
> {
    match surface_of(dock, path.surface) {
        None => Some(NodeError::InvalidSurface),
        Some(s) => match s.node_at(path.node) {
            None => Some(NodeError::InvalidNode),
            Some(_) => None,
        },
    }
}

/// The error a lookup of the leaf at `path` answers with, if any.
pub open spec fn leaf_error<Tab>(dock: Seq<Option<SurfaceView<Tab>>>, path: NodePath) -> Option<
    NodeError,
> {
    match node_error(dock, path) {
        Some(e) => Some(e),
        None => match node_at(dock, path) {
            Some(Node::Leaf(_)) => None,
            _ => Some(NodeError::NotALeaf),
        },
    }
}

/// `dock` with the node at `path` replaced by `node`, everything else as it was.
pub open spec fn with_node<Tab>(
    dock: Seq<Option<SurfaceView<Tab>>>,
    path: NodePath,
    node: Node<Tab>,
) -> Seq<Option<SurfaceView<Tab>>> {
    let s = surface_of(dock, path.surface).unwrap();
    dock.update(
        path.surface.0 as int,
        Some(SurfaceView { nodes: s.nodes.update(path.node.0 as int, node), root: s.root, ..s }),
    )
}

/// `a` and `b` are the same dock, but for the node at `path`, which is in both.
pub open spec fn same_but_node<Tab>(
    a: Seq<Option<SurfaceView<Tab>>>,
    b: Seq<Option<SurfaceView<Tab>>>,
    path: NodePath,
) -> bool {
    &&& a.len() == b.len()
    &&& forall|i: int| 0 <= i < a.len() ==> (#[trigger] a[i] is Some) == (b[i] is Some)
    &&& forall|i: int|
        0 <= i < a.len() && #[trigger] a[i] is Some ==> {
            &&& a[i]->0.root == b[i]->0.root
            &&& a[i]->0.nodes.len() == b[i]->0.nodes.len()
            &&& forall|j: int|
                0 <= j < a[i]->0.nodes.len() && (i != path.surface.0 || j != path.node.0)
                    ==> #[trigger] a[i]->0.nodes[j] == b[i]->0.nodes[j]
        }
}

/// `after` is `before` with the tab at `path` closed: the leaf there has lost that tab (and
/// its identity), and nothing else has changed.
pub open spec fn closes_tab<Tab>(
    before: Seq<Option<SurfaceView<Tab>>>,
    after: Seq<Option<SurfaceView<Tab>>>,
    path: TabPath,
) -> bool {
    &&& leaf_at(before, path.spec_node_path()) matches Some(l) && path.tab.0 < l@.tabs.len()
    &&& same_but_node(before, after, path.spec_node_path())
    &&& leaf_at(after, path.spec_node_path()) matches Some(l2) && l2@ == leaf_at(
        before,
        path.spec_node_path(),
    )->0@.removed(path.tab.0 as int)
}

/// A node identity is never handed out twice: once the node at `path` is removed, no node is
/// found there any more, and adding a node to that surface gives it a new identity and leaves
/// `path` naming nothing.
pub proof fn lemma_removed_node_stays_gone<Tab>(
    dock: Seq<Option<SurfaceView<Tab>>>,
    path: NodePath,
    node: Node<Tab>,
)
    requires
        node_at(dock, path) is Some,
    ensures
        node_at(with_node(dock, path, Node::Empty), path) is None,
        ({
            let removed = with_node(dock, path, Node::Empty);
            let sv = surface_of(removed, path.surface)->0;
            let grown = removed.update(
                path.surface.0 as int,
                Some(SurfaceView { nodes: sv.nodes.push(node), root: sv.root, ..sv }),
            );
            node_at(grown, path) is None
        }),
{
    let removed = with_node(dock, path, Node::Empty);
    let sv = surface_of(removed, path.surface)->0;
    assert(sv.nodes.push(node)[path.node.0 as int] == sv.nodes[path.node.0 as int]);
}

/// A surface index is never handed out twice: once a window is closed, its index names no
/// surface, and a window opened afterwards is given a new index.
pub proof fn lemma_closed_window_stays_gone<Tab>(
    dock: Seq<Option<SurfaceView<Tab>>>,
    surface: SurfaceIndex,
    opened: SurfaceView<Tab>,
)
    requires
        surface.0 != 0,
        surface_of(dock, surface) is Some,
    ensures
        surface_of(dock.update(surface.0 as int, None), surface) is None,
        surface_of(dock.update(surface.0 as int, None).push(Some(opened)), surface) is None,
{
    let closed = dock.update(surface.0 as int, None);
    assert(closed.push(Some(opened))[surface.0 as int] == closed[surface.0 as int]);
}

/// Emptying a slot and then filling it is filling it; filling a slot with what it holds changes
/// nothing; and what a filled slot holds is found there.
pub proof fn lemma_with_node<Tab>(dock: Seq<Option<SurfaceView<Tab>>>, path: NodePath, a: Node<Tab>, b: Node<Tab>)
    requires
        surface_of(dock, path.surface) is Some,
        path.node.0 < surface_of(dock, path.surface)->0.nodes.len(),
    ensures
        with_node(with_node(dock, path, a), path, b) == with_node(dock, path, b),
        with_node(dock, path, surface_of(dock, path.surface)->0.nodes[path.node.0 as int]) == dock,
        !(b is Empty) ==> node_at(with_node(dock, path, b), path) == Some(b),
        surface_of(with_node(dock, path, a), path.surface) is Some,
        surface_of(with_node(dock, path, a), path.surface)->0.nodes.len() == surface_of(dock, path.surface)->0.nodes.len(),
{
    let sv = surface_of(dock, path.surface)->0;
    assert(sv.nodes.update(path.node.0 as int, a).update(path.node.0 as int, b) =~= sv.nodes.update(path.node.0 as int, b));
    assert(sv.nodes.update(path.node.0 as int, sv.nodes[path.node.0 as int]) =~= sv.nodes);
    assert(dock.update(path.surface.0 as int, Some(sv)) =~= dock);
    let d1 = with_node(dock, path, a);
    assert(d1.update(path.surface.0 as int, Some(SurfaceView { nodes: sv.nodes.update(path.node.0 as int, b), root: sv.root, ..sv })) =~= with_node(dock, path, b));
}

/// Filling the slot of `path` changes no other slot and no other surface.
pub proof fn lemma_with_node_elsewhere<Tab>(
    dock: Seq<Option<SurfaceView<Tab>>>,
    path: NodePath,
    a: Node<Tab>,
    other: NodePath,
    surface: SurfaceIndex,
)
    requires
        surface_of(dock, path.surface) is Some,
        path.node.0 < surface_of(dock, path.surface)->0.nodes.len(),
    ensures
        other != path ==> node_at(with_node(dock, path, a), other) == node_at(dock, other),
        other != path ==> leaf_at(with_node(dock, path, a), other) == leaf_at(dock, other),
        surface_of(with_node(dock, path, a), surface) is Some <==> surface_of(dock, surface) is Some,
        with_node(dock, path, a).len() == dock.len(),
{
    let sv = surface_of(dock, path.surface)->0;
    if other != path && other.surface == path.surface && other.node.0 < sv.nodes.len() {
        assert(sv.nodes.update(path.node.0 as int, a)[other.node.0 as int] == sv.nodes[other.node.0 as int]);
    }
}

/// `to` in place of `from`, any other identity as it is.
pub open spec fn relink_id(id: NodeId, from: NodeId, to: NodeId) -> NodeId {
    if id == from {
        to
    } else {
        id
    }
}

/// `b` is the node `a` with every link to `from` pointing at `to` instead: a split keeps its
/// layout and its other children; any other node is unchanged.
pub open spec fn relinked_node<Tab>(a: Node<Tab>, b: Node<Tab>, from: NodeId, to: NodeId) -> bool {
    match a {
        Node::Split(sn) => b matches Node::Split(sn2) && sn2.horizontal == sn.horizontal
            && sn2.stowed == sn.stowed
            && sn2.children@.len() == sn.children@.len() && forall|j: int|
            0 <= j < sn.children@.len() ==> #[trigger] sn2.children@[j] == relink_id(
                sn.children@[j],
                from,
                to,
            ),
        _ => b == a,
    }
}

/// `after` is the surface `before` with every link to `from` — from its root and from the
/// splits' child lists — pointing at `to` instead.
pub open spec fn relinks<Tab>(before: SurfaceView<Tab>, after: SurfaceView<Tab>, from: NodeId, to: NodeId) -> bool {
    &&& after.nodes.len() == before.nodes.len()
    &&& after.minimized == before.minimized
    &&& after.root == if before.root == Some(from) {
        Some(to)
    } else {
        before.root
    }
    &&& forall|i: int| 0 <= i < before.nodes.len() ==> relinked_node(#[trigger] before.nodes[i], after.nodes[i], from, to)
}

/// `ids` without `id`, the others in their order.
pub open spec fn without(ids: Seq<NodeId>, id: NodeId) -> Seq<NodeId>
    decreases ids.len(),
{
    if ids.len() == 0 {
        ids
    } else if ids.last() == id {
        without(ids.drop_last(), id)
    } else {
        without(ids.drop_last(), id).push(ids.last())
    }
}

/// `b` is the node `a` with no link to `gone`: a split keeps its layout, whether it is stowed,
/// and its other children in their order; any other node is unchanged.
pub open spec fn unlinked_node<Tab>(a: Node<Tab>, b: Node<Tab>, gone: NodeId) -> bool {
    match a {
        Node::Split(sn) => b matches Node::Split(sn2) && sn2.horizontal == sn.horizontal
            && sn2.stowed == sn.stowed && sn2.children@ == without(sn.children@, gone),
        _ => b == a,
    }
}

/// `after` is the surface `before` with every link to `gone` taken out: the root, if it was
/// `gone`, is none any more, and no split lists `gone` among its children.
pub open spec fn unlinks<Tab>(before: SurfaceView<Tab>, after: SurfaceView<Tab>, gone: NodeId) -> bool {
    &&& after.nodes.len() == before.nodes.len()
    &&& after.minimized == before.minimized
    &&& after.root == if before.root == Some(gone) {
        None
    } else {
        before.root
    }
    &&& forall|i: int| 0 <= i < before.nodes.len() ==> unlinked_node(#[trigger] before.nodes[i], after.nodes[i], gone)
}

/// Once `gone` is unlinked, nothing links to it: not the root, and no split's children.
pub proof fn lemma_unlinked_is_unreachable<Tab>(before: SurfaceView<Tab>, after: SurfaceView<Tab>, gone: NodeId)
    requires
        unlinks(before, after, gone),
    ensures
        after.root != Some(gone),
        forall|i: int|
            0 <= i < after.nodes.len() ==> (#[trigger] after.nodes[i] matches Node::Split(sn) ==> !sn.children@.contains(gone)),
{
    assert forall|i: int| 0 <= i < after.nodes.len() implies (#[trigger] after.nodes[i] matches Node::Split(sn) ==> !sn.children@.contains(gone)) by {
        assert(unlinked_node(before.nodes[i], after.nodes[i], gone));
        if let Node::Split(sn) = before.nodes[i] {
            lemma_without_leaves_out(sn.children@, gone);
        }
    }
}

proof fn lemma_without_leaves_out(ids: Seq<NodeId>, gone: NodeId)
    ensures
        !without(ids, gone).contains(gone),
    decreases ids.len(),
{
    if ids.len() > 0 {
        lemma_without_leaves_out(ids.drop_last(), gone);
        if ids.last() != gone {
            let w = without(ids.drop_last(), gone);
            assert forall|j: int| 0 <= j < w.push(ids.last()).len() implies w.push(ids.last())[j] != gone by {
                if j < w.len() {
                    assert(w.push(ids.last())[j] == w[j]);
                }
            }
        }
    }
}

/// Every tab the nodes hold, node by node, each node's tabs left to right.
pub open spec fn all_tabs<Tab>(nodes: Seq<Node<Tab>>) -> Seq<Tab>
    decreases nodes.len(),
{
    if nodes.len() == 0 {
        Seq::empty()
    } else {
        all_tabs(nodes.drop_last()) + nodes.last().tabs_of()
    }
}

impl<Tab> DockState<Tab> {
    /// There is a main surface, and every surface is well formed.
    pub open spec fn wf(&self) -> bool {
        &&& self@.len() >= 1
        &&& self@[0] is Some
        &&& forall|i: int| 0 <= i < self@.len() && #[trigger] self@[i] is Some ==> self@[i]->0.wf()
    }

    /// The leaf that has the focus, if any.
    pub closed spec fn spec_focused(&self) -> Option<NodePath> {
        self.focused
    }

    proof fn lemma_view_index(&self, i: int)
        requires
            0 <= i < self.surfaces@.len(),
        ensures
            self@.len() == self.surfaces@.len(),
            self@[i] == match self.surfaces@[i] {
                Some(s) => Some(s@),
                None => None,
            },
    {
    }

    /// A dock whose main surface is one leaf holding `tabs`, and which has no window.
    pub fn new(tabs: Vec<Tab>) -> (dock: DockState<Tab>)
        requires
            tabs.len() < u64::MAX,
        ensures
            dock.wf(),
            dock@.len() == 1,
            dock.spec_focused() is None,
            dock@[0]->0.root == Some(NodeId(0)),
            dock@[0]->0.nodes.len() == 1,
            dock@[0]->0.nodes[0] is Leaf,
            dock@[0]->0.nodes[0].tabs_of() == tabs@,
            dock@[0]->0.nodes[0]->Leaf_0@.next_id == tabs.len(),
            forall|i: int| 0 <= i < tabs.len() ==> (#[trigger] dock@[0]->0.nodes[0]->Leaf_0@.ids[i]).0 == i,
    {
        let main = Surface::with_leaf(tabs);
        let mut surfaces: Vec<Option<Surface<Tab>>> = Vec::new();
        surfaces.push(Some(main));
        let dock = DockState { surfaces, focused: None };
        proof {
            dock.lemma_view_index(0);
        }
        dock
    }

    /// How many surface indices have been handed out (the main surface and every window ever
    /// opened, including the ones since closed).
    pub fn surface_count(&self) -> (n: usize)
        ensures
            n == self@.len(),
    {
        self.surfaces.len()
    }

    /// Whether `surface` names a surface this dock (still) has.
    pub fn is_surface_valid(&self, surface: SurfaceIndex) -> (b: bool)
        ensures
            b <==> surface_of(self@, surface) is Some,
    {
        if surface.0 < self.surfaces.len() {
            proof {
                self.lemma_view_index(surface.0 as int);
            }
            self.surfaces[surface.0].is_some()
        } else {
            false
        }
    }

    /// The surface at `surface`, if this dock (still) has it.
    pub fn surface(&self, surface: SurfaceIndex) -> (s: Option<&Surface<Tab>>)
        ensures
            match surface_of(self@, surface) {
                Some(v) => s is Some && s->0@ == v,
                None => s is None,
            },
    {
        if surface.0 < self.surfaces.len() {
            proof {
                self.lemma_view_index(surface.0 as int);
            }
            match &self.surfaces[surface.0] {
                Some(s) => Some(s),
                None => None,
            }
        } else {
            None
        }
    }

    /// The main surface.
    pub fn main_surface(&self) -> (s: &Surface<Tab>)
        requires
            self.wf(),
        ensures
            s@ == self@[0]->0,
    {
        proof {
            self.lemma_view_index(0);
        }
        self.surfaces[0].as_ref().unwrap()
    }

    /// The node at `path`, or why there is none.
    pub fn node(&self, path: NodePath) -> (node: Result<&Node<Tab>, NodeError>)
        ensures
            match node_at(self@, path) {
                Some(n) => node == Ok::<&Node<Tab>, NodeError>(&n),
                None => node == Err::<&Node<Tab>, NodeError>(node_error(self@, path)->0),
            },
            node is Ok <==> node_error(self@, path) is None,
    {
        match self.surface(path.surface) {
            None => Err(NodeError::InvalidSurface),
            Some(s) => match s.node(path.node) {
                None => Err(NodeError::InvalidNode),
                Some(n) => Ok(n),
            },
        }
    }

    /// The leaf at `path`, or why there is none.
    pub fn leaf(&self, path: NodePath) -> (leaf: Result<&LeafNode<Tab>, NodeError>)
        ensures
            match leaf_at(self@, path) {
                Some(l) => leaf == Ok::<&LeafNode<Tab>, NodeError>(&l),
                None => leaf == Err::<&LeafNode<Tab>, NodeError>(leaf_error(self@, path)->0),
            },
            leaf is Ok <==> leaf_error(self@, path) is None,
    {
        match self.node(path) {
            Err(e) => Err(e),
            Ok(n) => match n.get_leaf() {
                Some(l) => Ok(l),
                None => Err(NodeError::NotALeaf),
            },
        }
    }

    /// Take the tab at `path` out of its leaf; `None` if the path names no tab.
    pub fn remove_tab(&mut self, path: TabPath) -> (tab: Option<Tab>)
        requires
            old(self).wf(),
        ensures
            final(self).wf(),
            final(self).spec_focused() == old(self).spec_focused(),
            match leaf_at(old(self)@, path.node_path()) {
                Some(l) if path.tab.0 < l@.tabs.len() => {
                    &&& tab == Some(l@.tabs[path.tab.0 as int])
                    &&& closes_tab(old(self)@, final(self)@, path)
                },
                _ => tab is None && final(self)@ == old(self)@,
            },
    {
        let ghost before = self@;
        if path.surface.0 >= self.surfaces.len() {
            return None;
        }
        proof {
            self.lemma_view_index(path.surface.0 as int);
        }
        let i = path.surface.0;
        let n = path.node.0;
        let valid = match &self.surfaces[i] {
            Some(s) => n < s.nodes.len() && s.nodes[n].is_leaf() && path.tab.0 < s.nodes[n].tabs_count(),
            None => false,
        };
        if !valid {
            return None;
        }
        let mut surface = self.surfaces[i].take().unwrap();
        let ghost s0 = surface@;
        assert(before[i as int] == Some(s0));
        let ghost old_node = s0.nodes[n as int];
        let tab = surface.nodes[n].remove_tab(path.tab);
        let ghost new_node = surface@.nodes[n as int];
        assert(surface@.nodes == s0.nodes.update(n as int, new_node));
        assert(surface@.root == s0.root);
        assert(old_node is Leaf);
        assert(new_node is Leaf);
        assert(new_node->Leaf_0@ == old_node->Leaf_0@.removed(path.tab.0 as int));
        self.surfaces.set(i, Some(surface));
        proof {
            assert forall|k: int| 0 <= k < self.surfaces@.len() implies self@[k] == if k == i {
                Some(surface@)
            } else {
                before[k]
            } by {
                self.lemma_view_index(k);
            }
            assert(self@.len() == before.len());
        }
        tab
    }

    /// Put `tab` at the end of the leaf at `path`, under a fresh identity which is returned.
    /// `None` (and nothing changed) if `path` names no leaf or the leaf's identities are used up.
    pub fn push_tab(&mut self, path: NodePath, tab: Tab) -> (id: Option<TabId>)
        requires
            old(self).wf(),
        ensures
            final(self).wf(),
            final(self).spec_focused() == old(self).spec_focused(),
            match leaf_at(old(self)@, path) {
                Some(l) if l@.next_id < u64::MAX => {
                    &&& id == Some(TabId(l@.next_id as u64))
                    &&& same_but_node(old(self)@, final(self)@, path)
                    &&& leaf_at(final(self)@, path) matches Some(l2) && l2@ == l@.pushed(tab)
                },
                _ => id is None && final(self)@ == old(self)@,
            },
    {
        let ghost before = self@;
        if path.surface.0 >= self.surfaces.len() {
            return None;
        }
        proof {
            self.lemma_view_index(path.surface.0 as int);
        }
        let i = path.surface.0;
        let n = path.node.0;
        let valid = match &self.surfaces[i] {
            Some(s) => n < s.nodes.len() && match &s.nodes[n] {
                Node::Leaf(l) => !l.ids_exhausted(),
                _ => false,
            },
            None => false,
        };
        if !valid {
            return None;
        }
        let mut surface = self.surfaces[i].take().unwrap();
        let ghost s0 = surface@;
        assert(before[i as int] == Some(s0));
        let mut node: Node<Tab> = Node::Empty;
        std::mem::swap(&mut node, &mut surface.nodes[n]);
        let id = match &mut node {
            Node::Leaf(l) => l.push_tab(tab),
            _ => None,
        };
        surface.nodes.set(n, node);
        assert(surface@.nodes == s0.nodes.update(n as int, node));
        self.surfaces.set(i, Some(surface));
        proof {
            assert forall|k: int| 0 <= k < self.surfaces@.len() implies self@[k] == if k == i {
                Some(surface@)
            } else {
                before[k]
            } by {
                self.lemma_view_index(k);
            }
            assert(self@.len() == before.len());
            assert(node->Leaf_0@ =~~= s0.nodes[n as int]->Leaf_0@.pushed(tab));
        }
        id
    }

    /// Add `node` to the surface `surface` under a fresh identity, which is returned; `None`
    /// (and nothing changed) if the dock has no such surface. The node is not yet linked into
    /// the surface's tree: that is [`set_root`](Self::set_root) or a split's child list.
    pub fn push_node(&mut self, surface: SurfaceIndex, node: Node<Tab>) -> (id: Option<NodeId>)
        requires
            old(self).wf(),
            node.wf(),
        ensures
            final(self).wf(),
            final(self).spec_focused() == old(self).spec_focused(),
            match surface_of(old(self)@, surface) {
                Some(sv) => {
                    &&& id == Some(NodeId(sv.nodes.len() as usize))
                    &&& sv.nodes.len() <= usize::MAX
                    &&& final(self)@ == old(self)@.update(
                        surface.0 as int,
                        Some(SurfaceView { nodes: sv.nodes.push(node), root: sv.root, ..sv }),
                    )
                },
                None => id is None && final(self)@ == old(self)@,
            },
    {
        let ghost before = self@;
        if surface.0 >= self.surfaces.len() {
            return None;
        }
        proof {
            self.lemma_view_index(surface.0 as int);
        }
        let i = surface.0;
        if self.surfaces[i].is_none() {
            return None;
        }
        let mut s = self.surfaces[i].take().unwrap();
        let ghost s0 = s@;
        let id = NodeId(s.nodes.len());
        s.nodes.push(node);
        self.surfaces.set(i, Some(s));
        proof {
            assert forall|k: int| 0 <= k < self.surfaces@.len() implies self@[k] == if k == i {
                Some(s@)
            } else {
                before[k]
            } by {
                self.lemma_view_index(k);
            }
            assert(self@ =~= before.update(
                surface.0 as int,
                Some(SurfaceView { nodes: s0.nodes.push(node), root: s0.root, ..s0 }),
            ));
        }
        Some(id)
    }

    /// Make `root` the root of the tree of surface `surface`; `false` (and nothing changed) if
    /// the dock has no such surface or that surface has no node `root`.
    pub fn set_root(&mut self, surface: SurfaceIndex, root: NodeId) -> (done: bool)
        requires
            old(self).wf(),
        ensures
            final(self).wf(),
            final(self).spec_focused() == old(self).spec_focused(),
            done <==> node_at(old(self)@, NodePath { surface, node: root }) is Some,
            done ==> final(self)@ == old(self)@.update(
                surface.0 as int,
                Some(SurfaceView { root: Some(root), ..old(self)@[surface.0 as int]->0 }),
            ),
            !done ==> final(self)@ == old(self)@,
    {
        let ghost before = self@;
        if surface.0 >= self.surfaces.len() {
            return false;
        }
        proof {
            self.lemma_view_index(surface.0 as int);
        }
        let i = surface.0;
        let valid = match &self.surfaces[i] {
            Some(s) => root.0 < s.nodes.len() && !s.nodes[root.0].is_empty(),
            None => false,
        };
        if !valid {
            return false;
        }
        let mut s = self.surfaces[i].take().unwrap();
        s.root = Some(root);
        self.surfaces.set(i, Some(s));
        proof {
            assert forall|k: int| 0 <= k < self.surfaces@.len() implies self@[k] == if k == i {
                Some(s@)
            } else {
                before[k]
            } by {
                self.lemma_view_index(k);
            }
            assert(self@ =~= before.update(
                surface.0 as int,
                Some(SurfaceView { root: Some(root), ..before[surface.0 as int]->0 }),
            ));
        }
        true
    }

    /// Take the node at `path` out of its surface, leaving its identity unused for good; `None`
    /// (and nothing changed) if there is no node there. The tree that linked to it is not
    /// re-linked here.
    pub fn remove_node(&mut self, path: NodePath) -> (node: Option<Node<Tab>>)
        requires
            old(self).wf(),
        ensures
            final(self).wf(),
            final(self).spec_focused() == old(self).spec_focused(),
            match node_at(old(self)@, path) {
                Some(n) => {
                    &&& node == Some(n)
                    &&& final(self)@ == with_node(old(self)@, path, Node::Empty)
                },
                None => node is None && final(self)@ == old(self)@,
            },
    {
        let ghost before = self@;
        if path.surface.0 >= self.surfaces.len() {
            return None;
        }
        proof {
            self.lemma_view_index(path.surface.0 as int);
        }
        let i = path.surface.0;
        let n = path.node.0;
        let valid = match &self.surfaces[i] {
            Some(s) => n < s.nodes.len() && !s.nodes[n].is_empty(),
            None => false,
        };
        if !valid {
            return None;
        }
        let mut s = self.surfaces[i].take().unwrap();
        let ghost s0 = s@;
        let mut taken: Node<Tab> = Node::Empty;
        std::mem::swap(&mut taken, &mut s.nodes[n]);
        self.surfaces.set(i, Some(s));
        proof {
            assert forall|k: int| 0 <= k < self.surfaces@.len() implies self@[k] == if k == i {
                Some(s@)
            } else {
                before[k]
            } by {
                self.lemma_view_index(k);
            }
            assert(s@.nodes =~= s0.nodes.update(n as int, Node::Empty));
            assert(self@ =~= with_node(before, path, Node::Empty));
        }
        Some(taken)
    }

    /// Open a floating window whose tree is one leaf holding `tabs`, and return its surface.
    pub fn add_window(&mut self, tabs: Vec<Tab>) -> (surface: SurfaceIndex)
        requires
            old(self).wf(),
            tabs.len() < u64::MAX,
        ensures
            final(self).wf(),
            final(self).spec_focused() == old(self).spec_focused(),
            surface.0 == old(self)@.len(),
            final(self)@.len() == old(self)@.len() + 1,
            final(self)@ == old(self)@.push(final(self)@[surface.0 as int]),
            final(self)@[surface.0 as int] matches Some(sv) && {
                &&& sv.root == Some(NodeId(0))
                &&& !sv.minimized
                &&& sv.nodes.len() == 1
                &&& sv.nodes[0] is Leaf
                &&& sv.nodes[0].tabs_of() == tabs@
                &&& sv.nodes[0]->Leaf_0@.next_id == tabs.len()
                &&& forall|i: int|
                    0 <= i < tabs.len() ==> (#[trigger] sv.nodes[0]->Leaf_0@.ids[i]).0 == i
                &&& sv.nodes[0]->Leaf_0@.active == if tabs.len() == 0 {
                    None
                } else {
                    Some(TabId(0))
                }
                &&& !sv.nodes[0]->Leaf_0@.collapsed
                &&& sv.nodes[0]->Leaf_0@.history == Seq::<TabId>::empty()
            },
    {
        let ghost before = self@;
        let index = SurfaceIndex(self.surfaces.len());
        let s = Surface::with_leaf(tabs);
        self.surfaces.push(Some(s));
        proof {
            assert forall|k: int| 0 <= k < self.surfaces@.len() implies self@[k] == if k
                == index.0 {
                Some(s@)
            } else {
                before[k]
            } by {
                self.lemma_view_index(k);
            }
            assert(self@ =~= before.push(self@[index.0 as int]));
        }
        index
    }

    /// Close the floating window `surface` and hand back everything it held; `None` (and nothing
    /// changed) for the main surface, which is never removed, or a surface the dock does not have.
    pub fn remove_window(&mut self, surface: SurfaceIndex) -> (removed: Option<Surface<Tab>>)
        requires
            old(self).wf(),
        ensures
            final(self).wf(),
            final(self).spec_focused() == old(self).spec_focused(),
            surface.0 != 0 && surface_of(old(self)@, surface) is Some ==> {
                &&& removed matches Some(s) && s@ == surface_of(old(self)@, surface)->0
                &&& final(self)@ == old(self)@.update(surface.0 as int, None)
            },
            !(surface.0 != 0 && surface_of(old(self)@, surface) is Some) ==> removed is None
                && final(self)@ == old(self)@,
    {
        let ghost before = self@;
        if surface.0 == 0 || surface.0 >= self.surfaces.len() {
            return None;
        }
        proof {
            self.lemma_view_index(surface.0 as int);
        }
        let i = surface.0;
        if self.surfaces[i].is_none() {
            return None;
        }
        let s = self.surfaces[i].take();
        proof {
            assert forall|k: int| 0 <= k < self.surfaces@.len() implies self@[k] == if k == i {
                None
            } else {
                before[k]
            } by {
                self.lemma_view_index(k);
            }
            assert(self@ =~= before.update(surface.0 as int, None));
        }
        s
    }

    /// The leaf that has the focus, if any.
    pub fn focused(&self) -> (f: Option<NodePath>)
        ensures
            f == self.spec_focused(),
    {
        self.focused
    }

    /// Give the focus to the leaf at `path`; `true` if the focus moved.
    pub fn set_focus(&mut self, path: NodePath) -> (moved: bool)
        ensures
            final(self)@ == old(self)@,
            final(self).wf() == old(self).wf(),
            final(self).spec_focused() == Some(path),
            moved <==> old(self).spec_focused() != Some(path),
    {
        let moved = match self.focused {
            Some(p) => !(p.surface.0 == path.surface.0 && p.node.0 == path.node.0),
            None => true,
        };
        self.focused = Some(path);
        moved
    }

    /// Take the leaf at `path` out of the dock, leaving its slot empty for [`put_node`] to fill;
    /// `None` (and nothing changed) if there is no leaf there.
    pub(crate) fn take_leaf(&mut self, path: NodePath) -> (leaf: Option<LeafNode<Tab>>)
        requires
            old(self).wf(),
        ensures
            final(self).wf(),
            final(self).spec_focused() == old(self).spec_focused(),
            match leaf_at(old(self)@, path) {
                Some(l) => leaf == Some(l) && final(self)@ == with_node(old(self)@, path, Node::Empty),
                None => leaf is None && final(self)@ == old(self)@,
            },
    {
        let is_leaf = match self.node(path) {
            Ok(n) => n.is_leaf(),
            Err(_) => false,
        };
        if !is_leaf {
            return None;
        }
        match self.remove_node(path) {
            Some(Node::Leaf(l)) => Some(l),
            _ => None,
        }
    }

    /// Put `node` in the slot of `path`, which the surface has already handed out.
    pub(crate) fn put_node(&mut self, path: NodePath, node: Node<Tab>)
        requires
            old(self).wf(),
            node.wf(),
            surface_of(old(self)@, path.surface) is Some,
            path.node.0 < surface_of(old(self)@, path.surface)->0.nodes.len(),
        ensures
            final(self).wf(),
            final(self).spec_focused() == old(self).spec_focused(),
            final(self)@ == with_node(old(self)@, path, node),
    {
        let ghost before = self@;
        proof {
            self.lemma_view_index(path.surface.0 as int);
        }
        let i = path.surface.0;
        let mut s = self.surfaces[i].take().unwrap();
        let ghost s0 = s@;
        s.nodes.set(path.node.0, node);
        self.surfaces.set(i, Some(s));
        proof {
            assert forall|k: int| 0 <= k < self.surfaces@.len() implies self@[k] == if k == i {
                Some(s@)
            } else {
                before[k]
            } by {
                self.lemma_view_index(k);
            }
            assert(s@.nodes =~= s0.nodes.update(path.node.0 as int, node));
            assert(self@ =~= with_node(before, path, node));
            assert forall|k: int| 0 <= k < self@.len() && #[trigger] self@[k] is Some implies self@[k]->0.wf() by {
                if k == i {
                    assert forall|m: int| 0 <= m < s@.nodes.len() implies (#[trigger] s@.nodes[m]).wf() by {
                        if m != path.node.0 {
                            assert(s@.nodes[m] == s0.nodes[m]);
                        }
                    }
                }
            }
        }
    }

    /// Point every link to `from` on surface `surface` — its root, and the child lists of its
    /// splits — at `to` instead.
    pub(crate) fn relink(&mut self, surface: SurfaceIndex, from: NodeId, to: NodeId)
        requires
            old(self).wf(),
            surface_of(old(self)@, surface) is Some,
        ensures
            final(self).wf(),
            final(self).spec_focused() == old(self).spec_focused(),
            exists|after: SurfaceView<Tab>|
                #![auto]
                relinks(surface_of(old(self)@, surface)->0, after, from, to) && final(self)@
                    == old(self)@.update(surface.0 as int, Some(after)),
    {
        let ghost before = self@;
        proof {
            self.lemma_view_index(surface.0 as int);
        }
        let si = surface.0;
        let mut s = self.surfaces[si].take().unwrap();
        let ghost s0 = s@;
        assert(before[si as int] == Some(s0));
        assert(s0.wf());
        let n = s.nodes.len();
        let mut i: usize = 0;
        while i < n
            invariant
                n == s0.nodes.len(),
                i <= n,
                s@.nodes.len() == n,
                s@.root == s0.root,
                s@.minimized == s0.minimized,
                s0.wf(),
                forall|m: int| 0 <= m < i ==> relinked_node(#[trigger] s0.nodes[m], s@.nodes[m], from, to),
                forall|m: int| i <= m < n ==> #[trigger] s@.nodes[m] == s0.nodes[m],
                forall|m: int| 0 <= m < n ==> (#[trigger] s@.nodes[m]).wf(),
            decreases n - i,
        {
            let ghost prev = s@.nodes;
            let mut node: Node<Tab> = Node::Empty;
            std::mem::swap(&mut node, &mut s.nodes[i]);
            let ghost taken_node = node;
            assert(taken_node == s0.nodes[i as int]);
            let rebuilt = match node {
                Node::Split(sn) => {
                    let mut children: Vec<NodeId> = Vec::new();
                    let mut c: usize = 0;
                    while c < sn.children.len()
                        invariant
                            c <= sn.children@.len(),
                            children@.len() == c,
                            forall|j: int| 0 <= j < c ==> #[trigger] children@[j] == relink_id(
                                sn.children@[j],
                                from,
                                to,
                            ),
                        decreases sn.children@.len() - c,
                    {
                        let x = sn.children[c];
                        let y = if x.0 == from.0 {
                            to
                        } else {
                            x
                        };
                        children.push(y);
                        c = c + 1;
                    }
                    Node::Split(SplitNode { horizontal: sn.horizontal, children, stowed: sn.stowed })
                },
                other => other,
            };
            let ghost rb = rebuilt;
            proof {
                assert(relinked_node(taken_node, rb, from, to));
            }
            s.nodes.set(i, rebuilt);
            proof {
                assert(s@.nodes == prev.update(i as int, rb));
            }
            i = i + 1;
        }
        let root = match s.root {
            Some(r) => if r.0 == from.0 {
                Some(to)
            } else {
                Some(r)
            },
            None => None,
        };
        s.root = root;
        self.surfaces.set(si, Some(s));
        proof {
            assert forall|k: int| 0 <= k < self.surfaces@.len() implies self@[k] == if k == si {
                Some(s@)
            } else {
                before[k]
            } by {
                self.lemma_view_index(k);
            }
            assert(relinks(s0, s@, from, to));
            assert(self@ =~= before.update(surface.0 as int, Some(s@)));
            assert forall|k: int| 0 <= k < self@.len() && #[trigger] self@[k] is Some implies self@[k]->0.wf() by {
                if k == si {
                    assert(s@.wf());
                }
            }
        }
    }

    /// Minimize the floating window `surface` to its title bar, or restore it; `true` if that
    /// changed it. The main surface is never minimized, and a surface the dock does not have
    /// changes nothing.
    pub fn set_window_minimized(&mut self, surface: SurfaceIndex, minimized: bool) -> (changed: bool)
        requires
            old(self).wf(),
        ensures
            final(self).wf(),
            final(self).spec_focused() == old(self).spec_focused(),
            changed <==> (surface.0 != 0 && surface_of(old(self)@, surface) is Some
                && surface_of(old(self)@, surface)->0.minimized != minimized),
            changed ==> final(self)@ == old(self)@.update(
                surface.0 as int,
                Some(SurfaceView { minimized, ..surface_of(old(self)@, surface)->0 }),
            ),
            !changed ==> final(self)@ == old(self)@,
    {
        let ghost before = self@;
        if surface.0 == 0 || surface.0 >= self.surfaces.len() {
            return false;
        }
        proof {
            self.lemma_view_index(surface.0 as int);
        }
        let i = surface.0;
        let differs = match &self.surfaces[i] {
            Some(s) => s.minimized != minimized,
            None => false,
        };
        if !differs {
            return false;
        }
        let mut s = self.surfaces[i].take().unwrap();
        let ghost s0 = s@;
        s.minimized = minimized;
        self.surfaces.set(i, Some(s));
        proof {
            assert forall|k: int| 0 <= k < self.surfaces@.len() implies self@[k] == if k == i {
                Some(s@)
            } else {
                before[k]
            } by {
                self.lemma_view_index(k);
            }
            assert(self@ =~= before.update(surface.0 as int, Some(SurfaceView { minimized, ..s0 })));
        }
        true
    }

    /// Take every link to `gone` out of surface `surface`: its root, if it was `gone`, and the
    /// child lists of its splits.
    pub(crate) fn unlink(&mut self, surface: SurfaceIndex, gone: NodeId)
        requires
            old(self).wf(),
            surface_of(old(self)@, surface) is Some,
        ensures
            final(self).wf(),
            final(self).spec_focused() == old(self).spec_focused(),
            exists|after: SurfaceView<Tab>|
                #![auto]
                unlinks(surface_of(old(self)@, surface)->0, after, gone) && final(self)@
                    == old(self)@.update(surface.0 as int, Some(after)),
    {
        let ghost before = self@;
        proof {
            self.lemma_view_index(surface.0 as int);
        }
        let si = surface.0;
        let mut s = self.surfaces[si].take().unwrap();
        let ghost s0 = s@;
        assert(before[si as int] == Some(s0));
        assert(s0.wf());
        let n = s.nodes.len();
        let mut i: usize = 0;
        while i < n
            invariant
                n == s0.nodes.len(),
                i <= n,
                s@.nodes.len() == n,
                s@.root == s0.root,
                s@.minimized == s0.minimized,
                s0.wf(),
                forall|m: int| 0 <= m < i ==> unlinked_node(#[trigger] s0.nodes[m], s@.nodes[m], gone),
                forall|m: int| i <= m < n ==> #[trigger] s@.nodes[m] == s0.nodes[m],
                forall|m: int| 0 <= m < n ==> (#[trigger] s@.nodes[m]).wf(),
            decreases n - i,
        {
            let ghost prev = s@.nodes;
            let mut node: Node<Tab> = Node::Empty;
            std::mem::swap(&mut node, &mut s.nodes[i]);
            let ghost taken_node = node;
            assert(taken_node == s0.nodes[i as int]);
            let rebuilt = match node {
                Node::Split(sn) => {
                    let mut children: Vec<NodeId> = Vec::new();
                    let mut c: usize = 0;
                    while c < sn.children.len()
                        invariant
                            c <= sn.children@.len(),
                            children@ == without(sn.children@.subrange(0, c as int), gone),
                        decreases sn.children@.len() - c,
                    {
                        let x = sn.children[c];
                        let ghost pre = sn.children@.subrange(0, c + 1);
                        proof {
                            assert(pre.drop_last() =~= sn.children@.subrange(0, c as int));
                            assert(pre.last() == x);
                        }
                        if x.0 != gone.0 {
                            children.push(x);
                        }
                        c = c + 1;
                    }
                    proof {
                        assert(sn.children@.subrange(0, sn.children@.len() as int) =~= sn.children@);
                    }
                    Node::Split(SplitNode { horizontal: sn.horizontal, children, stowed: sn.stowed })
                },
                other => other,
            };
            let ghost rb = rebuilt;
            proof {
                assert(unlinked_node(taken_node, rb, gone));
            }
            s.nodes.set(i, rebuilt);
            proof {
                assert(s@.nodes == prev.update(i as int, rb));
            }
            i = i + 1;
        }
        let root = match s.root {
            Some(r) => if r.0 == gone.0 {
                None
            } else {
                Some(r)
            },
            None => None,
        };
        s.root = root;
        self.surfaces.set(si, Some(s));
        proof {
            assert forall|k: int| 0 <= k < self.surfaces@.len() implies self@[k] == if k == si {
                Some(s@)
            } else {
                before[k]
            } by {
                self.lemma_view_index(k);
            }
            assert(unlinks(s0, s@, gone));
            assert(self@ =~= before.update(surface.0 as int, Some(s@)));
            assert forall|k: int| 0 <= k < self@.len() && #[trigger] self@[k] is Some implies self@[k]->0.wf() by {
                if k == si {
                    assert(s@.wf());
                }
            }
        }
    }
}

} // verus!
