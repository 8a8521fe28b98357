//! The edits a frame's requests make to a dock: showing a tab, closing a tab, a leaf or a window,
//! pulling a tab out into a window of its own, and dropping a carried tab somewhere else.
//!
//! Each is stated as what the dock is after it, given what it was before; a request whose target
//! is gone changes nothing.

use vstd::prelude::*;

use crate::address::{NodeId, NodePath, Split, SurfaceIndex, TabIndex, TabInsert, TabPath};
use crate::apply::drain_tabs;
use crate::dock_state::{
    DockState, SurfaceView, all_tabs, lemma_with_node, lemma_with_node_elsewhere, leaf_at,
    node_at, relinked_node, relinks, surface_of, unlinks, with_node,
};
use crate::drag::TabDestination;
use crate::leaf::{LeafNode, LeafView};
use crate::node::{Node, SplitNode};

verus! {

/// `after` is `before` with the leaf at `path` replaced by a well-formed leaf whose contents are
/// `v`, and nothing else changed.
pub open spec fn leaf_now<Tab>(
    before: Seq<Option<SurfaceView<Tab>>>,
    after: Seq<Option<SurfaceView<Tab>>>,
    path: NodePath,
    v: LeafView<Tab>,
) -> bool {
    exists|l: LeafNode<Tab>| #![auto] l.wf() && l@ == v && after == with_node(before, path, Node::Leaf(l))
}

/// `sv` is a floating window just opened around `tab`: one leaf, its root, holding only that tab.
pub open spec fn fresh_window<Tab>(sv: SurfaceView<Tab>, tab: Tab) -> bool {
    &&& sv.root == Some(NodeId(0))
    &&& !sv.minimized
    &&& sv.nodes.len() == 1
    &&& sv.nodes[0] matches Node::Leaf(l) && l@.holds_only(tab)
}

/// `after` is `before` with the tab at `path` pulled out of its leaf (which goes on to show the
/// tab beside it) and given a floating window of its own, added after every surface there was.
pub open spec fn detached<Tab>(
    before: Seq<Option<SurfaceView<Tab>>>,
    after: Seq<Option<SurfaceView<Tab>>>,
    path: TabPath,
) -> bool {
    let l = leaf_at(before, path.spec_node_path())->0;
    exists|mid: Seq<Option<SurfaceView<Tab>>>|
        #![auto]
        {
            &&& leaf_now(before, mid, path.spec_node_path(), l@.removed_choosing(path.tab.0 as int, None))
            &&& after.len() == mid.len() + 1
            &&& after.drop_last() == mid
            &&& after.last() matches Some(sv) && fresh_window(sv, l@.tabs[path.tab.0 as int])
        }
}

/// `after` is `before` with the node at `path` closed: its slot emptied, its identity never handed
/// out again, and every link to it — the root of its surface, the child lists of the splits —
/// taken out.
pub open spec fn closes_node<Tab>(
    before: Seq<Option<SurfaceView<Tab>>>,
    after: Seq<Option<SurfaceView<Tab>>>,
    path: NodePath,
) -> bool {
    let emptied = with_node(before, path, Node::Empty);
    exists|sv: SurfaceView<Tab>|
        #![auto]
        unlinks(surface_of(emptied, path.surface)->0, sv, path.node) && after == emptied.update(
            path.surface.0 as int,
            Some(sv),
        )
}

/// A closed node is gone and nothing leads to it any more: no node is found at its path, the root
/// of its surface is not it, and no split of its surface lists it among its children.
pub proof fn lemma_a_closed_node_is_unlinked<Tab>(
    before: Seq<Option<SurfaceView<Tab>>>,
    after: Seq<Option<SurfaceView<Tab>>>,
    path: NodePath,
)
    requires
        node_at(before, path) is Some,
        closes_node(before, after, path),
    ensures
        node_at(after, path) is None,
        surface_of(after, path.surface) matches Some(sv) && sv.root != Some(path.node),
        forall|i: int|
            0 <= i < surface_of(after, path.surface)->0.nodes.len() ==> (
            #[trigger] surface_of(after, path.surface)->0.nodes[i] matches Node::Split(sn)
                ==> !sn.children@.contains(path.node)),
{
    let emptied = with_node(before, path, Node::Empty);
    lemma_with_node(before, path, Node::Empty, Node::Empty);
    let e = surface_of(emptied, path.surface)->0;
    let sv = choose|sv: SurfaceView<Tab>|
        #![auto]
        unlinks(e, sv, path.node) && after == emptied.update(path.surface.0 as int, Some(sv));
    crate::dock_state::lemma_unlinked_is_unreachable(e, sv, path.node);
    assert(e.nodes[path.node.0 as int] == Node::<Tab>::Empty);
    assert(crate::dock_state::unlinked_node(e.nodes[path.node.0 as int], sv.nodes[path.node.0 as int], path.node));
    assert(surface_of(after, path.surface) == Some(sv));
}

/// The leaf at `path` holds a tab at `path.tab`.
pub open spec fn names_tab<Tab>(dock: Seq<Option<SurfaceView<Tab>>>, path: TabPath) -> bool {
    leaf_at(dock, path.spec_node_path()) matches Some(l) && path.tab.0 < l@.tabs.len()
}


/// Whether an insertion `insert` fits a bar of `len` tabs: a position may be at most its end.
pub open spec fn fits(insert: TabInsert, len: nat) -> bool {
    match insert {
        TabInsert::Insert(i) => i.0 <= len,
        _ => true,
    }
}

/// Where a tab at `k` of leaf `l` lands when dropped back onto its own leaf with `insert`, as a
/// position of the bar without it: an insertion before it keeps its position, one after it counts
/// one fewer, and an append puts it last.
pub open spec fn landing<Tab>(l: LeafView<Tab>, k: int, insert: TabInsert) -> int {
    match insert {
        TabInsert::Insert(i) => if i.0 <= k {
            i.0 as int
        } else {
            i.0 - 1
        },
        _ => l.tabs.len() - 1,
    }
}

/// Where a tab dropped onto another leaf `t` with `insert` arrives.
pub open spec fn arrival<Tab>(t: LeafView<Tab>, insert: TabInsert) -> int {
    match insert {
        TabInsert::Insert(i) => i.0 as int,
        _ => t.tabs.len() as int,
    }
}

/// Whether dropping the tab at `source` onto `destination` changes the dock. Into a window it
/// always does; onto an empty surface, if the surface is there; beside a node, splitting it, if
/// the node is there, unless it is the tab's own leaf and the tab is all it holds; onto its own
/// leaf, unless it would land where it already is; onto another leaf, if that leaf can still hand
/// out an identity and the position fits its bar.
pub open spec fn move_changes<Tab>(
    before: Seq<Option<SurfaceView<Tab>>>,
    source: TabPath,
    destination: TabDestination,
) -> bool {
    let sp = source.spec_node_path();
    let l = leaf_at(before, sp)->0;
    let k = source.tab.0 as int;
    names_tab(before, source) && match destination {
        TabDestination::Window(_) => true,
        TabDestination::EmptySurface(s) => surface_of(before, s) is Some,
        TabDestination::Node(p, insert) => match insert {
            TabInsert::Split(_) => node_at(before, p) is Some && !(p == sp && l@.tabs.len() == 1),
            _ => if p == sp {
                fits(insert, l@.tabs.len()) && landing(l@, k, insert) != k
            } else {
                match leaf_at(before, p) {
                    Some(t) => t@.next_id < u64::MAX && fits(insert, t@.tabs.len()),
                    None => false,
                }
            },
        },
    }
}

/// `after` is the surface `before` with the node `target` split: a new leaf holding only `tab` is
/// added, and a new split after it, laid out side by side for a left or right split and stacked
/// otherwise, whose children are the new leaf and `target` — the new leaf first for a left or
/// above split. Everything that linked to `target` links to the new split instead.
pub open spec fn split_beside<Tab>(
    before: SurfaceView<Tab>,
    after: Option<SurfaceView<Tab>>,
    target: NodeId,
    side: Split,
    tab: Tab,
) -> bool {
    let n = before.nodes.len() as int;
    let joint = NodeId((n + 1) as usize);
    after matches Some(a) && {
        &&& n + 1 <= usize::MAX
        &&& a.nodes.len() == n + 2
        &&& a.minimized == before.minimized
        &&& a.root == if before.root == Some(target) {
            Some(joint)
        } else {
            before.root
        }
        &&& forall|i: int| 0 <= i < n ==> relinked_node(#[trigger] before.nodes[i], a.nodes[i], target, joint)
        &&& a.nodes[n] matches Node::Leaf(nl) && nl.wf() && nl@.holds_only(tab)
        &&& a.nodes[n + 1] matches Node::Split(sn) && !sn.stowed && sn.horizontal == (side == Split::Left || side
            == Split::Right) && sn.children@ == if side == Split::Left || side == Split::Above {
            seq![NodeId(n as usize), target]
        } else {
            seq![target, NodeId(n as usize)]
        }
    }
}

/// `after` is `before` with the tab at `source` dropped onto `destination`, where that changes
/// the dock: into a window of its own; as the only leaf, and root, of an empty surface; to its new
/// place in its own bar, identity and all; or into another leaf under a fresh identity, shown
/// there. Whatever it leaves goes on to show the tab beside it.
pub open spec fn moves<Tab>(
    before: Seq<Option<SurfaceView<Tab>>>,
    after: Seq<Option<SurfaceView<Tab>>>,
    source: TabPath,
    destination: TabDestination,
) -> bool {
    let sp = source.spec_node_path();
    let l = leaf_at(before, sp)->0;
    let k = source.tab.0 as int;
    let tab = l@.tabs[k];
    match destination {
        TabDestination::Window(_) => detached(before, after, source),
        TabDestination::EmptySurface(s) => exists|mid: Seq<Option<SurfaceView<Tab>>>, nl: LeafNode<Tab>|
            #![auto]
            {
                &&& leaf_now(before, mid, sp, l@.removed_choosing(k, None))
                &&& nl.wf()
                &&& nl@.holds_only(tab)
                &&& after == mid.update(
                    s.0 as int,
                    Some(
                        SurfaceView {
                            nodes: surface_of(mid, s)->0.nodes.push(Node::Leaf(nl)),
                            root: Some(NodeId(surface_of(mid, s)->0.nodes.len() as usize)),
                            ..surface_of(mid, s)->0
                        },
                    ),
                )
            },
        TabDestination::Node(p, TabInsert::Split(side)) => exists|mid: Seq<Option<SurfaceView<Tab>>>|
            #![auto]
            {
                &&& leaf_now(before, mid, sp, l@.removed_choosing(k, None))
                &&& split_beside(surface_of(mid, p.surface)->0, after[p.surface.0 as int], p.node, side, tab)
                &&& after == mid.update(p.surface.0 as int, after[p.surface.0 as int])
            },
        TabDestination::Node(p, insert) => if p == sp {
            leaf_now(before, after, sp, l@.moved_within(k, landing(l@, k, insert)))
        } else {
            let t = leaf_at(before, p)->0;
            exists|mid: Seq<Option<SurfaceView<Tab>>>|
                #![auto]
                {
                    &&& leaf_now(before, mid, sp, l@.removed_choosing(k, None))
                    &&& leaf_now(mid, after, p, t@.arrived(arrival(t@, insert), tab))
                }
        },
    }
}

/// `after` is `before` with the split at `path` (which was `sn`) put away behind one arrow, or
/// brought back, as `stowed` says; its layout and children as they were.
pub open spec fn split_now<Tab>(
    before: Seq<Option<SurfaceView<Tab>>>,
    after: Seq<Option<SurfaceView<Tab>>>,
    path: NodePath,
    sn: SplitNode,
    stowed: bool,
) -> bool {
    exists|sn2: SplitNode|
        #![auto]
        sn2.horizontal == sn.horizontal && sn2.children@ == sn.children@ && sn2.stowed == stowed
            && after == with_node(before, path, Node::Split(sn2))
}

proof fn lemma_leaf_wf<Tab>(dock: &DockState<Tab>, path: NodePath)
    requires
        dock.wf(),
        node_at(dock@, path) is Some,
    ensures
        node_at(dock@, path)->0.wf(),
        leaf_at(dock@, path) matches Some(l) ==> l.wf(),
{
    let sv = dock@[path.surface.0 as int]->0;
    assert(sv.wf());
    assert(sv.nodes[path.node.0 as int].wf());
}

impl<Tab> DockState<Tab> {
    /// Show the tab at `path` in its leaf; `true` if that changed anything. Nothing changes if
    /// `path` names no tab or the tab is already shown.
    pub fn activate_tab(&mut self, path: TabPath) -> (changed: bool)
        requires
            old(self).wf(),
        ensures
            final(self).wf(),
            final(self).spec_focused() == old(self).spec_focused(),
            changed <==> names_tab(old(self)@, path) && !leaf_at(old(self)@, path.node_path())->0@.is_active(
                path.tab.0 as int,
            ),
            changed ==> leaf_now(
                old(self)@,
                final(self)@,
                path.node_path(),
                leaf_at(old(self)@, path.node_path())->0@.activated(path.tab.0 as int),
            ),
            !changed ==> final(self)@ == old(self)@,
    {
        let lp = path.node_path();
        let wanted = match self.leaf(lp) {
            Ok(leaf) => match leaf.tab_id_at(path.tab) {
                Some(id) => match leaf.active() {
                    Some(a) => a.0 != id.0,
                    None => true,
                },
                None => false,
            },
            Err(_) => false,
        };
        proof {
            if node_at(self@, lp) is Some {
                lemma_leaf_wf(self, lp);
            }
        }
        if !wanted {
            return false;
        }
        let ghost d0 = self@;
        let mut l = self.take_leaf(lp).unwrap();
        proof {
            lemma_with_node(d0, lp, Node::Empty, Node::Empty);
        }
        l.activate(path.tab);
        let ghost lv = l;
        self.put_node(lp, Node::Leaf(l));
        proof {
            lemma_with_node(d0, lp, Node::Empty, Node::Leaf(lv));
        }
        true
    }

    /// Close the tab at `path` and hand it back; if it was the one shown, its leaf goes on to show
    /// `successor` (see [`LeafView::removed_choosing`]). `None` (and nothing changed) if `path`
    /// names no tab.
    pub fn close_tab(&mut self, path: TabPath, successor: Option<TabIndex>) -> (tab: Option<Tab>)
        requires
            old(self).wf(),
        ensures
            final(self).wf(),
            final(self).spec_focused() == old(self).spec_focused(),
            names_tab(old(self)@, path) ==> {
                let l = leaf_at(old(self)@, path.node_path())->0;
                &&& tab == Some(l@.tabs[path.tab.0 as int])
                &&& leaf_now(
                    old(self)@,
                    final(self)@,
                    path.node_path(),
                    l@.removed_choosing(path.tab.0 as int, successor),
                )
            },
            !names_tab(old(self)@, path) ==> tab is None && final(self)@ == old(self)@,
    {
        let lp = path.node_path();
        let there = match self.leaf(lp) {
            Ok(leaf) => path.tab.0 < leaf.len(),
            Err(_) => false,
        };
        if !there {
            return None;
        }
        proof {
            lemma_leaf_wf(self, lp);
        }
        let ghost d0 = self@;
        let mut l = self.take_leaf(lp).unwrap();
        proof {
            lemma_with_node(d0, lp, Node::Empty, Node::Empty);
        }
        let tab = l.remove_tab_choosing(path.tab, successor);
        let ghost lv = l;
        self.put_node(lp, Node::Leaf(l));
        proof {
            lemma_with_node(d0, lp, Node::Empty, Node::Leaf(lv));
        }
        tab
    }

    /// Close the node at `path` and hand back every tab it held, in order; `None` (and nothing
    /// changed) if there is no node there. Its tabs are taken out before it is unlinked
    /// ([`closes_node`]); its identity is never handed out again.
    pub fn close_node(&mut self, path: NodePath) -> (closed: Option<Vec<Tab>>)
        requires
            old(self).wf(),
        ensures
            final(self).wf(),
            final(self).spec_focused() == old(self).spec_focused(),
            match node_at(old(self)@, path) {
                Some(n) => closed matches Some(c) && c@ == n.tabs_of() && closes_node(
                    old(self)@,
                    final(self)@,
                    path,
                ),
                None => closed is None && final(self)@ == old(self)@,
            },
    {
        proof {
            if node_at(self@, path) is Some {
                lemma_leaf_wf(self, path);
            }
        }
        let ghost d0 = self@;
        match self.remove_node(path) {
            Some(node) => {
                let mut node = node;
                let taken = drain_tabs(&mut node);
                proof {
                    lemma_with_node(d0, path, Node::Empty, Node::Empty);
                }
                self.unlink(path.surface, path.node);
                Some(taken)
            },
            None => None,
        }
    }

    /// Close the floating window `surface` and hand back every tab it held, node by node; `None`
    /// (and nothing changed) for the main surface or a surface the dock does not have.
    pub fn close_window(&mut self, surface: SurfaceIndex) -> (closed: Option<Vec<Tab>>)
        requires
            old(self).wf(),
        ensures
            final(self).wf(),
            final(self).spec_focused() == old(self).spec_focused(),
            surface.0 != 0 && surface_of(old(self)@, surface) is Some ==> {
                &&& closed matches Some(c) && c@ == all_tabs(surface_of(old(self)@, surface)->0.nodes)
                &&& final(self)@ == old(self)@.update(surface.0 as int, None)
            },
            !(surface.0 != 0 && surface_of(old(self)@, surface) is Some) ==> closed is None
                && final(self)@ == old(self)@,
    {
        proof {
            if surface.0 < self@.len() && self@[surface.0 as int] is Some {
                assert(self@[surface.0 as int]->0.wf());
            }
        }
        match self.remove_window(surface) {
            Some(s) => Some(s.drain_all()),
            None => None,
        }
    }

    /// Open `tab` in a floating window of its own; returns the window's surface.
    fn open_window_with(&mut self, tab: Tab) -> (surface: SurfaceIndex)
        requires
            old(self).wf(),
        ensures
            final(self).wf(),
            final(self).spec_focused() == old(self).spec_focused(),
            surface.0 == old(self)@.len(),
            final(self)@.len() == old(self)@.len() + 1,
            final(self)@.drop_last() == old(self)@,
            final(self)@.last() matches Some(sv) && fresh_window(sv, tab),
    {
        let mut tabs: Vec<Tab> = Vec::new();
        tabs.push(tab);
        let surface = self.add_window(tabs);
        proof {
            let sv = self@[surface.0 as int]->0;
            assert(self@ == old(self)@.push(self@[surface.0 as int]));
            assert(self@.drop_last() =~= old(self)@);
            assert(self@.last() == self@[surface.0 as int]);
            let l = sv.nodes[0]->Leaf_0;
            assert(l@.tabs =~= seq![tab]);
            assert(self@[surface.0 as int]->0.wf());
            assert(sv.nodes[0].wf());
            assert(l@.ids.len() == 1);
            assert(l@.ids[0].0 == 0);
            assert(l@.ids =~= seq![crate::address::TabId(0)]);
        }
        surface
    }

    /// Pull the tab at `path` out of its leaf into a floating window of its own; `false` (and
    /// nothing changed) if `path` names no tab.
    pub fn detach_tab(&mut self, path: TabPath) -> (done: bool)
        requires
            old(self).wf(),
        ensures
            final(self).wf(),
            final(self).spec_focused() == old(self).spec_focused(),
            done <==> names_tab(old(self)@, path),
            done ==> detached(old(self)@, final(self)@, path),
            !done ==> final(self)@ == old(self)@,
    {
        let ghost d0 = self@;
        let tab = match self.close_tab(path, None) {
            Some(tab) => tab,
            None => return false,
        };
        let ghost mid = self@;
        self.open_window_with(tab);
        proof {
            let l = leaf_at(d0, path.spec_node_path())->0;
            assert(leaf_now(d0, mid, path.spec_node_path(), l@.removed_choosing(path.tab.0 as int, None)));
        }
        true
    }

    /// Drop the tab at `source` onto `destination`, as [`moves`] says; `true` exactly when that
    /// changes the dock ([`move_changes`]), and otherwise nothing changes.
    pub fn move_tab(&mut self, source: TabPath, destination: TabDestination) -> (moved: bool)
        requires
            old(self).wf(),
        ensures
            final(self).wf(),
            final(self).spec_focused() == old(self).spec_focused(),
            moved == move_changes(old(self)@, source, destination),
            moved ==> moves(old(self)@, final(self)@, source, destination),
            !moved ==> final(self)@ == old(self)@,
    {
        let sp = source.node_path();
        let k = source.tab;
        let len = match self.leaf(sp) {
            Ok(l) => l.len(),
            Err(_) => return false,
        };
        if k.0 >= len {
            return false;
        }
        proof {
            lemma_leaf_wf(self, sp);
        }
        let ghost d0 = self@;
        let ghost l0 = leaf_at(d0, sp)->0;
        match destination {
            TabDestination::Window(_) => {
                self.detach_tab(source);
                true
            },
            TabDestination::EmptySurface(s) => {
                if !self.is_surface_valid(s) {
                    return false;
                }
                let tab = self.close_tab(source, None).unwrap();
                let ghost mid = self@;
                proof {
                    let lw = choose|lw: LeafNode<Tab>|
                        #![auto]
                        lw.wf() && lw@ == l0@.removed_choosing(k.0 as int, None) && mid == with_node(
                            d0,
                            sp,
                            Node::Leaf(lw),
                        );
                    lemma_with_node_elsewhere(d0, sp, Node::Leaf(lw), sp, s);
                }
                let mut tabs: Vec<Tab> = Vec::new();
                tabs.push(tab);
                let node = Node::leaf_with(tabs);
                let ghost nl = node->Leaf_0;
                let ghost gnode = node;
                let ghost msv = surface_of(mid, s)->0;
                assert(gnode == Node::Leaf(nl));
                let id = self.push_node(s, node).unwrap();
                let ghost mid2 = self@;
                proof {
                    assert(mid2 == mid.update(
                        s.0 as int,
                        Some(SurfaceView { nodes: msv.nodes.push(gnode), root: msv.root, ..msv }),
                    ));
                    assert(mid2[s.0 as int] == Some(
                        SurfaceView { nodes: msv.nodes.push(gnode), root: msv.root, ..msv },
                    ));
                    assert(msv.nodes.push(gnode)[id.0 as int] == gnode);
                    assert(node_at(mid2, NodePath { surface: s, node: id }) is Some);
                }
                self.set_root(s, id);
                proof {
                    assert(nl@.tabs =~= seq![tab]);
                    assert(nl@.ids.len() == 1);
                    assert(nl@.ids[0].0 == 0);
                    assert(nl@.ids =~= seq![crate::address::TabId(0)]);
                    assert(self@ =~= mid.update(
                        s.0 as int,
                        Some(
                            SurfaceView {
                                nodes: msv.nodes.push(Node::Leaf(nl)),
                                root: Some(NodeId(msv.nodes.len() as usize)),
                                ..msv
                            },
                        ),
                    ));
                }
                true
            },
            TabDestination::Node(p, TabInsert::Split(side)) => {
                let ps = p.surface;
                let there = self.node(p).is_ok();
                if !there {
                    return false;
                }
                let same = p.surface.0 == sp.surface.0 && p.node.0 == sp.node.0;
                if same && len == 1 {
                    return false;
                }
                let tab = self.close_tab(source, None).unwrap();
                let ghost mid = self@;
                proof {
                    let lw = choose|lw: LeafNode<Tab>|
                        #![auto]
                        lw.wf() && lw@ == l0@.removed_choosing(k.0 as int, None) && mid == with_node(
                            d0,
                            sp,
                            Node::Leaf(lw),
                        );
                    lemma_with_node_elsewhere(d0, sp, Node::Leaf(lw), sp, ps);
                }
                let ghost msv = surface_of(mid, ps)->0;
                let mut tabs: Vec<Tab> = Vec::new();
                tabs.push(tab);
                let leaf = Node::leaf_with(tabs);
                let ghost gleaf = leaf;
                let a = self.push_node(ps, leaf).unwrap();
                let ghost d1 = self@;
                let horizontal = match side {
                    Split::Left | Split::Right => true,
                    Split::Above | Split::Below => false,
                };
                let placeholder: Node<Tab> = Node::Split(SplitNode { horizontal, children: Vec::new(), stowed: false });
                let ghost gph = placeholder;
                let b = self.push_node(ps, placeholder).unwrap();
                let ghost d2 = self@;
                let ghost sv2 = surface_of(d2, ps)->0;
                self.relink(ps, p.node, b);
                let ghost d3 = self@;
                let mut children: Vec<NodeId> = Vec::new();
                match side {
                    Split::Left | Split::Above => {
                        children.push(a);
                        children.push(p.node);
                    },
                    Split::Right | Split::Below => {
                        children.push(p.node);
                        children.push(a);
                    },
                }
                let joint: Node<Tab> = Node::Split(SplitNode { horizontal, children, stowed: false });
                let ghost gj = joint;
                proof {
                    let rsv = choose|after: SurfaceView<Tab>|
                        #![auto]
                        relinks(sv2, after, p.node, b) && d3 == d2.update(ps.0 as int, Some(after));
                    assert(d3[ps.0 as int] == Some(rsv));
                    assert(surface_of(d3, ps) == Some(rsv));
                }
                self.put_node(NodePath::new(ps, b), joint);
                proof {
                    let rsv = choose|after: SurfaceView<Tab>|
                        #![auto]
                        relinks(sv2, after, p.node, b) && d3 == d2.update(ps.0 as int, Some(after));
                    let n = msv.nodes.len();
                    assert(d1[ps.0 as int]->0.nodes == msv.nodes.push(gleaf));
                    assert(sv2.nodes == msv.nodes.push(gleaf).push(gph));
                    assert(b.0 == n + 1);
                    assert(a.0 == n);
                    let fsv = self@[ps.0 as int]->0;
                    assert(fsv.nodes == rsv.nodes.update(b.0 as int, gj));
                    assert forall|i: int| 0 <= i < n implies relinked_node(
                        #[trigger] msv.nodes[i],
                        fsv.nodes[i],
                        p.node,
                        NodeId((n + 1) as usize),
                    ) by {
                        assert(sv2.nodes[i] == msv.nodes[i]);
                        assert(relinked_node(sv2.nodes[i], rsv.nodes[i], p.node, b));
                    }
                    assert(sv2.nodes[n as int] == gleaf);
                    assert(relinked_node(sv2.nodes[n as int], rsv.nodes[n as int], p.node, b));
                    assert(fsv.nodes[n as int] == gleaf);
                    assert(gleaf->Leaf_0@.tabs =~= seq![tab]);
                    assert(gleaf->Leaf_0@.ids.len() == 1);
                    assert(gleaf->Leaf_0@.ids[0].0 == 0);
                    assert(gleaf->Leaf_0@.ids =~= seq![crate::address::TabId(0)]);
                    assert(gj->Split_0.children@ =~= if side == Split::Left || side == Split::Above {
                        seq![NodeId(n as usize), p.node]
                    } else {
                        seq![p.node, NodeId(n as usize)]
                    });
                    assert(self@ =~= mid.update(ps.0 as int, self@[ps.0 as int]));
                    assert(split_beside(msv, self@[ps.0 as int], p.node, side, tab));
                }
                true
            },
            TabDestination::Node(p, insert) => {
                let same = p.surface.0 == sp.surface.0 && p.node.0 == sp.node.0;
                if same {
                    let j = match insert {
                        TabInsert::Insert(i) => {
                            if i.0 > len {
                                return false;
                            }
                            if i.0 <= k.0 {
                                i.0
                            } else {
                                i.0 - 1
                            }
                        },
                        _ => len - 1,
                    };
                    if j == k.0 {
                        return false;
                    }
                    let mut l = self.take_leaf(sp).unwrap();
                    proof {
                        lemma_with_node(d0, sp, Node::Empty, Node::Empty);
                    }
                    l.move_within(k, TabIndex(j));
                    let ghost lv = l;
                    self.put_node(sp, Node::Leaf(l));
                    proof {
                        lemma_with_node(d0, sp, Node::Empty, Node::Leaf(lv));
                    }
                    true
                } else {
                    let (tlen, open) = match self.leaf(p) {
                        Ok(t) => (t.len(), !t.ids_exhausted()),
                        Err(_) => return false,
                    };
                    if !open {
                        return false;
                    }
                    let j = match insert {
                        TabInsert::Insert(i) => {
                            if i.0 > tlen {
                                return false;
                            }
                            i.0
                        },
                        _ => tlen,
                    };
                    proof {
                        lemma_leaf_wf(self, p);
                    }
                    let ghost t0 = leaf_at(d0, p)->0;
                    let tab = self.close_tab(source, None).unwrap();
                    let ghost mid = self@;
                    proof {
                        let lw = choose|lw: LeafNode<Tab>|
                            #![auto]
                            lw.wf() && lw@ == l0@.removed_choosing(k.0 as int, None) && mid
                                == with_node(d0, sp, Node::Leaf(lw));
                        lemma_with_node_elsewhere(d0, sp, Node::Leaf(lw), p, p.surface);
                        assert(leaf_at(mid, p) == Some(t0));
                    }
                    let mut t = self.take_leaf(p).unwrap();
                    proof {
                        lemma_with_node(mid, p, Node::Empty, Node::Empty);
                    }
                    t.arrive_tab(TabIndex(j), tab);
                    let ghost tv = t;
                    self.put_node(p, Node::Leaf(t));
                    proof {
                        lemma_with_node(mid, p, Node::Empty, Node::Leaf(tv));
                    }
                    true
                }
            },
        }
    }

    /// Fold the leaf at `path` down to its tab bar, or unfold it; `true` if that changed it.
    /// Nothing changes if there is no leaf there.
    pub fn set_leaf_collapsed(&mut self, path: NodePath, collapsed: bool) -> (changed: bool)
        requires
            old(self).wf(),
        ensures
            final(self).wf(),
            final(self).spec_focused() == old(self).spec_focused(),
            changed <==> (leaf_at(old(self)@, path) is Some && leaf_at(old(self)@, path)->0@.collapsed
                != collapsed),
            changed ==> leaf_now(
                old(self)@,
                final(self)@,
                path,
                LeafView { collapsed, ..leaf_at(old(self)@, path)->0@ },
            ),
            !changed ==> final(self)@ == old(self)@,
    {
        let differs = match self.leaf(path) {
            Ok(l) => l.is_collapsed() != collapsed,
            Err(_) => false,
        };
        if !differs {
            return false;
        }
        proof {
            lemma_leaf_wf(self, path);
        }
        let ghost d0 = self@;
        let mut l = self.take_leaf(path).unwrap();
        proof {
            lemma_with_node(d0, path, Node::Empty, Node::Empty);
        }
        l.set_collapsed(collapsed);
        let ghost lv = l;
        self.put_node(path, Node::Leaf(l));
        proof {
            lemma_with_node(d0, path, Node::Empty, Node::Leaf(lv));
        }
        true
    }

    /// Put the split at `path` away behind one arrow, or bring it back; `true` if that changed
    /// it. Nothing changes if there is no split there.
    pub fn set_split_stowed(&mut self, path: NodePath, stowed: bool) -> (changed: bool)
        requires
            old(self).wf(),
        ensures
            final(self).wf(),
            final(self).spec_focused() == old(self).spec_focused(),
            changed <==> (node_at(old(self)@, path) matches Some(Node::Split(sn)) && sn.stowed != stowed),
            changed ==> split_now(
                old(self)@,
                final(self)@,
                path,
                node_at(old(self)@, path)->0->Split_0,
                stowed,
            ),
            !changed ==> final(self)@ == old(self)@,
    {
        let differs = match self.node(path) {
            Ok(Node::Split(sn)) => sn.stowed != stowed,
            _ => false,
        };
        if !differs {
            return false;
        }
        let ghost d0 = self@;
        let node = self.remove_node(path).unwrap();
        let ghost gn = node;
        assert(gn == node_at(d0, path)->0);
        proof {
            lemma_with_node(d0, path, Node::Empty, Node::Empty);
        }
        let sn = match node {
            Node::Split(sn) => sn,
            _ => return false,
        };
        let split = SplitNode { horizontal: sn.horizontal, children: sn.children, stowed };
        let ghost gs = split;
        assert(gs.children@ == gn->Split_0.children@);
        assert(gs.horizontal == gn->Split_0.horizontal);
        self.put_node(path, Node::Split(split));
        proof {
            lemma_with_node(d0, path, Node::Empty, Node::Split(gs));
        }
        true
    }
}

} // verus!
