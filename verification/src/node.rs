//! A node of a surface's tree: a leaf of tabs, a split dividing its area among children, or the
//! empty slot a removed node leaves behind (so that no other node ever inherits its identity).

use vstd::prelude::*;

use crate::address::{NodeId, TabId, TabIndex};
use crate::leaf::LeafNode;

verus! {

/// A node that divides its area among its children, side by side or stacked.
#[derive(Debug)]
pub struct SplitNode {
    /// `true` if the children are laid out side by side.
    pub horizontal: bool,
    /// The children, in layout order.
    pub children: Vec<NodeId>,
    /// Whether the whole split is put away behind one arrow.
    pub stowed: bool,
}

/// One node of a surface.
pub enum Node<Tab> {
    /// Nothing lives here (any more).
    Empty,
    /// A tab bar and the tabs in it.
    Leaf(LeafNode<Tab>),
    /// An area divided among children.
    Split(SplitNode),
}

impl<Tab> Node<Tab> {
    /// A leaf node is well formed when its leaf is; other nodes always are.
    pub open spec fn wf(&self) -> bool {
        match self {
            Node::Leaf(leaf) => leaf.wf(),
            _ => true,
        }
    }

    /// The tabs this node holds, left to right: none unless it is a leaf.
    pub open spec fn tabs_of(&self) -> Seq<Tab> {
        match self {
            Node::Leaf(leaf) => leaf@.tabs,
            _ => Seq::empty(),
        }
    }

    /// A leaf holding `tabs`, in that order.
    pub fn leaf_with(tabs: Vec<Tab>) -> (node: Node<Tab>)
        requires
            tabs.len() < u64::MAX,
        ensures
            node.wf(),
            node is Leaf,
            node.tabs_of() == tabs@,
            node->Leaf_0@.next_id == tabs.len(),
            forall|i: int| 0 <= i < tabs.len() ==> (#[trigger] node->Leaf_0@.ids[i]).0 == i,
            node->Leaf_0@.active == if tabs.len() == 0 {
                None
            } else {
                Some(TabId(0))
            },
            !node->Leaf_0@.collapsed,
            node->Leaf_0@.history == Seq::<TabId>::empty(),
    {
        Node::Leaf(LeafNode::with_tabs(tabs))
    }

    /// Whether this node is a leaf.
    pub fn is_leaf(&self) -> (b: bool)
        ensures
            b <==> self is Leaf,
    {
        match self {
            Node::Leaf(_) => true,
            _ => false,
        }
    }

    /// Whether this node is the empty slot of a removed node.
    pub fn is_empty(&self) -> (b: bool)
        ensures
            b <==> self is Empty,
    {
        match self {
            Node::Empty => true,
            _ => false,
        }
    }

    /// The leaf, if this node is one.
    pub fn get_leaf(&self) -> (leaf: Option<&LeafNode<Tab>>)
        ensures
            match self {
                Node::Leaf(l) => leaf == Some(l),
                _ => leaf is None,
            },
    {
        match self {
            Node::Leaf(leaf) => Some(leaf),
            _ => None,
        }
    }

    /// How many tabs this node holds: zero unless it is a leaf.
    pub fn tabs_count(&self) -> (n: usize)
        ensures
            n == self.tabs_of().len(),
    {
        match self {
            Node::Leaf(leaf) => leaf.len(),
            _ => 0,
        }
    }

    /// Take the tab at `index` out of this node; `None` if it is not a leaf or its bar is not
    /// that long.
    pub fn remove_tab(&mut self, index: TabIndex) -> (tab: Option<Tab>)
        requires
            old(self).wf(),
        ensures
            final(self).wf(),
            *final(self) is Leaf <==> *old(self) is Leaf,
            index.0 < old(self).tabs_of().len() ==> {
                &&& tab == Some(old(self).tabs_of()[index.0 as int])
                &&& final(self).tabs_of() == old(self).tabs_of().remove(index.0 as int)
            },
            index.0 >= old(self).tabs_of().len() ==> tab is None && final(self).tabs_of() == old(
                self,
            ).tabs_of(),
            *old(self) is Leaf ==> final(self)->Leaf_0@.next_id == old(self)->Leaf_0@.next_id,
            *old(self) is Leaf && index.0 < old(self).tabs_of().len() ==> final(self)->Leaf_0@
                == old(self)->Leaf_0@.removed(index.0 as int),
            !(*old(self) is Leaf) ==> *final(self) == *old(self),
    {
        match self {
            Node::Leaf(leaf) => leaf.remove_tab(index),
            _ => None,
        }
    }
}

} // verus!
