//! Addresses inside a dock: surfaces, nodes, tabs, and the paths that combine them.
//!
//! A [`NodeId`] and a [`TabId`] are identities: they are handed out once and never reused, so an
//! address built from them follows the thing it names through edits of its neighbours. A
//! [`TabIndex`] is a position in a tab bar and is renumbered by every such edit.

use vstd::prelude::*;

verus! {

/// Which surface of a dock: the main one, or one of the floating windows.
#[derive(Clone, Copy, Debug, PartialEq, Eq, Hash, Structural)]
pub struct SurfaceIndex(pub usize);

/// A node of a surface, by identity.
#[derive(Clone, Copy, Debug, PartialEq, Eq, Hash, Structural)]
pub struct NodeId(pub usize);

/// A tab, by the identity its leaf handed out when the tab arrived.
#[derive(Clone, Copy, Debug, PartialEq, Eq, Hash, Structural)]
pub struct TabId(pub u64);

/// A position in a leaf's tab bar, counted from the left.
#[derive(Clone, Copy, Debug, PartialEq, Eq, Hash, Structural)]
pub struct TabIndex(pub usize);

/// A node, addressed by the surface it lives on and its identity there.
#[derive(Clone, Copy, Debug, PartialEq, Eq, Hash, Structural)]
pub struct NodePath {
    pub surface: SurfaceIndex,
    pub node: NodeId,
}

/// A tab, addressed by its leaf and its position in that leaf's bar.
#[derive(Clone, Copy, Debug, PartialEq, Eq, Hash, Structural)]
pub struct TabPath {
    pub surface: SurfaceIndex,
    pub node: NodeId,
    pub tab: TabIndex,
}

/// One gap of a row: the boundary between child `gap` and child `gap + 1`.
#[derive(Clone, Copy, Debug, PartialEq, Eq, Hash, Structural)]
pub struct GapPath {
    pub row: NodePath,
    pub gap: usize,
}

impl SurfaceIndex {
    /// The main surface, which every dock has and which is never removed.
    pub fn main() -> (s: SurfaceIndex)
        ensures
            s.0 == 0,
    {
        SurfaceIndex(0)
    }

    /// The surface of floating window number `window`, counted from zero.
    pub fn window(window: usize) -> (s: SurfaceIndex)
        requires
            window < usize::MAX,
        ensures
            s.0 == window + 1,
    {
        SurfaceIndex(window + 1)
    }

    /// Whether this is the main surface.
    pub fn is_main(&self) -> (b: bool)
        ensures
            b <==> self.0 == 0,
    {
        self.0 == 0
    }

    /// Whether this is the surface of a floating window.
    pub fn is_window(&self) -> (b: bool)
        ensures
            b <==> self.0 != 0,
    {
        self.0 != 0
    }
}

impl NodePath {
    pub fn new(surface: SurfaceIndex, node: NodeId) -> (p: NodePath)
        ensures
            p.surface == surface,
            p.node == node,
    {
        NodePath { surface, node }
    }
}

impl TabPath {
    pub fn new(surface: SurfaceIndex, node: NodeId, tab: TabIndex) -> (p: TabPath)
        ensures
            p.surface == surface,
            p.node == node,
            p.tab == tab,
    {
        TabPath { surface, node, tab }
    }

    pub open spec fn spec_node_path(&self) -> NodePath {
        NodePath { surface: self.surface, node: self.node }
    }

    /// The leaf this tab sits in.
    #[verifier::when_used_as_spec(spec_node_path)]
    pub fn node_path(&self) -> (p: NodePath)
        ensures
            p.surface == self.surface,
            p.node == self.node,
    {
        NodePath { surface: self.surface, node: self.node }
    }

    /// The tab at `tab` in the leaf `node`.
    pub fn at(node: NodePath, tab: TabIndex) -> (p: TabPath)
        ensures
            p.surface == node.surface,
            p.node == node.node,
            p.tab == tab,
    {
        TabPath { surface: node.surface, node: node.node, tab }
    }
}

/// A side of a node that a dropped tab can split off.
#[derive(Clone, Copy, Debug, PartialEq, Eq, Hash, Structural)]
pub enum Split {
    Left,
    Right,
    Above,
    Below,
}

impl Split {
    /// `true` for the splits that stack the new node over or under the old one.
    pub fn is_top_bottom(&self) -> (b: bool)
        ensures
            b <==> (*self == Split::Above || *self == Split::Below),
    {
        match self {
            Split::Above | Split::Below => true,
            Split::Left | Split::Right => false,
        }
    }

    /// `true` for the splits that put the new node beside the old one.
    pub fn is_left_right(&self) -> (b: bool)
        ensures
            b <==> (*self == Split::Left || *self == Split::Right),
    {
        match self {
            Split::Left | Split::Right => true,
            Split::Above | Split::Below => false,
        }
    }
}

/// Which splits a drop may create.
#[derive(Clone, Copy, Debug, PartialEq, Eq, Hash, Structural)]
pub enum AllowedSplits {
    All,
    LeftRightOnly,
    TopBottomOnly,
    NoSplits,
}

impl AllowedSplits {
    /// Whether `split` may be made under this setting.
    pub fn allows(&self, split: Split) -> (b: bool)
        ensures
            b <==> spec_allows(*self, split),
    {
        match self {
            AllowedSplits::All => true,
            AllowedSplits::LeftRightOnly => split.is_left_right(),
            AllowedSplits::TopBottomOnly => split.is_top_bottom(),
            AllowedSplits::NoSplits => false,
        }
    }
}

pub open spec fn spec_allows(allowed: AllowedSplits, split: Split) -> bool {
    match allowed {
        AllowedSplits::All => true,
        AllowedSplits::LeftRightOnly => split == Split::Left || split == Split::Right,
        AllowedSplits::TopBottomOnly => split == Split::Above || split == Split::Below,
        AllowedSplits::NoSplits => false,
    }
}

/// Where, inside a leaf, a dropped tab goes.
#[derive(Clone, Copy, Debug, PartialEq, Eq, Hash, Structural)]
pub enum TabInsert {
    /// Split the leaf, and put the tab in the new half.
    Split(Split),
    /// At this position of the bar.
    Insert(TabIndex),
    /// After every tab the leaf already holds.
    Append,
}

} // verus!
