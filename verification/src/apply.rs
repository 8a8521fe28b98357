//! Putting a frame's requests on the tree: the pieces of it that decide rather than draw.

use vstd::prelude::*;

use crate::address::{TabIndex, TabInsert};
use crate::dock_state::{leaf_at, node_error, surface_of, DockState, SurfaceView};
use crate::drag::{TabDestination, TreeComponent};
use crate::node::Node;

verus! {

/// Take every tab out of `node`, in the order it held them.
///
/// A leaf on its way out still owns its tabs, and dropping it would drop them with it. They are
/// taken from the front, so that the application is told about them the way it saw them.
pub fn drain_tabs<Tab>(node: &mut Node<Tab>) -> (taken: Vec<Tab>)
    requires
        old(node).wf(),
    ensures
        taken@ == old(node).tabs_of(),
        final(node).tabs_of() == Seq::<Tab>::empty(),
        final(node).wf(),
        *final(node) is Leaf <==> *old(node) is Leaf,
{
    let ghost all = node.tabs_of();
    let mut taken: Vec<Tab> = Vec::with_capacity(node.tabs_count());
    loop
        invariant
            node.wf(),
            taken@ + node.tabs_of() == all,
            *node is Leaf <==> *old(node) is Leaf,
        ensures
            taken@ == all,
            node.tabs_of() == Seq::<Tab>::empty(),
            node.wf(),
            *node is Leaf <==> *old(node) is Leaf,
        decreases node.tabs_of().len(),
    {
        let ghost before = node.tabs_of();
        match node.remove_tab(TabIndex(0)) {
            Some(tab) => {
                taken.push(tab);
                proof {
                    assert(taken@ + node.tabs_of() =~= all);
                }
            },
            None => {
                proof {
                    assert(taken@ + node.tabs_of() =~= taken@);
                }
                break ;
            },
        }
    }
    taken
}

/// Whether the destination `destination` still names somewhere to drop onto in `dock`.
pub open spec fn spec_destination_is_live<Tab>(
    dock: Seq<Option<SurfaceView<Tab>>>,
    destination: TabDestination,
) -> bool {
    match destination {
        TabDestination::Window(_) => true,
        TabDestination::EmptySurface(surface) => surface_of(dock, surface) is Some,
        TabDestination::Node(path, insert) => match insert {
            TabInsert::Insert(index) => match leaf_at(dock, path) {
                Some(leaf) => index.0 <= leaf@.tabs.len(),
                None => false,
            },
            _ => node_error(dock, path) is None,
        },
    }
}

/// Whether a destination settled before this pass drew still names somewhere to drop onto.
///
/// A destination is a *path*, and the requests applied ahead of the drop can have taken what it
/// names away — or, for an insertion, shortened the bar the slot was counted in. A window is made
/// by the drop itself, so it is always live; the far edge of a bar is a slot like any other, so an
/// insertion at exactly the length of the bar is live too.
pub fn destination_is_live<Tab>(tree: &DockState<Tab>, destination: TabDestination) -> (live: bool)
    ensures
        live == spec_destination_is_live(tree@, destination),
{
    match destination {
        TabDestination::Window(_) => true,
        TabDestination::EmptySurface(surface) => tree.is_surface_valid(surface),
        TabDestination::Node(path, insert) => match insert {
            TabInsert::Insert(index) => match tree.leaf(path) {
                Ok(leaf) => index.0 <= leaf.len(),
                Err(_) => false,
            },
            TabInsert::Append | TabInsert::Split(_) => tree.node(path).is_ok(),
        },
    }
}

/// A drop aimed at what the pointer was over is live exactly as long as that target is: aimed at
/// a node, it is live exactly when the node has not gone; aimed at an empty surface, exactly when
/// the surface is still there; aimed at a tab's slot, only while that tab's leaf is there.
pub proof fn lemma_destination_is_live_while_its_target_is<Tab>(
    dock: Seq<Option<SurfaceView<Tab>>>,
    target: TreeComponent,
)
    ensures
        target is Node ==> (spec_destination_is_live(dock, target.spec_as_tab_destination())
            <==> !target.spec_node_is_gone(dock)),
        target is Surface ==> (spec_destination_is_live(dock, target.spec_as_tab_destination())
            <==> surface_of(dock, target->Surface_0) is Some),
        target is Tab && spec_destination_is_live(dock, target.spec_as_tab_destination())
            ==> !target.spec_node_is_gone(dock),
{
}

} // verus!
