//! Writing a regrouped split into a dock: each split of the new grouping is written over the
//! node whose identity it reuses, so that the nodes it keeps, and every link from outside it, stay
//! where they are.

use vstd::prelude::*;

use crate::address::{NodeId, NodePath, SurfaceIndex};
use crate::cross_split::Regroup;
use crate::dock_state::{DockState, SurfaceView, surface_of, with_node};
use crate::node::{Node, SplitNode};

verus! {

/// The node a grouping hangs from: the node kept, or the split at its top.
pub open spec fn top(r: Regroup) -> NodeId {
    match r {
        Regroup::Keep(node) => node,
        Regroup::Split { id, .. } => id,
    }
}

/// Every split of a grouping, each before the splits inside it, first child before second, as
/// `(identity, laid out side by side, first child, second child)`.
pub open spec fn splits_of(r: Regroup) -> Seq<(NodeId, bool, NodeId, NodeId)>
    decreases r,
{
    match r {
        Regroup::Keep(_) => Seq::empty(),
        Regroup::Split { id, horizontal, first, second, .. } => seq![
            (id, horizontal, top(*first), top(*second)),
        ] + splits_of(*first) + splits_of(*second),
    }
}

/// [`splits_of`], appended to `out`.
pub fn list_splits(r: &Regroup, out: &mut Vec<(NodeId, bool, NodeId, NodeId)>)
    ensures
        final(out)@ == old(out)@ + splits_of(*r),
    decreases r,
{
    match r {
        Regroup::Keep(_) => {
            assert(old(out)@ + splits_of(*r) =~= old(out)@);
        },
        Regroup::Split { id, horizontal, first, second, .. } => {
            let a = match &**first {
                Regroup::Keep(n) => *n,
                Regroup::Split { id, .. } => *id,
            };
            let b = match &**second {
                Regroup::Keep(n) => *n,
                Regroup::Split { id, .. } => *id,
            };
            out.push((*id, *horizontal, a, b));
            let ghost mid = out@;
            list_splits(&**first, out);
            list_splits(&**second, out);
            assert(out@ =~= old(out)@ + splits_of(*r));
        },
    }
}

/// Some split of `list` has the identity `i`.
pub open spec fn listed(list: Seq<(NodeId, bool, NodeId, NodeId)>, i: int) -> bool {
    exists|k: int| 0 <= k < list.len() && (#[trigger] list[k]).0.0 == i
}

/// The splits of `list` can be written into the surface `sv`: each reuses the identity of a split
/// of it, and no identity is reused twice.
pub open spec fn fits_surface<Tab>(sv: SurfaceView<Tab>, list: Seq<(NodeId, bool, NodeId, NodeId)>) -> bool {
    &&& forall|k: int|
        0 <= k < list.len() ==> (#[trigger] list[k]).0.0 < sv.nodes.len() && sv.nodes[list[k].0.0 as int] is Split
    &&& forall|k: int, m: int| 0 <= k < m < list.len() ==> (#[trigger] list[k]).0 != (#[trigger] list[m]).0
}

/// `node` is the split `entry` describes: laid out as it says, its children the two it names, and
/// not stowed.
pub open spec fn is_split_of<Tab>(node: Node<Tab>, entry: (NodeId, bool, NodeId, NodeId)) -> bool {
    node matches Node::Split(sn) && sn.horizontal == entry.1 && sn.children@ == seq![entry.2, entry.3]
        && !sn.stowed
}

/// `after` is the surface `before` with each split of `list` written over the node of its
/// identity — laid out as it says, its children the two it names, not stowed — and every other
/// node, its root and its minimized flag as they were.
pub open spec fn written<Tab>(
    before: SurfaceView<Tab>,
    after: SurfaceView<Tab>,
    list: Seq<(NodeId, bool, NodeId, NodeId)>,
) -> bool {
    &&& after.root == before.root
    &&& after.minimized == before.minimized
    &&& after.nodes.len() == before.nodes.len()
    &&& forall|k: int|
        0 <= k < list.len() ==> is_split_of(after.nodes[(#[trigger] list[k]).0.0 as int], list[k])
    &&& forall|i: int| 0 <= i < before.nodes.len() && !listed(list, i) ==> #[trigger] after.nodes[i] == before.nodes[i]
}

impl<Tab> DockState<Tab> {
    /// Write the grouping `shape` into surface `surface`: every split of it over the node of its
    /// identity. `false` (and nothing changed) if the dock has no such surface, or a split of the
    /// shape does not reuse a split of it, or reuses one twice.
    pub fn regroup(&mut self, surface: SurfaceIndex, shape: &Regroup) -> (done: bool)
        requires
            old(self).wf(),
        ensures
            final(self).wf(),
            final(self).spec_focused() == old(self).spec_focused(),
            done <==> (surface_of(old(self)@, surface) is Some && fits_surface(
                surface_of(old(self)@, surface)->0,
                splits_of(*shape),
            )),
            done ==> exists|sv: SurfaceView<Tab>|
                #![auto]
                written(surface_of(old(self)@, surface)->0, sv, splits_of(*shape)) && final(self)@
                    == old(self)@.update(surface.0 as int, Some(sv)),
            !done ==> final(self)@ == old(self)@,
    {
        let mut list: Vec<(NodeId, bool, NodeId, NodeId)> = Vec::new();
        list_splits(shape, &mut list);
        assert(list@ =~= splits_of(*shape));
        let ghost l = list@;
        let ghost d0 = self@;
        let s = match self.surface(surface) {
            Some(s) => s,
            None => return false,
        };
        let ghost sv = s@;
        let count = s.node_count();
        let mut k: usize = 0;
        while k < list.len()
            invariant
                k <= l.len(),
                list@ == l,
                l == splits_of(*shape),
                sv == s@,
                self@ == d0,
                self.wf(),
                d0 == old(self)@,
                self.spec_focused() == old(self).spec_focused(),
                surface_of(d0, surface) == Some(sv),
                count == sv.nodes.len(),
                forall|c: int|
                    0 <= c < k ==> (#[trigger] l[c]).0.0 < sv.nodes.len() && sv.nodes[l[c].0.0 as int] is Split,
                forall|c: int, m: int| 0 <= c < m < k ==> (#[trigger] l[c]).0 != (#[trigger] l[m]).0,
            decreases l.len() - k,
        {
            let id = list[k].0;
            if id.0 >= count {
                return false;
            }
            let is_split = match s.node(id) {
                Some(Node::Split(_)) => true,
                _ => false,
            };
            if !is_split {
                return false;
            }
            let mut m: usize = 0;
            while m < k
                invariant
                    m <= k,
                    k < l.len(),
                    list@ == l,
                    l == splits_of(*shape),
                    self@ == d0,
                    self.wf(),
                    d0 == old(self)@,
                    self.spec_focused() == old(self).spec_focused(),
                    surface_of(d0, surface) == Some(sv),
                    id == l[k as int].0,
                    forall|c: int| 0 <= c < m ==> (#[trigger] l[c]).0 != id,
                decreases k - m,
            {
                if list[m].0.0 == id.0 {
                    proof {
                        assert(l[m as int].0 == l[k as int].0);
                    }
                    return false;
                }
                m = m + 1;
            }
            k = k + 1;
        }
        proof {
            assert(fits_surface(sv, l));
            assert(d0.update(surface.0 as int, Some(sv)) =~= d0);
            assert(l.subrange(0, 0) =~= Seq::<(NodeId, bool, NodeId, NodeId)>::empty());
            assert(written(sv, sv, l.subrange(0, 0)));
        }
        let mut k: usize = 0;
        while k < list.len()
            invariant
                self.wf(),
                self.spec_focused() == old(self).spec_focused(),
                k <= l.len(),
                list@ == l,
                surface_of(d0, surface) == Some(sv),
                fits_surface(sv, l),
                d0 == old(self)@,
                exists|cur: SurfaceView<Tab>|
                    #![auto]
                    written(sv, cur, l.subrange(0, k as int)) && self@ == d0.update(surface.0 as int, Some(cur)),
            decreases l.len() - k,
        {
            let (id, horizontal, a, b) = list[k];
            let mut children: Vec<NodeId> = Vec::new();
            children.push(a);
            children.push(b);
            let split = SplitNode { horizontal, children, stowed: false };
            let ghost gs = split;
            let ghost cur = choose|cur: SurfaceView<Tab>|
                #![auto]
                written(sv, cur, l.subrange(0, k as int)) && self@ == d0.update(surface.0 as int, Some(cur));
            proof {
                assert(self@[surface.0 as int] == Some(cur));
            }
            self.put_node(NodePath::new(surface, id), Node::Split(split));
            proof {
                let next = SurfaceView { nodes: cur.nodes.update(id.0 as int, Node::Split(gs)), ..cur };
                assert(self@ =~= d0.update(surface.0 as int, Some(next)));
                let pre = l.subrange(0, k + 1);
                assert(gs.children@ =~= seq![a, b]);
                assert forall|c: int| 0 <= c < pre.len() implies is_split_of(
                    next.nodes[(#[trigger] pre[c]).0.0 as int],
                    pre[c],
                ) by {
                    if c < k {
                        assert(pre[c] == l.subrange(0, k as int)[c]);
                        assert(l[c].0 != l[k as int].0);
                    }
                }
                assert forall|i: int| 0 <= i < sv.nodes.len() && !listed(pre, i) implies #[trigger] next.nodes[i] == sv.nodes[i] by {
                    assert(pre[k as int].0.0 != i);
                    if listed(l.subrange(0, k as int), i) {
                        let c = choose|c: int| 0 <= c < k && (#[trigger] l.subrange(0, k as int)[c]).0.0 == i;
                        assert(pre[c] == l.subrange(0, k as int)[c]);
                    }
                }
                assert(written(sv, next, pre));
            }
            k = k + 1;
        }
        proof {
            assert(l.subrange(0, l.len() as int) =~= l);
        }
        true
    }
}

} // verus!
