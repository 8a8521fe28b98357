//! The edits a frame asks for while it draws, and the order they are carried out in.
//!
//! Drawing reads the tree and writes nothing to it; every change it wants is said out loud as a
//! [`DockMutation`]. A frame's requests are collected in a [`DockDraw`], the application may have
//! its say on the closes among them ([`DockDraw::settle_closes`]), and then they are put on the
//! dock ([`DockDraw::apply`]) in the one order stated on [`DockDraw::apply_order`], each as
//! [`step`] says.

use vstd::prelude::*;

use crate::address::{NodePath, SurfaceIndex, TabIndex, TabPath};
use crate::apply::{destination_is_live, spec_destination_is_live};
use crate::dock_state::{DockState, SurfaceView, all_tabs, leaf_at, node_at, surface_of, with_node};
use crate::drag::{DragSource, TabDestination, spec_resolve};
use crate::edit::{closes_node, detached, leaf_now, move_changes, moves, names_tab, split_now};
use crate::leaf::LeafView;
use crate::events::{DockAreaResponse, DockEvent, DragInFlight};
use crate::node::Node;
use crate::cross_split::Regroup;
use crate::regroup::{fits_surface, splits_of, written};

verus! {

/// A close a frame asked for.
#[derive(Clone, Copy, Debug, PartialEq, Eq, Structural)]
pub enum TabRemoval {
    /// One tab; `successor`, if named, is the tab of the same leaf that is to be active after.
    Tab { path: TabPath, successor: Option<TabIndex> },
    /// A whole leaf, with every tab in it.
    Node(NodePath),
    /// A whole floating window, with everything in it.
    Window(SurfaceIndex),
}

impl TabRemoval {
    pub open spec fn spec_with_successor(self, successor: Option<TabIndex>) -> TabRemoval {
        match self {
            TabRemoval::Tab { path, .. } => TabRemoval::Tab { path, successor },
            other => other,
        }
    }

    /// The same removal, naming `successor` as the tab to land on; a leaf or a window has no
    /// one tab to land on and is left as it is.
    #[verifier::when_used_as_spec(spec_with_successor)]
    pub fn with_successor(self, successor: Option<TabIndex>) -> (r: TabRemoval)
        ensures
            r == self.spec_with_successor(successor),
    {
        match self {
            TabRemoval::Tab { path, .. } => TabRemoval::Tab { path, successor },
            other => other,
        }
    }
}

/// What the application answers about one close.
#[derive(Clone, Copy, Debug, PartialEq, Eq, Structural)]
pub enum CloseVerdict {
    /// Carry it out, landing on `successor` if one is named.
    Close { successor: Option<TabIndex> },
    /// Do not close; make the tab the active one and focus its leaf instead.
    Focus,
    /// Do not close, and do nothing else either.
    Ignore,
}

/// A tree edit requested while a dock is drawing.
///
/// `M` is the kind of request that carries measured geometry — a tab bar's scroll, where a
/// boundary sits, a row's weights, the fractions of a transposed crossing. Those are measured in
/// floating point and kept by the drawing code; the ordering below treats them like every other
/// edit of a node that still exists, and never looks inside.
#[derive(Debug)]
pub enum DockMutation<M> {
    /// Make a tab the active one in its leaf.
    Activate(TabPath),
    /// Collapse or expand a leaf.
    SetLeafCollapsed { path: NodePath, collapsed: bool },
    /// Put a whole split away behind one arrow, or bring it back.
    SetSplitStowed { path: NodePath, stowed: bool },
    /// Minimize or restore a floating window.
    SetWindowMinimized { surface: SurfaceIndex, minimized: bool },
    /// A floating window was built this frame out of its one-shot requests, which are now spent.
    WindowShown { surface: SurfaceIndex, took_expanded_height: bool },
    /// An edit carrying measured geometry.
    Measured(M),
    /// Regroup a split around a crossing: write `shape` into surface `surface`, each of its
    /// splits over the node whose identity it reuses.
    Transpose { surface: SurfaceIndex, shape: Regroup },
    /// Drop a carried tab onto a destination.
    MoveTab { source: DragSource, destination: TabDestination },
    /// Close a tab, a leaf or a window.
    Remove(TabRemoval),
    /// Pull a tab out into a new floating window.
    Detach(TabPath),
    /// Move the focus to a leaf.
    Focus(NodePath),
}

/// Which phase of applying a request belongs to.
#[derive(Clone, Copy, Debug, PartialEq, Eq, Structural)]
pub enum Phase {
    /// Edits of a node that still exists as drawing saw it — in request order.
    Edit,
    /// Closes and detaches, which cut paths — together, in reverse request order.
    Cut,
    /// Drops of a carried tab — in request order, after everything else asked for.
    Move,
    /// A focus request: only the last one is carried out, at the very end.
    Focus,
}

/// The phase a request is applied in.
pub open spec fn phase_of<M>(m: DockMutation<M>) -> Phase {
    match m {
        DockMutation::Remove(_) | DockMutation::Detach(_) => Phase::Cut,
        DockMutation::MoveTab { .. } => Phase::Move,
        DockMutation::Focus(_) => Phase::Focus,
        _ => Phase::Edit,
    }
}

/// The positions of `ms` whose requests are in phase `p`, in request order.
pub open spec fn positions_in_phase<M>(ms: Seq<DockMutation<M>>, p: Phase) -> Seq<usize>
    decreases ms.len(),
{
    if ms.len() == 0 {
        Seq::empty()
    } else {
        let rest = positions_in_phase(ms.drop_last(), p);
        if phase_of(ms.last()) == p {
            rest.push((ms.len() - 1) as usize)
        } else {
            rest
        }
    }
}

/// The position of the last focus request in `ms`, if there is one.
pub open spec fn last_focus_position<M>(ms: Seq<DockMutation<M>>) -> Option<usize>
    decreases ms.len(),
{
    if ms.len() == 0 {
        None
    } else if ms.last() is Focus {
        Some((ms.len() - 1) as usize)
    } else {
        last_focus_position(ms.drop_last())
    }
}

/// The order `ms` is applied in, as positions of `ms`:
///
/// 1. every edit of a node that still exists as drawing saw it, in request order;
/// 2. every close and every detach, together in **reverse** request order, because they
///    invalidate paths and the later ones were addressed against a tree the earlier ones had not
///    yet cut;
/// 3. every drop of a carried tab, in request order;
/// 4. the **last** focus request, if any.
pub open spec fn spec_apply_order<M>(ms: Seq<DockMutation<M>>) -> Seq<usize> {
    positions_in_phase(ms, Phase::Edit) + positions_in_phase(ms, Phase::Cut).reverse()
        + positions_in_phase(ms, Phase::Move)
        + match last_focus_position(ms) {
        Some(i) => seq![i],
        None => Seq::empty(),
    }
}

/// What settling one request with verdict `v` leaves in its place.
pub open spec fn settle_one<M>(m: DockMutation<M>, v: CloseVerdict) -> Seq<DockMutation<M>> {
    match m {
        DockMutation::Remove(removal) => match v {
            CloseVerdict::Close { successor } => seq![
                DockMutation::Remove(removal.spec_with_successor(successor)),
            ],
            CloseVerdict::Focus => match removal {
                TabRemoval::Tab { path, .. } => seq![
                    DockMutation::Activate(path),
                    DockMutation::Focus(path.spec_node_path()),
                ],
                _ => Seq::empty(),
            },
            CloseVerdict::Ignore => Seq::empty(),
        },
        other => seq![other],
    }
}

/// `ms` settled with `vs`, where `vs[i]` is the verdict on `ms[i]` (and read only where `ms[i]`
/// is a close).
pub open spec fn settled<M>(ms: Seq<DockMutation<M>>, vs: Seq<CloseVerdict>) -> Seq<
    DockMutation<M>,
>
    decreases ms.len(),
{
    if ms.len() == 0 || vs.len() != ms.len() {
        Seq::empty()
    } else {
        settled(ms.drop_last(), vs.drop_last()) + settle_one(ms.last(), vs.last())
    }
}

/// `after` is `before` settled by the verdicts `vs`, each of which `decide` may answer for the
/// close it stands against.
pub open spec fn settles_as<M, F: FnMut(TabRemoval) -> CloseVerdict>(
    decide: F,
    before: Seq<DockMutation<M>>,
    after: Seq<DockMutation<M>>,
    vs: Seq<CloseVerdict>,
) -> bool {
    &&& vs.len() == before.len()
    &&& forall|i: int|
        0 <= i < vs.len() && #[trigger] before[i] is Remove ==> decide.ensures(
            (before[i]->Remove_0,),
            vs[i],
        )
    &&& after == settled(before, vs)
}

/// One drawn frame, before it has been put on the tree: the events it produced, the edits it
/// asked for, and the gesture still in flight at its end.
pub struct DockDraw<M> {
    events: Vec<DockEvent>,
    mutations: Vec<DockMutation<M>>,
    dragging: Option<DragInFlight>,
}

impl<M> DockDraw<M> {
    pub closed spec fn spec_events(&self) -> Seq<DockEvent> {
        self.events@
    }

    pub closed spec fn spec_mutations(&self) -> Seq<DockMutation<M>> {
        self.mutations@
    }

    pub closed spec fn spec_dragging(&self) -> Option<DragInFlight> {
        self.dragging
    }

    /// Everything the pass hands over, gathered where the pass ends.
    pub fn new(
        events: Vec<DockEvent>,
        mutations: Vec<DockMutation<M>>,
        dragging: Option<DragInFlight>,
    ) -> (draw: DockDraw<M>)
        ensures
            draw.spec_events() == events@,
            draw.spec_mutations() == mutations@,
            draw.spec_dragging() == dragging,
    {
        DockDraw { events, mutations, dragging }
    }

    /// The events the pass produced, in order.
    pub fn events(&self) -> (events: &Vec<DockEvent>)
        ensures
            events@ == self.spec_events(),
    {
        &self.events
    }

    /// The edits the pass asked for, in request order.
    pub fn mutations(&self) -> (mutations: &Vec<DockMutation<M>>)
        ensures
            mutations@ == self.spec_mutations(),
    {
        &self.mutations
    }

    /// The gesture still in flight at the end of the pass.
    pub fn dragging(&self) -> (dragging: Option<DragInFlight>)
        ensures
            dragging == self.spec_dragging(),
    {
        self.dragging
    }

    /// Record one more event, after the ones already there.
    pub fn push_event(&mut self, event: DockEvent)
        ensures
            final(self).spec_events() == old(self).spec_events().push(event),
            final(self).spec_mutations() == old(self).spec_mutations(),
            final(self).spec_dragging() == old(self).spec_dragging(),
    {
        self.events.push(event);
    }

    /// Have the application answer the closes this frame asked for, before any of them is made.
    ///
    /// `decide` sees every close the pass requested, in the order it was requested, and says what
    /// becomes of it: carried out (with or without a named successor), turned into an activation
    /// and a focus of that tab (only a single tab can be landed on; for a leaf or a window this
    /// drops the request), or dropped. Every other request stays, in its place.
    pub fn settle_closes<F: FnMut(TabRemoval) -> CloseVerdict>(&mut self, decide: F)
        requires
            forall|r: TabRemoval| #[trigger] decide.requires((r,)),
        ensures
            exists|vs: Seq<CloseVerdict>|
                #[trigger] settles_as(
                    decide,
                    old(self).spec_mutations(),
                    final(self).spec_mutations(),
                    vs,
                ),
            final(self).spec_events() == old(self).spec_events(),
            final(self).spec_dragging() == old(self).spec_dragging(),
    {
        let mut decide = decide;
        let ghost d0 = decide;
        let mut asked: Vec<DockMutation<M>> = Vec::new();
        std::mem::swap(&mut asked, &mut self.mutations);
        let ghost all = asked@;
        let mut settled_so_far: Vec<DockMutation<M>> = Vec::new();
        let ghost mut vs: Seq<CloseVerdict> = Seq::empty();
        let mut k: usize = 0;
        let n = asked.len();
        proof {
            assert(asked@ == all.subrange(0, n as int));
        }
        // Walk the requests front to back: `rest` holds them last-first, so that each is popped
        // in request order.
        let mut rest: Vec<DockMutation<M>> = Vec::new();
        while asked.len() > 0
            invariant
                n == all.len(),
                asked@ == all.subrange(0, asked@.len() as int),
                rest@.len() == n - asked@.len(),
                forall|j: int| 0 <= j < rest@.len() ==> #[trigger] rest@[j] == all[n - 1 - j],
            decreases asked@.len(),
        {
            let m = asked.pop().unwrap();
            rest.push(m);
        }
        while k < n
            invariant
                n == all.len(),
                k <= n,
                rest@.len() == n - k,
                forall|j: int| 0 <= j < n - k ==> #[trigger] rest@[j] == all[n - 1 - j],
                vs.len() == k,
                forall|i: int|
                    0 <= i < k && #[trigger] all[i] is Remove ==> decide.ensures(
                        (all[i]->Remove_0,),
                        vs[i],
                    ),
                settled_so_far@ == settled(all.subrange(0, k as int), vs),
                forall|r: TabRemoval| #[trigger] decide.requires((r,)),
                decide == d0,
            decreases n - k,
        {
            let mutation = rest.pop().unwrap();
            let ghost m = mutation;
            assert(m == all[k as int]);
            let ghost mut v = CloseVerdict::Ignore;
            match mutation {
                DockMutation::Remove(removal) => {
                    let verdict = decide(removal);
                    proof {
                        v = verdict;
                    }
                    match verdict {
                        CloseVerdict::Close { successor } => {
                            settled_so_far.push(DockMutation::Remove(removal.with_successor(successor)));
                        },
                        CloseVerdict::Focus => {
                            match removal {
                                TabRemoval::Tab { path, .. } => {
                                    settled_so_far.push(DockMutation::Activate(path));
                                    settled_so_far.push(DockMutation::Focus(path.node_path()));
                                },
                                _ => {},
                            }
                        },
                        CloseVerdict::Ignore => {},
                    }
                },
                other => {
                    settled_so_far.push(other);
                },
            }
            proof {
                let vs2 = vs.push(v);
                let pre = all.subrange(0, k + 1);
                assert(pre.drop_last() =~= all.subrange(0, k as int));
                assert(vs2.drop_last() =~= vs);
                assert(pre.last() == m);
                assert(settled_so_far@ =~= settled(pre, vs2));
                vs = vs2;
            }
            k = k + 1;
        }
        proof {
            assert(all.subrange(0, n as int) =~= all);
        }
        self.mutations = settled_so_far;
        proof {
            assert(all == old(self).spec_mutations());
            assert(settles_as(d0, old(self).spec_mutations(), self.spec_mutations(), vs));
        }
    }

    /// The order this frame's requests are put on the tree, as positions of
    /// [`mutations`](Self::mutations): see [`spec_apply_order`].
    ///
    /// Edits of nodes that still exist as drawing saw them come first, because a close asks who
    /// inherits the focus only when it takes the *active* tab, so it has to see the activation
    /// this frame requested. Closes and detaches follow in reverse request order, because they
    /// invalidate paths. The drop comes after everything drawing asked for, and the last focus
    /// request, if any, is carried out at the very end.
    pub fn apply_order(&self) -> (order: Vec<usize>)
        ensures
            order@ == spec_apply_order(self.spec_mutations()),
    {
        let mut order = positions_in(&self.mutations, Phase::Edit);
        let cuts = positions_in(&self.mutations, Phase::Cut);
        append_reversed(&mut order, &cuts);
        let moves = positions_in(&self.mutations, Phase::Move);
        let ghost before_moves = order@;
        let mut k: usize = 0;
        while k < moves.len()
            invariant
                k <= moves@.len(),
                order@ == before_moves + moves@.subrange(0, k as int),
            decreases moves@.len() - k,
        {
            order.push(moves[k]);
            proof {
                assert(moves@.subrange(0, k + 1) =~= moves@.subrange(0, k as int).push(moves@[k as int]));
            }
            k = k + 1;
        }
        proof {
            assert(moves@.subrange(0, moves@.len() as int) =~= moves@);
        }
        match last_focus(&self.mutations) {
            Some(i) => order.push(i),
            None => {},
        }
        proof {
            assert(order@ =~= spec_apply_order(self.spec_mutations()));
        }
        order
    }

    /// The leaf the frame's last focus request names, which is where the focus ends up; `None`
    /// if the frame asked for no focus.
    pub fn new_focused(&self) -> (focused: Option<NodePath>)
        ensures
            match last_focus_position(self.spec_mutations()) {
                Some(i) => focused == Some(self.spec_mutations()[i as int]->Focus_0),
                None => focused is None,
            },
    {
        match last_focus(&self.mutations) {
            Some(i) => match &self.mutations[i] {
                DockMutation::Focus(path) => Some(*path),
                _ => None,
            },
            None => None,
        }
    }
}

/// The phase `m` is applied in.
pub fn phase<M>(m: &DockMutation<M>) -> (p: Phase)
    ensures
        p == phase_of(*m),
{
    match m {
        DockMutation::Remove(_) | DockMutation::Detach(_) => Phase::Cut,
        DockMutation::MoveTab { .. } => Phase::Move,
        DockMutation::Focus(_) => Phase::Focus,
        _ => Phase::Edit,
    }
}

proof fn lemma_positions_step<M>(ms: Seq<DockMutation<M>>, k: int, p: Phase)
    requires
        0 <= k < ms.len(),
    ensures
        positions_in_phase(ms.subrange(0, k + 1), p) == if phase_of(ms[k]) == p {
            positions_in_phase(ms.subrange(0, k), p).push(k as usize)
        } else {
            positions_in_phase(ms.subrange(0, k), p)
        },
{
    assert(ms.subrange(0, k + 1).drop_last() =~= ms.subrange(0, k));
}

/// The positions of `ms` in phase `p`, in request order.
fn positions_in<M>(ms: &Vec<DockMutation<M>>, p: Phase) -> (positions: Vec<usize>)
    ensures
        positions@ == positions_in_phase(ms@, p),
{
    let mut positions: Vec<usize> = Vec::new();
    let mut k: usize = 0;
    while k < ms.len()
        invariant
            k <= ms@.len(),
            positions@ == positions_in_phase(ms@.subrange(0, k as int), p),
        decreases ms@.len() - k,
    {
        proof {
            lemma_positions_step(ms@, k as int, p);
        }
        if phase(&ms[k]) == p {
            positions.push(k);
        }
        k = k + 1;
    }
    proof {
        assert(ms@.subrange(0, ms@.len() as int) =~= ms@);
    }
    positions
}

/// Put the items of `items` after the ones of `order`, last item first.
fn append_reversed(order: &mut Vec<usize>, items: &Vec<usize>)
    ensures
        final(order)@ == old(order)@ + items@.reverse(),
{
    let ghost start = order@;
    let mut k: usize = items.len();
    while k > 0
        invariant
            k <= items@.len(),
            order@ == start + items@.subrange(k as int, items@.len() as int).reverse(),
        decreases k,
    {
        k = k - 1;
        order.push(items[k]);
        proof {
            assert(items@.subrange(k as int, items@.len() as int).reverse() =~= items@.subrange(
                k + 1,
                items@.len() as int,
            ).reverse().push(items@[k as int]));
        }
    }
    proof {
        assert(items@.subrange(0, items@.len() as int) =~= items@);
    }
}

/// The position of the last focus request of `ms`, if there is one.
fn last_focus<M>(ms: &Vec<DockMutation<M>>) -> (i: Option<usize>)
    ensures
        i == last_focus_position(ms@),
        i matches Some(j) ==> j < ms@.len() && ms@[j as int] is Focus,
{
    let n = ms.len();
    let mut k: usize = n;
    proof {
        assert(ms@.subrange(0, k as int) =~= ms@);
    }
    while k > 0
        invariant
            k <= ms@.len(),
            n == ms@.len(),
            last_focus_position(ms@) == last_focus_position(ms@.subrange(0, k as int)),
        decreases k,
    {
        let ghost pre = ms@.subrange(0, k as int);
        assert(pre.drop_last() =~= ms@.subrange(0, k - 1));
        match &ms[k - 1] {
            DockMutation::Focus(_) => {
                proof {
                    lemma_last_focus_is_focus(ms@);
                }
                return Some(k - 1);
            },
            _ => {},
        }
        k = k - 1;
    }
    None
}

proof fn lemma_last_focus_is_focus<M>(ms: Seq<DockMutation<M>>)
    requires
        ms.len() <= usize::MAX,
    ensures
        last_focus_position(ms) matches Some(j) ==> j < ms.len() && ms[j as int] is Focus,
    decreases ms.len(),
{
    if ms.len() > 0 && !(ms.last() is Focus) {
        lemma_last_focus_is_focus(ms.drop_last());
        if let Some(j) = last_focus_position(ms.drop_last()) {
            assert(ms.drop_last()[j as int] == ms[j as int]);
        }
    } else if ms.len() > 0 {
        assert(ms[ms.len() - 1] == ms.last());
    }
}

/// The positions of `ms` in phase `p` are exactly those whose request is in that phase, each
/// once, in increasing order.
pub proof fn lemma_positions_in_phase<M>(ms: Seq<DockMutation<M>>, p: Phase)
    requires
        ms.len() <= usize::MAX,
    ensures
        forall|c: int|
            0 <= c < positions_in_phase(ms, p).len() ==> {
                &&& #[trigger] positions_in_phase(ms, p)[c] < ms.len()
                &&& phase_of(ms[positions_in_phase(ms, p)[c] as int]) == p
            },
        forall|c: int, d: int|
            0 <= c < d < positions_in_phase(ms, p).len() ==> #[trigger] positions_in_phase(ms, p)[c]
                < #[trigger] positions_in_phase(ms, p)[d],
        forall|i: int|
            0 <= i < ms.len() && phase_of(#[trigger] ms[i]) == p ==> exists|c: int|
                0 <= c < positions_in_phase(ms, p).len() && positions_in_phase(ms, p)[c] == i,
    decreases ms.len(),
{
    if ms.len() > 0 {
        let rest = ms.drop_last();
        lemma_positions_in_phase(rest, p);
        let pr = positions_in_phase(rest, p);
        let pm = positions_in_phase(ms, p);
        assert forall|c: int| 0 <= c < pm.len() implies {
            &&& #[trigger] pm[c] < ms.len()
            &&& phase_of(ms[pm[c] as int]) == p
        } by {
            if c < pr.len() {
                assert(pm[c] == pr[c]);
                assert(rest[pr[c] as int] == ms[pr[c] as int]);
            }
        }
        assert forall|c: int, d: int| 0 <= c < d < pm.len() implies #[trigger] pm[c]
            < #[trigger] pm[d] by {
            if d < pr.len() {
                assert(pm[c] == pr[c] && pm[d] == pr[d]);
            } else {
                assert(pm[c] == pr[c]);
            }
        }
        assert forall|i: int| 0 <= i < ms.len() && phase_of(#[trigger] ms[i]) == p implies exists|
            c: int,
        | 0 <= c < pm.len() && pm[c] == i by {
            if i < ms.len() - 1 {
                assert(rest[i] == ms[i]);
                let c = choose|c: int| 0 <= c < pr.len() && pr[c] == i;
                assert(pm[c] == pr[c]);
            } else {
                assert(pm[pm.len() - 1] == i);
            }
        }
    }
}

/// The last focus request is the one carried out: `last_focus_position` names a focus request
/// with none after it, and is `None` only when there is no focus request at all.
pub proof fn lemma_last_focus_position<M>(ms: Seq<DockMutation<M>>)
    requires
        ms.len() <= usize::MAX,
    ensures
        last_focus_position(ms) matches Some(i) ==> {
            &&& i < ms.len()
            &&& ms[i as int] is Focus
            &&& forall|j: int| i < j < ms.len() ==> !(#[trigger] ms[j] is Focus)
        },
        last_focus_position(ms) is None ==> forall|j: int| 0 <= j < ms.len() ==> !(#[trigger] ms[j] is Focus),
    decreases ms.len(),
{
    if ms.len() > 0 {
        if ms.last() is Focus {
            assert(ms[ms.len() - 1] == ms.last());
        } else {
            let rest = ms.drop_last();
            lemma_last_focus_position(rest);
            assert(ms[ms.len() - 1] == ms.last());
            assert(last_focus_position(ms) == last_focus_position(rest));
            assert forall|j: int| 0 <= j < ms.len() - 1 implies #[trigger] ms[j] == rest[j] by {}
            match last_focus_position(rest) {
                Some(i) => {
                    assert(rest[i as int] == ms[i as int]);
                    assert forall|j: int| i < j < ms.len() implies !(#[trigger] ms[j] is Focus) by {
                        if j < ms.len() - 1 {
                            assert(ms[j] == rest[j]);
                        }
                    }
                },
                None => {
                    assert forall|j: int| 0 <= j < ms.len() implies !(#[trigger] ms[j] is Focus) by {
                        if j < ms.len() - 1 {
                            assert(ms[j] == rest[j]);
                        }
                    }
                },
            }
        }
    }
}

/// Closes and detaches are carried out together in reverse request order: of two of them, the
/// one asked for later goes first, because it was addressed against a tree the earlier one had not
/// yet cut.
pub proof fn lemma_later_cuts_apply_first<M>(ms: Seq<DockMutation<M>>, i: int, j: int)
    requires
        ms.len() <= usize::MAX,
        0 <= i < j < ms.len(),
        ms[i] is Remove || ms[i] is Detach,
        ms[j] is Remove || ms[j] is Detach,
    ensures
        exists|a: int, b: int|
            0 <= a < b < spec_apply_order(ms).len() && #[trigger] spec_apply_order(ms)[a] == j
                && #[trigger] spec_apply_order(ms)[b] == i,
{
    lemma_positions_in_phase(ms, Phase::Cut);
    let e = positions_in_phase(ms, Phase::Edit);
    let r = positions_in_phase(ms, Phase::Cut);
    assert(phase_of(ms[i]) == Phase::Cut);
    assert(phase_of(ms[j]) == Phase::Cut);
    let ci = choose|c: int| 0 <= c < r.len() && r[c] == i;
    let cj = choose|c: int| 0 <= c < r.len() && r[c] == j;
    if cj <= ci {
        if cj < ci {
            assert(r[cj] < r[ci]);
        }
    }
    assert(ci < cj);
    let order = spec_apply_order(ms);
    let a = e.len() + (r.len() - 1 - cj);
    let b = e.len() + (r.len() - 1 - ci);
    assert(order[a] == r.reverse()[r.len() - 1 - cj]);
    assert(order[b] == r.reverse()[r.len() - 1 - ci]);
}

/// Every edit of a node that still exists is carried out before any close or detach, and the edits keep
/// the order they were asked for in.
pub proof fn lemma_edits_apply_first_and_in_order<M>(ms: Seq<DockMutation<M>>, i: int, j: int)
    requires
        ms.len() <= usize::MAX,
        0 <= i < ms.len(),
        0 <= j < ms.len(),
        phase_of(ms[i]) == Phase::Edit,
        i != j,
        phase_of(ms[j]) == Phase::Cut || (phase_of(ms[j]) == Phase::Edit && i < j),
    ensures
        exists|a: int, b: int|
            0 <= a < b < spec_apply_order(ms).len() && #[trigger] spec_apply_order(ms)[a] == i
                && #[trigger] spec_apply_order(ms)[b] == j,
{
    lemma_positions_in_phase(ms, Phase::Edit);
    lemma_positions_in_phase(ms, Phase::Cut);
    let e = positions_in_phase(ms, Phase::Edit);
    let r = positions_in_phase(ms, Phase::Cut);
    let order = spec_apply_order(ms);
    let ci = choose|c: int| 0 <= c < e.len() && e[c] == i;
    assert(order[ci] == i);
    if phase_of(ms[j]) == Phase::Cut {
        let cj = choose|c: int| 0 <= c < r.len() && r[c] == j;
        let b = e.len() + (r.len() - 1 - cj);
        assert(order[b] == r.reverse()[r.len() - 1 - cj]);
    } else {
        let cj = choose|c: int| 0 <= c < e.len() && e[c] == j;
        if cj <= ci {
            if cj < ci {
                assert(e[cj] < e[ci]);
            }
        }
        assert(order[cj] == j);
    }
}

/// Of all the focus requests of a frame, only the last one is carried out.
pub proof fn lemma_only_the_last_focus_applies<M>(ms: Seq<DockMutation<M>>, i: int)
    requires
        ms.len() <= usize::MAX,
        0 <= i < ms.len(),
        ms[i] is Focus,
    ensures
        spec_apply_order(ms).contains(i as usize) <==> forall|j: int|
            i < j < ms.len() ==> !(#[trigger] ms[j] is Focus),
{
    lemma_last_focus_position(ms);
    lemma_positions_in_phase(ms, Phase::Edit);
    lemma_positions_in_phase(ms, Phase::Cut);
    lemma_positions_in_phase(ms, Phase::Move);
    let e = positions_in_phase(ms, Phase::Edit);
    let r = positions_in_phase(ms, Phase::Cut);
    let m = positions_in_phase(ms, Phase::Move);
    let order = spec_apply_order(ms);
    let head = e + r.reverse() + m;
    assert(phase_of(ms[i]) == Phase::Focus);
    assert(!head.contains(i as usize)) by {
        if head.contains(i as usize) {
            let c = choose|c: int| 0 <= c < head.len() && head[c] == i as usize;
            if c < e.len() {
                assert(head[c] == e[c]);
            } else if c < e.len() + r.len() {
                assert(head[c] == r.reverse()[c - e.len()]);
                assert(r.reverse()[c - e.len()] == r[r.len() - 1 - (c - e.len())]);
            } else {
                assert(head[c] == m[c - e.len() - r.len()]);
            }
        }
    }
    match last_focus_position(ms) {
        Some(f) => {
            assert(order == head.push(f));
            if forall|j: int| i < j < ms.len() ==> !(#[trigger] ms[j] is Focus) {
                if (f as int) < i {
                    assert(false);
                } else if (f as int) > i {
                    assert(ms[f as int] is Focus);
                }
                assert(order[head.len() as int] == i as usize);
            } else {
                let j = choose|j: int| i < j < ms.len() && ms[j] is Focus;
                assert((f as int) >= j) by {
                    if (f as int) < j {
                        assert(!(ms[j] is Focus));
                    }
                }
                if order.contains(i as usize) {
                    let c = choose|c: int| 0 <= c < order.len() && order[c] == i as usize;
                    if c < head.len() {
                        assert(head.contains(i as usize));
                    }
                }
            }
        },
        None => {
            assert(order =~= head);
        },
    }
}

/// Where each entry of the apply order comes from: every entry is a position of the frame; the
/// entries before the last are no focus requests, and the one after them, where there is one, is
/// the last focus request.
proof fn lemma_apply_order_entries<M>(ms: Seq<DockMutation<M>>)
    requires
        ms.len() <= usize::MAX,
    ensures
        forall|c: int|
            0 <= c < spec_apply_order(ms).len() ==> #[trigger] spec_apply_order(ms)[c] < ms.len(),
        forall|c: int, d: int|
            0 <= c < d < spec_apply_order(ms).len() ==> #[trigger] spec_apply_order(ms)[c]
                != #[trigger] spec_apply_order(ms)[d],
{
    lemma_apply_order_in_range(ms);
    lemma_positions_in_phase(ms, Phase::Edit);
    lemma_positions_in_phase(ms, Phase::Cut);
    lemma_positions_in_phase(ms, Phase::Move);
    lemma_last_focus_position(ms);
    let e = positions_in_phase(ms, Phase::Edit);
    let r = positions_in_phase(ms, Phase::Cut);
    let m = positions_in_phase(ms, Phase::Move);
    let order = spec_apply_order(ms);
    let head = e + r.reverse() + m;
    // The phase of the request each entry names, and where the entry stands in its own phase.
    assert forall|c: int| 0 <= c < head.len() implies {
        &&& #[trigger] order[c] == head[c]
        &&& (c < e.len() ==> head[c] == e[c] && phase_of(ms[head[c] as int]) == Phase::Edit)
        &&& (e.len() <= c < e.len() + r.len() ==> head[c] == r[r.len() - 1 - (c - e.len())]
            && phase_of(ms[head[c] as int]) == Phase::Cut)
        &&& (e.len() + r.len() <= c ==> head[c] == m[c - e.len() - r.len()]
            && phase_of(ms[head[c] as int]) == Phase::Move)
    } by {
        if c < e.len() {
        } else if c < e.len() + r.len() {
            assert(head[c] == r.reverse()[c - e.len()]);
        } else {
        }
    }
    assert forall|c: int, d: int| 0 <= c < d < order.len() implies #[trigger] order[c]
        != #[trigger] order[d] by {
        if d < head.len() {
            if d < e.len() {
                assert(e[c] < e[d]);
            } else if d < e.len() + r.len() {
                if c >= e.len() {
                    let x = r.len() - 1 - (d - e.len());
                    let y = r.len() - 1 - (c - e.len());
                    assert(r[x] < r[y]);
                }
            } else {
                if c >= e.len() + r.len() {
                    assert(m[c - e.len() - r.len()] < m[d - e.len() - r.len()]);
                }
            }
        } else {
            let f = last_focus_position(ms)->Some_0;
            assert(order == head.push(f));
            assert(order[d] == f);
            assert(ms[f as int] is Focus);
            assert(phase_of(ms[f as int]) == Phase::Focus);
        }
    }
}

/// Every request of a frame but a focus request is carried out, and exactly once: its position
/// stands in the apply order, and at one place only.
pub proof fn lemma_every_request_but_a_focus_applies_once<M>(ms: Seq<DockMutation<M>>, i: int)
    requires
        ms.len() <= usize::MAX,
        0 <= i < ms.len(),
        !(ms[i] is Focus),
    ensures
        spec_apply_order(ms).contains(i as usize),
        forall|a: int, b: int|
            0 <= a < spec_apply_order(ms).len() && 0 <= b < spec_apply_order(ms).len()
                && #[trigger] spec_apply_order(ms)[a] == i && #[trigger] spec_apply_order(ms)[b] == i
                ==> a == b,
{
    lemma_apply_order_entries(ms);
    lemma_positions_in_phase(ms, Phase::Edit);
    lemma_positions_in_phase(ms, Phase::Cut);
    lemma_positions_in_phase(ms, Phase::Move);
    let e = positions_in_phase(ms, Phase::Edit);
    let r = positions_in_phase(ms, Phase::Cut);
    let m = positions_in_phase(ms, Phase::Move);
    let order = spec_apply_order(ms);
    let p = phase_of(ms[i]);
    if p == Phase::Edit {
        let c = choose|c: int| 0 <= c < e.len() && e[c] == i;
        assert(order[c] == e[c]);
    } else if p == Phase::Cut {
        let c = choose|c: int| 0 <= c < r.len() && r[c] == i;
        let at = e.len() + (r.len() - 1 - c);
        assert(order[at] == r.reverse()[r.len() - 1 - c]);
    } else {
        assert(p == Phase::Move);
        let c = choose|c: int| 0 <= c < m.len() && m[c] == i;
        let at = e.len() + r.len() + c;
        assert(order[at] == m[c]);
    }
}

/// A request that edits a node as drawing saw it: a tab's activation, a leaf collapsed or
/// expanded, a split stowed or brought back, a window minimized or restored or marked as shown, a
/// measured edit or a transposition.
pub open spec fn edits_as_drawn<M>(m: DockMutation<M>) -> bool {
    ||| m is Activate
    ||| m is SetLeafCollapsed
    ||| m is SetSplitStowed
    ||| m is SetWindowMinimized
    ||| m is WindowShown
    ||| m is Measured
    ||| m is Transpose
}

/// An edit of a node as drawing saw it — collapsing or expanding a leaf among them, whichever way
/// — is carried out before every close and detach of the frame, and before every such edit asked
/// for after it.
pub proof fn lemma_an_edit_goes_before_closes_and_later_edits<M>(
    ms: Seq<DockMutation<M>>,
    i: int,
    j: int,
)
    requires
        ms.len() <= usize::MAX,
        0 <= i < ms.len(),
        0 <= j < ms.len(),
        edits_as_drawn(ms[i]),
        ms[j] is Remove || ms[j] is Detach || (edits_as_drawn(ms[j]) && i < j),
    ensures
        exists|a: int, b: int|
            0 <= a < b < spec_apply_order(ms).len() && #[trigger] spec_apply_order(ms)[a] == i
                && #[trigger] spec_apply_order(ms)[b] == j,
{
    lemma_edits_apply_first_and_in_order(ms, i, j);
}

/// A drop of a carried tab is carried out after every edit, close and detach the frame asked for,
/// and the drops keep the order they were asked for in.
pub proof fn lemma_drops_come_after_everything_drawing_asked<M>(
    ms: Seq<DockMutation<M>>,
    i: int,
    j: int,
)
    requires
        ms.len() <= usize::MAX,
        0 <= i < ms.len(),
        0 <= j < ms.len(),
        ms[j] is MoveTab,
        edits_as_drawn(ms[i]) || ms[i] is Remove || ms[i] is Detach || (ms[i] is MoveTab && i < j),
    ensures
        exists|a: int, b: int|
            0 <= a < b < spec_apply_order(ms).len() && #[trigger] spec_apply_order(ms)[a] == i
                && #[trigger] spec_apply_order(ms)[b] == j,
{
    lemma_positions_in_phase(ms, Phase::Edit);
    lemma_positions_in_phase(ms, Phase::Cut);
    lemma_positions_in_phase(ms, Phase::Move);
    let e = positions_in_phase(ms, Phase::Edit);
    let r = positions_in_phase(ms, Phase::Cut);
    let m = positions_in_phase(ms, Phase::Move);
    let order = spec_apply_order(ms);
    let cj = choose|c: int| 0 <= c < m.len() && m[c] == j;
    let b = e.len() + r.len() + cj;
    assert(order[b] == m[cj]);
    if phase_of(ms[i]) == Phase::Edit {
        let ci = choose|c: int| 0 <= c < e.len() && e[c] == i;
        assert(order[ci] == e[ci]);
    } else if phase_of(ms[i]) == Phase::Cut {
        let ci = choose|c: int| 0 <= c < r.len() && r[c] == i;
        let a = e.len() + (r.len() - 1 - ci);
        assert(order[a] == r.reverse()[r.len() - 1 - ci]);
    } else {
        let ci = choose|c: int| 0 <= c < m.len() && m[c] == i;
        if cj <= ci {
            if cj < ci {
                assert(m[cj] < m[ci]);
            }
        }
        let a = e.len() + r.len() + ci;
        assert(order[a] == m[ci]);
    }
}

/// The focus request that is carried out comes last of all.
pub proof fn lemma_the_focus_comes_last<M>(ms: Seq<DockMutation<M>>, i: int)
    requires
        ms.len() <= usize::MAX,
        0 <= i < ms.len(),
        ms[i] is Focus,
        forall|j: int| i < j < ms.len() ==> !(#[trigger] ms[j] is Focus),
    ensures
        spec_apply_order(ms).len() > 0,
        spec_apply_order(ms).last() == i as usize,
{
    lemma_last_focus_position(ms);
    match last_focus_position(ms) {
        Some(f) => {
            if (f as int) < i {
            } else if (f as int) > i {
                assert(ms[f as int] is Focus);
            }
        },
        None => {
            assert(ms[i] is Focus);
        },
    }
}

/// The verdict a frame that is never settled gets for each of its closes: close, letting the
/// dock choose which tab to land on.
pub open spec fn close_anyway() -> CloseVerdict {
    CloseVerdict::Close { successor: None }
}

/// `m` is no close that names a tab to land on.
pub open spec fn names_no_successor<M>(m: DockMutation<M>) -> bool {
    match m {
        DockMutation::Remove(TabRemoval::Tab { path: _, successor }) => successor is None,
        _ => true,
    }
}

/// A frame nobody settles closes everything it asked to: settling every close with "close,
/// landing on no particular tab" leaves a frame whose closes name no successor exactly as it was.
pub proof fn lemma_closing_everything_changes_nothing<M>(
    ms: Seq<DockMutation<M>>,
    vs: Seq<CloseVerdict>,
)
    requires
        vs.len() == ms.len(),
        forall|i: int| 0 <= i < vs.len() ==> #[trigger] vs[i] == close_anyway(),
        forall|i: int| 0 <= i < ms.len() ==> names_no_successor(#[trigger] ms[i]),
    ensures
        settled(ms, vs) == ms,
    decreases ms.len(),
{
    if ms.len() > 0 {
        let mr = ms.drop_last();
        let vr = vs.drop_last();
        assert forall|i: int| 0 <= i < vr.len() implies #[trigger] vr[i] == close_anyway() by {
            assert(vr[i] == vs[i]);
        }
        assert forall|i: int| 0 <= i < mr.len() implies names_no_successor(#[trigger] mr[i]) by {
            assert(mr[i] == ms[i]);
        }
        lemma_closing_everything_changes_nothing(mr, vr);
        assert(vs.last() == vs[vs.len() - 1]);
        assert(ms.last() == ms[ms.len() - 1]);
        assert(settled(ms, vs) =~= ms);
    } else {
        assert(settled(ms, vs) =~= ms);
    }
}

/// Settling touches closes only: a frame that asked for no close comes out exactly as it went in,
/// whatever the verdicts.
pub proof fn lemma_settling_keeps_other_requests<M>(
    ms: Seq<DockMutation<M>>,
    vs: Seq<CloseVerdict>,
)
    requires
        vs.len() == ms.len(),
        forall|i: int| 0 <= i < ms.len() ==> !((#[trigger] ms[i]) is Remove),
    ensures
        settled(ms, vs) == ms,
    decreases ms.len(),
{
    if ms.len() > 0 {
        let mr = ms.drop_last();
        assert forall|i: int| 0 <= i < mr.len() implies !((#[trigger] mr[i]) is Remove) by {
            assert(mr[i] == ms[i]);
        }
        lemma_settling_keeps_other_requests(mr, vs.drop_last());
        assert(ms.last() == ms[ms.len() - 1]);
        assert(settled(ms, vs) =~= ms);
    } else {
        assert(settled(ms, vs) =~= ms);
    }
}


/// Every close left after settling is one the application answered with "close": it stands for a
/// close request of the frame whose verdict was `Close`, naming the successor that verdict named.
/// A close that was ignored, or turned into a focus, leaves no close behind — be it of a tab, a
/// leaf or a window.
pub proof fn lemma_only_accepted_closes_remain<M>(ms: Seq<DockMutation<M>>, vs: Seq<CloseVerdict>)
    requires
        vs.len() == ms.len(),
    ensures
        forall|k: int|
            0 <= k < settled(ms, vs).len() && (#[trigger] settled(ms, vs)[k]) is Remove ==> exists|i: int|
                0 <= i < ms.len() && #[trigger] ms[i] is Remove && vs[i] is Close && settled(ms, vs)[k]
                    == DockMutation::<M>::Remove(
                    ms[i]->Remove_0.spec_with_successor(vs[i]->Close_successor),
                ),
    decreases ms.len(),
{
    if ms.len() > 0 {
        let mr = ms.drop_last();
        let vr = vs.drop_last();
        lemma_only_accepted_closes_remain(mr, vr);
        let head = settled(mr, vr);
        let tail = settle_one(ms.last(), vs.last());
        let all = settled(ms, vs);
        assert(all == head + tail);
        let n = ms.len() - 1;
        assert(ms[n] == ms.last() && vs[n] == vs.last());
        assert forall|k: int| 0 <= k < all.len() && (#[trigger] all[k]) is Remove implies exists|i: int|
            0 <= i < ms.len() && #[trigger] ms[i] is Remove && vs[i] is Close && all[k]
                == DockMutation::<M>::Remove(ms[i]->Remove_0.spec_with_successor(vs[i]->Close_successor)) by {
            if k < head.len() {
                assert(all[k] == head[k]);
                let i = choose|i: int|
                    0 <= i < mr.len() && #[trigger] mr[i] is Remove && vr[i] is Close && head[k]
                        == DockMutation::<M>::Remove(mr[i]->Remove_0.spec_with_successor(vr[i]->Close_successor));
                assert(mr[i] == ms[i] && vr[i] == vs[i]);
            } else {
                assert(all[k] == tail[k - head.len()]);
                assert(ms[n] is Remove && vs[n] is Close);
            }
        }
    }
}

/// Settling a frame piece by piece is settling it whole: the settled requests of two stretches of
/// a frame, one after the other, are the settled requests of the two together.
pub proof fn lemma_settling_goes_piece_by_piece<M>(
    a: Seq<DockMutation<M>>,
    va: Seq<CloseVerdict>,
    b: Seq<DockMutation<M>>,
    vb: Seq<CloseVerdict>,
)
    requires
        va.len() == a.len(),
        vb.len() == b.len(),
    ensures
        settled(a + b, va + vb) == settled(a, va) + settled(b, vb),
    decreases b.len(),
{
    if b.len() == 0 {
        assert(a + b =~= a);
        assert(va + vb =~= va);
        assert(settled(a, va) + settled(b, vb) =~= settled(a, va));
    } else {
        assert((a + b).drop_last() =~= a + b.drop_last());
        assert((va + vb).drop_last() =~= va + vb.drop_last());
        assert((a + b).last() == b.last());
        assert((va + vb).last() == vb.last());
        lemma_settling_goes_piece_by_piece(a, va, b.drop_last(), vb.drop_last());
        assert(settled(a + b, va + vb) =~= settled(a, va) + settled(b, vb));
    }
}

/// Each verdict is honoured where it was given: a close answered with "close" stays, naming the
/// successor the verdict named; a tab's close answered with "focus" becomes a showing of that tab
/// and a focus on its leaf; and every request that is no close stays as it was.
pub proof fn lemma_each_verdict_is_honoured<M>(ms: Seq<DockMutation<M>>, vs: Seq<CloseVerdict>, i: int)
    requires
        vs.len() == ms.len(),
        0 <= i < ms.len(),
    ensures
        ms[i] is Remove && vs[i] is Close ==> settled(ms, vs).contains(
            DockMutation::Remove(ms[i]->Remove_0.spec_with_successor(vs[i]->Close_successor)),
        ),
        ms[i] is Remove && ms[i]->Remove_0 is Tab && vs[i] is Focus ==> settled(ms, vs).contains(
            DockMutation::Activate(ms[i]->Remove_0->Tab_path),
        ) && settled(ms, vs).contains(
            DockMutation::Focus(ms[i]->Remove_0->Tab_path.spec_node_path()),
        ),
        !(ms[i] is Remove) ==> settled(ms, vs).contains(ms[i]),
{
    let a = ms.subrange(0, i);
    let va = vs.subrange(0, i);
    let one = seq![ms[i]];
    let vone = seq![vs[i]];
    let b = ms.subrange(i + 1, ms.len() as int);
    let vb = vs.subrange(i + 1, vs.len() as int);
    assert(ms =~= a + one + b);
    assert(vs =~= va + vone + vb);
    lemma_settling_goes_piece_by_piece(a + one, va + vone, b, vb);
    lemma_settling_goes_piece_by_piece(a, va, one, vone);
    assert(one.drop_last() =~= Seq::<DockMutation<M>>::empty());
    assert(vone.drop_last() =~= Seq::<CloseVerdict>::empty());
    assert(settled(one.drop_last(), vone.drop_last()) =~= Seq::<DockMutation<M>>::empty());
    assert(one.last() == ms[i] && vone.last() == vs[i]);
    let mid = settle_one(ms[i], vs[i]);
    assert(settled(one, vone) =~= mid);
    let all = settled(ms, vs);
    let at = settled(a, va).len() as int;
    assert(all == settled(a, va) + mid + settled(b, vb));
    assert forall|c: int| 0 <= c < mid.len() implies #[trigger] all[at + c] == mid[c] by {}
    if mid.len() > 0 {
        assert(all[at] == mid[0]);
    }
    if mid.len() > 1 {
        assert(all[at + 1] == mid[1]);
    }
}

/// A close the application ignores is as if it had never been asked for: settling the frame gives
/// what settling it without that request (and its verdict) gives — for a tab, a leaf or a window
/// alike.
pub proof fn lemma_an_ignored_close_is_never_asked<M>(
    ms: Seq<DockMutation<M>>,
    vs: Seq<CloseVerdict>,
    i: int,
)
    requires
        vs.len() == ms.len(),
        0 <= i < ms.len(),
        ms[i] is Remove,
        vs[i] == CloseVerdict::Ignore,
    ensures
        settled(ms, vs) == settled(ms.remove(i), vs.remove(i)),
{
    let a = ms.subrange(0, i);
    let va = vs.subrange(0, i);
    let one = seq![ms[i]];
    let vone = seq![vs[i]];
    let b = ms.subrange(i + 1, ms.len() as int);
    let vb = vs.subrange(i + 1, vs.len() as int);
    assert(ms =~= a + one + b);
    assert(vs =~= va + vone + vb);
    assert(ms.remove(i) =~= a + b);
    assert(vs.remove(i) =~= va + vb);
    lemma_settling_goes_piece_by_piece(a + one, va + vone, b, vb);
    lemma_settling_goes_piece_by_piece(a, va, one, vone);
    lemma_settling_goes_piece_by_piece(a, va, b, vb);
    assert(one.drop_last() =~= Seq::<DockMutation<M>>::empty());
    assert(vone.drop_last() =~= Seq::<CloseVerdict>::empty());
    assert(settled(one.drop_last(), vone.drop_last()) =~= Seq::<DockMutation<M>>::empty());
    assert(one.last() == ms[i] && vone.last() == vs[i]);
    assert(settle_one(ms[i], vs[i]) =~= Seq::<DockMutation<M>>::empty());
    assert(settled(one, vone) =~= Seq::<DockMutation<M>>::empty());
    assert(settled(a, va) + settled(one, vone) =~= settled(a, va));
}

/// Where putting a frame on a dock has got to: the dock, the leaf with the focus, the tabs taken
/// out of the dock so far (in the order they were taken), and the events so far.
pub struct Applied<Tab> {
    pub dock: Seq<Option<SurfaceView<Tab>>>,
    pub focused: Option<NodePath>,
    pub closed: Seq<Tab>,
    pub events: Seq<DockEvent>,
}

/// `t` is `s` with the request `m` carried out. A request whose target is gone changes nothing
/// and reports nothing; one that changes the dock is announced as a finalised edit.
///
/// - showing a tab: only if it is not shown already;
/// - closing a tab: it is taken out (its leaf going on to show the successor the request names, or
///   the tab beside it) and reported closed;
/// - closing a node: every tab it held is reported closed, in order, then it is unlinked;
/// - closing a floating window: every tab of every node it held is reported closed;
/// - detaching a tab: it goes into a floating window of its own;
/// - dropping a carried tab: only if the tab is still in the dock, the destination still names
///   somewhere, and the drop changes anything;
/// - moving the focus: always, but announced only if the focus moved;
/// - folding a leaf, stowing a split, minimizing a floating window: only if that changes it (the
///   main surface is never minimized);
/// - regrouping around a crossing: written as the shape says, if each of its splits reuses a
///   split of the surface, none twice; announced when the toggle is pressed, not here.
///
/// What a window was built from and measured geometry are kept by the drawing code, not by this
/// dock, and change nothing here.
pub open spec fn step<Tab, M>(s: Applied<Tab>, m: DockMutation<M>, t: Applied<Tab>) -> bool {
    let committed = s.events.push(DockEvent::LayoutCommitted);
    let keeps_rest = t.focused == s.focused && t.closed == s.closed && t.events == committed;
    match m {
        DockMutation::Activate(path) => if names_tab(s.dock, path) && !leaf_at(
            s.dock,
            path.spec_node_path(),
        )->0@.is_active(path.tab.0 as int) {
            &&& leaf_now(
                s.dock,
                t.dock,
                path.spec_node_path(),
                leaf_at(s.dock, path.spec_node_path())->0@.activated(path.tab.0 as int),
            )
            &&& keeps_rest
        } else {
            t == s
        },
        DockMutation::Remove(TabRemoval::Tab { path, successor }) => if names_tab(s.dock, path) {
            let l = leaf_at(s.dock, path.spec_node_path())->0;
            &&& leaf_now(
                s.dock,
                t.dock,
                path.spec_node_path(),
                l@.removed_choosing(path.tab.0 as int, successor),
            )
            &&& t.focused == s.focused
            &&& t.closed == s.closed.push(l@.tabs[path.tab.0 as int])
            &&& t.events == committed
        } else {
            t == s
        },
        DockMutation::Remove(TabRemoval::Node(path)) => match node_at(s.dock, path) {
            Some(n) => {
                &&& closes_node(s.dock, t.dock, path)
                &&& t.focused == s.focused
                &&& t.closed == s.closed + n.tabs_of()
                &&& t.events == committed
            },
            None => t == s,
        },
        DockMutation::Remove(TabRemoval::Window(w)) => if w.0 != 0 && surface_of(s.dock, w) is Some {
            &&& t.dock == s.dock.update(w.0 as int, None)
            &&& t.focused == s.focused
            &&& t.closed == s.closed + all_tabs(surface_of(s.dock, w)->0.nodes)
            &&& t.events == committed
        } else {
            t == s
        },
        DockMutation::Detach(path) => if names_tab(s.dock, path) {
            detached(s.dock, t.dock, path) && keeps_rest
        } else {
            t == s
        },
        DockMutation::MoveTab { source, destination } => match spec_resolve(s.dock, source) {
            Some(sp) => if spec_destination_is_live(s.dock, destination) && move_changes(
                s.dock,
                sp,
                destination,
            ) {
                moves(s.dock, t.dock, sp, destination) && keeps_rest
            } else {
                t == s
            },
            None => t == s,
        },
        DockMutation::SetLeafCollapsed { path, collapsed } => if leaf_at(s.dock, path) is Some
            && leaf_at(s.dock, path)->0@.collapsed != collapsed {
            &&& leaf_now(s.dock, t.dock, path, LeafView { collapsed, ..leaf_at(s.dock, path)->0@ })
            &&& keeps_rest
        } else {
            t == s
        },
        DockMutation::SetSplitStowed { path, stowed } => if node_at(s.dock, path) matches Some(
            Node::Split(sn),
        ) && sn.stowed != stowed {
            &&& split_now(s.dock, t.dock, path, node_at(s.dock, path)->0->Split_0, stowed)
            &&& keeps_rest
        } else {
            t == s
        },
        DockMutation::SetWindowMinimized { surface, minimized } => if surface.0 != 0 && surface_of(
            s.dock,
            surface,
        ) is Some && surface_of(s.dock, surface)->0.minimized != minimized {
            &&& t.dock == s.dock.update(
                surface.0 as int,
                Some(SurfaceView { minimized, ..surface_of(s.dock, surface)->0 }),
            )
            &&& keeps_rest
        } else {
            t == s
        },
        DockMutation::Transpose { surface, shape } => if surface_of(s.dock, surface) is Some
            && fits_surface(surface_of(s.dock, surface)->0, splits_of(shape)) {
            &&& exists|sv: SurfaceView<Tab>|
                #![auto]
                written(surface_of(s.dock, surface)->0, sv, splits_of(shape)) && t.dock == s.dock.update(
                    surface.0 as int,
                    Some(sv),
                )
            &&& t.focused == s.focused
            &&& t.closed == s.closed
            &&& t.events == s.events
        } else {
            t == s
        },
        DockMutation::Focus(path) => {
            &&& t.dock == s.dock
            &&& t.focused == Some(path)
            &&& t.closed == s.closed
            &&& t.events == if s.focused != Some(path) {
                committed
            } else {
                s.events
            }
        },
        _ => t == s,
    }
}

/// `trace` goes from `s`, request by request of `ms` at the positions `order`, each state the
/// one before it with the next request carried out.
pub open spec fn is_trace<Tab, M>(
    trace: Seq<Applied<Tab>>,
    s: Applied<Tab>,
    ms: Seq<DockMutation<M>>,
    order: Seq<usize>,
) -> bool {
    &&& trace.len() == order.len() + 1
    &&& trace[0] == s
    &&& forall|i: int| 0 <= i < order.len() ==> step(#[trigger] trace[i], ms[order[i] as int], trace[i + 1])
}

/// `t` is `s` with the requests of `ms` at the positions `order` carried out one after another.
pub open spec fn applies<Tab, M>(
    s: Applied<Tab>,
    ms: Seq<DockMutation<M>>,
    order: Seq<usize>,
    t: Applied<Tab>,
) -> bool {
    exists|trace: Seq<Applied<Tab>>| #[trigger] is_trace(trace, s, ms, order) && trace.last() == t
}

proof fn lemma_trace_keeps_events<Tab, M>(
    trace: Seq<Applied<Tab>>,
    s: Applied<Tab>,
    ms: Seq<DockMutation<M>>,
    order: Seq<usize>,
    i: int,
)
    requires
        is_trace(trace, s, ms, order),
        0 <= i < trace.len(),
    ensures
        trace[i].events.len() >= s.events.len(),
        trace[i].events.subrange(0, s.events.len() as int) == s.events,
        trace[i].closed.len() >= s.closed.len(),
        trace[i].closed.subrange(0, s.closed.len() as int) == s.closed,
    decreases i,
{
    if i == 0 {
        assert(s.events.subrange(0, s.events.len() as int) =~= s.events);
        assert(s.closed.subrange(0, s.closed.len() as int) =~= s.closed);
    } else {
        lemma_trace_keeps_events(trace, s, ms, order, i - 1);
        let a = trace[i - 1];
        let b = trace[i];
        assert(step(a, ms[order[i - 1] as int], b));
        assert(b.events == a.events || b.events == a.events.push(DockEvent::LayoutCommitted));
        assert(b.events.subrange(0, s.events.len() as int) =~= a.events.subrange(0, s.events.len() as int));
        assert(exists|extra: Seq<Tab>| b.closed == a.closed + extra) by {
            if b.closed == a.closed {
                assert(b.closed == a.closed + Seq::<Tab>::empty());
            } else if b.closed.len() == a.closed.len() + 1 && b.closed.drop_last() == a.closed {
                assert(b.closed =~= a.closed + seq![b.closed.last()]);
            }
        }
        let extra = choose|extra: Seq<Tab>| b.closed == a.closed + extra;
        assert(b.closed.subrange(0, s.closed.len() as int) =~= a.closed.subrange(0, s.closed.len() as int));
    }
}

/// Putting a frame on a dock only ever adds: the frame's own events stay first, in their order,
/// with the edits' events after them; and the tabs reported closed only grow.
pub proof fn lemma_applying_keeps_what_was_said<Tab, M>(
    s: Applied<Tab>,
    ms: Seq<DockMutation<M>>,
    order: Seq<usize>,
    t: Applied<Tab>,
)
    requires
        applies(s, ms, order, t),
    ensures
        t.events.len() >= s.events.len(),
        t.events.subrange(0, s.events.len() as int) == s.events,
        t.closed.subrange(0, s.closed.len() as int) == s.closed,
{
    let trace = choose|trace: Seq<Applied<Tab>>| #[trigger] is_trace(trace, s, ms, order) && trace.last() == t;
    lemma_trace_keeps_events(trace, s, ms, order, trace.len() - 1);
}

/// Every position the apply order names is a request of the frame.
proof fn lemma_apply_order_in_range<M>(ms: Seq<DockMutation<M>>)
    requires
        ms.len() <= usize::MAX,
    ensures
        forall|c: int| 0 <= c < spec_apply_order(ms).len() ==> #[trigger] spec_apply_order(ms)[c] < ms.len(),
{
    lemma_positions_in_phase(ms, Phase::Edit);
    lemma_positions_in_phase(ms, Phase::Cut);
    lemma_positions_in_phase(ms, Phase::Move);
    lemma_last_focus_position(ms);
    let e = positions_in_phase(ms, Phase::Edit);
    let r = positions_in_phase(ms, Phase::Cut);
    let m = positions_in_phase(ms, Phase::Move);
    let order = spec_apply_order(ms);
    assert forall|c: int| 0 <= c < order.len() implies #[trigger] order[c] < ms.len() by {
        if c < e.len() {
            assert(order[c] == e[c]);
        } else if c < e.len() + r.len() {
            assert(order[c] == r.reverse()[c - e.len()]);
            assert(r.reverse()[c - e.len()] == r[r.len() - 1 - (c - e.len())]);
        } else if c < e.len() + r.len() + m.len() {
            assert(order[c] == m[c - e.len() - r.len()]);
        }
    }
}

/// One request, with what carrying it out needs copied out of it.
enum Request {
    Activate(TabPath),
    CloseTab(TabPath, Option<TabIndex>),
    CloseNode(NodePath),
    CloseWindow(SurfaceIndex),
    Detach(TabPath),
    Move(DragSource, TabDestination),
    Focus(NodePath),
    Collapse(NodePath, bool),
    Stow(NodePath, bool),
    Minimize(SurfaceIndex, bool),
    Other,
}

fn request_of<M>(m: &DockMutation<M>) -> (r: Request)
    ensures
        match *m {
            DockMutation::Activate(path) => r == Request::Activate(path),
            DockMutation::Remove(TabRemoval::Tab { path, successor }) => r == Request::CloseTab(
                path,
                successor,
            ),
            DockMutation::Remove(TabRemoval::Node(path)) => r == Request::CloseNode(path),
            DockMutation::Remove(TabRemoval::Window(w)) => r == Request::CloseWindow(w),
            DockMutation::Detach(path) => r == Request::Detach(path),
            DockMutation::MoveTab { source, destination } => r == Request::Move(source, destination),
            DockMutation::Focus(path) => r == Request::Focus(path),
            DockMutation::SetLeafCollapsed { path, collapsed } => r == Request::Collapse(path, collapsed),
            DockMutation::SetSplitStowed { path, stowed } => r == Request::Stow(path, stowed),
            DockMutation::SetWindowMinimized { surface, minimized } => r == Request::Minimize(
                surface,
                minimized,
            ),
            _ => r == Request::Other,
        },
{
    match m {
        DockMutation::Activate(path) => Request::Activate(*path),
        DockMutation::Remove(TabRemoval::Tab { path, successor }) => Request::CloseTab(*path, *successor),
        DockMutation::Remove(TabRemoval::Node(path)) => Request::CloseNode(*path),
        DockMutation::Remove(TabRemoval::Window(w)) => Request::CloseWindow(*w),
        DockMutation::Detach(path) => Request::Detach(*path),
        DockMutation::MoveTab { source, destination } => Request::Move(*source, *destination),
        DockMutation::Focus(path) => Request::Focus(*path),
        DockMutation::SetLeafCollapsed { path, collapsed } => Request::Collapse(*path, *collapsed),
        DockMutation::SetSplitStowed { path, stowed } => Request::Stow(*path, *stowed),
        DockMutation::SetWindowMinimized { surface, minimized } => Request::Minimize(*surface, *minimized),
        _ => Request::Other,
    }
}

impl<M> DockDraw<M> {
    /// Put this frame's requests on `tree`, in the order of [`apply_order`](Self::apply_order),
    /// as [`step`] says of each; returns the tabs taken out of the tree, in the order they were
    /// taken. Each edit that changed the dock adds its event after the frame's own.
    #[verifier::rlimit(40)]
    pub fn apply_mutations<Tab>(&mut self, tree: &mut DockState<Tab>) -> (closed: Vec<Tab>)
        requires
            old(tree).wf(),
        ensures
            final(tree).wf(),
            final(self).spec_mutations() == old(self).spec_mutations(),
            final(self).spec_dragging() == old(self).spec_dragging(),
            final(self).spec_events().subrange(0, old(self).spec_events().len() as int) == old(
                self,
            ).spec_events(),
            applies(
                Applied {
                    dock: old(tree)@,
                    focused: old(tree).spec_focused(),
                    closed: Seq::empty(),
                    events: old(self).spec_events(),
                },
                old(self).spec_mutations(),
                spec_apply_order(old(self).spec_mutations()),
                Applied {
                    dock: final(tree)@,
                    focused: final(tree).spec_focused(),
                    closed: closed@,
                    events: final(self).spec_events(),
                },
            ),
    {
        let order = self.apply_order();
        let count = self.mutations.len();
        let ghost ms = self.mutations@;
        let ghost s0 = Applied {
            dock: tree@,
            focused: tree.spec_focused(),
            closed: Seq::<Tab>::empty(),
            events: self.events@,
        };
        proof {
            lemma_apply_order_in_range(ms);
        }
        let mut closed: Vec<Tab> = Vec::new();
        let mut k: usize = 0;
        let ghost mut trace: Seq<Applied<Tab>> = seq![s0];
        while k < order.len()
            invariant
                tree.wf(),
                self.mutations@ == ms,
                self.dragging == old(self).spec_dragging(),
                ms == old(self).spec_mutations(),
                s0 == (Applied {
                    dock: old(tree)@,
                    focused: old(tree).spec_focused(),
                    closed: Seq::<Tab>::empty(),
                    events: old(self).spec_events(),
                }),
                order@ == spec_apply_order(ms),
                k <= order@.len(),
                forall|c: int| 0 <= c < order@.len() ==> #[trigger] order@[c] < ms.len(),
                trace.len() == k + 1,
                trace[0] == s0,
                forall|c: int| 0 <= c < k ==> step(#[trigger] trace[c], ms[order@[c] as int], trace[c + 1]),
                trace[k as int] == (Applied {
                    dock: tree@,
                    focused: tree.spec_focused(),
                    closed: closed@,
                    events: self.events@,
                }),
            decreases order@.len() - k,
        {
            let i = order[k];
            let ghost before = Applied {
                dock: tree@,
                focused: tree.spec_focused(),
                closed: closed@,
                events: self.events@,
            };
            assert(order@[k as int] < ms.len());
            let transposed = match &self.mutations[i] {
                DockMutation::Transpose { surface, shape } => {
                    tree.regroup(*surface, shape);
                    true
                },
                _ => false,
            };
            let request = if transposed {
                Request::Other
            } else {
                request_of(&self.mutations[i])
            };
            match request {
                Request::Activate(path) => {
                    if tree.activate_tab(path) {
                        self.events.push(DockEvent::LayoutCommitted);
                    }
                },
                Request::CloseTab(path, successor) => {
                    match tree.close_tab(path, successor) {
                        Some(tab) => {
                            closed.push(tab);
                            self.events.push(DockEvent::LayoutCommitted);
                        },
                        None => {},
                    }
                },
                Request::CloseNode(path) => {
                    match tree.close_node(path) {
                        Some(taken) => {
                            let mut taken = taken;
                            closed.append(&mut taken);
                            self.events.push(DockEvent::LayoutCommitted);
                        },
                        None => {},
                    }
                },
                Request::CloseWindow(w) => {
                    match tree.close_window(w) {
                        Some(taken) => {
                            let mut taken = taken;
                            closed.append(&mut taken);
                            self.events.push(DockEvent::LayoutCommitted);
                        },
                        None => {},
                    }
                },
                Request::Detach(path) => {
                    if tree.detach_tab(path) {
                        self.events.push(DockEvent::LayoutCommitted);
                    }
                },
                Request::Move(source, destination) => {
                    match source.resolve(tree) {
                        Some(sp) => {
                            if destination_is_live(tree, destination) {
                                if tree.move_tab(sp, destination) {
                                    self.events.push(DockEvent::LayoutCommitted);
                                }
                            }
                        },
                        None => {},
                    }
                },
                Request::Focus(path) => {
                    if tree.set_focus(path) {
                        self.events.push(DockEvent::LayoutCommitted);
                    }
                },
                Request::Collapse(path, collapsed) => {
                    if tree.set_leaf_collapsed(path, collapsed) {
                        self.events.push(DockEvent::LayoutCommitted);
                    }
                },
                Request::Stow(path, stowed) => {
                    if tree.set_split_stowed(path, stowed) {
                        self.events.push(DockEvent::LayoutCommitted);
                    }
                },
                Request::Minimize(surface, minimized) => {
                    if tree.set_window_minimized(surface, minimized) {
                        self.events.push(DockEvent::LayoutCommitted);
                    }
                },
                Request::Other => {},
            }
            let ghost after = Applied {
                dock: tree@,
                focused: tree.spec_focused(),
                closed: closed@,
                events: self.events@,
            };
            proof {
                assert(step(before, ms[i as int], after));
                let trace2 = trace.push(after);
                assert forall|c: int| 0 <= c < k + 1 implies step(
                    #[trigger] trace2[c],
                    ms[order@[c] as int],
                    trace2[c + 1],
                ) by {
                    if c < k {
                        assert(trace2[c] == trace[c]);
                        assert(trace2[c + 1] == trace[c + 1]);
                    }
                }
                trace = trace2;
            }
            k = k + 1;
        }
        proof {
            assert(is_trace(trace, s0, ms, order@));
            lemma_trace_keeps_events(trace, s0, ms, order@, trace.len() - 1);
        }
        closed
    }

    /// Put this frame on `tree` and say what became of it: the frame's events followed by those
    /// of its edits, the tabs taken out of the tree, and the gesture still in flight.
    pub fn apply<Tab>(self, tree: &mut DockState<Tab>) -> (response: DockAreaResponse<Tab>)
        requires
            old(tree).wf(),
        ensures
            final(tree).wf(),
            response.dragging == self.spec_dragging(),
            applies(
                Applied {
                    dock: old(tree)@,
                    focused: old(tree).spec_focused(),
                    closed: Seq::empty(),
                    events: self.spec_events(),
                },
                self.spec_mutations(),
                spec_apply_order(self.spec_mutations()),
                Applied {
                    dock: final(tree)@,
                    focused: final(tree).spec_focused(),
                    closed: response.closed@,
                    events: response.events@,
                },
            ),
    {
        let mut draw = self;
        let closed = draw.apply_mutations(tree);
        DockAreaResponse::new(draw.events, closed, draw.dragging)
    }
}

} // verus!
