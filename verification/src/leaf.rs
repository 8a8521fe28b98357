//! A leaf: the tabs of one tab bar, each with the identity the leaf handed it.
//!
//! The identity is what lets a dock keep pointing at a tab while the bar around it is edited.
//! It is handed out from a counter that only ever grows, so an identity that has once named a
//! tab never names another one — not after the tab is closed, and not after it has moved away.

use vstd::prelude::*;

use crate::address::{TabId, TabIndex};

verus! {

/// The abstract contents of a leaf.
pub struct LeafView<Tab> {
    /// The tabs, left to right.
    pub tabs: Seq<Tab>,
    /// The identity of each tab, position for position.
    pub ids: Seq<TabId>,
    /// The identity the next tab to arrive will get; every identity handed out so far is below it.
    pub next_id: nat,
    /// The identity of the tab the bar shows, if any. An identity whose tab has left names no tab,
    /// and then no tab is shown as active.
    pub active: Option<TabId>,
    /// The tabs shown before the current one, the most recent last: each activation remembers
    /// the tab it replaces.
    pub history: Seq<TabId>,
    /// Whether the leaf is folded down to its tab bar.
    pub collapsed: bool,
}

impl<Tab> LeafView<Tab> {
    /// One identity per tab, all of them distinct and all of them already handed out.
    pub open spec fn wf(self) -> bool {
        &&& self.ids.len() == self.tabs.len()
        &&& self.next_id <= u64::MAX
        &&& forall|i: int| 0 <= i < self.ids.len() ==> (#[trigger] self.ids[i]).0 < self.next_id
        &&& forall|i: int, j: int|
            0 <= i < self.ids.len() && 0 <= j < self.ids.len() && i != j ==> #[trigger] self.ids[i]
                != #[trigger] self.ids[j]
    }

    /// This leaf with the tab at `k` taken out: the tabs after it move one position left, and
    /// the identities go with their tabs.
    pub open spec fn removed(self, k: int) -> LeafView<Tab> {
        LeafView { tabs: self.tabs.remove(k), ids: self.ids.remove(k), ..self }
    }

    /// Whether the tab at `k` is the one the bar shows.
    pub open spec fn is_active(self, k: int) -> bool {
        self.active == Some(self.ids[k])
    }

    /// The history with the tab shown now remembered as the most recent, if one is shown.
    pub open spec fn remembered(self) -> Seq<TabId> {
        match self.active {
            Some(a) => self.history.push(a),
            None => self.history,
        }
    }

    /// This leaf showing the tab at `k`, remembering the one it showed.
    pub open spec fn activated(self, k: int) -> LeafView<Tab> {
        LeafView { active: Some(self.ids[k]), history: self.remembered(), ..self }
    }

    /// This leaf with the tab at `k` closed. If that tab was the one shown, the bar goes on to
    /// show `successor` if it names a tab of what is left; else the most recently shown tab that
    /// is still in the bar ([`recall`]); else the tab that slid into the closed one's place, else
    /// the last one; a bar left empty shows nothing.
    pub open spec fn removed_choosing(self, k: int, successor: Option<TabIndex>) -> LeafView<Tab> {
        let r = self.removed(k);
        if self.is_active(k) {
            LeafView {
                active: match successor {
                    Some(s) if s.0 < r.ids.len() => Some(r.ids[s.0 as int]),
                    _ => if recall(self.history, r.ids) is Some {
                        recall(self.history, r.ids)
                    } else if r.ids.len() == 0 {
                        None
                    } else if k < r.ids.len() {
                        Some(r.ids[k])
                    } else {
                        Some(r.ids[r.ids.len() - 1])
                    },
                },
                ..r
            }
        } else {
            r
        }
    }

    /// This leaf with the tab at `from` moved to position `to` of the bar it leaves behind, its
    /// identity going with it.
    pub open spec fn moved_within(self, from: int, to: int) -> LeafView<Tab> {
        LeafView {
            tabs: self.tabs.remove(from).insert(to, self.tabs[from]),
            ids: self.ids.remove(from).insert(to, self.ids[from]),
            ..self
        }
    }

    /// This leaf with `tab` put at the end of the bar under the next fresh identity.
    pub open spec fn pushed(self, tab: Tab) -> LeafView<Tab> {
        LeafView {
            tabs: self.tabs.push(tab),
            ids: self.ids.push(TabId(self.next_id as u64)),
            next_id: self.next_id + 1,
            active: self.active,
            history: self.history,
            collapsed: self.collapsed,
        }
    }

    /// This leaf with `tab` arrived at position `j` under the next fresh identity, and shown.
    pub open spec fn arrived(self, j: int, tab: Tab) -> LeafView<Tab> {
        LeafView {
            tabs: self.tabs.insert(j, tab),
            ids: self.ids.insert(j, TabId(self.next_id as u64)),
            next_id: self.next_id + 1,
            active: Some(TabId(self.next_id as u64)),
            history: self.remembered(),
            collapsed: self.collapsed,
        }
    }

    /// This is a leaf of just `tab`, the first identity it handed out, shown.
    pub open spec fn holds_only(self, tab: Tab) -> bool {
        &&& self.tabs == seq![tab]
        &&& self.ids == seq![TabId(0)]
        &&& self.next_id == 1
        &&& self.active == Some(TabId(0))
        &&& self.history == Seq::<TabId>::empty()
        &&& !self.collapsed
    }

    /// Where the tab with identity `id` sits, if it is in this leaf.
    pub open spec fn position_of(self, id: TabId) -> Option<int> {
        if self.ids.contains(id) {
            Some(choose|i: int| 0 <= i < self.ids.len() && self.ids[i] == id)
        } else {
            None
        }
    }
}

/// The most recent tab of `history` that is still among `ids`, if any.
pub open spec fn recall(history: Seq<TabId>, ids: Seq<TabId>) -> Option<TabId>
    decreases history.len(),
{
    if history.len() == 0 {
        None
    } else if ids.contains(history.last()) {
        Some(history.last())
    } else {
        recall(history.drop_last(), ids)
    }
}

/// [`recall`], computed.
fn recall_in(history: &Vec<TabId>, ids: &Vec<TabId>) -> (r: Option<TabId>)
    ensures
        r == recall(history@, ids@),
{
    let mut k: usize = history.len();
    proof {
        assert(history@.subrange(0, k as int) =~= history@);
    }
    while k > 0
        invariant
            k <= history@.len(),
            recall(history@, ids@) == recall(history@.subrange(0, k as int), ids@),
        decreases k,
    {
        let h = history[k - 1];
        let mut j: usize = 0;
        let mut found = false;
        while j < ids.len()
            invariant
                j <= ids@.len(),
                found <==> exists|m: int| 0 <= m < j && ids@[m] == h,
            decreases ids@.len() - j,
        {
            if ids[j].0 == h.0 {
                found = true;
            }
            j = j + 1;
        }
        let ghost pre = history@.subrange(0, k as int);
        proof {
            assert(pre.last() == h);
            assert(pre.drop_last() =~= history@.subrange(0, k - 1));
            if found {
                let m = choose|m: int| 0 <= m < ids@.len() && ids@[m] == h;
                assert(ids@.contains(h));
            } else {
                assert(!ids@.contains(h));
            }
        }
        if found {
            return Some(h);
        }
        k = k - 1;
    }
    None
}

/// One tab bar's worth of tabs.
pub struct LeafNode<Tab> {
    tabs: Vec<Tab>,
    ids: Vec<TabId>,
    next_id: u64,
    active: Option<TabId>,
    history: Vec<TabId>,
    collapsed: bool,
}

impl<Tab> View for LeafNode<Tab> {
    type V = LeafView<Tab>;

    closed spec fn view(&self) -> LeafView<Tab> {
        LeafView { tabs: self.tabs@, ids: self.ids@, next_id: self.next_id as nat, active: self.active, history: self.history@, collapsed: self.collapsed }
    }
}

/// In a well-formed leaf, the position found for an identity is the only one holding it.
pub proof fn lemma_position_of<Tab>(leaf: LeafView<Tab>, id: TabId, i: int)
    requires
        leaf.wf(),
        0 <= i < leaf.ids.len(),
        leaf.ids[i] == id,
    ensures
        leaf.position_of(id) == Some(i),
{
    assert(leaf.ids.contains(id));
    let k = choose|k: int| 0 <= k < leaf.ids.len() && leaf.ids[k] == id;
    assert(leaf.ids[k] == leaf.ids[i]);
}

/// A closed tab takes its identity with it, and every other tab keeps its own: after the tab at
/// `k` is removed, the identity it had is found nowhere in the leaf, and any other identity is
/// found exactly when it was found before — on the same tab, one position further left if it sat
/// to the right of the removed one.
pub proof fn lemma_removal_keeps_identities<Tab>(leaf: LeafView<Tab>, k: int, id: TabId)
    requires
        leaf.wf(),
        0 <= k < leaf.tabs.len(),
    ensures
        leaf.removed(k).wf(),
        id == leaf.ids[k] ==> leaf.removed(k).position_of(id) is None,
        id != leaf.ids[k] ==> (leaf.removed(k).position_of(id) is Some <==> leaf.position_of(
            id,
        ) is Some),
        id != leaf.ids[k] && leaf.position_of(id) is Some ==> {
            let i = leaf.position_of(id)->0;
            let j = if i < k {
                i
            } else {
                i - 1
            };
            &&& leaf.removed(k).position_of(id) == Some(j)
            &&& leaf.removed(k).tabs[j] == leaf.tabs[i]
        },
{
    let r = leaf.removed(k);
    assert forall|i: int| 0 <= i < r.ids.len() implies (#[trigger] r.ids[i]).0 < r.next_id by {
        if i < k {
            assert(r.ids[i] == leaf.ids[i]);
        } else {
            assert(r.ids[i] == leaf.ids[i + 1]);
        }
    }
    assert forall|i: int, j: int|
        0 <= i < r.ids.len() && 0 <= j < r.ids.len() && i != j implies #[trigger] r.ids[i]
        != #[trigger] r.ids[j] by {
        let oi = if i < k { i } else { i + 1 };
        let oj = if j < k { j } else { j + 1 };
        assert(r.ids[i] == leaf.ids[oi]);
        assert(r.ids[j] == leaf.ids[oj]);
    }
    if id == leaf.ids[k] {
        if r.ids.contains(id) {
            let j = choose|j: int| 0 <= j < r.ids.len() && r.ids[j] == id;
            let oj = if j < k { j } else { j + 1 };
            assert(r.ids[j] == leaf.ids[oj]);
        }
    } else {
        if leaf.ids.contains(id) {
            let i = choose|i: int| 0 <= i < leaf.ids.len() && leaf.ids[i] == id;
            lemma_position_of(leaf, id, i);
            let j = if i < k { i } else { i - 1 };
            assert(r.ids[j] == leaf.ids[i]);
            assert(r.tabs[j] == leaf.tabs[i]);
            lemma_position_of(r, id, j);
        }
        if r.ids.contains(id) {
            let j = choose|j: int| 0 <= j < r.ids.len() && r.ids[j] == id;
            let oj = if j < k { j } else { j + 1 };
            assert(r.ids[j] == leaf.ids[oj]);
            assert(leaf.ids.contains(id));
        }
    }
}

/// An identity is never handed out twice: a tab that arrives gets an identity no tab of the leaf
/// ever had, so an identity whose tab has left stays unanswered, and the tabs already there keep
/// theirs.
pub proof fn lemma_arrival_takes_a_fresh_identity<Tab>(leaf: LeafView<Tab>, tab: Tab, id: TabId)
    requires
        leaf.wf(),
        leaf.next_id < u64::MAX,
    ensures
        leaf.pushed(tab).wf(),
        id.0 < leaf.next_id ==> leaf.pushed(tab).position_of(id) == leaf.position_of(id),
        leaf.pushed(tab).position_of(TabId(leaf.next_id as u64)) == Some(leaf.tabs.len() as int),
{
    let p = leaf.pushed(tab);
    assert forall|i: int| 0 <= i < p.ids.len() implies (#[trigger] p.ids[i]).0 < p.next_id by {
        if i < leaf.ids.len() {
            assert(p.ids[i] == leaf.ids[i]);
        }
    }
    assert forall|i: int, j: int|
        0 <= i < p.ids.len() && 0 <= j < p.ids.len() && i != j implies #[trigger] p.ids[i]
        != #[trigger] p.ids[j] by {
        if i < leaf.ids.len() {
            assert(p.ids[i] == leaf.ids[i]);
        }
        if j < leaf.ids.len() {
            assert(p.ids[j] == leaf.ids[j]);
        }
    }
    lemma_position_of(p, TabId(leaf.next_id as u64), leaf.tabs.len() as int);
    if id.0 < leaf.next_id {
        if leaf.ids.contains(id) {
            let i = choose|i: int| 0 <= i < leaf.ids.len() && leaf.ids[i] == id;
            lemma_position_of(leaf, id, i);
            assert(p.ids[i] == leaf.ids[i]);
            lemma_position_of(p, id, i);
        }
        if p.ids.contains(id) {
            let j = choose|j: int| 0 <= j < p.ids.len() && p.ids[j] == id;
            if j < leaf.ids.len() {
                assert(p.ids[j] == leaf.ids[j]);
                assert(leaf.ids.contains(id));
            }
        }
    }
}

impl<Tab> LeafNode<Tab> {
    /// The leaf's abstract contents are well formed.
    pub open spec fn wf(&self) -> bool {
        self@.wf()
    }

    /// A leaf with no tabs, which has handed out no identity yet.
    pub fn new() -> (leaf: LeafNode<Tab>)
        ensures
            leaf.wf(),
            leaf@.tabs == Seq::<Tab>::empty(),
            leaf@.next_id == 0,
            leaf@.active is None,
            leaf@.history == Seq::<TabId>::empty(),
            !leaf@.collapsed,
    {
        LeafNode { tabs: Vec::new(), ids: Vec::new(), next_id: 0, active: None, history: Vec::new(), collapsed: false }
    }

    /// A leaf holding `tabs`, in that order; the tab at position `i` gets identity `i`, and the
    /// first tab, if any, is the one shown.
    pub fn with_tabs(tabs: Vec<Tab>) -> (leaf: LeafNode<Tab>)
        requires
            tabs.len() < u64::MAX,
        ensures
            leaf.wf(),
            leaf@.tabs == tabs@,
            leaf@.next_id == tabs.len(),
            forall|i: int| 0 <= i < tabs.len() ==> (#[trigger] leaf@.ids[i]).0 == i,
            leaf@.active == if tabs.len() == 0 {
                None
            } else {
                Some(TabId(0))
            },
            leaf@.history == Seq::<TabId>::empty(),
            !leaf@.collapsed,
    {
        let n = tabs.len();
        let mut ids: Vec<TabId> = Vec::new();
        let mut k: usize = 0;
        while k < n
            invariant
                k <= n,
                n < u64::MAX,
                ids@.len() == k,
                forall|i: int| 0 <= i < k ==> (#[trigger] ids@[i]).0 == i,
            decreases n - k,
        {
            ids.push(TabId(k as u64));
            k = k + 1;
        }
        let active = if n == 0 {
            None
        } else {
            Some(TabId(0))
        };
        LeafNode { tabs, ids, next_id: n as u64, active, history: Vec::new(), collapsed: false }
    }

    /// How many tabs the leaf holds.
    pub fn len(&self) -> (n: usize)
        ensures
            n == self@.tabs.len(),
    {
        self.tabs.len()
    }

    /// Whether the leaf holds no tab at all.
    pub fn is_empty(&self) -> (b: bool)
        ensures
            b <==> self@.tabs.len() == 0,
    {
        self.tabs.len() == 0
    }

    /// The tabs, left to right.
    pub fn tabs(&self) -> (tabs: &Vec<Tab>)
        ensures
            tabs@ == self@.tabs,
    {
        &self.tabs
    }

    /// The tab at `index`, if the bar is that long.
    pub fn get(&self, index: TabIndex) -> (tab: Option<&Tab>)
        ensures
            index.0 < self@.tabs.len() ==> tab == Some(&self@.tabs[index.0 as int]),
            index.0 >= self@.tabs.len() ==> tab is None,
    {
        if index.0 < self.tabs.len() {
            Some(&self.tabs[index.0])
        } else {
            None
        }
    }

    /// The identity of the tab at `index`, if the bar is that long.
    pub fn tab_id_at(&self, index: TabIndex) -> (id: Option<TabId>)
        requires
            self.wf(),
        ensures
            index.0 < self@.tabs.len() ==> id == Some(self@.ids[index.0 as int]),
            index.0 >= self@.tabs.len() ==> id is None,
    {
        if index.0 < self.ids.len() {
            Some(self.ids[index.0])
        } else {
            None
        }
    }

    /// Where the tab with identity `id` sits now, or `None` if it is not in this leaf.
    pub fn index_of(&self, id: TabId) -> (index: Option<TabIndex>)
        requires
            self.wf(),
        ensures
            match self@.position_of(id) {
                Some(i) => index == Some(TabIndex(i as usize)),
                None => index is None,
            },
    {
        let mut k: usize = 0;
        while k < self.ids.len()
            invariant
                self.wf(),
                k <= self.ids@.len(),
                forall|i: int| 0 <= i < k ==> self.ids@[i] != id,
            decreases self.ids@.len() - k,
        {
            if self.ids[k] == id {
                proof {
                    lemma_position_of(self@, id, k as int);
                }
                return Some(TabIndex(k));
            }
            k = k + 1;
        }
        proof {
            assert(!self.ids@.contains(id));
        }
        None
    }

    /// Whether the identities of this leaf are used up: every value of a `TabId` has been handed
    /// out, so no further tab can be given one.
    pub fn ids_exhausted(&self) -> (b: bool)
        ensures
            b <==> self@.next_id == u64::MAX,
    {
        self.next_id == u64::MAX
    }

    /// Put `tab` at the end of the bar under a fresh identity, and return that identity; `None`
    /// (and the tab dropped) only when the identities are used up.
    pub fn push_tab(&mut self, tab: Tab) -> (id: Option<TabId>)
        requires
            old(self).wf(),
        ensures
            final(self).wf(),
            old(self)@.next_id < u64::MAX ==> {
                &&& id == Some(TabId(old(self)@.next_id as u64))
                &&& final(self)@.tabs == old(self)@.tabs.push(tab)
                &&& final(self)@.ids == old(self)@.ids.push(TabId(old(self)@.next_id as u64))
                &&& final(self)@.next_id == old(self)@.next_id + 1
                &&& final(self)@.active == old(self)@.active
                &&& final(self)@.history == old(self)@.history
                &&& final(self)@.collapsed == old(self)@.collapsed
            },
            old(self)@.next_id == u64::MAX ==> id is None && final(self)@ == old(self)@,
    {
        if self.next_id == u64::MAX {
            return None;
        }
        let id = TabId(self.next_id);
        self.tabs.push(tab);
        self.ids.push(id);
        self.next_id = self.next_id + 1;
        Some(id)
    }

    /// Put `tab` at `index`, moving the tabs from there on one position right; returns the fresh
    /// identity it was given, or `None` (and the tab dropped) only when the identities are used up.
    pub fn insert_tab(&mut self, index: TabIndex, tab: Tab) -> (id: Option<TabId>)
        requires
            old(self).wf(),
            index.0 <= old(self)@.tabs.len(),
        ensures
            final(self).wf(),
            old(self)@.next_id < u64::MAX ==> {
                &&& id == Some(TabId(old(self)@.next_id as u64))
                &&& final(self)@.tabs == old(self)@.tabs.insert(index.0 as int, tab)
                &&& final(self)@.ids == old(self)@.ids.insert(
                    index.0 as int,
                    TabId(old(self)@.next_id as u64),
                )
                &&& final(self)@.next_id == old(self)@.next_id + 1
                &&& final(self)@.active == old(self)@.active
                &&& final(self)@.history == old(self)@.history
                &&& final(self)@.collapsed == old(self)@.collapsed
            },
            old(self)@.next_id == u64::MAX ==> id is None && final(self)@ == old(self)@,
    {
        if self.next_id == u64::MAX {
            return None;
        }
        let id = TabId(self.next_id);
        self.tabs.insert(index.0, tab);
        self.ids.insert(index.0, id);
        self.next_id = self.next_id + 1;
        proof {
            let v = self@;
            let o = old(self)@;
            assert forall|i: int| 0 <= i < v.ids.len() implies (#[trigger] v.ids[i]).0 < v.next_id by {
                if i < index.0 {
                    assert(v.ids[i] == o.ids[i]);
                } else if i > index.0 {
                    assert(v.ids[i] == o.ids[i - 1]);
                }
            }
            assert forall|i: int, j: int|
                0 <= i < v.ids.len() && 0 <= j < v.ids.len() && i != j implies #[trigger] v.ids[i]
                != #[trigger] v.ids[j] by {
                if i != index.0 && j != index.0 {
                    let oi = if i < index.0 { i } else { i - 1 };
                    let oj = if j < index.0 { j } else { j - 1 };
                    assert(v.ids[i] == o.ids[oi]);
                    assert(v.ids[j] == o.ids[oj]);
                } else if i == index.0 {
                    let oj = if j < index.0 { j } else { j - 1 };
                    assert(v.ids[j] == o.ids[oj]);
                } else {
                    let oi = if i < index.0 { i } else { i - 1 };
                    assert(v.ids[i] == o.ids[oi]);
                }
            }
        }
        Some(id)
    }

    /// Take the tab at `index` out of the bar, moving the tabs after it one position left; `None`
    /// if the bar is not that long. Its identity leaves with it and is never handed out again.
    pub fn remove_tab(&mut self, index: TabIndex) -> (tab: Option<Tab>)
        requires
            old(self).wf(),
        ensures
            final(self).wf(),
            final(self)@.next_id == old(self)@.next_id,
            index.0 < old(self)@.tabs.len() ==> {
                &&& tab == Some(old(self)@.tabs[index.0 as int])
                &&& final(self)@.tabs == old(self)@.tabs.remove(index.0 as int)
                &&& final(self)@.ids == old(self)@.ids.remove(index.0 as int)
                &&& final(self)@ == old(self)@.removed(index.0 as int)
            },
            index.0 >= old(self)@.tabs.len() ==> tab is None && final(self)@ == old(self)@,
    {
        if index.0 >= self.tabs.len() {
            return None;
        }
        let tab = self.tabs.remove(index.0);
        self.ids.remove(index.0);
        proof {
            let v = self@;
            let o = old(self)@;
            assert forall|i: int| 0 <= i < v.ids.len() implies (#[trigger] v.ids[i]).0 < v.next_id by {
                if i < index.0 {
                    assert(v.ids[i] == o.ids[i]);
                } else {
                    assert(v.ids[i] == o.ids[i + 1]);
                }
            }
            assert forall|i: int, j: int|
                0 <= i < v.ids.len() && 0 <= j < v.ids.len() && i != j implies #[trigger] v.ids[i]
                != #[trigger] v.ids[j] by {
                let oi = if i < index.0 { i } else { i + 1 };
                let oj = if j < index.0 { j } else { j + 1 };
                assert(v.ids[i] == o.ids[oi]);
                assert(v.ids[j] == o.ids[oj]);
            }
            assert(v.tabs =~= o.removed(index.0 as int).tabs);
            assert(v.ids =~= o.removed(index.0 as int).ids);
        }
        Some(tab)
    }

    /// Show the tab at `index`; `true` if that changed what the bar shows, `false` if it already
    /// showed it or the bar is not that long.
    pub fn activate(&mut self, index: TabIndex) -> (changed: bool)
        requires
            old(self).wf(),
        ensures
            final(self).wf(),
            changed <==> index.0 < old(self)@.tabs.len() && !old(self)@.is_active(index.0 as int),
            changed ==> final(self)@ == old(self)@.activated(index.0 as int),
            !changed ==> final(self)@ == old(self)@,
    {
        if index.0 >= self.ids.len() {
            return false;
        }
        let id = self.ids[index.0];
        if self.active == Some(id) {
            return false;
        }
        self.remember_active();
        self.active = Some(id);
        proof {
            assert(self@ =~= old(self)@.activated(index.0 as int));
        }
        true
    }

    /// Close the tab at `index` and hand it back, choosing what the bar shows next as
    /// [`LeafView::removed_choosing`] says; `None` (and nothing changed) if the bar is not that
    /// long.
    pub fn remove_tab_choosing(&mut self, index: TabIndex, successor: Option<TabIndex>) -> (tab:
        Option<Tab>)
        requires
            old(self).wf(),
        ensures
            final(self).wf(),
            index.0 < old(self)@.tabs.len() ==> {
                &&& tab == Some(old(self)@.tabs[index.0 as int])
                &&& final(self)@ == old(self)@.removed_choosing(index.0 as int, successor)
            },
            index.0 >= old(self)@.tabs.len() ==> tab is None && final(self)@ == old(self)@,
    {
        if index.0 >= self.ids.len() {
            return None;
        }
        let was_active = self.active == Some(self.ids[index.0]);
        let tab = self.remove_tab(index);
        if was_active {
            let n = self.ids.len();
            let recalled = recall_in(&self.history, &self.ids);
            self.active = match successor {
                Some(s) if s.0 < n => Some(self.ids[s.0]),
                _ => if recalled.is_some() {
                    recalled
                } else if n == 0 {
                    None
                } else if index.0 < n {
                    Some(self.ids[index.0])
                } else {
                    Some(self.ids[n - 1])
                },
            };
        }
        tab
    }

    /// Move the tab at `from` to position `to` of the bar as it stands without it, keeping its
    /// identity.
    pub fn move_within(&mut self, from: TabIndex, to: TabIndex)
        requires
            old(self).wf(),
            from.0 < old(self)@.tabs.len(),
            to.0 < old(self)@.tabs.len(),
        ensures
            final(self).wf(),
            final(self)@ == old(self)@.moved_within(from.0 as int, to.0 as int),
    {
        let tab = self.tabs.remove(from.0);
        let id = self.ids.remove(from.0);
        self.tabs.insert(to.0, tab);
        self.ids.insert(to.0, id);
        proof {
            let o = old(self)@;
            let v = self@;
            let f = from.0 as int;
            let t = to.0 as int;
            let r = o.ids.remove(f);
            assert(v.ids =~= r.insert(t, o.ids[f]));
            assert(v.tabs =~= o.tabs.remove(f).insert(t, o.tabs[f]));
            assert forall|i: int| 0 <= i < r.len() implies r[i] == o.ids[if i < f { i } else { i + 1 }] by {}
            assert forall|i: int| 0 <= i < v.ids.len() implies (#[trigger] v.ids[i]).0 < v.next_id by {
                if i < t {
                    assert(v.ids[i] == r[i]);
                } else if i > t {
                    assert(v.ids[i] == r[i - 1]);
                }
            }
            assert forall|i: int, j: int|
                0 <= i < v.ids.len() && 0 <= j < v.ids.len() && i != j implies #[trigger] v.ids[i]
                != #[trigger] v.ids[j] by {
                let oi = if i == t { f } else {
                    let ri = if i < t { i } else { i - 1 };
                    if ri < f { ri } else { ri + 1 }
                };
                let oj = if j == t { f } else {
                    let rj = if j < t { j } else { j - 1 };
                    if rj < f { rj } else { rj + 1 }
                };
                assert(v.ids[i] == o.ids[oi]);
                assert(v.ids[j] == o.ids[oj]);
            }
        }
    }

    /// The identity of the tab the bar shows, if any.
    pub fn active(&self) -> (id: Option<TabId>)
        ensures
            id == self@.active,
    {
        self.active
    }

    /// Put `tab` at `index` under a fresh identity and show it; `false` (and the tab dropped) only
    /// when the identities are used up.
    pub fn arrive_tab(&mut self, index: TabIndex, tab: Tab) -> (arrived: bool)
        requires
            old(self).wf(),
            index.0 <= old(self)@.tabs.len(),
        ensures
            final(self).wf(),
            arrived <==> old(self)@.next_id < u64::MAX,
            arrived ==> final(self)@ == old(self)@.arrived(index.0 as int, tab),
            !arrived ==> final(self)@ == old(self)@,
    {
        match self.insert_tab(index, tab) {
            Some(id) => {
                self.remember_active();
                self.active = Some(id);
                proof {
                    assert(self@ =~= old(self)@.arrived(index.0 as int, tab));
                }
                true
            },
            None => false,
        }
    }

    /// Fold the leaf down to its tab bar, or unfold it; `true` if that changed it.
    pub fn set_collapsed(&mut self, collapsed: bool) -> (changed: bool)
        requires
            old(self).wf(),
        ensures
            final(self).wf(),
            changed <==> old(self)@.collapsed != collapsed,
            final(self)@ == (LeafView { collapsed, ..old(self)@ }),
    {
        let changed = self.collapsed != collapsed;
        self.collapsed = collapsed;
        changed
    }

    /// Whether the leaf is folded down to its tab bar.
    pub fn is_collapsed(&self) -> (b: bool)
        ensures
            b == self@.collapsed,
    {
        self.collapsed
    }

    /// Remember the tab shown now, if any, as the most recent of the history.
    fn remember_active(&mut self)
        ensures
            final(self)@ == (LeafView { history: old(self)@.remembered(), ..old(self)@ }),
    {
        match self.active {
            Some(a) => self.history.push(a),
            None => {},
        }
    }
}

} // verus!
