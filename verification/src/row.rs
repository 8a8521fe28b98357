//! Rows of panels: which children are pressed against the row's ends as fixed strips, where a
//! row draws a divider, and which two children a divider drag trades between.
//!
//! Each child of a row either takes a share of what the row has left (it is *open*) or keeps a
//! fixed length (a strip: a collapsed leaf, or a side stowed away).

use vstd::prelude::*;

verus! {

/// `near` is the last open child at or before `gap`, and there is such a child.
pub open spec fn is_near_partner(open: Seq<bool>, gap: int, near: int) -> bool {
    &&& 0 <= near <= gap
    &&& open[near]
    &&& forall|i: int| near < i <= gap ==> !#[trigger] open[i]
}

/// `far` is the first open child after `gap`, and there is such a child.
pub open spec fn is_far_partner(open: Seq<bool>, gap: int, far: int) -> bool {
    &&& gap < far < open.len()
    &&& open[far]
    &&& forall|i: int| gap < i < far ==> !#[trigger] open[i]
}

/// The two children a drag on the divider in `gap` of a row of `children` trades between: the
/// nearest child on either side that takes a share of the row.
///
/// `open` says, child by child, whether it takes a share (as opposed to being squeezed into a
/// fixed-size strip); `None` means every child does, and then the pair is the gap's own two
/// neighbours. `None` comes back when the row has no such gap, or when one side of the gap is
/// nothing but strips — a strip stacked against the row's end has nobody to trade with.
pub fn trading_pair(gap: usize, children: usize, open: Option<&Vec<bool>>) -> (pair: Option<
    (usize, usize),
>)
    requires
        open matches Some(o) ==> o@.len() == children,
    ensures
        children < 2 || gap >= children - 1 ==> pair is None,
        gap < children - 1 && children >= 2 ==> match open {
            None => pair == Some((gap, (gap + 1) as usize)),
            Some(o) => match pair {
                Some((near, far)) => is_near_partner(o@, gap as int, near as int) && is_far_partner(
                    o@,
                    gap as int,
                    far as int,
                ),
                None => (forall|i: int| 0 <= i <= gap ==> !#[trigger] o@[i]) || (forall|i: int|
                    gap < i < children ==> !#[trigger] o@[i]),
            },
        },
{
    if children < 2 || gap >= children - 1 {
        return None;
    }
    let flags = match open {
        None => return Some((gap, gap + 1)),
        Some(o) => o,
    };
    // The nearest open child at or before the gap, searching leftwards.
    let mut k: usize = gap + 1;
    let mut near: Option<usize> = None;
    while k > 0
        invariant_except_break
            near is None,
            forall|i: int| k <= i <= gap ==> !#[trigger] flags@[i],
        invariant
            k <= gap + 1,
            gap + 1 < children,
            flags@.len() == children,
        ensures
            near matches Some(n) ==> is_near_partner(flags@, gap as int, n as int),
            near is None ==> forall|i: int| 0 <= i <= gap ==> !#[trigger] flags@[i],
        decreases k,
    {
        k = k - 1;
        if flags[k] {
            near = Some(k);
            break;
        }
    }
    let near = match near {
        Some(n) => n,
        None => return None,
    };
    // The nearest open child after the gap, searching rightwards.
    let mut j: usize = gap + 1;
    while j < children
        invariant
            gap < j <= children,
            flags@.len() == children,
            open == Some(flags),
            is_near_partner(flags@, gap as int, near as int),
            forall|i: int| gap < i < j ==> !#[trigger] flags@[i],
        decreases children - j,
    {
        if flags[j] {
            return Some((near, j));
        }
        j = j + 1;
    }
    None
}


/// Where a child of a row is cut from.
#[derive(Clone, Copy, Debug, PartialEq, Eq, Hash, Structural)]
pub enum Run {
    /// Among the fixed children pressed against the row's near edge, one after the other.
    Leading,
    /// Between the two runs: the open children sharing what is left, and any fixed child among
    /// them.
    Middle,
    /// Among the fixed children pressed against the row's far edge.
    Trailing,
}

/// Some child at or before `i` is open.
pub open spec fn open_at_or_before(open: Seq<bool>, i: int) -> bool {
    exists|k: int| 0 <= k <= i && k < open.len() && #[trigger] open[k]
}

/// Some child at or after `i` is open.
pub open spec fn open_at_or_after(open: Seq<bool>, i: int) -> bool {
    exists|k: int| 0 <= k && i <= k < open.len() && #[trigger] open[k]
}

/// The run child `i` is cut in: everything before the first open child leads (the whole row, when
/// no child is open), everything after the last one trails, and the rest is the middle.
pub open spec fn run_of(open: Seq<bool>, i: int) -> Run {
    if !open_at_or_before(open, i) {
        Run::Leading
    } else if !open_at_or_after(open, i) {
        Run::Trailing
    } else {
        Run::Middle
    }
}

/// Whether the row draws a divider in gap `gap`, between child `gap` and child `gap + 1`: where
/// the gap is an outer edge of what separates two open children — the near child is open and an
/// open child lies ahead, or the far child is open and an open child lies behind.
pub open spec fn has_divider(open: Seq<bool>, gap: int) -> bool {
    ||| open[gap] && open_at_or_after(open, gap + 1)
    ||| open[gap + 1] && open_at_or_before(open, gap)
}

/// For every child, whether an open child is at or before it (`at_or_before`), or at or after
/// it (`at_or_after`).
fn open_reach(open: &Vec<bool>) -> (reach: (Vec<bool>, Vec<bool>))
    ensures
        reach.0@.len() == open@.len(),
        reach.1@.len() == open@.len(),
        forall|i: int| 0 <= i < open@.len() ==> #[trigger] reach.0@[i] == open_at_or_before(open@, i),
        forall|i: int| 0 <= i < open@.len() ==> #[trigger] reach.1@[i] == open_at_or_after(open@, i),
{
    let n = open.len();
    let mut before: Vec<bool> = Vec::new();
    let mut seen = false;
    let mut i: usize = 0;
    while i < n
        invariant
            n == open@.len(),
            i <= n,
            before@.len() == i,
            seen == open_at_or_before(open@, i - 1),
            forall|k: int| 0 <= k < i ==> #[trigger] before@[k] == open_at_or_before(open@, k),
        decreases n - i,
    {
        if open[i] {
            assert(open@[i as int]);
        } else if !seen {
            assert forall|k: int| 0 <= k <= i && k < open@.len() implies !#[trigger] open@[k] by {
                if k < i {
                    assert(!open_at_or_before(open@, i - 1));
                }
            }
        }
        seen = seen || open[i];
        before.push(seen);
        i = i + 1;
    }
    let mut after: Vec<bool> = Vec::new();
    let mut j: usize = 0;
    while j < n
        invariant
            n == open@.len(),
            j <= n,
            after@.len() == j,
        decreases n - j,
    {
        after.push(false);
        j = j + 1;
    }
    let mut seen = false;
    let mut k: usize = n;
    while k > 0
        invariant
            n == open@.len(),
            k <= n,
            after@.len() == n,
            seen == open_at_or_after(open@, k as int),
            forall|m: int| k <= m < n ==> #[trigger] after@[m] == open_at_or_after(open@, m),
        decreases k,
    {
        k = k - 1;
        if open[k] {
            assert(open@[k as int]);
        } else if !seen {
            assert forall|m: int| 0 <= m && k <= m < open@.len() implies !#[trigger] open@[m] by {
                if m > k {
                    assert(!open_at_or_after(open@, k + 1));
                }
            }
        }
        seen = seen || open[k];
        after.set(k, seen);
    }
    (before, after)
}

/// The run each child of a row is cut in, from which children are open.
pub fn row_runs(open: &Vec<bool>) -> (runs: Vec<Run>)
    ensures
        runs@.len() == open@.len(),
        forall|i: int| 0 <= i < open@.len() ==> #[trigger] runs@[i] == run_of(open@, i),
{
    let (before, after) = open_reach(open);
    let mut runs: Vec<Run> = Vec::new();
    let mut i: usize = 0;
    while i < open.len()
        invariant
            i <= open@.len(),
            runs@.len() == i,
            before@.len() == open@.len(),
            after@.len() == open@.len(),
            forall|m: int| 0 <= m < open@.len() ==> #[trigger] before@[m] == open_at_or_before(open@, m),
            forall|m: int| 0 <= m < open@.len() ==> #[trigger] after@[m] == open_at_or_after(open@, m),
            forall|m: int| 0 <= m < i ==> #[trigger] runs@[m] == run_of(open@, m),
        decreases open@.len() - i,
    {
        let run = if !before[i] {
            Run::Leading
        } else if !after[i] {
            Run::Trailing
        } else {
            Run::Middle
        };
        runs.push(run);
        i = i + 1;
    }
    runs
}

/// For every gap of a row (one fewer than it has children), whether the row draws a divider
/// there. A row of fewer than two children has no gap.
pub fn row_dividers(open: &Vec<bool>) -> (dividers: Vec<bool>)
    ensures
        open@.len() < 2 ==> dividers@.len() == 0,
        open@.len() >= 2 ==> dividers@.len() == open@.len() - 1,
        forall|g: int| 0 <= g < dividers@.len() ==> #[trigger] dividers@[g] == has_divider(open@, g),
{
    let (before, after) = open_reach(open);
    let mut dividers: Vec<bool> = Vec::new();
    if open.len() < 2 {
        return dividers;
    }
    let mut g: usize = 0;
    let gaps = open.len() - 1;
    while g < gaps
        invariant
            open@.len() >= 2,
            gaps == open@.len() - 1,
            g <= gaps,
            dividers@.len() == g,
            before@.len() == open@.len(),
            after@.len() == open@.len(),
            forall|m: int| 0 <= m < open@.len() ==> #[trigger] before@[m] == open_at_or_before(open@, m),
            forall|m: int| 0 <= m < open@.len() ==> #[trigger] after@[m] == open_at_or_after(open@, m),
            forall|m: int| 0 <= m < g ==> #[trigger] dividers@[m] == has_divider(open@, m),
        decreases gaps - g,
    {
        let line = (open[g] && after[g + 1]) || (open[g + 1] && before[g]);
        dividers.push(line);
        g = g + 1;
    }
    dividers
}

/// A divider is drawn only where a drag on it has two children to trade between: where it is
/// drawn, an open child lies at or before the gap and another after it — exactly the rows on which
/// `trading_pair` finds a pair.
pub proof fn lemma_a_divider_has_two_parties(open: Seq<bool>, gap: int)
    requires
        0 <= gap,
        gap + 1 < open.len(),
        has_divider(open, gap),
    ensures
        !(forall|i: int| 0 <= i <= gap ==> !#[trigger] open[i]),
        !(forall|i: int| gap < i < open.len() ==> !#[trigger] open[i]),
{
    if open[gap] && open_at_or_after(open, gap + 1) {
        let k = choose|k: int| 0 <= k && gap + 1 <= k < open.len() && #[trigger] open[k];
        assert(open[gap]);
        assert(open[k]);
    } else {
        let k = choose|k: int| 0 <= k <= gap && k < open.len() && #[trigger] open[k];
        assert(open[gap + 1]);
        assert(open[k]);
    }
}

/// The two children a drag trades between both have a line at the edge that faces the other: the
/// gap right after the near one and the gap right before the far one, which are one gap when
/// nothing lies between them.
pub proof fn lemma_a_trade_is_drawn_at_both_edges(open: Seq<bool>, gap: int, near: int, far: int)
    requires
        is_near_partner(open, gap, near),
        is_far_partner(open, gap, far),
    ensures
        has_divider(open, near),
        has_divider(open, far - 1),
{
    assert(open[far]);
    assert(open[near]);
}

/// In a row whose every child is open, every child is in the middle run and every gap has its
/// divider.
pub proof fn lemma_an_open_row_divides_at_every_gap(open: Seq<bool>)
    requires
        forall|i: int| 0 <= i < open.len() ==> #[trigger] open[i],
    ensures
        forall|i: int| 0 <= i < open.len() ==> #[trigger] run_of(open, i) == Run::Middle,
        forall|g: int| 0 <= g && g + 1 < open.len() ==> #[trigger] has_divider(open, g),
{
    assert forall|i: int| 0 <= i < open.len() implies #[trigger] run_of(open, i) == Run::Middle by {
        assert(open[i]);
    }
    assert forall|g: int| 0 <= g && g + 1 < open.len() implies #[trigger] has_divider(open, g) by {
        assert(open[g]);
        assert(open[g + 1]);
    }
}

/// The runs come in order along the row: leading children first, then the middle, then the
/// trailing ones; and a child in either end run is a fixed one.
pub proof fn lemma_runs_come_in_order(open: Seq<bool>, i: int, j: int)
    requires
        0 <= i < j < open.len(),
    ensures
        run_of(open, j) == Run::Leading ==> run_of(open, i) == Run::Leading,
        run_of(open, i) == Run::Trailing ==> run_of(open, j) == Run::Trailing,
        run_of(open, i) != Run::Middle ==> !open[i],
{
    if open_at_or_before(open, i) {
        let k = choose|k: int| 0 <= k <= i && k < open.len() && #[trigger] open[k];
        assert(open[k]);
    }
    if open_at_or_after(open, j) {
        let k = choose|k: int| 0 <= k && j <= k < open.len() && #[trigger] open[k];
        assert(open[k]);
    }
    if open[i] {
        assert(open_at_or_before(open, i));
        assert(open_at_or_after(open, i));
    }
}

} // verus!
