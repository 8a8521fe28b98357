//! Where separators meet: which dividers make up a junction, and the layer its handle is drawn
//! in.
//!
//! A split's two children are each a band of parts with dividers between them. A junction is a
//! position on the line between the two bands where either band has a divider: a **tee** where
//! one band has one (three panels), a **cross** where both do (four panels).

use vstd::prelude::*;

verus! {

/// Which separators meet at a junction.
#[derive(Clone, Copy, Debug)]
pub enum JunctionKind {
    /// Four panels: divider `i` of the first band and divider `j` of the second are one line.
    Cross([usize; 2]),
    /// Three panels: only band `side` is divided here, at its divider `divider`.
    Tee { side: usize, divider: usize },
}

impl JunctionKind {
    /// The dividers this junction is made of, as `(band, divider index in that band)`: two for
    /// a cross, one for a tee.
    pub fn dividers(self) -> (ds: Vec<(usize, usize)>)
        ensures
            match self {
                JunctionKind::Cross(pair) => ds@ == seq![(0usize, pair[0]), (1usize, pair[1])],
                JunctionKind::Tee { side, divider } => ds@ == seq![(side, divider)],
            },
    {
        let mut ds: Vec<(usize, usize)> = Vec::new();
        match self {
            JunctionKind::Cross(pair) => {
                ds.push((0, pair[0]));
                ds.push((1, pair[1]));
            },
            JunctionKind::Tee { side, divider } => {
                ds.push((side, divider));
            },
        }
        proof {
            match self {
                JunctionKind::Cross(pair) => {
                    assert(ds@ =~= seq![(0usize, pair[0]), (1usize, pair[1])]);
                },
                JunctionKind::Tee { side, divider } => {
                    assert(ds@ =~= seq![(side, divider)]);
                },
            }
        }
        ds
    }
}

/// The tiers egui paints layers in, bottom to top.
#[derive(Clone, Copy, Debug, PartialEq, Eq, Hash, Structural)]
pub enum LayerOrder {
    Background,
    Middle,
    Foreground,
    Tooltip,
    Debug,
}

/// The tier a junction handle's own layer belongs in, given the tier the dock is drawn in: one
/// above the dock's own content, so it wins the pointer against the separators it sits on, and
/// never above `Foreground`, where menus and popups live.
pub fn handle_layer(dock: LayerOrder) -> (order: LayerOrder)
    ensures
        dock == LayerOrder::Background ==> order == LayerOrder::Middle,
        dock != LayerOrder::Background ==> order == LayerOrder::Foreground,
{
    match dock {
        LayerOrder::Background => LayerOrder::Middle,
        _ => LayerOrder::Foreground,
    }
}

/// How two bands' dividers compare, head by head, as the drawing code measured them: `same[i][j]`
/// when divider `i` of the first band and divider `j` of the second sit on one line (within the
/// alignment tolerance), `before[i][j]` when divider `i` comes strictly first along the line.
pub struct DividerComparison {
    pub same: Vec<Vec<bool>>,
    pub before: Vec<Vec<bool>>,
}

/// The comparison covers `n1` dividers of the first band and `n2` of the second.
pub open spec fn comparison_covers(same: Seq<Vec<bool>>, before: Seq<Vec<bool>>, n1: int, n2: int) -> bool {
    &&& same.len() == n1
    &&& before.len() == n1
    &&& forall|i: int| 0 <= i < n1 ==> (#[trigger] same[i])@.len() == n2 && before[i]@.len() == n2
}

/// The junctions along the line, from the heads `i` of `first` and `j` of `second` on: where the
/// two heads are one line they make a cross and both are consumed; otherwise whichever comes first
/// along the line (or the only one left) ends on the line alone, as a tee.
pub open spec fn merge_from(
    first: Seq<usize>,
    second: Seq<usize>,
    same: Seq<Vec<bool>>,
    before: Seq<Vec<bool>>,
    i: int,
    j: int,
) -> Seq<JunctionKind>
    decreases first.len() - i + second.len() - j,
{
    if i < 0 || j < 0 || i > first.len() || j > second.len() || (i == first.len() && j
        == second.len()) {
        Seq::empty()
    } else if i < first.len() && j < second.len() && same[i]@[j] {
        seq![JunctionKind::Cross([first[i], second[j]])] + merge_from(
            first,
            second,
            same,
            before,
            i + 1,
            j + 1,
        )
    } else if i < first.len() && (j >= second.len() || before[i]@[j]) {
        seq![JunctionKind::Tee { side: 0, divider: first[i] }] + merge_from(
            first,
            second,
            same,
            before,
            i + 1,
            j,
        )
    } else {
        seq![JunctionKind::Tee { side: 1, divider: second[j] }] + merge_from(
            first,
            second,
            same,
            before,
            i,
            j + 1,
        )
    }
}

/// The dividers of band `side` that `kinds` are made of, in order.
pub open spec fn dividers_of_side(kinds: Seq<JunctionKind>, side: usize) -> Seq<usize>
    decreases kinds.len(),
{
    if kinds.len() == 0 {
        Seq::empty()
    } else {
        let head = match kinds[0] {
            JunctionKind::Cross(pair) => if side == 0 {
                seq![pair[0]]
            } else if side == 1 {
                seq![pair[1]]
            } else {
                Seq::empty()
            },
            JunctionKind::Tee { side: s, divider } => if s == side {
                seq![divider]
            } else {
                Seq::empty()
            },
        };
        head + dividers_of_side(kinds.drop_first(), side)
    }
}

proof fn lemma_dividers_of_side_append(a: Seq<JunctionKind>, b: Seq<JunctionKind>, side: usize)
    ensures
        dividers_of_side(a + b, side) == dividers_of_side(a, side) + dividers_of_side(b, side),
    decreases a.len(),
{
    if a.len() == 0 {
        assert(a + b =~= b);
    } else {
        assert((a + b).drop_first() =~= a.drop_first() + b);
        lemma_dividers_of_side_append(a.drop_first(), b, side);
    }
}

/// The law of the merge walk: every divider of each band ends on the line in exactly one
/// junction, in the band's own order — none is skipped, none is handed two partners — and a cross
/// is made only of two dividers that are one line.
pub proof fn lemma_every_divider_meets_the_line_once(
    first: Seq<usize>,
    second: Seq<usize>,
    same: Seq<Vec<bool>>,
    before: Seq<Vec<bool>>,
    i: int,
    j: int,
)
    requires
        0 <= i <= first.len(),
        0 <= j <= second.len(),
        comparison_covers(same, before, first.len() as int, second.len() as int),
    ensures
        dividers_of_side(merge_from(first, second, same, before, i, j), 0) == first.subrange(
            i,
            first.len() as int,
        ),
        dividers_of_side(merge_from(first, second, same, before, i, j), 1) == second.subrange(
            j,
            second.len() as int,
        ),
        forall|k: int|
            0 <= k < merge_from(first, second, same, before, i, j).len() && #[trigger] merge_from(
                first,
                second,
                same,
                before,
                i,
                j,
            )[k] is Cross ==> exists|a: int, b: int|
                i <= a < first.len() && j <= b < second.len() && same[a]@[b] && merge_from(
                    first,
                    second,
                    same,
                    before,
                    i,
                    j,
                )[k] == JunctionKind::Cross([first[a], second[b]]),
    decreases first.len() - i + second.len() - j,
{
    let m = merge_from(first, second, same, before, i, j);
    if i >= first.len() && j >= second.len() {
        assert(first.subrange(i, first.len() as int) =~= Seq::<usize>::empty());
        assert(second.subrange(j, second.len() as int) =~= Seq::<usize>::empty());
    } else if i < first.len() && j < second.len() && same[i]@[j] {
        let head = seq![JunctionKind::Cross([first[i], second[j]])];
        let rest = merge_from(first, second, same, before, i + 1, j + 1);
        lemma_every_divider_meets_the_line_once(first, second, same, before, i + 1, j + 1);
        lemma_dividers_of_side_append(head, rest, 0);
        lemma_dividers_of_side_append(head, rest, 1);
        reveal_with_fuel(dividers_of_side, 2);
        assert(dividers_of_side(head, 0) =~= seq![first[i]]);
        assert(dividers_of_side(head, 1) =~= seq![second[j]]);
        assert(first.subrange(i, first.len() as int) =~= seq![first[i]] + first.subrange(
            i + 1,
            first.len() as int,
        ));
        assert(second.subrange(j, second.len() as int) =~= seq![second[j]] + second.subrange(
            j + 1,
            second.len() as int,
        ));
        assert forall|k: int| 0 <= k < m.len() && #[trigger] m[k] is Cross implies exists|
            a: int,
            b: int,
        | i <= a < first.len() && j <= b < second.len() && same[a]@[b] && m[k]
            == JunctionKind::Cross([first[a], second[b]]) by {
            if k == 0 {
                assert(m[0] == JunctionKind::Cross([first[i], second[j]]));
            } else {
                assert(m[k] == rest[k - 1]);
            }
        }
    } else if i < first.len() && (j >= second.len() || before[i]@[j]) {
        let head = seq![JunctionKind::Tee { side: 0, divider: first[i] }];
        let rest = merge_from(first, second, same, before, i + 1, j);
        lemma_every_divider_meets_the_line_once(first, second, same, before, i + 1, j);
        lemma_dividers_of_side_append(head, rest, 0);
        lemma_dividers_of_side_append(head, rest, 1);
        reveal_with_fuel(dividers_of_side, 2);
        assert(dividers_of_side(head, 0) =~= seq![first[i]]);
        assert(dividers_of_side(head, 1) =~= Seq::<usize>::empty());
        assert(first.subrange(i, first.len() as int) =~= seq![first[i]] + first.subrange(
            i + 1,
            first.len() as int,
        ));
        assert(dividers_of_side(m, 1) =~= dividers_of_side(rest, 1));
        assert forall|k: int| 0 <= k < m.len() && #[trigger] m[k] is Cross implies exists|
            a: int,
            b: int,
        | i <= a < first.len() && j <= b < second.len() && same[a]@[b] && m[k]
            == JunctionKind::Cross([first[a], second[b]]) by {
            assert(k > 0);
            assert(m[k] == rest[k - 1]);
        }
    } else {
        let head = seq![JunctionKind::Tee { side: 1, divider: second[j] }];
        let rest = merge_from(first, second, same, before, i, j + 1);
        lemma_every_divider_meets_the_line_once(first, second, same, before, i, j + 1);
        lemma_dividers_of_side_append(head, rest, 0);
        lemma_dividers_of_side_append(head, rest, 1);
        reveal_with_fuel(dividers_of_side, 2);
        assert(dividers_of_side(head, 1) =~= seq![second[j]]);
        assert(dividers_of_side(head, 0) =~= Seq::<usize>::empty());
        assert(second.subrange(j, second.len() as int) =~= seq![second[j]] + second.subrange(
            j + 1,
            second.len() as int,
        ));
        assert(dividers_of_side(m, 0) =~= dividers_of_side(rest, 0));
        assert forall|k: int| 0 <= k < m.len() && #[trigger] m[k] is Cross implies exists|
            a: int,
            b: int,
        | i <= a < first.len() && j <= b < second.len() && same[a]@[b] && m[k]
            == JunctionKind::Cross([first[a], second[b]]) by {
            assert(k > 0);
            assert(m[k] == rest[k - 1]);
        }
    }
}

/// The junctions on the line between two bands, in screen order, from the dividers each band has
/// drawn (`first`, `second`: each divider's index in its own band, in screen order) and how they
/// compare.
///
/// One merge walk over both lists, so that no divider can be given two partners; and walked to
/// the end of both, so that a divider without a partner across the line still ends on it, as a
/// tee.
pub fn merge_junctions(first: &Vec<usize>, second: &Vec<usize>, comparison: &DividerComparison) -> (at:
    Vec<JunctionKind>)
    requires
        comparison_covers(comparison.same@, comparison.before@, first@.len() as int, second@.len() as int),
    ensures
        at@ == merge_from(first@, second@, comparison.same@, comparison.before@, 0, 0),
        dividers_of_side(at@, 0) == first@,
        dividers_of_side(at@, 1) == second@,
{
    let ghost f = first@;
    let ghost g = second@;
    let ghost sm = comparison.same@;
    let ghost bf = comparison.before@;
    let mut at: Vec<JunctionKind> = Vec::new();
    let mut i: usize = 0;
    let mut j: usize = 0;
    while i < first.len() || j < second.len()
        invariant
            i <= f.len(),
            j <= g.len(),
            f == first@,
            g == second@,
            sm == comparison.same@,
            bf == comparison.before@,
            comparison_covers(sm, bf, f.len() as int, g.len() as int),
            at@ + merge_from(f, g, sm, bf, i as int, j as int) == merge_from(f, g, sm, bf, 0, 0),
        decreases f.len() - i + g.len() - j,
    {
        let ghost before_at = at@;
        if i < first.len() && j < second.len() && comparison.same[i][j] {
            at.push(JunctionKind::Cross([first[i], second[j]]));
            proof {
                assert(at@ + merge_from(f, g, sm, bf, i + 1, j + 1) =~= before_at + merge_from(
                    f,
                    g,
                    sm,
                    bf,
                    i as int,
                    j as int,
                ));
            }
            i = i + 1;
            j = j + 1;
        } else if i < first.len() && (j >= second.len() || comparison.before[i][j]) {
            at.push(JunctionKind::Tee { side: 0, divider: first[i] });
            proof {
                assert(at@ + merge_from(f, g, sm, bf, i + 1, j as int) =~= before_at + merge_from(
                    f,
                    g,
                    sm,
                    bf,
                    i as int,
                    j as int,
                ));
            }
            i = i + 1;
        } else {
            at.push(JunctionKind::Tee { side: 1, divider: second[j] });
            proof {
                assert(at@ + merge_from(f, g, sm, bf, i as int, j + 1) =~= before_at + merge_from(
                    f,
                    g,
                    sm,
                    bf,
                    i as int,
                    j as int,
                ));
            }
            j = j + 1;
        }
    }
    proof {
        assert(merge_from(f, g, sm, bf, i as int, j as int) =~= Seq::<JunctionKind>::empty());
        assert(at@ =~= merge_from(f, g, sm, bf, 0, 0));
        lemma_every_divider_meets_the_line_once(f, g, sm, bf, 0, 0);
        assert(f.subrange(0, f.len() as int) =~= f);
        assert(g.subrange(0, g.len() as int) =~= g);
    }
    at
}


/// The crossings on the line between two bands of `n1` and `n2` dividers, from the heads `i` and
/// `j` on, as `[divider of the first band, divider of the second]`: where the two heads are one
/// line they cross and both are consumed; otherwise the one that comes first along the line is
/// passed over. The walk ends with the shorter list.
pub open spec fn crossings_from(
    same: Seq<Vec<bool>>,
    before: Seq<Vec<bool>>,
    n1: int,
    n2: int,
    i: int,
    j: int,
) -> Seq<[usize; 2]>
    decreases n1 - i + n2 - j,
{
    if i < 0 || j < 0 || i >= n1 || j >= n2 {
        Seq::empty()
    } else if same[i]@[j] {
        seq![[i as usize, j as usize]] + crossings_from(same, before, n1, n2, i + 1, j + 1)
    } else if before[i]@[j] {
        crossings_from(same, before, n1, n2, i + 1, j)
    } else {
        crossings_from(same, before, n1, n2, i, j + 1)
    }
}

/// The dividers of the crosses among `kinds`, in order.
pub open spec fn crosses_of(kinds: Seq<JunctionKind>) -> Seq<[usize; 2]>
    decreases kinds.len(),
{
    if kinds.len() == 0 {
        Seq::empty()
    } else {
        match kinds[0] {
            JunctionKind::Cross(pair) => seq![pair] + crosses_of(kinds.drop_first()),
            JunctionKind::Tee { .. } => crosses_of(kinds.drop_first()),
        }
    }
}

/// Each crossing pairs a divider of the first band with one of the second that is on the same
/// line, and the crossings ascend strictly in both bands: no divider is handed two partners.
pub proof fn lemma_a_divider_crosses_at_most_once(
    same: Seq<Vec<bool>>,
    before: Seq<Vec<bool>>,
    n1: int,
    n2: int,
    i: int,
    j: int,
)
    requires
        0 <= i,
        0 <= j,
        n1 <= usize::MAX,
        n2 <= usize::MAX,
        comparison_covers(same, before, n1, n2),
    ensures
        forall|k: int|
            0 <= k < crossings_from(same, before, n1, n2, i, j).len() ==> {
                let p = #[trigger] crossings_from(same, before, n1, n2, i, j)[k];
                &&& i <= p[0] < n1
                &&& j <= p[1] < n2
                &&& same[p[0] as int]@[p[1] as int]
            },
        forall|k1: int, k2: int|
            0 <= k1 < k2 < crossings_from(same, before, n1, n2, i, j).len() ==> {
                let p1 = #[trigger] crossings_from(same, before, n1, n2, i, j)[k1];
                let p2 = #[trigger] crossings_from(same, before, n1, n2, i, j)[k2];
                p1[0] < p2[0] && p1[1] < p2[1]
            },
    decreases n1 - i + n2 - j,
{
    let c = crossings_from(same, before, n1, n2, i, j);
    if i >= n1 || j >= n2 {
    } else if same[i]@[j] {
        let rest = crossings_from(same, before, n1, n2, i + 1, j + 1);
        lemma_a_divider_crosses_at_most_once(same, before, n1, n2, i + 1, j + 1);
        let head: [usize; 2] = [i as usize, j as usize];
        assert(c == seq![head] + rest);
        assert(head[0] == i && head[1] == j);
        assert forall|k: int| 0 <= k < c.len() implies {
            let p = #[trigger] c[k];
            &&& i <= p[0] < n1
            &&& j <= p[1] < n2
            &&& same[p[0] as int]@[p[1] as int]
        } by {
            if k > 0 {
                assert(c[k] == rest[k - 1]);
            }
        }
        assert forall|k1: int, k2: int| 0 <= k1 < k2 < c.len() implies {
            let p1 = #[trigger] c[k1];
            let p2 = #[trigger] c[k2];
            p1[0] < p2[0] && p1[1] < p2[1]
        } by {
            assert(c[k2] == rest[k2 - 1]);
            if k1 > 0 {
                assert(c[k1] == rest[k1 - 1]);
            }
        }
    } else {
        let (i2, j2) = if before[i]@[j] {
            (i + 1, j)
        } else {
            (i, j + 1)
        };
        let rest = crossings_from(same, before, n1, n2, i2, j2);
        lemma_a_divider_crosses_at_most_once(same, before, n1, n2, i2, j2);
        assert(c == rest);
        assert forall|k: int| 0 <= k < c.len() implies {
            let p = #[trigger] c[k];
            &&& i <= p[0] < n1
            &&& j <= p[1] < n2
            &&& same[p[0] as int]@[p[1] as int]
        } by {
            assert(c[k] == rest[k]);
        }
        assert forall|k1: int, k2: int| 0 <= k1 < k2 < c.len() implies {
            let p1 = #[trigger] c[k1];
            let p2 = #[trigger] c[k2];
            p1[0] < p2[0] && p1[1] < p2[1]
        } by {
            assert(c[k1] == rest[k1]);
            assert(c[k2] == rest[k2]);
        }
    }
}

proof fn lemma_no_crosses_once_a_band_runs_out(
    first: Seq<usize>,
    second: Seq<usize>,
    same: Seq<Vec<bool>>,
    before: Seq<Vec<bool>>,
    i: int,
    j: int,
)
    requires
        0 <= i <= first.len(),
        0 <= j <= second.len(),
        i == first.len() || j == second.len(),
    ensures
        crosses_of(merge_from(first, second, same, before, i, j)) == Seq::<[usize; 2]>::empty(),
    decreases first.len() - i + second.len() - j,
{
    let m = merge_from(first, second, same, before, i, j);
    if i == first.len() && j == second.len() {
    } else if i < first.len() {
        lemma_no_crosses_once_a_band_runs_out(first, second, same, before, i + 1, j);
        assert(m.drop_first() =~= merge_from(first, second, same, before, i + 1, j));
    } else {
        lemma_no_crosses_once_a_band_runs_out(first, second, same, before, i, j + 1);
        assert(m.drop_first() =~= merge_from(first, second, same, before, i, j + 1));
    }
}

/// The crosses among the junctions on a line are exactly its crossings: the handle offered where
/// two separators meet as one line and the toggle that regroups them stand on the same pairs.
pub proof fn lemma_crossings_are_the_crosses_among_the_junctions(
    first: Seq<usize>,
    second: Seq<usize>,
    same: Seq<Vec<bool>>,
    before: Seq<Vec<bool>>,
    i: int,
    j: int,
)
    requires
        0 <= i <= first.len(),
        0 <= j <= second.len(),
        first.len() <= usize::MAX,
        second.len() <= usize::MAX,
        comparison_covers(same, before, first.len() as int, second.len() as int),
    ensures
        crosses_of(merge_from(first, second, same, before, i, j)) == crossings_from(
            same,
            before,
            first.len() as int,
            second.len() as int,
            i,
            j,
        ).map_values(|p: [usize; 2]| [first[p[0] as int], second[p[1] as int]]),
    decreases first.len() - i + second.len() - j,
{
    let n1 = first.len() as int;
    let n2 = second.len() as int;
    let f = |p: [usize; 2]| [first[p[0] as int], second[p[1] as int]];
    let m = merge_from(first, second, same, before, i, j);
    let c = crossings_from(same, before, n1, n2, i, j);
    if i >= n1 || j >= n2 {
        lemma_no_crosses_once_a_band_runs_out(first, second, same, before, i, j);
        assert(c.map_values(f) =~= Seq::<[usize; 2]>::empty());
    } else if same[i]@[j] {
        let rest = merge_from(first, second, same, before, i + 1, j + 1);
        let crest = crossings_from(same, before, n1, n2, i + 1, j + 1);
        lemma_crossings_are_the_crosses_among_the_junctions(first, second, same, before, i + 1, j + 1);
        assert(m.drop_first() =~= rest);
        let head: [usize; 2] = [i as usize, j as usize];
        assert(c == seq![head] + crest);
        assert(c.map_values(f) =~= seq![f(head)] + crest.map_values(f));
        assert(f(head) == [first[i], second[j]]);
    } else if before[i]@[j] {
        lemma_crossings_are_the_crosses_among_the_junctions(first, second, same, before, i + 1, j);
        assert(m.drop_first() =~= merge_from(first, second, same, before, i + 1, j));
    } else {
        lemma_crossings_are_the_crosses_among_the_junctions(first, second, same, before, i, j + 1);
        assert(m.drop_first() =~= merge_from(first, second, same, before, i, j + 1));
    }
}

/// The crossings on the line between two bands of `first_count` and `second_count` dividers, as
/// `[divider of the first band, divider of the second]`, in screen order.
///
/// One merge walk pairs the two lists, so that no divider is given two partners, and it stops
/// with the shorter list: past its end there is nothing left to cross.
pub fn crossing_pairs(first_count: usize, second_count: usize, comparison: &DividerComparison) -> (at:
    Vec<[usize; 2]>)
    requires
        comparison_covers(
            comparison.same@,
            comparison.before@,
            first_count as int,
            second_count as int,
        ),
    ensures
        at@ == crossings_from(
            comparison.same@,
            comparison.before@,
            first_count as int,
            second_count as int,
            0,
            0,
        ),
{
    let ghost sm = comparison.same@;
    let ghost bf = comparison.before@;
    let ghost n1 = first_count as int;
    let ghost n2 = second_count as int;
    let mut at: Vec<[usize; 2]> = Vec::new();
    let mut i: usize = 0;
    let mut j: usize = 0;
    while i < first_count && j < second_count
        invariant
            i <= first_count,
            j <= second_count,
            sm == comparison.same@,
            bf == comparison.before@,
            n1 == first_count,
            n2 == second_count,
            comparison_covers(sm, bf, n1, n2),
            at@ + crossings_from(sm, bf, n1, n2, i as int, j as int) == crossings_from(
                sm,
                bf,
                n1,
                n2,
                0,
                0,
            ),
        decreases first_count - i + second_count - j,
    {
        let ghost before_at = at@;
        if comparison.same[i][j] {
            at.push([i, j]);
            proof {
                assert(at@ + crossings_from(sm, bf, n1, n2, i + 1, j + 1) =~= before_at
                    + crossings_from(sm, bf, n1, n2, i as int, j as int));
            }
            i = i + 1;
            j = j + 1;
        } else if comparison.before[i][j] {
            i = i + 1;
        } else {
            j = j + 1;
        }
    }
    proof {
        assert(crossings_from(sm, bf, n1, n2, i as int, j as int) =~= Seq::<[usize; 2]>::empty());
        assert(at@ =~= crossings_from(sm, bf, n1, n2, 0, 0));
    }
    at
}

} // verus!
