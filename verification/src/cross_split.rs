//! Cross-split transposition: where the two children of a split are each a band cut by dividers
//! and a divider of one band lines up with one of the other, the same rectangles are drawn by
//! either grouping (rows of columns, or columns of rows). Transposing rebuilds the split around
//! that crossing in the other grouping, out of exactly the splits the two bands were made of.
//!
//! The shape is decided here; each split's fraction is named by what it is measured from on
//! screen, and measured by the drawing code.

use vstd::prelude::*;

use crate::address::NodeId;

verus! {

/// What a rebuilt split's fraction is measured from, so that the new grouping draws the picture
/// the old one drew.
#[derive(Clone, Copy, Debug, PartialEq, Eq, Hash, Structural)]
pub enum Fraction {
    /// Part `from` of band `band`, as a share of the group of its parts `from..=to`.
    Chain { band: usize, from: usize, to: usize },
    /// The first band's share of the split being transposed, along that split's own axis.
    Stack,
    /// Where the crossing of divider `first` of the first band and divider `second` of the second
    /// falls along the bands.
    Cross { first: usize, second: usize },
}

/// A grouping rebuilt out of existing nodes: a node kept as it is, or a split that reuses the
/// identity `id` and divides its area between two groupings.
#[derive(Debug)]
pub enum Regroup {
    Keep(NodeId),
    Split {
        id: NodeId,
        horizontal: bool,
        fraction: Fraction,
        first: Box<Regroup>,
        second: Box<Regroup>,
    },
}

/// The nodes a grouping keeps, in screen order.
pub open spec fn leaves(r: Regroup) -> Seq<NodeId>
    decreases r,
{
    match r {
        Regroup::Keep(node) => seq![node],
        Regroup::Split { first, second, .. } => leaves(*first) + leaves(*second),
    }
}

/// The split identities a grouping uses, each split before the splits inside it, first child
/// before second.
pub open spec fn split_ids(r: Regroup) -> Seq<NodeId>
    decreases r,
{
    match r {
        Regroup::Keep(_) => Seq::empty(),
        Regroup::Split { id, first, second, .. } => seq![id] + split_ids(*first) + split_ids(
            *second,
        ),
    }
}

/// The parts `from..=to` of band `band` (whose parts are `parts`), as a chain of `horizontal`
/// splits leaning right: each split keeps its first part on one side and the rest of the group on
/// the other, and the splits take their identities from `pool`, from `next` on, in order.
pub open spec fn chain(
    parts: Seq<NodeId>,
    band: usize,
    from: int,
    to: int,
    horizontal: bool,
    pool: Seq<NodeId>,
    next: int,
) -> Regroup
    decreases to - from,
{
    if from >= to {
        Regroup::Keep(parts[from])
    } else {
        Regroup::Split {
            id: pool[next],
            horizontal,
            fraction: Fraction::Chain { band, from: from as usize, to: to as usize },
            first: Box::new(Regroup::Keep(parts[from])),
            second: Box::new(chain(parts, band, from + 1, to, horizontal, pool, next + 1)),
        }
    }
}

/// One half of a transposed cross: the parts `from0..=to0` of the first band and `from1..=to1` of
/// the second, each rebuilt as a chain across the bands, stacked along the transposed split's old
/// axis. The half takes the next identity of `pool`, then its first chain, then its second.
pub open spec fn half(
    parts0: Seq<NodeId>,
    parts1: Seq<NodeId>,
    from: (int, int),
    to: (int, int),
    outer_horizontal: bool,
    pool: Seq<NodeId>,
    next: int,
) -> Regroup {
    Regroup::Split {
        id: pool[next],
        horizontal: outer_horizontal,
        fraction: Fraction::Stack,
        first: Box::new(chain(parts0, 0, from.0, to.0, !outer_horizontal, pool, next + 1)),
        second: Box::new(
            chain(parts1, 1, from.1, to.1, !outer_horizontal, pool, next + 1 + (to.0 - from.0)),
        ),
    }
}

/// The split `outer` (laid out `outer_horizontal`), whose children are the bands of parts
/// `parts0` and `parts1` divided by the splits `dividers0` and `dividers1`, regrouped around the
/// crossing of divider `i` of the first band and divider `j` of the second: a split across the
/// bands at the crossing line, whose halves are what lies before it and what lies after it.
pub open spec fn transposed(
    outer: NodeId,
    outer_horizontal: bool,
    parts0: Seq<NodeId>,
    dividers0: Seq<NodeId>,
    parts1: Seq<NodeId>,
    dividers1: Seq<NodeId>,
    i: int,
    j: int,
) -> Regroup {
    let pool = dividers0 + dividers1;
    let n = parts0.len() as int;
    let m = parts1.len() as int;
    Regroup::Split {
        id: outer,
        horizontal: !outer_horizontal,
        fraction: Fraction::Cross { first: i as usize, second: j as usize },
        first: Box::new(half(parts0, parts1, (0, 0), (i, j), outer_horizontal, pool, 0)),
        second: Box::new(
            half(parts0, parts1, (i + 1, j + 1), (n - 1, m - 1), outer_horizontal, pool, 1 + i + j),
        ),
    }
}

/// A chain keeps its parts in order and uses `to - from` identities of the pool, in order.
pub proof fn lemma_chain_keeps_its_parts(
    parts: Seq<NodeId>,
    band: usize,
    from: int,
    to: int,
    horizontal: bool,
    pool: Seq<NodeId>,
    next: int,
)
    requires
        0 <= from <= to < parts.len(),
        0 <= next,
        next + (to - from) <= pool.len(),
    ensures
        leaves(chain(parts, band, from, to, horizontal, pool, next)) == parts.subrange(from, to + 1),
        split_ids(chain(parts, band, from, to, horizontal, pool, next)) == pool.subrange(
            next,
            next + (to - from),
        ),
    decreases to - from,
{
    if from < to {
        lemma_chain_keeps_its_parts(parts, band, from + 1, to, horizontal, pool, next + 1);
        let c = chain(parts, band, from, to, horizontal, pool, next);
        let rest = chain(parts, band, from + 1, to, horizontal, pool, next + 1);
        assert(leaves(Regroup::Keep(parts[from])) == seq![parts[from]]);
        assert(split_ids(Regroup::Keep(parts[from])) =~= Seq::<NodeId>::empty());
        assert(leaves(c) == seq![parts[from]] + leaves(rest));
        assert(parts.subrange(from, to + 1) =~= seq![parts[from]] + parts.subrange(from + 1, to + 1));
        assert(split_ids(c) == seq![pool[next]] + Seq::<NodeId>::empty() + split_ids(rest));
        assert(pool.subrange(next, next + (to - from)) =~= seq![pool[next]] + pool.subrange(
            next + 1,
            next + (to - from),
        ));
    } else {
        assert(leaves(chain(parts, band, from, to, horizontal, pool, next)) =~= parts.subrange(
            from,
            to + 1,
        ));
        assert(split_ids(chain(parts, band, from, to, horizontal, pool, next)) =~= pool.subrange(
            next,
            next + (to - from),
        ));
    }
}

/// A transposition moves no part and leaves no split over: the regrouped split keeps every part of
/// both bands — what lay before the crossing in each band, then what lay after it — and it is
/// built of exactly the split being transposed and the splits the two bands were divided by, each
/// once and in their order.
pub proof fn lemma_a_transposition_uses_exactly_the_splits_it_took_apart(
    outer: NodeId,
    outer_horizontal: bool,
    parts0: Seq<NodeId>,
    dividers0: Seq<NodeId>,
    parts1: Seq<NodeId>,
    dividers1: Seq<NodeId>,
    i: int,
    j: int,
)
    requires
        parts0.len() == dividers0.len() + 1,
        parts1.len() == dividers1.len() + 1,
        0 <= i < dividers0.len(),
        0 <= j < dividers1.len(),
    ensures
        leaves(transposed(outer, outer_horizontal, parts0, dividers0, parts1, dividers1, i, j))
            == parts0.subrange(0, i + 1) + parts1.subrange(0, j + 1) + parts0.subrange(
            i + 1,
            parts0.len() as int,
        ) + parts1.subrange(j + 1, parts1.len() as int),
        split_ids(transposed(outer, outer_horizontal, parts0, dividers0, parts1, dividers1, i, j))
            == seq![outer] + dividers0 + dividers1,
{
    let pool = dividers0 + dividers1;
    let n = parts0.len() as int;
    let m = parts1.len() as int;
    let inner = !outer_horizontal;
    lemma_chain_keeps_its_parts(parts0, 0, 0, i, inner, pool, 1);
    lemma_chain_keeps_its_parts(parts1, 1, 0, j, inner, pool, 1 + i);
    lemma_chain_keeps_its_parts(parts0, 0, i + 1, n - 1, inner, pool, 2 + i + j);
    lemma_chain_keeps_its_parts(parts1, 1, j + 1, m - 1, inner, pool, 2 + i + j + (n - 2 - i));
    let near = half(parts0, parts1, (0, 0), (i, j), outer_horizontal, pool, 0);
    let far = half(parts0, parts1, (i + 1, j + 1), (n - 1, m - 1), outer_horizontal, pool, 1 + i + j);
    let t = transposed(outer, outer_horizontal, parts0, dividers0, parts1, dividers1, i, j);
    assert(leaves(t) == leaves(near) + leaves(far));
    assert(split_ids(t) == seq![outer] + split_ids(near) + split_ids(far));
    assert(leaves(t) =~= parts0.subrange(0, i + 1) + parts1.subrange(0, j + 1) + parts0.subrange(
        i + 1,
        n,
    ) + parts1.subrange(j + 1, m));
    assert(split_ids(near) =~= pool.subrange(0, 1 + i + j));
    assert(split_ids(far) =~= pool.subrange(1 + i + j, pool.len() as int));
    assert(split_ids(t) =~= seq![outer] + dividers0 + dividers1);
}

/// The crossing a transposed split is measured from is the one it was cut at: its fraction names
/// a divider of the first band and one of the second, and what lies before the cut is exactly the
/// parts of the first band up to that first divider and of the second band up to that second
/// divider, what lies after it the rest of each band.
pub proof fn lemma_the_cross_fraction_names_the_cut(
    outer: NodeId,
    outer_horizontal: bool,
    parts0: Seq<NodeId>,
    dividers0: Seq<NodeId>,
    parts1: Seq<NodeId>,
    dividers1: Seq<NodeId>,
    i: int,
    j: int,
)
    requires
        parts0.len() == dividers0.len() + 1,
        parts1.len() == dividers1.len() + 1,
        0 <= i < dividers0.len(),
        0 <= j < dividers1.len(),
        dividers0.len() + dividers1.len() <= usize::MAX,
    ensures
        ({
            let t = transposed(outer, outer_horizontal, parts0, dividers0, parts1, dividers1, i, j);
            &&& t is Split
            &&& t->Split_id == outer
            &&& t->Split_horizontal == !outer_horizontal
            &&& t->Split_fraction is Cross
            &&& t->Split_fraction->Cross_first < dividers0.len()
            &&& t->Split_fraction->Cross_second < dividers1.len()
            &&& leaves(*t->Split_first) == parts0.subrange(0, t->Split_fraction->Cross_first + 1)
                + parts1.subrange(0, t->Split_fraction->Cross_second + 1)
            &&& leaves(*t->Split_second) == parts0.subrange(
                t->Split_fraction->Cross_first + 1,
                parts0.len() as int,
            ) + parts1.subrange(t->Split_fraction->Cross_second + 1, parts1.len() as int)
        }),
{
    let pool = dividers0 + dividers1;
    let n = parts0.len() as int;
    let m = parts1.len() as int;
    let inner = !outer_horizontal;
    lemma_chain_keeps_its_parts(parts0, 0, 0, i, inner, pool, 1);
    lemma_chain_keeps_its_parts(parts1, 1, 0, j, inner, pool, 1 + i);
    lemma_chain_keeps_its_parts(parts0, 0, i + 1, n - 1, inner, pool, 2 + i + j);
    lemma_chain_keeps_its_parts(parts1, 1, j + 1, m - 1, inner, pool, 2 + i + j + (n - 2 - i));
    let near = half(parts0, parts1, (0, 0), (i, j), outer_horizontal, pool, 0);
    let far = half(parts0, parts1, (i + 1, j + 1), (n - 1, m - 1), outer_horizontal, pool, 1 + i + j);
    assert(leaves(near) == parts0.subrange(0, i + 1) + parts1.subrange(0, j + 1));
    assert(leaves(far) == parts0.subrange(i + 1, n) + parts1.subrange(j + 1, m));
    assert(i as usize as int == i && j as usize as int == j);
}

/// `a` and `b` group the same nodes under the same splits, each laid out the same way, whatever
/// fractions they carry.
pub open spec fn same_grouping(a: Regroup, b: Regroup) -> bool
    decreases a,
{
    match (a, b) {
        (Regroup::Keep(x), Regroup::Keep(y)) => x == y,
        (
            Regroup::Split { id: ia, horizontal: ha, first: fa, second: sa, .. },
            Regroup::Split { id: ib, horizontal: hb, first: fb, second: sb, .. },
        ) => ia == ib && ha == hb && same_grouping(*fa, *fb) && same_grouping(*sa, *sb),
        _ => false,
    }
}

/// Pressing the toggle of a two-by-two cross twice brings its grouping back. The split `outer`
/// (laid out `horizontal`) between the bands `p0 | p1` (cut by `d0`) and `q0 | q1` (cut by `e0`)
/// is transposed into halves `p0 | q0` (cut by `d0`) and `p1 | q1` (cut by `e0`); transposing
/// those at their own crossing gives back `outer` between the bands it started with.
pub proof fn lemma_a_two_by_two_cross_transposes_back(
    outer: NodeId,
    horizontal: bool,
    p0: NodeId,
    p1: NodeId,
    d0: NodeId,
    q0: NodeId,
    q1: NodeId,
    e0: NodeId,
)
    ensures
        same_grouping(
            transposed(outer, horizontal, seq![p0, p1], seq![d0], seq![q0, q1], seq![e0], 0, 0),
            Regroup::Split {
                id: outer,
                horizontal: !horizontal,
                fraction: Fraction::Stack,
                first: Box::new(Regroup::Split {
                    id: d0,
                    horizontal,
                    fraction: Fraction::Stack,
                    first: Box::new(Regroup::Keep(p0)),
                    second: Box::new(Regroup::Keep(q0)),
                }),
                second: Box::new(Regroup::Split {
                    id: e0,
                    horizontal,
                    fraction: Fraction::Stack,
                    first: Box::new(Regroup::Keep(p1)),
                    second: Box::new(Regroup::Keep(q1)),
                }),
            },
        ),
        same_grouping(
            transposed(outer, !horizontal, seq![p0, q0], seq![d0], seq![p1, q1], seq![e0], 0, 0),
            Regroup::Split {
                id: outer,
                horizontal,
                fraction: Fraction::Stack,
                first: Box::new(Regroup::Split {
                    id: d0,
                    horizontal: !horizontal,
                    fraction: Fraction::Stack,
                    first: Box::new(Regroup::Keep(p0)),
                    second: Box::new(Regroup::Keep(p1)),
                }),
                second: Box::new(Regroup::Split {
                    id: e0,
                    horizontal: !horizontal,
                    fraction: Fraction::Stack,
                    first: Box::new(Regroup::Keep(q0)),
                    second: Box::new(Regroup::Keep(q1)),
                }),
            },
        ),
{
    reveal_with_fuel(same_grouping, 3);
    let pool = seq![d0] + seq![e0];
    assert(pool[0] == d0 && pool[1] == e0);
    assert(seq![p0, p1][0] == p0 && seq![p0, p1][1] == p1);
    assert(seq![q0, q1][0] == q0 && seq![q0, q1][1] == q1);
    assert(seq![p0, q0][0] == p0 && seq![p0, q0][1] == q0);
    assert(seq![p1, q1][0] == p1 && seq![p1, q1][1] == q1);
}

/// [`chain`], built: the parts `from..=to` of band `band` as a right-leaning chain of splits whose
/// identities come from `pool` from `next` on. Also returns where the unused rest of the pool
/// begins.
fn rebuild_chain(
    parts: &Vec<NodeId>,
    band: usize,
    from: usize,
    to: usize,
    horizontal: bool,
    pool: &Vec<NodeId>,
    next: usize,
) -> (out: (Regroup, usize))
    requires
        from <= to < parts@.len(),
        next + (to - from) <= pool@.len(),
    ensures
        out.0 == chain(parts@, band, from as int, to as int, horizontal, pool@, next as int),
        out.1 == next + (to - from),
    decreases to - from,
{
    if from == to {
        (Regroup::Keep(parts[from]), next)
    } else {
        assert(next < pool.len());
        let (rest, after) = rebuild_chain(parts, band, from + 1, to, horizontal, pool, next + 1);
        let split = Regroup::Split {
            id: pool[next],
            horizontal,
            fraction: Fraction::Chain { band, from, to },
            first: Box::new(Regroup::Keep(parts[from])),
            second: Box::new(rest),
        };
        (split, after)
    }
}

/// The split `outer`, laid out `outer_horizontal` between two bands — the first of parts `parts0`
/// divided by the splits `dividers0` in screen order, the second likewise — regrouped around the
/// crossing of divider `i` of the first band and divider `j` of the second, out of exactly those
/// splits.
pub fn transpose_cross_split(
    outer: NodeId,
    outer_horizontal: bool,
    parts0: &Vec<NodeId>,
    dividers0: &Vec<NodeId>,
    parts1: &Vec<NodeId>,
    dividers1: &Vec<NodeId>,
    i: usize,
    j: usize,
) -> (shape: Regroup)
    requires
        parts0@.len() == dividers0@.len() + 1,
        parts1@.len() == dividers1@.len() + 1,
        i < dividers0@.len(),
        j < dividers1@.len(),
        dividers0@.len() + dividers1@.len() <= usize::MAX,
    ensures
        shape == transposed(
            outer,
            outer_horizontal,
            parts0@,
            dividers0@,
            parts1@,
            dividers1@,
            i as int,
            j as int,
        ),
{
    let mut pool: Vec<NodeId> = Vec::new();
    let mut k: usize = 0;
    while k < dividers0.len()
        invariant
            k <= dividers0@.len(),
            pool@ == dividers0@.subrange(0, k as int),
        decreases dividers0@.len() - k,
    {
        pool.push(dividers0[k]);
        k = k + 1;
        assert(pool@ =~= dividers0@.subrange(0, k as int));
    }
    let mut k: usize = 0;
    while k < dividers1.len()
        invariant
            k <= dividers1@.len(),
            pool@ == dividers0@ + dividers1@.subrange(0, k as int),
        decreases dividers1@.len() - k,
    {
        pool.push(dividers1[k]);
        k = k + 1;
        assert(pool@ =~= dividers0@ + dividers1@.subrange(0, k as int));
    }
    assert(pool@ =~= dividers0@ + dividers1@);
    let n = parts0.len();
    let m = parts1.len();
    let inner = !outer_horizontal;
    let near_id = pool[0];
    let (near0, next) = rebuild_chain(parts0, 0, 0, i, inner, &pool, 1);
    let (near1, next) = rebuild_chain(parts1, 1, 0, j, inner, &pool, next);
    let far_id = pool[next];
    let (far0, next) = rebuild_chain(parts0, 0, i + 1, n - 1, inner, &pool, next + 1);
    let (far1, _) = rebuild_chain(parts1, 1, j + 1, m - 1, inner, &pool, next);
    let near = Regroup::Split {
        id: near_id,
        horizontal: outer_horizontal,
        fraction: Fraction::Stack,
        first: Box::new(near0),
        second: Box::new(near1),
    };
    let far = Regroup::Split {
        id: far_id,
        horizontal: outer_horizontal,
        fraction: Fraction::Stack,
        first: Box::new(far0),
        second: Box::new(far1),
    };
    Regroup::Split {
        id: outer,
        horizontal: inner,
        fraction: Fraction::Cross { first: i, second: j },
        first: Box::new(near),
        second: Box::new(far),
    }
}

} // verus!
