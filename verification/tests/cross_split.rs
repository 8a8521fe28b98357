use egui_dockyard::cross_split::{transpose_cross_split, Fraction, Regroup};
use egui_dockyard::NodeId;

fn leaves(r: &Regroup) -> Vec<usize> {
    match r {
        Regroup::Keep(n) => vec![n.0],
        Regroup::Split { first, second, .. } => {
            let mut v = leaves(first);
            v.extend(leaves(second));
            v
        }
    }
}

fn split_ids(r: &Regroup) -> Vec<usize> {
    match r {
        Regroup::Keep(_) => vec![],
        Regroup::Split { id, first, second, .. } => {
            let mut v = vec![id.0];
            v.extend(split_ids(first));
            v.extend(split_ids(second));
            v
        }
    }
}

fn ids(ns: &[usize]) -> Vec<NodeId> {
    ns.iter().map(|&n| NodeId(n)).collect()
}

#[test]
fn a_two_by_two_cross_keeps_the_old_children_as_the_two_halves() {
    // Outer split 0 (side by side) between band [1 | 2] split by 3 and band [4 | 5] split by 6.
    let shape = transpose_cross_split(
        NodeId(0),
        true,
        &ids(&[1, 2]),
        &ids(&[3]),
        &ids(&[4, 5]),
        &ids(&[6]),
        0,
        0,
    );
    match &shape {
        Regroup::Split { id, horizontal, fraction, first, second } => {
            assert_eq!(*id, NodeId(0));
            assert!(!*horizontal);
            assert_eq!(*fraction, Fraction::Cross { first: 0, second: 0 });
            match (&**first, &**second) {
                (
                    Regroup::Split { id: near, horizontal: h1, fraction: f1, .. },
                    Regroup::Split { id: far, horizontal: h2, fraction: f2, .. },
                ) => {
                    assert_eq!((*near, *far), (NodeId(3), NodeId(6)));
                    assert!(*h1 && *h2);
                    assert_eq!((*f1, *f2), (Fraction::Stack, Fraction::Stack));
                }
                _ => panic!("both halves are splits"),
            }
        }
        Regroup::Keep(_) => panic!("a transposition is a split"),
    }
    assert_eq!(leaves(&shape), vec![1, 4, 2, 5]);
    assert_eq!(split_ids(&shape), vec![0, 3, 6]);
}

#[test]
fn transposing_a_two_over_three_cross_reuses_every_split_once() {
    let shape = transpose_cross_split(
        NodeId(0),
        false,
        &ids(&[10, 11]),
        &ids(&[20]),
        &ids(&[12, 13, 14]),
        &ids(&[21, 22]),
        0,
        0,
    );
    assert_eq!(leaves(&shape), vec![10, 12, 11, 13, 14]);
    assert_eq!(split_ids(&shape), vec![0, 20, 21, 22]);
    if let Regroup::Split { second, .. } = &shape {
        if let Regroup::Split { second: far_chain, .. } = &**second {
            match &**far_chain {
                Regroup::Split { id, horizontal, fraction, .. } => {
                    assert_eq!(*id, NodeId(22));
                    assert!(*horizontal);
                    assert_eq!(*fraction, Fraction::Chain { band: 1, from: 1, to: 2 });
                }
                Regroup::Keep(_) => panic!("two parts make a chain of one split"),
            }
        }
    }
}

#[test]
fn a_crossing_further_along_splits_each_band_there() {
    let shape = transpose_cross_split(
        NodeId(7),
        true,
        &ids(&[1, 2, 3]),
        &ids(&[4, 5]),
        &ids(&[6, 8, 9]),
        &ids(&[10, 11]),
        1,
        1,
    );
    assert_eq!(leaves(&shape), vec![1, 2, 6, 8, 3, 9]);
    assert_eq!(split_ids(&shape), vec![7, 4, 5, 10, 11]);
}

fn grouping(r: &Regroup) -> String {
    match r {
        Regroup::Keep(n) => format!("{}", n.0),
        Regroup::Split { id, horizontal, first, second, .. } => {
            format!("{}{}({} {})", if *horizontal { "H" } else { "V" }, id.0, grouping(first), grouping(second))
        }
    }
}

#[test]
fn pressing_the_toggle_of_a_two_by_two_cross_twice_brings_the_grouping_back() {
    // H0( V3(1 2) V6(4 5) ): two side-by-side stacks.
    let once = transpose_cross_split(NodeId(0), true, &ids(&[1, 2]), &ids(&[3]), &ids(&[4, 5]), &ids(&[6]), 0, 0);
    assert_eq!(grouping(&once), "V0(H3(1 4) H6(2 5))");
    // Its halves are the new bands: 1 | 4 cut by 3, and 2 | 5 cut by 6.
    let twice = transpose_cross_split(NodeId(0), false, &ids(&[1, 4]), &ids(&[3]), &ids(&[2, 5]), &ids(&[6]), 0, 0);
    assert_eq!(grouping(&twice), "H0(V3(1 2) V6(4 5))");
}
