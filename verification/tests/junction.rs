use egui_dockyard::junction::{
    crossing_pairs, handle_layer, merge_junctions, DividerComparison, JunctionKind, LayerOrder,
};

#[test]
fn a_cross_is_made_of_one_divider_of_each_band() {
    assert_eq!(JunctionKind::Cross([2, 5]).dividers(), vec![(0, 2), (1, 5)]);
}

#[test]
fn a_tee_is_made_of_one_divider_of_one_band() {
    assert_eq!(JunctionKind::Tee { side: 1, divider: 3 }.dividers(), vec![(1, 3)]);
}

#[test]
fn a_handle_sits_one_tier_above_the_dock_and_never_above_menus() {
    assert_eq!(handle_layer(LayerOrder::Background), LayerOrder::Middle);
    assert_eq!(handle_layer(LayerOrder::Middle), LayerOrder::Foreground);
    assert_eq!(handle_layer(LayerOrder::Foreground), LayerOrder::Foreground);
    assert_eq!(handle_layer(LayerOrder::Tooltip), LayerOrder::Foreground);
}

/// The comparison the drawing code would make of two bands' divider positions.
fn compare(first: &[i32], second: &[i32], tolerance: i32) -> DividerComparison {
    DividerComparison {
        same: first.iter().map(|a| second.iter().map(|b| (a - b).abs() <= tolerance).collect()).collect(),
        before: first.iter().map(|a| second.iter().map(|b| a < b).collect()).collect(),
    }
}

fn shape(kinds: &[JunctionKind]) -> Vec<Vec<(usize, usize)>> {
    kinds.iter().map(|k| k.dividers()).collect()
}

#[test]
fn aligned_dividers_cross_and_the_rest_end_on_the_line_as_tees_in_screen_order() {
    let first = vec![0, 1];
    let second = vec![0, 1, 2];
    let cmp = compare(&[10, 30], &[11, 20, 40], 2);
    let at = merge_junctions(&first, &second, &cmp);
    assert!(matches!(at[0], JunctionKind::Cross([0, 0])));
    assert!(matches!(at[1], JunctionKind::Tee { side: 1, divider: 1 }));
    assert!(matches!(at[2], JunctionKind::Tee { side: 0, divider: 1 }));
    assert!(matches!(at[3], JunctionKind::Tee { side: 1, divider: 2 }));
    assert_eq!(at.len(), 4);
}

#[test]
fn every_divider_of_each_band_is_on_the_line_exactly_once() {
    let first = vec![0, 2, 3];
    let second = vec![1, 4];
    let cmp = compare(&[5, 15, 25], &[15, 30], 0);
    let at = merge_junctions(&first, &second, &cmp);
    let mut of_first = Vec::new();
    let mut of_second = Vec::new();
    for ds in shape(&at) {
        for (band, k) in ds {
            if band == 0 { of_first.push(k) } else { of_second.push(k) }
        }
    }
    assert_eq!(of_first, first);
    assert_eq!(of_second, second);
    assert_eq!(shape(&at), vec![vec![(0, 0)], vec![(0, 2), (1, 1)], vec![(0, 3)], vec![(1, 4)]]);
}

#[test]
fn a_band_without_dividers_gives_only_the_other_bands_tees() {
    let first: Vec<usize> = vec![];
    let second = vec![0, 1];
    let cmp = compare(&[], &[3, 7], 1);
    let at = merge_junctions(&first, &second, &cmp);
    assert_eq!(shape(&at), vec![vec![(1, 0)], vec![(1, 1)]]);
    let none = merge_junctions(&vec![], &vec![], &compare(&[], &[], 1));
    assert!(none.is_empty());
}

#[test]
fn crossings_pair_aligned_dividers_and_stop_with_the_shorter_band() {
    let cmp = compare(&[10, 30, 50], &[11, 20, 49], 1);
    assert_eq!(crossing_pairs(3, 3, &cmp), vec![[0, 0], [2, 2]]);
    let cmp = compare(&[10], &[10, 10], 0);
    // One divider is never given two partners.
    assert_eq!(crossing_pairs(1, 2, &cmp), vec![[0, 0]]);
    assert!(crossing_pairs(0, 2, &compare(&[], &[1, 2], 0)).is_empty());
}

#[test]
fn the_crosses_among_the_junctions_are_the_crossings() {
    let first_at = [5, 15, 25, 40];
    let second_at = [15, 26, 33];
    let cmp = compare(&first_at, &second_at, 1);
    let first = vec![1, 3, 4, 6];
    let second = vec![0, 2, 5];
    let crosses: Vec<[usize; 2]> = merge_junctions(&first, &second, &cmp)
        .into_iter()
        .filter_map(|k| match k {
            JunctionKind::Cross(pair) => Some(pair),
            JunctionKind::Tee { .. } => None,
        })
        .collect();
    let crossings: Vec<[usize; 2]> = crossing_pairs(4, 3, &cmp)
        .into_iter()
        .map(|[a, b]| [first[a], second[b]])
        .collect();
    assert_eq!(crosses, vec![[3, 0], [4, 2]]);
    assert_eq!(crosses, crossings);
}
