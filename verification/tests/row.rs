use egui_dockyard::row::{row_dividers, row_runs, trading_pair, Run};

#[test]
fn with_no_strips_a_gap_trades_between_its_own_neighbours() {
    assert_eq!(trading_pair(0, 2, None), Some((0, 1)));
    assert_eq!(trading_pair(1, 3, None), Some((1, 2)));
}

#[test]
fn a_row_has_no_gap_past_its_last_child() {
    assert_eq!(trading_pair(1, 2, None), None);
    assert_eq!(trading_pair(0, 1, None), None);
    assert_eq!(trading_pair(0, 0, Some(&vec![])), None);
}

#[test]
fn a_strip_between_open_columns_hands_its_edges_to_both_sides() {
    // Open, strip, open: both edges of the strip trade between the two open columns.
    let open = vec![true, false, true];
    assert_eq!(trading_pair(0, 3, Some(&open)), Some((0, 2)));
    assert_eq!(trading_pair(1, 3, Some(&open)), Some((0, 2)));
}

#[test]
fn a_strip_against_the_end_of_the_row_has_nobody_to_trade_with() {
    let open = vec![false, true, true];
    assert_eq!(trading_pair(0, 3, Some(&open)), None);
    assert_eq!(trading_pair(1, 3, Some(&open)), Some((1, 2)));
    let open = vec![true, true, false];
    assert_eq!(trading_pair(1, 3, Some(&open)), None);
}

#[test]
fn a_leading_run_a_middle_and_a_trailing_run_are_told_apart() {
    let open = vec![false, true, true, false];
    assert_eq!(row_runs(&open), vec![Run::Leading, Run::Middle, Run::Middle, Run::Trailing]);
    assert_eq!(row_dividers(&open), vec![false, true, false]);
}

#[test]
fn a_fixed_child_among_open_ones_has_a_line_at_both_its_edges() {
    let open = vec![true, false, true];
    assert_eq!(row_runs(&open), vec![Run::Middle; 3]);
    assert_eq!(row_dividers(&open), vec![true, true]);
    assert_eq!(trading_pair(0, 3, Some(&open)), Some((0, 2)));
    assert_eq!(trading_pair(1, 3, Some(&open)), Some((0, 2)));
}

#[test]
fn a_fixed_child_at_the_end_of_the_row_has_no_line_beside_it() {
    let leading = vec![false, true, true];
    assert_eq!(row_dividers(&leading), vec![false, true]);
    assert_eq!(trading_pair(0, 3, Some(&leading)), None);
    let trailing = vec![true, true, false];
    assert_eq!(row_dividers(&trailing), vec![true, false]);
    assert_eq!(row_runs(&trailing), vec![Run::Middle, Run::Middle, Run::Trailing]);
    assert_eq!(trading_pair(1, 3, Some(&trailing)), None);
}

#[test]
fn with_nothing_open_the_whole_row_leads_and_has_no_line() {
    let open = vec![false; 3];
    assert_eq!(row_runs(&open), vec![Run::Leading; 3]);
    assert_eq!(row_dividers(&open), vec![false, false]);
}

#[test]
fn strips_at_both_ends_leave_the_open_child_between_without_lines() {
    let open = vec![false, true, false];
    assert_eq!(row_runs(&open), vec![Run::Leading, Run::Middle, Run::Trailing]);
    assert_eq!(row_dividers(&open), vec![false, false]);
}

#[test]
fn a_row_of_open_children_has_a_line_in_every_gap() {
    let open = vec![true; 4];
    assert_eq!(row_dividers(&open), vec![true; 3]);
    assert_eq!(row_runs(&open), vec![Run::Middle; 4]);
    assert!(row_dividers(&vec![true]).is_empty());
    assert!(row_runs(&vec![]).is_empty());
}
