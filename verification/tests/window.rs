use egui_dockyard::window::{collapse_action, minimize_action, CollapseAction, MinimizeAction};

#[test]
fn minimizing_an_already_minimized_window_does_nothing() {
    assert_eq!(minimize_action(true, true, false), MinimizeAction::Unchanged);
    assert_eq!(minimize_action(false, false, true), MinimizeAction::Unchanged);
}

#[test]
fn each_way_of_folding_a_window_away_remembers_what_it_needs() {
    assert_eq!(minimize_action(false, true, true), MinimizeAction::Toggle);
    assert_eq!(minimize_action(true, false, false), MinimizeAction::ToggleAsNew);
    assert_eq!(minimize_action(false, true, false), MinimizeAction::RememberHeightThenToggle);
}

#[test]
fn collapsing_the_whole_window_remembers_its_height() {
    assert_eq!(collapse_action(false, false), CollapseAction::MarkNew);
    assert_eq!(collapse_action(true, true), CollapseAction::RememberHeight);
    assert_eq!(collapse_action(true, false), CollapseAction::Nothing);
}
