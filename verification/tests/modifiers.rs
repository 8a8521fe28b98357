use egui_dockyard::modifiers::{KeyModifiers, SepBehavior};

/// Every cell of the divider row of the table, including the one that is a decision rather
/// than a reading: both keys down is `Pair`.
#[test]
fn the_keys_map_to_the_modes_the_table_promises() {
    assert_eq!(SepBehavior::from_modifiers(KeyModifiers::none()), SepBehavior::Chain);
    assert_eq!(SepBehavior::from_modifiers(KeyModifiers::shift()), SepBehavior::Pair);
    assert_eq!(
        SepBehavior::from_modifiers(KeyModifiers::command()),
        SepBehavior::Proportional
    );
    assert_eq!(
        SepBehavior::from_modifiers(KeyModifiers::command().union(KeyModifiers::shift())),
        SepBehavior::Pair,
        "Shift is the narrower answer and takes precedence"
    );
}

/// A key nobody asked about does not change the answer: Alt resting under a palm leaves a
/// plain drag a chain and a Shift drag a pair.
#[test]
fn an_unrelated_key_does_not_change_the_mode() {
    assert_eq!(SepBehavior::from_modifiers(KeyModifiers::alt()), SepBehavior::Chain);
    assert_eq!(
        SepBehavior::from_modifiers(KeyModifiers::alt().union(KeyModifiers::shift())),
        SepBehavior::Pair
    );
}

#[test]
fn raw_control_without_the_command_flag_is_a_chain() {
    let ctrl_only = KeyModifiers { alt: false, ctrl: true, shift: false, mac_cmd: false, command: false };
    assert_eq!(SepBehavior::from_modifiers(ctrl_only), SepBehavior::Chain);
}
