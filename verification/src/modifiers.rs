//! What a held key means to a divider drag: the one mapping from modifier keys to a resize
//! policy.

use vstd::prelude::*;

verus! {

/// The modifier keys held during a gesture.
#[derive(Clone, Copy, Debug, PartialEq, Eq, Hash, Structural)]
pub struct KeyModifiers {
    /// Either of the alt keys (option on a Mac).
    pub alt: bool,
    /// Either of the control keys.
    pub ctrl: bool,
    /// Either of the shift keys.
    pub shift: bool,
    /// The Mac command key.
    pub mac_cmd: bool,
    /// The platform's command key: control elsewhere, command on a Mac.
    pub command: bool,
}

impl KeyModifiers {
    /// No key held.
    pub fn none() -> (m: KeyModifiers)
        ensures
            !m.alt && !m.ctrl && !m.shift && !m.mac_cmd && !m.command,
    {
        KeyModifiers { alt: false, ctrl: false, shift: false, mac_cmd: false, command: false }
    }

    /// Only alt held.
    pub fn alt() -> (m: KeyModifiers)
        ensures
            m.alt && !m.ctrl && !m.shift && !m.mac_cmd && !m.command,
    {
        KeyModifiers { alt: true, ctrl: false, shift: false, mac_cmd: false, command: false }
    }

    /// Only shift held.
    pub fn shift() -> (m: KeyModifiers)
        ensures
            !m.alt && !m.ctrl && m.shift && !m.mac_cmd && !m.command,
    {
        KeyModifiers { alt: false, ctrl: false, shift: true, mac_cmd: false, command: false }
    }

    /// Only the platform's command key held.
    pub fn command() -> (m: KeyModifiers)
        ensures
            !m.alt && !m.ctrl && !m.shift && !m.mac_cmd && m.command,
    {
        KeyModifiers { alt: false, ctrl: false, shift: false, mac_cmd: false, command: true }
    }

    /// Every key held in either `self` or `other`.
    pub fn union(self, other: KeyModifiers) -> (m: KeyModifiers)
        ensures
            m.alt == (self.alt || other.alt),
            m.ctrl == (self.ctrl || other.ctrl),
            m.shift == (self.shift || other.shift),
            m.mac_cmd == (self.mac_cmd || other.mac_cmd),
            m.command == (self.command || other.command),
    {
        KeyModifiers {
            alt: self.alt || other.alt,
            ctrl: self.ctrl || other.ctrl,
            shift: self.shift || other.shift,
            mac_cmd: self.mac_cmd || other.mac_cmd,
            command: self.command || other.command,
        }
    }
}

/// How a divider drag shares the movement among the panels of a row.
#[derive(Clone, Copy, Debug, PartialEq, Eq, Hash, Structural)]
pub enum SepBehavior {
    /// The panels push each other along.
    Chain,
    /// Only the two panels beside the gap change.
    Pair,
    /// Every panel of the row pays, by weight.
    Proportional,
}

/// The behaviour a divider drag has while `modifiers` are held.
pub open spec fn spec_from_modifiers(modifiers: KeyModifiers) -> SepBehavior {
    if modifiers.shift {
        SepBehavior::Pair
    } else if modifiers.command {
        SepBehavior::Proportional
    } else {
        SepBehavior::Chain
    }
}

/// Only shift and the command key decide the behaviour: whatever else is held (alt, or the raw
/// control and Mac command flags) leaves it as it is.
pub proof fn lemma_only_shift_and_command_matter(a: KeyModifiers, b: KeyModifiers)
    requires
        a.shift == b.shift,
        a.command == b.command,
    ensures
        spec_from_modifiers(a) == spec_from_modifiers(b),
{
}

/// Shift wins: with shift held, adding any other key still gives the pair drag.
pub proof fn lemma_shift_takes_precedence(m: KeyModifiers)
    requires
        m.shift,
    ensures
        spec_from_modifiers(m) == SepBehavior::Pair,
{
}

impl SepBehavior {
    /// The behaviour a divider drag has while `modifiers` are held.
    ///
    /// | Held | Mode |
    /// |---|---|
    /// | nothing | `Chain` |
    /// | Shift | `Pair` |
    /// | Ctrl / command | `Proportional` |
    /// | both | `Pair` |
    ///
    /// Shift wins over the command key, because it is the narrowest of the three answers; any
    /// other key (alt) changes nothing.
    pub fn from_modifiers(modifiers: KeyModifiers) -> (b: SepBehavior)
        ensures
            b == spec_from_modifiers(modifiers),
    {
        if modifiers.shift {
            SepBehavior::Pair
        } else if modifiers.command {
            SepBehavior::Proportional
        } else {
            SepBehavior::Chain
        }
    }
}

} // verus!
