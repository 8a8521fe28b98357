//! What the drop overlay decides while a tab is carried: where a drop would put the tab, and
//! whether the overlay keeps its preference for the node under the pointer.
//!
//! The overlay measures in floating point — where the pointer is inside the hovered rectangle,
//! which button it is over, how long ago the preference was last refreshed — and those readings
//! are taken by the drawing code. What the readings *mean* is decided here.

use vstd::prelude::*;

use crate::address::{AllowedSplits, Split, TabInsert, spec_allows};
use crate::drag::{TabDestination, TreeComponent};

verus! {

/// How firmly the overlay holds on to the node it prefers as a drop target.
#[derive(Clone, Copy, Debug, PartialEq, Eq, Hash, Structural)]
pub enum LockState {
    /// Not held.
    Unlocked,
    /// Held, but may be let go.
    SoftLock,
    /// Held, and the hold is refreshed.
    HardLock,
}

/// The hold the icon overlay asks for: a pointer over one of the drop buttons holds hard, one
/// merely inside the hovered node holds softly, and one outside both lets go.
pub fn target_lock_state(hovering_rect: bool, hovering_buttons: bool) -> (target: LockState)
    ensures
        hovering_buttons ==> target == LockState::HardLock,
        !hovering_buttons && hovering_rect ==> target == LockState::SoftLock,
        !hovering_buttons && !hovering_rect ==> target == LockState::Unlocked,
{
    if hovering_buttons {
        LockState::HardLock
    } else if hovering_rect {
        LockState::SoftLock
    } else {
        LockState::Unlocked
    }
}

/// The overlay's hold after a frame that asked for `target`, given the time it was last
/// refreshed (`locked`, `None` if not held) and the time now.
///
/// A hard hold refreshes the time; asking to let go lets go unless `window_hold` — the hovered
/// node is on a floating window and its hold has not yet run out — keeps it; a frame that finds
/// nothing held starts a hold at `now` unless it asks to let go.
pub fn update_lock<T: Copy>(locked: Option<T>, target: LockState, now: T, window_hold: bool) -> (lock:
    Option<T>)
    ensures
        match locked {
            Some(t) => if target == LockState::Unlocked && !window_hold {
                lock is None
            } else if target == LockState::HardLock {
                lock == Some(now)
            } else {
                lock == Some(t)
            },
            None => if target == LockState::Unlocked {
                lock is None
            } else {
                lock == Some(now)
            },
        },
{
    match locked {
        Some(lock_time) => {
            let refreshed = if target == LockState::HardLock {
                now
            } else {
                lock_time
            };
            if target == LockState::Unlocked && !window_hold {
                None
            } else {
                Some(refreshed)
            }
        },
        None => {
            if target != LockState::Unlocked {
                Some(now)
            } else {
                None
            }
        },
    }
}

/// Which part of the hovered node the pointer is in, as the classic overlay sees it.
#[derive(Clone, Copy, Debug, PartialEq, Eq, Hash, Structural)]
pub enum DropZone {
    /// The middle of the node.
    Center,
    /// The ring around the middle in which a drop opens a window.
    WindowRing,
    /// Towards one edge, where a drop splits that side off (an allowed side only).
    Side(Split),
    /// Towards an edge, but no split is allowed there.
    NoSide,
}

/// The sign of one coordinate of the pointer, measured from the centre of the hovered node.
#[derive(Clone, Copy, Debug, PartialEq, Eq, Hash, Structural)]
pub enum Sign {
    Negative,
    Zero,
    Positive,
}

/// Where the pointer is inside the hovered node, as the classic overlay reads it: whether it is in
/// the central drop area, whether it is in the window ring around it, the signs of its offset from
/// the centre (`x` rightwards, `y` downwards), and which side of each diagonal it is on —
/// `rising` when `x - y > 0`, `falling` when `-x - y > 0`.
#[derive(Clone, Copy, Debug, PartialEq, Eq, Hash, Structural)]
pub struct PointerReading {
    pub in_center: bool,
    pub in_window_ring: bool,
    pub x: Sign,
    pub y: Sign,
    pub rising: bool,
    pub falling: bool,
}

/// The zone the reading is in, under `allowed`. Outside the centre and the ring the pointer's
/// offset is first kept to the axes that allow a split — both, only the horizontal one, only the
/// vertical one, or none — and the diagonals of what is kept pick the side; an offset that keeps
/// nothing is no side at all.
pub open spec fn spec_drop_zone(reading: PointerReading, allowed: AllowedSplits) -> DropZone {
    if reading.in_center {
        DropZone::Center
    } else if reading.in_window_ring {
        DropZone::WindowRing
    } else {
        match allowed {
            AllowedSplits::All => if reading.x == Sign::Zero && reading.y == Sign::Zero {
                DropZone::NoSide
            } else {
                match (reading.rising, reading.falling) {
                    (true, true) => DropZone::Side(Split::Above),
                    (false, true) => DropZone::Side(Split::Left),
                    (true, false) => DropZone::Side(Split::Right),
                    (false, false) => DropZone::Side(Split::Below),
                }
            },
            AllowedSplits::LeftRightOnly => match reading.x {
                Sign::Positive => DropZone::Side(Split::Right),
                Sign::Negative => DropZone::Side(Split::Left),
                Sign::Zero => DropZone::NoSide,
            },
            AllowedSplits::TopBottomOnly => match reading.y {
                Sign::Positive => DropZone::Side(Split::Below),
                Sign::Negative => DropZone::Side(Split::Above),
                Sign::Zero => DropZone::NoSide,
            },
            AllowedSplits::NoSplits => DropZone::NoSide,
        }
    }
}

/// The zone the pointer is in. A side is only ever one that `allowed` admits.
pub fn drop_zone(reading: PointerReading, allowed: AllowedSplits) -> (zone: DropZone)
    ensures
        zone == spec_drop_zone(reading, allowed),
        zone matches DropZone::Side(s) ==> spec_allows(allowed, s),
{
    if reading.in_center {
        DropZone::Center
    } else if reading.in_window_ring {
        DropZone::WindowRing
    } else {
        match allowed {
            AllowedSplits::All => if reading.x == Sign::Zero && reading.y == Sign::Zero {
                DropZone::NoSide
            } else {
                match (reading.rising, reading.falling) {
                    (true, true) => DropZone::Side(Split::Above),
                    (false, true) => DropZone::Side(Split::Left),
                    (true, false) => DropZone::Side(Split::Right),
                    (false, false) => DropZone::Side(Split::Below),
                }
            },
            AllowedSplits::LeftRightOnly => match reading.x {
                Sign::Positive => DropZone::Side(Split::Right),
                Sign::Negative => DropZone::Side(Split::Left),
                Sign::Zero => DropZone::NoSide,
            },
            AllowedSplits::TopBottomOnly => match reading.y {
                Sign::Positive => DropZone::Side(Split::Below),
                Sign::Negative => DropZone::Side(Split::Above),
                Sign::Zero => DropZone::NoSide,
            },
            AllowedSplits::NoSplits => DropZone::NoSide,
        }
    }
}

/// The sign of `v`.
pub open spec fn sign_of(v: int) -> Sign {
    if v < 0 {
        Sign::Negative
    } else if v == 0 {
        Sign::Zero
    } else {
        Sign::Positive
    }
}

/// The reading of a pointer outside the centre and the window ring, at offset `(dx, dy)` from the
/// centre of the hovered node (`dx` rightwards, `dy` downwards).
pub open spec fn reading_at(dx: int, dy: int) -> PointerReading {
    PointerReading {
        in_center: false,
        in_window_ring: false,
        x: sign_of(dx),
        y: sign_of(dy),
        rising: dx - dy > 0,
        falling: -dx - dy > 0,
    }
}

/// Outside the centre and the window ring, the side a drop splits off lies towards the pointer,
/// whatever splits are allowed: left only when the pointer is left of the centre, right only when
/// right of it, above only when above it, below only when below it. Where every split is allowed,
/// a pointer off the centre always picks a side, and the one along which it is furthest out (on
/// the axes themselves: left, right, above or below exactly as it lies).
pub proof fn lemma_the_side_lies_towards_the_pointer(dx: int, dy: int, allowed: AllowedSplits)
    ensures
        spec_drop_zone(reading_at(dx, dy), allowed) == DropZone::Side(Split::Left) ==> dx < 0,
        spec_drop_zone(reading_at(dx, dy), allowed) == DropZone::Side(Split::Right) ==> dx > 0,
        spec_drop_zone(reading_at(dx, dy), allowed) == DropZone::Side(Split::Above) ==> dy < 0,
        spec_drop_zone(reading_at(dx, dy), allowed) == DropZone::Side(Split::Below) ==> dy > 0,
        allowed == AllowedSplits::All && !(dx == 0 && dy == 0) ==> {
            let zone = spec_drop_zone(reading_at(dx, dy), allowed);
            &&& zone is Side
            &&& (zone == DropZone::Side(Split::Left) || zone == DropZone::Side(Split::Right)) ==> -dx
                <= dy <= dx || dx <= dy <= -dx
            &&& (zone == DropZone::Side(Split::Above) || zone == DropZone::Side(Split::Below)) ==> -dy
                <= dx <= dy || dy <= dx <= -dy
            &&& (dy == 0 && dx < 0 ==> zone == DropZone::Side(Split::Left))
            &&& (dy == 0 && dx > 0 ==> zone == DropZone::Side(Split::Right))
            &&& (dx == 0 && dy < 0 ==> zone == DropZone::Side(Split::Above))
            &&& (dx == 0 && dy > 0 ==> zone == DropZone::Side(Split::Below))
        },
        allowed == AllowedSplits::LeftRightOnly ==> (spec_drop_zone(reading_at(dx, dy), allowed)
            == DropZone::Side(Split::Left) <==> dx < 0) && (spec_drop_zone(reading_at(dx, dy), allowed)
            == DropZone::Side(Split::Right) <==> dx > 0),
        allowed == AllowedSplits::TopBottomOnly ==> (spec_drop_zone(reading_at(dx, dy), allowed)
            == DropZone::Side(Split::Above) <==> dy < 0) && (spec_drop_zone(reading_at(dx, dy), allowed)
            == DropZone::Side(Split::Below) <==> dy > 0),
{
}

/// What a drop into `zone` does to the hovered node: append in the middle, split off towards a
/// side, and in the window ring (or towards a side no split is allowed on) open a window if
/// windows are allowed — `None` — or else append.
pub fn traditional_insertion(zone: DropZone, windows_allowed: bool) -> (insert: Option<TabInsert>)
    ensures
        insert == match zone {
            DropZone::Center => Some(TabInsert::Append),
            DropZone::Side(split) => Some(TabInsert::Split(split)),
            _ => if windows_allowed {
                None
            } else {
                Some(TabInsert::Append)
            },
        },
{
    match zone {
        DropZone::Center => Some(TabInsert::Append),
        DropZone::Side(split) => Some(TabInsert::Split(split)),
        DropZone::WindowRing | DropZone::NoSide => if windows_allowed {
            None
        } else {
            Some(TabInsert::Append)
        },
    }
}

/// The destination an insertion (or, with none, the window `window`) means over `dst`: a
/// surface takes the tab whatever the insertion, a node takes it the way the insertion says, and
/// a single tab is no target for this overlay.
pub fn drop_destination(
    insertion: Option<TabInsert>,
    dst: TreeComponent,
    window: Option<TabDestination>,
) -> (d: Option<TabDestination>)
    ensures
        d == match insertion {
            None => window,
            Some(tab) => match dst {
                TreeComponent::Surface(surface) => Some(TabDestination::EmptySurface(surface)),
                TreeComponent::Node(path) => Some(TabDestination::Node(path, tab)),
                TreeComponent::Tab(_) => None,
            },
        },
{
    match insertion {
        None => window,
        Some(tab) => match dst {
            TreeComponent::Surface(surface) => Some(TabDestination::EmptySurface(surface)),
            TreeComponent::Node(path) => Some(TabDestination::Node(path, tab)),
            TreeComponent::Tab(_) => None,
        },
    }
}

/// Where the classic overlay drops the carried tab over `dst`.
///
/// `window` is the window a drop would open, present exactly when windows are allowed. With
/// windows forbidden, nothing on a floating window is a target at all. Over a tab title the drop
/// goes where that title is; otherwise the zone of the pointer's `reading` decides, and a split
/// is only ever one that `allowed` admits.
pub fn traditional_drop(
    dst: TreeComponent,
    over_tab_title: bool,
    reading: PointerReading,
    allowed: AllowedSplits,
    window: Option<egui::Rect>,
) -> (d: Option<TabDestination>)
    ensures
        d matches Some(TabDestination::Node(_, TabInsert::Split(s))) ==> spec_allows(allowed, s),
        d matches Some(TabDestination::Window(_)) ==> window is Some,
        d == if window is None && dst.spec_node_address().0.0 != 0 {
            None
        } else if over_tab_title {
            Some(
                match dst {
                    TreeComponent::Surface(surface) => TabDestination::EmptySurface(surface),
                    TreeComponent::Node(p) => TabDestination::Node(p, TabInsert::Append),
                    TreeComponent::Tab(t) => TabDestination::Node(
                        t.spec_node_path(),
                        TabInsert::Insert(t.tab),
                    ),
                },
            )
        } else {
            match match spec_drop_zone(reading, allowed) {
                DropZone::Center => Some(TabInsert::Append),
                DropZone::Side(split) => Some(TabInsert::Split(split)),
                _ => if window is Some {
                    None
                } else {
                    Some(TabInsert::Append)
                },
            } {
                None => match window {
                    Some(r) => Some(TabDestination::Window(r)),
                    None => None,
                },
                Some(tab) => match dst {
                    TreeComponent::Surface(surface) => Some(TabDestination::EmptySurface(surface)),
                    TreeComponent::Node(path) => Some(TabDestination::Node(path, tab)),
                    TreeComponent::Tab(_) => None,
                },
            }
        },
{
    let windows_allowed = window.is_some();
    if !windows_allowed && !dst.surface_address().is_main() {
        return None;
    }
    if over_tab_title {
        return Some(dst.as_tab_destination());
    }
    let default_value = match window {
        Some(r) => Some(TabDestination::Window(r)),
        None => None,
    };
    let zone = drop_zone(reading, allowed);
    drop_destination(traditional_insertion(zone, windows_allowed), dst, default_value)
}

/// Which drop buttons of the icon overlay the pointer is over.
#[derive(Clone, Copy, Debug, PartialEq, Eq, Hash, Structural)]
pub struct ButtonHits {
    pub center: bool,
    pub below: bool,
    pub right: bool,
    pub above: bool,
    pub left: bool,
}

/// The split the button of `side` stands for is hit and allowed.
pub open spec fn split_hit(hits: ButtonHits, allowed: AllowedSplits, split: Split) -> bool {
    spec_allows(allowed, split) && match split {
        Split::Below => hits.below,
        Split::Right => hits.right,
        Split::Above => hits.above,
        Split::Left => hits.left,
    }
}

/// Where the icon overlay drops the carried tab over `dst`.
///
/// A window, if windows are allowed, unless a button says otherwise; the centre button appends
/// to a node or fills an empty surface; an allowed split button of a node splits it, the buttons
/// being asked below, right, above, left, and the last one hit having the final say.
pub fn icon_drop(
    dst: TreeComponent,
    window: Option<egui::Rect>,
    hits: ButtonHits,
    allowed: AllowedSplits,
) -> (d: Option<TabDestination>)
    ensures
        d == {
            let base = match window {
                Some(r) => Some(TabDestination::Window(r)),
                None => None,
            };
            let centred = if hits.center {
                match dst {
                    TreeComponent::Node(path) => Some(TabDestination::Node(path, TabInsert::Append)),
                    TreeComponent::Surface(surface) => Some(TabDestination::EmptySurface(surface)),
                    TreeComponent::Tab(_) => base,
                }
            } else {
                base
            };
            match dst {
                TreeComponent::Node(path) => if split_hit(hits, allowed, Split::Left) {
                    Some(TabDestination::Node(path, TabInsert::Split(Split::Left)))
                } else if split_hit(hits, allowed, Split::Above) {
                    Some(TabDestination::Node(path, TabInsert::Split(Split::Above)))
                } else if split_hit(hits, allowed, Split::Right) {
                    Some(TabDestination::Node(path, TabInsert::Split(Split::Right)))
                } else if split_hit(hits, allowed, Split::Below) {
                    Some(TabDestination::Node(path, TabInsert::Split(Split::Below)))
                } else {
                    centred
                },
                _ => centred,
            }
        },
{
    let mut destination = match window {
        Some(r) => Some(TabDestination::Window(r)),
        None => None,
    };
    if hits.center {
        match dst {
            TreeComponent::Node(path) => {
                destination = Some(TabDestination::Node(path, TabInsert::Append));
            },
            TreeComponent::Surface(surface) => {
                destination = Some(TabDestination::EmptySurface(surface));
            },
            TreeComponent::Tab(_) => {},
        }
    }
    let splits = [
        (Split::Below, hits.below),
        (Split::Right, hits.right),
        (Split::Above, hits.above),
        (Split::Left, hits.left),
    ];
    let mut k: usize = 0;
    while k < 4
        invariant
            k <= 4,
            splits@ == seq![
                (Split::Below, hits.below),
                (Split::Right, hits.right),
                (Split::Above, hits.above),
                (Split::Left, hits.left),
            ],
            destination == {
                let centred = if hits.center {
                    match dst {
                        TreeComponent::Node(path) => Some(TabDestination::Node(path, TabInsert::Append)),
                        TreeComponent::Surface(surface) => Some(TabDestination::EmptySurface(surface)),
                        TreeComponent::Tab(_) => match window {
                            Some(r) => Some(TabDestination::Window(r)),
                            None => None,
                        },
                    }
                } else {
                    match window {
                        Some(r) => Some(TabDestination::Window(r)),
                        None => None,
                    }
                };
                match dst {
                    TreeComponent::Node(path) => if k >= 4 && split_hit(hits, allowed, Split::Left) {
                        Some(TabDestination::Node(path, TabInsert::Split(Split::Left)))
                    } else if k >= 3 && split_hit(hits, allowed, Split::Above) {
                        Some(TabDestination::Node(path, TabInsert::Split(Split::Above)))
                    } else if k >= 2 && split_hit(hits, allowed, Split::Right) {
                        Some(TabDestination::Node(path, TabInsert::Split(Split::Right)))
                    } else if k >= 1 && split_hit(hits, allowed, Split::Below) {
                        Some(TabDestination::Node(path, TabInsert::Split(Split::Below)))
                    } else {
                        centred
                    },
                    _ => centred,
                }
            },
        decreases 4 - k,
    {
        let (split, hit) = splits[k];
        if hit && allowed.allows(split) {
            match dst {
                TreeComponent::Node(path) => {
                    destination = Some(TabDestination::Node(path, TabInsert::Split(split)));
                },
                _ => {},
            }
        }
        k = k + 1;
    }
    destination
}

} // verus!
