use egui_dockyard::drag::{TabDestination, TreeComponent};
use egui_dockyard::overlay::{
    drop_destination, drop_zone, icon_drop, target_lock_state, traditional_drop,
    traditional_insertion, update_lock, ButtonHits, DropZone, LockState, PointerReading, Sign,
};
use egui_dockyard::{AllowedSplits, NodeId, NodePath, Split, SurfaceIndex, TabIndex, TabInsert, TabPath};

fn rect() -> egui::Rect {
    egui::Rect::from_min_size(egui::Pos2::new(5.0, 6.0), egui::Vec2::new(100.0, 80.0))
}

fn node() -> NodePath {
    NodePath::new(SurfaceIndex::main(), NodeId(1))
}

fn centre() -> PointerReading {
    PointerReading { in_center: true, in_window_ring: false, x: Sign::Zero, y: Sign::Zero, rising: false, falling: false }
}

fn ring() -> PointerReading {
    PointerReading { in_window_ring: true, in_center: false, ..centre() }
}

/// Towards the top-left corner, a little more up than left: above both diagonals' split.
fn up_left() -> PointerReading {
    PointerReading {
        in_center: false,
        in_window_ring: false,
        x: Sign::Negative,
        y: Sign::Negative,
        rising: true,
        falling: true,
    }
}

fn no_hits() -> ButtonHits {
    ButtonHits { center: false, below: false, right: false, above: false, left: false }
}

#[test]
fn the_lock_follows_the_pointer() {
    assert_eq!(target_lock_state(false, false), LockState::Unlocked);
    assert_eq!(target_lock_state(true, false), LockState::SoftLock);
    assert_eq!(target_lock_state(false, true), LockState::HardLock);
    assert_eq!(target_lock_state(true, true), LockState::HardLock);
}

#[test]
fn a_hard_lock_refreshes_and_letting_go_lets_go() {
    assert_eq!(update_lock(Some(1.0), LockState::HardLock, 5.0, false), Some(5.0));
    assert_eq!(update_lock(Some(1.0), LockState::SoftLock, 5.0, false), Some(1.0));
    assert_eq!(update_lock(Some(1.0), LockState::Unlocked, 5.0, false), None);
    assert_eq!(update_lock(Some(1.0), LockState::Unlocked, 5.0, true), Some(1.0));
    assert_eq!(update_lock(None, LockState::SoftLock, 5.0, false), Some(5.0));
    assert_eq!(update_lock(None::<f64>, LockState::Unlocked, 5.0, true), None);
}

#[test]
fn the_ring_opens_a_window_only_where_windows_are_allowed() {
    assert_eq!(traditional_insertion(DropZone::Center, true), Some(TabInsert::Append));
    assert_eq!(traditional_insertion(DropZone::WindowRing, true), None);
    assert_eq!(traditional_insertion(DropZone::WindowRing, false), Some(TabInsert::Append));
    assert_eq!(traditional_insertion(DropZone::NoSide, true), None);
    assert_eq!(
        traditional_insertion(DropZone::Side(Split::Left), true),
        Some(TabInsert::Split(Split::Left))
    );
}

#[test]
fn an_insertion_means_a_destination_for_each_kind_of_target() {
    let window = Some(TabDestination::Window(rect()));
    assert_eq!(drop_destination(None, TreeComponent::Node(node()), window), window);
    assert_eq!(
        drop_destination(Some(TabInsert::Append), TreeComponent::Node(node()), window),
        Some(TabDestination::Node(node(), TabInsert::Append))
    );
    assert_eq!(
        drop_destination(Some(TabInsert::Split(Split::Above)), TreeComponent::Surface(SurfaceIndex(1)), None),
        Some(TabDestination::EmptySurface(SurfaceIndex(1)))
    );
    assert_eq!(
        drop_destination(
            Some(TabInsert::Append),
            TreeComponent::Tab(TabPath::at(node(), TabIndex(0))),
            window
        ),
        None
    );
}

#[test]
fn with_windows_forbidden_nothing_on_a_window_is_a_target() {
    let on_window = TreeComponent::Node(NodePath::new(SurfaceIndex::window(0), NodeId(0)));
    assert_eq!(traditional_drop(on_window, false, centre(), AllowedSplits::All, None), None);
    assert_eq!(
        traditional_drop(on_window, false, centre(), AllowedSplits::All, Some(rect())),
        Some(TabDestination::Node(NodePath::new(SurfaceIndex::window(0), NodeId(0)), TabInsert::Append))
    );
}

#[test]
fn over_a_title_the_tab_goes_where_the_title_is() {
    let title = TreeComponent::Tab(TabPath::at(node(), TabIndex(2)));
    assert_eq!(
        traditional_drop(title, true, ring(), AllowedSplits::All, Some(rect())),
        Some(TabDestination::Node(node(), TabInsert::Insert(TabIndex(2))))
    );
    assert_eq!(
        traditional_drop(TreeComponent::Node(node()), false, ring(), AllowedSplits::All, Some(rect())),
        Some(TabDestination::Window(rect()))
    );
}

#[test]
fn the_icon_overlay_prefers_the_last_split_button_hit() {
    let dst = TreeComponent::Node(node());
    assert_eq!(icon_drop(dst, Some(rect()), no_hits(), AllowedSplits::All), Some(TabDestination::Window(rect())));
    assert_eq!(icon_drop(dst, None, no_hits(), AllowedSplits::All), None);
    let centre = ButtonHits { center: true, ..no_hits() };
    assert_eq!(
        icon_drop(dst, Some(rect()), centre, AllowedSplits::All),
        Some(TabDestination::Node(node(), TabInsert::Append))
    );
    let below_and_left = ButtonHits { below: true, left: true, ..no_hits() };
    assert_eq!(
        icon_drop(dst, None, below_and_left, AllowedSplits::All),
        Some(TabDestination::Node(node(), TabInsert::Split(Split::Left)))
    );
    assert_eq!(
        icon_drop(dst, None, below_and_left, AllowedSplits::TopBottomOnly),
        Some(TabDestination::Node(node(), TabInsert::Split(Split::Below)))
    );
    assert_eq!(icon_drop(dst, None, below_and_left, AllowedSplits::NoSplits), None);
}

#[test]
fn an_empty_surface_takes_only_the_centre_button() {
    let dst = TreeComponent::Surface(SurfaceIndex(1));
    let all = ButtonHits { center: true, below: true, right: true, above: true, left: true };
    assert_eq!(
        icon_drop(dst, None, all, AllowedSplits::All),
        Some(TabDestination::EmptySurface(SurfaceIndex(1)))
    );
}

#[test]
fn a_side_is_offered_only_where_the_allowed_splits_admit_it() {
    assert_eq!(drop_zone(up_left(), AllowedSplits::All), DropZone::Side(Split::Above));
    assert_eq!(drop_zone(up_left(), AllowedSplits::LeftRightOnly), DropZone::Side(Split::Left));
    assert_eq!(drop_zone(up_left(), AllowedSplits::TopBottomOnly), DropZone::Side(Split::Above));
    assert_eq!(drop_zone(up_left(), AllowedSplits::NoSplits), DropZone::NoSide);
    let right = PointerReading { x: Sign::Positive, y: Sign::Zero, rising: true, falling: false, ..up_left() };
    assert_eq!(drop_zone(right, AllowedSplits::TopBottomOnly), DropZone::NoSide);
    assert_eq!(drop_zone(centre(), AllowedSplits::NoSplits), DropZone::Center);
    assert_eq!(drop_zone(ring(), AllowedSplits::All), DropZone::WindowRing);
    assert_eq!(
        traditional_drop(TreeComponent::Node(node()), false, up_left(), AllowedSplits::LeftRightOnly, None),
        Some(TabDestination::Node(node(), TabInsert::Split(Split::Left)))
    );
    // No split allowed and no window allowed: the tab is appended instead.
    assert_eq!(
        traditional_drop(TreeComponent::Node(node()), false, up_left(), AllowedSplits::NoSplits, None),
        Some(TabDestination::Node(node(), TabInsert::Append))
    );
    assert_eq!(
        traditional_drop(TreeComponent::Node(node()), false, up_left(), AllowedSplits::NoSplits, Some(rect())),
        Some(TabDestination::Window(rect()))
    );
}
