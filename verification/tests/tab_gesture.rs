use egui_dockyard::mutation::{CloseVerdict, DockMutation, TabRemoval};
use egui_dockyard::tab_gesture::{
    close_all_requests, tab_requests, tab_verdict, whole_verdict, CloseAllInput, CloseAllSituation, TabInput,
    TabSituation,
};
use egui_dockyard::{NodeId, NodePath, SurfaceIndex, TabIndex, TabPath};

fn path() -> TabPath {
    TabPath::at(NodePath::new(SurfaceIndex::main(), NodeId(0)), TabIndex(1))
}

fn idle() -> TabInput {
    TabInput { activated: false, middle_clicked: false, close_clicked: false, eject_chosen: false, menu_close: None }
}

fn usual() -> TabSituation {
    TabSituation {
        already_active: false,
        show_close_buttons: true,
        closeable: true,
        allowed_in_windows: true,
        on_main: true,
        lonely: false,
    }
}

#[test]
fn a_click_shows_the_tab_and_focuses_its_leaf() {
    let r: Vec<DockMutation<f32>> = tab_requests(path(), TabInput { activated: true, ..idle() }, usual());
    assert_eq!(r.len(), 2);
    assert!(matches!(r[0], DockMutation::Activate(p) if p == path()));
    assert!(matches!(r[1], DockMutation::Focus(p) if p == path().node_path()));
    let shown = TabSituation { already_active: true, ..usual() };
    let r: Vec<DockMutation<f32>> = tab_requests(path(), TabInput { activated: true, ..idle() }, shown);
    assert_eq!(r.len(), 1);
    assert!(matches!(r[0], DockMutation::Focus(_)));
}

#[test]
fn a_middle_click_closes_only_where_a_close_button_is() {
    let middle = TabInput { middle_clicked: true, ..idle() };
    let r: Vec<DockMutation<f32>> = tab_requests(path(), middle, usual());
    assert!(matches!(r[..], [DockMutation::Remove(TabRemoval::Tab { successor: None, .. })]));
    let fixed = TabSituation { closeable: false, ..usual() };
    assert!(tab_requests::<f32>(path(), middle, fixed).is_empty());
}

#[test]
fn eject_is_refused_to_the_lonely_tab_of_a_window() {
    let eject = TabInput { eject_chosen: true, ..idle() };
    let r: Vec<DockMutation<f32>> = tab_requests(path(), eject, usual());
    assert!(matches!(r[..], [DockMutation::Detach(_)]));
    let lonely = TabSituation { on_main: false, lonely: true, ..usual() };
    assert!(tab_requests::<f32>(path(), eject, lonely).is_empty());
    let pinned = TabSituation { allowed_in_windows: false, ..usual() };
    assert!(tab_requests::<f32>(path(), eject, pinned).is_empty());
}

#[test]
fn the_menu_close_follows_the_applications_answer() {
    let ask = |v| TabInput { menu_close: Some(v), ..idle() };
    let r: Vec<DockMutation<f32>> = tab_requests(path(), ask(CloseVerdict::Close { successor: Some(TabIndex(0)) }), usual());
    assert!(matches!(r[..], [DockMutation::Remove(TabRemoval::Tab { successor: Some(TabIndex(0)), .. })]));
    let r: Vec<DockMutation<f32>> = tab_requests(path(), ask(CloseVerdict::Focus), usual());
    assert!(matches!(r[..], [DockMutation::Activate(_), DockMutation::Focus(_)]));
    assert!(tab_requests::<f32>(path(), ask(CloseVerdict::Ignore), usual()).is_empty());
}

fn leaf_on(surface: usize) -> NodePath {
    NodePath::new(SurfaceIndex(surface), NodeId(0))
}

fn plain() -> CloseAllSituation {
    CloseAllSituation { on_secondary_button: false, disabled: false, close_window_disabled: false, context_menu: true }
}

#[test]
fn the_close_all_button_closes_the_leaf_or_on_the_secondary_button_its_window() {
    let click = CloseAllInput { clicked: true, close_window_chosen: false };
    let r: Vec<DockMutation<f32>> = close_all_requests(leaf_on(1), click, plain());
    assert!(matches!(r[..], [DockMutation::Remove(TabRemoval::Node(p))] if p == leaf_on(1)));
    let secondary = CloseAllSituation { on_secondary_button: true, ..plain() };
    let r: Vec<DockMutation<f32>> = close_all_requests(leaf_on(1), click, secondary);
    assert!(matches!(r[..], [DockMutation::Remove(TabRemoval::Window(SurfaceIndex(1)))]));
    // The main surface has no window to close, and a disabled button closes nothing.
    assert!(close_all_requests::<f32>(leaf_on(0), click, secondary).is_empty());
    assert!(close_all_requests::<f32>(leaf_on(1), click, CloseAllSituation { disabled: true, ..plain() }).is_empty());
    let menu = CloseAllInput { clicked: false, close_window_chosen: true };
    let r: Vec<DockMutation<f32>> = close_all_requests(leaf_on(2), menu, plain());
    assert!(matches!(r[..], [DockMutation::Remove(TabRemoval::Window(SurfaceIndex(2)))]));
    assert!(close_all_requests::<f32>(leaf_on(2), menu, CloseAllSituation { close_window_disabled: true, ..plain() }).is_empty());
}

#[test]
fn the_applications_answers_become_the_verdict() {
    let close = CloseVerdict::Close { successor: None };
    assert_eq!(tab_verdict(true, Some(TabIndex(2)), false, close), CloseVerdict::Close { successor: Some(TabIndex(2)) });
    assert_eq!(tab_verdict(false, Some(TabIndex(2)), false, close), close);
    assert_eq!(tab_verdict(true, None, false, CloseVerdict::Focus), CloseVerdict::Focus);
    assert_eq!(tab_verdict(true, None, true, CloseVerdict::Ignore), close);
    assert_eq!(whole_verdict(&vec![(true, close), (true, close)]), close);
    assert_eq!(whole_verdict(&vec![(true, close), (false, close)]), CloseVerdict::Ignore);
    assert_eq!(whole_verdict(&vec![(true, close), (true, CloseVerdict::Focus)]), CloseVerdict::Ignore);
    assert_eq!(whole_verdict(&vec![]), close);
}
