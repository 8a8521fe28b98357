//! What a tab's title asks of the dock when the pointer acts on it — show it and focus its leaf,
//! close it, or eject it into a window of its own — what a leaf's close-all button asks, and how
//! the application's answers about a close become the verdict that settles it.

use vstd::prelude::*;

use crate::address::{NodePath, TabIndex, TabPath};
use crate::mutation::{CloseVerdict, DockMutation, TabRemoval};

verus! {

/// What the pointer and the keyboard did to one tab title this frame.
#[derive(Clone, Copy, Debug, PartialEq, Eq, Structural)]
pub struct TabInput {
    /// Clicked, or Enter or Space pressed while its title had the keyboard focus.
    pub activated: bool,
    /// Clicked with the middle button.
    pub middle_clicked: bool,
    /// Its close button was clicked.
    pub close_clicked: bool,
    /// "Eject" was chosen in its context menu.
    pub eject_chosen: bool,
    /// "Close" was chosen in its context menu, and the application answered this.
    pub menu_close: Option<CloseVerdict>,
}

/// What the dock and the application say about one tab.
#[derive(Clone, Copy, Debug, PartialEq, Eq, Hash, Structural)]
pub struct TabSituation {
    /// It is the tab its bar shows.
    pub already_active: bool,
    /// The dock shows close buttons at all.
    pub show_close_buttons: bool,
    /// The application lets this tab be closed.
    pub closeable: bool,
    /// The application lets this tab live in a floating window.
    pub allowed_in_windows: bool,
    /// The tab is on the main surface.
    pub on_main: bool,
    /// It is the only tab of a floating window.
    pub lonely: bool,
}

/// Showing the tab at `path` and focusing its leaf: the activation only if it is not shown yet,
/// the focus always.
pub open spec fn show_and_focus<M>(path: TabPath, already_active: bool) -> Seq<DockMutation<M>> {
    if already_active {
        seq![DockMutation::Focus(path.spec_node_path())]
    } else {
        seq![DockMutation::Activate(path), DockMutation::Focus(path.spec_node_path())]
    }
}

/// The requests the title of the tab at `path` makes, in the order it makes them: the context
/// menu's eject (offered unless the tab is alone in a floating window, and only for a tab allowed
/// in windows), then its close (offered where a close button is, and answered by the application:
/// close, show and focus instead, or nothing), then the close button, then a click, then a middle
/// click (a close, where a close button is).
pub open spec fn spec_tab_requests<M>(path: TabPath, input: TabInput, situation: TabSituation) -> Seq<
    DockMutation<M>,
> {
    let closes = situation.show_close_buttons && situation.closeable;
    let close = seq![DockMutation::Remove(TabRemoval::Tab { path, successor: None })];
    let eject = if input.eject_chosen && (situation.on_main || !situation.lonely)
        && situation.allowed_in_windows {
        seq![DockMutation::Detach(path)]
    } else {
        Seq::empty()
    };
    let menu = if closes {
        match input.menu_close {
            Some(CloseVerdict::Close { successor }) => seq![
                DockMutation::Remove(TabRemoval::Tab { path, successor }),
            ],
            Some(CloseVerdict::Focus) => show_and_focus(path, situation.already_active),
            _ => Seq::empty(),
        }
    } else {
        Seq::empty()
    };
    let button = if input.close_clicked {
        close
    } else {
        Seq::empty()
    };
    let click = if input.activated {
        show_and_focus(path, situation.already_active)
    } else {
        Seq::empty()
    };
    let middle = if closes && input.middle_clicked {
        close
    } else {
        Seq::empty()
    };
    eject + menu + button + click + middle
}

fn push_show_and_focus<M>(out: &mut Vec<DockMutation<M>>, path: TabPath, already_active: bool)
    ensures
        final(out)@ == old(out)@ + show_and_focus::<M>(path, already_active),
{
    if !already_active {
        out.push(DockMutation::Activate(path));
    }
    out.push(DockMutation::Focus(path.node_path()));
    proof {
        assert(final(out)@ =~= old(out)@ + show_and_focus::<M>(path, already_active));
    }
}

/// The requests the title of the tab at `path` makes this frame, as [`spec_tab_requests`] says.
pub fn tab_requests<M>(path: TabPath, input: TabInput, situation: TabSituation) -> (requests: Vec<
    DockMutation<M>,
>)
    ensures
        requests@ == spec_tab_requests::<M>(path, input, situation),
{
    let closes = situation.show_close_buttons && situation.closeable;
    let mut out: Vec<DockMutation<M>> = Vec::new();
    if input.eject_chosen && (situation.on_main || !situation.lonely) && situation.allowed_in_windows {
        out.push(DockMutation::Detach(path));
    }
    let ghost after_eject = out@;
    if closes {
        match input.menu_close {
            Some(CloseVerdict::Close { successor }) => {
                out.push(DockMutation::Remove(TabRemoval::Tab { path, successor }));
            },
            Some(CloseVerdict::Focus) => {
                push_show_and_focus(&mut out, path, situation.already_active);
            },
            _ => {},
        }
    }
    let ghost after_menu = out@;
    if input.close_clicked {
        out.push(DockMutation::Remove(TabRemoval::Tab { path, successor: None }));
    }
    let ghost after_button = out@;
    if input.activated {
        push_show_and_focus(&mut out, path, situation.already_active);
    }
    let ghost after_click = out@;
    if closes && input.middle_clicked {
        out.push(DockMutation::Remove(TabRemoval::Tab { path, successor: None }));
    }
    proof {
        assert(out@ =~= spec_tab_requests::<M>(path, input, situation));
    }
    out
}


/// What the pointer did to a leaf's close-all button this frame.
#[derive(Clone, Copy, Debug, PartialEq, Eq, Hash, Structural)]
pub struct CloseAllInput {
    /// The button was clicked.
    pub clicked: bool,
    /// "Close the window" was chosen in the button's context menu.
    pub close_window_chosen: bool,
}

/// What the dock says about a leaf's close-all button.
#[derive(Clone, Copy, Debug, PartialEq, Eq, Hash, Structural)]
pub struct CloseAllSituation {
    /// The modifier keys ask for the button's second meaning: close the whole window.
    pub on_secondary_button: bool,
    /// Closing the leaf is not allowed.
    pub disabled: bool,
    /// Closing the window is not allowed.
    pub close_window_disabled: bool,
    /// The button offers a context menu with "close the window".
    pub context_menu: bool,
}

/// The requests a leaf's close-all button makes, in order: the context menu's "close the window"
/// (offered on a floating window's leaf, where the button closes the leaf, and where closing the
/// window is allowed), then the click — which closes the window on the secondary button where
/// that is allowed, and otherwise the leaf, unless that is disabled.
pub open spec fn spec_close_all_requests<M>(
    path: NodePath,
    input: CloseAllInput,
    situation: CloseAllSituation,
) -> Seq<DockMutation<M>> {
    let on_window = path.surface.0 != 0;
    let close_window = seq![DockMutation::Remove(TabRemoval::Window(path.surface))];
    let menu = if !situation.on_secondary_button && !situation.disabled && on_window
        && situation.context_menu && !situation.close_window_disabled && input.close_window_chosen {
        close_window
    } else {
        Seq::empty()
    };
    let click = if !input.clicked {
        Seq::empty()
    } else if situation.on_secondary_button {
        if on_window && !situation.close_window_disabled {
            close_window
        } else {
            Seq::empty()
        }
    } else if !situation.disabled {
        seq![DockMutation::Remove(TabRemoval::Node(path))]
    } else {
        Seq::empty()
    };
    menu + click
}

/// The requests a leaf's close-all button makes this frame, as [`spec_close_all_requests`] says.
pub fn close_all_requests<M>(path: NodePath, input: CloseAllInput, situation: CloseAllSituation) -> (requests:
    Vec<DockMutation<M>>)
    ensures
        requests@ == spec_close_all_requests::<M>(path, input, situation),
{
    let on_window = path.surface.0 != 0;
    let mut out: Vec<DockMutation<M>> = Vec::new();
    if !situation.on_secondary_button && !situation.disabled && on_window && situation.context_menu
        && !situation.close_window_disabled && input.close_window_chosen {
        out.push(DockMutation::Remove(TabRemoval::Window(path.surface)));
    }
    if input.clicked {
        if situation.on_secondary_button {
            if on_window && !situation.close_window_disabled {
                out.push(DockMutation::Remove(TabRemoval::Window(path.surface)));
            }
        } else if !situation.disabled {
            out.push(DockMutation::Remove(TabRemoval::Node(path)));
        }
    }
    proof {
        assert(out@ =~= spec_close_all_requests::<M>(path, input, situation));
    }
    out
}

/// The verdict on closing one tab, from what the application answered about it: a forced close
/// is carried out; otherwise its answer to the close decides (its own successor inside a `Close`
/// is not read). A tab carried out lands on the successor the application named — asked only of
/// the tab that is shown, since closing any other moves nothing.
pub open spec fn spec_tab_verdict(
    is_active: bool,
    successor_answer: Option<TabIndex>,
    forced: bool,
    on_close: CloseVerdict,
) -> CloseVerdict {
    let successor = if is_active {
        successor_answer
    } else {
        None
    };
    if forced {
        CloseVerdict::Close { successor }
    } else {
        match on_close {
            CloseVerdict::Close { .. } => CloseVerdict::Close { successor },
            other => other,
        }
    }
}

/// [`spec_tab_verdict`], computed.
pub fn tab_verdict(
    is_active: bool,
    successor_answer: Option<TabIndex>,
    forced: bool,
    on_close: CloseVerdict,
) -> (v: CloseVerdict)
    ensures
        v == spec_tab_verdict(is_active, successor_answer, forced, on_close),
{
    let successor = if is_active {
        successor_answer
    } else {
        None
    };
    if forced {
        CloseVerdict::Close { successor }
    } else {
        match on_close {
            CloseVerdict::Close { .. } => CloseVerdict::Close { successor },
            other => other,
        }
    }
}

/// The verdict on closing a whole leaf or window, from what the application answered about each
/// of its tabs — whether it may be closed, and its answer to the close: all or nothing. It is
/// closed only if every tab may be closed and every answer is to close it.
pub fn whole_verdict(answers: &Vec<(bool, CloseVerdict)>) -> (v: CloseVerdict)
    ensures
        (forall|i: int| 0 <= i < answers@.len() ==> (#[trigger] answers@[i]).0 && answers@[i].1 is Close)
            ==> v == (CloseVerdict::Close { successor: None }),
        !(forall|i: int| 0 <= i < answers@.len() ==> (#[trigger] answers@[i]).0 && answers@[i].1 is Close)
            ==> v == CloseVerdict::Ignore,
{
    let mut k: usize = 0;
    while k < answers.len()
        invariant
            k <= answers@.len(),
            forall|i: int| 0 <= i < k ==> (#[trigger] answers@[i]).0 && answers@[i].1 is Close,
        decreases answers@.len() - k,
    {
        let (closeable, answer) = answers[k];
        let closes = match answer {
            CloseVerdict::Close { .. } => true,
            _ => false,
        };
        if !(closeable && closes) {
            return CloseVerdict::Ignore;
        }
        k = k + 1;
    }
    CloseVerdict::Close { successor: None }
}

/// A click on a tab's close button always asks to close that very tab, with no successor named,
/// whether or not the tab is the one its bar shows.
pub proof fn lemma_close_button_closes_its_tab<M>(path: TabPath, input: TabInput, situation: TabSituation)
    requires
        input.close_clicked,
    ensures
        spec_tab_requests::<M>(path, input, situation).contains(
            DockMutation::Remove(TabRemoval::Tab { path, successor: None }),
        ),
{
    let closes = situation.show_close_buttons && situation.closeable;
    let eject: Seq<DockMutation<M>> = if input.eject_chosen && (situation.on_main || !situation.lonely)
        && situation.allowed_in_windows {
        seq![DockMutation::Detach(path)]
    } else {
        Seq::empty()
    };
    let menu: Seq<DockMutation<M>> = if closes {
        match input.menu_close {
            Some(CloseVerdict::Close { successor }) => seq![
                DockMutation::Remove(TabRemoval::Tab { path, successor }),
            ],
            Some(CloseVerdict::Focus) => show_and_focus(path, situation.already_active),
            _ => Seq::empty(),
        }
    } else {
        Seq::empty()
    };
    let all = spec_tab_requests::<M>(path, input, situation);
    let k: int = (eject.len() + menu.len()) as int;
    assert(all[k] == DockMutation::<M>::Remove(TabRemoval::Tab { path, successor: None }));
}

/// `m` is a request about the tab at `path` alone: showing it, focusing its leaf, closing it or
/// ejecting it.
pub open spec fn about_tab<M>(m: DockMutation<M>, path: TabPath) -> bool {
    ||| m == DockMutation::<M>::Activate(path)
    ||| m == DockMutation::<M>::Focus(path.spec_node_path())
    ||| (m is Remove && m->Remove_0 is Tab && m->Remove_0->Tab_path == path)
    ||| m == DockMutation::<M>::Detach(path)
}

/// A tab's title asks only about its own tab, asks nothing when nothing was done to it, and
/// answers each gesture: a click shows the tab (where it is not shown yet) and focuses its leaf,
/// and a middle click closes it where close buttons are shown and the tab may be closed.
pub proof fn lemma_a_title_answers_its_gestures<M>(path: TabPath, input: TabInput, situation: TabSituation)
    ensures
        forall|k: int|
            0 <= k < spec_tab_requests::<M>(path, input, situation).len() ==> about_tab(
                #[trigger] spec_tab_requests::<M>(path, input, situation)[k],
                path,
            ),
        !input.activated && !input.middle_clicked && !input.close_clicked && !input.eject_chosen
            && input.menu_close is None ==> spec_tab_requests::<M>(path, input, situation).len() == 0,
        input.activated ==> spec_tab_requests::<M>(path, input, situation).contains(
            DockMutation::Focus(path.spec_node_path()),
        ),
        input.activated && !situation.already_active ==> spec_tab_requests::<M>(
            path,
            input,
            situation,
        ).contains(DockMutation::Activate(path)),
        input.middle_clicked && situation.show_close_buttons && situation.closeable
            ==> spec_tab_requests::<M>(path, input, situation).contains(
            DockMutation::Remove(TabRemoval::Tab { path, successor: None }),
        ),
{
    let closes = situation.show_close_buttons && situation.closeable;
    let close: Seq<DockMutation<M>> = seq![DockMutation::Remove(TabRemoval::Tab { path, successor: None })];
    let eject: Seq<DockMutation<M>> = if input.eject_chosen && (situation.on_main || !situation.lonely)
        && situation.allowed_in_windows {
        seq![DockMutation::Detach(path)]
    } else {
        Seq::empty()
    };
    let menu: Seq<DockMutation<M>> = if closes {
        match input.menu_close {
            Some(CloseVerdict::Close { successor }) => seq![
                DockMutation::Remove(TabRemoval::Tab { path, successor }),
            ],
            Some(CloseVerdict::Focus) => show_and_focus(path, situation.already_active),
            _ => Seq::empty(),
        }
    } else {
        Seq::empty()
    };
    let button: Seq<DockMutation<M>> = if input.close_clicked {
        close
    } else {
        Seq::empty()
    };
    let click: Seq<DockMutation<M>> = if input.activated {
        show_and_focus(path, situation.already_active)
    } else {
        Seq::empty()
    };
    let middle: Seq<DockMutation<M>> = if closes && input.middle_clicked {
        close
    } else {
        Seq::empty()
    };
    let all = spec_tab_requests::<M>(path, input, situation);
    assert(all == eject + menu + button + click + middle);
    let sf = show_and_focus::<M>(path, situation.already_active);
    assert(forall|k: int| 0 <= k < sf.len() ==> about_tab(#[trigger] sf[k], path));
    assert forall|k: int| 0 <= k < all.len() implies about_tab(#[trigger] all[k], path) by {
        let a = eject.len() as int;
        let b = a + menu.len();
        let c = b + button.len();
        let d = c + click.len();
        if k < a {
            assert(all[k] == eject[k]);
        } else if k < b {
            assert(all[k] == menu[k - a]);
        } else if k < c {
            assert(all[k] == button[k - b]);
        } else if k < d {
            assert(all[k] == click[k - c]);
        } else {
            assert(all[k] == middle[k - d]);
        }
    }
    let d = (eject.len() + menu.len() + button.len() + click.len()) as int;
    let c = (eject.len() + menu.len() + button.len()) as int;
    if input.activated {
        assert(all[c + sf.len() - 1] == sf[sf.len() - 1]);
        if !situation.already_active {
            assert(all[c] == sf[0]);
        }
    }
    if closes && input.middle_clicked {
        assert(all[d] == middle[0]);
    }
}

/// Whether the tab is already shown changes which show-and-focus requests its title makes, never
/// which closes or ejections it asks for: those are the same either way.
pub proof fn lemma_being_shown_changes_no_close<M>(
    path: TabPath,
    input: TabInput,
    situation: TabSituation,
    m: DockMutation<M>,
)
    requires
        m is Remove || m is Detach,
    ensures
        spec_tab_requests::<M>(path, input, situation).contains(m) <==> spec_tab_requests::<M>(
            path,
            input,
            TabSituation { already_active: !situation.already_active, ..situation },
        ).contains(m),
{
    let other = TabSituation { already_active: !situation.already_active, ..situation };
    lemma_closes_in_requests(path, input, situation, m);
    lemma_closes_in_requests(path, input, other, m);
}

/// The parts of the requests that a close or an ejection can stand in.
proof fn lemma_closes_in_requests<M>(
    path: TabPath,
    input: TabInput,
    situation: TabSituation,
    m: DockMutation<M>,
)
    requires
        m is Remove || m is Detach,
    ensures
        spec_tab_requests::<M>(path, input, situation).contains(m) <==> ({
            let closes = situation.show_close_buttons && situation.closeable;
            ||| (m == DockMutation::<M>::Detach(path) && input.eject_chosen && (situation.on_main
                || !situation.lonely) && situation.allowed_in_windows)
            ||| (closes && (exists|successor: Option<TabIndex>|
                input.menu_close == Some(CloseVerdict::Close { successor })
                    && m == DockMutation::<M>::Remove(TabRemoval::Tab { path, successor })))
            ||| ((input.close_clicked || (closes && input.middle_clicked)) && m
                == DockMutation::<M>::Remove(TabRemoval::Tab { path, successor: None }))
        }),
{
    let closes = situation.show_close_buttons && situation.closeable;
    let close: Seq<DockMutation<M>> = seq![DockMutation::Remove(TabRemoval::Tab { path, successor: None })];
    let eject: Seq<DockMutation<M>> = if input.eject_chosen && (situation.on_main || !situation.lonely)
        && situation.allowed_in_windows {
        seq![DockMutation::Detach(path)]
    } else {
        Seq::empty()
    };
    let menu: Seq<DockMutation<M>> = if closes {
        match input.menu_close {
            Some(CloseVerdict::Close { successor }) => seq![
                DockMutation::Remove(TabRemoval::Tab { path, successor }),
            ],
            Some(CloseVerdict::Focus) => show_and_focus(path, situation.already_active),
            _ => Seq::empty(),
        }
    } else {
        Seq::empty()
    };
    let button: Seq<DockMutation<M>> = if input.close_clicked {
        close
    } else {
        Seq::empty()
    };
    let click: Seq<DockMutation<M>> = if input.activated {
        show_and_focus(path, situation.already_active)
    } else {
        Seq::empty()
    };
    let middle: Seq<DockMutation<M>> = if closes && input.middle_clicked {
        close
    } else {
        Seq::empty()
    };
    assert(spec_tab_requests::<M>(path, input, situation) == eject + menu + button + click + middle);
    vstd::seq_lib::lemma_seq_concat_contains_all_elements(eject + menu + button + click, middle, m);
    vstd::seq_lib::lemma_seq_concat_contains_all_elements(eject + menu + button, click, m);
    vstd::seq_lib::lemma_seq_concat_contains_all_elements(eject + menu, button, m);
    vstd::seq_lib::lemma_seq_concat_contains_all_elements(eject, menu, m);
    let sf = show_and_focus::<M>(path, situation.already_active);
    assert(!sf.contains(m)) by {
        if sf.contains(m) {
            let j = choose|j: int| 0 <= j < sf.len() && sf[j] == m;
        }
    }
    assert(close.contains(m) <==> m == DockMutation::<M>::Remove(TabRemoval::Tab { path, successor: None })) by {
        if close.contains(m) {
            let j = choose|j: int| 0 <= j < close.len() && close[j] == m;
        }
        if m == DockMutation::<M>::Remove(TabRemoval::Tab { path, successor: None }) {
            assert(close[0] == m);
        }
    }
    assert(eject.len() > 0 ==> (eject.contains(m) <==> m == DockMutation::<M>::Detach(path))) by {
        if eject.len() > 0 {
            if eject.contains(m) {
                let j = choose|j: int| 0 <= j < eject.len() && eject[j] == m;
            }
            if m == DockMutation::<M>::Detach(path) {
                assert(eject[0] == m);
            }
        }
    }
    if closes {
        match input.menu_close {
            Some(CloseVerdict::Close { successor }) => {
                if menu.contains(m) {
                    let j = choose|j: int| 0 <= j < menu.len() && menu[j] == m;
                }
                if m == DockMutation::<M>::Remove(TabRemoval::Tab { path, successor }) {
                    assert(menu[0] == m);
                }
            },
            _ => {},
        }
    }
}

} // verus!
