//! The screens of the game and the decisions that move between them: the
//! menu's buttons, the settings screen's toggle and back button, and the
//! global escape key.

use vstd::prelude::*;

verus! {

/// The screen the game shows.
#[derive(Clone, Copy, Debug, PartialEq, Eq, Hash, Structural)]
pub enum AppState {
    Menu,
    Settings,
    Tetris,
    Pong,
}

impl Default for AppState {
    /// The game starts on the menu.
    fn default() -> (s: Self)
        ensures
            s == AppState::Menu,
    {
        AppState::Menu
    }
}

/// Fallback window width when the viewport cannot be measured.
pub const DEFAULT_WIDTH: u32 = 400;

/// Fallback window height when the viewport cannot be measured.
pub const DEFAULT_HEIGHT: u32 = 800;

/// Largest width used in a browser: desktop browsers get a phone-sized view.
pub const MAX_WEB_WIDTH: u32 = 430;

/// Largest height used in a browser.
pub const MAX_WEB_HEIGHT: u32 = 932;

/// Caps a measured browser viewport to the phone-sized maximum; real phones
/// fit under it and keep their full screen.
pub fn cap_web_viewport(width: u32, height: u32) -> (r: (u32, u32))
    ensures
        r.0 == if width < MAX_WEB_WIDTH {
            width
        } else {
            MAX_WEB_WIDTH
        },
        r.1 == if height < MAX_WEB_HEIGHT {
            height
        } else {
            MAX_WEB_HEIGHT
        },
{
    let w = if width < MAX_WEB_WIDTH {
        width
    } else {
        MAX_WEB_WIDTH
    };
    let h = if height < MAX_WEB_HEIGHT {
        height
    } else {
        MAX_WEB_HEIGHT
    };
    (w, h)
}

/// Where the escape key leads: back to the menu from any other screen;
/// nowhere when it was not pressed or the menu is already shown.
pub fn global_escape(escape_just_pressed: bool, current: AppState) -> (next: Option<AppState>)
    ensures
        next == if escape_just_pressed && current != AppState::Menu {
            Some(AppState::Menu)
        } else {
            None
        },
{
    if escape_just_pressed && current != AppState::Menu {
        Some(AppState::Menu)
    } else {
        None
    }
}

/// The screen chosen by the first `n` button changes of a frame: the last
/// button pressed among them wins, as each press replaces the pending one.
pub open spec fn last_choice(changes: Seq<(bool, AppState)>, n: int) -> Option<AppState>
    decreases n,
{
    if n <= 0 {
        None
    } else if changes[n - 1].0 {
        Some(changes[n - 1].1)
    } else {
        last_choice(changes, n - 1)
    }
}

/// The menu's reaction to a frame's button changes, each given as whether
/// the button is now pressed and the screen it leads to.
pub fn menu_input(changes: &Vec<(bool, AppState)>) -> (next: Option<AppState>)
    ensures
        next == last_choice(changes@, changes.len() as int),
        next is None <==> forall|i: int| 0 <= i < changes.len() ==> !(#[trigger] changes@[i]).0,
        next matches Some(s) ==> exists|i: int|
            0 <= i < changes.len() && (#[trigger] changes@[i]).0 && changes@[i].1 == s && forall|
                j: int,
            |
                i < j < changes.len() ==> !(#[trigger] changes@[j]).0,
{
    let mut next: Option<AppState> = None;
    let mut i: usize = 0;
    let ghost mut last: int = -1;
    while i < changes.len()
        invariant
            i <= changes.len(),
            next == last_choice(changes@, i as int),
            -1 <= last < i,
            last >= 0 ==> changes@[last].0 && next == Some(changes@[last].1),
            last == -1 ==> next is None,
            forall|j: int| last < j < i ==> !(#[trigger] changes@[j]).0,
        decreases changes.len() - i,
    {
        let (pressed, choice) = changes[i];
        if pressed {
            next = Some(choice);
            proof {
                last = i as int;
            }
        }
        i = i + 1;
    }
    proof {
        if last >= 0 {
            assert(changes@[last].0);
        }
    }
    next
}

/// The menu goes to the screen of the last button pressed in the frame, and
/// nowhere when no button was pressed: a chosen screen is the choice of a
/// pressed change with no press after it.
pub proof fn lemma_last_choice_is_last_press(changes: Seq<(bool, AppState)>, n: int)
    requires
        0 <= n <= changes.len(),
    ensures
        last_choice(changes, n) is None <==> forall|i: int| 0 <= i < n ==> !(#[trigger] changes[i]).0,
        last_choice(changes, n) matches Some(s) ==> exists|i: int|
            0 <= i < n && (#[trigger] changes[i]).0 && changes[i].1 == s && forall|j: int|
                i < j < n ==> !(#[trigger] changes[j]).0,
    decreases n,
{
    if n > 0 {
        lemma_last_choice_is_last_press(changes, n - 1);
        if changes[n - 1].0 {
            assert(changes[n - 1].0);
        } else if last_choice(changes, n - 1) is Some {
            let s = last_choice(changes, n - 1)->0;
            let i = choose|i: int|
                0 <= i < n - 1 && (#[trigger] changes[i]).0 && changes[i].1 == s && forall|j: int|
                    i < j < n - 1 ==> !(#[trigger] changes[j]).0;
            assert(forall|j: int| i < j < n ==> !(#[trigger] changes[j]).0);
        }
    }
}

/// The magic-eye setting after the first `n` changes of the toggle button:
/// every press flips it.
pub open spec fn toggled(enabled: bool, presses: Seq<bool>, n: int) -> bool
    decreases n,
{
    if n <= 0 {
        enabled
    } else if presses[n - 1] {
        !toggled(enabled, presses, n - 1)
    } else {
        toggled(enabled, presses, n - 1)
    }
}

/// Whether any of the first `n` changes is a press.
pub open spec fn any_pressed(presses: Seq<bool>, n: int) -> bool {
    exists|i: int| 0 <= i < n && #[trigger] presses[i]
}

/// The settings screen's reaction to a frame's changes of its two buttons:
/// each press of the toggle flips the magic-eye setting, and a press of the
/// back button returns to the menu.
pub fn settings_input(enabled: bool, toggle_changes: &Vec<bool>, back_changes: &Vec<bool>) -> (r: (
    bool,
    Option<AppState>,
))
    ensures
        r.0 == toggled(enabled, toggle_changes@, toggle_changes.len() as int),
        r.1 == if any_pressed(back_changes@, back_changes.len() as int) {
            Some(AppState::Menu)
        } else {
            None
        },
{
    let mut on = enabled;
    let mut i: usize = 0;
    while i < toggle_changes.len()
        invariant
            i <= toggle_changes.len(),
            on == toggled(enabled, toggle_changes@, i as int),
        decreases toggle_changes.len() - i,
    {
        if toggle_changes[i] {
            on = !on;
        }
        i = i + 1;
    }
    let mut next: Option<AppState> = None;
    let mut j: usize = 0;
    while j < back_changes.len()
        invariant
            j <= back_changes.len(),
            next == if any_pressed(back_changes@, j as int) {
                Some(AppState::Menu)
            } else {
                None
            },
        decreases back_changes.len() - j,
    {
        if back_changes[j] {
            next = Some(AppState::Menu);
        }
        assert(any_pressed(back_changes@, j + 1) == (any_pressed(back_changes@, j as int)
            || back_changes@[j as int]));
        j = j + 1;
    }
    (on, next)
}

/// Two presses of the toggle cancel out, whatever came before them.
pub proof fn lemma_toggle_twice(enabled: bool, presses: Seq<bool>)
    ensures
        toggled(enabled, presses.push(true).push(true), presses.len() + 2int) == toggled(
            enabled,
            presses,
            presses.len() as int,
        ),
{
    let s = presses.push(true).push(true);
    let n = presses.len() as int;
    lemma_toggled_prefix(enabled, presses, s, n);
    assert(s[n] && s[n + 1]);
    assert(toggled(enabled, s, n + 1) == !toggled(enabled, s, n));
    assert(toggled(enabled, s, n + 2) == !toggled(enabled, s, n + 1));
}

/// The setting after `n` changes depends only on those changes.
proof fn lemma_toggled_prefix(enabled: bool, a: Seq<bool>, b: Seq<bool>, n: int)
    requires
        0 <= n <= a.len(),
        n <= b.len(),
        forall|i: int| 0 <= i < n ==> a[i] == b[i],
    ensures
        toggled(enabled, a, n) == toggled(enabled, b, n),
    decreases n,
{
    if n > 0 {
        lemma_toggled_prefix(enabled, a, b, n - 1);
    }
}

/// The label of the magic-eye toggle button.
pub fn toggle_label(enabled: bool) -> (s: &'static str)
    ensures
        s@ == if enabled {
            "Magic Eye: ON"@
        } else {
            "Magic Eye: OFF"@
        },
{
    if enabled {
        "Magic Eye: ON"
    } else {
        "Magic Eye: OFF"
    }
}

} // verus!
