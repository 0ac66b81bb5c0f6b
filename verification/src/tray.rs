//! The tray side of the drawer: the shared switches and hide time that
//! decide whether the popup may reopen, what a click on the tray icon does,
//! and when dragging over the tray opens the popup.
use vstd::prelude::*;
use crate::clock::unix_millis_now;

verus! {

/// What the tray remembers between events: when the popup was last hidden
/// (milliseconds since the Unix epoch, 0 for never or cleared) and whether
/// dragging over the tray may open the popup.
pub struct TrayState {
    pub last_hide_millis: u64,
    pub auto_show_on_tray_hover: bool,
}

impl TrayState {
    /// Nothing hidden yet; opening on hover allowed.
    pub fn new() -> (s: TrayState)
        ensures
            s.last_hide_millis == 0,
            s.auto_show_on_tray_hover,
    {
        TrayState { last_hide_millis: 0, auto_show_on_tray_hover: true }
    }
}

/// Allows or forbids opening the popup by dragging over the tray.
pub fn set_auto_show_on_tray_hover(state: &mut TrayState, enabled: bool)
    ensures
        final(state).auto_show_on_tray_hover == enabled,
        final(state).last_hide_millis == old(state).last_hide_millis,
{
    state.auto_show_on_tray_hover = enabled;
}

/// Whether dragging over the tray may open the popup.
pub fn get_auto_show_on_tray_hover(state: &TrayState) -> (r: bool)
    ensures
        r == state.auto_show_on_tray_hover,
{
    state.auto_show_on_tray_hover
}

/// Records that the popup was hidden at `now_millis`.
pub fn record_window_hide_at(state: &mut TrayState, now_millis: u64)
    ensures
        final(state).last_hide_millis == now_millis,
        final(state).auto_show_on_tray_hover == old(state).auto_show_on_tray_hover,
{
    state.last_hide_millis = now_millis;
}

/// Records that the popup was hidden now, by the system clock (the
/// milliseconds since the Unix epoch, cut to 64 bits). The hide time it
/// stores is that clock reading, of which nothing is known, so no clause
/// states it; `record_window_hide_at` states the same step for a given time.
pub fn record_window_hide(state: &mut TrayState)
    ensures
        final(state).auto_show_on_tray_hover == old(state).auto_show_on_tray_hover,
{
    let now = unix_millis_now() as u64;
    record_window_hide_at(state, now);
}

/// Forgets the last hide, so that the popup counts as not recently hidden.
pub fn clear_recently_hidden(state: &mut TrayState)
    ensures
        final(state).last_hide_millis == 0,
        final(state).auto_show_on_tray_hover == old(state).auto_show_on_tray_hover,
{
    state.last_hide_millis = 0;
}

/// `now` minus `earlier`, or 0 when `earlier` is later.
pub open spec fn saturating_diff(now: u64, earlier: u64) -> int {
    if now >= earlier {
        now - earlier
    } else {
        0
    }
}

/// A hide recorded at `last` (0 for none) is less than `within_ms` old at
/// `now`.
pub open spec fn recently_hidden_spec(last: u64, now: u64, within_ms: u64) -> bool {
    last != 0 && saturating_diff(now, last) < within_ms
}

/// Whether the popup was hidden less than `within_ms` milliseconds before
/// `now_millis`; a clock that went back counts as no time elapsed.
pub fn was_recently_hidden_at(state: &TrayState, now_millis: u64, within_ms: u64) -> (r: bool)
    ensures
        r == recently_hidden_spec(state.last_hide_millis, now_millis, within_ms),
{
    let last = state.last_hide_millis;
    if last == 0 {
        return false;
    }
    now_millis.saturating_sub(last) < within_ms
}

/// Whether the popup was hidden less than `within_ms` milliseconds ago, by
/// the system clock.
pub fn was_recently_hidden(state: &TrayState, within_ms: u64) -> (r: bool)
    ensures
        exists|now: u64| r == #[trigger] recently_hidden_spec(state.last_hide_millis, now, within_ms),
        state.last_hide_millis == 0 ==> !r,
        within_ms == 0 ==> !r,
{
    let now = unix_millis_now() as u64;
    was_recently_hidden_at(state, now, within_ms)
}

/// A cleared hide time is never recent.
pub proof fn law_cleared_is_not_recent(now: u64, within_ms: u64)
    ensures
        !recently_hidden_spec(0, now, within_ms),
{
}

/// A hide recorded at a nonzero time `t` is recent exactly while less than
/// `within_ms` milliseconds have passed since `t`.
pub proof fn law_recent_within_window(t: u64, now: u64, within_ms: u64)
    requires
        t != 0,
        t <= now,
    ensures
        recently_hidden_spec(t, now, within_ms) <==> now - t < within_ms,
{
}

/// What a left click on the tray icon does with the popup.
#[derive(Clone, Copy, Debug, PartialEq, Eq, Structural)]
pub enum ToggleAction {
    /// The popup was just hidden by the click itself taking focus away: the
    /// user meant to close it, so it stays hidden.
    KeepHidden,
    /// Hide the visible popup and record the hide.
    Hide,
    /// Show the hidden popup.
    Show,
}

/// What a click on the tray icon does, given whether the popup was hidden
/// within the last 450 ms and whether it is visible.
pub fn toggle_action(recently_hidden: bool, is_visible: bool) -> (a: ToggleAction)
    ensures
        recently_hidden ==> a == ToggleAction::KeepHidden,
        !recently_hidden && is_visible ==> a == ToggleAction::Hide,
        !recently_hidden && !is_visible ==> a == ToggleAction::Show,
{
    if recently_hidden {
        ToggleAction::KeepHidden
    } else if is_visible {
        ToggleAction::Hide
    } else {
        ToggleAction::Show
    }
}

/// How long the tray monitor sleeps before its next look: 40 ms while the
/// left button is down, else 100 ms.
pub fn monitor_sleep_ms(lbutton_down: bool) -> (ms: u64)
    ensures
        ms == if lbutton_down {
            40u64
        } else {
            100u64
        },
{
    if lbutton_down {
        40
    } else {
        100
    }
}

/// What the tray monitor sees on one look.
pub struct MonitorInput {
    /// Opening the popup by dragging over the tray is allowed.
    pub auto_show: bool,
    /// The left mouse button is held down.
    pub lbutton_down: bool,
    /// The popup is visible.
    pub window_visible: bool,
    /// The popup was hidden within the last 600 ms.
    pub recently_hidden: bool,
    /// The cursor position was read and lies over the tray.
    pub cursor_in_tray: bool,
    /// A monotonic clock reading, in milliseconds.
    pub now_millis: u64,
}

/// The monitor's hover start after one look, and whether to show the popup.
pub open spec fn monitor_step_spec(hover_start: Option<u64>, input: MonitorInput) -> (
    Option<u64>,
    bool,
) {
    if !input.auto_show || !input.lbutton_down || input.window_visible || input.recently_hidden
        || !input.cursor_in_tray {
        (None, false)
    } else {
        match hover_start {
            None => (Some(input.now_millis), false),
            Some(start) => if saturating_diff(input.now_millis, start) >= 200 {
                (None, true)
            } else {
                (Some(start), false)
            },
        }
    }
}

/// One look of the tray monitor: a drag that has hovered over the tray for
/// at least 200 ms with the button held, while the popup is hidden and was
/// not hidden in the last 600 ms, opens the popup. Returns the new hover
/// start and whether to show the popup.
pub fn tray_monitor_step(hover_start: Option<u64>, input: &MonitorInput) -> (r: (
    Option<u64>,
    bool,
))
    ensures
        r == monitor_step_spec(hover_start, *input),
{
    if !input.auto_show || !input.lbutton_down || input.window_visible || input.recently_hidden
        || !input.cursor_in_tray {
        return (None, false);
    }
    match hover_start {
        None => (Some(input.now_millis), false),
        Some(start) => {
            if input.now_millis.saturating_sub(start) >= 200 {
                (None, true)
            } else {
                (Some(start), false)
            }
        },
    }
}

/// The popup opens only after a hover of at least 200 ms began on an
/// earlier look, and opening resets the hover; it never opens while it is
/// visible, was hidden in the last 600 ms, or opening on hover is off.
pub proof fn law_monitor_shows_after_dwell(hover_start: Option<u64>, input: MonitorInput)
    ensures
        (input.window_visible || input.recently_hidden || !input.auto_show)
            ==> !monitor_step_spec(hover_start, input).1,
        monitor_step_spec(hover_start, input).1 ==> hover_start is Some && saturating_diff(
            input.now_millis,
            hover_start->0,
        ) >= 200 && monitor_step_spec(hover_start, input).0 is None,
{
}


/// Every condition for opening the popup holds at a look: opening on hover
/// is allowed, the button is held, the popup is hidden and was not hidden
/// in the last 600 ms, and the cursor is over the tray.
pub open spec fn monitor_ready(input: MonitorInput) -> bool {
    input.auto_show && input.lbutton_down && !input.window_visible && !input.recently_hidden
        && input.cursor_in_tray
}

/// The hover start after a run of looks that began with no hover.
pub open spec fn monitor_run(inputs: Seq<MonitorInput>) -> Option<u64>
    decreases inputs.len(),
{
    if inputs.len() == 0 {
        None
    } else {
        monitor_step_spec(monitor_run(inputs.drop_last()), inputs.last()).0
    }
}

proof fn lemma_monitor_hover_origin(inputs: Seq<MonitorInput>, m: int)
    requires
        0 <= m <= inputs.len(),
        monitor_run(inputs.take(m)) is Some,
    ensures
        exists|j: int|
            0 <= j < m && monitor_run(inputs.take(j)) is None && #[trigger] monitor_run(
                inputs.take(j + 1),
            ) == Some(inputs[j].now_millis) && monitor_run(inputs.take(m)) == Some(
                inputs[j].now_millis,
            ) && (forall|i: int| j <= i < m ==> monitor_ready(#[trigger] inputs[i])),
    decreases m,
{
    let t = inputs.take(m);
    assert(m > 0) by {
        if m == 0 {
            assert(t.len() == 0);
        }
    }
    assert(t.drop_last() =~= inputs.take(m - 1));
    assert(t.last() == inputs[m - 1]);
    let prev = monitor_run(inputs.take(m - 1));
    let input = inputs[m - 1];
    assert(monitor_ready(input));
    match prev {
        None => {
            assert(monitor_run(inputs.take(m)) == Some(input.now_millis));
            assert forall|i: int| m - 1 <= i < m implies monitor_ready(#[trigger] inputs[i]) by {
                assert(i == m - 1);
            }
            assert(monitor_run(inputs.take(m - 1 + 1)) == Some(inputs[m - 1].now_millis));
        },
        Some(start) => {
            lemma_monitor_hover_origin(inputs, m - 1);
            let j = choose|j: int|
                0 <= j < m - 1 && monitor_run(inputs.take(j)) is None && #[trigger] monitor_run(
                    inputs.take(j + 1),
                ) == Some(inputs[j].now_millis) && monitor_run(inputs.take(m - 1)) == Some(
                    inputs[j].now_millis,
                ) && (forall|i: int| j <= i < m - 1 ==> monitor_ready(#[trigger] inputs[i]));
            assert(monitor_run(inputs.take(m)) == Some(start));
            assert forall|i: int| j <= i < m implies monitor_ready(#[trigger] inputs[i]) by {
                if i == m - 1 {
                }
            }
        },
    }
}

/// Over any run of looks that began with no hover, the popup opens at look
/// `k` only if every condition for opening held at each look since a hover
/// that began at an earlier look `j`, at least 200 ms before look `k`.
pub proof fn law_monitor_run_opens_after_dwell(inputs: Seq<MonitorInput>, k: int)
    requires
        0 <= k < inputs.len(),
        monitor_step_spec(monitor_run(inputs.take(k)), inputs[k]).1,
    ensures
        exists|j: int|
            0 <= j < k && monitor_run(inputs.take(j)) is None && #[trigger] monitor_run(
                inputs.take(j + 1),
            ) == Some(inputs[j].now_millis) && (forall|i: int|
                j <= i <= k ==> monitor_ready(#[trigger] inputs[i])) && saturating_diff(
                inputs[k].now_millis,
                inputs[j].now_millis,
            ) >= 200,
{
    lemma_monitor_hover_origin(inputs, k);
    let j = choose|j: int|
        0 <= j < k && monitor_run(inputs.take(j)) is None && #[trigger] monitor_run(
            inputs.take(j + 1),
        ) == Some(inputs[j].now_millis) && monitor_run(inputs.take(k)) == Some(inputs[j].now_millis)
            && (forall|i: int| j <= i < k ==> monitor_ready(#[trigger] inputs[i]));
    assert forall|i: int| j <= i <= k implies monitor_ready(#[trigger] inputs[i]) by {
        if i == k {
        }
    }
}

} // verus!
