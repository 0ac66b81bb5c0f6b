//! The popup drawer's own state and the decisions it takes each frame:
//! visibility and focus tracking, hiding on blur, drag-and-drop reordering,
//! which shortcuts match the search, and how titles and window styles are
//! shaped.
use vstd::prelude::*;
use crate::config::{AppConfig, ShortcutItem, move_spec, with_items};
use crate::text::{
    chars_of, contains_seq, push_char, str_contains, string_from_chars, to_lowercase, trim,
    trim_spec, unicode_lowercase,
};

verus! {

/// What the drawer remembers from frame to frame, apart from its
/// configuration and the window-system objects it holds.
pub struct DrawerState {
    pub search_query: String,
    pub dragged_index: Option<usize>,
    pub drag_target_index: Option<usize>,
    pub is_reordering: bool,
    pub just_dropped: bool,
    pub show_settings: bool,
    pub has_gained_focus: bool,
    pub last_focus_state: Option<bool>,
    pub frame_count: u64,
    pub is_visible: bool,
}

impl DrawerState {
    /// The state of a freshly opened drawer: visible, empty search, nothing
    /// dragged, focus not yet gained.
    pub fn new() -> (s: DrawerState)
        ensures
            s.search_query@.len() == 0,
            s.dragged_index is None,
            s.drag_target_index is None,
            !s.is_reordering,
            !s.just_dropped,
            !s.show_settings,
            !s.has_gained_focus,
            s.last_focus_state is None,
            s.frame_count == 0,
            s.is_visible,
    {
        DrawerState {
            search_query: String::new(),
            dragged_index: None,
            drag_target_index: None,
            is_reordering: false,
            just_dropped: false,
            show_settings: false,
            has_gained_focus: false,
            last_focus_state: None,
            frame_count: 0,
            is_visible: true,
        }
    }

    /// Counts a frame.
    pub fn begin_frame(&mut self)
        requires
            old(self).frame_count < u64::MAX,
        ensures
            *final(self) == (DrawerState {
                frame_count: (old(self).frame_count + 1) as u64,
                ..*old(self)
            }),
    {
        self.frame_count = self.frame_count + 1;
    }

    /// Takes the window's visibility from the system. Returns whether the
    /// window has just come back from the tray, in which case focus counts
    /// as not yet gained (and the caller restarts its launch clock).
    pub fn sync_visibility(&mut self, os_visible: bool) -> (reopened: bool)
        ensures
            reopened == (!old(self).is_visible && os_visible),
            *final(self) == (DrawerState {
                is_visible: os_visible,
                has_gained_focus: if reopened {
                    false
                } else {
                    old(self).has_gained_focus
                },
                ..*old(self)
            }),
    {
        let reopened = !self.is_visible && os_visible;
        if reopened {
            self.has_gained_focus = false;
        }
        self.is_visible = os_visible;
        reopened
    }

    /// Marks the drawer hidden to the tray.
    pub fn mark_hidden(&mut self)
        ensures
            *final(self) == (DrawerState { is_visible: false, ..*old(self) }),
    {
        self.is_visible = false;
    }

    /// Takes the window's focus for this frame. Returns whether it differs
    /// from the focus last seen; once focused, focus counts as gained.
    pub fn note_focus(&mut self, is_focused: bool) -> (changed: bool)
        ensures
            changed == (old(self).last_focus_state != Some(is_focused)),
            *final(self) == (DrawerState {
                last_focus_state: Some(is_focused),
                has_gained_focus: old(self).has_gained_focus || is_focused,
                ..*old(self)
            }),
    {
        let changed = match self.last_focus_state {
            Some(f) => f != is_focused,
            None => true,
        };
        self.last_focus_state = Some(is_focused);
        if is_focused {
            self.has_gained_focus = true;
        }
        changed
    }

    /// Notes files dropped onto the window from outside: any drop counts as
    /// a drop that a click must not follow.
    pub fn note_external_drop(&mut self, dropped_count: usize)
        ensures
            *final(self) == (DrawerState {
                just_dropped: old(self).just_dropped || dropped_count > 0,
                ..*old(self)
            }),
    {
        if dropped_count > 0 {
            self.just_dropped = true;
        }
    }

    /// Clears the just-dropped mark once the pointer is no longer being
    /// released and no files are being dropped.
    pub fn settle_drop(&mut self, any_released: bool, files_dropped: bool)
        ensures
            *final(self) == (DrawerState {
                just_dropped: if !any_released && !files_dropped {
                    false
                } else {
                    old(self).just_dropped
                },
                ..*old(self)
            }),
    {
        if !any_released && !files_dropped {
            self.just_dropped = false;
        }
    }

    /// Whether the drawer hides itself because it lost focus: only when
    /// hiding on blur is enabled, the settings are closed, the user is not
    /// interacting with the window, it is not the foreground window, and
    /// either focus was gained and more than 200 ms passed since it opened,
    /// or more than 600 ms passed.
    pub fn should_hide_on_blur(
        &self,
        auto_exit_on_blur: bool,
        is_active_interaction: bool,
        is_foreground: bool,
        elapsed_ms: u128,
    ) -> (r: bool)
        ensures
            r == (auto_exit_on_blur && !self.show_settings && !is_active_interaction
                && !is_foreground && ((self.has_gained_focus && elapsed_ms > 200) || elapsed_ms
                > 600)),
    {
        auto_exit_on_blur && !self.show_settings && !is_active_interaction && !is_foreground && (
        (self.has_gained_focus && elapsed_ms > 200) || elapsed_ms > 600)
    }

    /// Whether the user is interacting with the drawer: a button is down, a
    /// shortcut is dragged or a reorder is under way or the pointer is
    /// dragging, files hover over the window, or the cursor is inside it.
    pub fn is_active_interaction(
        &self,
        mouse_down: bool,
        pointer_dragging: bool,
        hovering_files: bool,
        cursor_inside: bool,
    ) -> (r: bool)
        ensures
            r == (mouse_down || self.dragged_index is Some || self.is_reordering
                || pointer_dragging || hovering_files || cursor_inside),
    {
        mouse_down || self.dragged_index.is_some() || self.is_reordering || pointer_dragging
            || hovering_files || cursor_inside
    }

    /// Takes the pointer's dealings with the shortcut at `index` this frame:
    /// a drag that starts on it makes it the dragged one, any drag marks a
    /// reorder under way, and hovering over it while another one is dragged
    /// makes it the drop target.
    pub fn note_item_response(
        &mut self,
        index: usize,
        drag_started: bool,
        dragged: bool,
        hovered: bool,
    )
        ensures
            *final(self) == (DrawerState {
                dragged_index: if drag_started {
                    Some(index)
                } else {
                    old(self).dragged_index
                },
                is_reordering: old(self).is_reordering || drag_started || dragged,
                drag_target_index: if final(self).dragged_index is Some
                    && final(self).dragged_index != Some(index) && hovered {
                    Some(index)
                } else {
                    old(self).drag_target_index
                },
                ..*old(self)
            }),
    {
        if drag_started {
            self.dragged_index = Some(index);
            self.is_reordering = true;
        }
        if dragged {
            self.is_reordering = true;
        }
        let other_dragged = match self.dragged_index {
            Some(d) => d != index,
            None => false,
        };
        if other_dragged && hovered {
            self.drag_target_index = Some(index);
        }
    }

    /// Whether a click on a shortcut launches it: not right after a drop,
    /// not during a reorder, and not while anything is being dragged.
    pub fn click_launches(&self, clicked: bool, response_dragged: bool) -> (r: bool)
        ensures
            r == (clicked && !self.just_dropped && !self.is_reordering
                && self.dragged_index is None && !response_dragged),
    {
        clicked && !self.just_dropped && !self.is_reordering && self.dragged_index.is_none()
            && !response_dragged
    }

    /// Ends a drag when the pointer is released: a reorder with both a
    /// dragged shortcut and a drop target moves the dragged shortcut to the
    /// target's place and marks a drop; the drag is then forgotten. Returns
    /// whether the shortcuts changed.
    pub fn finish_pointer_release(&mut self, config: &mut AppConfig) -> (moved: bool)
        ensures
            *final(self) == (DrawerState {
                dragged_index: None,
                drag_target_index: None,
                is_reordering: false,
                just_dropped: old(self).just_dropped || old(self).is_reordering,
                ..*old(self)
            }),
            (old(self).is_reordering && old(self).dragged_index is Some
                && old(self).drag_target_index is Some) ==> final(config)@ == with_items(
                old(config)@,
                move_spec(
                    old(config)@.items,
                    old(self).dragged_index->0 as int,
                    old(self).drag_target_index->0 as int,
                ),
            ),
            !(old(self).is_reordering && old(self).dragged_index is Some
                && old(self).drag_target_index is Some) ==> final(config)@ == old(config)@,
            moved == (old(self).is_reordering && old(self).dragged_index is Some
                && old(self).drag_target_index is Some && old(self).dragged_index->0
                < old(config)@.items.len() && old(self).drag_target_index->0
                < old(config)@.items.len() && old(self).dragged_index->0
                != old(self).drag_target_index->0),
    {
        let mut moved = false;
        if self.is_reordering {
            match (self.dragged_index, self.drag_target_index) {
                (Some(from), Some(to)) => {
                    let n = config.items.len();
                    config.move_item(from, to);
                    moved = from < n && to < n && from != to;
                },
                _ => {},
            }
            self.just_dropped = true;
            self.is_reordering = false;
        }
        self.dragged_index = None;
        self.drag_target_index = None;
        moved
    }
}

/// Whether the shortcut with lowercase name `name_lower` and lowercase path
/// `path_lower` matches the lowercase search `query_lower`: an empty search
/// matches everything, else the name or the path must contain it.
pub open spec fn item_matches(name_lower: Seq<char>, path_lower: Seq<char>, query_lower: Seq<
    char,
>) -> bool {
    query_lower.len() == 0 || contains_seq(name_lower, query_lower) || contains_seq(
        path_lower,
        query_lower,
    )
}

/// The positions, in increasing order, of the first `n` entries that
/// satisfy `pred`.
pub open spec fn selected_indices(pred: spec_fn(int) -> bool, n: int) -> Seq<usize>
    decreases n,
{
    if n <= 0 {
        Seq::<usize>::empty()
    } else if pred(n - 1) {
        selected_indices(pred, n - 1).push((n - 1) as usize)
    } else {
        selected_indices(pred, n - 1)
    }
}

/// The positions of the shortcuts, given their lowercase names and paths,
/// that match the lowercase search `query_lower`, in increasing order.
pub fn select_matching(
    names_lower: &Vec<String>,
    paths_lower: &Vec<String>,
    query_lower: &str,
) -> (r: Vec<usize>)
    requires
        names_lower.len() == paths_lower.len(),
    ensures
        r@ == selected_indices(
            |i: int| item_matches(names_lower@[i]@, paths_lower@[i]@, query_lower@),
            names_lower.len() as int,
        ),
{
    let ghost pred = |i: int| item_matches(names_lower@[i]@, paths_lower@[i]@, query_lower@);
    let q = chars_of(query_lower);
    let mut r: Vec<usize> = Vec::new();
    let mut i: usize = 0;
    while i < names_lower.len()
        invariant
            i <= names_lower.len(),
            names_lower.len() == paths_lower.len(),
            q@ == query_lower@,
            pred == (|i: int| item_matches(names_lower@[i]@, paths_lower@[i]@, query_lower@)),
            r@ == selected_indices(pred, i as int),
        decreases names_lower.len() - i,
    {
        let m = q.len() == 0 || str_contains(names_lower[i].as_str(), query_lower) || str_contains(
            paths_lower[i].as_str(),
            query_lower,
        );
        assert(m == pred(i as int));
        if m {
            r.push(i);
        }
        i = i + 1;
    }
    r
}

/// The positions of the shortcuts that match the search `query`, in
/// increasing order: the search is trimmed and case folded, and matches a
/// shortcut whose case-folded name or path contains it (an empty search
/// matches every shortcut).
pub fn matching_indices(items: &Vec<ShortcutItem>, query: &str) -> (r: Vec<usize>)
    ensures
        r@ == selected_indices(
            |i: int|
                item_matches(
                    unicode_lowercase(items@[i]@.name),
                    unicode_lowercase(items@[i]@.path),
                    unicode_lowercase(trim_spec(query@)),
                ),
            items.len() as int,
        ),
{
    let trimmed = trim(query);
    let query_lower = to_lowercase(trimmed.as_str());
    let mut names: Vec<String> = Vec::new();
    let mut paths: Vec<String> = Vec::new();
    let mut i: usize = 0;
    while i < items.len()
        invariant
            i <= items.len(),
            names.len() == i,
            paths.len() == i,
            forall|j: int|
                0 <= j < i ==> #[trigger] names@[j]@ == unicode_lowercase(items@[j]@.name)
                    && paths@[j]@ == unicode_lowercase(items@[j]@.path),
        decreases items.len() - i,
    {
        names.push(to_lowercase(items[i].name.as_str()));
        paths.push(to_lowercase(items[i].path.as_str()));
        i = i + 1;
    }
    let r = select_matching(&names, &paths, query_lower.as_str());
    proof {
        let p1 = |j: int| item_matches(names@[j]@, paths@[j]@, query_lower@);
        let p2 = |j: int|
            item_matches(
                unicode_lowercase(items@[j]@.name),
                unicode_lowercase(items@[j]@.path),
                unicode_lowercase(trim_spec(query@)),
            );
        lemma_selected_indices_ext(p1, p2, items.len() as int);
    }
    r
}

proof fn lemma_selected_indices_ext(p: spec_fn(int) -> bool, q: spec_fn(int) -> bool, n: int)
    requires
        forall|i: int| 0 <= i < n ==> #[trigger] p(i) == q(i),
    ensures
        selected_indices(p, n) == selected_indices(q, n),
    decreases n,
{
    if n > 0 {
        lemma_selected_indices_ext(p, q, n - 1);
    }
}

/// Every position chosen by `selected_indices` is below `n` and satisfies
/// the predicate, and the positions rise strictly.
pub proof fn law_selected_indices_sound(pred: spec_fn(int) -> bool, n: int)
    requires
        n <= usize::MAX,
    ensures
        forall|k: int|
            0 <= k < selected_indices(pred, n).len() ==> (#[trigger] selected_indices(pred, n)[k]
                as int) < n && pred(selected_indices(pred, n)[k] as int),
        forall|k: int, l: int|
            0 <= k < l < selected_indices(pred, n).len() ==> selected_indices(pred, n)[k]
                < selected_indices(pred, n)[l],
        forall|i: int|
            0 <= i < n && #[trigger] pred(i) ==> selected_indices(pred, n).contains(i as usize),
    decreases n,
{
    if n > 0 {
        law_selected_indices_sound(pred, n - 1);
        let prev = selected_indices(pred, n - 1);
        if pred(n - 1) {
            let cur = prev.push((n - 1) as usize);
            assert forall|i: int| 0 <= i < n && #[trigger] pred(i) implies cur.contains(i as usize) by {
                if i < n - 1 {
                    let k = choose|k: int| 0 <= k < prev.len() && prev[k] == i as usize;
                    assert(cur[k] == i as usize);
                } else {
                    assert(cur[prev.len() as int] == i as usize);
                }
            }
        }
    }
}

/// The search keeps, in increasing order, exactly the shortcuts whose
/// case-folded name or case-folded path contains the trimmed, case-folded
/// search: a non-empty search keeps no shortcut in which it does not occur,
/// and only an empty search keeps every shortcut.
pub proof fn law_search_results(items: Seq<ShortcutItem>, query: Seq<char>)
    requires
        items.len() <= usize::MAX,
    ensures
        ({
            let q = unicode_lowercase(trim_spec(query));
            let r = selected_indices(
                |i: int|
                    item_matches(
                        unicode_lowercase(items[i]@.name),
                        unicode_lowercase(items[i]@.path),
                        q,
                    ),
                items.len() as int,
            );
            &&& forall|k: int|
                0 <= k < r.len() ==> (#[trigger] r[k] as int) < items.len() && (q.len() > 0 ==> (
                (exists|j: int|
                    0 <= j && j + q.len() <= unicode_lowercase(items[r[k] as int]@.name).len()
                        && #[trigger] unicode_lowercase(items[r[k] as int]@.name).subrange(
                        j,
                        j + q.len(),
                    ) == q) || (exists|j: int|
                    0 <= j && j + q.len() <= unicode_lowercase(items[r[k] as int]@.path).len()
                        && #[trigger] unicode_lowercase(items[r[k] as int]@.path).subrange(
                        j,
                        j + q.len(),
                    ) == q)))
            &&& forall|i: int|
                #![trigger items[i]]
                0 <= i < items.len() && (q.len() == 0 || (exists|j: int|
                    0 <= j && j + q.len() <= unicode_lowercase(items[i]@.name).len()
                        && #[trigger] unicode_lowercase(items[i]@.name).subrange(j, j + q.len())
                        == q) || (exists|j: int|
                    0 <= j && j + q.len() <= unicode_lowercase(items[i]@.path).len()
                        && #[trigger] unicode_lowercase(items[i]@.path).subrange(j, j + q.len())
                        == q)) ==> r.contains(i as usize)
            &&& forall|k: int, l: int| 0 <= k < l < r.len() ==> r[k] < r[l]
        }),
{
    let q = unicode_lowercase(trim_spec(query));
    let pred = |i: int|
        item_matches(unicode_lowercase(items[i]@.name), unicode_lowercase(items[i]@.path), q);
    law_selected_indices_sound(pred, items.len() as int);
    let r = selected_indices(pred, items.len() as int);
    assert forall|i: int|
        #![trigger items[i]]
        0 <= i < items.len() && (q.len() == 0 || (exists|j: int|
            0 <= j && j + q.len() <= unicode_lowercase(items[i]@.name).len()
                && #[trigger] unicode_lowercase(items[i]@.name).subrange(j, j + q.len()) == q) || (
        exists|j: int|
            0 <= j && j + q.len() <= unicode_lowercase(items[i]@.path).len()
                && #[trigger] unicode_lowercase(items[i]@.path).subrange(j, j + q.len()) == q))
        implies r.contains(i as usize) by {
        assert(pred(i));
    }
}

/// A shortcut title as shown under a grid icon: names longer than seven
/// characters are cut to their first six and `...`.
pub open spec fn truncated_title(name: Seq<char>) -> Seq<char> {
    if name.len() > 7 {
        name.take(6) + "..."@
    } else {
        name
    }
}

/// The title shown under a shortcut's grid icon.
pub fn truncate_title(name: &str) -> (r: String)
    ensures
        r@ == truncated_title(name@),
{
    let v = chars_of(name);
    if v.len() <= 7 {
        return string_from_chars(&v);
    }
    let mut head: Vec<char> = Vec::new();
    let mut i: usize = 0;
    while i < 6
        invariant
            i <= 6,
            v.len() > 7,
            head@ =~= v@.take(i as int),
        decreases 6 - i,
    {
        head.push(v[i]);
        i = i + 1;
    }
    let mut out = string_from_chars(&head);
    push_char(&mut out, '.');
    push_char(&mut out, '.');
    push_char(&mut out, '.');
    proof {
        reveal_strlit("...");
        assert(out@ =~= v@.take(6) + "..."@);
    }
    out
}

/// Whether the point (`x`, `y`) lies in the rectangle from (`left`, `top`)
/// to (`right`, `bottom`), edges included.
pub fn point_in_rect(x: i32, y: i32, left: i32, top: i32, right: i32, bottom: i32) -> (r: bool)
    ensures
        r == (left <= x <= right && top <= y <= bottom),
{
    x >= left && x <= right && y >= top && y <= bottom
}

/// The window style bit that puts a window on the taskbar.
pub const WS_EX_APPWINDOW: i32 = 0x0004_0000;

/// The window style bit of a tool window, which stays off the taskbar.
pub const WS_EX_TOOLWINDOW: i32 = 0x0000_0080;

/// The extended window style of the popup: the given style with the
/// taskbar bit cleared and the tool-window bit set, every other bit kept.
pub fn flyout_ex_style(style: i32) -> (r: i32)
    ensures
        r & WS_EX_APPWINDOW == 0,
        r & WS_EX_TOOLWINDOW == WS_EX_TOOLWINDOW,
        r & !(WS_EX_APPWINDOW | WS_EX_TOOLWINDOW) == style & !(WS_EX_APPWINDOW
            | WS_EX_TOOLWINDOW),
{
    let r = (style & !WS_EX_APPWINDOW) | WS_EX_TOOLWINDOW;
    assert(r & 0x0004_0000i32 == 0) by (bit_vector)
        requires
            r == (style & !0x0004_0000i32) | 0x0000_0080i32,
    ;
    assert(r & 0x0000_0080i32 == 0x0000_0080i32) by (bit_vector)
        requires
            r == (style & !0x0004_0000i32) | 0x0000_0080i32,
    ;
    assert(r & !(0x0004_0000i32 | 0x0000_0080i32) == style & !(0x0004_0000i32 | 0x0000_0080i32))
        by (bit_vector)
        requires
            r == (style & !0x0004_0000i32) | 0x0000_0080i32,
    ;
    r
}

/// The popup's size: the window's current size when the window rectangle
/// (left, top, right, bottom) was read and is larger than 100 by 100 pixels,
/// else the fallback size.
pub open spec fn popup_size_spec(rect: Option<(i32, i32, i32, i32)>, fallback_w: i32, fallback_h: i32) -> (i32, i32) {
    match rect {
        Some((l, t, r, b)) => if r - l > 100 && b - t > 100 {
            ((r - l) as i32, (b - t) as i32)
        } else {
            (fallback_w, fallback_h)
        },
        None => (fallback_w, fallback_h),
    }
}

/// The popup's size from the window rectangle, if it was read, and a
/// fallback size.
pub fn popup_window_size(rect: Option<(i32, i32, i32, i32)>, fallback_w: i32, fallback_h: i32) -> (r: (i32, i32))
    requires
        rect matches Some((l, t, r, b)) ==> i32::MIN <= r - l <= i32::MAX && i32::MIN <= b - t
            <= i32::MAX,
    ensures
        r == popup_size_spec(rect, fallback_w, fallback_h),
{
    match rect {
        Some((l, t, r, b)) => {
            let rw = r - l;
            let rh = b - t;
            if rw > 100 && rh > 100 {
                (rw, rh)
            } else {
                (fallback_w, fallback_h)
            }
        },
        None => (fallback_w, fallback_h),
    }
}

} // verus!
