//! Windows: per-window state, the unmapped pool, and handles that query and
//! steer windows through the core state.
use crate::geometry::{Point, Rect, Size};
use crate::state::{ids_of_tags, ids_of_windows, Pinnacle};
use crate::tag_set::{tag_ids, tag_set_get_index, tag_set_len};
use indexmap::IndexSet;
use vstd::prelude::*;

verus! {

/// A window's layout mode.
#[derive(Clone, Copy, Debug, PartialEq, Eq, Structural)]
pub enum LayoutMode {
    /// The window is tiled.
    Tiled,
    /// The window is floating.
    Floating,
    /// The window is fullscreen.
    Fullscreen,
    /// The window is maximized.
    Maximized,
    /// The window is spilled from the layout.
    Spilled,
}

/// A mode for window decorations (titlebar, shadows, etc).
#[derive(Clone, Copy, Debug, PartialEq, Eq, Structural)]
pub enum DecorationMode {
    /// The client should draw its own decorations.
    ClientSide,
    /// The server should draw decorations.
    ServerSide,
}

/// A demand for variable refresh rate on an output.
#[derive(Clone, Copy, Debug, PartialEq, Eq, Structural)]
pub struct VrrDemand {
    /// Whether the window must be fullscreen for vrr to turn on.
    pub fullscreen: bool,
}

impl Default for VrrDemand {
    /// A demand that turns on vrr when the window is visible.
    fn default() -> (r: Self)
        ensures
            !r.fullscreen,
    {
        VrrDemand { fullscreen: false }
    }
}

impl VrrDemand {
    /// Creates a [`VrrDemand`] that turns on vrr when a window is visible.
    pub fn when_visible() -> (r: Self)
        ensures
            !r.fullscreen,
    {
        VrrDemand { fullscreen: false }
    }

    /// Creates a [`VrrDemand`] that turns on vrr when a window is both
    /// visible *and* fullscreen.
    pub fn when_fullscreen() -> (r: Self)
        ensures
            r.fullscreen,
    {
        VrrDemand { fullscreen: true }
    }
}

/// The state of one client toplevel.
pub struct WindowState {
    pub id: u32,
    /// The window's tags; the first is its primary tag.
    pub tags: IndexSet<u32>,
    pub layout_mode: LayoutMode,
    /// Whether the mode under fullscreen or maximized is floating.
    pub floating_base: bool,
    /// Where the window stands in the global space, when it is there.
    pub geometry: Option<Rect>,
    /// The geometry it takes when floating.
    pub floating_geometry: Option<Rect>,
    pub minimized: bool,
    pub title: Option<String>,
    pub app_id: Option<String>,
    pub decoration_mode: Option<DecorationMode>,
    pub vrr_demand: Option<VrrDemand>,
    pub foreign_toplevel_identifier: Option<String>,
    /// An X11 override-redirect surface (menus, tooltips).
    pub override_redirect: bool,
    /// The smallest size the client accepts.
    pub min_size: Option<Size>,
    /// The largest size the client accepts.
    pub max_size: Option<Size>,
}

/// Where an unmapped window stands on its way to being mapped.
#[derive(Clone, Copy, Debug, PartialEq, Eq, Structural)]
pub enum UnmappedState {
    /// The window has no tags yet.
    WaitingForTags,
    /// Tags are bound; window rules have been asked for.
    WaitingForRules,
    /// Rules are applied and the initial configure is sent.
    PostInitialConfigure,
}

/// A window that has not committed a buffer yet.
pub struct UnmappedWindow {
    pub window: WindowState,
    pub state: UnmappedState,
    pub activation_token: Option<String>,
    /// The output the window is meant for, when it names one.
    pub target_output: Option<String>,
    /// The size the client is told it may use: its output's size.
    pub bounds: Option<Size>,
}

/// The size hints fix the size: minimum and maximum are set, equal and not
/// empty.
pub open spec fn fixed_size(min_size: Option<Size>, max_size: Option<Size>) -> bool {
    min_size is Some && min_size == max_size && min_size.unwrap().w > 0 && min_size.unwrap().h > 0
}

/// The window as it is mapped: a fixed-size window floats.
pub open spec fn as_mapped(w: WindowState) -> WindowState {
    if fixed_size(w.min_size, w.max_size) {
        WindowState { layout_mode: LayoutMode::Floating, floating_base: true, ..w }
    } else {
        w
    }
}

/// The layout mode a new window starts in, from its size hints: a window
/// whose minimum and maximum sizes are set and equal cannot be tiled, so it
/// floats; any other is tiled.
pub fn initial_layout_mode(min_size: Option<Size>, max_size: Option<Size>) -> (r: LayoutMode)
    ensures
        r == if fixed_size(min_size, max_size) {
            LayoutMode::Floating
        } else {
            LayoutMode::Tiled
        },
{
    match (min_size, max_size) {
        (Some(a), Some(b)) => if a == b && a.w > 0 && a.h > 0 {
            LayoutMode::Floating
        } else {
            LayoutMode::Tiled
        },
        _ => LayoutMode::Tiled,
    }
}

/// A handle to a window, by id.
#[derive(Clone, Copy, Debug, PartialEq, Eq, Structural)]
pub struct WindowHandle {
    pub id: u32,
}

/// The layout mode that leaving fullscreen or maximized returns to.
pub open spec fn base_mode(floating_base: bool) -> LayoutMode {
    if floating_base {
        LayoutMode::Floating
    } else {
        LayoutMode::Tiled
    }
}

/// The index of the mapped window `id`, when there is one.
pub open spec fn window_pos(s: Pinnacle, id: u32) -> Option<int> {
    if exists|k: int| 0 <= k < s.windows@.len() && #[trigger] s.windows@[k].id == id {
        Some(choose|k: int| 0 <= k < s.windows@.len() && #[trigger] s.windows@[k].id == id)
    } else {
        None
    }
}

/// The layout mode of window `id`; tiled for a window that is not mapped.
pub open spec fn layout_mode_of(s: Pinnacle, id: u32) -> LayoutMode {
    match window_pos(s, id) {
        Some(k) => s.windows@[k].layout_mode,
        None => LayoutMode::Tiled,
    }
}

/// `s1` is `s0` with the layout mode of the mapped window `id` set to `m`
/// (and, for tiled or floating, the mode it returns to).
pub open spec fn mode_set(s0: Pinnacle, s1: Pinnacle, id: u32, m: LayoutMode) -> bool {
    match window_pos(s0, id) {
        Some(k) => {
            &&& s1.windows@.len() == s0.windows@.len()
            &&& forall|j: int| 0 <= j < s0.windows@.len() && j != k ==> #[trigger] s1.windows@[j] == s0.windows@[j]
            &&& s1.windows@[k].id == id
            &&& s1.windows@[k].tags == s0.windows@[k].tags
            &&& s1.windows@[k].layout_mode == m
            &&& s1.windows@[k].floating_base == match m {
                LayoutMode::Floating => true,
                LayoutMode::Tiled => false,
                _ => s0.windows@[k].floating_base,
            }
            &&& s1.outputs == s0.outputs
            &&& s1.tags == s0.tags
            &&& s1.unmapped_windows == s0.unmapped_windows
            &&& s1.keyboard_focus_stack == s0.keyboard_focus_stack
            &&& s1.next_tag_id == s0.next_tag_id
        },
        None => s1 == s0,
    }
}

/// Finds window `id` in a well-formed state.
fn lookup(state: &Pinnacle, id: u32) -> (r: Option<usize>)
    requires
        state.wf(),
    ensures
        match r {
            Some(k) => window_pos(*state, id) == Some(k as int),
            None => window_pos(*state, id) is None,
        },
        r matches Some(k) ==> k < state.windows@.len() && state.windows@[k as int].id == id,
{
    let r = state.window_index(id);
    proof {
        lemma_window_pos_unique(*state, id);
        if r.is_none() {
            if exists|k: int| 0 <= k < state.windows@.len() && #[trigger] state.windows@[k].id == id {
                let k = choose|k: int| 0 <= k < state.windows@.len() && #[trigger] state.windows@[k].id == id;
                assert(ids_of_windows(state.windows@)[k] == id);
            }
        }
    }
    r
}

/// In a well-formed state a window id is at one index at most.
pub proof fn lemma_window_pos_unique(s: Pinnacle, id: u32)
    requires
        s.wf(),
    ensures
        forall|k: int| 0 <= k < s.windows@.len() && #[trigger] s.windows@[k].id == id ==> window_pos(s, id) == Some(k),
{
    assert forall|k: int| 0 <= k < s.windows@.len() && #[trigger] s.windows@[k].id == id implies window_pos(s, id) == Some(k) by {
        let c = choose|c: int| 0 <= c < s.windows@.len() && #[trigger] s.windows@[c].id == id;
        let all = ids_of_windows(s.windows@) + crate::state::ids_of_unmapped(s.unmapped_windows@);
        assert(all[k] == id && all[c] == id);
    }
}

/// Sets the layout mode of window `k` in place.
fn put_mode(state: &mut Pinnacle, k: usize, m: LayoutMode, id: u32)
    requires
        old(state).wf(),
        k < old(state).windows@.len(),
        old(state).windows@[k as int].id == id,
    ensures
        final(state).wf(),
        mode_set(*old(state), *final(state), id, m),
{
    proof {
        lemma_window_pos_unique(*state, id);
    }
    let ghost s0 = *state;
    state.windows[k].layout_mode = m;
    match m {
        LayoutMode::Floating => state.windows[k].floating_base = true,
        LayoutMode::Tiled => state.windows[k].floating_base = false,
        _ => {},
    }
    proof {
        assert(ids_of_windows(state.windows@) =~= ids_of_windows(s0.windows@));
        crate::state::lemma_wf_frame(s0, *state);
    }
}

impl WindowHandle {
    /// The window's id.
    pub fn id(&self) -> (r: u32)
        ensures
            r == self.id,
    {
        self.id
    }

    /// A handle to the window with id `id`.
    pub fn from_id(id: u32) -> (r: Self)
        ensures
            r.id == id,
    {
        WindowHandle { id }
    }

    /// The window's layout mode; tiled for a window that is not mapped.
    pub fn layout_mode(&self, state: &Pinnacle) -> (r: LayoutMode)
        requires
            state.wf(),
        ensures
            r == layout_mode_of(*state, self.id),
    {
        match lookup(state, self.id) {
            Some(k) => state.windows[k].layout_mode,
            None => LayoutMode::Tiled,
        }
    }

    /// Whether the window is floating.
    pub fn floating(&self, state: &Pinnacle) -> (r: bool)
        requires
            state.wf(),
        ensures
            r == (layout_mode_of(*state, self.id) == LayoutMode::Floating),
    {
        self.layout_mode(state) == LayoutMode::Floating
    }

    /// Whether the window is tiled.
    pub fn tiled(&self, state: &Pinnacle) -> (r: bool)
        requires
            state.wf(),
        ensures
            r == (layout_mode_of(*state, self.id) == LayoutMode::Tiled),
    {
        self.layout_mode(state) == LayoutMode::Tiled
    }

    /// Whether the window is spilled from the layout.
    pub fn spilled(&self, state: &Pinnacle) -> (r: bool)
        requires
            state.wf(),
        ensures
            r == (layout_mode_of(*state, self.id) == LayoutMode::Spilled),
    {
        self.layout_mode(state) == LayoutMode::Spilled
    }

    /// Whether the window is fullscreen.
    pub fn fullscreen(&self, state: &Pinnacle) -> (r: bool)
        requires
            state.wf(),
        ensures
            r == (layout_mode_of(*state, self.id) == LayoutMode::Fullscreen),
    {
        self.layout_mode(state) == LayoutMode::Fullscreen
    }

    /// Whether the window is maximized.
    pub fn maximized(&self, state: &Pinnacle) -> (r: bool)
        requires
            state.wf(),
        ensures
            r == (layout_mode_of(*state, self.id) == LayoutMode::Maximized),
    {
        self.layout_mode(state) == LayoutMode::Maximized
    }

    /// Sets the window floating (or tiled, with `false`).
    pub fn set_floating(&self, state: &mut Pinnacle, set: bool)
        requires
            old(state).wf(),
        ensures
            final(state).wf(),
            mode_set(*old(state), *final(state), self.id, if set { LayoutMode::Floating } else { LayoutMode::Tiled }),
    {
        if let Some(k) = lookup(state, self.id) {
            put_mode(state, k, if set { LayoutMode::Floating } else { LayoutMode::Tiled }, self.id);
        }
    }

    /// Marks the window spilled: it has no slot in the layout.
    pub fn set_spilled(&self, state: &mut Pinnacle)
        requires
            old(state).wf(),
        ensures
            final(state).wf(),
            mode_set(*old(state), *final(state), self.id, LayoutMode::Spilled),
    {
        if let Some(k) = lookup(state, self.id) {
            put_mode(state, k, LayoutMode::Spilled, self.id);
        }
    }

    /// Toggles the window between floating and tiled.
    pub fn toggle_floating(&self, state: &mut Pinnacle)
        requires
            old(state).wf(),
        ensures
            final(state).wf(),
            mode_set(*old(state), *final(state), self.id,
                if layout_mode_of(*old(state), self.id) == LayoutMode::Floating { LayoutMode::Tiled } else { LayoutMode::Floating }),
    {
        let set = !self.floating(state);
        self.set_floating(state, set);
    }

    /// Makes the window fullscreen; with `false`, a fullscreen window returns
    /// to tiled or floating, and any other is left as it is.
    pub fn set_fullscreen(&self, state: &mut Pinnacle, set: bool)
        requires
            old(state).wf(),
        ensures
            final(state).wf(),
            set ==> mode_set(*old(state), *final(state), self.id, LayoutMode::Fullscreen),
            !set && layout_mode_of(*old(state), self.id) == LayoutMode::Fullscreen ==> mode_set(
                *old(state), *final(state), self.id,
                base_mode(old(state).windows@[window_pos(*old(state), self.id).unwrap()].floating_base)),
            !set && layout_mode_of(*old(state), self.id) != LayoutMode::Fullscreen ==> *final(state) == *old(state),
    {
        self.set_overlay(state, set, LayoutMode::Fullscreen)
    }

    /// Toggles fullscreen.
    pub fn toggle_fullscreen(&self, state: &mut Pinnacle)
        requires
            old(state).wf(),
        ensures
            final(state).wf(),
            layout_mode_of(*old(state), self.id) != LayoutMode::Fullscreen ==> mode_set(*old(state), *final(state), self.id, LayoutMode::Fullscreen),
            layout_mode_of(*old(state), self.id) == LayoutMode::Fullscreen ==> mode_set(
                *old(state), *final(state), self.id,
                base_mode(old(state).windows@[window_pos(*old(state), self.id).unwrap()].floating_base)),
    {
        let set = !self.fullscreen(state);
        self.set_fullscreen(state, set);
    }

    /// Maximizes the window; with `false`, a maximized window returns to tiled
    /// or floating, and any other is left as it is.
    pub fn set_maximized(&self, state: &mut Pinnacle, set: bool)
        requires
            old(state).wf(),
        ensures
            final(state).wf(),
            set ==> mode_set(*old(state), *final(state), self.id, LayoutMode::Maximized),
            !set && layout_mode_of(*old(state), self.id) == LayoutMode::Maximized ==> mode_set(
                *old(state), *final(state), self.id,
                base_mode(old(state).windows@[window_pos(*old(state), self.id).unwrap()].floating_base)),
            !set && layout_mode_of(*old(state), self.id) != LayoutMode::Maximized ==> *final(state) == *old(state),
    {
        self.set_overlay(state, set, LayoutMode::Maximized)
    }

    /// Toggles maximized.
    pub fn toggle_maximized(&self, state: &mut Pinnacle)
        requires
            old(state).wf(),
        ensures
            final(state).wf(),
            layout_mode_of(*old(state), self.id) != LayoutMode::Maximized ==> mode_set(*old(state), *final(state), self.id, LayoutMode::Maximized),
            layout_mode_of(*old(state), self.id) == LayoutMode::Maximized ==> mode_set(
                *old(state), *final(state), self.id,
                base_mode(old(state).windows@[window_pos(*old(state), self.id).unwrap()].floating_base)),
    {
        let set = !self.maximized(state);
        self.set_maximized(state, set);
    }

    /// Enters `overlay` (fullscreen or maximized), or leaves it for the mode
    /// underneath.
    fn set_overlay(&self, state: &mut Pinnacle, set: bool, overlay: LayoutMode)
        requires
            old(state).wf(),
            overlay == LayoutMode::Fullscreen || overlay == LayoutMode::Maximized,
        ensures
            final(state).wf(),
            set ==> mode_set(*old(state), *final(state), self.id, overlay),
            !set && layout_mode_of(*old(state), self.id) == overlay ==> mode_set(
                *old(state), *final(state), self.id,
                base_mode(old(state).windows@[window_pos(*old(state), self.id).unwrap()].floating_base)),
            !set && layout_mode_of(*old(state), self.id) != overlay ==> *final(state) == *old(state),
    {
        if let Some(k) = lookup(state, self.id) {
            if set {
                put_mode(state, k, overlay, self.id);
            } else if state.windows[k].layout_mode == overlay {
                let base = if state.windows[k].floating_base { LayoutMode::Floating } else { LayoutMode::Tiled };
                put_mode(state, k, base, self.id);
            }
        }
    }
}

/// A string option's text; empty for `None`.
pub open spec fn text_or_empty(s: Option<String>) -> Seq<char> {
    match s {
        Some(t) => t@,
        None => Seq::empty(),
    }
}

impl WindowHandle {
    /// The window's title; empty when it has none or is not mapped.
    pub fn title(&self, state: &Pinnacle) -> (r: String)
        requires
            state.wf(),
        ensures
            r@ == match window_pos(*state, self.id) {
                Some(k) => text_or_empty(state.windows@[k].title),
                None => Seq::empty(),
            },
    {
        match lookup(state, self.id) {
            Some(k) => match &state.windows[k].title {
                Some(t) => t.clone(),
                None => String::new(),
            },
            None => String::new(),
        }
    }

    /// The window's app id; empty when it has none or is not mapped.
    pub fn app_id(&self, state: &Pinnacle) -> (r: String)
        requires
            state.wf(),
        ensures
            r@ == match window_pos(*state, self.id) {
                Some(k) => text_or_empty(state.windows@[k].app_id),
                None => Seq::empty(),
            },
    {
        match lookup(state, self.id) {
            Some(k) => match &state.windows[k].app_id {
                Some(t) => t.clone(),
                None => String::new(),
            },
            None => String::new(),
        }
    }

    /// Where the window stands in the global space, if it is there.
    pub fn loc(&self, state: &Pinnacle) -> (r: Option<Point>)
        requires
            state.wf(),
        ensures
            r == match window_pos(*state, self.id) {
                Some(k) => match state.windows@[k].geometry {
                    Some(g) => Some(g.loc),
                    None => None,
                },
                None => None,
            },
    {
        match lookup(state, self.id) {
            Some(k) => match state.windows[k].geometry {
                Some(g) => Some(g.loc),
                None => None,
            },
            None => None,
        }
    }

    /// The window's size, if it stands in the global space.
    pub fn size(&self, state: &Pinnacle) -> (r: Option<Size>)
        requires
            state.wf(),
        ensures
            r == match window_pos(*state, self.id) {
                Some(k) => match state.windows@[k].geometry {
                    Some(g) => Some(g.size),
                    None => None,
                },
                None => None,
            },
    {
        match lookup(state, self.id) {
            Some(k) => match state.windows[k].geometry {
                Some(g) => Some(g.size),
                None => None,
            },
            None => None,
        }
    }

    /// Whether the window has keyboard focus.
    pub fn focused(&self, state: &Pinnacle) -> (r: bool)
        ensures
            r == state.is_focused(self.id),
    {
        match state.current_focus() {
            Some(f) => f == self.id,
            None => false,
        }
    }

    /// The ids of the window's tags, primary first.
    pub fn tags(&self, state: &Pinnacle) -> (r: Vec<u32>)
        requires
            state.wf(),
        ensures
            r@ == match window_pos(*state, self.id) {
                Some(k) => tag_ids(state.windows@[k].tags),
                None => Seq::empty(),
            },
    {
        match lookup(state, self.id) {
            Some(k) => {
                let set = &state.windows[k].tags;
                let n = tag_set_len(set);
                let mut out: Vec<u32> = Vec::new();
                let mut i: usize = 0;
                while i < n
                    invariant
                        n == tag_ids(*set).len(),
                        i <= n,
                        out@ == tag_ids(*set).take(i as int),
                    decreases n - i,
                {
                    let t = match tag_set_get_index(set, i) {
                        Some(t) => t,
                        None => 0,
                    };
                    out.push(t);
                    proof {
                        assert(tag_ids(*set).take(i + 1) =~= tag_ids(*set).take(i as int).push(t));
                    }
                    i += 1;
                }
                proof {
                    assert(tag_ids(*set).take(n as int) =~= tag_ids(*set));
                }
                out
            },
            None => Vec::new(),
        }
    }

    /// The name of the output the window is on: the one holding its first tag.
    pub fn output(&self, state: &Pinnacle) -> (r: Option<String>)
        requires
            state.wf(),
        ensures
            match window_pos(*state, self.id) {
                Some(k) => match r {
                    Some(name) => exists|o: int| 0 <= o < state.outputs@.len()
                        && state.outputs@[o].name@ == name@
                        && tag_ids(state.windows@[k].tags).len() > 0
                        && state.output_has_tag(o, tag_ids(state.windows@[k].tags)[0]),
                    None => tag_ids(state.windows@[k].tags).len() == 0
                        || forall|o: int| 0 <= o < state.outputs@.len()
                            ==> !#[trigger] state.output_has_tag(o, tag_ids(state.windows@[k].tags)[0]),
                },
                None => r is None,
            },
    {
        match lookup(state, self.id) {
            Some(k) => match state.window_output(&state.windows[k]) {
                Some(o) => Some(state.outputs[o].name.clone()),
                None => None,
            },
            None => None,
        }
    }

    /// Whether one of the window's tags is active.
    pub fn is_on_active_tag(&self, state: &Pinnacle) -> (r: bool)
        requires
            state.wf(),
        ensures
            r == match window_pos(*state, self.id) {
                Some(k) => exists|i: int, j: int| 0 <= i < tag_ids(state.windows@[k].tags).len()
                    && 0 <= j < state.tags@.len()
                    && #[trigger] state.tags@[j].id == #[trigger] tag_ids(state.windows@[k].tags)[i]
                    && state.tags@[j].active,
                None => false,
            },
    {
        let k = match lookup(state, self.id) {
            Some(k) => k,
            None => return false,
        };
        let set = &state.windows[k].tags;
        let n = tag_set_len(set);
        let mut i: usize = 0;
        while i < n
            invariant
                state.wf(),
                k < state.windows@.len(),
                window_pos(*state, self.id) == Some(k as int),
                *set == state.windows@[k as int].tags,
                n == tag_ids(*set).len(),
                i <= n,
                forall|i2: int, j: int| 0 <= i2 < i && 0 <= j < state.tags@.len()
                    && #[trigger] state.tags@[j].id == #[trigger] tag_ids(*set)[i2] ==> !state.tags@[j].active,
            decreases n - i,
        {
            let t = match tag_set_get_index(set, i) {
                Some(t) => t,
                None => 0,
            };
            match state.find_tag(t) {
                Some(j) => {
                    if state.tags[j].active {
                        proof {
                            assert(state.tags@[j as int].id == tag_ids(*set)[i as int]);
                            assert(state.tags@[j as int].id == tag_ids(state.windows@[k as int].tags)[i as int]);

                        }
                        return true;
                    }
                    proof {
                        assert forall|j2: int| 0 <= j2 < state.tags@.len() && #[trigger] state.tags@[j2].id == t
                            implies !state.tags@[j2].active by {
                            assert(ids_of_tags(state.tags@)[j2] == ids_of_tags(state.tags@)[j as int]);
                        }
                    }
                },
                None => {
                    proof {
                        assert forall|j2: int| 0 <= j2 < state.tags@.len() && #[trigger] state.tags@[j2].id == t
                            implies !state.tags@[j2].active by {
                            assert(ids_of_tags(state.tags@)[j2] == t);
                        }
                    }
                },
            }
            i += 1;
        }
        false
    }

    /// The window's foreign-toplevel-list identifier.
    pub fn foreign_toplevel_list_identifier(&self, state: &Pinnacle) -> (r: Option<String>)
        requires
            state.wf(),
        ensures
            r == match window_pos(*state, self.id) {
                Some(k) => state.windows@[k].foreign_toplevel_identifier,
                None => None,
            },
    {
        match lookup(state, self.id) {
            Some(k) => match &state.windows[k].foreign_toplevel_identifier {
                Some(s) => Some(s.clone()),
                None => None,
            },
            None => None,
        }
    }

    /// Swaps this window's place in the window list (and so in the layout)
    /// with `target`'s. Nothing happens unless both are mapped.
    pub fn swap(&self, state: &mut Pinnacle, target: &WindowHandle)
        requires
            old(state).wf(),
        ensures
            final(state).wf(),
            match (window_pos(*old(state), self.id), window_pos(*old(state), target.id)) {
                (Some(a), Some(b)) => {
                    &&& final(state).windows@ == old(state).windows@.update(a, old(state).windows@[b]).update(b, old(state).windows@[a])
                    &&& final(state).outputs == old(state).outputs
                    &&& final(state).tags == old(state).tags
                    &&& final(state).unmapped_windows == old(state).unmapped_windows
                    &&& final(state).keyboard_focus_stack == old(state).keyboard_focus_stack
                },
                _ => *final(state) == *old(state),
            },
    {
        let a = match lookup(state, self.id) {
            Some(a) => a,
            None => return,
        };
        let b = match lookup(state, target.id) {
            Some(b) => b,
            None => return,
        };
        let ghost s0 = *state;
        if a != b {
            let (lo, hi) = if a < b { (a, b) } else { (b, a) };
            let w_hi = state.windows.remove(hi);
            let w_lo = state.windows.remove(lo);
            state.windows.insert(lo, w_hi);
            state.windows.insert(hi, w_lo);
            assert(state.windows@ =~= s0.windows@.update(a as int, s0.windows@[b as int]).update(b as int, s0.windows@[a as int]));
        } else {
            assert(state.windows@ =~= s0.windows@.update(a as int, s0.windows@[b as int]).update(b as int, s0.windows@[a as int]));
        }
        proof {
            let all0 = ids_of_windows(s0.windows@) + crate::state::ids_of_unmapped(s0.unmapped_windows@);
            let all1 = ids_of_windows(state.windows@) + crate::state::ids_of_unmapped(state.unmapped_windows@);
            assert forall|i: int, j: int| 0 <= i < all1.len() && 0 <= j < all1.len() && i != j implies all1[i] != all1[j] by {
                let pi = if i == a { b as int } else if i == b { a as int } else { i };
                let pj = if j == a { b as int } else if j == b { a as int } else { j };
                assert(all1[i] == all0[pi]);
                assert(all1[j] == all0[pj]);
            }
            assert(state.windows_wf());
            crate::state::lemma_wf_same_tags(s0, *state);
        }
    }
}

/// Handles to all mapped windows, in stacking order.
pub fn get_all(state: &Pinnacle) -> (r: Vec<WindowHandle>)
    ensures
        r@.len() == state.windows@.len(),
        forall|i: int| 0 <= i < r@.len() ==> #[trigger] r@[i].id == state.windows@[i].id,
{
    let mut out: Vec<WindowHandle> = Vec::new();
    let mut i: usize = 0;
    while i < state.windows.len()
        invariant
            i <= state.windows@.len(),
            out@.len() == i,
            forall|j: int| 0 <= j < i ==> #[trigger] out@[j].id == state.windows@[j].id,
        decreases state.windows@.len() - i,
    {
        out.push(WindowHandle { id: state.windows[i].id });
        i += 1;
    }
    out
}

/// The mapped window with keyboard focus.
pub fn get_focused(state: &Pinnacle) -> (r: Option<WindowHandle>)
    ensures
        match r {
            Some(h) => state.is_focused(h.id) && ids_of_windows(state.windows@).contains(h.id),
            None => forall|k: int| 0 <= k < state.windows@.len() ==> !state.is_focused(#[trigger] state.windows@[k].id),
        },
{
    let f = match state.current_focus() {
        Some(f) => f,
        None => return None,
    };
    match state.window_index(f) {
        Some(k) => {
            proof {
                assert(ids_of_windows(state.windows@)[k as int] == f);
            }
            Some(WindowHandle { id: f })
        },
        None => {
            proof {
                assert forall|k: int| 0 <= k < state.windows@.len() implies !state.is_focused(#[trigger] state.windows@[k].id) by {
                    assert(ids_of_windows(state.windows@)[k] == state.windows@[k].id);
                }
            }
            None
        },
    }
}

/// At any time at most one window is focused.
pub proof fn lemma_focus_unique(s: Pinnacle, a: u32, b: u32)
    requires
        s.is_focused(a),
        s.is_focused(b),
    ensures
        a == b,
{
}

impl WindowHandle {
    /// Puts the window on tag `tag` (`Some(true)`), takes it off
    /// (`Some(false)`), or toggles it (`None`). Adding keeps the other tags;
    /// the new tag goes last. A tag that is not live is not added.
    pub fn set_tag(&self, state: &mut Pinnacle, tag: u32, set: Option<bool>)
        requires
            old(state).wf(),
        ensures
            final(state).wf(),
            final(state).outputs == old(state).outputs,
            final(state).tags == old(state).tags,
            final(state).unmapped_windows == old(state).unmapped_windows,
            match window_pos(*old(state), self.id) {
                Some(k) => {
                    let before = tag_ids(old(state).windows@[k].tags);
                    let on = match set { Some(b) => b, None => !before.contains(tag) };
                    let live = ids_of_tags(old(state).tags@).contains(tag);
                    &&& final(state).windows@.len() == old(state).windows@.len()
                    &&& forall|j: int| 0 <= j < old(state).windows@.len() && j != k ==> #[trigger] final(state).windows@[j] == old(state).windows@[j]
                    &&& final(state).windows@[k].id == self.id
                    &&& final(state).windows@[k].layout_mode == old(state).windows@[k].layout_mode
                    &&& tag_ids(final(state).windows@[k].tags) == if on {
                        if before.contains(tag) || !live { before } else { before.push(tag) }
                    } else {
                        before.filter(|x: u32| x != tag)
                    }
                },
                None => *final(state) == *old(state),
            },
    {
        let k = match lookup(state, self.id) {
            Some(k) => k,
            None => return,
        };
        let ghost s0 = *state;
        let on = match set {
            Some(b) => b,
            None => !crate::tag_set::tag_set_contains(&state.windows[k].tags, tag),
        };
        let ghost before = tag_ids(s0.windows@[k as int].tags);
        if on {
            if state.find_tag(tag).is_some() {
                crate::tag_set::tag_set_insert(&mut state.windows[k].tags, tag);
                proof {
                    let kk = choose|kk: int| 0 <= kk < s0.tags@.len() && s0.tags@[kk].id == tag;
                    assert(ids_of_tags(s0.tags@)[kk] == tag);
                }
            } else {
                proof {
                    if ids_of_tags(s0.tags@).contains(tag) {
                        let kk = choose|kk: int| 0 <= kk < ids_of_tags(s0.tags@).len() && ids_of_tags(s0.tags@)[kk] == tag;
                        assert(s0.tags@[kk].id == tag);
                    }
                }
            }
        } else {
            crate::tag_set::tag_set_shift_remove(&mut state.windows[k].tags, tag);
        }
        proof {
            assert(ids_of_windows(state.windows@) =~= ids_of_windows(s0.windows@));
            crate::state::lemma_below_members(before, s0.next_tag_id);
            assert forall|x: u32| #[trigger] tag_ids(state.windows@[k as int].tags).contains(x) implies x < s0.next_tag_id by {
                if ids_of_tags(s0.tags@).contains(x) {
                    let kk = choose|kk: int| 0 <= kk < ids_of_tags(s0.tags@).len() && ids_of_tags(s0.tags@)[kk] == x;
                    assert(s0.tags@[kk].id < s0.next_tag_id);
                }
                crate::seq_facts::lemma_push_contains(before, tag, x);
                crate::seq_facts::lemma_filter_contains(before, |y: u32| y != tag, x);
            }
            crate::state::lemma_refs_window(s0, *state, k as int);
            crate::state::lemma_wf_same_tags(s0, *state);
        }
    }

    /// Moves the window to tag `tag` alone, when `tag` is live.
    pub fn move_to_tag(&self, state: &mut Pinnacle, tag: u32)
        requires
            old(state).wf(),
        ensures
            final(state).wf(),
            final(state).outputs == old(state).outputs,
            final(state).tags == old(state).tags,
            final(state).unmapped_windows == old(state).unmapped_windows,
            match window_pos(*old(state), self.id) {
                Some(k) if ids_of_tags(old(state).tags@).contains(tag) => {
                    &&& final(state).windows@.len() == old(state).windows@.len()
                    &&& forall|j: int| 0 <= j < old(state).windows@.len() && j != k ==> #[trigger] final(state).windows@[j] == old(state).windows@[j]
                    &&& final(state).windows@[k].id == self.id
                    &&& tag_ids(final(state).windows@[k].tags) == seq![tag]
                },
                _ => *final(state) == *old(state),
            },
    {
        let k = match lookup(state, self.id) {
            Some(k) => k,
            None => return,
        };
        let ghost s0 = *state;
        match state.find_tag(tag) {
            Some(kk) => {
                proof {
                    assert(ids_of_tags(s0.tags@)[kk as int] == tag);
                }
            },
            None => return,
        }
        let mut set = crate::tag_set::tag_set_new();
        crate::tag_set::tag_set_insert(&mut set, tag);
        state.windows[k].tags = set;
        proof {
            assert(tag_ids(set) =~= seq![tag]);
            assert(ids_of_windows(state.windows@) =~= ids_of_windows(s0.windows@));
            assert forall|x: u32| #[trigger] tag_ids(state.windows@[k as int].tags).contains(x) implies x < s0.next_tag_id by {
                let kk = choose|kk: int| 0 <= kk < s0.tags@.len() && s0.tags@[kk].id == tag;
                assert(tag_ids(set)[0] == tag);
                crate::seq_facts::lemma_push_contains(Seq::<u32>::empty(), tag, x);
                assert(seq![tag] =~= Seq::<u32>::empty().push(tag));
            }
            crate::state::lemma_refs_window(s0, *state, k as int);
            crate::state::lemma_wf_same_tags(s0, *state);
        }
    }
}

/// Setting a window's layout mode and then reading it gives that mode back.
pub proof fn lemma_mode_round_trip(s0: Pinnacle, s1: Pinnacle, id: u32, m: LayoutMode)
    requires
        s0.wf(),
        window_pos(s0, id) is Some,
        mode_set(s0, s1, id, m),
    ensures
        layout_mode_of(s1, id) == m,
{
    let k = window_pos(s0, id).unwrap();
    assert(s1.windows@[k].id == id);
    lemma_window_pos_unique(s0, id);
    assert forall|j: int| 0 <= j < s1.windows@.len() && #[trigger] s1.windows@[j].id == id implies j == k by {
        if j != k {
            assert(s1.windows@[j] == s0.windows@[j]);
        }
    }
}

} // verus!
