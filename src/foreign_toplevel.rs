//! The foreign-toplevel mirror: a per-client mirror of each toplevel's
//! title, app id, states and output, refreshed by diff every loop cycle.
use crate::state::{ids_of_windows, Pinnacle};
use crate::window::{LayoutMode, WindowState};
use vstd::prelude::*;

verus! {

/// A toplevel state flag as the mirror protocol names it.
#[derive(Clone, Copy, Debug, PartialEq, Eq, Structural)]
pub enum ToplevelState {
    Maximized,
    Minimized,
    Activated,
    Fullscreen,
}

/// What a toplevel should look like now.
pub struct PendingToplevelData {
    pub title: Option<String>,
    pub app_id: Option<String>,
    pub maximized: bool,
    pub minimized: bool,
    pub fullscreen: bool,
    /// The toplevel has keyboard focus; only it is reported activated.
    pub focused: bool,
    /// The name of its output.
    pub output: Option<String>,
}

/// One client's handle on a toplevel, with the outputs it was told about.
pub struct Instance {
    pub handle: u32,
    pub client: u32,
    pub outputs: Vec<u32>,
}

/// The mirror of one toplevel.
pub struct ToplevelData {
    /// The window id of the toplevel.
    pub surface: u32,
    pub title: Option<String>,
    pub app_id: Option<String>,
    pub states: Vec<ToplevelState>,
    pub output: Option<String>,
    pub instances: Vec<Instance>,
}

/// What changed in a toplevel at a refresh.
pub struct ToplevelChange {
    /// The new title, when it changed to one.
    pub title: Option<String>,
    /// The new app id, when it changed to one.
    pub app_id: Option<String>,
    /// The new states, when they changed.
    pub states: Option<Vec<ToplevelState>>,
    pub output_changed: bool,
}

/// An event sent on a toplevel handle.
pub enum HandleEvent {
    Title(u32, String),
    AppId(u32, String),
    State(u32, Vec<ToplevelState>),
    OutputEnter(u32, u32),
    OutputLeave(u32, u32),
    Done(u32),
    Closed(u32),
    /// A manager (first) learns of a new handle (second).
    Created(u32, u32),
}

/// The states to report, in the protocol's order: maximized, fullscreen,
/// minimized, then activated for the focused toplevel only.
pub open spec fn state_seq(maximized: bool, minimized: bool, fullscreen: bool, has_focus: bool) -> Seq<ToplevelState> {
    let s0 = if maximized { seq![ToplevelState::Maximized] } else { Seq::empty() };
    let s1 = if fullscreen { s0.push(ToplevelState::Fullscreen) } else { s0 };
    let s2 = if minimized { s1.push(ToplevelState::Minimized) } else { s1 };
    if has_focus { s2.push(ToplevelState::Activated) } else { s2 }
}

/// The states of a toplevel, with activated standing for keyboard focus.
pub fn to_state_vec(maximized: bool, minimized: bool, fullscreen: bool, has_focus: bool) -> (r: Vec<ToplevelState>)
    ensures
        r@ == state_seq(maximized, minimized, fullscreen, has_focus),
{
    let mut v: Vec<ToplevelState> = Vec::new();
    if maximized {
        v.push(ToplevelState::Maximized);
    }
    if fullscreen {
        v.push(ToplevelState::Fullscreen);
    }
    if minimized {
        v.push(ToplevelState::Minimized);
    }
    if has_focus {
        v.push(ToplevelState::Activated);
    }
    proof {
        let s0: Seq<ToplevelState> = if maximized { seq![ToplevelState::Maximized] } else { Seq::empty() };
        assert(s0 =~= if maximized { Seq::<ToplevelState>::empty().push(ToplevelState::Maximized) } else { Seq::empty() });
    }
    v
}

/// The text of an optional string.
pub open spec fn opt_view(s: Option<String>) -> Option<Seq<char>> {
    match s {
        Some(t) => Some(t@),
        None => None,
    }
}

/// Whether two optional strings hold the same text.
fn same_text(a: &Option<String>, b: &Option<String>) -> (r: bool)
    ensures
        r == (opt_view(*a) == opt_view(*b)),
{
    match (a, b) {
        (Some(x), Some(y)) => *x == *y,
        (None, None) => true,
        _ => false,
    }
}

/// A copy of an optional string.
fn copy_text(a: &Option<String>) -> (r: Option<String>)
    ensures
        opt_view(r) == opt_view(*a),
{
    match a {
        Some(x) => Some(x.clone()),
        None => None,
    }
}

/// Whether two state lists are equal.
fn same_states(a: &Vec<ToplevelState>, b: &Vec<ToplevelState>) -> (r: bool)
    ensures
        r == (a@ == b@),
{
    if a.len() != b.len() {
        return false;
    }
    let mut i: usize = 0;
    while i < a.len()
        invariant
            a@.len() == b@.len(),
            i <= a@.len(),
            forall|j: int| 0 <= j < i ==> a@[j] == b@[j],
        decreases a@.len() - i,
    {
        if a[i] != b[i] {
            return false;
        }
        i += 1;
    }
    assert(a@ =~= b@);
    true
}

/// A copy of a state list.
fn copy_states(a: &Vec<ToplevelState>) -> (r: Vec<ToplevelState>)
    ensures
        r@ == a@,
{
    let mut r: Vec<ToplevelState> = Vec::new();
    let mut i: usize = 0;
    while i < a.len()
        invariant
            i <= a@.len(),
            r@ == a@.take(i as int),
        decreases a@.len() - i,
    {
        r.push(a[i]);
        proof {
            assert(r@ =~= a@.take(i + 1));
        }
        i += 1;
    }
    assert(a@.take(a@.len() as int) =~= a@);
    r
}

impl ToplevelChange {
    /// Whether anything is to be reported.
    pub open spec fn any(&self) -> bool {
        self.title is Some || self.app_id is Some || self.states is Some || self.output_changed
    }
}

impl ToplevelData {
    /// Brings the mirror up to date with `pending` and reports what changed:
    /// a title or app id only when it changed to a value, states when the
    /// list differs, and whether the output differs.
    pub fn diff_and_update(&mut self, pending: &PendingToplevelData) -> (r: ToplevelChange)
        ensures
            opt_view(final(self).title) == opt_view(pending.title),
            opt_view(final(self).app_id) == opt_view(pending.app_id),
            final(self).states@ == state_seq(pending.maximized, pending.minimized, pending.fullscreen, pending.focused),
            opt_view(final(self).output) == opt_view(pending.output),
            final(self).surface == old(self).surface,
            final(self).instances == old(self).instances,
            opt_view(r.title) == if opt_view(old(self).title) != opt_view(pending.title) {
                opt_view(pending.title)
            } else {
                None
            },
            opt_view(r.app_id) == if opt_view(old(self).app_id) != opt_view(pending.app_id) {
                opt_view(pending.app_id)
            } else {
                None
            },
            match r.states {
                Some(s) => s@ == final(self).states@ && old(self).states@ != final(self).states@,
                None => old(self).states@ == final(self).states@,
            },
            r.output_changed == (opt_view(old(self).output) != opt_view(pending.output)),
    {
        let states = to_state_vec(pending.maximized, pending.minimized, pending.fullscreen, pending.focused);
        let mut change = ToplevelChange { title: None, app_id: None, states: None, output_changed: false };
        if !same_text(&self.title, &pending.title) {
            self.title = copy_text(&pending.title);
            change.title = copy_text(&pending.title);
        }
        if !same_text(&self.app_id, &pending.app_id) {
            self.app_id = copy_text(&pending.app_id);
            change.app_id = copy_text(&pending.app_id);
        }
        if !same_states(&self.states, &states) {
            change.states = Some(copy_states(&states));
            self.states = states;
        }
        if !same_text(&self.output, &pending.output) {
            self.output = copy_text(&pending.output);
            change.output_changed = true;
        }
        change
    }
}

/// The events one handle gets for a change: title, app id, states, then
/// leaving its old outputs and entering the new ones when the output
/// changed, and a closing `Done`. Nothing when nothing changed.
pub open spec fn change_events(
    handle: u32,
    change: ToplevelChange,
    old_outputs: Seq<u32>,
    new_outputs: Seq<u32>,
) -> Seq<EventView> {
    change_events_v(handle, change_view(change), old_outputs, new_outputs)
}

/// A change as text: new title, new app id, new states, output changed.
pub open spec fn change_view(c: ToplevelChange) -> (Option<Seq<char>>, Option<Seq<char>>, Option<Seq<ToplevelState>>, bool) {
    (opt_view(c.title), opt_view(c.app_id), match c.states { Some(s) => Some(s@), None => None }, c.output_changed)
}

/// What changes when mirror `d` is brought up to date with `p`.
pub open spec fn diff_view(d: ToplevelData, p: PendingToplevelData) -> (Option<Seq<char>>, Option<Seq<char>>, Option<Seq<ToplevelState>>, bool) {
    let st = state_seq(p.maximized, p.minimized, p.fullscreen, p.focused);
    (
        if opt_view(d.title) != opt_view(p.title) { opt_view(p.title) } else { None },
        if opt_view(d.app_id) != opt_view(p.app_id) { opt_view(p.app_id) } else { None },
        if d.states@ != st { Some(st) } else { None },
        opt_view(d.output) != opt_view(p.output),
    )
}

/// Whether a change is to be reported.
pub open spec fn any_v(c: (Option<Seq<char>>, Option<Seq<char>>, Option<Seq<ToplevelState>>, bool)) -> bool {
    c.0 is Some || c.1 is Some || c.2 is Some || c.3
}

/// The events one handle gets for a change (as text).
pub open spec fn change_events_v(
    handle: u32,
    c: (Option<Seq<char>>, Option<Seq<char>>, Option<Seq<ToplevelState>>, bool),
    old_outputs: Seq<u32>,
    new_outputs: Seq<u32>,
) -> Seq<EventView> {
    if !any_v(c) {
        Seq::empty()
    } else {
        let t = match c.0 {
            Some(s) => seq![EventView::Title(handle, s)],
            None => Seq::empty(),
        };
        let a = match c.1 {
            Some(s) => seq![EventView::AppId(handle, s)],
            None => Seq::empty(),
        };
        let st = match c.2 {
            Some(s) => seq![EventView::State(handle, s)],
            None => Seq::empty(),
        };
        let o = if c.3 {
            leaves(handle, old_outputs) + enters(handle, new_outputs)
        } else {
            Seq::empty()
        };
        t + a + st + o + seq![EventView::Done(handle)]
    }
}

/// The events every handle of a mirror gets for change `c`, handle by handle;
/// `i0` are the handles before, `i1` after (with their new outputs).
pub open spec fn handles_change_events(
    i0: Seq<Instance>,
    i1: Seq<Instance>,
    c: (Option<Seq<char>>, Option<Seq<char>>, Option<Seq<ToplevelState>>, bool),
) -> Seq<EventView>
    decreases i0.len(),
{
    if i0.len() == 0 || !any_v(c) {
        Seq::empty()
    } else {
        handles_change_events(i0.drop_last(), i1.take(i0.len() - 1), c)
            + change_events_v(i0.last().handle, c, i0.last().outputs@, i1[i0.len() - 1].outputs@)
    }
}

/// An event with its strings as text.
pub enum EventView {
    Title(u32, Seq<char>),
    AppId(u32, Seq<char>),
    State(u32, Seq<ToplevelState>),
    OutputEnter(u32, u32),
    OutputLeave(u32, u32),
    Done(u32),
    Closed(u32),
    Created(u32, u32),
}

impl HandleEvent {
    /// The event with its strings as text.
    pub open spec fn view(&self) -> EventView {
        match self {
            HandleEvent::Title(h, s) => EventView::Title(*h, s@),
            HandleEvent::AppId(h, s) => EventView::AppId(*h, s@),
            HandleEvent::State(h, s) => EventView::State(*h, s@),
            HandleEvent::OutputEnter(h, w) => EventView::OutputEnter(*h, *w),
            HandleEvent::OutputLeave(h, w) => EventView::OutputLeave(*h, *w),
            HandleEvent::Done(h) => EventView::Done(*h),
            HandleEvent::Closed(h) => EventView::Closed(*h),
            HandleEvent::Created(m, h) => EventView::Created(*m, *h),
        }
    }
}

/// The views of a list of events.
pub open spec fn events_view(evs: Seq<HandleEvent>) -> Seq<EventView> {
    evs.map_values(|e: HandleEvent| e.view())
}

/// Viewing a list with one more event.
proof fn lemma_events_push(evs: Seq<HandleEvent>, e: HandleEvent)
    ensures
        events_view(evs.push(e)) == events_view(evs).push(e.view()),
{
    assert(events_view(evs.push(e)) =~= events_view(evs).push(e.view()));
}

/// Leave events for `ws` on `handle`.
pub open spec fn leaves(handle: u32, ws: Seq<u32>) -> Seq<EventView> {
    ws.map_values(|w: u32| EventView::OutputLeave(handle, w))
}

/// Enter events for `ws` on `handle`.
pub open spec fn enters(handle: u32, ws: Seq<u32>) -> Seq<EventView> {
    ws.map_values(|w: u32| EventView::OutputEnter(handle, w))
}

/// Appends leave events for the old outputs and enter events for the new.
fn push_output_events(out: &mut Vec<HandleEvent>, handle: u32, old_outputs: &Vec<u32>, new_outputs: &Vec<u32>)
    ensures
        events_view(final(out)@) == events_view(old(out)@) + leaves(handle, old_outputs@) + enters(handle, new_outputs@),
{
    let ghost start = events_view(out@);
    let mut i: usize = 0;
    while i < old_outputs.len()
        invariant
            i <= old_outputs@.len(),
            events_view(out@) == start + leaves(handle, old_outputs@.take(i as int)),
        decreases old_outputs@.len() - i,
    {
        let ghost prev = out@;
        let e = HandleEvent::OutputLeave(handle, old_outputs[i]);
        out.push(e);
        proof {
            lemma_events_push(prev, e);
            assert(leaves(handle, old_outputs@.take(i + 1)) =~= leaves(handle, old_outputs@.take(i as int)).push(e.view()));
        }
        i += 1;
    }
    assert(old_outputs@.take(old_outputs@.len() as int) =~= old_outputs@);
    let ghost mid = events_view(out@);
    let mut j: usize = 0;
    while j < new_outputs.len()
        invariant
            j <= new_outputs@.len(),
            events_view(out@) == mid + enters(handle, new_outputs@.take(j as int)),
        decreases new_outputs@.len() - j,
    {
        let ghost prev = out@;
        let e = HandleEvent::OutputEnter(handle, new_outputs[j]);
        out.push(e);
        proof {
            lemma_events_push(prev, e);
            assert(enters(handle, new_outputs@.take(j + 1)) =~= enters(handle, new_outputs@.take(j as int)).push(e.view()));
        }
        j += 1;
    }
    assert(new_outputs@.take(new_outputs@.len() as int) =~= new_outputs@);
    assert(events_view(out@) =~= start + leaves(handle, old_outputs@) + enters(handle, new_outputs@));
}

/// Appends an event.
fn push_event(out: &mut Vec<HandleEvent>, e: HandleEvent)
    ensures
        events_view(final(out)@) == events_view(old(out)@).push(e.view()),
{
    let ghost prev = out@;
    out.push(e);
    proof {
        lemma_events_push(prev, e);
    }
}

/// Appends the events one handle gets for `change` to `out`.
pub fn push_change_events(
    out: &mut Vec<HandleEvent>,
    handle: u32,
    change: &ToplevelChange,
    old_outputs: &Vec<u32>,
    new_outputs: &Vec<u32>,
)
    ensures
        events_view(final(out)@) == events_view(old(out)@) + change_events(handle, *change, old_outputs@, new_outputs@),
{
    let ghost start = events_view(out@);
    if !(change.title.is_some() || change.app_id.is_some() || change.states.is_some() || change.output_changed) {
        assert(events_view(out@) =~= start + Seq::<EventView>::empty());
        return;
    }
    let ghost t = if change.title is Some { seq![EventView::Title(handle, change.title.unwrap()@)] } else { Seq::<EventView>::empty() };
    let ghost a = if change.app_id is Some { seq![EventView::AppId(handle, change.app_id.unwrap()@)] } else { Seq::<EventView>::empty() };
    let ghost st = if change.states is Some { seq![EventView::State(handle, change.states.unwrap()@)] } else { Seq::<EventView>::empty() };
    if let Some(x) = &change.title {
        push_event(out, HandleEvent::Title(handle, x.clone()));
    }
    assert(events_view(out@) =~= start + t);
    if let Some(x) = &change.app_id {
        push_event(out, HandleEvent::AppId(handle, x.clone()));
    }
    assert(events_view(out@) =~= start + t + a);
    if let Some(x) = &change.states {
        push_event(out, HandleEvent::State(handle, copy_states(x)));
    }
    assert(events_view(out@) =~= start + t + a + st);
    let ghost o = if change.output_changed {
        leaves(handle, old_outputs@) + enters(handle, new_outputs@)
    } else {
        Seq::<EventView>::empty()
    };
    if change.output_changed {
        push_output_events(out, handle, old_outputs, new_outputs);
    }
    assert(events_view(out@) =~= start + t + a + st + o);
    push_event(out, HandleEvent::Done(handle));
    assert(events_view(out@) =~= start + (t + a + st + o + seq![EventView::Done(handle)]));
}

/// A bound manager: its id and its client.
#[derive(Clone, Copy, Debug, PartialEq, Eq, Structural)]
pub struct Manager {
    pub id: u32,
    pub client: u32,
}

/// A client's binding of an output.
pub struct BoundOutput {
    pub client: u32,
    pub output: String,
    pub wl_output: u32,
}

/// The mirror of every toplevel, for every bound manager.
pub struct ForeignToplevelManagerState {
    pub managers: Vec<Manager>,
    pub toplevels: Vec<ToplevelData>,
    pub bound_outputs: Vec<BoundOutput>,
    /// The id the next handle gets.
    pub next_handle: u32,
}

/// Mirror `d` shows window `w` of `s`: its title, app id and states.
pub open spec fn shows_window(d: ToplevelData, s: Pinnacle, w: WindowState) -> bool {
    &&& d.surface == w.id
    &&& opt_view(d.title) == opt_view(w.title)
    &&& opt_view(d.app_id) == opt_view(w.app_id)
    &&& d.states@ == state_seq(w.layout_mode == LayoutMode::Maximized, w.minimized,
        w.layout_mode == LayoutMode::Fullscreen, s.is_focused(w.id))
}

/// Some mirror in `ts` shows the mapped window `id` of `s`.
pub open spec fn shown(ts: Seq<ToplevelData>, s: Pinnacle, id: u32) -> bool {
    exists|k: int, t: int|
        0 <= k < s.windows@.len() && 0 <= t < ts.len() && s.windows@[k].id == id
        && #[trigger] shows_window(ts[t], s, s.windows@[k])
}

/// Every window in the refresh order of `s` has a mirror in `ts` that shows it.
pub open spec fn mirror_shows_all(ts: Seq<ToplevelData>, s: Pinnacle) -> bool {
    forall|i: int| 0 <= i < refresh_order_spec(s).len() ==> shown(ts, s, #[trigger] refresh_order_spec(s)[i])
}

/// A mirror that shows a window reports it activated exactly when it has
/// keyboard focus, so at most one shown window is reported activated.
pub proof fn lemma_activated_means_focused(d: ToplevelData, s: Pinnacle, w: WindowState)
    requires
        shows_window(d, s, w),
    ensures
        d.states@.contains(ToplevelState::Activated) == s.is_focused(w.id),
{
    let mx = w.layout_mode == LayoutMode::Maximized;
    let fs = w.layout_mode == LayoutMode::Fullscreen;
    let s0 = if mx { seq![ToplevelState::Maximized] } else { Seq::<ToplevelState>::empty() };
    let s1 = if fs { s0.push(ToplevelState::Fullscreen) } else { s0 };
    let s2 = if w.minimized { s1.push(ToplevelState::Minimized) } else { s1 };
    assert forall|i: int| 0 <= i < s2.len() implies s2[i] != ToplevelState::Activated by {
        if w.minimized && i == s1.len() {
        } else if fs && i == s0.len() {
        } else {
        }
    }
    if s.is_focused(w.id) {
        assert(d.states@[s2.len() as int] == ToplevelState::Activated);
    } else {
        assert(d.states@ == s2);
    }
}

/// Two mirrors show the same surface the same way.
pub open spec fn same_mirror(a: ToplevelData, b: ToplevelData) -> bool {
    &&& a.surface == b.surface
    &&& a.title == b.title
    &&& a.app_id == b.app_id
    &&& a.states == b.states
    &&& a.output == b.output
}

/// The surfaces mirrored, in order.
pub open spec fn surfaces(ts: Seq<ToplevelData>) -> Seq<u32> {
    ts.map_values(|t: ToplevelData| t.surface)
}

/// The ids of the windows to refresh, in order: every mapped window that is
/// not an override-redirect surface, with the focused one moved last so
/// that its activation follows the previous holder's deactivation.
pub open spec fn refresh_order_spec(s: Pinnacle) -> Seq<u32> {
    let ids = s.windows@.filter(|w: WindowState| !w.override_redirect).map_values(|w: WindowState| w.id);
    match s.focus() {
        Some(f) => if ids.contains(f) {
            ids.filter(|i: u32| i != f).push(f)
        } else {
            ids
        },
        None => ids,
    }
}

/// The name of the output window `w` of `s` is on.
pub open spec fn output_name_of(s: Pinnacle, w: WindowState) -> Option<Seq<char>> {
    match crate::commit::output_of_window(s.outputs@, w) {
        Some(o) => Some(s.outputs@[o].name@),
        None => None,
    }
}

/// What the mirror should show for window `w` of `s`.
pub open spec fn pending_matches(s: Pinnacle, w: WindowState, p: PendingToplevelData, output: Option<Seq<char>>) -> bool {
    &&& opt_view(p.title) == opt_view(w.title)
    &&& opt_view(p.app_id) == opt_view(w.app_id)
    &&& p.maximized == (w.layout_mode == LayoutMode::Maximized)
    &&& p.fullscreen == (w.layout_mode == LayoutMode::Fullscreen)
    &&& p.minimized == w.minimized
    &&& p.focused == s.is_focused(w.id)
    &&& opt_view(p.output) == output
}

/// What the mirror should show for the mapped window at `k`.
pub fn pending_toplevel_data_for(state: &Pinnacle, k: usize) -> (r: PendingToplevelData)
    requires
        state.wf(),
        k < state.windows@.len(),
    ensures
        pending_matches(*state, state.windows@[k as int], r, output_name_of(*state, state.windows@[k as int])),
{
    let w = &state.windows[k];
    let output = match state.window_output(w) {
        Some(o) => {
            proof {
                crate::commit::lemma_output_of_window(*state, *w, o as int);
            }
            Some(state.outputs[o].name.clone())
        },
        None => {
            proof {
                if crate::commit::output_of_window(state.outputs@, *w) is Some {
                    let c = choose|c: int| 0 <= c < state.outputs@.len() && #[trigger] crate::tag_set::tag_ids(state.outputs@[c].tags).contains(crate::tag_set::tag_ids(w.tags)[0]);
                    assert(!state.output_has_tag(c, crate::tag_set::tag_ids(w.tags)[0]));
                }
            }
            None
        },
    };
    let focused = match state.current_focus() {
        Some(f) => f == w.id,
        None => false,
    };
    PendingToplevelData {
        title: copy_text(&w.title),
        app_id: copy_text(&w.app_id),
        maximized: w.layout_mode == LayoutMode::Maximized,
        minimized: w.minimized,
        fullscreen: w.layout_mode == LayoutMode::Fullscreen,
        focused,
        output,
    }
}

/// The ids of the windows to refresh, focused last.
pub fn refresh_order(state: &Pinnacle) -> (r: Vec<u32>)
    ensures
        r@ == refresh_order_spec(*state),
{
    let ghost keep = |w: WindowState| !w.override_redirect;
    let mut ids: Vec<u32> = Vec::new();
    let mut i: usize = 0;
    while i < state.windows.len()
        invariant
            i <= state.windows@.len(),
            keep == (|w: WindowState| !w.override_redirect),
            ids@ == state.windows@.take(i as int).filter(keep).map_values(|w: WindowState| w.id),
        decreases state.windows@.len() - i,
    {
        proof {
            assert(state.windows@.take(i + 1).drop_last() =~= state.windows@.take(i as int));
            reveal(Seq::filter);
        }
        if !state.windows[i].override_redirect {
            ids.push(state.windows[i].id);
            proof {
                assert(state.windows@.take(i + 1).filter(keep) =~= state.windows@.take(i as int).filter(keep).push(state.windows@[i as int]));
                assert(ids@ =~= state.windows@.take(i + 1).filter(keep).map_values(|w: WindowState| w.id));
            }
        } else {
            proof {
                assert(state.windows@.take(i + 1).filter(keep) =~= state.windows@.take(i as int).filter(keep));
            }
        }
        i += 1;
    }
    assert(state.windows@.take(state.windows@.len() as int) =~= state.windows@);
    let f = match state.current_focus() {
        Some(f) => f,
        None => return ids,
    };
    let mut found = false;
    let mut others: Vec<u32> = Vec::new();
    let mut j: usize = 0;
    let ghost not_f = |x: u32| x != f;
    while j < ids.len()
        invariant
            j <= ids@.len(),
            not_f == (|x: u32| x != f),
            others@ == ids@.take(j as int).filter(not_f),
            found == ids@.take(j as int).contains(f),
        decreases ids@.len() - j,
    {
        proof {
            assert(ids@.take(j + 1).drop_last() =~= ids@.take(j as int));
            reveal(Seq::filter);
            crate::seq_facts::lemma_push_contains(ids@.take(j as int), ids@[j as int], f);
            assert(ids@.take(j + 1) =~= ids@.take(j as int).push(ids@[j as int]));
        }
        if ids[j] == f {
            found = true;
        } else {
            others.push(ids[j]);
        }
        j += 1;
    }
    assert(ids@.take(ids@.len() as int) =~= ids@);
    if found {
        others.push(f);
        others
    } else {
        ids
    }
}

impl ForeignToplevelManagerState {
    /// A mirror with no managers and no toplevels.
    pub fn new() -> (r: Self)
        ensures
            r.managers@.len() == 0,
            r.toplevels@.len() == 0,
            r.bound_outputs@.len() == 0,
    {
        ForeignToplevelManagerState { managers: Vec::new(), toplevels: Vec::new(), bound_outputs: Vec::new(), next_handle: 1 }
    }

    /// Whether `client` bound the output named `output` as `wl_output`.
    pub open spec fn is_bound(&self, client: u32, output: Option<Seq<char>>, wl_output: u32) -> bool {
        exists|b: int| 0 <= b < self.bound_outputs@.len()
            && self.bound_outputs@[b].client == client
            && output == Some(self.bound_outputs@[b].output@)
            && self.bound_outputs@[b].wl_output == wl_output
    }

    /// The wl_outputs that `client` bound for the output named `output`.
    pub fn client_outputs(&self, client: u32, output: &Option<String>) -> (r: Vec<u32>)
        ensures
            forall|i: int| 0 <= i < r@.len() ==> self.is_bound(client, opt_view(*output), #[trigger] r@[i]),
            output is None ==> r@.len() == 0,
    {
        let mut r: Vec<u32> = Vec::new();
        let name = match output {
            Some(n) => n,
            None => return r,
        };
        let mut i: usize = 0;
        while i < self.bound_outputs.len()
            invariant
                i <= self.bound_outputs@.len(),
                *output == Some(*name),
                forall|j: int| 0 <= j < r@.len() ==> self.is_bound(client, opt_view(*output), #[trigger] r@[j]),
            decreases self.bound_outputs@.len() - i,
        {
            if self.bound_outputs[i].client == client && self.bound_outputs[i].output == *name {
                let ghost prev = r@;
                r.push(self.bound_outputs[i].wl_output);
                proof {
                    assert forall|j: int| 0 <= j < r@.len() implies self.is_bound(client, opt_view(*output), #[trigger] r@[j]) by {
                        if j == prev.len() {
                            assert(self.bound_outputs@[i as int].wl_output == r@[j]);
                            assert(opt_view(*output) == Some(self.bound_outputs@[i as int].output@));
                        } else {
                            assert(r@[j] == prev[j]);
                        }
                    }
                }
            }
            i += 1;
        }
        r
    }

    /// Gives the toplevel at `t` a handle for `manager`, and tells it all.
    fn add_instance(&mut self, t: usize, manager: Manager, out: &mut Vec<HandleEvent>)
        requires
            t < old(self).toplevels@.len(),
        ensures
            final(self).managers == old(self).managers,
            final(self).bound_outputs == old(self).bound_outputs,
            surfaces(final(self).toplevels@) == surfaces(old(self).toplevels@),
            final(self).toplevels@.len() == old(self).toplevels@.len(),
            forall|j: int| 0 <= j < old(self).toplevels@.len() && j != t ==> #[trigger] final(self).toplevels@[j] == old(self).toplevels@[j],
            ({
                let d0 = old(self).toplevels@[t as int];
                let d1 = final(self).toplevels@[t as int];
                &&& d1.title == d0.title
                &&& d1.app_id == d0.app_id
                &&& d1.states == d0.states
                &&& d1.output == d0.output
                &&& d1.instances@.len() == d0.instances@.len() + 1
                &&& d1.surface == d0.surface
                &&& d1.instances@.drop_last() == d0.instances@
                &&& d1.instances@.last().client == manager.client
                &&& forall|i: int| 0 <= i < d1.instances@.last().outputs@.len() ==> old(self).is_bound(manager.client,
                    opt_view(d0.output), #[trigger] d1.instances@.last().outputs@[i])
                &&& events_view(final(out)@) == events_view(old(out)@) + announce_events(manager.id, d1)
            }),
    {
        let ghost s0 = *self;
        let ghost start = events_view(out@);
        let handle = self.next_handle;
        self.next_handle = self.next_handle.wrapping_add(1);
        push_event(out, HandleEvent::Created(manager.id, handle));
        let outputs = self.client_outputs(manager.client, &self.toplevels[t].output);
        let change = ToplevelChange {
            title: copy_text(&self.toplevels[t].title),
            app_id: copy_text(&self.toplevels[t].app_id),
            states: Some(copy_states(&self.toplevels[t].states)),
            output_changed: true,
        };
        let none: Vec<u32> = Vec::new();
        push_change_events(out, handle, &change, &none, &outputs);
        let ghost outs = outputs@;
        self.toplevels[t].instances.push(Instance { handle, client: manager.client, outputs });
        proof {
            assert(surfaces(self.toplevels@) =~= surfaces(s0.toplevels@));
            assert(self.toplevels@[t as int].instances@.drop_last() =~= s0.toplevels@[t as int].instances@);
            let d0 = s0.toplevels@[t as int];
            assert(leaves(handle, Seq::<u32>::empty()) =~= Seq::<EventView>::empty());
            assert(change_events(handle, change, Seq::empty(), outs) =~= initial_events(handle, d0, outs));
            assert(events_view(out@) =~= start + announce_events(manager.id, self.toplevels@[t as int]));
        }
    }

    /// Brings the mirror of `surface` up to date with `pending`: an existing
    /// entry is diffed, and each of its handles told what changed (outputs
    /// left and entered when the output changed); a new entry gets a handle
    /// for every manager, which is told everything.
    pub fn refresh_toplevel(&mut self, surface: u32, pending: &PendingToplevelData, out: &mut Vec<HandleEvent>)
        ensures
            final(self).managers == old(self).managers,
            final(self).bound_outputs == old(self).bound_outputs,
            surfaces(old(self).toplevels@).contains(surface) ==> surfaces(final(self).toplevels@) == surfaces(old(self).toplevels@),
            !surfaces(old(self).toplevels@).contains(surface) ==> surfaces(final(self).toplevels@) == surfaces(old(self).toplevels@).push(surface),
            exists|t: int| 0 <= t < final(self).toplevels@.len() && {
                let d = #[trigger] final(self).toplevels@[t];
                &&& d.surface == surface
                &&& opt_view(d.title) == opt_view(pending.title)
                &&& opt_view(d.app_id) == opt_view(pending.app_id)
                &&& d.states@ == state_seq(pending.maximized, pending.minimized, pending.fullscreen, pending.focused)
                &&& opt_view(d.output) == opt_view(pending.output)
            },
            final(self).toplevels@.len() >= old(self).toplevels@.len(),
            forall|j: int| 0 <= j < old(self).toplevels@.len() && old(self).toplevels@[j].surface != surface
                ==> same_mirror(#[trigger] final(self).toplevels@[j], old(self).toplevels@[j]),
            extends(events_view(final(out)@), events_view(old(out)@)),
            forall|t: int| 0 <= t < old(self).toplevels@.len() && (#[trigger] old(self).toplevels@[t]).surface == surface
                && (forall|j: int| 0 <= j < t ==> old(self).toplevels@[j].surface != surface)
                && mirror_matches(old(self).toplevels@[t], *pending)
                ==> events_view(final(out)@) == events_view(old(out)@),
            forall|t: int| 0 <= t < old(self).toplevels@.len() && (#[trigger] old(self).toplevels@[t]).surface == surface
                && (forall|j: int| 0 <= j < t ==> old(self).toplevels@[j].surface != surface)
                ==> events_view(final(out)@) == events_view(old(out)@) + handles_change_events(
                    old(self).toplevels@[t].instances@, final(self).toplevels@[t].instances@,
                    diff_view(old(self).toplevels@[t], *pending)),
            toplevel_refreshed(old(self).toplevels@, final(self).toplevels@, surface, *pending, old(self).managers@,
                events_view(old(out)@), events_view(final(out)@)),
    {
        let ghost ev_start = events_view(out@);
        proof { lemma_extends_refl(ev_start); }
        let mut t: usize = 0;
        while t < self.toplevels.len() && self.toplevels[t].surface != surface
            invariant
                t <= self.toplevels@.len(),
                forall|j: int| 0 <= j < t ==> (#[trigger] self.toplevels@[j]).surface != surface,
            decreases self.toplevels@.len() - t,
        {
            t += 1;
        }
        let ghost s0 = *self;
        if t < self.toplevels.len() {
            let change = self.toplevels[t].diff_and_update(pending);
            let ghost s1 = *self;
            let ghost cv = diff_view(s0.toplevels@[t as int], *pending);
            proof {
                assert(change_view(change) == cv);
            }
            proof {
                assert(surfaces(self.toplevels@) =~= surfaces(s0.toplevels@));
                assert(surfaces(s0.toplevels@)[t as int] == surface);
            }
            if change.title.is_some() || change.app_id.is_some() || change.states.is_some() || change.output_changed {
                let n = self.toplevels[t].instances.len();
                let mut i: usize = 0;
                proof {
                    assert(handles_change_events(s0.toplevels@[t as int].instances@.take(0),
                        self.toplevels@[t as int].instances@.take(0), cv) == Seq::<EventView>::empty());
                    assert(ev_start + Seq::<EventView>::empty() =~= ev_start);
                }
                while i < n
                    invariant
                        t < self.toplevels@.len(),
                        i <= n,
                        n == self.toplevels@[t as int].instances@.len(),
                        self.managers == s1.managers,
                        self.bound_outputs == s1.bound_outputs,
                        self.toplevels@.len() == s1.toplevels@.len(),
                        forall|j: int| 0 <= j < s1.toplevels@.len() && j != t ==> #[trigger] self.toplevels@[j] == s1.toplevels@[j],
                        self.toplevels@[t as int].surface == s1.toplevels@[t as int].surface,
                        self.toplevels@[t as int].title == s1.toplevels@[t as int].title,
                        self.toplevels@[t as int].app_id == s1.toplevels@[t as int].app_id,
                        self.toplevels@[t as int].states == s1.toplevels@[t as int].states,
                        self.toplevels@[t as int].output == s1.toplevels@[t as int].output,
                        extends(events_view(out@), ev_start),
                        change_view(change) == cv,
                        any_v(cv),
                        t < s0.toplevels@.len(),
                        n == s0.toplevels@[t as int].instances@.len(),
                        s1.toplevels@[t as int].instances == s0.toplevels@[t as int].instances,
                        forall|m: int| i <= m < n ==> #[trigger] self.toplevels@[t as int].instances@[m] == s0.toplevels@[t as int].instances@[m],
                        forall|m: int| 0 <= m < n ==> (#[trigger] self.toplevels@[t as int].instances@[m]).handle == s0.toplevels@[t as int].instances@[m].handle,
                        events_view(out@) == ev_start + handles_change_events(s0.toplevels@[t as int].instances@.take(i as int),
                            self.toplevels@[t as int].instances@.take(i as int), cv),
                    decreases n - i,
                {
                    let handle = self.toplevels[t].instances[i].handle;
                    let client = self.toplevels[t].instances[i].client;
                    let ghost before = *self;
                    let ghost evs = events_view(out@);
                    if change.output_changed {
                        let new_outputs = self.client_outputs(client, &self.toplevels[t].output);
                        let ghost evb = events_view(out@);
                        push_change_events(out, handle, &change, &self.toplevels[t].instances[i].outputs, &new_outputs);
                        proof { lemma_extends_append(evb, change_events(handle, change, self.toplevels@[t as int].instances@[i as int].outputs@, new_outputs@), ev_start); }
                        self.toplevels[t].instances[i].outputs = new_outputs;
                    } else {
                        let ghost evb = events_view(out@);
                        push_change_events(out, handle, &change, &self.toplevels[t].instances[i].outputs, &self.toplevels[t].instances[i].outputs);
                        proof { lemma_extends_append(evb, change_events(handle, change, self.toplevels@[t as int].instances@[i as int].outputs@, self.toplevels@[t as int].instances@[i as int].outputs@), ev_start); }
                    }
                    proof {
                        let i0 = s0.toplevels@[t as int].instances@;
                        let cur = self.toplevels@[t as int].instances@;
                        assert(i0.take(i + 1).drop_last() =~= i0.take(i as int));
                        assert(cur.take(i + 1).take(i as int) =~= cur.take(i as int));
                        assert(cur.take(i as int) =~= before.toplevels@[t as int].instances@.take(i as int));
                        assert(i0.take(i + 1).last() == i0[i as int]);
                        assert(before.toplevels@[t as int].instances@[i as int] == i0[i as int]);
                        assert(cur.take(i + 1)[i as int] == cur[i as int]);
                        assert(events_view(out@) =~= ev_start + handles_change_events(i0.take(i + 1), cur.take(i + 1), cv));
                    }
                    i += 1;
                }
                proof {
                    assert(surfaces(self.toplevels@) =~= surfaces(s0.toplevels@));
                    assert(s0.toplevels@[t as int].instances@.take(n as int) =~= s0.toplevels@[t as int].instances@);
                    assert(self.toplevels@[t as int].instances@.take(n as int) =~= self.toplevels@[t as int].instances@);
                }
            } else {
                proof {
                    assert(!any_v(cv));
                    assert(ev_start + Seq::<EventView>::empty() =~= ev_start);
                }
            }
            proof {
                assert(self.toplevels@[t as int].surface == surface);
                assert(first_mirror(s0.toplevels@, surface, t as int));
                lemma_first_mirror_unique(s0.toplevels@, surface, t as int);
                assert forall|j: int| 0 <= j < s0.toplevels@.len() && j != t implies same_mirror(#[trigger] self.toplevels@[j], s0.toplevels@[j]) by {
                    assert(s0.toplevels@[j] == s1.toplevels@[j]);
                }
            }
        } else {
            proof {
                if surfaces(s0.toplevels@).contains(surface) {
                    let j = choose|j: int| 0 <= j < surfaces(s0.toplevels@).len() && surfaces(s0.toplevels@)[j] == surface;
                    assert(s0.toplevels@[j].surface == surface);
                }
            }
            let data = ToplevelData {
                surface,
                title: copy_text(&pending.title),
                app_id: copy_text(&pending.app_id),
                states: to_state_vec(pending.maximized, pending.minimized, pending.fullscreen, pending.focused),
                output: copy_text(&pending.output),
                instances: Vec::new(),
            };
            self.toplevels.push(data);
            let idx = self.toplevels.len() - 1;
            proof {
                assert(surfaces(self.toplevels@) =~= surfaces(s0.toplevels@).push(surface));
                assert forall|j: int| 0 <= j < idx implies same_mirror(#[trigger] self.toplevels@[j], s0.toplevels@[j]) by {
                    assert(self.toplevels@[j] == s0.toplevels@[j]);
                }
            }
            let mut m: usize = 0;
            while m < self.managers.len()
                invariant
                    idx == s0.toplevels@.len(),
                    idx < self.toplevels@.len(),
                    m <= self.managers@.len(),
                    self.managers == s0.managers,
                    self.bound_outputs == s0.bound_outputs,
                    surfaces(self.toplevels@) == surfaces(s0.toplevels@).push(surface),
                    self.toplevels@[idx as int].surface == surface,
                    opt_view(self.toplevels@[idx as int].title) == opt_view(pending.title),
                    opt_view(self.toplevels@[idx as int].app_id) == opt_view(pending.app_id),
                    self.toplevels@[idx as int].states@ == state_seq(pending.maximized, pending.minimized, pending.fullscreen, pending.focused),
                    opt_view(self.toplevels@[idx as int].output) == opt_view(pending.output),
                    extends(events_view(out@), ev_start),
                    self.toplevels@.len() == idx + 1,
                    forall|j: int| 0 <= j < idx ==> same_mirror(#[trigger] self.toplevels@[j], s0.toplevels@[j]),
                    self.toplevels@[idx as int].instances@.len() == m,
                    events_view(out@) == ev_start + new_entry_events(s0.managers@, self.toplevels@[idx as int], m as int),
                decreases self.managers@.len() - m,
            {
                let manager = self.managers[m];
                let ghost evb = events_view(out@);
                let ghost d_before = self.toplevels@[idx as int];
                self.add_instance(idx, manager, out);
                proof { lemma_extends_append(evb, announce_events(manager.id, self.toplevels@[idx as int]), ev_start); }
                proof {
                    let d1 = self.toplevels@[idx as int];
                    assert forall|j: int| 0 <= j < m implies #[trigger] d1.instances@[j] == d_before.instances@[j] by {
                        assert(d1.instances@.drop_last()[j] == d1.instances@[j]);
                    }
                    lemma_new_entry_events_prefix(s0.managers@, d_before, d1, m as int);
                    assert(new_entry_events(s0.managers@, d1, m + 1) == new_entry_events(s0.managers@, d1, m as int)
                        + announce_inst(s0.managers@[m as int].id, d1, d1.instances@[m as int]));
                    assert(d1.instances@.last() == d1.instances@[m as int]);
                    assert(events_view(out@) =~= ev_start + new_entry_events(s0.managers@, d1, m + 1));
                }
                proof {
                    assert(surfaces(self.toplevels@)[idx as int] == self.toplevels@[idx as int].surface);
                }
                m += 1;
            }
            proof {
                assert(self.toplevels@[idx as int].surface == surface);
                assert(self.toplevels@.last() == self.toplevels@[idx as int]);
                if exists|u: int| #[trigger] first_mirror(s0.toplevels@, surface, u) {
                    let u = choose|u: int| #[trigger] first_mirror(s0.toplevels@, surface, u);
                    assert(s0.toplevels@[u].surface == surface);
                    assert(surfaces(s0.toplevels@)[u] == surface);
                }
            }
        }
    }

    /// Drops the mirrors of surfaces that are no longer windows (`live` holds
    /// the window ids), telling each of their handles it is closed.
    pub fn purge(&mut self, live: &Vec<u32>, out: &mut Vec<HandleEvent>)
        ensures
            final(self).managers == old(self).managers,
            final(self).bound_outputs == old(self).bound_outputs,
            surfaces(final(self).toplevels@) == surfaces(old(self).toplevels@).filter(|s: u32| live@.contains(s)),
            events_view(final(out)@) == events_view(old(out)@) + closed_events(old(self).toplevels@, live@),
            final(self).next_handle == old(self).next_handle,
    {
        let ghost s0 = *self;
        let ghost start = events_view(out@);
        let ghost keep = |s: u32| live@.contains(s);
        let mut items: Vec<ToplevelData> = Vec::new();
        core::mem::swap(&mut self.toplevels, &mut items);
        let ghost all = items@;
        let mut reversed: Vec<ToplevelData> = Vec::new();
        while items.len() > 0
            invariant
                keep == (|s: u32| live@.contains(s)),
                items@.len() + reversed@.len() == all.len(),
                items@ == all.take(items@.len() as int),
                forall|j: int| 0 <= j < reversed@.len() ==> #[trigger] reversed@[j] == all[all.len() - 1 - j],
            decreases items@.len(),
        {
            let d = items.pop().unwrap();
            reversed.push(d);
            proof {
                assert(items@ =~= all.take(items@.len() as int));
            }
        }
        while reversed.len() > 0
            invariant
                keep == (|s: u32| live@.contains(s)),
                self.managers == s0.managers,
                self.bound_outputs == s0.bound_outputs,
                reversed@.len() <= all.len(),
                forall|j: int| 0 <= j < reversed@.len() ==> #[trigger] reversed@[j] == all[all.len() - 1 - j],
                surfaces(self.toplevels@) == surfaces(all.take(all.len() - reversed@.len())).filter(keep),
                events_view(out@) == start + closed_events(all.take(all.len() - reversed@.len()), live@),
                self.next_handle == s0.next_handle,
            decreases reversed@.len(),
        {
            let d = reversed.pop().unwrap();
            let ghost k = all.len() - 1 - reversed@.len();
            proof {
                assert(d == all[k]);
                assert(surfaces(all.take(k + 1)).drop_last() =~= surfaces(all.take(k)));
                assert(surfaces(all.take(k + 1)).last() == d.surface);
                assert(all.take(k + 1).drop_last() =~= all.take(k));
                assert(all.take(k + 1).last() == d);
                reveal(Seq::filter);
            }
            let ghost ev0 = events_view(out@);
            if crate::tag::vec_contains(live, d.surface) {
                self.toplevels.push(d);
                proof {
                    assert(surfaces(self.toplevels@) =~= surfaces(all.take(k + 1)).filter(keep));
                    assert(events_view(out@) =~= start + closed_events(all.take(k + 1), live@));
                }
            } else {
                let mut j: usize = 0;
                while j < d.instances.len()
                    invariant
                        j <= d.instances@.len(),
                        events_view(out@) == ev0 + closes(d.instances@.take(j as int)),
                    decreases d.instances@.len() - j,
                {
                    push_event(out, HandleEvent::Closed(d.instances[j].handle));
                    proof {
                        assert(d.instances@.take(j + 1) =~= d.instances@.take(j as int).push(d.instances@[j as int]));
                        assert(closes(d.instances@.take(j + 1)) =~= closes(d.instances@.take(j as int)).push(EventView::Closed(d.instances@[j as int].handle)));
                    }
                    j += 1;
                }
                proof {
                    assert(d.instances@.take(d.instances@.len() as int) =~= d.instances@);
                    assert(surfaces(self.toplevels@) =~= surfaces(all.take(k + 1)).filter(keep));
                    assert(events_view(out@) =~= start + closed_events(all.take(k + 1), live@));
                }
            }
        }
        proof {
            assert(all.take(all.len() as int) =~= all);
            assert(all == s0.toplevels@);
        }
    }

    /// A client bound a manager: it gets a handle on every current toplevel,
    /// in turn.
    pub fn bind_manager(&mut self, manager: Manager, out: &mut Vec<HandleEvent>)
        ensures
            final(self).managers@ == old(self).managers@.push(manager),
            surfaces(final(self).toplevels@) == surfaces(old(self).toplevels@),
            final(self).toplevels@.len() == old(self).toplevels@.len(),
            forall|t: int| 0 <= t < old(self).toplevels@.len() ==> {
                let d0 = old(self).toplevels@[t];
                let d1 = #[trigger] final(self).toplevels@[t];
                &&& d1.title == d0.title && d1.app_id == d0.app_id && d1.states == d0.states && d1.output == d0.output
                &&& d1.instances@.drop_last() == d0.instances@
                &&& d1.instances@.len() == d0.instances@.len() + 1
                &&& d1.instances@.last().client == manager.client
                &&& forall|i: int| 0 <= i < d1.instances@.last().outputs@.len() ==> old(self).is_bound(manager.client,
                    opt_view(d0.output), #[trigger] d1.instances@.last().outputs@[i])
            },
            events_view(final(out)@) == events_view(old(out)@) + replay_events(final(self).toplevels@, manager.id),
    {
        let ghost s0 = *self;
        let ghost start = events_view(out@);
        let mut t: usize = 0;
        while t < self.toplevels.len()
            invariant
                t <= self.toplevels@.len(),
                self.toplevels@.len() == s0.toplevels@.len(),
                self.managers == s0.managers,
                self.bound_outputs == s0.bound_outputs,
                surfaces(self.toplevels@) == surfaces(s0.toplevels@),
                forall|j: int| 0 <= j < s0.toplevels@.len() ==> if j < t {
                    let d0 = s0.toplevels@[j];
                    let d1 = #[trigger] self.toplevels@[j];
                    &&& d1.title == d0.title && d1.app_id == d0.app_id && d1.states == d0.states && d1.output == d0.output
                    &&& d1.instances@.drop_last() == d0.instances@
                    &&& d1.instances@.len() == d0.instances@.len() + 1
                    &&& d1.instances@.last().client == manager.client
                    &&& forall|i: int| 0 <= i < d1.instances@.last().outputs@.len() ==> s0.is_bound(manager.client,
                        opt_view(d0.output), #[trigger] d1.instances@.last().outputs@[i])
                } else {
                    self.toplevels@[j] == s0.toplevels@[j]
                },
                events_view(out@) == start + replay_events(self.toplevels@.take(t as int), manager.id),
            decreases self.toplevels@.len() - t,
        {
            let ghost before = *self;
            let ghost ev0 = events_view(out@);
            self.add_instance(t, manager, out);
            proof {
                assert(self.toplevels@.take(t as int) =~= before.toplevels@.take(t as int));
                assert(self.toplevels@.take(t + 1).drop_last() =~= self.toplevels@.take(t as int));
                assert(self.toplevels@.take(t + 1).last() == self.toplevels@[t as int]);
                assert(events_view(out@) =~= start + replay_events(self.toplevels@.take(t + 1), manager.id));
                assert forall|j: int| 0 <= j < t + 1 implies forall|i: int| 0 <= i < (#[trigger] self.toplevels@[j]).instances@.last().outputs@.len()
                    ==> s0.is_bound(manager.client, opt_view(s0.toplevels@[j].output), self.toplevels@[j].instances@.last().outputs@[i]) by {
                    if j < t {
                        assert(self.toplevels@[j] == before.toplevels@[j]);
                    }
                }
            }
            t += 1;
        }
        proof {
            assert(self.toplevels@.take(self.toplevels@.len() as int) =~= self.toplevels@);
        }
        self.managers.push(manager);
    }

    /// A client bound output `output` as `wl_output`: each of its handles on
    /// a toplevel shown there enters it (then `Done`), in mirror order, and
    /// remembers it; the binding is recorded.
    pub fn on_output_bound(&mut self, client: u32, output: String, wl_output: u32, out: &mut Vec<HandleEvent>)
        ensures
            final(self).managers == old(self).managers,
            final(self).next_handle == old(self).next_handle,
            final(self).bound_outputs@ == old(self).bound_outputs@.push(BoundOutput { client, output, wl_output }),
            events_view(final(out)@) == events_view(old(out)@) + bound_events(old(self).toplevels@, client, output@, wl_output),
            final(self).toplevels@.len() == old(self).toplevels@.len(),
            forall|t: int| 0 <= t < old(self).toplevels@.len() ==> entered(#[trigger] final(self).toplevels@[t],
                old(self).toplevels@[t], client, output@, wl_output),
    {
        let ghost s0 = *self;
        let ghost start = events_view(out@);
        let ghost name = output@;
        let mut t: usize = 0;
        while t < self.toplevels.len()
            invariant
                t <= self.toplevels@.len(),
                name == output@,
                self.toplevels@.len() == s0.toplevels@.len(),
                self.managers == s0.managers,
                self.next_handle == s0.next_handle,
                self.bound_outputs == s0.bound_outputs,
                events_view(out@) == start + bound_events(s0.toplevels@.take(t as int), client, name, wl_output),
                forall|j: int| 0 <= j < s0.toplevels@.len() ==> if j < t {
                    entered(#[trigger] self.toplevels@[j], s0.toplevels@[j], client, name, wl_output)
                } else {
                    self.toplevels@[j] == s0.toplevels@[j]
                },
            decreases self.toplevels@.len() - t,
        {
            let ghost d0 = s0.toplevels@[t as int];
            let ghost ev0 = events_view(out@);
            proof {
                assert(s0.toplevels@.take(t + 1).drop_last() =~= s0.toplevels@.take(t as int));
                assert(s0.toplevels@.take(t + 1).last() == d0);
            }
            let shown_here = match &self.toplevels[t].output {
                Some(n) => *n == output,
                None => false,
            };
            let n = self.toplevels[t].instances.len();
            let mut i: usize = 0;
            let ghost mid = *self;
            while i < n
                invariant
                    t < self.toplevels@.len(),
                    d0 == s0.toplevels@[t as int],
                    shown_here == (opt_view(d0.output) == Some(name)),
                    i <= n,
                    n == d0.instances@.len(),
                    self.toplevels@.len() == s0.toplevels@.len(),
                    self.managers == s0.managers,
                    self.next_handle == s0.next_handle,
                    self.bound_outputs == s0.bound_outputs,
                    forall|j: int| 0 <= j < s0.toplevels@.len() && j != t ==> #[trigger] self.toplevels@[j] == mid.toplevels@[j],
                    self.toplevels@[t as int].surface == d0.surface,
                    self.toplevels@[t as int].title == d0.title,
                    self.toplevels@[t as int].app_id == d0.app_id,
                    self.toplevels@[t as int].states == d0.states,
                    self.toplevels@[t as int].output == d0.output,
                    self.toplevels@[t as int].instances@.len() == n,
                    forall|m: int| 0 <= m < n ==> instance_entered(#[trigger] self.toplevels@[t as int].instances@[m],
                        d0.instances@[m], client, shown_here && m < i, wl_output),
                    events_view(out@) == ev0 + if shown_here {
                        instance_events(d0.instances@.take(i as int), client, wl_output)
                    } else {
                        Seq::empty()
                    },
                decreases n - i,
            {
                proof {
                    assert(d0.instances@.take(i + 1).drop_last() =~= d0.instances@.take(i as int));
                    assert(d0.instances@.take(i + 1).last() == d0.instances@[i as int]);
                }
                if shown_here && self.toplevels[t].instances[i].client == client {
                    let handle = self.toplevels[t].instances[i].handle;
                    push_event(out, HandleEvent::OutputEnter(handle, wl_output));
                    push_event(out, HandleEvent::Done(handle));
                    self.toplevels[t].instances[i].outputs.push(wl_output);
                }
                proof {
                    assert(events_view(out@) =~= ev0 + if shown_here {
                        instance_events(d0.instances@.take(i + 1), client, wl_output)
                    } else {
                        Seq::empty()
                    });
                }
                i += 1;
            }
            proof {
                assert(d0.instances@.take(n as int) =~= d0.instances@);
                assert(events_view(out@) =~= start + bound_events(s0.toplevels@.take(t + 1), client, name, wl_output));
            }
            t += 1;
        }
        proof {
            assert(s0.toplevels@.take(s0.toplevels@.len() as int) =~= s0.toplevels@);
        }
        self.bound_outputs.push(BoundOutput { client, output, wl_output });
    }
}

/// A request a client makes on a toplevel handle.
#[derive(Clone, Copy, Debug, PartialEq, Eq, Structural)]
pub enum HandleRequest {
    SetMaximized,
    UnsetMaximized,
    SetMinimized,
    UnsetMinimized,
    Activate,
    Close,
    /// Fullscreen, optionally on the output the client names.
    SetFullscreen(Option<u32>),
    UnsetFullscreen,
    SetRectangle,
    Destroy,
}

impl ForeignToplevelManagerState {
    /// The surface whose mirror holds handle `handle`: the first one, when
    /// handles repeat.
    pub fn surface_of_handle(&self, handle: u32) -> (r: Option<u32>)
        ensures
            match r {
                Some(s) => exists|t: int, i: int| 0 <= t < self.toplevels@.len() && 0 <= i < self.toplevels@[t].instances@.len()
                    && #[trigger] self.toplevels@[t].instances@[i].handle == handle && self.toplevels@[t].surface == s,
                None => forall|t: int, i: int| 0 <= t < self.toplevels@.len() && 0 <= i < self.toplevels@[t].instances@.len()
                    ==> #[trigger] self.toplevels@[t].instances@[i].handle != handle,
            },
    {
        let mut t: usize = 0;
        while t < self.toplevels.len()
            invariant
                t <= self.toplevels@.len(),
                forall|t2: int, i: int| 0 <= t2 < t && 0 <= i < self.toplevels@[t2].instances@.len()
                    ==> #[trigger] self.toplevels@[t2].instances@[i].handle != handle,
            decreases self.toplevels@.len() - t,
        {
            let mut i: usize = 0;
            while i < self.toplevels[t].instances.len()
                invariant
                    t < self.toplevels@.len(),
                    i <= self.toplevels@[t as int].instances@.len(),
                    forall|j: int| 0 <= j < i ==> #[trigger] self.toplevels@[t as int].instances@[j].handle != handle,
                decreases self.toplevels@[t as int].instances@.len() - i,
            {
                if self.toplevels[t].instances[i].handle == handle {
                    return Some(self.toplevels[t].surface);
                }
                i += 1;
            }
            t += 1;
        }
        None
    }

    /// A client's request on handle `handle`: the surface it is about and the
    /// request to carry out, or `None` for a handle of no mirror and for the
    /// requests that ask nothing of the window (setting a rectangle,
    /// destroying the handle).
    pub fn route_request(&self, handle: u32, request: HandleRequest) -> (r: Option<(u32, HandleRequest)>)
        ensures
            match r {
                Some((s, req)) => req == request && request != HandleRequest::SetRectangle && request != HandleRequest::Destroy
                    && exists|t: int, i: int| 0 <= t < self.toplevels@.len() && 0 <= i < self.toplevels@[t].instances@.len()
                        && #[trigger] self.toplevels@[t].instances@[i].handle == handle && self.toplevels@[t].surface == s,
                None => request == HandleRequest::SetRectangle || request == HandleRequest::Destroy
                    || forall|t: int, i: int| 0 <= t < self.toplevels@.len() && 0 <= i < self.toplevels@[t].instances@.len()
                        ==> #[trigger] self.toplevels@[t].instances@[i].handle != handle,
            },
    {
        let surface = match self.surface_of_handle(handle) {
            Some(s) => s,
            None => return None,
        };
        match request {
            HandleRequest::SetRectangle | HandleRequest::Destroy => None,
            _ => Some((surface, request)),
        }
    }

    /// Handle `handle` was destroyed: no mirror keeps it.
    pub fn handle_destroyed(&mut self, handle: u32)
        ensures
            surfaces(final(self).toplevels@) == surfaces(old(self).toplevels@),
            final(self).managers == old(self).managers,
            forall|t: int, i: int| 0 <= t < final(self).toplevels@.len() && 0 <= i < final(self).toplevels@[t].instances@.len()
                ==> #[trigger] final(self).toplevels@[t].instances@[i].handle != handle,
    {
        let ghost s0 = *self;
        let mut t: usize = 0;
        while t < self.toplevels.len()
            invariant
                t <= self.toplevels@.len(),
                self.managers == s0.managers,
                surfaces(self.toplevels@) == surfaces(s0.toplevels@),
                forall|t2: int, i: int| 0 <= t2 < t && 0 <= i < self.toplevels@[t2].instances@.len()
                    ==> #[trigger] self.toplevels@[t2].instances@[i].handle != handle,
            decreases self.toplevels@.len() - t,
        {
            let mut kept: Vec<Instance> = Vec::new();
            let mut old_list: Vec<Instance> = Vec::new();
            core::mem::swap(&mut self.toplevels[t].instances, &mut old_list);
            let ghost before = *self;
            while old_list.len() > 0
                invariant
                    forall|j: int| 0 <= j < kept@.len() ==> #[trigger] kept@[j].handle != handle,
                decreases old_list@.len(),
            {
                let inst = old_list.remove(0);
                if inst.handle != handle {
                    kept.push(inst);
                }
            }
            self.toplevels[t].instances = kept;
            proof {
                assert(surfaces(self.toplevels@) =~= surfaces(before.toplevels@));
                assert forall|t2: int, i: int| 0 <= t2 < t + 1 && 0 <= i < self.toplevels@[t2].instances@.len()
                    implies #[trigger] self.toplevels@[t2].instances@[i].handle != handle by {
                    if t2 < t {
                        assert(self.toplevels@[t2] == before.toplevels@[t2]);
                    }
                }
            }
            t += 1;
        }
    }

    /// Manager `manager` stopped or was destroyed: it gets no new handles.
    pub fn manager_stopped(&mut self, manager: u32)
        ensures
            forall|i: int| 0 <= i < final(self).managers@.len() ==> (#[trigger] final(self).managers@[i]).id != manager,
            forall|i: int| 0 <= i < old(self).managers@.len() && old(self).managers@[i].id != manager
                ==> final(self).managers@.contains(#[trigger] old(self).managers@[i]),
            final(self).toplevels == old(self).toplevels,
    {
        let ghost m0 = self.managers@;
        let mut kept: Vec<Manager> = Vec::new();
        let mut i: usize = 0;
        while i < self.managers.len()
            invariant
                self.managers@ == m0,
                i <= m0.len(),
                forall|j: int| 0 <= j < kept@.len() ==> (#[trigger] kept@[j]).id != manager,
                forall|j: int| 0 <= j < i && m0[j].id != manager ==> kept@.contains(#[trigger] m0[j]),
            decreases m0.len() - i,
        {
            let m = self.managers[i];
            let ghost prev = kept@;
            if m.id != manager {
                kept.push(m);
                proof {
                    assert forall|j: int| 0 <= j < i + 1 && m0[j].id != manager implies kept@.contains(#[trigger] m0[j]) by {
                        if j == i {
                            assert(kept@[kept@.len() - 1] == m0[j]);
                        } else {
                            let k = choose|k: int| 0 <= k < prev.len() && prev[k] == m0[j];
                            assert(kept@[k] == m0[j]);
                        }
                    }
                }
            }
            i += 1;
        }
        self.managers = kept;
    }
}

/// `a` starts with `b`.
pub open spec fn extends(a: Seq<EventView>, b: Seq<EventView>) -> bool {
    a.len() >= b.len() && a.subrange(0, b.len() as int) == b
}

/// Mirror `d` already shows `p`.
pub open spec fn mirror_matches(d: ToplevelData, p: PendingToplevelData) -> bool {
    &&& opt_view(d.title) == opt_view(p.title)
    &&& opt_view(d.app_id) == opt_view(p.app_id)
    &&& d.states@ == state_seq(p.maximized, p.minimized, p.fullscreen, p.focused)
    &&& opt_view(d.output) == opt_view(p.output)
}

/// Appending to a sequence that starts with `c` keeps `c` as its start.
proof fn lemma_extends_append(b: Seq<EventView>, x: Seq<EventView>, c: Seq<EventView>)
    requires
        extends(b, c),
    ensures
        extends(b + x, c),
{
    assert((b + x).subrange(0, c.len() as int) =~= b.subrange(0, c.len() as int));
}

/// Starting with a sequence that starts with `c` means starting with `c`.
proof fn lemma_extends_trans(a: Seq<EventView>, b: Seq<EventView>, c: Seq<EventView>)
    requires
        extends(a, b),
        extends(b, c),
    ensures
        extends(a, c),
{
    assert(a.subrange(0, c.len() as int) =~= b.subrange(0, c.len() as int));
}

/// What the mirror of window `id` of `s` should show: `p` matches it.
pub open spec fn pending_for(s: Pinnacle, id: u32, p: PendingToplevelData) -> bool {
    &&& crate::window::window_pos(s, id) is Some
    &&& pending_matches(s, s.windows@[crate::window::window_pos(s, id).unwrap()], p,
        output_name_of(s, s.windows@[crate::window::window_pos(s, id).unwrap()]))
}

/// One step of a refresh: the mirror of window `id` brought up to date with
/// what that window should show.
pub open spec fn refresh_step(
    s: Pinnacle,
    ms: Seq<Manager>,
    id: u32,
    ts0: Seq<ToplevelData>,
    ts1: Seq<ToplevelData>,
    ev0: Seq<EventView>,
    ev1: Seq<EventView>,
) -> bool {
    exists|p: PendingToplevelData| #[trigger] pending_for(s, id, p) && toplevel_refreshed(ts0, ts1, id, p, ms, ev0, ev1)
}

/// The first `n` steps of a refresh over `order`: the mirrors `tss[i]` and
/// events `evs[i]` before step `i`, each step refreshing window `order[i]`.
pub open spec fn refresh_trace(
    s: Pinnacle,
    ms: Seq<Manager>,
    order: Seq<u32>,
    tss: Seq<Seq<ToplevelData>>,
    evs: Seq<Seq<EventView>>,
    n: int,
) -> bool {
    &&& 0 <= n <= order.len()
    &&& tss.len() == n + 1
    &&& evs.len() == n + 1
    &&& forall|i: int| 0 <= i < n ==> #[trigger] refresh_step(s, ms, order[i], tss[i], tss[i + 1], evs[i], evs[i + 1])
}

/// A trace grows by one step.
proof fn lemma_trace_push(
    s: Pinnacle,
    ms: Seq<Manager>,
    order: Seq<u32>,
    tss: Seq<Seq<ToplevelData>>,
    evs: Seq<Seq<EventView>>,
    n: int,
    ts: Seq<ToplevelData>,
    ev: Seq<EventView>,
    p: PendingToplevelData,
)
    requires
        refresh_trace(s, ms, order, tss, evs, n),
        n < order.len(),
        pending_for(s, order[n], p),
        toplevel_refreshed(tss.last(), ts, order[n], p, ms, evs.last(), ev),
    ensures
        refresh_trace(s, ms, order, tss.push(ts), evs.push(ev), n + 1),
{
    let tss1 = tss.push(ts);
    let evs1 = evs.push(ev);
    assert forall|i: int| 0 <= i < n + 1 implies #[trigger] refresh_step(s, ms, order[i], tss1[i], tss1[i + 1], evs1[i], evs1[i + 1]) by {
        if i < n {
            assert(refresh_step(s, ms, order[i], tss[i], tss[i + 1], evs[i], evs[i + 1]));
            assert(tss1[i] == tss[i] && tss1[i + 1] == tss[i + 1] && evs1[i] == evs[i] && evs1[i + 1] == evs[i + 1]);
        } else {
            assert(tss1[i] == tss.last() && evs1[i] == evs.last());
            assert(pending_for(s, order[i], p));
        }
    }
}

/// Every mirror in `ts` is of a mapped window of `s`.
pub open spec fn mirrors_live(ts: Seq<ToplevelData>, s: Pinnacle) -> bool {
    forall|t: int| 0 <= t < surfaces(ts).len() ==> crate::state::ids_of_windows(s.windows@).contains(#[trigger] surfaces(ts)[t])
}

/// A sequence starts with itself.
proof fn lemma_extends_refl(a: Seq<EventView>)
    ensures
        extends(a, a),
{
    assert(a.subrange(0, a.len() as int) =~= a);
}

/// `Closed` on each of the handles `insts`, in order.
pub open spec fn closes(insts: Seq<Instance>) -> Seq<EventView> {
    insts.map_values(|i: Instance| EventView::Closed(i.handle))
}

/// The events purging sends: `Closed` on every handle of each mirror whose
/// surface is not in `live`, mirror by mirror.
pub open spec fn closed_events(ts: Seq<ToplevelData>, live: Seq<u32>) -> Seq<EventView>
    decreases ts.len(),
{
    if ts.len() == 0 {
        Seq::empty()
    } else {
        closed_events(ts.drop_last(), live) + if live.contains(ts.last().surface) {
            Seq::<EventView>::empty()
        } else {
            closes(ts.last().instances@)
        }
    }
}

/// Everything a new handle `h` is told about mirror `d`: title and app id
/// when known, the states, the outputs `outs` it enters, then `Done`.
pub open spec fn initial_events(h: u32, d: ToplevelData, outs: Seq<u32>) -> Seq<EventView> {
    let t = if d.title is Some { seq![EventView::Title(h, d.title.unwrap()@)] } else { Seq::<EventView>::empty() };
    let a = if d.app_id is Some { seq![EventView::AppId(h, d.app_id.unwrap()@)] } else { Seq::<EventView>::empty() };
    t + a + seq![EventView::State(h, d.states@)] + enters(h, outs) + seq![EventView::Done(h)]
}

/// How mirror `d`'s newest handle is announced to manager `m`: `Created`,
/// then everything about the toplevel.
pub open spec fn announce_events(m: u32, d: ToplevelData) -> Seq<EventView> {
    announce_inst(m, d, d.instances@.last())
}

/// How handle `inst` on mirror `d` is announced to manager `m`.
pub open spec fn announce_inst(m: u32, d: ToplevelData, inst: Instance) -> Seq<EventView> {
    seq![EventView::Created(m, inst.handle)] + initial_events(inst.handle, d, inst.outputs@)
}

/// The events a new mirror `d` sends: its first `k` handles, one per manager
/// of `ms` in order, each announced to its manager.
pub open spec fn new_entry_events(ms: Seq<Manager>, d: ToplevelData, k: int) -> Seq<EventView>
    decreases k,
{
    if k <= 0 {
        Seq::empty()
    } else {
        new_entry_events(ms, d, k - 1) + announce_inst(ms[k - 1].id, d, d.instances@[k - 1])
    }
}

/// The announcements of the first `k` handles depend only on those handles
/// and on what the mirror shows.
proof fn lemma_new_entry_events_prefix(ms: Seq<Manager>, d0: ToplevelData, d1: ToplevelData, k: int)
    requires
        0 <= k <= d0.instances@.len(),
        k <= d1.instances@.len(),
        d1.title == d0.title,
        d1.app_id == d0.app_id,
        d1.states == d0.states,
        forall|j: int| 0 <= j < k ==> #[trigger] d1.instances@[j] == d0.instances@[j],
    ensures
        new_entry_events(ms, d1, k) == new_entry_events(ms, d0, k),
    decreases k,
{
    if k > 0 {
        lemma_new_entry_events_prefix(ms, d0, d1, k - 1);
    }
}

/// `ts1` and the events `ev1` are `ts0` and `ev0` after the mirror of
/// `surface` was brought up to date with `p` (`ms` the managers): an existing
/// mirror (the first of that surface) sends each handle only what changed,
/// then `Done`; a new mirror gets a handle per manager, each announced.
pub open spec fn toplevel_refreshed(
    ts0: Seq<ToplevelData>,
    ts1: Seq<ToplevelData>,
    surface: u32,
    p: PendingToplevelData,
    ms: Seq<Manager>,
    ev0: Seq<EventView>,
    ev1: Seq<EventView>,
) -> bool {
    if exists|t: int| #[trigger] first_mirror(ts0, surface, t) {
        let t = choose|t: int| #[trigger] first_mirror(ts0, surface, t);
        &&& ts1.len() == ts0.len()
        &&& mirror_matches(ts1[t], p)
        &&& ts1[t].surface == surface
        &&& ev1 == ev0 + handles_change_events(ts0[t].instances@, ts1[t].instances@, diff_view(ts0[t], p))
        &&& forall|j: int| 0 <= j < ts0.len() && j != t ==> same_mirror(#[trigger] ts1[j], ts0[j])
    } else {
        &&& ts1.len() == ts0.len() + 1
        &&& mirror_matches(ts1.last(), p)
        &&& ts1.last().surface == surface
        &&& ts1.last().instances@.len() == ms.len()
        &&& ev1 == ev0 + new_entry_events(ms, ts1.last(), ms.len() as int)
        &&& forall|j: int| 0 <= j < ts0.len() ==> same_mirror(#[trigger] ts1[j], ts0[j])
    }
}

/// `t` is the first mirror of `surface` in `ts`.
pub open spec fn first_mirror(ts: Seq<ToplevelData>, surface: u32, t: int) -> bool {
    &&& 0 <= t < ts.len()
    &&& ts[t].surface == surface
    &&& forall|j: int| 0 <= j < t ==> ts[j].surface != surface
}

/// The first mirror of a surface is unique.
proof fn lemma_first_mirror_unique(ts: Seq<ToplevelData>, surface: u32, t: int)
    requires
        first_mirror(ts, surface, t),
    ensures
        (choose|u: int| #[trigger] first_mirror(ts, surface, u)) == t,
{
    let u = choose|u: int| #[trigger] first_mirror(ts, surface, u);
    if u < t {
        assert(ts[u].surface != surface);
    }
    if t < u {
        assert(ts[t].surface != surface);
    }
}

/// The replay a newly bound manager `m` gets: each mirror in turn announced.
pub open spec fn replay_events(ts: Seq<ToplevelData>, m: u32) -> Seq<EventView>
    decreases ts.len(),
{
    if ts.len() == 0 {
        Seq::empty()
    } else {
        replay_events(ts.drop_last(), m) + announce_events(m, ts.last())
    }
}

/// The events a binding of `w` by `client` sends on a toplevel's handles:
/// `OutputEnter` then `Done` on each handle of that client.
pub open spec fn instance_events(insts: Seq<Instance>, client: u32, w: u32) -> Seq<EventView>
    decreases insts.len(),
{
    if insts.len() == 0 {
        Seq::empty()
    } else {
        let last = insts.last();
        instance_events(insts.drop_last(), client, w) + if last.client == client {
            seq![EventView::OutputEnter(last.handle, w), EventView::Done(last.handle)]
        } else {
            Seq::empty()
        }
    }
}

/// The events a binding of output `name` as `w` by `client` sends, over the
/// mirrors `ts` in order: only mirrors shown on that output take part.
pub open spec fn bound_events(ts: Seq<ToplevelData>, client: u32, name: Seq<char>, w: u32) -> Seq<EventView>
    decreases ts.len(),
{
    if ts.len() == 0 {
        Seq::empty()
    } else {
        bound_events(ts.drop_last(), client, name, w) + if opt_view(ts.last().output) == Some(name) {
            instance_events(ts.last().instances@, client, w)
        } else {
            Seq::empty()
        }
    }
}

/// Instance `i1` is `i0`, having learned of `w` when `gets` and it is `client`'s.
pub open spec fn instance_entered(i1: Instance, i0: Instance, client: u32, gets: bool, w: u32) -> bool {
    &&& i1.handle == i0.handle
    &&& i1.client == i0.client
    &&& i1.outputs@ == if gets && i0.client == client { i0.outputs@.push(w) } else { i0.outputs@ }
}

/// Mirror `d1` is `d0` after `client` bound output `name` as `w`.
pub open spec fn entered(d1: ToplevelData, d0: ToplevelData, client: u32, name: Seq<char>, w: u32) -> bool {
    &&& d1.surface == d0.surface
    &&& d1.title == d0.title
    &&& d1.app_id == d0.app_id
    &&& d1.states == d0.states
    &&& d1.output == d0.output
    &&& d1.instances@.len() == d0.instances@.len()
    &&& forall|m: int| 0 <= m < d0.instances@.len() ==> instance_entered(#[trigger] d1.instances@[m], d0.instances@[m],
        client, opt_view(d0.output) == Some(name), w)
}

/// Refreshes the whole mirror from the core state: mirrors of vanished
/// windows are closed, then every window other than the focused one is
/// refreshed, and the focused one last. The events are the closes followed
/// by one step per window in that order: an existing mirror's handles are
/// told only what changed, then `Done`; a new mirror is announced to every
/// manager. Each mirror ends up showing its window's title, app id, states
/// and output.
#[verifier::rlimit(100)]
pub fn refresh(mirror: &mut ForeignToplevelManagerState, state: &Pinnacle) -> (r: Vec<HandleEvent>)
    requires
        state.wf(),
    ensures
        final(mirror).managers == old(mirror).managers,
        forall|i: int| 0 <= i < refresh_order_spec(*state).len()
            ==> surfaces(final(mirror).toplevels@).contains(#[trigger] refresh_order_spec(*state)[i]),
        mirror_shows_all(final(mirror).toplevels@, *state),
        extends(events_view(r@), closed_events(old(mirror).toplevels@, ids_of_windows(state.windows@))),
        mirrors_live(final(mirror).toplevels@, *state),
        exists|tss: Seq<Seq<ToplevelData>>, evs: Seq<Seq<EventView>>|
            refresh_trace(*state, old(mirror).managers@, refresh_order_spec(*state), tss, evs,
                refresh_order_spec(*state).len() as int)
            && surfaces(tss[0]) == surfaces(old(mirror).toplevels@).filter(|x: u32| ids_of_windows(state.windows@).contains(x))
            && evs[0] == closed_events(old(mirror).toplevels@, ids_of_windows(state.windows@))
            && tss.last() == final(mirror).toplevels@
            && evs.last() == events_view(r@),
{
    let ghost mstart = *mirror;
    let mut out: Vec<HandleEvent> = Vec::new();
    let live = crate::window::get_all(state);
    let mut live_ids: Vec<u32> = Vec::new();
    let mut i: usize = 0;
    while i < live.len()
        invariant
            i <= live@.len(),
            live_ids@.len() == i,
            forall|j: int| 0 <= j < i ==> #[trigger] live_ids@[j] == live@[j].id,
        decreases live@.len() - i,
    {
        live_ids.push(live[i].id);
        i += 1;
    }
    proof {
        assert(live_ids@ =~= ids_of_windows(state.windows@));
        assert(events_view(out@) =~= Seq::<EventView>::empty());
    }
    let ghost pre = surfaces(mirror.toplevels@);
    mirror.purge(&live_ids, &mut out);
    let ghost cl = closed_events(mstart.toplevels@, ids_of_windows(state.windows@));
    proof {
        assert(events_view(out@) =~= cl);
        lemma_extends_refl(cl);
        assert forall|t: int| 0 <= t < surfaces(mirror.toplevels@).len() implies
            ids_of_windows(state.windows@).contains(#[trigger] surfaces(mirror.toplevels@)[t]) by {
            let x = surfaces(mirror.toplevels@)[t];
            assert(surfaces(mirror.toplevels@).contains(x));
            crate::seq_facts::lemma_filter_contains(pre, |v: u32| live_ids@.contains(v), x);
        }
    }
    let order = refresh_order(state);
    let ghost m0 = *mirror;
    let ghost mut tss: Seq<Seq<ToplevelData>> = seq![mirror.toplevels@];
    let ghost mut evs: Seq<Seq<EventView>> = seq![events_view(out@)];
    proof {
        assert(live_ids@ == ids_of_windows(state.windows@));
    }
    let mut i: usize = 0;
    while i < order.len()
        invariant
            refresh_trace(*state, m0.managers@, order@, tss, evs, i as int),
            surfaces(tss[0]) == surfaces(mstart.toplevels@).filter(|x: u32| ids_of_windows(state.windows@).contains(x)),
            evs[0] == cl,
            tss.last() == mirror.toplevels@,
            evs.last() == events_view(out@),
            state.wf(),
            i <= order@.len(),
            order@ == refresh_order_spec(*state),
            mirror.managers == m0.managers,
            forall|j: int| 0 <= j < i ==> surfaces(mirror.toplevels@).contains(#[trigger] order@[j]),
            forall|j: int| 0 <= j < i ==> shown(mirror.toplevels@, *state, #[trigger] order@[j]),
            extends(events_view(out@), cl),
            mirrors_live(mirror.toplevels@, *state),
        decreases order@.len() - i,
    {
        let id = order[i];
        let ghost ev_before = events_view(out@);
        let ghost sur_before = surfaces(mirror.toplevels@);
        if let Some(k) = state.window_index(id) {
            let pending = pending_toplevel_data_for(state, k);
            let ghost before = surfaces(mirror.toplevels@);
            let ghost mb = *mirror;
            mirror.refresh_toplevel(id, &pending, &mut out);
            proof {
                crate::window::lemma_window_pos_unique(*state, id);
                assert(pending_for(*state, id, pending));
                lemma_trace_push(*state, m0.managers@, order@, tss, evs, i as int, mirror.toplevels@, events_view(out@), pending);
                tss = tss.push(mirror.toplevels@);
                evs = evs.push(events_view(out@));
                lemma_extends_trans(events_view(out@), ev_before, cl);
                assert(ids_of_windows(state.windows@)[k as int] == id);
                assert forall|t: int| 0 <= t < surfaces(mirror.toplevels@).len() implies
                    ids_of_windows(state.windows@).contains(#[trigger] surfaces(mirror.toplevels@)[t]) by {
                    if t < sur_before.len() {
                        assert(surfaces(mirror.toplevels@)[t] == sur_before[t]);
                    }
                }
                let t_new = choose|t: int| 0 <= t < mirror.toplevels@.len() && {
                    let d = #[trigger] mirror.toplevels@[t];
                    &&& d.surface == id
                    &&& opt_view(d.title) == opt_view(pending.title)
                    &&& opt_view(d.app_id) == opt_view(pending.app_id)
                    &&& d.states@ == state_seq(pending.maximized, pending.minimized, pending.fullscreen, pending.focused)
                    &&& opt_view(d.output) == opt_view(pending.output)
                };
                assert(shows_window(mirror.toplevels@[t_new], *state, state.windows@[k as int]));
                assert forall|j: int| 0 <= j < i + 1 implies shown(mirror.toplevels@, *state, #[trigger] order@[j]) by {
                    if j == i || order@[j] == id {
                        crate::window::lemma_window_pos_unique(*state, id);
                        assert(state.windows@[k as int].id == order@[j]);
                        assert(shows_window(mirror.toplevels@[t_new], *state, state.windows@[k as int]));
                    } else {
                        assert(shown(mb.toplevels@, *state, order@[j]));
                        let (k2, t2) = choose|k2: int, t2: int|
                            0 <= k2 < state.windows@.len() && 0 <= t2 < mb.toplevels@.len() && state.windows@[k2].id == order@[j]
                            && #[trigger] shows_window(mb.toplevels@[t2], *state, state.windows@[k2]);
                        assert(same_mirror(mirror.toplevels@[t2], mb.toplevels@[t2]));
                        assert(shows_window(mirror.toplevels@[t2], *state, state.windows@[k2]));
                    }
                }
                assert forall|j: int| 0 <= j <= i implies surfaces(mirror.toplevels@).contains(#[trigger] order@[j]) by {
                    if j < i {
                        let p = choose|p: int| 0 <= p < before.len() && before[p] == order@[j];
                        if before.contains(id) {
                            assert(surfaces(mirror.toplevels@)[p] == order@[j]);
                        } else {
                            assert(surfaces(mirror.toplevels@)[p] == order@[j]);
                        }
                    } else {
                        let t = choose|t: int| 0 <= t < mirror.toplevels@.len() && (#[trigger] mirror.toplevels@[t]).surface == id;
                        assert(surfaces(mirror.toplevels@)[t] == id);
                    }
                }
            }
        } else {
            proof {
                lemma_order_ids_mapped(*state, i as int);
                assert(false);
            }
        }
        i += 1;
    }
    proof {
        assert forall|i: int| 0 <= i < refresh_order_spec(*state).len() implies
            shown(mirror.toplevels@, *state, #[trigger] refresh_order_spec(*state)[i]) by {
            assert(order@[i] == refresh_order_spec(*state)[i]);
            assert(shown(mirror.toplevels@, *state, order@[i]));
        }
    }
    out
}

/// Every id in the refresh order is a mapped window.
proof fn lemma_order_ids_mapped(s: Pinnacle, i: int)
    requires
        0 <= i < refresh_order_spec(s).len(),
    ensures
        crate::state::ids_of_windows(s.windows@).contains(refresh_order_spec(s)[i]),
{
    let keep = |w: WindowState| !w.override_redirect;
    let fl = s.windows@.filter(keep);
    let ids = fl.map_values(|w: WindowState| w.id);
    let x = refresh_order_spec(s)[i];
    assert(ids.contains(x)) by {
        match s.focus() {
            Some(f) => if ids.contains(f) {
                let o = ids.filter(|v: u32| v != f);
                if i < o.len() {
                    assert(o.contains(x));
                    crate::seq_facts::lemma_filter_contains(ids, |v: u32| v != f, x);
                }
            },
            None => {},
        }
    }
    let j = choose|j: int| 0 <= j < ids.len() && ids[j] == x;
    assert(fl[j].id == x);
    assert(fl.contains(fl[j]));
    s.windows@.lemma_filter_contains_rev(keep, fl[j]);
    let k = choose|k: int| 0 <= k < s.windows@.len() && s.windows@[k] == fl[j];
    assert(crate::state::ids_of_windows(s.windows@)[k] == x);
}

} // verus!
