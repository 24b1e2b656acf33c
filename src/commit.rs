//! The surface commit pipeline: what a root-surface commit does to the
//! window model, and which outputs must lay out and render afterwards.
use crate::geometry::{Point, Rect};
use crate::output::Output;
use crate::seq_facts::{lemma_move_left, lemma_move_right};
use crate::state::{ids_of_tags, ids_of_unmapped, ids_of_windows, lemma_wf_frame, lemma_wf_same_tags, Pinnacle};
use crate::tag_set::{tag_ids, tag_set_clone, tag_set_get_index, tag_set_insert, tag_set_len, tag_set_new};
use crate::window::{LayoutMode, UnmappedState, UnmappedWindow, WindowState};
use indexmap::IndexSet;
use vstd::prelude::*;

verus! {

/// What the committed surface belongs to, as the toolkit resolved it.
#[derive(Clone, Copy, Debug, PartialEq, Eq, Structural)]
pub enum CommitTarget {
    /// A toplevel's surface, or a subsurface of it; by window id.
    Window(u32),
    /// A popup, rooted at a window or at a layer surface on an output.
    Popup { root_window: Option<u32>, layer_output: Option<usize>, initial_configure_sent: bool },
    /// A layer-shell surface on an output.
    Layer { output: usize, initial_configure_sent: bool, arrangement_changed: bool },
    /// The cursor image.
    Cursor,
    /// A drag-and-drop icon.
    DndIcon,
    /// The lock surface of an output.
    LockSurface(usize),
    /// A decoration surface of a window.
    Decoration { window: u32, bounds_changed: bool },
    /// Nothing the compositor tracks.
    Unknown,
}

/// A surface commit.
#[derive(Clone, Copy, Debug, PartialEq, Eq, Structural)]
pub struct Commit {
    /// A synchronized subsurface: its parent's commit will carry it.
    pub sync_subsurface: bool,
    /// The surface is a root surface.
    pub root: bool,
    /// A buffer is attached after this commit.
    pub has_buffer: bool,
    pub target: CommitTarget,
}

/// What the event loop must do after a commit.
pub struct CommitOutcome {
    /// An unmapped window that became mapped.
    pub mapped: Option<u32>,
    /// A mapped window that lost its buffer and was unmapped.
    pub unmapped: Option<u32>,
    /// A window whose rules must now be asked for.
    pub rules_requested: Option<u32>,
    /// The surface still needs its initial configure.
    pub send_initial_configure: bool,
    /// Reactive popups of the window must be repositioned.
    pub reposition_popups: bool,
    /// A floating window whose geometry must follow its decorations.
    pub update_floating_geometry: Option<u32>,
    /// Outputs that need a new layout.
    pub layout: Vec<usize>,
    /// Outputs scheduled for render.
    pub render: Vec<usize>,
}

/// The index of the unmapped window `id`, when there is one.
pub open spec fn unmapped_pos(s: Pinnacle, id: u32) -> Option<int> {
    if exists|k: int| 0 <= k < s.unmapped_windows@.len() && #[trigger] s.unmapped_windows@[k].window.id == id {
        Some(choose|k: int| 0 <= k < s.unmapped_windows@.len() && #[trigger] s.unmapped_windows@[k].window.id == id)
    } else {
        None
    }
}

/// The output a window is on: the one holding its first tag.
pub open spec fn output_of_window(outputs: Seq<Output>, w: WindowState) -> Option<int> {
    if tag_ids(w.tags).len() > 0 && exists|o: int| 0 <= o < outputs.len() && #[trigger] tag_ids(outputs[o].tags).contains(tag_ids(w.tags)[0]) {
        Some(choose|o: int| 0 <= o < outputs.len() && #[trigger] tag_ids(outputs[o].tags).contains(tag_ids(w.tags)[0]))
    } else {
        None
    }
}

/// The output named `name`.
pub open spec fn output_named(outputs: Seq<Output>, name: Seq<char>) -> Option<int> {
    if exists|o: int| 0 <= o < outputs.len() && #[trigger] outputs[o].name@ == name {
        Some(choose|o: int| 0 <= o < outputs.len() && #[trigger] outputs[o].name@ == name)
    } else {
        None
    }
}

/// The output a waiting window takes its tags from: its target output when
/// that exists, else the focused output.
pub open spec fn seed_source(s: Pinnacle, u: UnmappedWindow) -> Option<int> {
    let from_target = match u.target_output {
        Some(n) => output_named(s.outputs@, n@),
        None => None,
    };
    match from_target {
        Some(o) => Some(o),
        None => match s.focused_output {
            Some(f) => output_named(s.outputs@, f@),
            None => None,
        },
    }
}

/// How a commit without a buffer treats a window `u0` of `s` that waits for
/// tags (`u1` after, `r` whether rules were asked for): a window that already
/// has an output asks for its rules; otherwise, when its seed output has
/// tags, it takes them (`took_output_tags`) and asks for its rules; otherwise
/// nothing changes.
pub open spec fn seeded_as(s: Pinnacle, u0: UnmappedWindow, u1: UnmappedWindow, r: bool) -> bool {
    &&& r == (output_of_window(s.outputs@, u0.window) is Some
        || (seed_source(s, u0) matches Some(o) && tag_ids(s.outputs@[o].tags).len() > 0))
    &&& u1 == (UnmappedWindow {
        state: if r { UnmappedState::WaitingForRules } else { UnmappedState::WaitingForTags },
        window: WindowState { tags: u1.window.tags, ..u0.window },
        ..u0
    })
    &&& output_of_window(s.outputs@, u0.window) is Some ==> u1.window.tags == u0.window.tags
    &&& output_of_window(s.outputs@, u0.window) is None && r ==> took_output_tags(s, seed_source(s, u0).unwrap(), tag_ids(u1.window.tags))
    &&& !r ==> u1.window.tags == u0.window.tags
}

/// The outputs a mapped window `id` is shown on: its output, if it has one.
pub open spec fn window_outputs(s: Pinnacle, id: u32) -> Seq<usize> {
    match crate::window::window_pos(s, id) {
        Some(k) => match output_of_window(s.outputs@, s.windows@[k]) {
            Some(o) => seq![o as usize],
            None => Seq::empty(),
        },
        None => Seq::empty(),
    }
}

/// A root commit of a mapped window's surface repositions its reactive popups.
pub open spec fn repositions(s: Pinnacle, c: Commit) -> bool {
    &&& !c.sync_subsurface
    &&& c.root
    &&& c.target is Window
    &&& unmapped_pos(s, c.target->Window_0) is None
    &&& crate::window::window_pos(s, c.target->Window_0) is Some
}

/// The outputs a popup is shown on: its root window's output, or else the
/// output of the layer surface it belongs to.
pub open spec fn popup_outputs(s: Pinnacle, root_window: Option<u32>, layer_output: Option<usize>) -> Seq<usize> {
    let from_window = match root_window {
        Some(w) => window_outputs(s, w),
        None => Seq::empty(),
    };
    if from_window.len() > 0 {
        from_window
    } else {
        match layer_output {
            Some(o) => seq![o],
            None => Seq::empty(),
        }
    }
}

/// In a well-formed state a window's output is the one holding its first tag.
pub proof fn lemma_output_of_window(s: Pinnacle, w: WindowState, o: int)
    requires
        s.wf(),
        0 <= o < s.outputs@.len(),
        tag_ids(w.tags).len() > 0,
        s.output_has_tag(o, tag_ids(w.tags)[0]),
    ensures
        output_of_window(s.outputs@, w) == Some(o),
{
    let c = choose|c: int| 0 <= c < s.outputs@.len() && #[trigger] tag_ids(s.outputs@[c].tags).contains(tag_ids(w.tags)[0]);
    if c != o {
        assert(s.output_has_tag(c, tag_ids(w.tags)[0]));
        assert(!s.output_has_tag(c, tag_ids(w.tags)[0]));
    }
}

/// In a well-formed state an output name names one output.
proof fn lemma_output_named(s: Pinnacle, name: Seq<char>, o: int)
    requires
        s.wf(),
        0 <= o < s.outputs@.len(),
        s.outputs@[o].name@ == name,
    ensures
        output_named(s.outputs@, name) == Some(o),
{
    let c = choose|c: int| 0 <= c < s.outputs@.len() && #[trigger] s.outputs@[c].name@ == name;
    if c != o {
        assert(s.outputs@[c].name@ != s.outputs@[o].name@);
    }
}

/// The output indices a commit may name are valid.
pub open spec fn commit_in_range(c: Commit, outputs: Seq<Output>) -> bool {
    match c.target {
        CommitTarget::Popup { layer_output: Some(o), .. } => o < outputs.len(),
        CommitTarget::Layer { output, .. } => output < outputs.len(),
        CommitTarget::LockSurface(o) => o < outputs.len(),
        _ => true,
    }
}

impl CommitOutcome {
    /// An outcome that asks for nothing.
    fn nothing() -> (r: Self)
        ensures
            r.mapped is None,
            r.unmapped is None,
            r.rules_requested is None,
            !r.send_initial_configure,
            !r.reposition_popups,
            r.update_floating_geometry is None,
            r.layout@.len() == 0,
            r.render@.len() == 0,
    {
        CommitOutcome {
            mapped: None,
            unmapped: None,
            rules_requested: None,
            send_initial_configure: false,
            reposition_popups: false,
            update_floating_geometry: None,
            layout: Vec::new(),
            render: Vec::new(),
        }
    }
}

impl Pinnacle {
    /// A client created toplevel `id`. It joins the unmapped pool, waiting for
    /// tags. An id already in use is refused.
    pub fn new_toplevel(&mut self, id: u32, target_output: Option<String>) -> (r: bool)
        requires
            old(self).wf(),
        ensures
            final(self).wf(),
            r == !(ids_of_windows(old(self).windows@) + ids_of_unmapped(old(self).unmapped_windows@)).contains(id),
            r ==> {
                &&& ids_of_unmapped(final(self).unmapped_windows@) == ids_of_unmapped(old(self).unmapped_windows@).push(id)
                &&& final(self).unmapped_windows@.last().state == UnmappedState::WaitingForTags
                &&& tag_ids(final(self).unmapped_windows@.last().window.tags).len() == 0
                &&& final(self).windows == old(self).windows
            },
            !r ==> *final(self) == *old(self),
    {
        let ghost s0 = *self;
        proof {
            lemma_contains_concat(ids_of_windows(s0.windows@), ids_of_unmapped(s0.unmapped_windows@), id);
        }
        if let Some(k) = self.window_index(id) {
            assert(ids_of_windows(s0.windows@)[k as int] == id);
            return false;
        }
        if let Some(k) = self.unmapped_index(id) {
            assert(ids_of_unmapped(s0.unmapped_windows@)[k as int] == id);
            return false;
        }
        proof {
            lemma_contains_concat(ids_of_windows(s0.windows@), ids_of_unmapped(s0.unmapped_windows@), id);
        }
        let window = WindowState {
            id,
            tags: tag_set_new(),
            layout_mode: LayoutMode::Tiled,
            floating_base: false,
            geometry: None,
            floating_geometry: None,
            minimized: false,
            title: None,
            app_id: None,
            decoration_mode: None,
            vrr_demand: None,
            foreign_toplevel_identifier: None,
            override_redirect: false,
            min_size: None,
            max_size: None,
        };
        self.unmapped_windows.push(UnmappedWindow {
            window,
            state: UnmappedState::WaitingForTags,
            activation_token: None,
            target_output,
            bounds: None,
        });
        proof {
            let a = ids_of_windows(s0.windows@);
            let b = ids_of_unmapped(s0.unmapped_windows@);
            assert(ids_of_unmapped(self.unmapped_windows@) =~= b.push(id));
            assert((a + b.push(id)) =~= (a + b).push(id));
            crate::seq_facts::lemma_push_no_duplicates(a + b, id);
            lemma_wf_same_tags(s0, *self);
        }
        true
    }

    /// The window rules of unmapped window `id` have been applied: a window
    /// waiting for them moves on to its initial configure.
    pub fn window_rules_done(&mut self, id: u32) -> (r: bool)
        requires
            old(self).wf(),
        ensures
            final(self).wf(),
            r == (unmapped_pos(*old(self), id) matches Some(k)
                && old(self).unmapped_windows@[k].state == UnmappedState::WaitingForRules),
            r ==> {
                let k = unmapped_pos(*old(self), id).unwrap();
                &&& final(self).unmapped_windows@ == old(self).unmapped_windows@.update(k, UnmappedWindow {
                    state: UnmappedState::PostInitialConfigure,
                    ..old(self).unmapped_windows@[k]
                })
                &&& final(self).windows == old(self).windows
            },
            !r ==> *final(self) == *old(self),
    {
        let ghost s0 = *self;
        proof {
            lemma_unmapped_pos_unique(s0, id);
        }
        let k = match self.unmapped_index(id) {
            Some(k) => k,
            None => {
                proof {
                    if exists|k: int| 0 <= k < s0.unmapped_windows@.len() && #[trigger] s0.unmapped_windows@[k].window.id == id {
                        let k = choose|k: int| 0 <= k < s0.unmapped_windows@.len() && #[trigger] s0.unmapped_windows@[k].window.id == id;
                        assert(ids_of_unmapped(s0.unmapped_windows@)[k] == id);
                    }
                }
                return false;
            },
        };
        if self.unmapped_windows[k].state != UnmappedState::WaitingForRules {
            return false;
        }
        self.unmapped_windows[k].state = UnmappedState::PostInitialConfigure;
        proof {
            assert(ids_of_unmapped(self.unmapped_windows@) =~= ids_of_unmapped(s0.unmapped_windows@));
            lemma_wf_same_tags(s0, *self);
        }
        true
    }
}

/// Whether the live tag `t` is active.
pub open spec fn tag_is_active(s: Pinnacle, t: u32) -> bool {
    exists|k: int| 0 <= k < s.tags@.len() && #[trigger] s.tags@[k].id == t && s.tags@[k].active
}

/// The tags a waiting window takes from output `o`: its active tags, or its
/// first tag when none is active.
pub open spec fn took_output_tags(s: Pinnacle, o: int, got: Seq<u32>) -> bool {
    if exists|t: u32| #[trigger] s.output_has_tag(o, t) && tag_is_active(s, t) {
        forall|t: u32| #[trigger] got.contains(t) == (s.output_has_tag(o, t) && tag_is_active(s, t))
    } else {
        got == first_only(tag_ids(s.outputs@[o].tags))
    }
}

/// The first element alone; empty for an empty sequence.
pub open spec fn first_only(s: Seq<u32>) -> Seq<u32> {
    if s.len() > 0 {
        seq![s[0]]
    } else {
        Seq::empty()
    }
}

impl Pinnacle {
    /// Whether the live tag `t` is active.
    fn tag_active(&self, t: u32) -> (r: bool)
        requires
            self.wf(),
        ensures
            r == tag_is_active(*self, t),
    {
        match self.find_tag(t) {
            Some(k) => {
                proof {
                    assert forall|k2: int| 0 <= k2 < self.tags@.len() && #[trigger] self.tags@[k2].id == t implies k2 == k by {
                        assert(ids_of_tags(self.tags@)[k2] == ids_of_tags(self.tags@)[k as int]);
                    }
                }
                self.tags[k].active
            },
            None => {
                proof {
                    assert forall|k2: int| 0 <= k2 < self.tags@.len() implies #[trigger] self.tags@[k2].id != t by {
                        assert(ids_of_tags(self.tags@)[k2] == self.tags@[k2].id);
                    }
                }
                false
            },
        }
    }

    /// The tags of output `o` that a waiting window takes.
    fn output_tags_for_window(&self, o: usize) -> (r: IndexSet<u32>)
        requires
            self.wf(),
            o < self.outputs@.len(),
        ensures
            took_output_tags(*self, o as int, tag_ids(r)),
            tag_ids(r).no_duplicates(),
    {
        let set = &self.outputs[o].tags;
        let n = tag_set_len(set);
        let mut active = tag_set_new();
        let mut i: usize = 0;
        while i < n
            invariant
                self.wf(),
                o < self.outputs@.len(),
                *set == self.outputs@[o as int].tags,
                n == tag_ids(*set).len(),
                i <= n,
                tag_ids(active).no_duplicates(),
                forall|t: u32| #[trigger] tag_ids(active).contains(t)
                    == (tag_ids(*set).take(i as int).contains(t) && tag_is_active(*self, t)),
            decreases n - i,
        {
            let t = match tag_set_get_index(set, i) {
                Some(t) => t,
                None => 0,
            };
            let ghost before = tag_ids(active);
            proof {
                assert(tag_ids(*set).take(i + 1) =~= tag_ids(*set).take(i as int).push(t));
            }
            if self.tag_active(t) {
                tag_set_insert(&mut active, t);
                proof {
                    if !before.contains(t) {
                        crate::seq_facts::lemma_push_no_duplicates(before, t);
                    }
                }
            }
            proof {
                assert forall|t2: u32| #[trigger] tag_ids(active).contains(t2)
                    == (tag_ids(*set).take(i + 1).contains(t2) && tag_is_active(*self, t2)) by {
                    crate::seq_facts::lemma_push_contains(tag_ids(*set).take(i as int), t, t2);
                    crate::seq_facts::lemma_push_contains(before, t, t2);
                }
            }
            i += 1;
        }
        proof {
            assert(tag_ids(*set).take(n as int) =~= tag_ids(*set));
        }
        if tag_set_len(&active) > 0 {
            proof {
                let t = tag_ids(active)[0];
                assert(tag_ids(active).contains(t));
                assert(self.output_has_tag(o as int, t) && tag_is_active(*self, t));
            }
            active
        } else {
            let mut first = tag_set_new();
            if let Some(t) = tag_set_get_index(set, 0) {
                tag_set_insert(&mut first, t);
                proof {
                    assert(tag_ids(first) =~= first_only(tag_ids(*set)));
                }
            } else {
                proof {
                    assert(tag_ids(first) =~= first_only(tag_ids(*set)));
                }
            }
            proof {
                if exists|t: u32| #[trigger] self.output_has_tag(o as int, t) && tag_is_active(*self, t) {
                    let t = choose|t: u32| #[trigger] self.output_has_tag(o as int, t) && tag_is_active(*self, t);
                    assert(tag_ids(active).contains(t));
                }
            }
            first
        }
    }
}

/// `s1` is `s0` with only windows moved or changed: outputs, tags and
/// focus are as they were.
pub open spec fn windows_only(s0: Pinnacle, s1: Pinnacle) -> bool {
    &&& s1.outputs == s0.outputs
    &&& s1.tags == s0.tags
    &&& s1.next_tag_id == s0.next_tag_id
    &&& s1.keyboard_focus_stack == s0.keyboard_focus_stack
    &&& s1.focused_output == s0.focused_output
    &&& s1.connector_saved_states == s0.connector_saved_states
    &&& s1.lock_state == s0.lock_state
}

impl Pinnacle {
    /// Maps the unmapped window at `idx`: it leaves the pool and joins the
    /// end of the window list, floating when its size is fixed.
    fn map_unmapped(&mut self, idx: usize)
        requires
            old(self).wf(),
            idx < old(self).unmapped_windows@.len(),
        ensures
            final(self).wf(),
            windows_only(*old(self), *final(self)),
            final(self).windows@ == old(self).windows@.push(crate::window::as_mapped(old(self).unmapped_windows@[idx as int].window)),
            final(self).unmapped_windows@ == old(self).unmapped_windows@.remove(idx as int),
    {
        let ghost s0 = *self;
        let u = self.unmapped_windows.remove(idx);
        let mut w = u.window;
        if crate::window::initial_layout_mode(w.min_size, w.max_size) == LayoutMode::Floating {
            w.layout_mode = LayoutMode::Floating;
            w.floating_base = true;
        }
        self.windows.push(w);
        proof {
            let a = ids_of_windows(s0.windows@);
            let b = ids_of_unmapped(s0.unmapped_windows@);
            assert(ids_of_windows(self.windows@) =~= a.push(b[idx as int]));
            assert(ids_of_unmapped(self.unmapped_windows@) =~= b.remove(idx as int));
            lemma_move_left(a, b, idx as int);
            lemma_wf_same_tags(s0, *self);
        }
    }

    /// Unmaps the window at `k`: it leaves the window list and returns to the
    /// pool, waiting for tags again, with its tags kept.
    fn unmap_window(&mut self, k: usize)
        requires
            old(self).wf(),
            k < old(self).windows@.len(),
        ensures
            final(self).wf(),
            windows_only(*old(self), *final(self)),
            final(self).windows@ == old(self).windows@.remove(k as int),
            final(self).unmapped_windows@.len() == old(self).unmapped_windows@.len() + 1,
            final(self).unmapped_windows@.drop_last() == old(self).unmapped_windows@,
            final(self).unmapped_windows@ == old(self).unmapped_windows@.push(UnmappedWindow {
                window: old(self).windows@[k as int],
                state: UnmappedState::WaitingForTags,
                activation_token: None,
                target_output: None,
                bounds: None,
            }),
    {
        let ghost s0 = *self;
        let w = self.windows.remove(k);
        self.unmapped_windows.push(UnmappedWindow {
            window: w,
            state: UnmappedState::WaitingForTags,
            activation_token: None,
            target_output: None,
            bounds: None,
        });
        proof {
            let a = ids_of_windows(s0.windows@);
            let b = ids_of_unmapped(s0.unmapped_windows@);
            assert(ids_of_windows(self.windows@) =~= a.remove(k as int));
            assert(ids_of_unmapped(self.unmapped_windows@) =~= b.push(a[k as int]));
            lemma_move_right(a, b, k as int);
            assert(self.unmapped_windows@.drop_last() =~= s0.unmapped_windows@);
            lemma_wf_same_tags(s0, *self);
        }
    }

    /// A commit of the unmapped window at `idx` without a buffer, while it
    /// waits for tags: a window that already has an output asks for its
    /// rules; otherwise it takes tags from its target output, or else from the
    /// focused output, when that output has any, and then asks for its rules.
    /// Returns whether rules were asked for.
    fn seed_waiting_window(&mut self, idx: usize) -> (r: bool)
        requires
            old(self).wf(),
            idx < old(self).unmapped_windows@.len(),
            old(self).unmapped_windows@[idx as int].state == UnmappedState::WaitingForTags,
        ensures
            final(self).wf(),
            windows_only(*old(self), *final(self)),
            final(self).windows == old(self).windows,
            final(self).unmapped_windows@.len() == old(self).unmapped_windows@.len(),
            forall|j: int| 0 <= j < old(self).unmapped_windows@.len() && j != idx
                ==> #[trigger] final(self).unmapped_windows@[j] == old(self).unmapped_windows@[j],
            seeded_as(*old(self), old(self).unmapped_windows@[idx as int], final(self).unmapped_windows@[idx as int], r),
    {
        let ghost s0 = *self;
        let ghost u0 = s0.unmapped_windows@[idx as int];
        if let Some(wo) = self.window_output(&self.unmapped_windows[idx].window) {
            proof {
                lemma_output_of_window(s0, u0.window, wo as int);
            }
            self.unmapped_windows[idx].state = UnmappedState::WaitingForRules;
            proof {
                assert(ids_of_unmapped(self.unmapped_windows@) =~= ids_of_unmapped(s0.unmapped_windows@));
                lemma_wf_same_tags(s0, *self);
            }
            return true;
        }
        proof {
            if output_of_window(s0.outputs@, u0.window) is Some {
                let c = choose|c: int| 0 <= c < s0.outputs@.len() && #[trigger] tag_ids(s0.outputs@[c].tags).contains(tag_ids(u0.window.tags)[0]);
                assert(!s0.output_has_tag(c, tag_ids(u0.window.tags)[0]));
            }
        }
        let from_target = match &self.unmapped_windows[idx].target_output {
            Some(name) => {
                let f = self.find_output(name);
                proof {
                    match f {
                        Some(o) => lemma_output_named(s0, name@, o as int),
                        None => {
                            if exists|o: int| 0 <= o < s0.outputs@.len() && #[trigger] s0.outputs@[o].name@ == name@ {
                                let o = choose|o: int| 0 <= o < s0.outputs@.len() && #[trigger] s0.outputs@[o].name@ == name@;
                                assert(s0.outputs@[o].name@ != name@);
                            }
                        },
                    }
                }
                f
            },
            None => None,
        };
        let chosen = match from_target {
            Some(o) => Some(o),
            None => match &self.focused_output {
                Some(name) => {
                    let f = self.find_output(name);
                    proof {
                        match f {
                            Some(o) => lemma_output_named(s0, name@, o as int),
                            None => {
                                if exists|o: int| 0 <= o < s0.outputs@.len() && #[trigger] s0.outputs@[o].name@ == name@ {
                                    let o = choose|o: int| 0 <= o < s0.outputs@.len() && #[trigger] s0.outputs@[o].name@ == name@;
                                    assert(s0.outputs@[o].name@ != name@);
                                }
                            },
                        }
                    }
                    f
                },
                None => None,
            },
        };
        proof {
            assert(chosen == match seed_source(s0, u0) { Some(o) => Some(o as usize), None => None::<usize> });
        }
        let o = match chosen {
            Some(o) => o,
            None => return false,
        };
        if tag_set_len(&self.outputs[o].tags) == 0 {
            return false;
        }
        let tags = self.output_tags_for_window(o);
        proof {
            if tag_ids(tags).len() == 0 {
                if exists|t: u32| #[trigger] self.output_has_tag(o as int, t) && tag_is_active(*self, t) {
                    let t = choose|t: u32| #[trigger] self.output_has_tag(o as int, t) && tag_is_active(*self, t);
                    assert(!tag_ids(tags).contains(t));
                }
            }
        }
        self.unmapped_windows[idx].window.tags = tags;
        self.unmapped_windows[idx].state = UnmappedState::WaitingForRules;
        proof {
            assert(ids_of_unmapped(self.unmapped_windows@) =~= ids_of_unmapped(s0.unmapped_windows@));
            let oids = tag_ids(s0.outputs@[o as int].tags);
            assert forall|x: u32| #[trigger] tag_ids(self.unmapped_windows@[idx as int].window.tags).contains(x)
                implies x < s0.next_tag_id by {
                if exists|t: u32| #[trigger] s0.output_has_tag(o as int, t) && tag_is_active(s0, t) {
                    assert(s0.output_has_tag(o as int, x));
                } else {
                    assert(tag_ids(tags) == first_only(oids));
                    assert(tag_ids(tags)[0] == oids[0]);
                    assert(s0.output_has_tag(o as int, oids[0]));
                }
            }
            crate::state::lemma_refs_unmapped(s0, *self, idx as int);
            lemma_wf_same_tags(s0, *self);
        }
        true
    }
}

impl Pinnacle {
    /// Tells the still-unmapped window at `idx` the size of its output, when
    /// it has one.
    fn update_bounds(&mut self, idx: usize)
        requires
            old(self).wf(),
            idx < old(self).unmapped_windows@.len(),
        ensures
            final(self).wf(),
            windows_only(*old(self), *final(self)),
            final(self).windows == old(self).windows,
            final(self).unmapped_windows@ == old(self).unmapped_windows@.update(idx as int, UnmappedWindow {
                bounds: match output_of_window(old(self).outputs@, old(self).unmapped_windows@[idx as int].window) {
                    Some(o) => Some(old(self).outputs@[o].logical_size),
                    None => old(self).unmapped_windows@[idx as int].bounds,
                },
                ..old(self).unmapped_windows@[idx as int]
            }),
    {
        let ghost s0 = *self;
        match self.window_output(&self.unmapped_windows[idx].window) {
            Some(o) => {
                proof {
                    lemma_output_of_window(s0, s0.unmapped_windows@[idx as int].window, o as int);
                }
                let size = self.outputs[o].logical_size;
                self.unmapped_windows[idx].bounds = Some(size);
                proof {
                    assert(ids_of_unmapped(self.unmapped_windows@) =~= ids_of_unmapped(s0.unmapped_windows@));
                    lemma_wf_same_tags(s0, *self);
                }
            },
            None => {
                proof {
                    let w = s0.unmapped_windows@[idx as int].window;
                    if output_of_window(s0.outputs@, w) is Some {
                        let c = choose|c: int| 0 <= c < s0.outputs@.len() && #[trigger] tag_ids(s0.outputs@[c].tags).contains(tag_ids(w.tags)[0]);
                        assert(!s0.output_has_tag(c, tag_ids(w.tags)[0]));
                    }
                    assert(self.unmapped_windows@ =~= s0.unmapped_windows@.update(idx as int, s0.unmapped_windows@[idx as int]));
                }
            },
        }
    }

    /// Schedules a render on each output of `outs`.
    pub fn schedule_outputs(&mut self, outs: &Vec<usize>)
        requires
            old(self).wf(),
            forall|i: int| 0 <= i < outs@.len() ==> #[trigger] outs@[i] < old(self).outputs@.len(),
        ensures
            final(self).wf(),
            final(self).outputs@.len() == old(self).outputs@.len(),
            forall|i: int| 0 <= i < outs@.len() ==> #[trigger] final(self).outputs@[outs@[i] as int].render_scheduled,
            forall|o: int| 0 <= o < old(self).outputs@.len() ==> #[trigger] final(self).outputs@[o] == (Output {
                render_scheduled: final(self).outputs@[o].render_scheduled,
                ..old(self).outputs@[o]
            }),
            forall|o: int| 0 <= o < old(self).outputs@.len() && !outs@.contains(o as usize)
                ==> #[trigger] final(self).outputs@[o] == old(self).outputs@[o],
            final(self).windows == old(self).windows,
            final(self).unmapped_windows == old(self).unmapped_windows,
            final(self).tags == old(self).tags,
            final(self).keyboard_focus_stack == old(self).keyboard_focus_stack,
            final(self).lock_state == old(self).lock_state,
    {
        let ghost s0 = *self;
        let mut i: usize = 0;
        while i < outs.len()
            invariant
                i <= outs@.len(),
                forall|j: int| 0 <= j < outs@.len() ==> #[trigger] outs@[j] < s0.outputs@.len(),
                self.outputs@.len() == s0.outputs@.len(),
                forall|j: int| 0 <= j < i ==> #[trigger] self.outputs@[outs@[j] as int].render_scheduled,
                forall|o: int| 0 <= o < s0.outputs@.len() ==> #[trigger] self.outputs@[o] == (Output {
                    render_scheduled: self.outputs@[o].render_scheduled,
                    ..s0.outputs@[o]
                }),
                forall|o: int| 0 <= o < s0.outputs@.len() && !outs@.take(i as int).contains(o as usize)
                    ==> #[trigger] self.outputs@[o] == s0.outputs@[o],
                self.windows == s0.windows,
                self.unmapped_windows == s0.unmapped_windows,
                self.tags == s0.tags,
                self.next_tag_id == s0.next_tag_id,
                self.keyboard_focus_stack == s0.keyboard_focus_stack,
                self.lock_state == s0.lock_state,
                self.connector_saved_states == s0.connector_saved_states,
            decreases outs@.len() - i,
        {
            let o = outs[i];
            self.outputs[o].render_scheduled = true;
            proof {
                assert forall|o2: int| 0 <= o2 < s0.outputs@.len() && !outs@.take(i + 1).contains(o2 as usize)
                    implies #[trigger] self.outputs@[o2] == s0.outputs@[o2] by {
                    assert(outs@.take(i + 1)[i as int] == o);
                    if outs@.take(i as int).contains(o2 as usize) {
                        let j = choose|j: int| 0 <= j < i && outs@.take(i as int)[j] == o2 as usize;
                        assert(outs@.take(i + 1)[j] == o2 as usize);
                    }
                }
            }
            i += 1;
        }
        proof {
            assert(outs@.take(outs@.len() as int) =~= outs@);
            assert forall|o: int| 0 <= o < s0.outputs@.len() implies
                (#[trigger] self.outputs@[o]).name@ == s0.outputs@[o].name@
                && tag_ids(self.outputs@[o].tags) == tag_ids(s0.outputs@[o].tags) by {}
            assert(ids_of_windows(self.windows@) == ids_of_windows(s0.windows@));
            lemma_wf_frame(s0, *self);
        }
    }

    /// The indices of all outputs.
    fn all_outputs(&self) -> (r: Vec<usize>)
        ensures
            r@.len() == self.outputs@.len(),
            forall|i: int| 0 <= i < r@.len() ==> #[trigger] r@[i] == i,
    {
        let mut r: Vec<usize> = Vec::new();
        let mut i: usize = 0;
        while i < self.outputs.len()
            invariant
                i <= self.outputs@.len(),
                r@.len() == i,
                forall|j: int| 0 <= j < i ==> #[trigger] r@[j] == j,
            decreases self.outputs@.len() - i,
        {
            r.push(i);
            i += 1;
        }
        r
    }

    /// The output of the mapped window `id`, as a list of at most one index.
    fn outputs_of_window(&self, id: u32) -> (r: Vec<usize>)
        requires
            self.wf(),
        ensures
            r@ == window_outputs(*self, id),
            forall|i: int| 0 <= i < r@.len() ==> #[trigger] r@[i] < self.outputs@.len(),
    {
        let mut r: Vec<usize> = Vec::new();
        proof {
            crate::window::lemma_window_pos_unique(*self, id);
        }
        match self.window_index(id) {
            Some(k) => {
                match self.window_output(&self.windows[k]) {
                    Some(o) => {
                        proof {
                            lemma_output_of_window(*self, self.windows@[k as int], o as int);
                        }
                        r.push(o);
                        proof {
                            assert(r@ =~= seq![o]);
                        }
                    },
                    None => {
                        proof {
                            let w = self.windows@[k as int];
                            if output_of_window(self.outputs@, w) is Some {
                                let c = choose|c: int| 0 <= c < self.outputs@.len() && #[trigger] tag_ids(self.outputs@[c].tags).contains(tag_ids(w.tags)[0]);
                                assert(!self.output_has_tag(c, tag_ids(w.tags)[0]));
                            }
                            assert(r@ =~= Seq::<usize>::empty());
                        }
                    },
                }
            },
            None => {
                proof {
                    if exists|k: int| 0 <= k < self.windows@.len() && #[trigger] self.windows@[k].id == id {
                        let k = choose|k: int| 0 <= k < self.windows@.len() && #[trigger] self.windows@[k].id == id;
                        assert(ids_of_windows(self.windows@)[k] == id);
                    }
                    assert(r@ =~= Seq::<usize>::empty());
                }
            },
        }
        r
    }

    /// Handles a surface commit. Synchronized subsurfaces wait for their
    /// parent. A root commit of an unmapped window maps it once a buffer is
    /// attached and it has tags (a window without tags stays in the pool);
    /// without a buffer, a window waiting for tags tries to get some. A
    /// mapped window that loses its buffer is unmapped and its output laid
    /// out again. Then every affected output is scheduled for render: a
    /// window's output; a popup's root window output or layer output; a
    /// layer surface's output; all outputs for the cursor or a drag icon;
    /// the host window's output for a decoration; a lock surface's output. A popup or layer surface that
    /// still needs its initial configure gets only that.
    pub fn commit(&mut self, c: Commit) -> (r: CommitOutcome)
        requires
            old(self).wf(),
            commit_in_range(c, old(self).outputs@),
        ensures
            final(self).wf(),
            forall|i: int| 0 <= i < r.render@.len() ==> #[trigger] r.render@[i] < final(self).outputs@.len()
                && final(self).outputs@[r.render@[i] as int].render_scheduled,
            forall|i: int| 0 <= i < r.layout@.len() ==> #[trigger] r.layout@[i] < final(self).outputs@.len(),
            c.sync_subsurface ==> *final(self) == *old(self) && r.render@.len() == 0 && r.mapped is None,
            !c.sync_subsurface ==> match c.target {
                CommitTarget::Cursor | CommitTarget::DndIcon => {
                    &&& r.render@.len() == old(self).outputs@.len()
                    &&& forall|i: int| 0 <= i < r.render@.len() ==> #[trigger] r.render@[i] == i
                },
                CommitTarget::LockSurface(o) => r.render@ == seq![o],
                CommitTarget::Layer { output, initial_configure_sent, arrangement_changed } => if !initial_configure_sent {
                    r.send_initial_configure && r.render@.len() == 0
                } else {
                    &&& r.render@ == seq![output]
                    &&& r.layout@ == if arrangement_changed { seq![output] } else { Seq::<usize>::empty() }
                },
                CommitTarget::Popup { root_window, layer_output, initial_configure_sent } => if !initial_configure_sent {
                    r.send_initial_configure && r.render@.len() == 0
                } else {
                    r.render@ == popup_outputs(*old(self), root_window, layer_output)
                },
                CommitTarget::Unknown => r.render@.len() == 0,
                CommitTarget::Decoration { window, .. } => r.render@ == window_outputs(*old(self), window),
                _ => true,
            },
            r.reposition_popups == repositions(*old(self), c),
            !c.sync_subsurface && c.root ==> match c.target {
                CommitTarget::Window(id) => match unmapped_pos(*old(self), id) {
                    Some(k) => {
                        let u = old(self).unmapped_windows@[k];
                        &&& r.unmapped is None
                        &&& r.render@.len() == 0
                        &&& (c.has_buffer && tag_ids(u.window.tags).len() > 0) ==> {
                            &&& r.mapped == Some(id)
                            &&& r.layout@ == window_outputs(*final(self), id)
                            &&& final(self).windows@ == old(self).windows@.push(crate::window::as_mapped(u.window))
                            &&& final(self).unmapped_windows@ == old(self).unmapped_windows@.remove(k)
                        }
                        &&& (c.has_buffer && tag_ids(u.window.tags).len() == 0) ==> {
                            &&& r.mapped is None
                            &&& *final(self) == *old(self)
                        }
                        &&& !c.has_buffer ==> {
                            let u1 = final(self).unmapped_windows@[k];
                            &&& r.mapped is None
                            &&& final(self).windows == old(self).windows
                            &&& final(self).outputs == old(self).outputs
                            &&& final(self).unmapped_windows@.len() == old(self).unmapped_windows@.len()
                            &&& forall|j: int| 0 <= j < old(self).unmapped_windows@.len() && j != k
                                ==> #[trigger] final(self).unmapped_windows@[j] == old(self).unmapped_windows@[j]
                            &&& u.state == UnmappedState::WaitingForTags ==> seeded_as(*old(self), u,
                                UnmappedWindow { bounds: u.bounds, ..u1 }, r.rules_requested == Some(id))
                            &&& u.state != UnmappedState::WaitingForTags ==> r.rules_requested is None
                                && u1 == (UnmappedWindow { bounds: u1.bounds, ..u })
                            &&& u1.bounds == match output_of_window(old(self).outputs@, u1.window) {
                                Some(o) => Some(old(self).outputs@[o].logical_size),
                                None => u.bounds,
                            }
                        }
                    },
                    None => match crate::window::window_pos(*old(self), id) {
                        Some(k) => {
                            &&& r.mapped is None
                            &&& !c.has_buffer ==> {
                                &&& r.unmapped == Some(id)
                                &&& r.layout@ == window_outputs(*old(self), id)
                                &&& r.render@.len() == 0
                                &&& final(self).windows@ == old(self).windows@.remove(k)
                                &&& final(self).unmapped_windows@ == old(self).unmapped_windows@.push(UnmappedWindow {
                                    window: old(self).windows@[k],
                                    state: UnmappedState::WaitingForTags,
                                    activation_token: None,
                                    target_output: None,
                                    bounds: None,
                                })
                            }
                            &&& c.has_buffer ==> {
                                &&& r.unmapped is None
                                &&& r.layout@.len() == 0
                                &&& r.render@ == window_outputs(*old(self), id)
                                &&& final(self).windows == old(self).windows
                                &&& final(self).unmapped_windows == old(self).unmapped_windows
                            }
                        },
                        None => r.mapped is None && r.unmapped is None,
                    },
                },
                _ => r.mapped is None && r.unmapped is None,
            },
    {
        let mut out = CommitOutcome::nothing();
        if c.sync_subsurface {
            return out;
        }
        let ghost s0 = *self;
        proof {
            lemma_unmapped_pos_unique(s0, match c.target { CommitTarget::Window(id) => id, _ => 0 });
        }
        if c.root {
            if let CommitTarget::Window(id) = c.target {
                if let Some(idx) = self.unmapped_index(id) {
                    if c.has_buffer {
                        if tag_set_len(&self.unmapped_windows[idx].window.tags) > 0 {
                            self.map_unmapped(idx);
                            out.mapped = Some(id);
                            out.layout = self.outputs_of_window(id);
                        }
                    } else {
                        if self.unmapped_windows[idx].state == UnmappedState::WaitingForTags {
                            if self.seed_waiting_window(idx) {
                                out.rules_requested = Some(id);
                            }
                        }
                        self.update_bounds(idx);
                    }
                    return out;
                }
                proof {
                    if exists|k: int| 0 <= k < s0.unmapped_windows@.len() && #[trigger] s0.unmapped_windows@[k].window.id == id {
                        let k = choose|k: int| 0 <= k < s0.unmapped_windows@.len() && #[trigger] s0.unmapped_windows@[k].window.id == id;
                        assert(ids_of_unmapped(s0.unmapped_windows@)[k] == id);
                    }
                    crate::window::lemma_window_pos_unique(s0, id);
                }
                if let Some(k) = self.window_index(id) {
                    out.reposition_popups = true;
                    if !c.has_buffer {
                        out.layout = self.outputs_of_window(id);
                        self.unmap_window(k);
                        out.unmapped = Some(id);
                        return out;
                    }
                } else {
                    proof {
                        if exists|k: int| 0 <= k < s0.windows@.len() && #[trigger] s0.windows@[k].id == id {
                            let k = choose|k: int| 0 <= k < s0.windows@.len() && #[trigger] s0.windows@[k].id == id;
                            assert(ids_of_windows(s0.windows@)[k] == id);
                        }
                    }
                }
            }
        }
        let render = match c.target {
            CommitTarget::Window(id) => self.outputs_of_window(id),
            CommitTarget::Popup { root_window, layer_output, initial_configure_sent } => {
                if !initial_configure_sent {
                    out.send_initial_configure = true;
                    return out;
                }
                let from_window = match root_window {
                    Some(w) => self.outputs_of_window(w),
                    None => Vec::new(),
                };
                if from_window.len() > 0 {
                    from_window
                } else {
                    let mut v: Vec<usize> = Vec::new();
                    if let Some(o) = layer_output {
                        v.push(o);
                    }
                    v
                }
            },
            CommitTarget::Layer { output, initial_configure_sent, arrangement_changed } => {
                if !initial_configure_sent {
                    out.send_initial_configure = true;
                    return out;
                }
                if arrangement_changed {
                    out.layout.push(output);
                }
                let mut v: Vec<usize> = Vec::new();
                v.push(output);
                v
            },
            CommitTarget::Cursor => self.all_outputs(),
            CommitTarget::DndIcon => self.all_outputs(),
            CommitTarget::LockSurface(o) => {
                let mut v: Vec<usize> = Vec::new();
                v.push(o);
                v
            },
            CommitTarget::Decoration { window, bounds_changed } => {
                if bounds_changed {
                    let tiled = match self.window_index(window) {
                        Some(k) => self.windows[k].layout_mode == LayoutMode::Tiled,
                        None => false,
                    };
                    let outs = self.outputs_of_window(window);
                    if tiled && outs.len() > 0 {
                        out.layout = outs;
                    } else {
                        out.update_floating_geometry = Some(window);
                    }
                }
                self.outputs_of_window(window)
            },
            CommitTarget::Unknown => return out,
        };
        self.schedule_outputs(&render);
        out.render = render;
        out
    }
}

/// The output whose scale a surface's new fractional-scale object starts
/// with: the surface's primary scan-out output; for a subsurface, its root's;
/// then the output of the root's window; then the first output.
pub fn preferred_scale_output(
    surface_primary: Option<usize>,
    is_root: bool,
    root_primary: Option<usize>,
    window_output: Option<usize>,
    first_output: Option<usize>,
) -> (r: Option<usize>)
    ensures
        r == if surface_primary is Some {
            surface_primary
        } else if !is_root && root_primary is Some {
            root_primary
        } else if window_output is Some {
            window_output
        } else {
            first_output
        },
{
    if surface_primary.is_some() {
        return surface_primary;
    }
    if !is_root && root_primary.is_some() {
        return root_primary;
    }
    if window_output.is_some() {
        return window_output;
    }
    first_output
}

/// Where a popup may be placed without leaving the screen.
#[derive(Clone, Copy, Debug, PartialEq, Eq, Structural)]
pub struct PopupBounds {
    /// The popup of a toplevel slides sideways instead of flipping.
    pub slide_not_flip_x: bool,
    /// The output's area, relative to the popup's parent.
    pub area: Rect,
}

/// The area a popup is kept within: the output's geometry made relative to
/// the popup's parent, which is the root surface itself (at `root_loc`) or a
/// popup at `parent_offset` from it. A popup of the root slides along x
/// rather than flipping.
pub fn popup_bounds(parent_is_root: bool, root_loc: Point, parent_offset: Point, output_geo: Rect) -> (r: PopupBounds)
    requires
        i32::MIN <= root_loc.x + parent_offset.x <= i32::MAX,
        i32::MIN <= root_loc.y + parent_offset.y <= i32::MAX,
        ({
            let px = if parent_is_root { root_loc.x as int } else { root_loc.x + parent_offset.x };
            let py = if parent_is_root { root_loc.y as int } else { root_loc.y + parent_offset.y };
            &&& i32::MIN <= output_geo.loc.x - px <= i32::MAX
            &&& i32::MIN <= output_geo.loc.y - py <= i32::MAX
        }),
    ensures
        r.slide_not_flip_x == parent_is_root,
        r.area.size == output_geo.size,
        r.area.loc.x == output_geo.loc.x - if parent_is_root { root_loc.x as int } else { root_loc.x + parent_offset.x },
        r.area.loc.y == output_geo.loc.y - if parent_is_root { root_loc.y as int } else { root_loc.y + parent_offset.y },
{
    let parent = if parent_is_root {
        root_loc
    } else {
        Point { x: root_loc.x + parent_offset.x, y: root_loc.y + parent_offset.y }
    };
    PopupBounds {
        slide_not_flip_x: parent_is_root,
        area: Rect { loc: Point { x: output_geo.loc.x - parent.x, y: output_geo.loc.y - parent.y }, size: output_geo.size },
    }
}

/// Membership in a concatenation.
proof fn lemma_contains_concat(a: Seq<u32>, b: Seq<u32>, x: u32)
    ensures
        (a + b).contains(x) == (a.contains(x) || b.contains(x)),
{
    if a.contains(x) {
        let i = choose|i: int| 0 <= i < a.len() && a[i] == x;
        assert((a + b)[i] == x);
    }
    if b.contains(x) {
        let i = choose|i: int| 0 <= i < b.len() && b[i] == x;
        assert((a + b)[a.len() + i] == x);
    }
    if (a + b).contains(x) {
        let i = choose|i: int| 0 <= i < (a + b).len() && (a + b)[i] == x;
        if i < a.len() {
            assert(a[i] == x);
        } else {
            assert(b[i - a.len()] == x);
        }
    }
}

/// In a well-formed state an unmapped window id is at one index at most.
proof fn lemma_unmapped_pos_unique(s: Pinnacle, id: u32)
    requires
        s.wf(),
    ensures
        forall|k: int| 0 <= k < s.unmapped_windows@.len() && #[trigger] s.unmapped_windows@[k].window.id == id
            ==> unmapped_pos(s, id) == Some(k),
{
    assert forall|k: int| 0 <= k < s.unmapped_windows@.len() && #[trigger] s.unmapped_windows@[k].window.id == id
        implies unmapped_pos(s, id) == Some(k) by {
        let c = choose|c: int| 0 <= c < s.unmapped_windows@.len() && #[trigger] s.unmapped_windows@[c].window.id == id;
        let all = ids_of_windows(s.windows@) + ids_of_unmapped(s.unmapped_windows@);
        let n = s.windows@.len() as int;
        assert(all[n + k] == id && all[n + c] == id);
    }
}

} // verus!
