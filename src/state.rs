//! The core state: outputs, tags, windows, focus and saved connector state.
use crate::output::{ConnectorSavedState, Output};
use crate::session_lock::LockState;
use crate::tag::Tag;
use crate::tag_set::{tag_ids, tag_set_contains, tag_set_get_index};
use crate::window::{UnmappedWindow, WindowState};
use vstd::prelude::*;

verus! {

/// Saved state of one disconnected connector.
pub struct SavedConnector {
    pub name: String,
    pub state: ConnectorSavedState,
}

/// The compositor's core state. Everything here is mutated on the event loop.
pub struct Pinnacle {
    pub outputs: Vec<Output>,
    /// Every live tag, whichever output (or saved connector) holds it.
    pub tags: Vec<Tag>,
    /// Mapped windows, in stacking order.
    pub windows: Vec<WindowState>,
    pub unmapped_windows: Vec<UnmappedWindow>,
    /// Keyboard focus, most recent last.
    pub keyboard_focus_stack: Vec<u32>,
    /// The name of the focused output.
    pub focused_output: Option<String>,
    pub connector_saved_states: Vec<SavedConnector>,
    /// The id the next tag gets.
    pub next_tag_id: u32,
    pub lock_state: LockState,
    /// The output whose lock surface has keyboard focus while locked.
    pub lock_surface_focus: Option<String>,
}

/// The ids of a list of windows.
pub open spec fn ids_of_windows(ws: Seq<WindowState>) -> Seq<u32> {
    ws.map_values(|w: WindowState| w.id)
}

/// The ids of a list of unmapped windows.
pub open spec fn ids_of_unmapped(ws: Seq<UnmappedWindow>) -> Seq<u32> {
    ws.map_values(|u: UnmappedWindow| u.window.id)
}

/// Every tag id held by a window (mapped or not) or a saved connector state
/// was handed out: it is below `n`.
pub open spec fn refs_below(ws: Seq<WindowState>, us: Seq<UnmappedWindow>, cs: Seq<SavedConnector>, n: u32) -> bool {
    &&& forall|w: int, i: int| 0 <= w < ws.len() && 0 <= i < tag_ids(ws[w].tags).len() ==> #[trigger] tag_ids(ws[w].tags)[i] < n
    &&& forall|w: int, i: int| 0 <= w < us.len() && 0 <= i < tag_ids(us[w].window.tags).len() ==> #[trigger] tag_ids(us[w].window.tags)[i] < n
    &&& forall|c: int, i: int| 0 <= c < cs.len() && 0 <= i < tag_ids(cs[c].state.tags).len() ==> #[trigger] tag_ids(cs[c].state.tags)[i] < n
}

/// A sequence whose members are all below `n` has every element below `n`.
pub proof fn lemma_members_below(t: Seq<u32>, n: u32)
    requires
        forall|x: u32| #[trigger] t.contains(x) ==> x < n,
    ensures
        forall|i: int| 0 <= i < t.len() ==> #[trigger] t[i] < n,
{
    assert forall|i: int| 0 <= i < t.len() implies #[trigger] t[i] < n by {
        assert(t.contains(t[i]));
    }
}

/// The members of a sequence whose elements are all below `n` are below `n`.
pub proof fn lemma_below_members(t: Seq<u32>, n: u32)
    requires
        forall|i: int| 0 <= i < t.len() ==> #[trigger] t[i] < n,
    ensures
        forall|x: u32| #[trigger] t.contains(x) ==> x < n,
{
    assert forall|x: u32| #[trigger] t.contains(x) implies x < n by {
        let i = choose|i: int| 0 <= i < t.len() && t[i] == x;
        assert(t[i] < n);
    }
}

/// Changing the tags of mapped window `k` to handed-out ids keeps every
/// held tag id handed out.
pub proof fn lemma_refs_window(s0: Pinnacle, s1: Pinnacle, k: int)
    requires
        refs_below(s0.windows@, s0.unmapped_windows@, s0.connector_saved_states@, s0.next_tag_id),
        s1.windows@.len() == s0.windows@.len(),
        0 <= k < s0.windows@.len(),
        forall|j: int| 0 <= j < s0.windows@.len() && j != k ==> #[trigger] s1.windows@[j] == s0.windows@[j],
        s1.unmapped_windows == s0.unmapped_windows,
        s1.connector_saved_states == s0.connector_saved_states,
        s1.next_tag_id == s0.next_tag_id,
        forall|x: u32| #[trigger] tag_ids(s1.windows@[k].tags).contains(x) ==> x < s0.next_tag_id,
    ensures
        refs_below(s1.windows@, s1.unmapped_windows@, s1.connector_saved_states@, s1.next_tag_id),
{
    lemma_members_below(tag_ids(s1.windows@[k].tags), s0.next_tag_id);
    assert forall|w: int, i: int| 0 <= w < s1.windows@.len() && 0 <= i < tag_ids(s1.windows@[w].tags).len()
        implies #[trigger] tag_ids(s1.windows@[w].tags)[i] < s1.next_tag_id by {
        if w != k {
            assert(s1.windows@[w] == s0.windows@[w]);
            assert(tag_ids(s0.windows@[w].tags)[i] < s0.next_tag_id);
        } else {
            assert(tag_ids(s1.windows@[k].tags)[i] < s0.next_tag_id);
        }
    }
}

/// Changing the tags of unmapped window `k` to handed-out ids keeps every
/// held tag id handed out.
pub proof fn lemma_refs_unmapped(s0: Pinnacle, s1: Pinnacle, k: int)
    requires
        refs_below(s0.windows@, s0.unmapped_windows@, s0.connector_saved_states@, s0.next_tag_id),
        s1.unmapped_windows@.len() == s0.unmapped_windows@.len(),
        0 <= k < s0.unmapped_windows@.len(),
        forall|j: int| 0 <= j < s0.unmapped_windows@.len() && j != k ==> #[trigger] s1.unmapped_windows@[j] == s0.unmapped_windows@[j],
        s1.windows == s0.windows,
        s1.connector_saved_states == s0.connector_saved_states,
        s1.next_tag_id == s0.next_tag_id,
        forall|x: u32| #[trigger] tag_ids(s1.unmapped_windows@[k].window.tags).contains(x) ==> x < s0.next_tag_id,
    ensures
        refs_below(s1.windows@, s1.unmapped_windows@, s1.connector_saved_states@, s1.next_tag_id),
{
    lemma_members_below(tag_ids(s1.unmapped_windows@[k].window.tags), s0.next_tag_id);
    assert forall|w: int, i: int| 0 <= w < s1.unmapped_windows@.len() && 0 <= i < tag_ids(s1.unmapped_windows@[w].window.tags).len()
        implies #[trigger] tag_ids(s1.unmapped_windows@[w].window.tags)[i] < s1.next_tag_id by {
        if w != k {
            assert(s1.unmapped_windows@[w] == s0.unmapped_windows@[w]);
            assert(tag_ids(s0.unmapped_windows@[w].window.tags)[i] < s0.next_tag_id);
        } else {
            assert(tag_ids(s1.unmapped_windows@[k].window.tags)[i] < s0.next_tag_id);
        }
    }
}

/// Dropping ids keeps every remaining id below `n`.
pub proof fn lemma_without_below(t: Seq<u32>, rm: Seq<u32>, n: u32)
    requires
        forall|i: int| 0 <= i < t.len() ==> #[trigger] t[i] < n,
    ensures
        forall|i: int| 0 <= i < crate::tag::without(t, rm).len() ==> #[trigger] crate::tag::without(t, rm)[i] < n,
{
    lemma_below_members(t, n);
    let f = crate::tag::without(t, rm);
    assert forall|x: u32| #[trigger] f.contains(x) implies x < n by {
        crate::seq_facts::lemma_filter_contains(t, |y: u32| !rm.contains(y), x);
    }
    lemma_members_below(f, n);
}

/// Dropping ids from every window keeps every held id handed out, given the
/// saved states hold handed-out ids.
pub proof fn lemma_refs_filtered(s0: Pinnacle, s1: Pinnacle, rm: Seq<u32>)
    requires
        refs_below(s0.windows@, s0.unmapped_windows@, s0.connector_saved_states@, s0.next_tag_id),
        s1.next_tag_id == s0.next_tag_id,
        s1.windows@.len() == s0.windows@.len(),
        forall|w: int| 0 <= w < s0.windows@.len() ==> tag_ids(#[trigger] s1.windows@[w].tags) == crate::tag::without(tag_ids(s0.windows@[w].tags), rm),
        s1.unmapped_windows@.len() == s0.unmapped_windows@.len(),
        forall|w: int| 0 <= w < s0.unmapped_windows@.len() ==> tag_ids(#[trigger] s1.unmapped_windows@[w].window.tags) == crate::tag::without(tag_ids(s0.unmapped_windows@[w].window.tags), rm),
        forall|c: int, i: int| 0 <= c < s1.connector_saved_states@.len() && 0 <= i < tag_ids(s1.connector_saved_states@[c].state.tags).len()
            ==> #[trigger] tag_ids(s1.connector_saved_states@[c].state.tags)[i] < s1.next_tag_id,
    ensures
        refs_below(s1.windows@, s1.unmapped_windows@, s1.connector_saved_states@, s1.next_tag_id),
{
    assert forall|w: int, i: int| 0 <= w < s1.windows@.len() && 0 <= i < tag_ids(s1.windows@[w].tags).len()
        implies #[trigger] tag_ids(s1.windows@[w].tags)[i] < s1.next_tag_id by {
        let t = tag_ids(s0.windows@[w].tags);
        assert forall|j: int| 0 <= j < t.len() implies #[trigger] t[j] < s0.next_tag_id by {}
        lemma_without_below(t, rm, s0.next_tag_id);
    }
    assert forall|w: int, i: int| 0 <= w < s1.unmapped_windows@.len() && 0 <= i < tag_ids(s1.unmapped_windows@[w].window.tags).len()
        implies #[trigger] tag_ids(s1.unmapped_windows@[w].window.tags)[i] < s1.next_tag_id by {
        let t = tag_ids(s0.unmapped_windows@[w].window.tags);
        assert forall|j: int| 0 <= j < t.len() implies #[trigger] t[j] < s0.next_tag_id by {}
        lemma_without_below(t, rm, s0.next_tag_id);
    }
}

/// The connector names of a list of saved states.
pub open spec fn saved_names(cs: Seq<SavedConnector>) -> Seq<Seq<char>> {
    cs.map_values(|c: SavedConnector| c.name@)
}

/// The ids of a list of tags.
pub open spec fn ids_of_tags(ts: Seq<Tag>) -> Seq<u32> {
    ts.map_values(|t: Tag| t.id)
}

impl Pinnacle {
    /// Whether output `o` holds tag `t`.
    pub open spec fn output_has_tag(&self, o: int, t: u32) -> bool {
        tag_ids(self.outputs@[o].tags).contains(t)
    }

    /// The window with keyboard focus: the top of the focus stack.
    pub open spec fn focus(&self) -> Option<u32> {
        if self.keyboard_focus_stack@.len() == 0 {
            None
        } else {
            Some(self.keyboard_focus_stack@.last())
        }
    }

    /// Whether window `id` has keyboard focus.
    pub open spec fn is_focused(&self, id: u32) -> bool {
        self.focus() == Some(id)
    }

    /// The tag invariants: ids are unique and below the next id; each output's
    /// tags are registered tags without repeats; no tag sits on two outputs.
    pub open spec fn tags_wf(&self) -> bool {
        &&& ids_of_tags(self.tags@).no_duplicates()
        &&& forall|k: int| 0 <= k < self.tags@.len() ==> #[trigger] self.tags@[k].id < self.next_tag_id
        &&& forall|o: int| 0 <= o < self.outputs@.len() ==> tag_ids(#[trigger] self.outputs@[o].tags).no_duplicates()
        &&& forall|o: int, t: u32|
            0 <= o < self.outputs@.len() && #[trigger] self.output_has_tag(o, t)
                ==> t < self.next_tag_id && ids_of_tags(self.tags@).contains(t)
        &&& forall|o1: int, o2: int, t: u32|
            0 <= o1 < self.outputs@.len() && 0 <= o2 < self.outputs@.len() && o1 != o2
                && #[trigger] self.output_has_tag(o1, t) ==> !#[trigger] self.output_has_tag(o2, t)
    }

    /// Output names are unique.
    pub open spec fn outputs_wf(&self) -> bool {
        forall|a: int, b: int|
            0 <= a < self.outputs@.len() && 0 <= b < self.outputs@.len() && a != b
                ==> #[trigger] self.outputs@[a].name@ != #[trigger] self.outputs@[b].name@
    }

    /// No window is both mapped and unmapped, and none appears twice.
    pub open spec fn windows_wf(&self) -> bool {
        (ids_of_windows(self.windows@) + ids_of_unmapped(self.unmapped_windows@)).no_duplicates()
    }

    /// The invariant of the core state.
    pub open spec fn wf(&self) -> bool {
        &&& self.tags_wf()
        &&& self.outputs_wf()
        &&& self.windows_wf()
        &&& self.saved_wf()
        &&& refs_below(self.windows@, self.unmapped_windows@, self.connector_saved_states@, self.next_tag_id)
    }

    /// Each disconnected connector has one saved state at most.
    pub open spec fn saved_wf(&self) -> bool {
        saved_names(self.connector_saved_states@).no_duplicates()
    }

    /// The index of the output named `name`.
    pub fn find_output(&self, name: &String) -> (r: Option<usize>)
        ensures
            match r {
                Some(i) => i < self.outputs@.len() && self.outputs@[i as int].name@ == name@,
                None => forall|i: int| 0 <= i < self.outputs@.len() ==> #[trigger] self.outputs@[i].name@ != name@,
            },
    {
        let mut i: usize = 0;
        while i < self.outputs.len()
            invariant
                i <= self.outputs@.len(),
                forall|j: int| 0 <= j < i ==> #[trigger] self.outputs@[j].name@ != name@,
            decreases self.outputs@.len() - i,
        {
            if self.outputs[i].name == *name {
                return Some(i);
            }
            i += 1;
        }
        None
    }

    /// The index of the output that holds tag `tag`.
    pub fn tag_output(&self, tag: u32) -> (r: Option<usize>)
        ensures
            match r {
                Some(o) => o < self.outputs@.len() && self.output_has_tag(o as int, tag),
                None => forall|o: int| 0 <= o < self.outputs@.len() ==> !#[trigger] self.output_has_tag(o, tag),
            },
    {
        let mut i: usize = 0;
        while i < self.outputs.len()
            invariant
                i <= self.outputs@.len(),
                forall|j: int| 0 <= j < i ==> !#[trigger] self.output_has_tag(j, tag),
            decreases self.outputs@.len() - i,
        {
            if tag_set_contains(&self.outputs[i].tags, tag) {
                return Some(i);
            }
            i += 1;
        }
        None
    }

    /// The index of tag `tag` among the live tags.
    pub fn find_tag(&self, tag: u32) -> (r: Option<usize>)
        ensures
            match r {
                Some(k) => k < self.tags@.len() && self.tags@[k as int].id == tag,
                None => !ids_of_tags(self.tags@).contains(tag),
            },
    {
        let mut i: usize = 0;
        while i < self.tags.len()
            invariant
                i <= self.tags@.len(),
                forall|j: int| 0 <= j < i ==> #[trigger] self.tags@[j].id != tag,
            decreases self.tags@.len() - i,
        {
            if self.tags[i].id == tag {
                return Some(i);
            }
            i += 1;
        }
        proof {
            if ids_of_tags(self.tags@).contains(tag) {
                let j = choose|j: int| 0 <= j < ids_of_tags(self.tags@).len() && ids_of_tags(self.tags@)[j] == tag;
                assert(self.tags@[j].id == tag);
            }
        }
        None
    }

    /// The index of the mapped window `id`.
    pub fn window_index(&self, id: u32) -> (r: Option<usize>)
        ensures
            match r {
                Some(k) => k < self.windows@.len() && self.windows@[k as int].id == id,
                None => !ids_of_windows(self.windows@).contains(id),
            },
    {
        let mut i: usize = 0;
        while i < self.windows.len()
            invariant
                i <= self.windows@.len(),
                forall|j: int| 0 <= j < i ==> #[trigger] self.windows@[j].id != id,
            decreases self.windows@.len() - i,
        {
            if self.windows[i].id == id {
                return Some(i);
            }
            i += 1;
        }
        proof {
            if ids_of_windows(self.windows@).contains(id) {
                let j = choose|j: int| 0 <= j < ids_of_windows(self.windows@).len() && ids_of_windows(self.windows@)[j] == id;
                assert(self.windows@[j].id == id);
            }
        }
        None
    }

    /// The index of the unmapped window `id`.
    pub fn unmapped_index(&self, id: u32) -> (r: Option<usize>)
        ensures
            match r {
                Some(k) => k < self.unmapped_windows@.len() && self.unmapped_windows@[k as int].window.id == id,
                None => !ids_of_unmapped(self.unmapped_windows@).contains(id),
            },
    {
        let mut i: usize = 0;
        while i < self.unmapped_windows.len()
            invariant
                i <= self.unmapped_windows@.len(),
                forall|j: int| 0 <= j < i ==> #[trigger] self.unmapped_windows@[j].window.id != id,
            decreases self.unmapped_windows@.len() - i,
        {
            if self.unmapped_windows[i].window.id == id {
                return Some(i);
            }
            i += 1;
        }
        proof {
            if ids_of_unmapped(self.unmapped_windows@).contains(id) {
                let j = choose|j: int| 0 <= j < ids_of_unmapped(self.unmapped_windows@).len() && ids_of_unmapped(self.unmapped_windows@)[j] == id;
                assert(self.unmapped_windows@[j].window.id == id);
            }
        }
        None
    }

    /// The output a window is on: the one that holds its first tag.
    pub fn window_output(&self, window: &WindowState) -> (r: Option<usize>)
        ensures
            match r {
                Some(o) => o < self.outputs@.len() && tag_ids(window.tags).len() > 0
                    && self.output_has_tag(o as int, tag_ids(window.tags)[0]),
                None => tag_ids(window.tags).len() == 0
                    || forall|o: int| 0 <= o < self.outputs@.len()
                        ==> !#[trigger] self.output_has_tag(o, tag_ids(window.tags)[0]),
            },
    {
        match tag_set_get_index(&window.tags, 0) {
            Some(first) => self.tag_output(first),
            None => None,
        }
    }

    /// The window with keyboard focus.
    pub fn current_focus(&self) -> (r: Option<u32>)
        ensures
            r == self.focus(),
    {
        let n = self.keyboard_focus_stack.len();
        if n == 0 {
            None
        } else {
            Some(self.keyboard_focus_stack[n - 1])
        }
    }
}

/// No window is both mapped and unmapped: a window id is in at most one of
/// the two lists, and at most once.
pub proof fn lemma_mapped_or_unmapped(s: Pinnacle, id: u32)
    requires
        s.wf(),
    ensures
        !(ids_of_windows(s.windows@).contains(id) && ids_of_unmapped(s.unmapped_windows@).contains(id)),
{
    let a = ids_of_windows(s.windows@);
    let b = ids_of_unmapped(s.unmapped_windows@);
    if a.contains(id) && b.contains(id) {
        let i = choose|i: int| 0 <= i < a.len() && a[i] == id;
        let j = choose|j: int| 0 <= j < b.len() && b[j] == id;
        assert((a + b)[i] == (a + b)[a.len() + j]);
    }
}

/// A state whose tags and outputs are those of a well-formed state, and
/// whose windows are well formed, is well formed.
pub proof fn lemma_wf_same_tags(s0: Pinnacle, s1: Pinnacle)
    requires
        refs_below(s1.windows@, s1.unmapped_windows@, s1.connector_saved_states@, s1.next_tag_id),
        saved_names(s1.connector_saved_states@) == saved_names(s0.connector_saved_states@),
        s0.wf(),
        s1.tags == s0.tags,
        s1.outputs == s0.outputs,
        s1.next_tag_id == s0.next_tag_id,
        s1.windows_wf(),
    ensures
        s1.wf(),
{
    assert forall|o: int, t: u32| 0 <= o < s1.outputs@.len() implies
        #[trigger] s1.output_has_tag(o, t) == s0.output_has_tag(o, t) by {}
    assert forall|o: int| 0 <= o < s1.outputs@.len() implies tag_ids(#[trigger] s1.outputs@[o].tags).no_duplicates() by {
        assert(tag_ids(s0.outputs@[o].tags).no_duplicates());
    }
    assert forall|a: int, b: int|
        0 <= a < s1.outputs@.len() && 0 <= b < s1.outputs@.len() && a != b
            implies #[trigger] s1.outputs@[a].name@ != #[trigger] s1.outputs@[b].name@ by {
        assert(s0.outputs@[a].name@ != s0.outputs@[b].name@);
    }
    assert forall|k: int| 0 <= k < s1.tags@.len() implies #[trigger] s1.tags@[k].id < s1.next_tag_id by {
        assert(s0.tags@[k].id < s0.next_tag_id);
    }
}

/// The invariant depends only on ids, tag sets and names: a state that
/// agrees with a well-formed one on those is well formed.
pub proof fn lemma_wf_frame(s0: Pinnacle, s1: Pinnacle)
    requires
        refs_below(s1.windows@, s1.unmapped_windows@, s1.connector_saved_states@, s1.next_tag_id),
        saved_names(s1.connector_saved_states@) == saved_names(s0.connector_saved_states@),
        s0.wf(),
        ids_of_tags(s1.tags@) == ids_of_tags(s0.tags@),
        s1.next_tag_id == s0.next_tag_id,
        s1.outputs@.len() == s0.outputs@.len(),
        forall|o: int| 0 <= o < s0.outputs@.len() ==> tag_ids(#[trigger] s1.outputs@[o].tags) == tag_ids(s0.outputs@[o].tags),
        forall|o: int| 0 <= o < s0.outputs@.len() ==> (#[trigger] s1.outputs@[o]).name@ == s0.outputs@[o].name@,
        ids_of_windows(s1.windows@) == ids_of_windows(s0.windows@),
        ids_of_unmapped(s1.unmapped_windows@) == ids_of_unmapped(s0.unmapped_windows@),
    ensures
        s1.wf(),
{
    assert forall|k: int| 0 <= k < s1.tags@.len() implies #[trigger] s1.tags@[k].id < s1.next_tag_id by {
        assert(ids_of_tags(s1.tags@).len() == s1.tags@.len());
        assert(ids_of_tags(s0.tags@).len() == s0.tags@.len());
        assert(ids_of_tags(s1.tags@)[k] == ids_of_tags(s0.tags@)[k]);
        assert(ids_of_tags(s1.tags@)[k] == s1.tags@[k].id);
        assert(ids_of_tags(s0.tags@)[k] == s0.tags@[k].id);
        assert(s0.tags@[k].id < s0.next_tag_id);
    }
    assert forall|o: int, t: u32| 0 <= o < s1.outputs@.len() implies
        #[trigger] s1.output_has_tag(o, t) == s0.output_has_tag(o, t) by {
        assert(tag_ids(s1.outputs@[o].tags) == tag_ids(s0.outputs@[o].tags));
    }
    assert forall|o: int| 0 <= o < s1.outputs@.len() implies tag_ids(#[trigger] s1.outputs@[o].tags).no_duplicates() by {
        assert(tag_ids(s1.outputs@[o].tags) == tag_ids(s0.outputs@[o].tags));
        assert(tag_ids(s0.outputs@[o].tags).no_duplicates());
    }
    assert forall|a: int, b: int|
        0 <= a < s1.outputs@.len() && 0 <= b < s1.outputs@.len() && a != b
            implies #[trigger] s1.outputs@[a].name@ != #[trigger] s1.outputs@[b].name@ by {
        assert(s0.outputs@[a].name@ != s0.outputs@[b].name@);
    }
}

} // verus!
