//! Outputs: attached displays, their tags, mode, blanking and saved state.
use crate::geometry::{Point, Size};
use crate::state::{saved_names, ids_of_tags, ids_of_unmapped, ids_of_windows, lemma_wf_frame, Pinnacle, SavedConnector};
use crate::tag::{remove_ids, without};
use crate::tag_set::{tag_ids, tag_set_clone, tag_set_get_index, tag_set_insert, tag_set_len, tag_set_new};
use indexmap::IndexSet;
use vstd::prelude::*;

verus! {

/// How far an output has gone towards showing a black frame for a session lock.
#[derive(Clone, Copy, Debug, PartialEq, Eq, Structural)]
pub enum BlankingState {
    NotBlanked,
    Blanking,
    Blanked,
}

/// A display mode: pixel size and refresh rate in millihertz.
#[derive(Clone, Copy, Debug, PartialEq, Eq, Structural)]
pub struct Mode {
    pub size: Size,
    pub refresh: i32,
}

/// An attached display.
pub struct Output {
    /// The connector name; stable across reconnects.
    pub name: String,
    /// The output's tags, in order.
    pub tags: IndexSet<u32>,
    pub loc: Point,
    /// The size of the output's area in the global space.
    pub logical_size: Size,
    /// The scale in 120ths (120 is a scale of one).
    pub scale: u32,
    pub current_mode: Option<Mode>,
    pub modes: Vec<Mode>,
    /// Mapped into the global space.
    pub enabled: bool,
    pub powered: bool,
    pub vrr: bool,
    pub vrr_on_demand: bool,
    pub blanking_state: BlankingState,
    pub has_lock_surface: bool,
    /// A render has been asked for.
    pub render_scheduled: bool,
}

/// State saved when an output is disconnected, restored when the same
/// connector comes back.
pub struct ConnectorSavedState {
    /// The old location.
    pub loc: Point,
    /// The output's previous tags.
    pub tags: IndexSet<u32>,
    /// The output's previous scale.
    pub scale: u32,
}

/// A requested mode: a pixel size and, optionally, a refresh rate in
/// millihertz.
#[derive(Clone, Copy, Debug, PartialEq, Eq, Structural)]
pub struct ModeRequest {
    pub size: Size,
    pub refresh: Option<i32>,
}

/// A requested output configuration.
#[derive(Clone, Copy, Debug, PartialEq, Eq, Structural)]
pub enum OutputConfiguration {
    /// Unmap the output from the global space and power it off.
    Disabled,
    /// Map and power the output, applying what is given.
    Enabled {
        mode: Option<ModeRequest>,
        position: Option<Point>,
        /// Scale in 120ths.
        scale: Option<u32>,
        adaptive_sync: Option<bool>,
    },
}

/// The refresh rate assumed when a size is asked for that no known mode has.
pub const FALLBACK_REFRESH: i32 = 60_000;

/// The mode to use for `size`: the given refresh rate, else the fastest
/// known mode of that size, else the fallback rate.
pub open spec fn picked_mode(modes: Seq<Mode>, size: Size, refresh: Option<i32>, r: Mode) -> bool {
    &&& r.size == size
    &&& match refresh {
        Some(f) => r.refresh == f,
        None => if exists|i: int| 0 <= i < modes.len() && (#[trigger] modes[i]).size == size {
            &&& exists|i: int| 0 <= i < modes.len() && #[trigger] modes[i] == r
            &&& forall|i: int| 0 <= i < modes.len() && (#[trigger] modes[i]).size == size ==> modes[i].refresh <= r.refresh
        } else {
            r.refresh == FALLBACK_REFRESH
        },
    }
}

/// Picks the mode for `size` among `modes`.
pub fn pick_mode(modes: &Vec<Mode>, size: Size, refresh: Option<i32>) -> (r: Mode)
    ensures
        picked_mode(modes@, size, refresh, r),
{
    if let Some(f) = refresh {
        return Mode { size, refresh: f };
    }
    let mut best: Option<Mode> = None;
    let mut i: usize = 0;
    while i < modes.len()
        invariant
            i <= modes@.len(),
            match best {
                None => forall|j: int| 0 <= j < i ==> (#[trigger] modes@[j]).size != size,
                Some(b) => {
                    &&& b.size == size
                    &&& exists|j: int| 0 <= j < i && #[trigger] modes@[j] == b
                    &&& forall|j: int| 0 <= j < i && (#[trigger] modes@[j]).size == size ==> modes@[j].refresh <= b.refresh
                },
            },
        decreases modes@.len() - i,
    {
        let m = modes[i];
        if m.size == size {
            match best {
                None => best = Some(m),
                Some(b) => if m.refresh > b.refresh {
                    best = Some(m);
                },
            }
        }
        i += 1;
    }
    match best {
        Some(b) => b,
        None => Mode { size, refresh: FALLBACK_REFRESH },
    }
}

/// Output `o1` is `o0` with configuration `config` applied, and `r` is what
/// the backend must do.
pub open spec fn configured(o0: Output, o1: Output, config: OutputConfiguration, r: AppliedConfiguration) -> bool {
    &&& o1.name == o0.name
    &&& o1.tags == o0.tags
    &&& match config {
        OutputConfiguration::Disabled => {
            &&& !o1.enabled && !o1.powered
            &&& r == AppliedConfiguration { powered: false, vrr: None }
            &&& o1.current_mode == o0.current_mode && o1.loc == o0.loc && o1.scale == o0.scale
        },
        OutputConfiguration::Enabled { mode, position, scale, adaptive_sync } => {
            &&& o1.enabled && o1.powered && o1.render_scheduled
            &&& r == AppliedConfiguration { powered: true, vrr: adaptive_sync }
            &&& match mode {
                Some(req) => o1.current_mode matches Some(m) && picked_mode(o0.modes@, req.size, req.refresh, m),
                None => o1.current_mode == o0.current_mode,
            }
            &&& o1.loc == match position { Some(p) => p, None => o0.loc }
            &&& o1.scale == match scale { Some(f) => f, None => o0.scale }
            &&& match adaptive_sync {
                Some(v) => o1.vrr == v && !o1.vrr_on_demand,
                None => o1.vrr == o0.vrr && o1.vrr_on_demand == o0.vrr_on_demand,
            }
        },
    }
}

/// What the backend must do after a configuration was applied.
#[derive(Clone, Copy, Debug, PartialEq, Eq, Structural)]
pub struct AppliedConfiguration {
    pub powered: bool,
    /// A new adaptive-sync setting, when one was asked for.
    pub vrr: Option<bool>,
}

/// Whether tag `t` is live and on no output of `s`.
pub open spec fn tag_is_free(s: Pinnacle, t: u32) -> bool {
    &&& ids_of_tags(s.tags@).contains(t)
    &&& forall|o: int| 0 <= o < s.outputs@.len() ==> !#[trigger] s.output_has_tag(o, t)
}

/// Whether `c` is the first saved state of connector `name`.
pub open spec fn first_saved(s: Pinnacle, name: Seq<char>, c: int) -> bool {
    &&& 0 <= c < s.connector_saved_states@.len()
    &&& s.connector_saved_states@[c].name@ == name
    &&& forall|j: int| 0 <= j < c ==> (#[trigger] s.connector_saved_states@[j]).name@ != name
}

/// The index of the saved state of connector `name`, when there is one.
pub open spec fn saved_pos(s: Pinnacle, name: Seq<char>) -> Option<int> {
    if exists|c: int| #[trigger] first_saved(s, name, c) {
        Some(choose|c: int| #[trigger] first_saved(s, name, c))
    } else {
        None
    }
}

/// The first saved state of a connector is unique.
proof fn lemma_first_saved(s: Pinnacle, name: Seq<char>, c: int)
    requires
        first_saved(s, name, c),
    ensures
        saved_pos(s, name) == Some(c),
{
    let d = choose|d: int| #[trigger] first_saved(s, name, d);
    if d < c {
        assert(s.connector_saved_states@[d].name@ != name);
    }
    if c < d {
        assert(s.connector_saved_states@[c].name@ != name);
    }
}

/// Adding a well-placed output keeps the state well formed.
proof fn lemma_wf_push_output(s0: Pinnacle, s1: Pinnacle)
    requires
        crate::state::refs_below(s1.windows@, s1.unmapped_windows@, s1.connector_saved_states@, s1.next_tag_id),
        s1.saved_wf(),
        s0.wf(),
        s1.outputs@.len() == s0.outputs@.len() + 1,
        s1.outputs@.drop_last() == s0.outputs@,
        forall|o: int| 0 <= o < s0.outputs@.len() ==> #[trigger] s0.outputs@[o].name@ != s1.outputs@.last().name@,
        tag_ids(s1.outputs@.last().tags).no_duplicates(),
        forall|t: u32| #[trigger] tag_ids(s1.outputs@.last().tags).contains(t) ==> tag_is_free(s0, t),
        s1.tags == s0.tags,
        s1.next_tag_id == s0.next_tag_id,
        ids_of_windows(s1.windows@) == ids_of_windows(s0.windows@),
        ids_of_unmapped(s1.unmapped_windows@) == ids_of_unmapped(s0.unmapped_windows@),
    ensures
        s1.wf(),
{
    let n = s0.outputs@.len() as int;
    assert forall|j: int| 0 <= j < n implies #[trigger] s1.outputs@[j] == s0.outputs@[j] by {
        assert(s1.outputs@.drop_last()[j] == s1.outputs@[j]);
    }
    assert forall|j: int, t: u32| 0 <= j < n implies #[trigger] s1.output_has_tag(j, t) == s0.output_has_tag(j, t) by {
        assert(s1.outputs@[j] == s0.outputs@[j]);
    }
    assert forall|j: int| 0 <= j < s1.outputs@.len() implies tag_ids(#[trigger] s1.outputs@[j].tags).no_duplicates() by {
        if j < n {
            assert(s1.outputs@[j] == s0.outputs@[j]);
            assert(tag_ids(s0.outputs@[j].tags).no_duplicates());
        }
    }
    assert forall|a: int, b: int|
        0 <= a < s1.outputs@.len() && 0 <= b < s1.outputs@.len() && a != b
            implies #[trigger] s1.outputs@[a].name@ != #[trigger] s1.outputs@[b].name@ by {
        if a < n && b < n {
            assert(s0.outputs@[a].name@ != s0.outputs@[b].name@);
        } else if a < n {
            assert(s1.outputs@[a] == s0.outputs@[a]);
        } else {
            assert(s1.outputs@[b] == s0.outputs@[b]);
        }
    }
    assert forall|k: int| 0 <= k < s1.tags@.len() implies #[trigger] s1.tags@[k].id < s1.next_tag_id by {
        assert(s0.tags@[k].id < s0.next_tag_id);
    }
    assert forall|j: int, t: u32| 0 <= j < s1.outputs@.len() && #[trigger] s1.output_has_tag(j, t)
        implies t < s1.next_tag_id && ids_of_tags(s1.tags@).contains(t) by {
        if j == n {
            assert(tag_is_free(s0, t));
            let k = choose|k: int| 0 <= k < ids_of_tags(s0.tags@).len() && ids_of_tags(s0.tags@)[k] == t;
            assert(s0.tags@[k].id < s0.next_tag_id);
        } else {
            assert(s0.output_has_tag(j, t));
        }
    }
    assert forall|o1: int, o2: int, t: u32|
        0 <= o1 < s1.outputs@.len() && 0 <= o2 < s1.outputs@.len() && o1 != o2
            && #[trigger] s1.output_has_tag(o1, t) implies !#[trigger] s1.output_has_tag(o2, t) by {
        if o1 == n {
            assert(tag_is_free(s0, t));
            assert(!s0.output_has_tag(o2, t));
        } else if o2 == n {
            assert(s0.output_has_tag(o1, t));
            if s1.output_has_tag(o2, t) {
                assert(tag_is_free(s0, t));
            }
        } else {
            assert(s0.output_has_tag(o1, t));
        }
    }
}

/// `s1` is `s0` after output `o` was disconnected: the output is gone, its
/// location, tags and scale are saved under its name, and its tags are gone
/// from every window.
pub open spec fn disconnected(s0: Pinnacle, s1: Pinnacle, o: int) -> bool {
    let out = s0.outputs@[o];
    &&& 0 <= o < s0.outputs@.len()
    &&& s1.outputs@ == s0.outputs@.remove(o)
    &&& s1.tags == s0.tags
    &&& s1.next_tag_id == s0.next_tag_id
    &&& saved_pos(s1, out.name@) matches Some(c) && {
        let saved = s1.connector_saved_states@[c].state;
        &&& saved.loc == out.loc
        &&& tag_ids(saved.tags) == tag_ids(out.tags)
        &&& saved.scale == out.scale
    }
    &&& s1.windows@.len() == s0.windows@.len()
    &&& forall|w: int| 0 <= w < s0.windows@.len() ==> {
        &&& (#[trigger] s1.windows@[w]).id == s0.windows@[w].id
        &&& tag_ids(s1.windows@[w].tags) == without(tag_ids(s0.windows@[w].tags), tag_ids(out.tags))
    }
    &&& s1.unmapped_windows@.len() == s0.unmapped_windows@.len()
    &&& forall|w: int| 0 <= w < s0.unmapped_windows@.len() ==> {
        &&& (#[trigger] s1.unmapped_windows@[w]).window.id == s0.unmapped_windows@[w].window.id
        &&& tag_ids(s1.unmapped_windows@[w].window.tags) == without(tag_ids(s0.unmapped_windows@[w].window.tags), tag_ids(out.tags))
    }
}

/// `s1` is `s0` after output `out` (named `name`) was connected: it is the
/// last output, with the saved location, scale and tags of its connector
/// (those tags that are live and on no other output), or with no tags.
pub open spec fn reconnected(s0: Pinnacle, s1: Pinnacle, name: Seq<char>) -> bool {
    let last = s1.outputs@.last();
    &&& s1.outputs@.len() == s0.outputs@.len() + 1
    &&& s1.outputs@.drop_last() == s0.outputs@
    &&& last.name@ == name
    &&& s1.tags == s0.tags
    &&& match saved_pos(s0, name) {
        Some(c) => {
            let saved = s0.connector_saved_states@[c].state;
            &&& last.loc == saved.loc
            &&& last.scale == saved.scale
            &&& tag_ids(saved.tags).no_duplicates() ==> tag_ids(last.tags) == tag_ids(saved.tags).filter(|t: u32| tag_is_free(s0, t))
        },
        None => tag_ids(last.tags) == Seq::<u32>::empty(),
    }
}

/// Removing an output keeps the state well formed.
proof fn lemma_wf_remove_output(s0: Pinnacle, s1: Pinnacle, o: int)
    requires
        crate::state::refs_below(s1.windows@, s1.unmapped_windows@, s1.connector_saved_states@, s1.next_tag_id),
        s1.saved_wf(),
        s0.wf(),
        0 <= o < s0.outputs@.len(),
        s1.outputs@ == s0.outputs@.remove(o),
        s1.tags == s0.tags,
        s1.next_tag_id == s0.next_tag_id,
        ids_of_windows(s1.windows@) == ids_of_windows(s0.windows@),
        ids_of_unmapped(s1.unmapped_windows@) == ids_of_unmapped(s0.unmapped_windows@),
    ensures
        s1.wf(),
{
    assert forall|j: int| 0 <= j < s1.outputs@.len() implies #[trigger] s1.outputs@[j] == s0.outputs@[if j < o { j } else { j + 1 }] by {}
    assert forall|j: int, t: u32| 0 <= j < s1.outputs@.len() implies
        #[trigger] s1.output_has_tag(j, t) == s0.output_has_tag(if j < o { j } else { j + 1 }, t) by {
        assert(s1.outputs@[j] == s0.outputs@[if j < o { j } else { j + 1 }]);
    }
    assert forall|j: int| 0 <= j < s1.outputs@.len() implies tag_ids(#[trigger] s1.outputs@[j].tags).no_duplicates() by {
        assert(s1.outputs@[j] == s0.outputs@[if j < o { j } else { j + 1 }]);
        assert(tag_ids(s0.outputs@[if j < o { j } else { j + 1 }].tags).no_duplicates());
    }
    assert forall|a: int, b: int|
        0 <= a < s1.outputs@.len() && 0 <= b < s1.outputs@.len() && a != b
            implies #[trigger] s1.outputs@[a].name@ != #[trigger] s1.outputs@[b].name@ by {
        assert(s1.outputs@[a] == s0.outputs@[if a < o { a } else { a + 1 }]);
        assert(s1.outputs@[b] == s0.outputs@[if b < o { b } else { b + 1 }]);
    }
    assert forall|k: int| 0 <= k < s1.tags@.len() implies #[trigger] s1.tags@[k].id < s1.next_tag_id by {
        assert(s0.tags@[k].id < s0.next_tag_id);
    }
    assert forall|o1: int, o2: int, t: u32|
        0 <= o1 < s1.outputs@.len() && 0 <= o2 < s1.outputs@.len() && o1 != o2
            && #[trigger] s1.output_has_tag(o1, t) implies !#[trigger] s1.output_has_tag(o2, t) by {
        let p1 = if o1 < o { o1 } else { o1 + 1 };
        let p2 = if o2 < o { o2 } else { o2 + 1 };
        assert(s0.output_has_tag(p1, t));
        if s1.output_has_tag(o2, t) {
            assert(s0.output_has_tag(p2, t));
        }
    }
    assert forall|j: int, t: u32| 0 <= j < s1.outputs@.len() && #[trigger] s1.output_has_tag(j, t)
        implies t < s1.next_tag_id && ids_of_tags(s1.tags@).contains(t) by {
        assert(s0.output_has_tag(if j < o { j } else { j + 1 }, t));
    }
}

impl Pinnacle {
    /// The index of the saved state of connector `name`.
    fn find_saved(&self, name: &String) -> (r: Option<usize>)
        ensures
            match r {
                Some(c) => first_saved(*self, name@, c as int) && saved_pos(*self, name@) == Some(c as int),
                None => saved_pos(*self, name@) is None
                    && forall|j: int| 0 <= j < self.connector_saved_states@.len() ==> (#[trigger] self.connector_saved_states@[j]).name@ != name@,
            },
    {
        let mut i: usize = 0;
        while i < self.connector_saved_states.len()
            invariant
                i <= self.connector_saved_states@.len(),
                forall|j: int| 0 <= j < i ==> (#[trigger] self.connector_saved_states@[j]).name@ != name@,
            decreases self.connector_saved_states@.len() - i,
        {
            if self.connector_saved_states[i].name == *name {
                proof {
                    lemma_first_saved(*self, name@, i as int);
                }
                return Some(i);
            }
            i += 1;
        }
        None
    }

    /// The tag ids of a set, as a list.
    fn ids_in(set: &IndexSet<u32>) -> (r: Vec<u32>)
        ensures
            r@ == tag_ids(*set),
    {
        let n = tag_set_len(set);
        let mut out: Vec<u32> = Vec::new();
        let mut i: usize = 0;
        while i < n
            invariant
                n == tag_ids(*set).len(),
                i <= n,
                out@ == tag_ids(*set).take(i as int),
            decreases n - i,
        {
            let t = match tag_set_get_index(set, i) {
                Some(t) => t,
                None => 0,
            };
            out.push(t);
            proof {
                assert(tag_ids(*set).take(i + 1) =~= tag_ids(*set).take(i as int).push(t));
            }
            i += 1;
        }
        proof {
            assert(tag_ids(*set).take(n as int) =~= tag_ids(*set));
        }
        out
    }

    /// Output `name` was unplugged. Its location, tags and scale are saved
    /// under its name (replacing an older save), its tags leave every window,
    /// and it leaves the output list. Returns whether there was such an output.
    pub fn output_disconnected(&mut self, name: &String) -> (r: bool)
        requires
            old(self).wf(),
        ensures
            final(self).wf(),
            r == exists|o: int| 0 <= o < old(self).outputs@.len() && #[trigger] old(self).outputs@[o].name@ == name@,
            r ==> exists|o: int| 0 <= o < old(self).outputs@.len() && #[trigger] old(self).outputs@[o].name@ == name@
                && disconnected(*old(self), *final(self), o),
            !r ==> *final(self) == *old(self),
    {
        let o = match self.find_output(name) {
            Some(o) => o,
            None => return false,
        };
        let ghost s0 = *self;
        let rm = Self::ids_in(&self.outputs[o].tags);
        let saved = ConnectorSavedState {
            loc: self.outputs[o].loc,
            tags: tag_set_clone(&self.outputs[o].tags),
            scale: self.outputs[o].scale,
        };
        let ghost mut c_saved: int = 0;
        match self.find_saved(name) {
            Some(c) => {
                let ghost before = *self;
                proof {
                    c_saved = c as int;
                }
                self.connector_saved_states[c].state = saved;
                proof {
                    assert forall|j: int| 0 <= j < c implies (#[trigger] self.connector_saved_states@[j]).name@ != name@ by {
                        assert(self.connector_saved_states@[j] == before.connector_saved_states@[j]);
                    }
                    assert(first_saved(*self, name@, c as int));
                    lemma_first_saved(*self, name@, c as int);
                    assert(saved_names(self.connector_saved_states@) =~= saved_names(before.connector_saved_states@));
                }
            },
            None => {
                let ghost before = *self;
                self.connector_saved_states.push(SavedConnector { name: name.clone(), state: saved });
                proof {
                    let c = before.connector_saved_states@.len() as int;
                    c_saved = c;
                    assert forall|j: int| 0 <= j < c implies (#[trigger] self.connector_saved_states@[j]).name@ != name@ by {
                        assert(self.connector_saved_states@[j] == before.connector_saved_states@[j]);
                    }
                    assert(first_saved(*self, name@, c));
                    lemma_first_saved(*self, name@, c);
                    assert(saved_names(self.connector_saved_states@) =~= saved_names(before.connector_saved_states@).push(name@));
                    assert(!saved_names(before.connector_saved_states@).contains(name@)) by {
                        if saved_names(before.connector_saved_states@).contains(name@) {
                            let j = choose|j: int| 0 <= j < saved_names(before.connector_saved_states@).len() && saved_names(before.connector_saved_states@)[j] == name@;
                            assert(before.connector_saved_states@[j].name@ == name@);
                        }
                    }
                    crate::output_power::lemma_push_distinct(saved_names(before.connector_saved_states@), name@);
                }
            },
        }
        let ghost s_saved = *self;
        let mut i: usize = 0;
        while i < self.windows.len()
            invariant
                i <= self.windows@.len(),
                self.windows@.len() == s0.windows@.len(),
                self.outputs == s0.outputs,
                self.tags == s0.tags,
                self.unmapped_windows == s0.unmapped_windows,
                self.connector_saved_states == s_saved.connector_saved_states,
                self.next_tag_id == s0.next_tag_id,
                forall|w: int| 0 <= w < s0.windows@.len() ==> (#[trigger] self.windows@[w]).id == s0.windows@[w].id,
                forall|w: int| 0 <= w < i ==> tag_ids(#[trigger] self.windows@[w].tags) == without(tag_ids(s0.windows@[w].tags), rm@),
                forall|w: int| i <= w < s0.windows@.len() ==> #[trigger] self.windows@[w] == s0.windows@[w],
            decreases s0.windows@.len() - i,
        {
            remove_ids(&mut self.windows[i].tags, &rm);
            i += 1;
        }
        let mut i: usize = 0;
        while i < self.unmapped_windows.len()
            invariant
                i <= self.unmapped_windows@.len(),
                self.unmapped_windows@.len() == s0.unmapped_windows@.len(),
                self.outputs == s0.outputs,
                self.tags == s0.tags,
                self.windows@.len() == s0.windows@.len(),
                self.connector_saved_states == s_saved.connector_saved_states,
                self.next_tag_id == s0.next_tag_id,
                forall|w: int| 0 <= w < s0.windows@.len() ==> (#[trigger] self.windows@[w]).id == s0.windows@[w].id,
                forall|w: int| 0 <= w < s0.windows@.len() ==> tag_ids(#[trigger] self.windows@[w].tags) == without(tag_ids(s0.windows@[w].tags), rm@),
                forall|w: int| 0 <= w < s0.unmapped_windows@.len() ==> (#[trigger] self.unmapped_windows@[w]).window.id == s0.unmapped_windows@[w].window.id,
                forall|w: int| 0 <= w < i ==> tag_ids(#[trigger] self.unmapped_windows@[w].window.tags) == without(tag_ids(s0.unmapped_windows@[w].window.tags), rm@),
                forall|w: int| i <= w < s0.unmapped_windows@.len() ==> #[trigger] self.unmapped_windows@[w] == s0.unmapped_windows@[w],
            decreases s0.unmapped_windows@.len() - i,
        {
            remove_ids(&mut self.unmapped_windows[i].window.tags, &rm);
            i += 1;
        }
        self.outputs.remove(o);
        proof {
            assert(ids_of_windows(self.windows@) =~= ids_of_windows(s0.windows@));
            assert(ids_of_unmapped(self.unmapped_windows@) =~= ids_of_unmapped(s0.unmapped_windows@));
            assert forall|c: int, i: int| 0 <= c < self.connector_saved_states@.len() && 0 <= i < tag_ids(self.connector_saved_states@[c].state.tags).len()
                implies #[trigger] tag_ids(self.connector_saved_states@[c].state.tags)[i] < self.next_tag_id by {
                if c == c_saved {
                    assert(tag_ids(self.connector_saved_states@[c].state.tags) == tag_ids(s0.outputs@[o as int].tags));
                    assert(s0.output_has_tag(o as int, tag_ids(s0.outputs@[o as int].tags)[i]));
                } else {
                    assert(self.connector_saved_states@[c] == s0.connector_saved_states@[c]);
                    assert(tag_ids(s0.connector_saved_states@[c].state.tags)[i] < s0.next_tag_id);
                }
            }
            crate::state::lemma_refs_filtered(s0, *self, rm@);
            lemma_wf_remove_output(s0, *self, o as int);
            assert(s0.outputs@[o as int].name@ == name@);
            assert(first_saved(*self, name@, c_saved));
            lemma_first_saved(*self, name@, c_saved);
            assert(disconnected(s0, *self, o as int));
        }
        true
    }

    /// Output `output` was plugged in. When its connector has a saved state,
    /// the location, scale and those saved tags that are live and on no other
    /// output come back, and the save is dropped; otherwise it starts with no
    /// tags. Refused (returning `false`) when an output of that name exists.
    pub fn output_connected(&mut self, output: Output) -> (r: bool)
        requires
            old(self).wf(),
        ensures
            final(self).wf(),
            r == forall|o: int| 0 <= o < old(self).outputs@.len() ==> #[trigger] old(self).outputs@[o].name@ != output.name@,
            r ==> reconnected(*old(self), *final(self), output.name@),
            !r ==> *final(self) == *old(self),
    {
        if self.find_output(&output.name).is_some() {
            return false;
        }
        let ghost s0 = *self;
        let mut output = output;
        let ghost name = output.name@;
        let ghost free = |t: u32| tag_is_free(s0, t);
        let mut tags = tag_set_new();
        match self.find_saved(&output.name) {
            Some(c) => {
                let saved = &self.connector_saved_states[c].state;
                output.loc = saved.loc;
                output.scale = saved.scale;
                let ids = Self::ids_in(&saved.tags);
                let mut i: usize = 0;
                while i < ids.len()
                    invariant
                        *self == s0,
                        free == (|t: u32| tag_is_free(s0, t)),
                        ids@ == tag_ids(s0.connector_saved_states@[c as int].state.tags),
                        i <= ids@.len(),
                        ids@.no_duplicates() ==> tag_ids(tags) == ids@.take(i as int).filter(free),
                        tag_ids(tags).no_duplicates(),
                        forall|t: u32| #[trigger] tag_ids(tags).contains(t) ==> ids@.take(i as int).contains(t) && tag_is_free(s0, t),
                    decreases ids@.len() - i,
                {
                    let t = ids[i];
                    proof {
                        assert(ids@.take(i + 1).drop_last() =~= ids@.take(i as int));
                        assert(ids@.take(i + 1).last() == t);
                        reveal(Seq::filter);
                    }
                    let live = self.find_tag(t).is_some();
                    let placed = self.tag_output(t).is_some();
                    let ghost before = tag_ids(tags);
                    proof {
                        assert(free(t) == (live && !placed)) by {
                            if live {
                                let k = choose|k: int| 0 <= k < s0.tags@.len() && s0.tags@[k].id == t;
                                assert(ids_of_tags(s0.tags@)[k] == t);
                            }
                        }
                    }
                    if live && !placed && !crate::tag_set::tag_set_contains(&tags, t) {
                        tag_set_insert(&mut tags, t);
                        proof {
                            crate::seq_facts::lemma_push_no_duplicates(before, t);
                        }
                    }
                    proof {
                        assert(ids@.take(i + 1) =~= ids@.take(i as int).push(t));
                        assert forall|t2: u32| #[trigger] tag_ids(tags).contains(t2) implies ids@.take(i + 1).contains(t2) && tag_is_free(s0, t2) by {
                            crate::seq_facts::lemma_push_contains(ids@.take(i as int), t, t2);
                            crate::seq_facts::lemma_push_contains(before, t, t2);
                            if live && !placed {
                                assert(tag_is_free(s0, t)) by {
                                    let k = choose|k: int| 0 <= k < s0.tags@.len() && s0.tags@[k].id == t;
                                    assert(ids_of_tags(s0.tags@)[k] == t);
                                }
                            }
                        }
                        if ids@.no_duplicates() {
                            assert(ids@.take(i + 1).no_duplicates());
                            if ids@.take(i as int).contains(t) {
                                let j = choose|j: int| 0 <= j < i && ids@.take(i as int)[j] == t;
                                assert(ids@[j] == ids@[i as int]);
                            }
                            if live && !placed {
                                assert(!before.contains(t));
                            } else {
                                assert(!tag_is_free(s0, t)) by {
                                    if tag_is_free(s0, t) {
                                        if !live {
                                            assert(ids_of_tags(s0.tags@).contains(t));
                                        }
                                    }
                                }
                            }
                        }
                    }
                    i += 1;
                }
                proof {
                    assert(ids@.take(ids@.len() as int) =~= ids@);
                }
                let ghost before_rm = saved_names(self.connector_saved_states@);
                self.connector_saved_states.remove(c);
                proof {
                    assert(saved_names(self.connector_saved_states@) =~= before_rm.remove(c as int));
                    crate::output_power::lemma_remove_unique(before_rm, c as int);
                }
            },
            None => {
                proof {
                    assert(tag_ids(tags) =~= Seq::<u32>::empty());
                }
            },
        }
        let ghost mid = *self;
        output.tags = tags;
        self.outputs.push(output);
        proof {
            assert(self.outputs@.drop_last() =~= s0.outputs@);
            lemma_wf_push_output(s0, *self);
        }
        true
    }
}

/// Unplugging an output and plugging its connector back in restores its
/// location, scale and tags.
pub proof fn lemma_reconnect_restores(s0: Pinnacle, s1: Pinnacle, s2: Pinnacle, o: int)
    requires
        s0.wf(),
        disconnected(s0, s1, o),
        reconnected(s1, s2, s0.outputs@[o].name@),
    ensures
        s2.outputs@.last().loc == s0.outputs@[o].loc,
        s2.outputs@.last().scale == s0.outputs@[o].scale,
        tag_ids(s2.outputs@.last().tags) == tag_ids(s0.outputs@[o].tags),
{
    let ids = tag_ids(s0.outputs@[o].tags);
    assert(ids.no_duplicates());
    let free = |t: u32| tag_is_free(s1, t);
    assert forall|i: int| 0 <= i < ids.len() implies free(#[trigger] ids[i]) by {
        let t = ids[i];
        assert(s0.output_has_tag(o, t));
        assert forall|j: int| 0 <= j < s1.outputs@.len() implies !#[trigger] s1.output_has_tag(j, t) by {
            let p = if j < o { j } else { j + 1 };
            assert(s1.outputs@[j] == s0.outputs@[p]);
            assert(!s0.output_has_tag(p, t));
        }
    }
    crate::seq_facts::lemma_filter_keeps_all(ids, free);
}

/// A tag on an output is on no other output.
pub proof fn lemma_tag_single_output(s: Pinnacle, o1: int, o2: int, t: u32)
    requires
        s.wf(),
        0 <= o1 < s.outputs@.len(),
        0 <= o2 < s.outputs@.len(),
        s.output_has_tag(o1, t),
        s.output_has_tag(o2, t),
    ensures
        o1 == o2,
{
}

/// Once an output is disconnected, none of its tags is left on a window.
pub proof fn lemma_disconnect_clears_windows(s0: Pinnacle, s1: Pinnacle, o: int, t: u32)
    requires
        disconnected(s0, s1, o),
        s0.output_has_tag(o, t),
    ensures
        forall|w: int| 0 <= w < s1.windows@.len() ==> !tag_ids(#[trigger] s1.windows@[w].tags).contains(t),
        forall|w: int| 0 <= w < s1.unmapped_windows@.len() ==> !tag_ids(#[trigger] s1.unmapped_windows@[w].window.tags).contains(t),
{
    let rm = tag_ids(s0.outputs@[o].tags);
    assert forall|w: int| 0 <= w < s1.windows@.len() implies !tag_ids(#[trigger] s1.windows@[w].tags).contains(t) by {
        crate::seq_facts::lemma_filter_contains(tag_ids(s0.windows@[w].tags), |x: u32| !rm.contains(x), t);
    }
    assert forall|w: int| 0 <= w < s1.unmapped_windows@.len() implies !tag_ids(#[trigger] s1.unmapped_windows@[w].window.tags).contains(t) by {
        crate::seq_facts::lemma_filter_contains(tag_ids(s0.unmapped_windows@[w].window.tags), |x: u32| !rm.contains(x), t);
    }
}

impl Pinnacle {
    /// Applies a batch of output configurations, in order, and reports what
    /// the backend must do for each.
    pub fn apply_configuration(&mut self, configs: &Vec<(usize, OutputConfiguration)>) -> (r: Vec<AppliedConfiguration>)
        requires
            old(self).wf(),
            forall|i: int| 0 <= i < configs@.len() ==> (#[trigger] configs@[i]).0 < old(self).outputs@.len(),
            forall|i: int, j: int| 0 <= i < j < configs@.len() ==> configs@[i].0 != configs@[j].0,
        ensures
            forall|i: int| 0 <= i < configs@.len() ==> configured(old(self).outputs@[configs@[i].0 as int],
                final(self).outputs@[configs@[i].0 as int], configs@[i].1, #[trigger] r@[i]),
            forall|o: int| 0 <= o < old(self).outputs@.len() && (forall|i: int| 0 <= i < configs@.len() ==> configs@[i].0 != o)
                ==> #[trigger] final(self).outputs@[o] == old(self).outputs@[o],
            final(self).wf(),
            final(self).outputs@.len() == old(self).outputs@.len(),
            final(self).windows == old(self).windows,
            final(self).tags == old(self).tags,
            r@.len() == configs@.len(),
            forall|i: int| 0 <= i < configs@.len() ==> (#[trigger] r@[i]).powered == (configs@[i].1 is Enabled),
            forall|o: int| 0 <= o < old(self).outputs@.len() ==> (#[trigger] final(self).outputs@[o]).name == old(self).outputs@[o].name,
    {
        let ghost s0 = *self;
        let mut r: Vec<AppliedConfiguration> = Vec::new();
        let mut i: usize = 0;
        while i < configs.len()
            invariant
                self.wf(),
                i <= configs@.len(),
                self.outputs@.len() == s0.outputs@.len(),
                self.windows == s0.windows,
                self.tags == s0.tags,
                forall|j: int| 0 <= j < configs@.len() ==> (#[trigger] configs@[j]).0 < s0.outputs@.len(),
                forall|o: int| 0 <= o < s0.outputs@.len() ==> (#[trigger] self.outputs@[o]).name == s0.outputs@[o].name,
                r@.len() == i,
                forall|j: int| 0 <= j < i ==> (#[trigger] r@[j]).powered == (configs@[j].1 is Enabled),
                forall|a: int, b: int| 0 <= a < b < configs@.len() ==> configs@[a].0 != configs@[b].0,
                forall|j: int| 0 <= j < i ==> configured(s0.outputs@[configs@[j].0 as int],
                    self.outputs@[configs@[j].0 as int], configs@[j].1, #[trigger] r@[j]),
                forall|o: int| 0 <= o < s0.outputs@.len() && (forall|j: int| 0 <= j < i ==> configs@[j].0 != o)
                    ==> #[trigger] self.outputs@[o] == s0.outputs@[o],
            decreases configs@.len() - i,
        {
            let (o, config) = configs[i];
            let ghost before = *self;
            let applied = self.apply_output_configuration(o, config);
            proof {
                assert forall|x: int| 0 <= x < s0.outputs@.len() implies (#[trigger] self.outputs@[x]).name == s0.outputs@[x].name by {
                    if x != o {
                        assert(self.outputs@[x] == before.outputs@[x]);
                    }
                }
                assert(forall|j: int| 0 <= j < i ==> configs@[j].0 != configs@[i as int].0);
                assert(before.outputs@[o as int] == s0.outputs@[o as int]);
            }
            let ghost r_before = r@;
            r.push(applied);
            proof {
                assert forall|j: int| 0 <= j < i + 1 implies configured(s0.outputs@[configs@[j].0 as int],
                    self.outputs@[configs@[j].0 as int], configs@[j].1, #[trigger] r@[j]) by {
                    if j < i {
                        assert(r@[j] == r_before[j]);
                        assert(configs@[j].0 != o);
                        assert(self.outputs@[configs@[j].0 as int] == before.outputs@[configs@[j].0 as int]);
                    }
                }
                assert forall|x: int| 0 <= x < s0.outputs@.len() && (forall|j: int| 0 <= j < i + 1 ==> configs@[j].0 != x)
                    implies #[trigger] self.outputs@[x] == s0.outputs@[x] by {
                    assert(configs@[i as int].0 != x);
                    assert(self.outputs@[x] == before.outputs@[x]);
                }
            }
            i += 1;
        }
        r
    }

    /// Applies a requested configuration to output `o` and schedules it.
    pub fn apply_output_configuration(&mut self, o: usize, config: OutputConfiguration) -> (r: AppliedConfiguration)
        requires
            old(self).wf(),
            o < old(self).outputs@.len(),
        ensures
            final(self).wf(),
            final(self).outputs@.len() == old(self).outputs@.len(),
            forall|j: int| 0 <= j < old(self).outputs@.len() && j != o ==> #[trigger] final(self).outputs@[j] == old(self).outputs@[j],
            final(self).windows == old(self).windows,
            final(self).tags == old(self).tags,
            configured(old(self).outputs@[o as int], final(self).outputs@[o as int], config, r),
    {
        let ghost s0 = *self;
        let r = match config {
            OutputConfiguration::Disabled => {
                self.outputs[o].enabled = false;
                self.outputs[o].powered = false;
                AppliedConfiguration { powered: false, vrr: None }
            },
            OutputConfiguration::Enabled { mode, position, scale, adaptive_sync } => {
                self.outputs[o].enabled = true;
                self.outputs[o].powered = true;
                if let Some(req) = mode {
                    let m = pick_mode(&self.outputs[o].modes, req.size, req.refresh);
                    self.outputs[o].current_mode = Some(m);
                }
                if let Some(p) = position {
                    self.outputs[o].loc = p;
                }
                if let Some(f) = scale {
                    self.outputs[o].scale = f;
                }
                if let Some(v) = adaptive_sync {
                    self.outputs[o].vrr = v;
                    self.outputs[o].vrr_on_demand = false;
                }
                self.outputs[o].render_scheduled = true;
                AppliedConfiguration { powered: true, vrr: adaptive_sync }
            },
        };
        proof {
            assert forall|j: int| 0 <= j < s0.outputs@.len() implies
                (#[trigger] self.outputs@[j]).name@ == s0.outputs@[j].name@
                && tag_ids(self.outputs@[j].tags) == tag_ids(s0.outputs@[j].tags) by {
                if j != o {
                    assert(self.outputs@[j] == s0.outputs@[j]);
                }
            }
            lemma_wf_frame(s0, *self);
        }
        r
    }
}

} // verus!
