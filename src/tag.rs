//! Tags: named virtual desktops, each bound to one output.
use crate::seq_facts::{
    lemma_filter_contains, lemma_filter_drops_all, lemma_filter_keeps_all,
    lemma_filter_no_duplicates, lemma_filter_twice, lemma_push_contains, lemma_push_no_duplicates,
};
use crate::state::{saved_names, lemma_wf_frame, ids_of_tags, ids_of_unmapped, ids_of_windows, Pinnacle};
use crate::tag_set::{tag_ids, tag_set_shift_remove};
use crate::window::UnmappedState;
use indexmap::IndexSet;
use vstd::prelude::*;

verus! {

/// A named virtual desktop.
pub struct Tag {
    pub id: u32,
    pub name: String,
    pub active: bool,
    /// Set when a configuration restart has retired the tag.
    pub defunct: bool,
}

/// `s` without the ids listed in `rm`, in the same order.
pub open spec fn without(s: Seq<u32>, rm: Seq<u32>) -> Seq<u32> {
    s.filter(|x: u32| !rm.contains(x))
}

/// Removes every id of `rm` from `set`, keeping the order of the rest.
pub(crate) fn remove_ids(set: &mut IndexSet<u32>, rm: &Vec<u32>)
    ensures
        tag_ids(*final(set)) == without(tag_ids(*old(set)), rm@),
{
    let ghost orig = tag_ids(*set);
    proof {
        lemma_filter_keeps_all(orig, |x: u32| !rm@.take(0).contains(x));
    }
    let mut j: usize = 0;
    while j < rm.len()
        invariant
            j <= rm@.len(),
            tag_ids(*set) == orig.filter(|x: u32| !rm@.take(j as int).contains(x)),
        decreases rm@.len() - j,
    {
        let id = rm[j];
        tag_set_shift_remove(set, id);
        proof {
            let p = |x: u32| !rm@.take(j as int).contains(x);
            let q = |x: u32| x != id;
            let r = |x: u32| !rm@.take(j + 1).contains(x);
            assert(rm@.take(j + 1) =~= rm@.take(j as int).push(id));
            assert forall|x: u32| #[trigger] r(x) == (p(x) && q(x)) by {
                if rm@.take(j as int).contains(x) {
                    let k = choose|k: int| 0 <= k < j && #[trigger] rm@.take(j as int)[k] == x;
                    assert(rm@.take(j + 1)[k] == x);
                }
                if x == id {
                    assert(rm@.take(j + 1)[j as int] == x);
                }
                if rm@.take(j + 1).contains(x) {
                    let k = choose|k: int| 0 <= k < j + 1 && #[trigger] rm@.take(j + 1)[k] == x;
                    if k < j {
                        assert(rm@.take(j as int)[k] == x);
                    }
                }
            }
            lemma_filter_twice(orig, p, q, r);
        }
        j += 1;
    }
    assert(rm@.take(rm@.len() as int) =~= rm@);
}

/// What changed when activating tags: the tags whose flag actually changed,
/// and the output that needs a new layout and a render.
pub struct TagUpdate {
    pub signaled: Vec<u32>,
    pub output: Option<usize>,
}

/// `s1` is `s0` with only tag flags changed and output `o` scheduled.
pub open spec fn flags_changed_on(s0: Pinnacle, s1: Pinnacle, o: int) -> bool {
    &&& s1.tags@.len() == s0.tags@.len()
    &&& forall|k: int| 0 <= k < s0.tags@.len() ==> {
        &&& (#[trigger] s1.tags@[k]).id == s0.tags@[k].id
        &&& s1.tags@[k].name == s0.tags@[k].name
        &&& s1.tags@[k].defunct == s0.tags@[k].defunct
    }
    &&& s1.outputs@.len() == s0.outputs@.len()
    &&& forall|j: int| 0 <= j < s0.outputs@.len() && j != o ==> #[trigger] s1.outputs@[j] == s0.outputs@[j]
    &&& 0 <= o < s0.outputs@.len() ==> {
        &&& s1.outputs@[o].render_scheduled
        &&& s1.outputs@[o] == crate::output::Output { render_scheduled: true, ..s0.outputs@[o] }
    }
    &&& s1.windows == s0.windows
    &&& s1.unmapped_windows == s0.unmapped_windows
    &&& s1.keyboard_focus_stack == s0.keyboard_focus_stack
    &&& s1.focused_output == s0.focused_output
    &&& s1.connector_saved_states == s0.connector_saved_states
    &&& s1.next_tag_id == s0.next_tag_id
    &&& s1.lock_state == s0.lock_state
}

/// Sets tag `tag` active, inactive, or (with `None`) toggles it, and schedules
/// its output for layout and render. A tag on no output is left alone.
pub fn set_active(state: &mut Pinnacle, tag: u32, set: Option<bool>) -> (r: TagUpdate)
    requires
        old(state).wf(),
    ensures
        final(state).wf(),
        match r.output {
            None => {
                &&& forall|o: int| 0 <= o < old(state).outputs@.len() ==> !#[trigger] old(state).output_has_tag(o, tag)
                &&& *final(state) == *old(state)
                &&& r.signaled@.len() == 0
            },
            Some(o) => {
                &&& o < old(state).outputs@.len()
                &&& old(state).output_has_tag(o as int, tag)
                &&& flags_changed_on(*old(state), *final(state), o as int)
                &&& forall|k: int| 0 <= k < old(state).tags@.len() ==> {
                    let t0 = old(state).tags@[k];
                    let want = match set { Some(b) => b, None => !t0.active };
                    #[trigger] final(state).tags@[k].active == if t0.id == tag { want } else { t0.active }
                }
                &&& r.signaled@ == if exists|k: int| 0 <= k < old(state).tags@.len()
                    && old(state).tags@[k].id == tag
                    && old(state).tags@[k].active == set.unwrap_or(!old(state).tags@[k].active) {
                    Seq::<u32>::empty()
                } else {
                    seq![tag]
                }
            },
        },
{
    let o = match state.tag_output(tag) {
        Some(o) => o,
        None => return TagUpdate { signaled: Vec::new(), output: None },
    };
    let k = match state.find_tag(tag) {
        Some(k) => k,
        None => {
            assert(false);
            return TagUpdate { signaled: Vec::new(), output: None };
        },
    };
    let ghost s0 = *state;
    let active = match set {
        Some(b) => b,
        None => !state.tags[k].active,
    };
    let mut signaled: Vec<u32> = Vec::new();
    if state.tags[k].active != active {
        state.tags[k].active = active;
        signaled.push(tag);
    }
    state.outputs[o].render_scheduled = true;
    proof {
        assert(ids_of_tags(state.tags@) =~= ids_of_tags(s0.tags@));
        assert forall|j: int, t: u32| 0 <= j < state.outputs@.len() implies
            state.output_has_tag(j, t) == s0.output_has_tag(j, t) by {
            if j != o {
                assert(state.outputs@[j] == s0.outputs@[j]);
            }
        }
        assert forall|j: int| 0 <= j < s0.outputs@.len() implies
            (#[trigger] state.outputs@[j]).name@ == s0.outputs@[j].name@
            && tag_ids(state.outputs@[j].tags) == tag_ids(s0.outputs@[j].tags) by {
            if j != o {
                assert(state.outputs@[j] == s0.outputs@[j]);
            }
        }
        lemma_wf_frame(s0, *state);
        assert forall|k2: int| 0 <= k2 < s0.tags@.len() && s0.tags@[k2].id == tag implies k2 == k by {
            assert(ids_of_tags(s0.tags@)[k2] == ids_of_tags(s0.tags@)[k as int]);
        }
    }
    TagUpdate { signaled, output: Some(o) }
}

/// Tag `k` of the live tags changed its active flag between `s0` and `s1`.
pub open spec fn flag_changed(s0: Pinnacle, s1: Pinnacle, k: int) -> bool {
    s0.tags@[k].active != s1.tags@[k].active
}

/// Makes `tag` the only active tag of its output, and schedules that output
/// for layout and render. The signalled tags are exactly those whose flag
/// changed. A tag on no output is left alone.
pub fn switch_to(state: &mut Pinnacle, tag: u32) -> (r: TagUpdate)
    requires
        old(state).wf(),
    ensures
        final(state).wf(),
        match r.output {
            None => {
                &&& forall|o: int| 0 <= o < old(state).outputs@.len() ==> !#[trigger] old(state).output_has_tag(o, tag)
                &&& *final(state) == *old(state)
                &&& r.signaled@.len() == 0
            },
            Some(o) => {
                &&& o < old(state).outputs@.len()
                &&& old(state).output_has_tag(o as int, tag)
                &&& flags_changed_on(*old(state), *final(state), o as int)
                &&& forall|k: int| 0 <= k < old(state).tags@.len() ==> {
                    let t0 = old(state).tags@[k];
                    #[trigger] final(state).tags@[k].active == if t0.id == tag {
                        true
                    } else if old(state).output_has_tag(o as int, t0.id) {
                        false
                    } else {
                        t0.active
                    }
                }
                &&& r.signaled@.no_duplicates()
                &&& forall|t: u32| #[trigger] r.signaled@.contains(t) <==> exists|k: int|
                    0 <= k < old(state).tags@.len() && old(state).tags@[k].id == t
                        && flag_changed(*old(state), *final(state), k)
            },
        },
{
    let o = match state.tag_output(tag) {
        Some(o) => o,
        None => return TagUpdate { signaled: Vec::new(), output: None },
    };
    let ghost s0 = *state;
    let ghost ids = tag_ids(s0.outputs@[o as int].tags);
    let n = crate::tag_set::tag_set_len(&state.outputs[o].tags);
    let mut signaled: Vec<u32> = Vec::new();
    let mut i: usize = 0;
    while i < n
        invariant
            s0.wf(),
            o < s0.outputs@.len(),
            n == ids.len(),
            ids == tag_ids(s0.outputs@[o as int].tags),
            i <= n,
            state.outputs == s0.outputs,
            state.tags@.len() == s0.tags@.len(),
            state.windows == s0.windows,
            state.unmapped_windows == s0.unmapped_windows,
            state.keyboard_focus_stack == s0.keyboard_focus_stack,
            state.focused_output == s0.focused_output,
            state.connector_saved_states == s0.connector_saved_states,
            state.next_tag_id == s0.next_tag_id,
            state.lock_state == s0.lock_state,
            forall|k: int| 0 <= k < s0.tags@.len() ==> {
                &&& (#[trigger] state.tags@[k]).id == s0.tags@[k].id
                &&& state.tags@[k].name == s0.tags@[k].name
                &&& state.tags@[k].defunct == s0.tags@[k].defunct
                &&& state.tags@[k].active == if s0.tags@[k].id != tag && ids.take(i as int).contains(s0.tags@[k].id) {
                    false
                } else {
                    s0.tags@[k].active
                }
            },
            signaled@.no_duplicates(),
            forall|t: u32| #[trigger] signaled@.contains(t) ==> ids.take(i as int).contains(t),
            forall|t: u32| #[trigger] signaled@.contains(t) <==> exists|k: int|
                0 <= k < s0.tags@.len() && s0.tags@[k].id == t && s0.tags@[k].active != state.tags@[k].active,
        decreases n - i,
    {
        let ghost sig0 = signaled@;
        let ghost st0 = *state;
        let t = match crate::tag_set::tag_set_get_index(&state.outputs[o].tags, i) {
            Some(t) => t,
            None => {
                assert(false);
                0
            },
        };
        proof {
            assert(ids.take(i + 1) =~= ids.take(i as int).push(t));
            assert(!ids.take(i as int).contains(t)) by {
                if ids.take(i as int).contains(t) {
                    let j = choose|j: int| 0 <= j < i && #[trigger] ids.take(i as int)[j] == t;
                    assert(ids[j] == ids[i as int]);
                }
            }
            assert(s0.output_has_tag(o as int, t)) by {
                assert(ids[i as int] == t);
            }
        }
        if t != tag {
            let k = match state.find_tag(t) {
                Some(k) => k,
                None => {
                    proof {
                        assert(ids_of_tags(state.tags@) =~= ids_of_tags(s0.tags@));
                    }
                    assert(false);
                    0
                },
            };
            if state.tags[k].active {
                state.tags[k].active = false;
                signaled.push(t);
            }
        }
        proof {
            assert forall|k: int| 0 <= k < s0.tags@.len() && s0.tags@[k].id != tag && ids.take(i + 1).contains(s0.tags@[k].id)
                && !ids.take(i as int).contains(s0.tags@[k].id) implies s0.tags@[k].id == t by {
                let j = choose|j: int| 0 <= j < i + 1 && #[trigger] ids.take(i + 1)[j] == s0.tags@[k].id;
                if j < i {
                    assert(ids.take(i as int)[j] == s0.tags@[k].id);
                }
            }
            assert forall|k1: int, k2: int| 0 <= k1 < s0.tags@.len() && 0 <= k2 < s0.tags@.len()
                && s0.tags@[k1].id == s0.tags@[k2].id implies k1 == k2 by {
                assert(ids_of_tags(s0.tags@)[k1] == ids_of_tags(s0.tags@)[k2]);
            }
            if signaled@.len() > sig0.len() {
                lemma_push_no_duplicates(sig0, t);
            }
            assert forall|k: int| 0 <= k < s0.tags@.len() implies
                (#[trigger] state.tags@[k]).active == if s0.tags@[k].id != tag && ids.take(i + 1).contains(s0.tags@[k].id) {
                    false
                } else {
                    s0.tags@[k].active
                } by {
                lemma_push_contains(ids.take(i as int), t, s0.tags@[k].id);
            }
            assert forall|t2: u32| #[trigger] signaled@.contains(t2) implies ids.take(i + 1).contains(t2) by {
                if t2 == t {
                    assert(ids.take(i + 1)[i as int] == t);
                } else {
                    assert(sig0.contains(t2));
                    let j = choose|j: int| 0 <= j < i && #[trigger] ids.take(i as int)[j] == t2;
                    assert(ids.take(i + 1)[j] == t2);
                }
            }
            assert forall|t2: u32| #[trigger] signaled@.contains(t2) <==> exists|k: int|
                0 <= k < s0.tags@.len() && s0.tags@[k].id == t2 && s0.tags@[k].active != state.tags@[k].active by {
                lemma_push_contains(sig0, t, t2);
                lemma_push_contains(ids.take(i as int), t, t2);
                if t2 != t {
                    assert(signaled@.contains(t2) == sig0.contains(t2));
                    assert forall|k: int| 0 <= k < s0.tags@.len() && s0.tags@[k].id == t2
                        implies state.tags@[k].active == st0.tags@[k].active by {}
                } else if t != tag {
                    let kt = choose|kt: int| 0 <= kt < s0.tags@.len() && s0.tags@[kt].id == t;
                    assert(ids_of_tags(s0.tags@)[kt] == t);
                    assert(!sig0.contains(t));
                }
            }
        }
        i += 1;
    }
    assert(ids.take(n as int) =~= ids);
    let k = match state.find_tag(tag) {
        Some(k) => k,
        None => {
            proof {
                assert(ids_of_tags(state.tags@) =~= ids_of_tags(s0.tags@));
            }
            assert(false);
            0
        },
    };
    let ghost s_mid = *state;
    let ghost s_mid_sig = signaled@;
    if !state.tags[k].active {
        state.tags[k].active = true;
        proof {
            assert(!signaled@.contains(tag));
        }
        signaled.push(tag);
    }
    state.outputs[o].render_scheduled = true;
    proof {
        assert forall|k1: int, k2: int| 0 <= k1 < s0.tags@.len() && 0 <= k2 < s0.tags@.len()
            && s0.tags@[k1].id == s0.tags@[k2].id implies k1 == k2 by {
            assert(ids_of_tags(s0.tags@)[k1] == ids_of_tags(s0.tags@)[k2]);
        }
        assert(ids_of_tags(state.tags@) =~= ids_of_tags(s0.tags@));
        assert forall|j: int| 0 <= j < s0.outputs@.len() implies
            (#[trigger] state.outputs@[j]).name@ == s0.outputs@[j].name@
            && tag_ids(state.outputs@[j].tags) == tag_ids(s0.outputs@[j].tags) by {
            if j != o {
                assert(state.outputs@[j] == s0.outputs@[j]);
            }
        }
        lemma_wf_frame(s0, *state);
        assert forall|t: u32| #[trigger] signaled@.contains(t) <==> exists|k3: int|
            0 <= k3 < s0.tags@.len() && s0.tags@[k3].id == t && flag_changed(s0, *state, k3) by {
            lemma_push_contains(s_mid_sig, tag, t);
            if t != tag {
                assert(signaled@.contains(t) == s_mid_sig.contains(t));
                assert forall|k3: int| 0 <= k3 < s0.tags@.len() && s0.tags@[k3].id == t
                    implies state.tags@[k3].active == s_mid.tags@[k3].active by {}
                if s_mid_sig.contains(t) {
                    let k3 = choose|k3: int| 0 <= k3 < s0.tags@.len() && s0.tags@[k3].id == t
                        && s0.tags@[k3].active != s_mid.tags@[k3].active;
                    assert(flag_changed(s0, *state, k3));
                }
                if exists|k3: int| 0 <= k3 < s0.tags@.len() && s0.tags@[k3].id == t && flag_changed(s0, *state, k3) {
                    let k3 = choose|k3: int| 0 <= k3 < s0.tags@.len() && s0.tags@[k3].id == t && flag_changed(s0, *state, k3);
                    assert(s0.tags@[k3].active != s_mid.tags@[k3].active);
                }
            } else {
                assert(s0.tags@[k as int].id == tag);
                assert(!s_mid_sig.contains(tag));
                if s0.tags@[k as int].active != state.tags@[k as int].active {
                    assert(flag_changed(s0, *state, k as int));
                }
                assert(s_mid.tags@[k as int].active == s0.tags@[k as int].active);
            }
        }
    }
    TagUpdate { signaled, output: Some(o) }
}

impl Pinnacle {
    /// Retires every live tag when the configuration restarts: each is marked
    /// defunct and keeps its id, name, flag and place.
    pub fn retire_tags(&mut self)
        requires
            old(self).wf(),
        ensures
            final(self).wf(),
            final(self).tags@.len() == old(self).tags@.len(),
            forall|k: int| 0 <= k < old(self).tags@.len() ==> #[trigger] final(self).tags@[k] == (Tag {
                defunct: true,
                ..old(self).tags@[k]
            }),
            final(self).outputs == old(self).outputs,
            final(self).windows == old(self).windows,
            final(self).unmapped_windows == old(self).unmapped_windows,
    {
        let ghost s0 = *self;
        let mut k: usize = 0;
        while k < self.tags.len()
            invariant
                k <= self.tags@.len(),
                self.tags@.len() == s0.tags@.len(),
                self.outputs == s0.outputs,
                self.windows == s0.windows,
                self.unmapped_windows == s0.unmapped_windows,
                self.connector_saved_states == s0.connector_saved_states,
                self.next_tag_id == s0.next_tag_id,
                forall|j: int| 0 <= j < s0.tags@.len() ==> #[trigger] self.tags@[j] == if j < k {
                    Tag { defunct: true, ..s0.tags@[j] }
                } else {
                    s0.tags@[j]
                },
            decreases s0.tags@.len() - k,
        {
            self.tags[k].defunct = true;
            k += 1;
        }
        proof {
            assert(ids_of_tags(self.tags@) =~= ids_of_tags(s0.tags@));
            assert(ids_of_windows(self.windows@) =~= ids_of_windows(s0.windows@));
            lemma_wf_frame(s0, *self);
        }
    }
}

/// Whether the output named `name` is the focused one.
pub open spec fn is_focused_output(s: Pinnacle, name: Seq<char>) -> bool {
    match s.focused_output {
        Some(f) => f@ == name,
        None => false,
    }
}

/// `n` consecutive ids from `first`.
pub open spec fn fresh_ids(first: u32, n: nat) -> Seq<u32> {
    Seq::new(n, |i: int| (first + i) as u32)
}

/// `s1` is `s0` after `add` put `n` tags on the output named `name` and
/// handed back `r`.
pub open spec fn tags_added(s0: Pinnacle, s1: Pinnacle, name: Seq<char>, n: nat, r: Seq<u32>) -> bool {
    if exists|o: int| 0 <= o < s0.outputs@.len() && #[trigger] s0.outputs@[o].name@ == name {
        let o = choose|o: int| 0 <= o < s0.outputs@.len() && #[trigger] s0.outputs@[o].name@ == name;
        &&& r == fresh_ids(s0.next_tag_id, n)
        &&& s1.next_tag_id == s0.next_tag_id + n
        &&& ids_of_tags(s1.tags@) == ids_of_tags(s0.tags@) + r
        &&& s1.outputs@.len() == s0.outputs@.len()
        &&& tag_ids(s1.outputs@[o].tags) == tag_ids(s0.outputs@[o].tags) + r
        &&& forall|j: int| 0 <= j < s0.outputs@.len() && j != o
            ==> tag_ids(#[trigger] s1.outputs@[j].tags) == tag_ids(s0.outputs@[j].tags)
        &&& s1.windows == s0.windows
        &&& s1.connector_saved_states == s0.connector_saved_states
    } else {
        &&& r.len() == 0
        &&& s1 == s0
    }
}

/// One fresh tag on output `o` keeps the state well formed.
proof fn lemma_add_one(s0: Pinnacle, s1: Pinnacle, o: int, id: u32)
    requires
        crate::state::refs_below(s1.windows@, s1.unmapped_windows@, s1.connector_saved_states@, s1.next_tag_id),
        saved_names(s1.connector_saved_states@) == saved_names(s0.connector_saved_states@),
        s0.wf(),
        0 <= o < s0.outputs@.len(),
        id == s0.next_tag_id,
        id < u32::MAX,
        s1.next_tag_id == id + 1,
        ids_of_tags(s1.tags@) == ids_of_tags(s0.tags@).push(id),
        s1.outputs@.len() == s0.outputs@.len(),
        tag_ids(s1.outputs@[o].tags) == tag_ids(s0.outputs@[o].tags).push(id),
        forall|j: int| 0 <= j < s0.outputs@.len() && j != o
            ==> tag_ids(#[trigger] s1.outputs@[j].tags) == tag_ids(s0.outputs@[j].tags),
        forall|j: int| 0 <= j < s0.outputs@.len() ==> (#[trigger] s1.outputs@[j]).name@ == s0.outputs@[j].name@,
        ids_of_windows(s1.windows@) == ids_of_windows(s0.windows@),
        ids_of_unmapped(s1.unmapped_windows@) == ids_of_unmapped(s0.unmapped_windows@),
    ensures
        s1.wf(),
{
    let reg0 = ids_of_tags(s0.tags@);
    assert(!reg0.contains(id)) by {
        if reg0.contains(id) {
            let k = choose|k: int| 0 <= k < reg0.len() && reg0[k] == id;
            assert(s0.tags@[k].id < s0.next_tag_id);
        }
    }
    lemma_push_no_duplicates(reg0, id);
    assert(ids_of_tags(s1.tags@).len() == s1.tags@.len());
    assert forall|k: int| 0 <= k < s1.tags@.len() implies #[trigger] s1.tags@[k].id < s1.next_tag_id by {
        assert(ids_of_tags(s1.tags@)[k] == s1.tags@[k].id);
        if k < s0.tags@.len() {
            assert(ids_of_tags(s0.tags@)[k] == s0.tags@[k].id);
            assert(s0.tags@[k].id < s0.next_tag_id);
        }
    }
    assert forall|j: int, t: u32| 0 <= j < s1.outputs@.len() && #[trigger] s1.output_has_tag(j, t) implies
        t < s1.next_tag_id && ids_of_tags(s1.tags@).contains(t)
            && (s0.output_has_tag(j, t) || (j == o && t == id)) by {
        lemma_push_contains(reg0, id, t);
        if j == o {
            lemma_push_contains(tag_ids(s0.outputs@[o].tags), id, t);
        } else {
            assert(tag_ids(s1.outputs@[j].tags) == tag_ids(s0.outputs@[j].tags));
        }
        if s0.output_has_tag(j, t) {
            assert(t < s0.next_tag_id && reg0.contains(t));
        }
    }
    assert forall|j: int| 0 <= j < s1.outputs@.len() implies tag_ids(#[trigger] s1.outputs@[j].tags).no_duplicates() by {
        assert(tag_ids(s0.outputs@[j].tags).no_duplicates());
        if j == o {
            assert(!s0.output_has_tag(o, id));
            lemma_push_no_duplicates(tag_ids(s0.outputs@[o].tags), id);
        }
    }
    assert forall|o1: int, o2: int, t: u32|
        0 <= o1 < s1.outputs@.len() && 0 <= o2 < s1.outputs@.len() && o1 != o2
            && #[trigger] s1.output_has_tag(o1, t) implies !#[trigger] s1.output_has_tag(o2, t) by {
        if s1.output_has_tag(o2, t) {
            if t == id {
                assert(!s0.output_has_tag(o1, id));
                assert(!s0.output_has_tag(o2, id));
            }
        }
    }
    assert forall|a: int, b: int|
        0 <= a < s1.outputs@.len() && 0 <= b < s1.outputs@.len() && a != b
            implies #[trigger] s1.outputs@[a].name@ != #[trigger] s1.outputs@[b].name@ by {
        assert(s0.outputs@[a].name@ != s0.outputs@[b].name@);
    }
}

/// Creates tags named `tag_names` with fresh ids at the end of the output
/// named `output_name`, and returns their ids. When any tag was made, each
/// unmapped window still waiting for tags that is not meant for another
/// output gets the first new tag and waits for its window rules. Nothing
/// changes when no output has that name. A waiting window is meant for this
/// output when it names it, or, naming none, when this output has focus.
/// Mapped windows and saved connector states are left alone.
pub fn add(state: &mut Pinnacle, tag_names: Vec<String>, output_name: &String) -> (r: Vec<u32>)
    requires
        old(state).wf(),
        old(state).next_tag_id + tag_names@.len() <= u32::MAX,
    ensures
        final(state).wf(),
        tags_added(*old(state), *final(state), output_name@, tag_names@.len(), r@),
        r@.len() > 0 ==> final(state).tags@ .len() == old(state).tags@.len() + r@.len(),
        r@.len() > 0 ==> forall|i: int| 0 <= i < r@.len() ==> {
            let t = #[trigger] final(state).tags@[old(state).tags@.len() + i];
            &&& t.name@ == tag_names@[i]@
            &&& !t.active
            &&& !t.defunct
        },
        final(state).windows == old(state).windows,
        final(state).connector_saved_states == old(state).connector_saved_states,
        final(state).focused_output == old(state).focused_output,
        final(state).unmapped_windows@.len() == old(state).unmapped_windows@.len(),
        forall|j: int| 0 <= j < old(state).unmapped_windows@.len() ==> {
            let u0 = old(state).unmapped_windows@[j];
            let u1 = #[trigger] final(state).unmapped_windows@[j];
            let seeded = r@.len() > 0 && u0.state == UnmappedState::WaitingForTags
                && match u0.target_output {
                    None => is_focused_output(*old(state), output_name@),
                    Some(t) => t@ == output_name@,
                };
            &&& u1.window.id == u0.window.id
            &&& u1.state == if seeded { UnmappedState::WaitingForRules } else { u0.state }
            &&& tag_ids(u1.window.tags) == if seeded { seq![r@[0]] } else { tag_ids(u0.window.tags) }
        },
{
    let o = match state.find_output(output_name) {
        Some(o) => o,
        None => return Vec::new(),
    };
    let ghost s0 = *state;
    let mut new_ids: Vec<u32> = Vec::new();
    let mut i: usize = 0;
    while i < tag_names.len()
        invariant
            s0.wf(),
            state.wf(),
            o < s0.outputs@.len(),
            i <= tag_names@.len(),
            s0.next_tag_id + tag_names@.len() <= u32::MAX,
            state.next_tag_id == s0.next_tag_id + i,
            new_ids@ == fresh_ids(s0.next_tag_id, i as nat),
            state.tags@.len() == s0.tags@.len() + i,
            ids_of_tags(state.tags@) == ids_of_tags(s0.tags@) + new_ids@,
            forall|k: int| 0 <= k < s0.tags@.len() ==> #[trigger] state.tags@[k] == s0.tags@[k],
            forall|m: int| 0 <= m < i ==> {
                let t = #[trigger] state.tags@[s0.tags@.len() + m];
                &&& t.name@ == tag_names@[m]@
                &&& !t.active
                &&& !t.defunct
            },
            state.outputs@.len() == s0.outputs@.len(),
            tag_ids(state.outputs@[o as int].tags) == tag_ids(s0.outputs@[o as int].tags) + new_ids@,
            forall|j: int| 0 <= j < s0.outputs@.len() && j != o ==> #[trigger] state.outputs@[j] == s0.outputs@[j],
            forall|j: int| 0 <= j < s0.outputs@.len() ==> (#[trigger] state.outputs@[j]).name@ == s0.outputs@[j].name@,
            state.windows == s0.windows,
            state.unmapped_windows == s0.unmapped_windows,
            state.connector_saved_states == s0.connector_saved_states,
            state.focused_output == s0.focused_output,
        decreases tag_names@.len() - i,
    {
        let ghost before = *state;
        let id = state.next_tag_id;
        state.tags.push(Tag { id, name: tag_names[i].clone(), active: false, defunct: false });
        proof {
            if tag_ids(state.outputs@[o as int].tags).contains(id) {
                assert(before.output_has_tag(o as int, id));
            }
        }
        tag_set_insert_fresh(&mut state.outputs[o].tags, id);
        new_ids.push(id);
        state.next_tag_id = id + 1;
        proof {
            assert(ids_of_tags(state.tags@) =~= ids_of_tags(before.tags@).push(id));
            assert(new_ids@ =~= fresh_ids(s0.next_tag_id, (i + 1) as nat));
            assert(ids_of_tags(state.tags@) =~= ids_of_tags(s0.tags@) + new_ids@);
            assert forall|j: int| 0 <= j < before.outputs@.len() && j != o
                implies tag_ids(#[trigger] state.outputs@[j].tags) == tag_ids(before.outputs@[j].tags) by {
                assert(state.outputs@[j] == before.outputs@[j]);
            }
            assert forall|j: int| 0 <= j < before.outputs@.len()
                implies (#[trigger] state.outputs@[j]).name@ == before.outputs@[j].name@ by {
                if j != o {
                    assert(state.outputs@[j] == before.outputs@[j]);
                }
            }
            lemma_add_one(before, *state, o as int, id);
            assert(tag_ids(state.outputs@[o as int].tags) =~= tag_ids(s0.outputs@[o as int].tags) + new_ids@);
        }
        i += 1;
    }
    if new_ids.len() > 0 {
        let first = new_ids[0];
        let ghost s1 = *state;
        let focused_here = match &state.focused_output {
            Some(f) => *f == *output_name,
            None => false,
        };
        let mut j: usize = 0;
        while j < state.unmapped_windows.len()
            invariant
                s1.wf(),
                focused_here == is_focused_output(s1, output_name@),
                j <= state.unmapped_windows@.len(),
                state.unmapped_windows@.len() == s1.unmapped_windows@.len(),
                state.outputs == s1.outputs,
                state.tags == s1.tags,
                state.windows == s1.windows,
                state.keyboard_focus_stack == s1.keyboard_focus_stack,
                state.focused_output == s1.focused_output,
                state.connector_saved_states == s1.connector_saved_states,
                state.next_tag_id == s1.next_tag_id,
                state.lock_state == s1.lock_state,
                forall|m: int| j <= m < s1.unmapped_windows@.len() ==> #[trigger] state.unmapped_windows@[m] == s1.unmapped_windows@[m],
                forall|m: int| 0 <= m < j ==> {
                    let u0 = s1.unmapped_windows@[m];
                    let u1 = #[trigger] state.unmapped_windows@[m];
                    let seeded = u0.state == UnmappedState::WaitingForTags
                        && match u0.target_output {
                            None => is_focused_output(s1, output_name@),
                            Some(t) => t@ == output_name@,
                        };
                    &&& u1.window.id == u0.window.id
                    &&& u1.state == if seeded { UnmappedState::WaitingForRules } else { u0.state }
                    &&& tag_ids(u1.window.tags) == if seeded { seq![first] } else { tag_ids(u0.window.tags) }
                },
            decreases s1.unmapped_windows@.len() - j,
        {
            let targets_here = match &state.unmapped_windows[j].target_output {
                None => focused_here,
                Some(t) => *t == *output_name,
            };
            if state.unmapped_windows[j].state == UnmappedState::WaitingForTags && targets_here {
                let mut tags = crate::tag_set::tag_set_new();
                crate::tag_set::tag_set_insert(&mut tags, first);
                state.unmapped_windows[j].window.tags = tags;
                state.unmapped_windows[j].state = UnmappedState::WaitingForRules;
                proof {
                    assert(tag_ids(tags) =~= seq![first]);
                }
            }
            j += 1;
        }
        proof {
            assert(ids_of_unmapped(state.unmapped_windows@) =~= ids_of_unmapped(s1.unmapped_windows@));
            assert forall|m: int| 0 <= m < s1.outputs@.len() implies
                (#[trigger] state.outputs@[m]).name@ == s1.outputs@[m].name@
                && tag_ids(state.outputs@[m].tags) == tag_ids(s1.outputs@[m].tags) by {}
            assert(ids_of_windows(state.windows@) =~= ids_of_windows(s1.windows@));
            lemma_wf_frame(s1, *state);
        }
    }
    proof {
        assert(s0.outputs@[o as int].name@ == output_name@);
        let oc = choose|oc: int| 0 <= oc < s0.outputs@.len() && #[trigger] s0.outputs@[oc].name@ == output_name@;
        assert(oc == o);
        assert forall|j: int| 0 <= j < s0.outputs@.len() && j != o
            implies tag_ids(#[trigger] state.outputs@[j].tags) == tag_ids(s0.outputs@[j].tags) by {}
    }
    new_ids
}

/// Whether `id` is listed in `ids`.
pub fn vec_contains(ids: &Vec<u32>, id: u32) -> (r: bool)
    ensures
        r == ids@.contains(id),
{
    let mut i: usize = 0;
    while i < ids.len()
        invariant
            i <= ids@.len(),
            forall|j: int| 0 <= j < i ==> ids@[j] != id,
        decreases ids@.len() - i,
    {
        if ids[i] == id {
            return true;
        }
        i += 1;
    }
    false
}

/// `s1` is `s0` with the tags listed in `rm` gone from the live tags, from
/// every output, every window (mapped or not) and every saved connector state.
pub open spec fn tags_removed(s0: Pinnacle, s1: Pinnacle, rm: Seq<u32>) -> bool {
    &&& ids_of_tags(s1.tags@) == without(ids_of_tags(s0.tags@), rm)
    &&& s1.outputs@.len() == s0.outputs@.len()
    &&& forall|o: int| 0 <= o < s0.outputs@.len()
        ==> tag_ids(#[trigger] s1.outputs@[o].tags) == without(tag_ids(s0.outputs@[o].tags), rm)
    &&& s1.windows@.len() == s0.windows@.len()
    &&& forall|w: int| 0 <= w < s0.windows@.len()
        ==> tag_ids(#[trigger] s1.windows@[w].tags) == without(tag_ids(s0.windows@[w].tags), rm)
    &&& s1.unmapped_windows@.len() == s0.unmapped_windows@.len()
    &&& forall|w: int| 0 <= w < s0.unmapped_windows@.len()
        ==> tag_ids(#[trigger] s1.unmapped_windows@[w].window.tags) == without(tag_ids(s0.unmapped_windows@[w].window.tags), rm)
    &&& s1.connector_saved_states@.len() == s0.connector_saved_states@.len()
    &&& forall|c: int| 0 <= c < s0.connector_saved_states@.len()
        ==> tag_ids(#[trigger] s1.connector_saved_states@[c].state.tags) == without(tag_ids(s0.connector_saved_states@[c].state.tags), rm)
}

/// Removes the tags listed in `tags_to_remove` from the live tags, every
/// window, every output and every saved connector state, and schedules every
/// output for render. Returns the outputs to lay out again: all of them.
pub fn remove(state: &mut Pinnacle, tags_to_remove: Vec<u32>) -> (r: Vec<usize>)
    requires
        old(state).wf(),
    ensures
        r@.len() == final(state).outputs@.len(),
        forall|i: int| 0 <= i < r@.len() ==> #[trigger] r@[i] == i,
        final(state).wf(),
        tags_removed(*old(state), *final(state), tags_to_remove@),
        forall|o: int| 0 <= o < final(state).outputs@.len() ==> (#[trigger] final(state).outputs@[o]).render_scheduled,
{
    let ghost s0 = *state;
    let ghost p = |x: u32| !tags_to_remove@.contains(x);
    let mut i: usize = 0;
    while i < state.windows.len()
        invariant
            i <= state.windows@.len(),
            state.windows@.len() == s0.windows@.len(),
            state.outputs == s0.outputs,
            state.tags == s0.tags,
            state.unmapped_windows == s0.unmapped_windows,
            state.connector_saved_states == s0.connector_saved_states,
            state.next_tag_id == s0.next_tag_id,
            forall|w: int| 0 <= w < s0.windows@.len() ==> (#[trigger] state.windows@[w]).id == s0.windows@[w].id,
            forall|w: int| 0 <= w < i ==> tag_ids(#[trigger] state.windows@[w].tags) == without(tag_ids(s0.windows@[w].tags), tags_to_remove@),
            forall|w: int| i <= w < s0.windows@.len() ==> #[trigger] state.windows@[w] == s0.windows@[w],
        decreases s0.windows@.len() - i,
    {
        remove_ids(&mut state.windows[i].tags, &tags_to_remove);
        i += 1;
    }
    let mut i: usize = 0;
    while i < state.unmapped_windows.len()
        invariant
            i <= state.unmapped_windows@.len(),
            state.unmapped_windows@.len() == s0.unmapped_windows@.len(),
            state.outputs == s0.outputs,
            state.tags == s0.tags,
            state.windows@.len() == s0.windows@.len(),
            state.connector_saved_states == s0.connector_saved_states,
            state.next_tag_id == s0.next_tag_id,
            forall|w: int| 0 <= w < s0.windows@.len() ==> (#[trigger] state.windows@[w]).id == s0.windows@[w].id,
            forall|w: int| 0 <= w < s0.windows@.len() ==> tag_ids(#[trigger] state.windows@[w].tags) == without(tag_ids(s0.windows@[w].tags), tags_to_remove@),
            forall|w: int| 0 <= w < s0.unmapped_windows@.len() ==> (#[trigger] state.unmapped_windows@[w]).window.id == s0.unmapped_windows@[w].window.id,
            forall|w: int| 0 <= w < i ==> tag_ids(#[trigger] state.unmapped_windows@[w].window.tags) == without(tag_ids(s0.unmapped_windows@[w].window.tags), tags_to_remove@),
            forall|w: int| i <= w < s0.unmapped_windows@.len() ==> #[trigger] state.unmapped_windows@[w] == s0.unmapped_windows@[w],
        decreases s0.unmapped_windows@.len() - i,
    {
        remove_ids(&mut state.unmapped_windows[i].window.tags, &tags_to_remove);
        i += 1;
    }
    let mut relayout: Vec<usize> = Vec::new();
    let mut i: usize = 0;
    while i < state.outputs.len()
        invariant
            relayout@.len() == i,
            forall|j: int| 0 <= j < i ==> #[trigger] relayout@[j] == j,
            i <= state.outputs@.len(),
            state.outputs@.len() == s0.outputs@.len(),
            state.tags == s0.tags,
            state.windows@.len() == s0.windows@.len(),
            state.unmapped_windows@.len() == s0.unmapped_windows@.len(),
            state.connector_saved_states == s0.connector_saved_states,
            state.next_tag_id == s0.next_tag_id,
            forall|w: int| 0 <= w < s0.windows@.len() ==> (#[trigger] state.windows@[w]).id == s0.windows@[w].id,
            forall|w: int| 0 <= w < s0.windows@.len() ==> tag_ids(#[trigger] state.windows@[w].tags) == without(tag_ids(s0.windows@[w].tags), tags_to_remove@),
            forall|w: int| 0 <= w < s0.unmapped_windows@.len() ==> (#[trigger] state.unmapped_windows@[w]).window.id == s0.unmapped_windows@[w].window.id,
            forall|w: int| 0 <= w < s0.unmapped_windows@.len() ==> tag_ids(#[trigger] state.unmapped_windows@[w].window.tags) == without(tag_ids(s0.unmapped_windows@[w].window.tags), tags_to_remove@),
            forall|o: int| 0 <= o < s0.outputs@.len() ==> (#[trigger] state.outputs@[o]).name == s0.outputs@[o].name,
            forall|o: int| 0 <= o < i ==> tag_ids(#[trigger] state.outputs@[o].tags) == without(tag_ids(s0.outputs@[o].tags), tags_to_remove@),
            forall|o: int| 0 <= o < i ==> (#[trigger] state.outputs@[o]).render_scheduled,
            forall|o: int| i <= o < s0.outputs@.len() ==> #[trigger] state.outputs@[o] == s0.outputs@[o],
        decreases s0.outputs@.len() - i,
    {
        remove_ids(&mut state.outputs[i].tags, &tags_to_remove);
        state.outputs[i].render_scheduled = true;
        relayout.push(i);
        i += 1;
    }
    let mut i: usize = 0;
    while i < state.connector_saved_states.len()
        invariant
            i <= state.connector_saved_states@.len(),
            state.connector_saved_states@.len() == s0.connector_saved_states@.len(),
            state.outputs@.len() == s0.outputs@.len(),
            state.tags == s0.tags,
            state.windows@.len() == s0.windows@.len(),
            state.unmapped_windows@.len() == s0.unmapped_windows@.len(),
            state.next_tag_id == s0.next_tag_id,
            forall|w: int| 0 <= w < s0.windows@.len() ==> (#[trigger] state.windows@[w]).id == s0.windows@[w].id,
            forall|w: int| 0 <= w < s0.windows@.len() ==> tag_ids(#[trigger] state.windows@[w].tags) == without(tag_ids(s0.windows@[w].tags), tags_to_remove@),
            forall|w: int| 0 <= w < s0.unmapped_windows@.len() ==> (#[trigger] state.unmapped_windows@[w]).window.id == s0.unmapped_windows@[w].window.id,
            forall|w: int| 0 <= w < s0.unmapped_windows@.len() ==> tag_ids(#[trigger] state.unmapped_windows@[w].window.tags) == without(tag_ids(s0.unmapped_windows@[w].window.tags), tags_to_remove@),
            forall|o: int| 0 <= o < s0.outputs@.len() ==> (#[trigger] state.outputs@[o]).name == s0.outputs@[o].name,
            forall|o: int| 0 <= o < s0.outputs@.len() ==> tag_ids(#[trigger] state.outputs@[o].tags) == without(tag_ids(s0.outputs@[o].tags), tags_to_remove@),
            forall|o: int| 0 <= o < s0.outputs@.len() ==> (#[trigger] state.outputs@[o]).render_scheduled,
            forall|c: int| 0 <= c < i ==> tag_ids(#[trigger] state.connector_saved_states@[c].state.tags) == without(tag_ids(s0.connector_saved_states@[c].state.tags), tags_to_remove@),
            forall|c: int| 0 <= c < s0.connector_saved_states@.len() ==> (#[trigger] state.connector_saved_states@[c]).name == s0.connector_saved_states@[c].name,
            forall|c: int| i <= c < s0.connector_saved_states@.len() ==> #[trigger] state.connector_saved_states@[c] == s0.connector_saved_states@[c],
        decreases s0.connector_saved_states@.len() - i,
    {
        remove_ids(&mut state.connector_saved_states[i].state.tags, &tags_to_remove);
        i += 1;
    }
    let mut kept: Vec<Tag> = Vec::new();
    let mut k: usize = 0;
    while k < state.tags.len()
        invariant
            state.tags == s0.tags,
            k <= s0.tags@.len(),
            ids_of_tags(kept@) == ids_of_tags(s0.tags@.take(k as int)).filter(p),
            forall|m: int| 0 <= m < kept@.len() ==> (#[trigger] kept@[m]).id < s0.next_tag_id,
            s0.wf(),
            p == (|x: u32| !tags_to_remove@.contains(x)),
        decreases s0.tags@.len() - k,
    {
        let t = &state.tags[k];
        proof {
            assert(ids_of_tags(s0.tags@.take(k + 1)) =~= ids_of_tags(s0.tags@.take(k as int)).push(t.id));
            ids_of_tags(s0.tags@.take(k as int)).lemma_filter_push(t.id, p);
        }
        if !vec_contains(&tags_to_remove, t.id) {
            kept.push(Tag { id: t.id, name: t.name.clone(), active: t.active, defunct: t.defunct });
            proof {
                assert(ids_of_tags(kept@) =~= ids_of_tags(s0.tags@.take(k + 1)).filter(p));
            }
        }
        k += 1;
    }
    state.tags = kept;
    proof {
        assert(s0.tags@.take(s0.tags@.len() as int) =~= s0.tags@);
        assert(ids_of_tags(state.tags@) == without(ids_of_tags(s0.tags@), tags_to_remove@));
        lemma_filter_no_duplicates(ids_of_tags(s0.tags@), p);
        assert(saved_names(state.connector_saved_states@) =~= saved_names(s0.connector_saved_states@));
        assert forall|c: int, i: int| 0 <= c < state.connector_saved_states@.len() && 0 <= i < tag_ids(state.connector_saved_states@[c].state.tags).len()
            implies #[trigger] tag_ids(state.connector_saved_states@[c].state.tags)[i] < state.next_tag_id by {
            let t = tag_ids(s0.connector_saved_states@[c].state.tags);
            assert forall|j: int| 0 <= j < t.len() implies #[trigger] t[j] < s0.next_tag_id by {}
            crate::state::lemma_without_below(t, tags_to_remove@, s0.next_tag_id);
        }
        crate::state::lemma_refs_filtered(s0, *state, tags_to_remove@);
        assert(ids_of_windows(state.windows@) =~= ids_of_windows(s0.windows@));
        assert(ids_of_unmapped(state.unmapped_windows@) =~= ids_of_unmapped(s0.unmapped_windows@));
        assert forall|o: int| 0 <= o < state.outputs@.len() implies tag_ids(#[trigger] state.outputs@[o].tags).no_duplicates() by {
            lemma_filter_no_duplicates(tag_ids(s0.outputs@[o].tags), p);
        }
        assert forall|o: int, t: u32| 0 <= o < state.outputs@.len() && #[trigger] state.output_has_tag(o, t) implies
            s0.output_has_tag(o, t) && !tags_to_remove@.contains(t) && ids_of_tags(state.tags@).contains(t) by {
            lemma_filter_contains(tag_ids(s0.outputs@[o].tags), p, t);
            lemma_filter_contains(ids_of_tags(s0.tags@), p, t);
        }
        assert forall|a: int, b: int|
            0 <= a < state.outputs@.len() && 0 <= b < state.outputs@.len() && a != b
                implies #[trigger] state.outputs@[a].name@ != #[trigger] state.outputs@[b].name@ by {
            assert(s0.outputs@[a].name@ != s0.outputs@[b].name@);
        }
    }
    relayout
}

/// Inserts an id known to be new at the end of the set.
fn tag_set_insert_fresh(set: &mut IndexSet<u32>, id: u32)
    requires
        !tag_ids(*old(set)).contains(id),
    ensures
        tag_ids(*final(set)) == tag_ids(*old(set)).push(id),
{
    crate::tag_set::tag_set_insert(set, id);
}

/// Adding tags to an output and then removing exactly those tags leaves
/// every output's tags, the live tags, the tags of every mapped window and of
/// every saved connector state as they were.
pub proof fn lemma_add_then_remove(
    s0: Pinnacle,
    s1: Pinnacle,
    s2: Pinnacle,
    name: Seq<char>,
    n: nat,
    r: Seq<u32>,
)
    requires
        s0.wf(),
        tags_added(s0, s1, name, n, r),
        tags_removed(s1, s2, r),
    ensures
        s2.outputs@.len() == s0.outputs@.len(),
        forall|o: int| 0 <= o < s0.outputs@.len() ==> tag_ids(#[trigger] s2.outputs@[o].tags) == tag_ids(s0.outputs@[o].tags),
        ids_of_tags(s2.tags@) == ids_of_tags(s0.tags@),
        s2.windows@.len() == s0.windows@.len(),
        forall|w: int| 0 <= w < s0.windows@.len() ==> tag_ids(#[trigger] s2.windows@[w].tags) == tag_ids(s0.windows@[w].tags),
        s2.connector_saved_states@.len() == s0.connector_saved_states@.len(),
        forall|c: int| 0 <= c < s0.connector_saved_states@.len()
            ==> tag_ids(#[trigger] s2.connector_saved_states@[c].state.tags) == tag_ids(s0.connector_saved_states@[c].state.tags),
{
    let p = |x: u32| !r.contains(x);
    // Every id already in use is below the first fresh one, so none is in `r`.
    assert forall|x: u32| x < s0.next_tag_id implies !r.contains(x) by {
        if r.contains(x) {
            let i = choose|i: int| 0 <= i < r.len() && r[i] == x;
            if exists|o: int| 0 <= o < s0.outputs@.len() && #[trigger] s0.outputs@[o].name@ == name {
                assert(r[i] == (s0.next_tag_id + i) as u32);
            }
        }
    }
    assert forall|i: int| 0 <= i < r.len() implies !p(#[trigger] r[i]) by {}
    lemma_filter_drops_all(r, p);
    let reg = ids_of_tags(s0.tags@);
    assert forall|i: int| 0 <= i < reg.len() implies p(#[trigger] reg[i]) by {
        assert(s0.tags@[i].id < s0.next_tag_id);
    }
    lemma_filter_keeps_all(reg, p);
    Seq::filter_distributes_over_add(reg, r, p);
    assert forall|o: int| 0 <= o < s0.outputs@.len() implies tag_ids(#[trigger] s2.outputs@[o].tags) == tag_ids(s0.outputs@[o].tags) by {
        let ids = tag_ids(s0.outputs@[o].tags);
        assert forall|i: int| 0 <= i < ids.len() implies p(#[trigger] ids[i]) by {
            assert(s0.output_has_tag(o, ids[i]));
        }
        lemma_filter_keeps_all(ids, p);
        Seq::filter_distributes_over_add(ids, r, p);
        assert(ids + Seq::<u32>::empty() =~= ids);
    }
    assert(reg + Seq::<u32>::empty() =~= reg);
    assert forall|w: int| 0 <= w < s0.windows@.len() implies tag_ids(#[trigger] s2.windows@[w].tags) == tag_ids(s0.windows@[w].tags) by {
        let ids = tag_ids(s0.windows@[w].tags);
        assert(s1.windows@[w] == s0.windows@[w]);
        assert forall|i: int| 0 <= i < ids.len() implies p(#[trigger] ids[i]) by {}
        lemma_filter_keeps_all(ids, p);
    }
    assert forall|c: int| 0 <= c < s0.connector_saved_states@.len() implies
        tag_ids(#[trigger] s2.connector_saved_states@[c].state.tags) == tag_ids(s0.connector_saved_states@[c].state.tags) by {
        let ids = tag_ids(s0.connector_saved_states@[c].state.tags);
        assert(s1.connector_saved_states@[c] == s0.connector_saved_states@[c]);
        assert forall|i: int| 0 <= i < ids.len() implies p(#[trigger] ids[i]) by {}
        lemma_filter_keeps_all(ids, p);
    }
}

} // verus!
