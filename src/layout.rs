//! The layout step: which windows an output lays out, how the rectangles the
//! layout engine returns are matched to them, and which of them need a new
//! configure.
use crate::geometry::Rect;
use crate::state::{ids_of_windows, Pinnacle};
use crate::tag_set::{tag_ids, tag_set_get_index};
use crate::window::{layout_mode_of, window_pos, LayoutMode, WindowHandle};
use vstd::prelude::*;

verus! {

/// Whether the mapped window at `k` takes part in the layout of output `o`:
/// it is tiled or spilled, on output `o`, and on an active tag.
pub open spec fn lays_out(s: Pinnacle, o: int, k: int) -> bool {
    let w = s.windows@[k];
    &&& (w.layout_mode == LayoutMode::Tiled || w.layout_mode == LayoutMode::Spilled)
    &&& tag_ids(w.tags).len() > 0
    &&& s.output_has_tag(o, tag_ids(w.tags)[0])
    &&& exists|i: int, j: int| 0 <= i < tag_ids(w.tags).len()
        && 0 <= j < s.tags@.len()
        && #[trigger] s.tags@[j].id == #[trigger] tag_ids(w.tags)[i]
        && s.tags@[j].active
}

/// The windows output `o` lays out, in stacking order.
pub fn windows_to_layout(state: &Pinnacle, o: usize) -> (r: Vec<u32>)
    requires
        state.wf(),
        o < state.outputs@.len(),
    ensures
        r@.no_duplicates(),
        forall|k: int| 0 <= k < state.windows@.len() ==> (r@.contains(#[trigger] state.windows@[k].id) <==> lays_out(*state, o as int, k)),
        forall|i: int| 0 <= i < r@.len() ==> ids_of_windows(state.windows@).contains(#[trigger] r@[i]),
{
    let mut r: Vec<u32> = Vec::new();
    let mut k: usize = 0;
    while k < state.windows.len()
        invariant
            state.wf(),
            o < state.outputs@.len(),
            k <= state.windows@.len(),
            r@.no_duplicates(),
            forall|j: int| 0 <= j < state.windows@.len() ==> (r@.contains(#[trigger] state.windows@[j].id) <==> (j < k && lays_out(*state, o as int, j))),
            forall|i: int| 0 <= i < r@.len() ==> ids_of_windows(state.windows@).contains(#[trigger] r@[i]),
        decreases state.windows@.len() - k,
    {
        let w = &state.windows[k];
        let id = w.id;
        proof {
            crate::window::lemma_window_pos_unique(*state, id);
            assert(ids_of_windows(state.windows@)[k as int] == id);
            assert forall|j: int| 0 <= j < state.windows@.len() && #[trigger] state.windows@[j].id == id implies j == k by {
                assert(ids_of_windows(state.windows@)[j] == id);
                let all = ids_of_windows(state.windows@) + crate::state::ids_of_unmapped(state.unmapped_windows@);
                assert(all[j] == all[k as int]);
            }
        }
        let movable = w.layout_mode == LayoutMode::Tiled || w.layout_mode == LayoutMode::Spilled;
        let here = match tag_set_get_index(&w.tags, 0) {
            Some(first) => crate::tag_set::tag_set_contains(&state.outputs[o].tags, first),
            None => false,
        };
        let active = WindowHandle { id }.is_on_active_tag(state);
        let ghost prev = r@;
        if movable && here && active {
            proof {
                assert(!prev.contains(id));
            }
            r.push(id);
            proof {
                crate::seq_facts::lemma_push_no_duplicates(prev, id);
            }
        }
        proof {
            assert forall|j: int| 0 <= j < state.windows@.len() implies (r@.contains(#[trigger] state.windows@[j].id) <==> (j < k + 1 && lays_out(*state, o as int, j))) by {
                crate::seq_facts::lemma_push_contains(prev, id, state.windows@[j].id);
            }
            assert forall|i: int| 0 <= i < r@.len() implies ids_of_windows(state.windows@).contains(#[trigger] r@[i]) by {
                if i == prev.len() {
                    assert(ids_of_windows(state.windows@)[k as int] == id);
                } else {
                    assert(r@[i] == prev[i]);
                }
            }
        }
        k += 1;
    }
    r
}

/// Whether the mapped window at `k` is visible on output `o`: on `o` and on
/// an active tag. After a render of `o`, exactly these windows get a frame
/// callback.
pub open spec fn visible_on(s: Pinnacle, o: int, k: int) -> bool {
    let w = s.windows@[k];
    &&& tag_ids(w.tags).len() > 0
    &&& s.output_has_tag(o, tag_ids(w.tags)[0])
    &&& exists|i: int, j: int| 0 <= i < tag_ids(w.tags).len()
        && 0 <= j < s.tags@.len()
        && #[trigger] s.tags@[j].id == #[trigger] tag_ids(w.tags)[i]
        && s.tags@[j].active
}

/// The windows that get a frame callback after output `o` rendered: those
/// visible on it, in stacking order.
pub fn frame_callback_targets(state: &Pinnacle, o: usize) -> (r: Vec<u32>)
    requires
        state.wf(),
        o < state.outputs@.len(),
    ensures
        r@.no_duplicates(),
        forall|k: int| 0 <= k < state.windows@.len() ==> (r@.contains(#[trigger] state.windows@[k].id) <==> visible_on(*state, o as int, k)),
        forall|i: int| 0 <= i < r@.len() ==> ids_of_windows(state.windows@).contains(#[trigger] r@[i]),
{
    let mut r: Vec<u32> = Vec::new();
    let mut k: usize = 0;
    while k < state.windows.len()
        invariant
            state.wf(),
            o < state.outputs@.len(),
            k <= state.windows@.len(),
            r@.no_duplicates(),
            forall|j: int| 0 <= j < state.windows@.len() ==> (r@.contains(#[trigger] state.windows@[j].id) <==> (j < k && visible_on(*state, o as int, j))),
            forall|i: int| 0 <= i < r@.len() ==> ids_of_windows(state.windows@).contains(#[trigger] r@[i]),
        decreases state.windows@.len() - k,
    {
        let w = &state.windows[k];
        let id = w.id;
        proof {
            crate::window::lemma_window_pos_unique(*state, id);
            assert(ids_of_windows(state.windows@)[k as int] == id);
            assert forall|j: int| 0 <= j < state.windows@.len() && #[trigger] state.windows@[j].id == id implies j == k by {
                assert(ids_of_windows(state.windows@)[j] == id);
                let all = ids_of_windows(state.windows@) + crate::state::ids_of_unmapped(state.unmapped_windows@);
                assert(all[j] == all[k as int]);
            }
        }
        let here = match tag_set_get_index(&w.tags, 0) {
            Some(first) => crate::tag_set::tag_set_contains(&state.outputs[o].tags, first),
            None => false,
        };
        let active = WindowHandle { id }.is_on_active_tag(state);
        let ghost prev = r@;
        if here && active {
            proof {
                assert(!prev.contains(id));
            }
            r.push(id);
            proof {
                crate::seq_facts::lemma_push_no_duplicates(prev, id);
            }
        }
        proof {
            assert forall|j: int| 0 <= j < state.windows@.len() implies (r@.contains(#[trigger] state.windows@[j].id) <==> (j < k + 1 && visible_on(*state, o as int, j))) by {
                crate::seq_facts::lemma_push_contains(prev, id, state.windows@[j].id);
            }
            assert forall|i: int| 0 <= i < r@.len() implies ids_of_windows(state.windows@).contains(#[trigger] r@[i]) by {
                if i == prev.len() {
                    assert(ids_of_windows(state.windows@)[k as int] == id);
                } else {
                    assert(r@[i] == prev[i]);
                }
            }
        }
        k += 1;
    }
    r
}

/// Matches the layout engine's rectangles to the windows, in order. A window
/// past the last rectangle has no slot: a tiled one becomes spilled (it
/// behaves as floating until a slot returns); a spilled window that gets a
/// slot is tiled again. Returns the pairs to configure.
pub fn assign_layout(state: &mut Pinnacle, windows: &Vec<u32>, rects: &Vec<Rect>) -> (r: Vec<(u32, Rect)>)
    requires
        old(state).wf(),
        windows@.no_duplicates(),
    ensures
        final(state).wf(),
        final(state).outputs == old(state).outputs,
        final(state).tags == old(state).tags,
        r@.len() == if windows@.len() < rects@.len() { windows@.len() } else { rects@.len() },
        forall|i: int| 0 <= i < r@.len() ==> #[trigger] r@[i] == (windows@[i], rects@[i]),
        forall|i: int| 0 <= i < windows@.len() ==> #[trigger] layout_mode_of(*final(state), windows@[i]) == {
            let m = layout_mode_of(*old(state), windows@[i]);
            if i < rects@.len() {
                if m == LayoutMode::Spilled { LayoutMode::Tiled } else { m }
            } else {
                if m == LayoutMode::Tiled && window_pos(*old(state), windows@[i]) is Some { LayoutMode::Spilled } else { m }
            }
        },
{
    let ghost s0 = *state;
    let mut r: Vec<(u32, Rect)> = Vec::new();
    let mut i: usize = 0;
    while i < windows.len()
        invariant
            state.wf(),
            s0.wf(),
            windows@.no_duplicates(),
            i <= windows@.len(),
            state.outputs == s0.outputs,
            state.tags == s0.tags,
            ids_of_windows(state.windows@) == ids_of_windows(s0.windows@),
            state.unmapped_windows == s0.unmapped_windows,
            forall|x: u32| window_pos(*state, x) == window_pos(s0, x),
            r@.len() == if i < rects@.len() { i as int } else { rects@.len() as int },
            forall|j: int| 0 <= j < r@.len() ==> #[trigger] r@[j] == (windows@[j], rects@[j]),
            forall|j: int| 0 <= j < windows@.len() ==> #[trigger] layout_mode_of(*state, windows@[j]) == if j < i {
                let m = layout_mode_of(s0, windows@[j]);
                if j < rects@.len() {
                    if m == LayoutMode::Spilled { LayoutMode::Tiled } else { m }
                } else {
                    if m == LayoutMode::Tiled && window_pos(s0, windows@[j]) is Some { LayoutMode::Spilled } else { m }
                }
            } else {
                layout_mode_of(s0, windows@[j])
            },
        decreases windows@.len() - i,
    {
        let id = windows[i];
        let h = WindowHandle { id };
        let m = h.layout_mode(state);
        let ghost before = *state;
        if i < rects.len() {
            if m == LayoutMode::Spilled {
                h.set_floating(state, false);
            }
            r.push((id, rects[i]));
        } else if m == LayoutMode::Tiled && state.window_index(id).is_some() {
            h.set_spilled(state);
        }
        proof {
            assert forall|x: u32| window_pos(*state, x) == window_pos(s0, x) by {
                lemma_same_positions(before, *state, x);
            }
            assert forall|j: int| 0 <= j < windows@.len() && j != i implies
                #[trigger] layout_mode_of(*state, windows@[j]) == layout_mode_of(before, windows@[j]) by {
                assert(windows@[j] != windows@[i as int]);
                lemma_other_mode_kept(before, *state, id, windows@[j]);
            }
            if i >= rects@.len() && m == LayoutMode::Tiled && window_pos(s0, id) is Some {
                let k = window_pos(s0, id).unwrap();
                assert(s0.windows@[k].id == id);
                assert(ids_of_windows(s0.windows@)[k] == id);
            }
        }
        i += 1;
    }
    r
}

/// Whether window `id` already stands at `target`.
pub open spec fn already_at(s: Pinnacle, id: u32, target: Rect) -> bool {
    window_pos(s, id) matches Some(k) && s.windows@[k].geometry == Some(target)
}

/// The pairs whose window does not already stand at its target: only those
/// get a configure with a fresh serial.
pub fn needs_configure(state: &Pinnacle, pairs: &Vec<(u32, Rect)>) -> (r: Vec<(u32, Rect)>)
    requires
        state.wf(),
    ensures
        r@ == pairs@.filter(|p: (u32, Rect)| !already_at(*state, p.0, p.1)),
{
    let ghost keep = |p: (u32, Rect)| !already_at(*state, p.0, p.1);
    let mut r: Vec<(u32, Rect)> = Vec::new();
    let mut i: usize = 0;
    while i < pairs.len()
        invariant
            state.wf(),
            i <= pairs@.len(),
            keep == (|p: (u32, Rect)| !already_at(*state, p.0, p.1)),
            r@ == pairs@.take(i as int).filter(keep),
        decreases pairs@.len() - i,
    {
        let (id, target) = pairs[i];
        proof {
            assert(pairs@.take(i + 1).drop_last() =~= pairs@.take(i as int));
            assert(pairs@.take(i + 1).last() == (id, target));
            reveal(Seq::filter);
        }
        let there = match state.window_index(id) {
            Some(k) => match state.windows[k].geometry {
                Some(g) => g == target,
                None => false,
            },
            None => false,
        };
        proof {
            crate::window::lemma_window_pos_unique(*state, id);
            if !there && window_pos(*state, id) is Some {
                let k = window_pos(*state, id).unwrap();
                if state.windows@[k].geometry == Some(target) {
                    assert(ids_of_windows(state.windows@)[k] == id);
                }
            }
        }
        if !there {
            r.push((id, target));
        }
        i += 1;
    }
    proof {
        assert(pairs@.take(pairs@.len() as int) =~= pairs@);
    }
    r
}

/// A mode change keeps every window at its place.
proof fn lemma_same_positions(s0: Pinnacle, s1: Pinnacle, x: u32)
    requires
        s0.wf(),
        s1.wf(),
        s1.windows@.len() == s0.windows@.len(),
        forall|k: int| 0 <= k < s0.windows@.len() ==> (#[trigger] s1.windows@[k]).id == s0.windows@[k].id,
    ensures
        window_pos(s1, x) == window_pos(s0, x),
{
    crate::window::lemma_window_pos_unique(s0, x);
    crate::window::lemma_window_pos_unique(s1, x);
    if exists|k: int| 0 <= k < s0.windows@.len() && #[trigger] s0.windows@[k].id == x {
        let k = choose|k: int| 0 <= k < s0.windows@.len() && #[trigger] s0.windows@[k].id == x;
        assert(s1.windows@[k].id == x);
    }
    if exists|k: int| 0 <= k < s1.windows@.len() && #[trigger] s1.windows@[k].id == x {
        let k = choose|k: int| 0 <= k < s1.windows@.len() && #[trigger] s1.windows@[k].id == x;
        assert(s0.windows@[k].id == x);
    }
}

/// Changing the mode of window `id` keeps the mode of every other window.
proof fn lemma_other_mode_kept(s0: Pinnacle, s1: Pinnacle, id: u32, x: u32)
    requires
        s0.wf(),
        s1.wf(),
        x != id,
        crate::window::mode_set(s0, s1, id, LayoutMode::Tiled) || crate::window::mode_set(s0, s1, id, LayoutMode::Spilled) || s1 == s0,
    ensures
        layout_mode_of(s1, x) == layout_mode_of(s0, x),
{
    if s1 != s0 {
        lemma_same_positions(s0, s1, x);
    }
}

} // verus!
