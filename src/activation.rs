//! Activation tokens: letting a client move focus to a window, when the
//! request is fresh and its token was made from recent input.
use crate::state::{ids_of_unmapped, ids_of_windows, lemma_wf_same_tags, Pinnacle};
use crate::window::window_pos;
use vstd::prelude::*;

verus! {

/// What an activation token allows.
#[derive(Clone, Copy, Debug, PartialEq, Eq, Structural)]
pub enum ActivationContext {
    /// Focus the window, if it is visible.
    FocusIfPossible,
    /// Only mark the window urgent.
    UrgentOnly,
}

/// How long a token stays valid, in milliseconds.
pub const ACTIVATION_TOKEN_TIMEOUT_MS: u64 = 10_000;

/// The context a new token gets, or `None` when the token is refused. A
/// token without a serial and seat, or from an unknown seat, may only mark
/// urgency; one with a serial is valid only when that serial is no older
/// than the keyboard's last enter.
pub fn token_context(has_serial: bool, seat_known: bool, serial_is_fresh: bool) -> (r: Option<ActivationContext>)
    ensures
        r == if !has_serial || !seat_known {
            Some(ActivationContext::UrgentOnly)
        } else if serial_is_fresh {
            Some(ActivationContext::FocusIfPossible)
        } else {
            None::<ActivationContext>
        },
{
    if !has_serial || !seat_known {
        Some(ActivationContext::UrgentOnly)
    } else if serial_is_fresh {
        Some(ActivationContext::FocusIfPossible)
    } else {
        None
    }
}

/// What an activation request did.
#[derive(Clone, Copy, Debug, PartialEq, Eq, Structural)]
pub enum ActivationOutcome {
    /// The token was too old.
    TimedOut,
    /// The token carried no context.
    NoContext,
    /// The window was raised and focused; its output is to be rendered.
    Focused(usize),
    /// The token was kept on the unmapped window for when it maps.
    Stored,
    /// Nothing to do.
    Ignored,
}

/// An activation request must focus its window: the token is fresh and
/// allows focus, and the window is mapped and visible on some output.
pub open spec fn focus_owed(s: Pinnacle, elapsed_ms: u64, context: Option<ActivationContext>, target: u32) -> bool {
    &&& elapsed_ms < ACTIVATION_TOKEN_TIMEOUT_MS
    &&& context == Some(ActivationContext::FocusIfPossible)
    &&& window_pos(s, target) is Some
    &&& exists|o: int| 0 <= o < s.outputs@.len() && #[trigger] crate::layout::visible_on(s, o, window_pos(s, target).unwrap())
}

/// `s` with the window at `k` moved to the top and focused.
pub open spec fn raised_and_focused(s0: Pinnacle, s1: Pinnacle, k: int) -> bool {
    &&& s1.windows@ == s0.windows@.remove(k).push(s0.windows@[k])
    &&& s1.focus() == Some(s0.windows@[k].id)
    &&& s1.outputs@.len() == s0.outputs@.len()
    &&& s1.tags == s0.tags
    &&& s1.unmapped_windows == s0.unmapped_windows
}

/// Moving one element to the end keeps `a + b` free of repeats.
proof fn lemma_move_to_end(a: Seq<u32>, b: Seq<u32>, k: int)
    requires
        (a + b).no_duplicates(),
        0 <= k < a.len(),
    ensures
        (a.remove(k).push(a[k]) + b).no_duplicates(),
{
    let s0 = a + b;
    let s1 = a.remove(k).push(a[k]) + b;
    let n = a.len() as int;
    assert forall|i: int| 0 <= i < s1.len() implies #[trigger] s1[i] == s0[moved_index(n, k, i)] by {
        if i < n - 1 {
            if i < k {
                assert(a.remove(k)[i] == a[i]);
            } else {
                assert(a.remove(k)[i] == a[i + 1]);
            }
        }
    }
    assert forall|i: int, j: int| 0 <= i < s1.len() && 0 <= j < s1.len() && i != j implies s1[i] != s1[j] by {
        assert(s1[i] == s0[moved_index(n, k, i)]);
        assert(s1[j] == s0[moved_index(n, k, j)]);
    }
}

/// Where element `i` of `a.remove(k).push(a[k]) + b` sits in `a + b`.
pub open spec fn moved_index(n: int, k: int, i: int) -> int {
    if i < k {
        i
    } else if i < n - 1 {
        i + 1
    } else if i == n - 1 {
        k
    } else {
        i
    }
}

impl Pinnacle {
    /// Handles an activation request for window `target` with a token made
    /// `elapsed_ms` ago. A token past the timeout, or without context, does
    /// nothing. A focus-if-possible token raises and focuses a mapped window
    /// that is on an active tag and on an output; an unmapped window keeps the
    /// token, whatever its context, for when it maps.
    pub fn request_activation(&mut self, elapsed_ms: u64, context: Option<ActivationContext>, target: u32, token: String) -> (r: ActivationOutcome)
        requires
            old(self).wf(),
        ensures
            final(self).wf(),
            elapsed_ms >= ACTIVATION_TOKEN_TIMEOUT_MS ==> r == ActivationOutcome::TimedOut && *final(self) == *old(self),
            elapsed_ms < ACTIVATION_TOKEN_TIMEOUT_MS && context is None ==> r == ActivationOutcome::NoContext && *final(self) == *old(self),
            focus_owed(*old(self), elapsed_ms, context, target) ==> (r matches ActivationOutcome::Focused(o)
                && crate::layout::visible_on(*old(self), o as int, window_pos(*old(self), target).unwrap())),
            r matches ActivationOutcome::Focused(o) ==> context == Some(ActivationContext::FocusIfPossible)
                && o < final(self).outputs@.len()
                && final(self).outputs@[o as int].render_scheduled
                && (window_pos(*old(self), target) matches Some(k) && raised_and_focused(*old(self), *final(self), k)),
            context == Some(ActivationContext::UrgentOnly) ==> final(self).windows == old(self).windows
                && final(self).keyboard_focus_stack == old(self).keyboard_focus_stack
                && final(self).outputs == old(self).outputs,
            r == ActivationOutcome::Stored ==> final(self).windows == old(self).windows
                && ids_of_unmapped(final(self).unmapped_windows@) == ids_of_unmapped(old(self).unmapped_windows@),
    {
        if elapsed_ms >= ACTIVATION_TOKEN_TIMEOUT_MS {
            return ActivationOutcome::TimedOut;
        }
        let context = match context {
            Some(c) => c,
            None => return ActivationOutcome::NoContext,
        };
        let ghost s0 = *self;
        proof {
            crate::window::lemma_window_pos_unique(s0, target);
        }
        if let Some(k) = self.window_index(target) {
            if context == ActivationContext::UrgentOnly {
                return ActivationOutcome::Ignored;
            }
            let handle = crate::window::WindowHandle { id: target };
            proof {
                assert(window_pos(s0, target) == Some(k as int));
            }
            if !handle.is_on_active_tag(self) {
                proof {
                    if focus_owed(s0, elapsed_ms, Some(context), target) {
                        let o2 = choose|o2: int| 0 <= o2 < s0.outputs@.len() && #[trigger] crate::layout::visible_on(s0, o2, k as int);
                        assert(crate::layout::visible_on(s0, o2, k as int));
                    }
                }
                return ActivationOutcome::Ignored;
            }
            let o = match self.window_output(&self.windows[k]) {
                Some(o) => o,
                None => {
                    proof {
                        if focus_owed(s0, elapsed_ms, Some(context), target) {
                            let o2 = choose|o2: int| 0 <= o2 < s0.outputs@.len() && #[trigger] crate::layout::visible_on(s0, o2, k as int);
                            assert(crate::layout::visible_on(s0, o2, k as int));
                        }
                    }
                    return ActivationOutcome::Ignored;
                },
            };
            proof {
                assert(crate::layout::visible_on(s0, o as int, k as int));
            }
            let w = self.windows.remove(k);
            self.windows.push(w);
            let mut i: usize = 0;
            let mut stack: Vec<u32> = Vec::new();
            while i < self.keyboard_focus_stack.len()
                invariant
                    i <= self.keyboard_focus_stack@.len(),
                decreases self.keyboard_focus_stack@.len() - i,
            {
                if self.keyboard_focus_stack[i] != target {
                    stack.push(self.keyboard_focus_stack[i]);
                }
                i += 1;
            }
            stack.push(target);
            self.keyboard_focus_stack = stack;
            self.outputs[o].render_scheduled = true;
            proof {
                let a = ids_of_windows(s0.windows@);
                let b = ids_of_unmapped(s0.unmapped_windows@);
                assert(ids_of_windows(self.windows@) =~= a.remove(k as int).push(a[k as int]));
                lemma_move_to_end(a, b, k as int);
                assert(self.windows_wf());
                let mid = Pinnacle { outputs: s0.outputs, ..*self };
                lemma_wf_same_tags(s0, mid);
                assert forall|j: int| 0 <= j < s0.outputs@.len() implies
                    (#[trigger] self.outputs@[j]).name@ == mid.outputs@[j].name@
                    && crate::tag_set::tag_ids(self.outputs@[j].tags) == crate::tag_set::tag_ids(mid.outputs@[j].tags) by {
                    if j != o {
                        assert(self.outputs@[j] == s0.outputs@[j]);
                    }
                }
                assert(ids_of_windows(self.windows@) == ids_of_windows(mid.windows@));
                crate::state::lemma_wf_frame(mid, *self);
                assert(s0.windows@[k as int].id == target);
            }
            return ActivationOutcome::Focused(o);
        }
        proof {
            if window_pos(s0, target) is Some {
                let k = choose|k: int| 0 <= k < s0.windows@.len() && #[trigger] s0.windows@[k].id == target;
                assert(ids_of_windows(s0.windows@)[k] == target);
            }
        }
        if let Some(u) = self.unmapped_index(target) {
            self.unmapped_windows[u].activation_token = Some(token);
            proof {
                assert(ids_of_unmapped(self.unmapped_windows@) =~= ids_of_unmapped(s0.unmapped_windows@));
                lemma_wf_same_tags(s0, *self);
            }
            return ActivationOutcome::Stored;
        }
        ActivationOutcome::Ignored
    }
}

} // verus!
