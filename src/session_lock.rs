//! The session lock: a three-state protocol that blanks every output first.
use crate::output::{BlankingState, Output};
use crate::state::Pinnacle;
use vstd::prelude::*;

verus! {

/// State of a session lock.
#[derive(Clone, Copy, Debug, PartialEq, Eq, Structural)]
pub enum LockState {
    /// There is no session lock.
    Unlocked,
    /// A lock request from the given locker came in and outputs are being blanked.
    Locking(u32),
    /// The session is locked.
    Locked,
}

impl LockState {
    /// Returns `true` if the lock state is [`Locking`](LockState::Locking).
    pub fn is_locking(&self) -> (r: bool)
        ensures
            r == (*self matches LockState::Locking(_)),
    {
        matches!(self, LockState::Locking(_))
    }

    /// Returns `true` if the lock state is [`Unlocked`](LockState::Unlocked).
    pub fn is_unlocked(&self) -> (r: bool)
        ensures
            r == (*self == LockState::Unlocked),
    {
        matches!(self, LockState::Unlocked)
    }

    /// Returns `true` if the lock state is [`Locked`](LockState::Locked).
    pub fn is_locked(&self) -> (r: bool)
        ensures
            r == (*self == LockState::Locked),
    {
        matches!(self, LockState::Locked)
    }
}

/// What an output shows in its next frame.
#[derive(Clone, Copy, Debug, PartialEq, Eq, Structural)]
pub enum FrameKind {
    /// The ordinary scene.
    Scene,
    /// A black frame.
    Black,
    /// The output's lock surface.
    LockSurface,
}

/// Every enabled output shows black.
pub open spec fn all_blanked(outputs: Seq<Output>) -> bool {
    forall|o: int| 0 <= o < outputs.len() && (#[trigger] outputs[o]).enabled
        ==> outputs[o].blanking_state == BlankingState::Blanked
}

/// `s1` is `s0` with only outputs' lock fields and render flags touched.
pub open spec fn lock_frame(s0: Pinnacle, s1: Pinnacle) -> bool {
    &&& s1.outputs@.len() == s0.outputs@.len()
    &&& forall|o: int| 0 <= o < s0.outputs@.len() ==> {
        &&& (#[trigger] s1.outputs@[o]).name == s0.outputs@[o].name
        &&& s1.outputs@[o].tags == s0.outputs@[o].tags
        &&& s1.outputs@[o].enabled == s0.outputs@[o].enabled
    }
    &&& s1.tags == s0.tags
    &&& s1.windows == s0.windows
    &&& s1.unmapped_windows == s0.unmapped_windows
    &&& s1.keyboard_focus_stack == s0.keyboard_focus_stack
    &&& s1.next_tag_id == s0.next_tag_id
    &&& s1.connector_saved_states == s0.connector_saved_states
}

/// What output `o` shows under lock state `lock`: the scene only when
/// unlocked; a lock surface once locked and one is installed; black otherwise.
pub open spec fn frame_kind_spec(lock: LockState, output: Output) -> FrameKind {
    match lock {
        LockState::Unlocked => FrameKind::Scene,
        LockState::Locked => if output.has_lock_surface {
            FrameKind::LockSurface
        } else {
            FrameKind::Black
        },
        LockState::Locking(_) => FrameKind::Black,
    }
}

/// Well-formedness carries over a change of lock fields only.
proof fn lemma_lock_frame_wf(s0: Pinnacle, s1: Pinnacle)
    requires
        s0.wf(),
        lock_frame(s0, s1),
    ensures
        s1.wf(),
{
    assert(crate::state::ids_of_windows(s1.windows@) == crate::state::ids_of_windows(s0.windows@));
    crate::state::lemma_wf_frame(s0, s1);
}

impl Pinnacle {
    /// Handles a lock request from `locker`. It is accepted only when the
    /// session is unlocked: the state becomes locking and every output is
    /// scheduled so that it starts blanking. A denied request changes nothing.
    pub fn lock(&mut self, locker: u32) -> (r: bool)
        requires
            old(self).wf(),
        ensures
            final(self).wf(),
            r == (old(self).lock_state == LockState::Unlocked),
            r ==> final(self).lock_state == LockState::Locking(locker) && lock_frame(*old(self), *final(self))
                && forall|o: int| 0 <= o < final(self).outputs@.len() ==> (#[trigger] final(self).outputs@[o]).render_scheduled
                    && final(self).outputs@[o].blanking_state == old(self).outputs@[o].blanking_state,
            !r ==> *final(self) == *old(self),
    {
        if !self.lock_state.is_unlocked() {
            return false;
        }
        let ghost s0 = *self;
        self.lock_state = LockState::Locking(locker);
        self.schedule_all();
        proof {
            lemma_lock_frame_wf(s0, *self);
        }
        true
    }

    /// Schedules a render on every output.
    fn schedule_all(&mut self)
        ensures
            lock_frame(*old(self), *final(self)),
            final(self).lock_state == old(self).lock_state,
            forall|o: int| 0 <= o < final(self).outputs@.len() ==> (#[trigger] final(self).outputs@[o]).render_scheduled
                && final(self).outputs@[o].blanking_state == old(self).outputs@[o].blanking_state
                && final(self).outputs@[o].has_lock_surface == old(self).outputs@[o].has_lock_surface,
    {
        let ghost s0 = *self;
        let mut i: usize = 0;
        while i < self.outputs.len()
            invariant
                i <= self.outputs@.len(),
                self.outputs@.len() == s0.outputs@.len(),
                self.lock_state == s0.lock_state,
                self.tags == s0.tags,
                self.windows == s0.windows,
                self.unmapped_windows == s0.unmapped_windows,
                self.keyboard_focus_stack == s0.keyboard_focus_stack,
                self.next_tag_id == s0.next_tag_id,
                self.connector_saved_states == s0.connector_saved_states,
                forall|o: int| 0 <= o < s0.outputs@.len() ==> {
                    &&& (#[trigger] self.outputs@[o]).name == s0.outputs@[o].name
                    &&& self.outputs@[o].tags == s0.outputs@[o].tags
                    &&& self.outputs@[o].enabled == s0.outputs@[o].enabled
                    &&& self.outputs@[o].blanking_state == s0.outputs@[o].blanking_state
                    &&& self.outputs@[o].has_lock_surface == s0.outputs@[o].has_lock_surface
                    &&& o < i ==> self.outputs@[o].render_scheduled
                },
            decreases s0.outputs@.len() - i,
        {
            self.outputs[i].render_scheduled = true;
            i += 1;
        }
    }

    /// Checked once per loop cycle. While locking, once every enabled output
    /// shows black, the lock is confirmed: the locker is returned, the state
    /// becomes locked and every output is scheduled. Otherwise nothing changes.
    pub fn poll_lock(&mut self) -> (r: Option<u32>)
        requires
            old(self).wf(),
        ensures
            final(self).wf(),
            match r {
                Some(l) => {
                    &&& old(self).lock_state == LockState::Locking(l)
                    &&& all_blanked(old(self).outputs@)
                    &&& final(self).lock_state == LockState::Locked
                    &&& lock_frame(*old(self), *final(self))
                    &&& forall|o: int| 0 <= o < final(self).outputs@.len() ==> (#[trigger] final(self).outputs@[o]).render_scheduled
                },
                None => {
                    &&& !(old(self).lock_state is Locking && all_blanked(old(self).outputs@))
                    &&& *final(self) == *old(self)
                },
            },
    {
        let locker = match self.lock_state {
            LockState::Locking(l) => l,
            _ => return None,
        };
        let ghost s_start = *self;
        let mut i: usize = 0;
        while i < self.outputs.len()
            invariant
                *self == s_start,
                s_start == *old(self),
                s_start.wf(),
                i <= self.outputs@.len(),
                forall|o: int| 0 <= o < i && (#[trigger] self.outputs@[o]).enabled
                    ==> self.outputs@[o].blanking_state == BlankingState::Blanked,
            decreases self.outputs@.len() - i,
        {
            if self.outputs[i].enabled && self.outputs[i].blanking_state != BlankingState::Blanked {
                return None;
            }
            i += 1;
        }
        let ghost s0 = *self;
        self.lock_state = LockState::Locked;
        self.schedule_all();
        proof {
            lemma_lock_frame_wf(s0, *self);
        }
        Some(locker)
    }

    /// Ends the session lock: lock surfaces are dropped, blanking is reset,
    /// the focus target is cleared and the state returns to unlocked.
    pub fn unlock(&mut self)
        requires
            old(self).wf(),
        ensures
            final(self).wf(),
            final(self).lock_state == LockState::Unlocked,
            final(self).lock_surface_focus is None,
            lock_frame(*old(self), *final(self)),
            forall|o: int| 0 <= o < final(self).outputs@.len() ==> {
                &&& (#[trigger] final(self).outputs@[o]).blanking_state == BlankingState::NotBlanked
                &&& !final(self).outputs@[o].has_lock_surface
            },
    {
        let ghost s0 = *self;
        let mut i: usize = 0;
        while i < self.outputs.len()
            invariant
                i <= self.outputs@.len(),
                self.outputs@.len() == s0.outputs@.len(),
                self.tags == s0.tags,
                self.windows == s0.windows,
                self.unmapped_windows == s0.unmapped_windows,
                self.keyboard_focus_stack == s0.keyboard_focus_stack,
                self.next_tag_id == s0.next_tag_id,
                self.connector_saved_states == s0.connector_saved_states,
                forall|o: int| 0 <= o < s0.outputs@.len() ==> {
                    &&& (#[trigger] self.outputs@[o]).name == s0.outputs@[o].name
                    &&& self.outputs@[o].tags == s0.outputs@[o].tags
                    &&& self.outputs@[o].enabled == s0.outputs@[o].enabled
                    &&& o < i ==> self.outputs@[o].blanking_state == BlankingState::NotBlanked
                        && !self.outputs@[o].has_lock_surface
                },
            decreases s0.outputs@.len() - i,
        {
            self.outputs[i].has_lock_surface = false;
            self.outputs[i].blanking_state = BlankingState::NotBlanked;
            i += 1;
        }
        self.lock_state = LockState::Unlocked;
        self.lock_surface_focus = None;
        proof {
            lemma_lock_frame_wf(s0, *self);
        }
    }

    /// A lock surface arrived for output `o`. It is installed only while the
    /// session is locking or locked and the output has none yet; the output
    /// is then scheduled, and the first installed surface takes focus.
    /// Returns the size to configure it with (the output's), when installed.
    pub fn new_lock_surface(&mut self, o: usize) -> (r: Option<crate::geometry::Size>)
        requires
            old(self).wf(),
            o < old(self).outputs@.len(),
        ensures
            final(self).wf(),
            (r is Some) == (old(self).lock_state != LockState::Unlocked && !old(self).outputs@[o as int].has_lock_surface),
            r is Some ==> r == Some(old(self).outputs@[o as int].logical_size)
                && final(self).lock_surface_focus == match old(self).lock_surface_focus {
                    None => Some(old(self).outputs@[o as int].name),
                    Some(f) => Some(f),
                },
            r is Some ==> lock_frame(*old(self), *final(self)) && final(self).lock_state == old(self).lock_state
                && final(self).outputs@[o as int].has_lock_surface
                && final(self).outputs@[o as int].render_scheduled
                && forall|j: int| 0 <= j < old(self).outputs@.len() && j != o ==> #[trigger] final(self).outputs@[j] == old(self).outputs@[j],
            r is None ==> *final(self) == *old(self),
    {
        if self.lock_state.is_unlocked() || self.outputs[o].has_lock_surface {
            return None;
        }
        let ghost s0 = *self;
        if self.lock_surface_focus.is_none() {
            self.lock_surface_focus = Some(self.outputs[o].name.clone());
        }
        self.outputs[o].has_lock_surface = true;
        self.outputs[o].render_scheduled = true;
        proof {
            lemma_lock_frame_wf(s0, *self);
        }
        Some(self.outputs[o].logical_size)
    }

    /// Decides what output `o` draws next, and moves its blanking along: a
    /// black frame while locking starts the blanking of an output that was
    /// not blanked.
    pub fn render_frame(&mut self, o: usize) -> (r: FrameKind)
        requires
            old(self).wf(),
            o < old(self).outputs@.len(),
        ensures
            final(self).wf(),
            r == frame_kind_spec(old(self).lock_state, old(self).outputs@[o as int]),
            old(self).lock_state != LockState::Unlocked ==> r != FrameKind::Scene,
            lock_frame(*old(self), *final(self)),
            final(self).lock_state == old(self).lock_state,
            final(self).outputs@[o as int].blanking_state == if old(self).lock_state is Locking
                && old(self).outputs@[o as int].blanking_state == BlankingState::NotBlanked {
                BlankingState::Blanking
            } else {
                old(self).outputs@[o as int].blanking_state
            },
            final(self).outputs@[o as int].has_lock_surface == old(self).outputs@[o as int].has_lock_surface,
            forall|j: int| 0 <= j < old(self).outputs@.len() && j != o ==> #[trigger] final(self).outputs@[j] == old(self).outputs@[j],
    {
        let ghost s0 = *self;
        let r = match self.lock_state {
            LockState::Unlocked => FrameKind::Scene,
            LockState::Locked => if self.outputs[o].has_lock_surface {
                FrameKind::LockSurface
            } else {
                FrameKind::Black
            },
            LockState::Locking(_) => {
                if self.outputs[o].blanking_state == BlankingState::NotBlanked {
                    self.outputs[o].blanking_state = BlankingState::Blanking;
                }
                FrameKind::Black
            },
        };
        proof {
            lemma_lock_frame_wf(s0, *self);
        }
        r
    }

    /// A frame of output `o` reached the screen: a blanking output is now
    /// blanked.
    pub fn frame_shown(&mut self, o: usize)
        requires
            old(self).wf(),
            o < old(self).outputs@.len(),
        ensures
            final(self).wf(),
            lock_frame(*old(self), *final(self)),
            final(self).lock_state == old(self).lock_state,
            final(self).outputs@[o as int].blanking_state == if old(self).outputs@[o as int].blanking_state == BlankingState::Blanking {
                BlankingState::Blanked
            } else {
                old(self).outputs@[o as int].blanking_state
            },
            forall|j: int| 0 <= j < old(self).outputs@.len() && j != o ==> #[trigger] final(self).outputs@[j] == old(self).outputs@[j],
    {
        let ghost s0 = *self;
        if self.outputs[o].blanking_state == BlankingState::Blanking {
            self.outputs[o].blanking_state = BlankingState::Blanked;
        }
        proof {
            lemma_lock_frame_wf(s0, *self);
        }
    }
}

} // verus!
