//! Backends and the render scheduler that paces each output by its frame
//! clock.
use crate::frame::FrameClock;
use crate::state::Pinnacle;
use crate::tag_set::tag_ids;
use crate::window::{LayoutMode, WindowHandle};
use vstd::prelude::*;

verus! {

/// The outcome of rendering an output.
#[derive(Clone, Copy, Debug, PartialEq, Eq, Structural)]
pub enum RenderResult {
    /// A frame was queued for scan-out.
    Submitted,
    /// Nothing changed on screen.
    NoDamage,
    /// The render could not happen now.
    Skipped,
}

/// The frame clock of one output.
pub struct OutputClock {
    pub output: String,
    pub clock: FrameClock,
}

/// A compositor running in a window of another display server.
pub struct Winit {
    pub seat_name: String,
}

/// A compositor running on a tty, driving displays itself.
pub struct Udev {
    pub seat_name: String,
    pub clocks: Vec<OutputClock>,
}

/// The backend in use.
pub enum Backend {
    /// The compositor is running in a Winit window
    Winit(Winit),
    /// The compositor is running in a tty
    Udev(Udev),
}

/// Whether an output's frame clock lets it render at `now`: it has no clock,
/// or the clock predicts no wait.
pub open spec fn clock_due(clocks: Seq<OutputClock>, name: Seq<char>, now: u64) -> bool {
    forall|c: int| 0 <= c < clocks.len() && (#[trigger] clocks[c]).output@ == name && clocks[c].clock.wf()
        ==> crate::frame::next_presentation_delay(
            now as int,
            match clocks[c].clock.last_presentation() { Some(l) => Some(l as int), None => None },
            match clocks[c].clock.interval() { Some(i) => Some(i as int), None => None },
            clocks[c].clock.vrr_on(),
        ) == 0
}

impl Backend {
    /// The name of the seat.
    pub fn seat_name(&self) -> (r: String)
        ensures
            r@ == match self {
                Backend::Winit(w) => w.seat_name@,
                Backend::Udev(u) => u.seat_name@,
            },
    {
        match self {
            Backend::Winit(w) => w.seat_name.clone(),
            Backend::Udev(u) => u.seat_name.clone(),
        }
    }

    /// Returns `true` if the backend is [`Winit`](Backend::Winit).
    pub fn is_winit(&self) -> (r: bool)
        ensures
            r == (*self is Winit),
    {
        matches!(self, Backend::Winit(_))
    }

    /// Returns `true` if the backend is [`Udev`](Backend::Udev).
    pub fn is_udev(&self) -> (r: bool)
        ensures
            r == (*self is Udev),
    {
        matches!(self, Backend::Udev(_))
    }

    /// The outputs to render at `now`: on a tty backend, every enabled output
    /// that is scheduled and whose frame clock is due (the first clock kept
    /// for it). The windowed backend renders on its own schedule: none.
    pub fn render_scheduled_outputs(&self, pinnacle: &Pinnacle, now: u64) -> (r: Vec<usize>)
        ensures
            self is Winit ==> r@.len() == 0,
            forall|i: int| 0 <= i < r@.len() ==> {
                let o = #[trigger] r@[i];
                &&& o < pinnacle.outputs@.len()
                &&& pinnacle.outputs@[o as int].enabled
                &&& pinnacle.outputs@[o as int].render_scheduled
            },
            forall|i: int, j: int| 0 <= i < j < r@.len() ==> r@[i] < r@[j],
            self matches Backend::Udev(u) ==> forall|o: int| 0 <= o < pinnacle.outputs@.len() ==>
                (r@.contains(o as usize) <==> (pinnacle.outputs@[o].enabled && pinnacle.outputs@[o].render_scheduled
                    && clock_due(u.clocks@, pinnacle.outputs@[o].name@, now))),
    {
        let mut r: Vec<usize> = Vec::new();
        let udev = match self {
            Backend::Udev(u) => u,
            Backend::Winit(_) => return r,
        };
        let mut o: usize = 0;
        while o < pinnacle.outputs.len()
            invariant
                *self matches Backend::Udev(u) && u == *udev,
                o <= pinnacle.outputs@.len(),
                forall|i: int| 0 <= i < r@.len() ==> {
                    let x = #[trigger] r@[i];
                    &&& x < o
                    &&& pinnacle.outputs@[x as int].enabled
                    &&& pinnacle.outputs@[x as int].render_scheduled
                },
                forall|i: int, j: int| 0 <= i < j < r@.len() ==> r@[i] < r@[j],
                forall|x: int| 0 <= x < pinnacle.outputs@.len() ==> (r@.contains(x as usize) <==> (x < o
                    && pinnacle.outputs@[x].enabled && pinnacle.outputs@[x].render_scheduled
                    && clock_due(udev.clocks@, pinnacle.outputs@[x].name@, now))),
            decreases pinnacle.outputs@.len() - o,
        {
            let out = &pinnacle.outputs[o];
            let ghost prev = r@;
            if out.enabled && out.render_scheduled && udev.due(&out.name, now) {
                r.push(o);
            }
            proof {
                assert forall|x: int| 0 <= x < pinnacle.outputs@.len() implies (r@.contains(x as usize) <==> (x < o + 1
                    && pinnacle.outputs@[x].enabled && pinnacle.outputs@[x].render_scheduled
                    && clock_due(udev.clocks@, pinnacle.outputs@[x].name@, now))) by {
                    if r@.len() > prev.len() {
                        crate::backend::lemma_push_contains_usize(prev, o, x as usize);
                    }
                    if prev.contains(x as usize) {
                        let k = choose|k: int| 0 <= k < prev.len() && prev[k] == x as usize;
                        assert(x < o);
                    }
                }
            }
            o += 1;
        }
        r
    }
}

/// Membership after a push.
proof fn lemma_push_contains_usize(s: Seq<usize>, x: usize, y: usize)
    ensures
        s.push(x).contains(y) == (s.contains(y) || x == y),
{
    if s.contains(y) {
        let i = choose|i: int| 0 <= i < s.len() && s[i] == y;
        assert(s.push(x)[i] == y);
    }
    if x == y {
        assert(s.push(x)[s.len() as int] == y);
    }
    if s.push(x).contains(y) && x != y {
        let i = choose|i: int| 0 <= i < s.len() + 1 && s.push(x)[i] == y;
        assert(s[i] == y);
    }
}

/// Whether the mapped window at `k` asks for variable refresh on output `o`:
/// it is on `o` and on an active tag, and has a demand that it meets (a
/// fullscreen-only demand needs the window fullscreen).
pub open spec fn demands_vrr(s: Pinnacle, o: int, k: int) -> bool {
    let w = s.windows@[k];
    &&& w.vrr_demand matches Some(d) && (!d.fullscreen || w.layout_mode == LayoutMode::Fullscreen)
    &&& tag_ids(w.tags).len() > 0
    &&& s.output_has_tag(o, tag_ids(w.tags)[0])
    &&& exists|i: int, j: int| 0 <= i < tag_ids(w.tags).len()
        && 0 <= j < s.tags@.len()
        && #[trigger] s.tags@[j].id == #[trigger] tag_ids(w.tags)[i]
        && s.tags@[j].active
}

/// The mapped window `id` sits at `k`.
pub open spec fn window_pos_is(s: Pinnacle, id: u32, k: int) -> bool {
    crate::window::window_pos(s, id) == Some(k)
}

/// Whether some window asks for variable refresh on output `o`.
pub fn vrr_demanded(pinnacle: &Pinnacle, o: usize) -> (r: bool)
    requires
        pinnacle.wf(),
        o < pinnacle.outputs@.len(),
    ensures
        r == exists|k: int| 0 <= k < pinnacle.windows@.len() && #[trigger] demands_vrr(*pinnacle, o as int, k),
{
    let mut k: usize = 0;
    while k < pinnacle.windows.len()
        invariant
            pinnacle.wf(),
            o < pinnacle.outputs@.len(),
            k <= pinnacle.windows@.len(),
            forall|j: int| 0 <= j < k ==> !#[trigger] demands_vrr(*pinnacle, o as int, j),
        decreases pinnacle.windows@.len() - k,
    {
        let w = &pinnacle.windows[k];
        let wants = match w.vrr_demand {
            Some(d) => !d.fullscreen || w.layout_mode == LayoutMode::Fullscreen,
            None => false,
        };
        let here = match crate::tag_set::tag_set_get_index(&w.tags, 0) {
            Some(first) => crate::tag_set::tag_set_contains(&pinnacle.outputs[o].tags, first),
            None => false,
        };
        let id = w.id;
        proof {
            crate::window::lemma_window_pos_unique(*pinnacle, id);
        }
        proof {
            assert(window_pos_is(*pinnacle, id, k as int));
        }
        if wants && here && (WindowHandle { id }).is_on_active_tag(pinnacle) {
            proof {
                assert(demands_vrr(*pinnacle, o as int, k as int));
            }
            return true;
        }
        k += 1;
    }
    false
}

impl Udev {
    /// On an output in on-demand mode, turns its frame clock's VRR on exactly
    /// when a window asks for it. Returns the new setting, or `None` when the
    /// output is not in on-demand mode.
    pub fn update_vrr_on_demand(&mut self, pinnacle: &Pinnacle, o: usize) -> (r: Option<bool>)
        requires
            pinnacle.wf(),
            o < pinnacle.outputs@.len(),
        ensures
            r == if pinnacle.outputs@[o as int].vrr_on_demand {
                Some(exists|k: int| 0 <= k < pinnacle.windows@.len() && #[trigger] demands_vrr(*pinnacle, o as int, k))
            } else {
                None::<bool>
            },
            final(self).clocks@.len() == old(self).clocks@.len(),
            forall|c: int| 0 <= c < old(self).clocks@.len() ==> {
                let c0 = old(self).clocks@[c];
                let c1 = #[trigger] final(self).clocks@[c];
                &&& c1.output == c0.output
                &&& c1.clock.interval() == c0.clock.interval()
                &&& c1.clock.vrr_on() == match r {
                    Some(v) => if c0.output@ == pinnacle.outputs@[o as int].name@ { v } else { c0.clock.vrr_on() },
                    None => c0.clock.vrr_on(),
                }
            },
    {
        if !pinnacle.outputs[o].vrr_on_demand {
            return None;
        }
        let want = vrr_demanded(pinnacle, o);
        let ghost u0 = *self;
        let mut c: usize = 0;
        while c < self.clocks.len()
            invariant
                o < pinnacle.outputs@.len(),
                c <= self.clocks@.len(),
                self.clocks@.len() == u0.clocks@.len(),
                forall|j: int| 0 <= j < u0.clocks@.len() ==> {
                    let c0 = u0.clocks@[j];
                    let c1 = #[trigger] self.clocks@[j];
                    &&& c1.output == c0.output
                    &&& c1.clock.interval() == c0.clock.interval()
                    &&& c1.clock.vrr_on() == if j < c && c0.output@ == pinnacle.outputs@[o as int].name@ { want } else { c0.clock.vrr_on() }
                },
            decreases u0.clocks@.len() - c,
        {
            if self.clocks[c].output == pinnacle.outputs[o].name {
                self.clocks[c].clock.set_vrr(want);
            }
            c += 1;
        }
        Some(want)
    }

    /// Whether output `name` may render at `now`.
    fn due(&self, name: &String, now: u64) -> (r: bool)
        ensures
            r == clock_due(self.clocks@, name@, now),
    {
        let mut c: usize = 0;
        while c < self.clocks.len()
            invariant
                c <= self.clocks@.len(),
                forall|j: int| 0 <= j < c && (#[trigger] self.clocks@[j]).output@ == name@ && self.clocks@[j].clock.wf()
                    ==> crate::frame::next_presentation_delay(
                        now as int,
                        match self.clocks@[j].clock.last_presentation() { Some(l) => Some(l as int), None => None },
                        match self.clocks@[j].clock.interval() { Some(i) => Some(i as int), None => None },
                        self.clocks@[j].clock.vrr_on(),
                    ) == 0,
            decreases self.clocks@.len() - c,
        {
            if self.clocks[c].output == *name && self.clocks[c].clock.is_well_formed() {
                if self.clocks[c].clock.time_to_next_presentation(now) != 0 {
                    return false;
                }
            }
            c += 1;
        }
        true
    }

    /// An output was rendered with `result`, presented at `presentation_time`.
    /// A submitted frame, and one with no damage, clears the output's
    /// schedule and feeds the frame clock; a skipped render stays scheduled
    /// for the next cycle.
    pub fn rendered(&mut self, pinnacle: &mut Pinnacle, o: usize, result: RenderResult, presentation_time: u64)
        requires
            old(pinnacle).wf(),
            o < old(pinnacle).outputs@.len(),
        ensures
            final(pinnacle).wf(),
            final(pinnacle).outputs@.len() == old(pinnacle).outputs@.len(),
            forall|j: int| 0 <= j < old(pinnacle).outputs@.len() && j != o ==> #[trigger] final(pinnacle).outputs@[j] == old(pinnacle).outputs@[j],
            final(pinnacle).outputs@[o as int] == (crate::output::Output {
                render_scheduled: result == RenderResult::Skipped && old(pinnacle).outputs@[o as int].render_scheduled,
                ..old(pinnacle).outputs@[o as int]
            }),
            final(pinnacle).windows == old(pinnacle).windows,
            final(pinnacle).tags == old(pinnacle).tags,
            final(self).clocks@.len() == old(self).clocks@.len(),
            forall|c: int| 0 <= c < old(self).clocks@.len() ==> {
                let c0 = old(self).clocks@[c];
                let c1 = #[trigger] final(self).clocks@[c];
                &&& c1.output == c0.output
                &&& c1.clock.interval() == c0.clock.interval()
                &&& c1.clock.vrr_on() == c0.clock.vrr_on()
                &&& c1.clock.last_presentation() == if result != RenderResult::Skipped
                    && c0.output@ == old(pinnacle).outputs@[o as int].name@ && presentation_time != 0 {
                    Some(presentation_time)
                } else {
                    c0.clock.last_presentation()
                }
            },
    {
        let ghost p0 = *pinnacle;
        if result == RenderResult::Skipped {
            return;
        }
        pinnacle.outputs[o].render_scheduled = false;
        proof {
            assert forall|j: int| 0 <= j < p0.outputs@.len() implies
                (#[trigger] pinnacle.outputs@[j]).name@ == p0.outputs@[j].name@
                && crate::tag_set::tag_ids(pinnacle.outputs@[j].tags) == crate::tag_set::tag_ids(p0.outputs@[j].tags) by {
                if j != o {
                    assert(pinnacle.outputs@[j] == p0.outputs@[j]);
                }
            }
            assert(crate::state::ids_of_windows(pinnacle.windows@) == crate::state::ids_of_windows(p0.windows@));
            crate::state::lemma_wf_frame(p0, *pinnacle);
        }
        let ghost u0 = *self;
        let mut c: usize = 0;
        while c < self.clocks.len()
            invariant
                c <= self.clocks@.len(),
                self.clocks@.len() == u0.clocks@.len(),
                pinnacle.outputs@[o as int].name == p0.outputs@[o as int].name,
                o < pinnacle.outputs@.len(),
                forall|j: int| 0 <= j < u0.clocks@.len() ==> {
                    let c0 = u0.clocks@[j];
                    let c1 = #[trigger] self.clocks@[j];
                    &&& c1.output == c0.output
                    &&& c1.clock.interval() == c0.clock.interval()
                    &&& c1.clock.vrr_on() == c0.clock.vrr_on()
                    &&& c1.clock.last_presentation() == if j < c && c0.output@ == p0.outputs@[o as int].name@
                        && presentation_time != 0 {
                        Some(presentation_time)
                    } else {
                        c0.clock.last_presentation()
                    }
                },
            decreases u0.clocks@.len() - c,
        {
            if self.clocks[c].output == pinnacle.outputs[o].name {
                self.clocks[c].clock.presented(presentation_time);
            }
            c += 1;
        }
    }
}

} // verus!
