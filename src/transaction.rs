//! Layout transactions: configures across windows that are applied together
//! once every window has acknowledged its serial, or a deadline passes.
use crate::geometry::Rect;
use crate::state::{ids_of_windows, Pinnacle};
use vstd::prelude::*;

verus! {

/// One window's part of a transaction.
#[derive(Clone, Copy, Debug, PartialEq, Eq, Structural)]
pub struct PendingConfigure {
    pub window: u32,
    pub serial: u64,
    pub target: Rect,
    /// The window has committed this serial, or a later one.
    pub acked: bool,
}

/// A layout step on one output.
pub struct Transaction {
    pub output: u32,
    pub configures: Vec<PendingConfigure>,
    /// After this time the transaction goes through even if unacknowledged.
    pub deadline: u64,
}

/// The pending transactions, oldest first.
pub struct TransactionRegistry {
    pub pending: Vec<Transaction>,
    pub next_serial: u64,
}

/// Whether transaction `t` configures window `w`.
pub open spec fn has_window(t: Transaction, w: u32) -> bool {
    seq_has_window(t.configures@, w)
}

/// Whether one of `cs` configures window `w`.
pub open spec fn seq_has_window(cs: Seq<PendingConfigure>, w: u32) -> bool {
    exists|i: int| 0 <= i < cs.len() && (#[trigger] cs[i]).window == w
}

/// Whether `w` is among the windows of `targets`.
pub open spec fn targets_window(targets: Seq<(u32, Rect)>, w: u32) -> bool {
    exists|i: int| 0 <= i < targets.len() && (#[trigger] targets[i]).0 == w
}

/// Whether every window of `t` has acknowledged.
pub open spec fn all_acked(t: Transaction) -> bool {
    forall|i: int| 0 <= i < t.configures@.len() ==> (#[trigger] t.configures@[i]).acked
}

impl TransactionRegistry {
    /// No window is in two pending transactions for the same output.
    pub open spec fn wf(&self) -> bool {
        forall|a: int, b: int, w: u32|
            0 <= a < b < self.pending@.len() && self.pending@[a].output == self.pending@[b].output
                && #[trigger] has_window(self.pending@[a], w) ==> !#[trigger] has_window(self.pending@[b], w)
    }

    /// An empty registry whose first serial is `first_serial`.
    pub fn new(first_serial: u64) -> (r: Self)
        ensures
            r.wf(),
            r.pending@.len() == 0,
            r.next_serial == first_serial,
    {
        TransactionRegistry { pending: Vec::new(), next_serial: first_serial }
    }

    /// Records a layout step on `output`: each window of `targets` gets a
    /// configure with a fresh serial. The step supersedes older pending ones
    /// on the same output: they lose their configures of these windows.
    /// Returns the serials handed out, in order.
    pub fn begin(&mut self, output: u32, targets: Vec<(u32, Rect)>, deadline: u64) -> (r: Vec<u64>)
        requires
            old(self).wf(),
            old(self).next_serial + targets@.len() <= u64::MAX,
        ensures
            final(self).wf(),
            r@.len() == targets@.len(),
            forall|j: int| 0 <= j < r@.len() ==> #[trigger] r@[j] == old(self).next_serial + j,
            final(self).next_serial == old(self).next_serial + targets@.len(),
            final(self).pending@.len() == old(self).pending@.len() + 1,
            ({
                let t = final(self).pending@.last();
                &&& t.output == output
                &&& t.deadline == deadline
                &&& t.configures@.len() == targets@.len()
                &&& forall|j: int| 0 <= j < targets@.len() ==> #[trigger] t.configures@[j] == (PendingConfigure {
                    window: targets@[j].0,
                    serial: r@[j],
                    target: targets@[j].1,
                    acked: false,
                })
            }),
            forall|a: int| 0 <= a < old(self).pending@.len() ==> {
                let t0 = old(self).pending@[a];
                let t1 = #[trigger] final(self).pending@[a];
                &&& t1.output == t0.output
                &&& t1.deadline == t0.deadline
                &&& forall|w: u32| #[trigger] has_window(t1, w) == (has_window(t0, w)
                    && !(t0.output == output && targets_window(targets@, w)))
            },
    {
        let ghost s0 = *self;
        let mut i: usize = 0;
        while i < self.pending.len()
            invariant
                i <= self.pending@.len(),
                self.pending@.len() == s0.pending@.len(),
                self.next_serial == s0.next_serial,
                forall|a: int| 0 <= a < s0.pending@.len() ==> {
                    let t0 = s0.pending@[a];
                    let t1 = #[trigger] self.pending@[a];
                    &&& t1.output == t0.output
                    &&& t1.deadline == t0.deadline
                    &&& a < i ==> forall|w: u32| #[trigger] has_window(t1, w) == (has_window(t0, w)
                        && !(t0.output == output && targets_window(targets@, w)))
                    &&& a >= i ==> t1.configures == t0.configures
                },
            decreases s0.pending@.len() - i,
        {
            if self.pending[i].output == output {
                let ghost c0 = self.pending@[i as int].configures@;
                let mut kept: Vec<PendingConfigure> = Vec::new();
                let mut j: usize = 0;
                while j < self.pending[i].configures.len()
                    invariant
                        i < self.pending@.len(),
                        c0 == self.pending@[i as int].configures@,
                        j <= c0.len(),
                        forall|w: u32| #[trigger] seq_has_window(kept@, w)
                            == (seq_has_window(c0.take(j as int), w) && !targets_window(targets@, w)),
                    decreases c0.len() - j,
                {
                    let e = self.pending[i].configures[j];
                    let ghost kept0 = kept@;
                    if !targets_has(&targets, e.window) {
                        kept.push(e);
                    }
                    proof {
                        assert(c0.take(j + 1) =~= c0.take(j as int).push(e));
                        assert forall|w: u32| #[trigger] seq_has_window(kept@, w)
                            == (seq_has_window(c0.take(j + 1), w) && !targets_window(targets@, w)) by {
                            lemma_has_window_push(c0.take(j as int), e, w);
                            if kept@.len() > kept0.len() {
                                lemma_has_window_push(kept0, e, w);
                            }
                        }
                    }
                    j += 1;
                }
                self.pending[i].configures = kept;
                proof {
                    assert(c0.take(c0.len() as int) =~= c0);
                }
            }
            i += 1;
        }
        let mut configures: Vec<PendingConfigure> = Vec::new();
        let mut serials: Vec<u64> = Vec::new();
        let mut j: usize = 0;
        while j < targets.len()
            invariant
                j <= targets@.len(),
                self.next_serial + targets@.len() <= u64::MAX,
                serials@.len() == j,
                configures@.len() == j,
                forall|m: int| 0 <= m < j ==> #[trigger] serials@[m] == self.next_serial + m,
                forall|m: int| 0 <= m < j ==> #[trigger] configures@[m] == (PendingConfigure {
                    window: targets@[m].0,
                    serial: serials@[m],
                    target: targets@[m].1,
                    acked: false,
                }),
            decreases targets@.len() - j,
        {
            let serial = self.next_serial + j as u64;
            serials.push(serial);
            configures.push(PendingConfigure { window: targets[j].0, serial, target: targets[j].1, acked: false });
            j += 1;
        }
        self.next_serial = self.next_serial + targets.len() as u64;
        self.pending.push(Transaction { output, configures, deadline });
        proof {
            let n = s0.pending@.len() as int;
            let t = self.pending@[n];
            assert forall|w: u32| has_window(t, w) == targets_window(targets@, w) by {
                if has_window(t, w) {
                    let i = choose|i: int| 0 <= i < t.configures@.len() && (#[trigger] t.configures@[i]).window == w;
                    assert(targets@[i].0 == w);
                }
                if targets_window(targets@, w) {
                    let i = choose|i: int| 0 <= i < targets@.len() && (#[trigger] targets@[i]).0 == w;
                    assert(t.configures@[i].window == w);
                }
            }
            assert forall|a: int, b: int, w: u32|
                0 <= a < b < self.pending@.len() && self.pending@[a].output == self.pending@[b].output
                    && #[trigger] has_window(self.pending@[a], w) implies !#[trigger] has_window(self.pending@[b], w) by {
                if b < n {
                    assert(has_window(s0.pending@[a], w));
                    if has_window(self.pending@[b], w) {
                        assert(has_window(s0.pending@[b], w));
                    }
                }
            }
        }
        serials
    }
}

impl TransactionRegistry {
    /// Window `window` committed with acknowledged serial `serial`: its
    /// configures with that serial or an older one are satisfied.
    pub fn ack(&mut self, window: u32, serial: u64)
        requires
            old(self).wf(),
        ensures
            final(self).wf(),
            final(self).next_serial == old(self).next_serial,
            final(self).pending@.len() == old(self).pending@.len(),
            forall|a: int| 0 <= a < old(self).pending@.len() ==> {
                let t0 = old(self).pending@[a];
                let t1 = #[trigger] final(self).pending@[a];
                &&& t1.output == t0.output
                &&& t1.deadline == t0.deadline
                &&& t1.configures@.len() == t0.configures@.len()
                &&& forall|i: int| 0 <= i < t0.configures@.len() ==> #[trigger] t1.configures@[i] == (PendingConfigure {
                    acked: t0.configures@[i].acked || (t0.configures@[i].window == window && t0.configures@[i].serial <= serial),
                    ..t0.configures@[i]
                })
            },
    {
        let ghost s0 = *self;
        let mut a: usize = 0;
        while a < self.pending.len()
            invariant
                a <= self.pending@.len(),
                self.pending@.len() == s0.pending@.len(),
                self.next_serial == s0.next_serial,
                forall|b: int| 0 <= b < s0.pending@.len() ==> {
                    let t0 = s0.pending@[b];
                    let t1 = #[trigger] self.pending@[b];
                    &&& t1.output == t0.output
                    &&& t1.deadline == t0.deadline
                    &&& t1.configures@.len() == t0.configures@.len()
                    &&& forall|i: int| 0 <= i < t0.configures@.len() ==> #[trigger] t1.configures@[i] == if b < a {
                        PendingConfigure {
                            acked: t0.configures@[i].acked || (t0.configures@[i].window == window && t0.configures@[i].serial <= serial),
                            ..t0.configures@[i]
                        }
                    } else {
                        t0.configures@[i]
                    }
                },
            decreases s0.pending@.len() - a,
        {
            let mut i: usize = 0;
            let ghost c0 = self.pending@[a as int].configures@;
            let ghost mid = *self;
            while i < self.pending[a].configures.len()
                invariant
                    a < self.pending@.len(),
                    self.pending@.len() == s0.pending@.len(),
                    self.next_serial == s0.next_serial,
                    c0 == s0.pending@[a as int].configures@,
                    i <= c0.len(),
                    forall|b: int| 0 <= b < s0.pending@.len() && b != a ==> #[trigger] self.pending@[b] == mid.pending@[b],
                    mid.pending@.len() == s0.pending@.len(),
                    self.pending@[a as int].output == s0.pending@[a as int].output,
                    self.pending@[a as int].deadline == s0.pending@[a as int].deadline,
                    self.pending@[a as int].configures@.len() == c0.len(),
                    forall|m: int| 0 <= m < c0.len() ==> #[trigger] self.pending@[a as int].configures@[m] == if m < i {
                        PendingConfigure {
                            acked: c0[m].acked || (c0[m].window == window && c0[m].serial <= serial),
                            ..c0[m]
                        }
                    } else {
                        c0[m]
                    },
                decreases c0.len() - i,
            {
                if self.pending[a].configures[i].window == window && self.pending[a].configures[i].serial <= serial {
                    self.pending[a].configures[i].acked = true;
                }
                i += 1;
            }
            a += 1;
        }
        proof {
            assert forall|b: int, w: u32| 0 <= b < self.pending@.len() implies
                #[trigger] has_window(self.pending@[b], w) == has_window(s0.pending@[b], w) by {
                let c0 = s0.pending@[b].configures@;
                let c1 = self.pending@[b].configures@;
                if seq_has_window(c0, w) {
                    let i = choose|i: int| 0 <= i < c0.len() && (#[trigger] c0[i]).window == w;
                    assert(c1[i].window == w);
                }
                if seq_has_window(c1, w) {
                    let i = choose|i: int| 0 <= i < c1.len() && (#[trigger] c1[i]).window == w;
                    assert(c0[i].window == w);
                }
            }
        }
    }

    /// Takes out the oldest pending transaction when it is due: every window
    /// has acknowledged, or its deadline is reached. Its geometries are then
    /// to be applied together.
    pub fn take_ready(&mut self, now: u64) -> (r: Option<Transaction>)
        requires
            old(self).wf(),
        ensures
            final(self).wf(),
            final(self).next_serial == old(self).next_serial,
            match r {
                Some(t) => {
                    &&& old(self).pending@.len() > 0
                    &&& t == old(self).pending@[0]
                    &&& (all_acked(t) || t.deadline <= now)
                    &&& final(self).pending@ == old(self).pending@.subrange(1, old(self).pending@.len() as int)
                },
                None => {
                    &&& (old(self).pending@.len() == 0 || !(all_acked(old(self).pending@[0]) || old(self).pending@[0].deadline <= now))
                    &&& final(self).pending@ == old(self).pending@
                },
            },
    {
        if self.pending.len() == 0 {
            return None;
        }
        let mut due = self.pending[0].deadline <= now;
        if !due {
            let mut i: usize = 0;
            let n = self.pending[0].configures.len();
            due = true;
            while i < n
                invariant
                    self.pending@.len() > 0,
                    n == self.pending@[0].configures@.len(),
                    i <= n,
                    due == forall|m: int| 0 <= m < i ==> (#[trigger] self.pending@[0].configures@[m]).acked,
                decreases n - i,
            {
                if !self.pending[0].configures[i].acked {
                    due = false;
                }
                i += 1;
            }
        }
        if due {
            let ghost s0 = *self;
            let t = self.pending.remove(0);
            proof {
                assert forall|a: int, b: int, w: u32|
                    0 <= a < b < self.pending@.len() && self.pending@[a].output == self.pending@[b].output
                        && #[trigger] has_window(self.pending@[a], w) implies !#[trigger] has_window(self.pending@[b], w) by {
                    assert(self.pending@[a] == s0.pending@[a + 1]);
                    assert(self.pending@[b] == s0.pending@[b + 1]);
                }
            }
            Some(t)
        } else {
            None
        }
    }
}

/// Once a transaction is taken out to be applied, no transaction still
/// pending on the same output configures any of its windows: the older
/// configures it superseded are gone.
pub proof fn lemma_applied_has_no_rivals(s0: TransactionRegistry, s1: TransactionRegistry, t: Transaction, w: u32)
    requires
        s0.wf(),
        s0.pending@.len() > 0,
        t == s0.pending@[0],
        s1.pending@ == s0.pending@.subrange(1, s0.pending@.len() as int),
        has_window(t, w),
    ensures
        forall|a: int| 0 <= a < s1.pending@.len() && (#[trigger] s1.pending@[a]).output == t.output
            ==> !has_window(s1.pending@[a], w),
{
    assert forall|a: int| 0 <= a < s1.pending@.len() && (#[trigger] s1.pending@[a]).output == t.output
        implies !has_window(s1.pending@[a], w) by {
        assert(s1.pending@[a] == s0.pending@[a + 1]);
    }
}

impl Pinnacle {
    /// Applies a transaction to the scene: every mapped window it configures
    /// takes its target geometry; the rest of the state is unchanged.
    pub fn apply_transaction(&mut self, t: &Transaction)
        requires
            old(self).wf(),
        ensures
            final(self).wf(),
            final(self).windows@.len() == old(self).windows@.len(),
            forall|k: int| 0 <= k < old(self).windows@.len() ==> {
                let w0 = old(self).windows@[k];
                let w1 = #[trigger] final(self).windows@[k];
                &&& w1.id == w0.id
                &&& w1.tags == w0.tags
                &&& w1.layout_mode == w0.layout_mode
                &&& (seq_has_window(t.configures@, w0.id) ==> exists|i: int| 0 <= i < t.configures@.len()
                    && (#[trigger] t.configures@[i]).window == w0.id && w1.geometry == Some(t.configures@[i].target))
                &&& (!seq_has_window(t.configures@, w0.id) ==> w1 == w0)
            },
            final(self).outputs == old(self).outputs,
            final(self).tags == old(self).tags,
            final(self).unmapped_windows == old(self).unmapped_windows,
            final(self).keyboard_focus_stack == old(self).keyboard_focus_stack,
            final(self).next_tag_id == old(self).next_tag_id,
    {
        let ghost s0 = *self;
        let mut i: usize = 0;
        while i < t.configures.len()
            invariant
                i <= t.configures@.len(),
                s0.wf(),
                self.windows@.len() == s0.windows@.len(),
                self.outputs == s0.outputs,
                self.tags == s0.tags,
                self.unmapped_windows == s0.unmapped_windows,
                self.keyboard_focus_stack == s0.keyboard_focus_stack,
                self.next_tag_id == s0.next_tag_id,
                self.connector_saved_states == s0.connector_saved_states,
                forall|k: int| 0 <= k < s0.windows@.len() ==> {
                    let w0 = s0.windows@[k];
                    let w1 = #[trigger] self.windows@[k];
                    &&& w1.id == w0.id
                    &&& w1.tags == w0.tags
                    &&& w1.layout_mode == w0.layout_mode
                    &&& (seq_has_window(t.configures@.take(i as int), w0.id) ==> exists|m: int| 0 <= m < t.configures@.len()
                        && (#[trigger] t.configures@[m]).window == w0.id && w1.geometry == Some(t.configures@[m].target))
                    &&& (!seq_has_window(t.configures@.take(i as int), w0.id) ==> w1 == w0)
                },
            decreases t.configures@.len() - i,
        {
            let c = t.configures[i];
            proof {
                assert(t.configures@.take(i + 1) =~= t.configures@.take(i as int).push(c));
                assert forall|w: u32| seq_has_window(t.configures@.take(i + 1), w)
                    == (seq_has_window(t.configures@.take(i as int), w) || c.window == w) by {
                    lemma_has_window_push(t.configures@.take(i as int), c, w);
                }
            }
            match self.window_index(c.window) {
                Some(k) => {
                    self.windows[k].geometry = Some(c.target);
                    proof {
                        assert forall|k2: int| 0 <= k2 < s0.windows@.len() && k2 != k
                            implies (#[trigger] self.windows@[k2]).id != c.window by {
                            let all = ids_of_windows(self.windows@) + crate::state::ids_of_unmapped(self.unmapped_windows@);
                            let all0 = ids_of_windows(s0.windows@) + crate::state::ids_of_unmapped(s0.unmapped_windows@);
                            assert(all0[k2] == s0.windows@[k2].id);
                            assert(all0[k as int] == s0.windows@[k as int].id);
                        }
                        assert(t.configures@[i as int].window == c.window);
                    }
                },
                None => {
                    proof {
                        assert forall|k2: int| 0 <= k2 < s0.windows@.len()
                            implies (#[trigger] self.windows@[k2]).id != c.window by {
                            assert(ids_of_windows(self.windows@)[k2] == self.windows@[k2].id);
                        }
                    }
                },
            }
            i += 1;
        }
        proof {
            assert(t.configures@.take(t.configures@.len() as int) =~= t.configures@);
            assert(ids_of_windows(self.windows@) =~= ids_of_windows(s0.windows@));
            crate::state::lemma_wf_frame(s0, *self);
        }
    }
}

/// A configure list with one more entry configures one more window.
proof fn lemma_has_window_push(cs: Seq<PendingConfigure>, e: PendingConfigure, w: u32)
    ensures
        seq_has_window(cs.push(e), w) == (seq_has_window(cs, w) || e.window == w),
{
    if seq_has_window(cs, w) {
        let i = choose|i: int| 0 <= i < cs.len() && (#[trigger] cs[i]).window == w;
        assert(cs.push(e)[i].window == w);
    }
    if e.window == w {
        assert(cs.push(e)[cs.len() as int].window == w);
    }
    if seq_has_window(cs.push(e), w) && e.window != w {
        let i = choose|i: int| 0 <= i < cs.len() + 1 && (#[trigger] cs.push(e)[i]).window == w;
        assert(cs[i].window == w);
    }
}

/// Whether the window `w` is among `targets`.
fn targets_has(targets: &Vec<(u32, Rect)>, w: u32) -> (r: bool)
    ensures
        r == targets_window(targets@, w),
{
    let mut i: usize = 0;
    while i < targets.len()
        invariant
            i <= targets@.len(),
            forall|j: int| 0 <= j < i ==> (#[trigger] targets@[j]).0 != w,
        decreases targets@.len() - i,
    {
        if targets[i].0 == w {
            return true;
        }
        i += 1;
    }
    false
}

} // verus!
