//! Output power management: at most one power controller per output.
use vstd::prelude::*;

verus! {

/// An output's power mode.
#[derive(Clone, Copy, Debug, PartialEq, Eq, Structural)]
pub enum PowerMode {
    Off,
    On,
}

/// A power controller: the output it controls and its id.
pub struct OutputPower {
    pub output: String,
    pub controller: u32,
}

/// An event for a power controller.
#[derive(Clone, Copy, Debug, PartialEq, Eq, Structural)]
pub enum PowerEvent {
    /// The output's current mode.
    Mode(u32, PowerMode),
    /// The controller is no longer valid.
    Failed(u32),
    /// A protocol error: the requested mode is not a mode.
    InvalidMode(u32),
}

/// The result of a set-mode request.
pub enum SetModeOutcome {
    /// Power the named output on (`true`) or off.
    Apply(String, bool),
    /// Tell the controller.
    Event(PowerEvent),
}

/// The power controllers, one per output at most.
pub struct OutputPowerManagementState {
    pub clients: Vec<OutputPower>,
}

/// The mode for a powered flag.
pub open spec fn mode_of(powered: bool) -> PowerMode {
    if powered {
        PowerMode::On
    } else {
        PowerMode::Off
    }
}

/// The names of the controlled outputs.
pub open spec fn controlled(cs: Seq<OutputPower>) -> Seq<Seq<char>> {
    cs.map_values(|p: OutputPower| p.output@)
}

impl OutputPowerManagementState {
    /// No output has two controllers.
    pub open spec fn wf(&self) -> bool {
        controlled(self.clients@).no_duplicates()
    }

    /// No controllers.
    pub fn new() -> (r: Self)
        ensures
            r.wf(),
            r.clients@.len() == 0,
    {
        OutputPowerManagementState { clients: Vec::new() }
    }

    /// The index of the controller of output `output`.
    fn find_output(&self, output: &String) -> (r: Option<usize>)
        ensures
            match r {
                Some(i) => i < self.clients@.len() && self.clients@[i as int].output@ == output@,
                None => !controlled(self.clients@).contains(output@),
            },
    {
        let mut i: usize = 0;
        while i < self.clients.len()
            invariant
                i <= self.clients@.len(),
                forall|j: int| 0 <= j < i ==> (#[trigger] self.clients@[j]).output@ != output@,
            decreases self.clients@.len() - i,
        {
            if self.clients[i].output == *output {
                return Some(i);
            }
            i += 1;
        }
        proof {
            if controlled(self.clients@).contains(output@) {
                let j = choose|j: int| 0 <= j < controlled(self.clients@).len() && controlled(self.clients@)[j] == output@;
                assert(self.clients@[j].output@ == output@);
            }
        }
        None
    }

    /// A client asks for a controller of `output` (`None` when its wl_output
    /// names no output; `powered` is that output's flag). A second controller
    /// of the same output, like one for no output, fails; otherwise it is
    /// recorded and told the current mode.
    pub fn get_output_power(&mut self, controller: u32, output: Option<String>, powered: bool) -> (r: PowerEvent)
        requires
            old(self).wf(),
        ensures
            final(self).wf(),
            match output {
                None => r == PowerEvent::Failed(controller) && *final(self) == *old(self),
                Some(name) => if controlled(old(self).clients@).contains(name@) {
                    r == PowerEvent::Failed(controller) && *final(self) == *old(self)
                } else {
                    &&& r == PowerEvent::Mode(controller, mode_of(powered))
                    &&& controlled(final(self).clients@) == controlled(old(self).clients@).push(name@)
                    &&& final(self).clients@.last().controller == controller
                    &&& final(self).clients@.drop_last() == old(self).clients@
                },
            },
    {
        let name = match output {
            Some(n) => n,
            None => return PowerEvent::Failed(controller),
        };
        if self.find_output(&name).is_some() {
            proof {
                let i = choose|i: int| 0 <= i < self.clients@.len() && self.clients@[i].output@ == name@;
                assert(controlled(self.clients@)[i] == name@);
            }
            return PowerEvent::Failed(controller);
        }
        let ghost s0 = *self;
        self.clients.push(OutputPower { output: name, controller });
        proof {
            assert(controlled(self.clients@) =~= controlled(s0.clients@).push(name@));
            crate::output_power::lemma_push_distinct(controlled(s0.clients@), name@);
            assert(self.clients@.drop_last() =~= s0.clients@);
        }
        PowerEvent::Mode(controller, if powered { PowerMode::On } else { PowerMode::Off })
    }

    /// Controller `controller` asks for mode `mode` (0 off, 1 on). An unknown
    /// controller fails; a value that is no mode is a protocol error;
    /// otherwise its output is to be powered accordingly.
    pub fn set_mode(&self, controller: u32, mode: u32) -> (r: SetModeOutcome)
        ensures
            match r {
                SetModeOutcome::Event(PowerEvent::Failed(c)) => c == controller
                    && forall|i: int| 0 <= i < self.clients@.len() ==> (#[trigger] self.clients@[i]).controller != controller,
                SetModeOutcome::Event(PowerEvent::InvalidMode(c)) => c == controller && mode > 1
                    && exists|i: int| 0 <= i < self.clients@.len() && (#[trigger] self.clients@[i]).controller == controller,
                SetModeOutcome::Event(PowerEvent::Mode(_, _)) => false,
                SetModeOutcome::Apply(name, on) => mode <= 1 && on == (mode == 1)
                    && exists|i: int| 0 <= i < self.clients@.len() && (#[trigger] self.clients@[i]).controller == controller
                        && self.clients@[i].output@ == name@,
            },
    {
        let mut i: usize = 0;
        while i < self.clients.len()
            invariant
                i <= self.clients@.len(),
                forall|j: int| 0 <= j < i ==> (#[trigger] self.clients@[j]).controller != controller,
            decreases self.clients@.len() - i,
        {
            if self.clients[i].controller == controller {
                if mode > 1 {
                    return SetModeOutcome::Event(PowerEvent::InvalidMode(controller));
                }
                return SetModeOutcome::Apply(self.clients[i].output.clone(), mode == 1);
            }
            i += 1;
        }
        SetModeOutcome::Event(PowerEvent::Failed(controller))
    }

    /// Output `output` was powered on or off: its controller learns the mode.
    pub fn mode_set(&self, output: &String, powered: bool) -> (r: Vec<PowerEvent>)
        requires
            self.wf(),
        ensures
            r@.len() == 0 <==> !controlled(self.clients@).contains(output@),
            r@.len() > 0 ==> r@.len() == 1 && exists|i: int| 0 <= i < self.clients@.len()
                && self.clients@[i].output@ == output@
                && r@[0] == PowerEvent::Mode(self.clients@[i].controller, mode_of(powered)),
    {
        let mut r: Vec<PowerEvent> = Vec::new();
        if let Some(i) = self.find_output(output) {
            r.push(PowerEvent::Mode(self.clients[i].controller, if powered { PowerMode::On } else { PowerMode::Off }));
            proof {
                assert(controlled(self.clients@)[i as int] == output@);
            }
        }
        r
    }

    /// Output `output` is gone: its controller is released, without events.
    pub fn output_removed(&mut self, output: &String)
        requires
            old(self).wf(),
        ensures
            final(self).wf(),
            !controlled(final(self).clients@).contains(output@),
            forall|n: Seq<char>| n != output@ ==> #[trigger] controlled(final(self).clients@).contains(n)
                == controlled(old(self).clients@).contains(n),
            controlled(old(self).clients@).contains(output@) ==> exists|i: int| 0 <= i < old(self).clients@.len()
                && old(self).clients@[i].output@ == output@ && final(self).clients@ == old(self).clients@.remove(i),
            !controlled(old(self).clients@).contains(output@) ==> final(self).clients@ == old(self).clients@,
    {
        let ghost s0 = *self;
        match self.find_output(output) {
            Some(i) => {
                self.clients.remove(i);
                proof {
                    lemma_remove_unique(controlled(s0.clients@), i as int);
                    assert(controlled(self.clients@) =~= controlled(s0.clients@).remove(i as int));
                    lemma_remove_keeps_others(controlled(s0.clients@), i as int);
                }
            },
            None => {},
        }
    }

    /// Controller `controller` was destroyed: it is released, without events.
    pub fn destroyed(&mut self, controller: u32)
        requires
            old(self).wf(),
        ensures
            final(self).wf(),
            forall|i: int| 0 <= i < final(self).clients@.len() ==> (#[trigger] final(self).clients@[i]).controller != controller,
    {
        let mut i: usize = 0;
        while i < self.clients.len()
            invariant
                i <= self.clients@.len(),
                controlled(self.clients@).no_duplicates(),
                forall|j: int| 0 <= j < i ==> (#[trigger] self.clients@[j]).controller != controller,
            decreases self.clients@.len() - i,
        {
            if self.clients[i].controller == controller {
                let ghost before = self.clients@;
                self.clients.remove(i);
                proof {
                    lemma_remove_unique(controlled(before), i as int);
                    assert(controlled(self.clients@) =~= controlled(before).remove(i as int));
                }
            } else {
                i += 1;
            }
        }
    }
}

/// Pushing an absent element keeps a sequence free of repeats.
pub proof fn lemma_push_distinct(s: Seq<Seq<char>>, x: Seq<char>)
    requires
        s.no_duplicates(),
        !s.contains(x),
    ensures
        s.push(x).no_duplicates(),
{
    let f = s.push(x);
    assert forall|i: int, j: int| 0 <= i < f.len() && 0 <= j < f.len() && i != j implies f[i] != f[j] by {
        if i == s.len() {
            assert(f[j] == s[j]);
        } else if j == s.len() {
            assert(f[i] == s[i]);
        }
    }
}

/// Removing the element at `i` of a sequence without repeats removes it
/// entirely and keeps the sequence free of repeats.
pub proof fn lemma_remove_unique(s: Seq<Seq<char>>, i: int)
    requires
        s.no_duplicates(),
        0 <= i < s.len(),
    ensures
        s.remove(i).no_duplicates(),
        !s.remove(i).contains(s[i]),
{
    let r = s.remove(i);
    assert forall|a: int, b: int| 0 <= a < r.len() && 0 <= b < r.len() && a != b implies r[a] != r[b] by {
        let pa = if a < i { a } else { a + 1 };
        let pb = if b < i { b } else { b + 1 };
        assert(r[a] == s[pa] && r[b] == s[pb]);
    }
    if r.contains(s[i]) {
        let a = choose|a: int| 0 <= a < r.len() && r[a] == s[i];
        let pa = if a < i { a } else { a + 1 };
        assert(r[a] == s[pa]);
    }
}

/// Removing the element at `i` keeps every other value.
proof fn lemma_remove_keeps_others(s: Seq<Seq<char>>, i: int)
    requires
        0 <= i < s.len(),
    ensures
        forall|n: Seq<char>| n != s[i] ==> #[trigger] s.remove(i).contains(n) == s.contains(n),
{
    let r = s.remove(i);
    assert forall|n: Seq<char>| n != s[i] implies #[trigger] r.contains(n) == s.contains(n) by {
        if s.contains(n) {
            let a = choose|a: int| 0 <= a < s.len() && s[a] == n;
            if a < i {
                assert(r[a] == n);
            } else {
                assert(a != i);
                assert(r[a - 1] == n);
            }
        }
        if r.contains(n) {
            let a = choose|a: int| 0 <= a < r.len() && r[a] == n;
            let pa = if a < i { a } else { a + 1 };
            assert(s[pa] == n);
        }
    }
}

} // verus!
