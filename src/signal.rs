//! Window signals: per-kind subscriber lists, called in registration order.
use vstd::prelude::*;

verus! {

/// The kinds of window signal.
#[derive(Clone, Copy, Debug, PartialEq, Eq, Structural)]
pub enum WindowSignalKind {
    PointerEnter,
    PointerLeave,
    Focused,
    TitleChanged,
}

/// A subscription to a window signal, naming the callback to call.
#[derive(Clone, Copy, Debug, PartialEq, Eq, Structural)]
pub enum WindowSignal {
    PointerEnter(u32),
    PointerLeave(u32),
    Focused(u32),
    TitleChanged(u32),
}

/// A handle to one subscription.
#[derive(Clone, Copy, Debug, PartialEq, Eq, Structural)]
pub struct SignalHandle {
    pub kind: WindowSignalKind,
    pub callback: u32,
}

/// The subscribers of each window signal, in registration order.
pub struct SignalState {
    pub window_pointer_enter: Vec<u32>,
    pub window_pointer_leave: Vec<u32>,
    pub window_focused: Vec<u32>,
    pub window_title_changed: Vec<u32>,
}

impl WindowSignal {
    /// The kind of this signal.
    pub open spec fn kind(&self) -> WindowSignalKind {
        match self {
            WindowSignal::PointerEnter(_) => WindowSignalKind::PointerEnter,
            WindowSignal::PointerLeave(_) => WindowSignalKind::PointerLeave,
            WindowSignal::Focused(_) => WindowSignalKind::Focused,
            WindowSignal::TitleChanged(_) => WindowSignalKind::TitleChanged,
        }
    }

    /// The callback it names.
    pub open spec fn callback(&self) -> u32 {
        match self {
            WindowSignal::PointerEnter(c) => *c,
            WindowSignal::PointerLeave(c) => *c,
            WindowSignal::Focused(c) => *c,
            WindowSignal::TitleChanged(c) => *c,
        }
    }
}

impl SignalState {
    /// The subscribers of signal `kind`.
    pub open spec fn list(&self, kind: WindowSignalKind) -> Seq<u32> {
        match kind {
            WindowSignalKind::PointerEnter => self.window_pointer_enter@,
            WindowSignalKind::PointerLeave => self.window_pointer_leave@,
            WindowSignalKind::Focused => self.window_focused@,
            WindowSignalKind::TitleChanged => self.window_title_changed@,
        }
    }

    /// No subscribers.
    pub fn new() -> (r: Self)
        ensures
            forall|k: WindowSignalKind| #[trigger] r.list(k).len() == 0,
    {
        SignalState {
            window_pointer_enter: Vec::new(),
            window_pointer_leave: Vec::new(),
            window_focused: Vec::new(),
            window_title_changed: Vec::new(),
        }
    }

    /// Drops every subscription.
    pub fn clear(&mut self)
        ensures
            forall|k: WindowSignalKind| #[trigger] final(self).list(k).len() == 0,
    {
        self.window_pointer_enter = Vec::new();
        self.window_pointer_leave = Vec::new();
        self.window_focused = Vec::new();
        self.window_title_changed = Vec::new();
    }

    /// The callbacks to call for signal `kind`, in registration order.
    pub fn subscribers(&self, kind: WindowSignalKind) -> (r: &Vec<u32>)
        ensures
            r@ == self.list(kind),
    {
        match kind {
            WindowSignalKind::PointerEnter => &self.window_pointer_enter,
            WindowSignalKind::PointerLeave => &self.window_pointer_leave,
            WindowSignalKind::Focused => &self.window_focused,
            WindowSignalKind::TitleChanged => &self.window_title_changed,
        }
    }
}

/// Subscribes to a window signal: its callback joins the end of that
/// signal's list, and the other lists stay as they were.
pub fn connect_signal(state: &mut SignalState, signal: WindowSignal) -> (r: SignalHandle)
    ensures
        r.kind == signal.kind(),
        r.callback == signal.callback(),
        final(state).list(signal.kind()) == old(state).list(signal.kind()).push(signal.callback()),
        forall|k: WindowSignalKind| k != signal.kind() ==> #[trigger] final(state).list(k) == old(state).list(k),
{
    match signal {
        WindowSignal::PointerEnter(c) => {
            state.window_pointer_enter.push(c);
            SignalHandle { kind: WindowSignalKind::PointerEnter, callback: c }
        },
        WindowSignal::PointerLeave(c) => {
            state.window_pointer_leave.push(c);
            SignalHandle { kind: WindowSignalKind::PointerLeave, callback: c }
        },
        WindowSignal::Focused(c) => {
            state.window_focused.push(c);
            SignalHandle { kind: WindowSignalKind::Focused, callback: c }
        },
        WindowSignal::TitleChanged(c) => {
            state.window_title_changed.push(c);
            SignalHandle { kind: WindowSignalKind::TitleChanged, callback: c }
        },
    }
}

} // verus!
