//! Which calls are made when sockets and other files are ready.
//!
//! The loop waits for no event itself. It says what is to be done, and hears what came of it.

use vstd::prelude::*;

verus! {

/// What a call that handles an event answers.
#[derive(Debug, PartialEq, Eq)]
pub enum EventLoopFlow<T> {
    /// The loop ends with a result.
    Return(T),
    /// The loop goes on, but finds out anew what is to be waited for.
    RefreshFDs,
    /// The loop goes on.
    Continue,
}

/// What is to be waited for, or what has happened.
#[derive(Debug, PartialEq, Eq, Clone, Copy, Structural)]
pub struct Flags {
    /// There is input.
    pub input: bool,
    /// There is room for output.
    pub output: bool,
    /// Only changes are reported.
    pub edge: bool,
    /// All other bits.
    pub rest: u32,
}

/// The bit that says that the other end has hung up.
pub const HUNG_UP: u32 = 0x10;

/// Something has happened to the file with an index.
#[derive(Debug, PartialEq, Eq, Clone, Copy, Structural)]
pub struct Event {
    pub index: usize,
    pub flags: Flags,
}

/// A call that handles an event.
#[derive(Debug, PartialEq, Eq, Clone, Copy, Structural)]
pub enum Call {
    Input(usize),
    Output(usize),
    Error(usize, Flags),
}

impl Flags {
    /// What is neither input nor output.
    pub open spec fn errors(self) -> Flags {
        Flags { input: false, output: false, ..self }
    }

    /// Whether nothing has happened.
    pub open spec fn none(self) -> bool {
        !self.input && !self.output && !self.edge && self.rest == 0
    }

    /// Whether the other end has hung up, and nothing else has happened.
    pub fn is_normal_hang_up(&self) -> (r: bool)
        ensures
            r == (*self == (Flags { input: false, output: false, edge: false, rest: HUNG_UP })),
    {
        !self.input && !self.output && !self.edge && self.rest == HUNG_UP
    }
}

/// The files, among the first `n`, for whose input only changes are reported. What was there before
/// the first change has to be asked for.
pub open spec fn edge_inputs(flags: Seq<Flags>, n: nat) -> Seq<Call>
    decreases n,
{
    if n == 0 {
        Seq::empty()
    } else {
        let before = edge_inputs(flags, (n - 1) as nat);
        let f = flags[n - 1];
        if f.input && f.edge {
            before.push(Call::Input((n - 1) as usize))
        } else {
            before
        }
    }
}

/// The calls that handle an event: output first, as it is fast and waits for nothing, then input, then
/// whatever else has happened.
pub open spec fn calls_for(event: Event) -> Seq<Call> {
    let out = if event.flags.output {
        seq![Call::Output(event.index)]
    } else {
        Seq::empty()
    };
    let input = if event.flags.input {
        seq![Call::Input(event.index)]
    } else {
        Seq::empty()
    };
    let error = if !event.flags.errors().none() {
        seq![Call::Error(event.index, event.flags.errors())]
    } else {
        Seq::empty()
    };
    out + input + error
}

/// The calls that handle the first `n` of some events.
pub open spec fn calls(events: Seq<Event>, n: nat) -> Seq<Call>
    decreases n,
{
    if n == 0 {
        Seq::empty()
    } else {
        calls(events, (n - 1) as nat) + calls_for(events[n - 1])
    }
}

/// What the caller is to do next.
#[derive(Debug, PartialEq, Eq, Clone, Copy, Structural)]
pub enum LoopStep {
    /// Make this call, and say what it answered.
    Call(Call),
    /// Find out anew what is to be waited for.
    Restart,
    /// Wait for events.
    Wait,
}

/// How a wait for events has ended.
#[derive(Debug, PartialEq, Eq, Clone, Copy, Structural)]
pub enum Waited {
    /// There are events.
    Done,
    /// A signal has come in between.
    Interrupted,
    /// Something else is wrong.
    Failed,
}

/// What the caller is to do when a wait has ended.
#[derive(Debug, PartialEq, Eq, Clone, Copy, Structural)]
pub enum AfterWait {
    /// Hand over the events.
    Handle,
    /// Wait again.
    Again,
    /// Give up, with the error of the wait.
    Fail,
}

/// Says what is to be done when a wait has ended. Signals end nothing: they are events themselves
/// where they matter.
pub fn after_wait(waited: Waited) -> (r: AfterWait)
    ensures
        r == match waited {
            Waited::Done => AfterWait::Handle,
            Waited::Interrupted => AfterWait::Again,
            Waited::Failed => AfterWait::Fail,
        },
{
    match waited {
        Waited::Done => AfterWait::Handle,
        Waited::Interrupted => AfterWait::Again,
        Waited::Failed => AfterWait::Fail,
    }
}

/// The calls that are to be made, and whether it is to be found out anew what is to be waited for
/// when they have been made.
#[derive(Debug)]
pub struct EventLoop {
    calls: Vec<Call>,
    next: usize,
    restart: bool,
}

/// The contents of an [`EventLoop`].
#[verifier::ext_equal]
pub struct EventLoopV {
    /// The calls that have not been made.
    pub left: Seq<Call>,
    pub restart: bool,
}

impl View for EventLoop {
    type V = EventLoopV;

    closed spec fn view(&self) -> EventLoopV {
        EventLoopV { left: self.calls@.skip(self.next as int), restart: self.restart }
    }
}

impl EventLoopV {
    /// What the caller is to do next.
    pub open spec fn step(self) -> LoopStep {
        if self.left.len() > 0 {
            LoopStep::Call(self.left[0])
        } else if self.restart {
            LoopStep::Restart
        } else {
            LoopStep::Wait
        }
    }
}

impl EventLoop {
    /// Whether no more calls have been made than there are.
    pub closed spec fn wf(self) -> bool {
        self.next <= self.calls@.len()
    }

    /// Begins, with what is to be waited for.
    pub fn new(flags: &Vec<Flags>) -> (r: EventLoop)
        ensures
            r.wf(),
            r@ == (EventLoopV { left: edge_inputs(flags@, flags@.len()), restart: false }),
    {
        let mut calls: Vec<Call> = Vec::new();
        let n: usize = flags.len();
        let mut i: usize = 0;
        while i < n
            invariant
                i <= n,
                n == flags@.len(),
                calls@ == edge_inputs(flags@, i as nat),
            decreases n - i,
        {
            let f: Flags = flags[i];
            if f.input && f.edge {
                calls.push(Call::Input(i));
            }
            i = i + 1;
        }
        let r = EventLoop { calls, next: 0, restart: false };
        assert(r.calls@.skip(0) =~= r.calls@);
        r
    }

    /// Says what is to be done next.
    pub fn step(&self) -> (r: LoopStep)
        requires
            self.wf(),
        ensures
            r == self@.step(),
    {
        if self.next < self.calls.len() {
            LoopStep::Call(self.calls[self.next])
        } else if self.restart {
            LoopStep::Restart
        } else {
            LoopStep::Wait
        }
    }

    /// Hears what the next call answered. If the loop ends, its result is handed back.
    pub fn answered<T>(&mut self, flow: EventLoopFlow<T>) -> (r: Option<T>)
        requires
            old(self).wf(),
            old(self)@.left.len() > 0,
        ensures
            final(self).wf(),
            final(self)@ == (EventLoopV {
                left: old(self)@.left.skip(1),
                restart: old(self)@.restart || flow is RefreshFDs,
            }),
            r == match flow {
                EventLoopFlow::Return(x) => Some(x),
                _ => None,
            },
    {
        let ghost before = self@.left;
        let total: usize = self.calls.len();
        assert(self.next < total);
        self.next = self.next + 1;
        assert(self@.left =~= before.skip(1));
        match flow {
            EventLoopFlow::Return(x) => Some(x),
            EventLoopFlow::RefreshFDs => {
                self.restart = true;
                None
            },
            EventLoopFlow::Continue => None,
        }
    }

    /// Hears of events. There is one at least, as a wait has no other end.
    pub fn woken(&mut self, events: &Vec<Event>)
        requires
            old(self).wf(),
            old(self)@.step() is Wait,
            events@.len() > 0,
        ensures
            final(self).wf(),
            final(self)@ == (EventLoopV { left: calls(events@, events@.len()), restart: false }),
    {
        let mut made: Vec<Call> = Vec::new();
        let n: usize = events.len();
        let mut i: usize = 0;
        while i < n
            invariant
                i <= n,
                n == events@.len(),
                made@ == calls(events@, i as nat),
            decreases n - i,
        {
            let ghost before = made@;
            let event: Event = events[i];
            let f: Flags = event.flags;
            if f.output {
                made.push(Call::Output(event.index));
            }
            if f.input {
                made.push(Call::Input(event.index));
            }
            let errors = Flags { input: false, output: false, edge: f.edge, rest: f.rest };
            if f.edge || f.rest != 0 {
                made.push(Call::Error(event.index, errors));
            }
            assert(made@ =~= before + calls_for(event));
            i = i + 1;
        }
        self.calls = made;
        self.next = 0;
        assert(self.calls@.skip(0) =~= self.calls@);
    }
}

proof fn lemma_calls_extend(events: Seq<Event>, i: int, n: nat)
    requires
        0 <= i < n <= events.len(),
    ensures
        calls(events, n).len() >= calls(events, i as nat).len() + calls_for(events[i]).len(),
        forall|k: int|
            0 <= k < calls_for(events[i]).len() ==> calls(events, n)[calls(
                events,
                i as nat,
            ).len() + k] == #[trigger] calls_for(events[i])[k],
    decreases n,
{
    if i < n - 1 {
        lemma_calls_extend(events, i, (n - 1) as nat);
    }
}

/// Nothing that happens is passed over: all calls that handle an event are made, one right behind the
/// other.
pub proof fn law_every_event_is_handled(events: Seq<Event>, i: int)
    requires
        0 <= i < events.len(),
    ensures
        exists|at: int|
            #![trigger calls(events, events.len()).subrange(at, at + calls_for(events[i]).len())]
            0 <= at && at + calls_for(events[i]).len() <= calls(events, events.len()).len()
                && calls(events, events.len()).subrange(at, at + calls_for(events[i]).len())
                == calls_for(events[i]),
{
    let all = calls(events, events.len());
    let own = calls_for(events[i]);
    let at = calls(events, i as nat).len() as int;
    lemma_calls_extend(events, i, events.len());
    assert(all.subrange(at, at + own.len()) =~= own) by {
        assert forall|k: int| 0 <= k < own.len() implies all.subrange(at, at + own.len())[k]
            == own[k] by {
            assert(own[k] == calls_for(events[i])[k]);
        }
    }
}

/// Where there is room for output, that is handled before anything else of the same event.
pub proof fn law_output_comes_first(event: Event)
    requires
        event.flags.output,
    ensures
        calls_for(event).len() > 0,
        calls_for(event)[0] == Call::Output(event.index),
{
}

/// What was there before the first change is asked for of exactly the files for whose input only
/// changes are reported.
pub proof fn law_edge_inputs(flags: Seq<Flags>, n: nat, i: usize)
    requires
        n <= flags.len() <= usize::MAX,
    ensures
        edge_inputs(flags, n).contains(Call::Input(i)) <==> i < n && flags[i as int].input
            && flags[i as int].edge,
    decreases n,
{
    if n > 0 {
        law_edge_inputs(flags, (n - 1) as nat, i);
        let before = edge_inputs(flags, (n - 1) as nat);
        let all = edge_inputs(flags, n);
        let f = flags[n - 1];
        if f.input && f.edge {
            let last = Call::Input((n - 1) as usize);
            if before.contains(Call::Input(i)) {
                let k = choose|k: int| 0 <= k < before.len() && before[k] == Call::Input(i);
                assert(all[k] == Call::Input(i));
            }
            assert(all[all.len() - 1] == last);
            if all.contains(Call::Input(i)) && i != n - 1 {
                let k = choose|k: int| 0 <= k < all.len() && all[k] == Call::Input(i);
                assert(before[k] == Call::Input(i));
            }
        }
    }
}

/// An event is handled by exactly the calls that it asks for: for output, for input, and for what is
/// neither, without saying again that there is input or room for output.
pub proof fn law_events_are_handled_by_what_happened(event: Event, call: Call)
    ensures
        calls_for(event).contains(call) <==> match call {
            Call::Output(i) => i == event.index && event.flags.output,
            Call::Input(i) => i == event.index && event.flags.input,
            Call::Error(i, flags) => {
                &&& i == event.index
                &&& !flags.input
                &&& !flags.output
                &&& flags.edge == event.flags.edge
                &&& flags.rest == event.flags.rest
                &&& flags.edge || flags.rest != 0
            },
        },
        calls_for(event).no_duplicates(),
        event.flags.output && event.flags.input ==> calls_for(event)[0] == Call::Output(event.index)
            && calls_for(event)[1] == Call::Input(event.index),
        event.flags.edge || event.flags.rest != 0 ==> calls_for(event).last() is Error,
{
    let all = calls_for(event);
    let o = event.flags.output;
    let i = event.flags.input;
    if o {
        assert(all[0] == Call::Output(event.index));
    }
    if i {
        assert(all[if o {
            1
        } else {
            0
        }] == Call::Input(event.index));
    }
    if !event.flags.errors().none() {
        assert(all[all.len() - 1] == Call::Error(event.index, event.flags.errors()));
    }
}

/// Events are handled in the order in which they are handed over.
pub proof fn law_events_are_handled_in_order(first: Seq<Event>, rest: Seq<Event>, n: nat)
    requires
        n <= rest.len(),
    ensures
        calls(first + rest, first.len() + n) == calls(first, first.len()) + calls(rest, n),
        rest.len() == 1 ==> calls(rest, 1) == calls_for(rest[0]),
    decreases n,
{
    reveal_with_fuel(calls, 2);
    assert(rest.len() == 1 ==> calls(rest, 1) =~= calls_for(rest[0]));
    if n == 0 {
        lemma_calls_of_first(first, rest, first.len());
        assert(calls(first, first.len()) + calls(rest, 0) =~= calls(first, first.len()));
    } else {
        law_events_are_handled_in_order(first, rest, (n - 1) as nat);
        assert((first + rest)[first.len() + n - 1] == rest[n - 1]);
        assert(calls(first + rest, first.len() + n) =~= calls(first, first.len()) + calls(rest, n));
    }
}

proof fn lemma_calls_of_first(first: Seq<Event>, rest: Seq<Event>, n: nat)
    requires
        n <= first.len(),
    ensures
        calls(first + rest, n) == calls(first, n),
    decreases n,
{
    if n > 0 {
        lemma_calls_of_first(first, rest, (n - 1) as nat);
        assert((first + rest)[n - 1] == first[n - 1]);
    }
}

/// As long as calls are left, the next one is made. Only then is it found out anew what is to be
/// waited for, where that is asked for, and only where it is not are events waited for.
pub proof fn law_calls_come_before_waiting(v: EventLoopV, call: Call)
    ensures
        v.step() == LoopStep::Call(call) <==> v.left.len() > 0 && v.left[0] == call,
        v.step() is Restart <==> v.left.len() == 0 && v.restart,
        v.step() is Wait <==> v.left.len() == 0 && !v.restart,
{
}

} // verus!
