//! One session: all communication between one client and the server.
//!
//! A session performs no input or output. It says what is to be done, and hears what came of it.
//! Side 0 is the client, side 1 the server.

use crate::basics::{ByteOrder, Fd, MAX_FDS_OUT, MAX_WORDS_OUT};
use crate::buffers::InBuffer;
use crate::for_handlers::{MessageHandler, SessionInfo, SessionInitInfo};
use crate::header::msg_length;
use crate::map::IdMapV;
use crate::mediator::{
    InitInfo, MediateError, Mediation, MediationV, Mediator, Scene, Verdict, VerdictV,
};
use crate::outbuffer::{
    first_fds, OutBuffer, OutBufferV, SendAction, SendJob, SendJobV, SendPhase, SendReply,
};
use crate::text::str_views;
use vstd::prelude::*;

verus! {

/// Why a session ends.
#[derive(Debug, PartialEq, Eq, Clone, Copy, Structural)]
pub enum SessionError {
    /// A message is longer than messages may be.
    NoRoom,
    /// Nothing can be done with a message.
    Mediate(MediateError),
    /// More file descriptors belong to a message than can travel with one chunk.
    TooManyFds,
}

/// A session between a client and the server.
pub struct Session<'a, H: MessageHandler> {
    pub in_buffers: Vec<InBuffer>,
    pub out_buffers: Vec<OutBuffer>,
    pub mediator: Mediator<'a>,
    pub handlers: &'a Vec<H>,
    pub group_states: Vec<H::State>,
    pub order: ByteOrder,
}

/// The contents of a [`Session`] that change.
#[verifier::ext_equal]
pub struct SessionV<S> {
    /// What has come in from each side and has not been handled.
    pub pending: Seq<Seq<u32>>,
    /// The file descriptors that have come in from each side and that no message has claimed.
    pub queues: Seq<Seq<Fd>>,
    /// What waits to be sent to each side.
    pub outs: Seq<OutBufferV>,
    /// The live objects.
    pub ids: IdMapV,
    /// The states of the groups.
    pub states: Seq<S>,
}

/// How far a [`Job`] has come.
#[derive(Debug)]
pub enum Phase {
    /// More is to be received.
    Receiving,
    /// The messages that have come in are handled one by one.
    Popping,
    /// A message is being sent.
    Sending(SendJob),
    /// Everything that waits is being sent.
    Flushing(SendJob),
    /// Nothing is left to do.
    Done,
}

/// What a session does when one of its sockets is ready.
#[derive(Debug)]
pub struct Job {
    source: usize,
    received: bool,
    phase: Phase,
}

/// The contents of a [`Phase`].
#[verifier::ext_equal]
pub enum PhaseV {
    Receiving,
    Popping,
    Sending(SendJobV),
    Flushing(SendJobV),
    Done,
}

/// The contents of a [`Job`].
#[verifier::ext_equal]
pub struct JobV {
    /// The side that messages come from. They go to the other.
    pub source: int,
    /// Whether any message has come.
    pub received: bool,
    pub phase: PhaseV,
}

impl View for Job {
    type V = JobV;

    closed spec fn view(&self) -> JobV {
        JobV {
            source: self.source as int,
            received: self.received,
            phase: match self.phase {
                Phase::Receiving => PhaseV::Receiving,
                Phase::Popping => PhaseV::Popping,
                Phase::Sending(j) => PhaseV::Sending(j@),
                Phase::Flushing(j) => PhaseV::Flushing(j@),
                Phase::Done => PhaseV::Done,
            },
        }
    }
}

/// What the caller is to do next.
#[derive(Debug)]
pub enum Action {
    /// Receive what the source side has sent, and say what came.
    Receive,
    /// Send these words and file descriptors to the other side, and say whether the socket took
    /// them.
    Transmit { words: Vec<u32>, fds: Vec<Fd> },
    /// Ask again.
    Continue,
    /// Nothing: the job is over.
    Finished,
    /// End the session.
    Fail(SessionError),
}

/// The contents of an [`Action`].
#[verifier::ext_equal]
pub enum ActionV {
    Receive,
    Transmit(Seq<u32>, Seq<Fd>),
    Continue,
    Finished,
    Fail(SessionError),
}

impl View for Action {
    type V = ActionV;

    open spec fn view(&self) -> ActionV {
        match self {
            Action::Receive => ActionV::Receive,
            Action::Transmit { words, fds } => ActionV::Transmit(words@, fds@),
            Action::Continue => ActionV::Continue,
            Action::Finished => ActionV::Finished,
            Action::Fail(e) => ActionV::Fail(*e),
        }
    }
}

/// One step of a job: the lines of debug output, the file descriptors that are to be closed, and
/// what the caller is to do next.
#[derive(Debug)]
pub struct Step {
    pub lines: Vec<String>,
    pub close: Vec<Fd>,
    pub action: Action,
}

/// The contents of a [`Step`].
#[verifier::ext_equal]
pub struct StepV {
    pub lines: Seq<Seq<char>>,
    pub close: Seq<Fd>,
    pub action: ActionV,
}

impl View for Step {
    type V = StepV;

    open spec fn view(&self) -> StepV {
        StepV { lines: str_views(self.lines@), close: self.close@, action: self.action@ }
    }
}

/// A step that only says what is to be done next.
pub open spec fn plain(action: ActionV) -> StepV {
    StepV { lines: Seq::empty(), close: Seq::empty(), action }
}

/// The whole message at the start of some words, if all of it is there.
pub open spec fn first_message(pending: Seq<u32>) -> Option<Seq<u32>> {
    match msg_length(pending) {
        Some(n) if n <= pending.len() => Some(pending.take(n)),
        _ => None,
    }
}

impl JobV {
    /// The side that messages go to.
    pub open spec fn dest(self) -> int {
        1 - self.source
    }

    /// Whether a job fits the session that it is for.
    pub open spec fn fits<S>(self, s: SessionV<S>) -> bool {
        &&& 0 <= self.source <= 1
        &&& s.outs.len() == 2
        &&& s.outs[self.source].settled()
        &&& match self.phase {
            PhaseV::Sending(j) => j.fits(s.outs[self.dest()]),
            PhaseV::Flushing(j) => j.fits(s.outs[self.dest()]) && j.phase is Flushing,
            _ => s.outs[self.dest()].settled(),
        }
    }
}

impl<S> SessionV<S> {
    /// The session when a message has been decided on, before anything has been sent.
    pub open spec fn decided(self, source: int, n: int, m: MediationV<S>) -> SessionV<S> {
        SessionV {
            pending: self.pending.update(source, self.pending[source].skip(n)),
            queues: self.queues.update(source, m.left),
            outs: self.outs,
            ids: m.ids,
            states: m.states,
        }
    }

    /// The session with something else waiting to be sent to one side.
    pub open spec fn with_out(self, side: int, out: OutBufferV) -> SessionV<S> {
        SessionV { outs: self.outs.update(side, out), ..self }
    }

    /// The session, the job and the step when what has been decided on a message is carried out.
    pub open spec fn carried_out(
        self,
        job: JobV,
        verdict: VerdictV,
        fds: Seq<Fd>,
        lines: Seq<Seq<char>>,
    ) -> (SessionV<S>, JobV, StepV) {
        let popped = JobV { received: true, ..job };
        let done = JobV { phase: PhaseV::Done, ..popped };
        match verdict {
            VerdictV::Send(payload) => if fds.len() > MAX_FDS_OUT {
                (
                    self,
                    done,
                    StepV { lines, close: fds, action: ActionV::Fail(SessionError::TooManyFds) },
                )
            } else {
                let queued = self.outs[job.dest()].with_fds(fds);
                let (out, j) = if queued.too_many_fds() {
                    (
                        queued,
                        SendJobV {
                            phase: SendPhase::Relieving,
                            payload: Some(payload),
                            flushed: 0,
                        },
                    )
                } else {
                    (
                        queued.written(payload),
                        SendJobV {
                            phase: SendPhase::Flushing { force: queued.flush_every_send },
                            payload: None,
                            flushed: 0,
                        },
                    )
                };
                (
                    self.with_out(job.dest(), out),
                    JobV { phase: PhaseV::Sending(j), ..popped },
                    StepV { lines, close: Seq::empty(), action: ActionV::Continue },
                )
            },
            VerdictV::Drop => (
                self,
                popped,
                StepV { lines, close: fds, action: ActionV::Continue },
            ),
            VerdictV::Fail(e) => (
                self,
                done,
                StepV { lines, close: fds, action: ActionV::Fail(SessionError::Mediate(e)) },
            ),
        }
    }
}

impl<H: MessageHandler> Scene<H> {
    /// What becomes of a message that comes from one side.
    #[verifier::opaque]
    pub open spec fn mediated_from(
        self,
        source: int,
        message: Seq<u32>,
        fds: Seq<Fd>,
        ids: IdMapV,
        states: Seq<H::State>,
    ) -> MediationV<H::State> {
        self.mediated(source > 0, message, fds, ids, states)
    }

    /// What becomes of the message that is at the start of what has come in from one side.
    pub open spec fn next_mediated(
        self,
        s: SessionV<H::State>,
        source: int,
        message: Seq<u32>,
    ) -> MediationV<H::State> {
        self.mediated_from(source, message, s.queues[source], s.ids, s.states)
    }

    /// The session, the job and what the caller is told, after one step.
    pub open spec fn stepped(self, s: SessionV<H::State>, job: JobV) -> (
        SessionV<H::State>,
        JobV,
        StepV,
    ) {
        match job.phase {
            PhaseV::Receiving => if s.pending[job.source].len() <= MAX_WORDS_OUT {
                (s, job, plain(ActionV::Receive))
            } else {
                (
                    s,
                    JobV { phase: PhaseV::Done, ..job },
                    plain(ActionV::Fail(SessionError::NoRoom)),
                )
            },
            PhaseV::Popping => match first_message(s.pending[job.source]) {
                None => (
                    s,
                    JobV { phase: PhaseV::Receiving, ..job },
                    plain(ActionV::Continue),
                ),
                Some(message) => {
                    let m = self.next_mediated(s, job.source, message);
                    s.decided(job.source, message.len() as int, m).carried_out(
                        job,
                        m.verdict,
                        m.fds,
                        m.lines,
                    )
                },
            },
            PhaseV::Sending(j) => {
                let (out, j2) = j.advanced(s.outs[job.dest()]);
                let after = s.with_out(job.dest(), out);
                match j2.next(out) {
                    Some((words, fds)) => (
                        after,
                        JobV { phase: PhaseV::Sending(j2), ..job },
                        plain(ActionV::Transmit(words, fds)),
                    ),
                    None => (
                        after,
                        JobV { phase: PhaseV::Popping, ..job },
                        plain(ActionV::Continue),
                    ),
                }
            },
            PhaseV::Flushing(j) => {
                let (out, j2) = j.advanced(s.outs[job.dest()]);
                let after = s.with_out(job.dest(), out);
                match j2.next(out) {
                    Some((words, fds)) => (
                        after,
                        JobV { phase: PhaseV::Flushing(j2), ..job },
                        plain(ActionV::Transmit(words, fds)),
                    ),
                    None => (
                        after,
                        JobV { phase: PhaseV::Done, ..job },
                        plain(ActionV::Finished),
                    ),
                }
            },
            PhaseV::Done => (s, job, plain(ActionV::Finished)),
        }
    }
}

/// Everything is to be sent.
pub open spec fn forced() -> SendJobV {
    SendJobV { phase: SendPhase::Flushing { force: true }, payload: None, flushed: 0 }
}

/// A job when something has been received. When nothing has, and messages have come before, all
/// that waits for the other side is sent, as it is not known when the next message comes.
pub open spec fn received_job(job: JobV, count: nat) -> JobV {
    JobV {
        phase: if count > 0 {
            PhaseV::Popping
        } else if job.received {
            PhaseV::Flushing(forced())
        } else {
            PhaseV::Done
        },
        ..job
    }
}

/// Which way the words of a job are going out, if they are.
pub open spec fn send_job(job: JobV) -> Option<SendJobV> {
    match job.phase {
        PhaseV::Sending(j) => Some(j),
        PhaseV::Flushing(j) => Some(j),
        _ => None,
    }
}

impl<'a, H: MessageHandler> Session<'a, H> {
    /// Whether the buffers are in order, and there is one of each for each side.
    pub open spec fn wf(self) -> bool {
        &&& self.in_buffers@.len() == 2
        &&& self.out_buffers@.len() == 2
        &&& self.in_buffers@[0].wf()
        &&& self.in_buffers@[1].wf()
        &&& self.out_buffers@[0].wf()
        &&& self.out_buffers@[1].wf()
        &&& self.mediator.actives().wf()
    }

    /// The contents that change.
    pub open spec fn contents(self) -> SessionV<H::State> {
        SessionV {
            pending: seq![self.in_buffers@[0].pending(), self.in_buffers@[1].pending()],
            queues: seq![self.in_buffers@[0].queue()@, self.in_buffers@[1].queue()@],
            outs: seq![self.out_buffers@[0]@, self.out_buffers@[1]@],
            ids: self.mediator.ids(),
            states: self.group_states@,
        }
    }

    /// What stays the same.
    pub open spec fn scene(self) -> Scene<H> {
        self.mediator.scene(self.handlers@, self.order)
    }

    /// A session that begins. Each group has made its state.
    pub fn new(
        init_info: &'a InitInfo<'a>,
        handlers: &'a Vec<H>,
        group_states: Vec<H::State>,
        order: ByteOrder,
        flush_every_send: bool,
        limit_sends: bool,
        always_compact: bool,
    ) -> (r: Session<'a, H>)
        requires
            init_info.actives().wf(),
        ensures
            r.wf(),
            r.contents().pending == seq![Seq::<u32>::empty(), Seq::<u32>::empty()],
            r.contents().queues == seq![Seq::<Fd>::empty(), Seq::<Fd>::empty()],
            r.contents().outs == seq![
                OutBufferV::empty(limit_sends, flush_every_send),
                OutBufferV::empty(limit_sends, flush_every_send),
            ],
            r.contents().outs[0].settled(),
            r.contents().outs[1].settled(),
            r.contents().ids == (IdMapV {
                client: seq![
                    crate::map::ObjectEntry::NeverUsed,
                    crate::map::ObjectEntry::Live(init_info.active_interfaces.display),
                ],
                server: Seq::empty(),
            }),
            r.contents().states == group_states@,
            r.scene() == (Scene {
                actives: init_info.actives(),
                client: init_info.client(),
                debug_level: init_info.debug_level(),
                table: handlers@,
                order,
            }),
    {
        let mut in_buffers: Vec<InBuffer> = Vec::new();
        in_buffers.push(InBuffer::new(always_compact));
        in_buffers.push(InBuffer::new(always_compact));
        let mut out_buffers: Vec<OutBuffer> = Vec::new();
        out_buffers.push(OutBuffer::new(limit_sends, flush_every_send));
        out_buffers.push(OutBuffer::new(limit_sends, flush_every_send));
        Session {
            in_buffers,
            out_buffers,
            mediator: Mediator::new(init_info),
            handlers,
            group_states,
            order,
        }
    }

    /// Starts to handle what one side has sent.
    pub fn handle_input(&self, index: usize) -> (r: Job)
        requires
            self.wf(),
            index < 2,
        ensures
            r@ == (JobV { source: index as int, received: false, phase: PhaseV::Receiving }),
    {
        Job { source: index, received: false, phase: Phase::Receiving }
    }

    /// Starts to send what waits for one side, as its socket has room again. All of it is sent,
    /// since nothing else may cause the last part of it to be sent.
    pub fn handle_output(&mut self, index: usize) -> (r: Job)
        requires
            old(self).wf(),
            index < 2,
            old(self).contents().outs[0].settled(),
            old(self).contents().outs[1].settled(),
        ensures
            final(self).wf(),
            final(self).scene() == old(self).scene(),
            final(self).contents() == old(self).contents().with_out(
                index as int,
                OutBufferV { waiting: false, ..old(self).contents().outs[index as int] },
            ),
            r@ == (JobV {
                source: 1 - index as int,
                received: false,
                phase: PhaseV::Flushing(forced()),
            }),
            r@.fits(final(self).contents()),
    {
        let ghost before = self.contents();
        self.out_buffers[index].got_output_event();
        assert(self.contents() =~= before.with_out(
            index as int,
            OutBufferV { waiting: false, ..before.outs[index as int] },
        ));
        assert(before.outs[index as int].settled());
        assert(self.contents().outs[index as int].settled());
        let job = self.out_buffers[index].flush(true);
        Job { source: 1 - index, received: false, phase: Phase::Flushing(job) }
    }
}

/// Takes the next whole message out of what has come in, and decides on it.
fn mediate_next<'a, H: MessageHandler>(
    in_buffer: &mut InBuffer,
    mediator: &mut Mediator<'a>,
    index: usize,
    handlers: &Vec<H>,
    group_states: &mut Vec<H::State>,
    order: ByteOrder,
) -> (r: Option<Mediation>)
    requires
        old(in_buffer).wf(),
        old(mediator).actives().wf(),
    ensures
        final(in_buffer).wf(),
        final(mediator).actives() == old(mediator).actives(),
        final(mediator).client() == old(mediator).client(),
        final(mediator).debug_level() == old(mediator).debug_level(),
        match first_message(old(in_buffer).pending()) {
            None => {
                &&& r is None
                &&& *final(in_buffer) == *old(in_buffer)
                &&& *final(mediator) == *old(mediator)
                &&& *final(group_states) == *old(group_states)
            },
            Some(message) => {
                let v = old(mediator).scene(handlers@, order).mediated_from(
                    index as int,
                    message,
                    old(in_buffer).queue()@,
                    old(mediator).ids(),
                    old(group_states)@,
                );
                &&& r is Some
                &&& r->0.verdict@ == v.verdict
                &&& r->0.fds@ == v.fds
                &&& str_views(r->0.lines@) == v.lines
                &&& final(in_buffer).pending() == old(in_buffer).pending().skip(
                    message.len() as int,
                )
                &&& final(in_buffer).queue()@ == v.left
                &&& final(mediator).ids() == v.ids
                &&& final(group_states)@ == v.states
                &&& r->0.verdict matches Verdict::Send(p) ==> p@.fits()
            },
        },
{
    reveal(Scene::mediated_from);
    match in_buffer.try_pop() {
        None => None,
        Some((msg, fds)) => Some(mediator.mediate(index, msg, fds, handlers, group_states, order)),
    }
}

impl<'a, H: MessageHandler> Session<'a, H> {
    /// Does the next thing for a job that needs no input or output, and says what the caller is to
    /// do.
    pub fn step(&mut self, job: &mut Job) -> (r: Step)
        requires
            old(self).wf(),
            old(job)@.fits(old(self).contents()),
        ensures
            final(self).wf(),
            final(self).scene() == old(self).scene(),
            final(job)@.fits(final(self).contents()),
            (final(self).contents(), final(job)@, r@) == old(self).scene().stepped(
                old(self).contents(),
                old(job)@,
            ),
    {
        let source: usize = job.source;
        let ghost before = self.contents();
        let ghost job_before = job@;
        match &job.phase {
            Phase::Receiving => {
                if self.in_buffers[source].has_room() {
                    Step { lines: Vec::new(), close: Vec::new(), action: Action::Receive }
                } else {
                    job.phase = Phase::Done;
                    Step {
                        lines: Vec::new(),
                        close: Vec::new(),
                        action: Action::Fail(SessionError::NoRoom),
                    }
                }
            },
            Phase::Popping => self.pop(job),
            Phase::Sending(_) => self.transmit(job),
            Phase::Flushing(_) => self.transmit(job),
            Phase::Done => Step {
                lines: Vec::new(),
                close: Vec::new(),
                action: Action::Finished,
            },
        }
    }

    /// Handles the next message, if all of it has come in.
    #[verifier::rlimit(30)]
    fn pop(&mut self, job: &mut Job) -> (r: Step)
        requires
            old(self).wf(),
            old(job)@.fits(old(self).contents()),
            old(job)@.phase is Popping,
        ensures
            final(self).wf(),
            final(self).scene() == old(self).scene(),
            final(job)@.fits(final(self).contents()),
            (final(self).contents(), final(job)@, r@) == old(self).scene().stepped(
                old(self).contents(),
                old(job)@,
            ),
    {
        let source: usize = job.source;
        let ghost before = self.contents();
        let next = mediate_next(
            &mut self.in_buffers[source],
            &mut self.mediator,
            source,
            self.handlers,
            &mut self.group_states,
            self.order,
        );
        match next {
            None => {
                job.phase = Phase::Receiving;
                assert(self.contents() =~= before);
                Step { lines: Vec::new(), close: Vec::new(), action: Action::Continue }
            },
            Some(mediation) => {
                proof {
                    let message = first_message(before.pending[source as int])->0;
                    let m = old(self).scene().next_mediated(before, source as int, message);
                    assert(self.contents() =~= before.decided(
                        source as int,
                        message.len() as int,
                        m,
                    ));
                }
                self.carry_out(job, mediation)
            },
        }
    }

    /// Carries out what has been decided on a message.
    fn carry_out(&mut self, job: &mut Job, mediation: Mediation) -> (r: Step)
        requires
            old(self).wf(),
            old(job)@.fits(old(self).contents()),
            old(job)@.phase is Popping,
            mediation.verdict matches Verdict::Send(p) ==> p@.fits(),
        ensures
            final(self).wf(),
            final(self).scene() == old(self).scene(),
            final(job)@.fits(final(self).contents()),
            (final(self).contents(), final(job)@, r@) == old(self).contents().carried_out(
                old(job)@,
                mediation.verdict@,
                mediation.fds@,
                str_views(mediation.lines@),
            ),
    {
        let dest: usize = 1 - job.source;
        let ghost before = self.contents();
        job.received = true;
        match mediation.verdict {
            Verdict::Send(payload) => {
                if mediation.fds.len() > MAX_FDS_OUT {
                    job.phase = Phase::Done;
                    return Step {
                        lines: mediation.lines,
                        close: mediation.fds,
                        action: Action::Fail(SessionError::TooManyFds),
                    };
                }
                let send = self.out_buffers[dest].send(mediation.fds, payload);
                assert(self.contents() =~= before.with_out(
                    dest as int,
                    self.out_buffers@[dest as int]@,
                ));
                job.phase = Phase::Sending(send);
                Step { lines: mediation.lines, close: Vec::new(), action: Action::Continue }
            },
            Verdict::Drop => Step {
                lines: mediation.lines,
                close: mediation.fds,
                action: Action::Continue,
            },
            Verdict::Fail(e) => {
                job.phase = Phase::Done;
                Step {
                    lines: mediation.lines,
                    close: mediation.fds,
                    action: Action::Fail(SessionError::Mediate(e)),
                }
            },
        }
    }

    /// Goes on with what is being sent.
    fn transmit(&mut self, job: &mut Job) -> (r: Step)
        requires
            old(self).wf(),
            old(job)@.fits(old(self).contents()),
            send_job(old(job)@) is Some,
        ensures
            final(self).wf(),
            final(self).scene() == old(self).scene(),
            final(job)@.fits(final(self).contents()),
            (final(self).contents(), final(job)@, r@) == old(self).scene().stepped(
                old(self).contents(),
                old(job)@,
            ),
    {
        let dest: usize = 1 - job.source;
        let ghost before = self.contents();
        let action;
        match &mut job.phase {
            Phase::Sending(send) => {
                match self.out_buffers[dest].advance(send) {
                    SendAction::Transmit { words, fds } => {
                        action = Action::Transmit { words, fds };
                    },
                    SendAction::Finished { .. } => {
                        job.phase = Phase::Popping;
                        action = Action::Continue;
                    },
                }
            },
            Phase::Flushing(send) => {
                match self.out_buffers[dest].advance(send) {
                    SendAction::Transmit { words, fds } => {
                        action = Action::Transmit { words, fds };
                    },
                    SendAction::Finished { .. } => {
                        job.phase = Phase::Done;
                        action = Action::Finished;
                    },
                }
            },
            _ => {
                action = Action::Finished;
            },
        }
        assert(self.contents() =~= before.with_out(dest as int, self.out_buffers@[dest as int]@));
        Step { lines: Vec::new(), close: Vec::new(), action }
    }

    /// Hears what has been received.
    pub fn take_in(&mut self, job: &mut Job, words: &[u32], fds: Vec<Fd>)
        requires
            old(self).wf(),
            old(job)@.fits(old(self).contents()),
            old(job)@.phase is Receiving,
            old(self).contents().pending[old(job)@.source].len() <= MAX_WORDS_OUT,
            words@.len() <= MAX_WORDS_OUT,
        ensures
            final(self).wf(),
            final(self).scene() == old(self).scene(),
            final(job)@.fits(final(self).contents()),
            final(job)@ == received_job(old(job)@, words@.len()),
            ({
                let s = old(self).contents();
                let source = old(job)@.source;
                final(self).contents() == (SessionV {
                    pending: s.pending.update(source, s.pending[source] + words@),
                    queues: s.queues.update(source, s.queues[source] + fds@),
                    ..s
                })
            }),
    {
        let source: usize = job.source;
        let ghost before = self.contents();
        let ghost all_fds = fds@;
        let n: usize = self.in_buffers[source].receive(words, fds);
        assert(self.contents() =~= (SessionV {
            pending: before.pending.update(
                source as int,
                before.pending[source as int] + words@,
            ),
            queues: before.queues.update(source as int, before.queues[source as int] + all_fds),
            ..before
        }));
        if n > 0 {
            job.phase = Phase::Popping;
        } else if job.received {
            job.phase = Phase::Flushing(self.out_buffers[1 - source].flush(true));
        } else {
            job.phase = Phase::Done;
        }
    }

    /// Hears what the socket did with what it was to send. File descriptors that have been sent are
    /// handed back; they are to be closed.
    pub fn hear(&mut self, job: &mut Job, reply: SendReply) -> (r: Vec<Fd>)
        requires
            old(self).wf(),
            old(job)@.fits(old(self).contents()),
            send_job(old(job)@) is Some,
            send_job(old(job)@)->0.next(old(self).contents().outs[old(job)@.dest()]) is Some,
        ensures
            final(self).wf(),
            final(self).scene() == old(self).scene(),
            final(job)@.fits(final(self).contents()),
            ({
                let j = send_job(old(job)@)->0;
                let dest = old(job)@.dest();
                let out = old(self).contents().outs[dest];
                let (out2, flushed) = match reply {
                    SendReply::Accepted => (
                        out.accepted(),
                        if j.phase is Relieving {
                            0
                        } else {
                            j.flushed + out.chunks[0].len()
                        },
                    ),
                    SendReply::Refused => (out.refused(), j.flushed),
                };
                let j2 = SendJobV { flushed, ..j };
                &&& final(self).contents() == old(self).contents().with_out(dest, out2)
                &&& final(job)@ == (JobV {
                    phase: if old(job)@.phase is Sending {
                        PhaseV::Sending(j2)
                    } else {
                        PhaseV::Flushing(j2)
                    },
                    ..old(job)@
                })
                &&& r@ == if reply is Accepted {
                    first_fds(out.fds)
                } else {
                    Seq::<Fd>::empty()
                }
            }),
    {
        let dest: usize = 1 - job.source;
        let ghost before = self.contents();
        let close = match &mut job.phase {
            Phase::Sending(send) => self.out_buffers[dest].reply(send, reply),
            Phase::Flushing(send) => self.out_buffers[dest].reply(send, reply),
            _ => Vec::new(),
        };
        assert(self.contents() =~= before.with_out(dest as int, self.out_buffers@[dest as int]@));
        close
    }
}

} // verus!
