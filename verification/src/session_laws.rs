//! What holds of every session.

use crate::addons::{GroupState, Handler};
use crate::basics::{ByteOrder, Fd, MAX_FDS_OUT};
use crate::builtin::announced;
use crate::for_handlers::{MessageHandler, MessageHandlerResult, MessageInfoV};
use crate::header::{header_of, MessageHeader};
use crate::map::{is_server_id, IdMapV};
use crate::mediator::{HandlersRun, MediateError, MediationV, Scene, VerdictV};
use crate::message::{new_id_pos, outgoing, MarshalError, Progress, Wire};
use crate::message_laws::law_demarshal_keeps_fds;
use crate::outbuffer::{
    law_accepted_takes_the_first, law_forced_flush_leaves_nothing, law_job_writes_in_order,
    law_message_written_in_order, law_raw_written_in_order, OutBufferV, PayloadV, SendPhase,
};
use crate::protocol::{message_of, Arg, HandlerEntry, InterfaceId, Message, SpecialMessage, Type};
use crate::session::{first_message, received_job, ActionV, JobV, PhaseV, SessionError, SessionV};
use vstd::prelude::*;

verus! {

/// The file descriptors that come with a message are neither lost nor made, whatever is decided on
/// it: the first of them belong to it, and the others are left, in their order.
pub proof fn law_mediation_keeps_fds<H: MessageHandler>(
    scene: Scene<H>,
    from_server: bool,
    source: Seq<u32>,
    fds: Seq<Fd>,
    ids: IdMapV,
    states: Seq<H::State>,
)
    ensures
        ({
            let m = scene.mediated(from_server, source, fds, ids, states);
            m.fds + m.left == fds
        }),
{
    let m = scene.mediated(from_server, source, fds, ids, states);
    match scene.subject(from_server, source, ids) {
        Err(_) => {
            assert(m.fds + m.left =~= fds);
        },
        Ok(id) => {
            let decl = message_of(
                scene.actives.get(id),
                from_server,
                header_of(source).opcode as int,
            );
            let wire = Wire { order: scene.order, source, decl, actives: scene.actives };
            let start = Progress {
                args: Seq::empty(),
                taken: Seq::empty(),
                left: fds,
                pos: 2,
                ids,
            };
            law_demarshal_keeps_fds(wire, start);
            assert(start.taken + start.left =~= fds);
            assert(m.fds + m.left =~= fds);
        },
    }
}

/// Whether no handler sees a message.
pub open spec fn unhandled<H: MessageHandler>(
    scene: Scene<H>,
    from_server: bool,
    source: Seq<u32>,
    ids: IdMapV,
) -> bool {
    match scene.subject(from_server, source, ids) {
        Err(_) => false,
        Ok(id) => message_of(
            scene.actives.get(id),
            from_server,
            header_of(source).opcode as int,
        ).handlers.0 is None,
    }
}

/// A message that no handler sees is passed on word for word, or nothing can be done with it. It is
/// never dropped, and no group has its state changed.
pub proof fn law_unhandled_is_unchanged<H: MessageHandler>(
    scene: Scene<H>,
    from_server: bool,
    source: Seq<u32>,
    fds: Seq<Fd>,
    ids: IdMapV,
    states: Seq<H::State>,
)
    requires
        unhandled(scene, from_server, source, ids),
    ensures
        ({
            let m = scene.mediated(from_server, source, fds, ids, states);
            &&& m.verdict == VerdictV::Send(PayloadV::Raw(source)) || m.verdict is Fail
            &&& m.states == states
        }),
{
}

/// Once a handler has had a message sent or dropped, no other handler sees it.
pub proof fn law_stopped_is_seen_by_no_other<H: MessageHandler>(
    scene: Scene<H>,
    queue: Seq<HandlerEntry>,
    start: HandlersRun<H::State>,
    i: nat,
)
    requires
        i < queue.len(),
        start.stop is None,
        scene.run(queue, start, i).stop is None,
        scene.run(queue, start, i + 1).stop is Some,
    ensures
        scene.run(queue, start, queue.len()) == scene.run(queue, start, i + 1),
{
    scene.lemma_run_stops(queue, start, i + 1, queue.len());
}

/// Whether the first handler of a queue is a certain one, whose group has a state.
pub open spec fn begins_with(
    scene: Scene<Handler>,
    queue: Seq<HandlerEntry>,
    states: Seq<GroupState>,
    handler: Handler,
) -> bool {
    &&& queue.len() > 0
    &&& queue[0].handler < scene.table.len()
    &&& scene.table[queue[0].handler as int] == handler
    &&& queue[0].group < states.len()
}

/// A request to bind a global is sent, and no handler of an addon sees it: the first handler, which
/// every session has, keeps them all out.
pub proof fn law_bind_reaches_no_addon(
    scene: Scene<Handler>,
    queue: Seq<HandlerEntry>,
    start: HandlersRun<GroupState>,
)
    requires
        start.stop is None,
        begins_with(scene, queue, start.states, Handler::RegistryBind),
    ensures
        scene.run(queue, start, queue.len()) == (HandlersRun {
            stop: Some(Ok::<MessageHandlerResult, MediateError>(MessageHandlerResult::Send)),
            ..start
        }),
{
    let entry = queue[0];
    assert(scene.run(queue, start, 0) == start);
    let after = scene.run(queue, start, 1);
    assert(after.states =~= start.states);
    scene.lemma_run_stops(queue, start, 1, queue.len());
}

/// The announcement of a global is sent or dropped by the first handler, which every session has, or
/// ends the session, and no handler of an addon sees it.
pub proof fn law_global_reaches_no_addon(
    scene: Scene<Handler>,
    queue: Seq<HandlerEntry>,
    start: HandlersRun<GroupState>,
)
    requires
        start.stop is None,
        begins_with(scene, queue, start.states, Handler::RegistryGlobal),
    ensures
        ({
            let (result, message) = announced(start.message, scene.actives);
            scene.run(queue, start, queue.len()) == HandlersRun {
                message,
                stop: Some(
                    match result {
                        Ok(r) => Ok::<MessageHandlerResult, MediateError>(r),
                        Err(e) => Err(MediateError::Handler(e)),
                    },
                ),
                ..start
            }
        }),
{
    assert(scene.run(queue, start, 0) == start);
    let after = scene.run(queue, start, 1);
    assert(after.states =~= start.states);
    scene.lemma_run_stops(queue, start, 1, queue.len());
}

/// A message that handlers have seen, and that none of them has touched, is sent word for word.
pub proof fn law_untouched_is_sent_as_it_came(
    order: ByteOrder,
    header: MessageHeader,
    source: Seq<u32>,
    m: MessageInfoV,
)
    requires
        !m.modified,
        !m.type_changed,
    ensures
        outgoing(order, header, source, m) == Ok::<PayloadV, MarshalError>(PayloadV::Raw(source)),
{
}

/// A handler has only the state of its own group: a group that none of the first `n` handlers of a
/// message belongs to keeps its state.
pub proof fn law_other_groups_keep_their_state<H: MessageHandler>(
    scene: Scene<H>,
    queue: Seq<HandlerEntry>,
    start: HandlersRun<H::State>,
    n: nat,
    group: int,
)
    requires
        n <= queue.len(),
        0 <= group < start.states.len(),
        forall|i: int| 0 <= i < n ==> (#[trigger] queue[i]).group != group,
    ensures
        scene.run(queue, start, n).states.len() == start.states.len(),
        scene.run(queue, start, n).states[group] == start.states[group],
    decreases n,
{
    if n > 0 {
        law_other_groups_keep_their_state(scene, queue, start, (n - 1) as nat, group);
        assert(queue[n - 1].group != group);
    }
}

/// How many of the first `n` declared arguments are file descriptors.
pub open spec fn fd_args(args: Seq<Arg>, n: nat) -> nat
    decreases n,
{
    if n == 0 {
        0
    } else {
        fd_args(args, (n - 1) as nat) + if args[n - 1].typ is Fd {
            1nat
        } else {
            0
        }
    }
}

/// Whether a declaration counts its file descriptors right, and declares one new object, or none, as
/// it says.
pub open spec fn consistent(decl: Message) -> bool {
    &&& decl.num_fds == fd_args(decl.args@, decl.args@.len())
    &&& match decl.new_id_interface {
        None => forall|j: int|
            0 <= j < decl.args@.len() ==> #[trigger] decl.args@[j].typ != Type::NewId,
        Some(_) => exists|k: int| only_new_id(decl, k),
    }
}

/// Whether one declared argument is a new object, and no other is.
pub open spec fn only_new_id(decl: Message, k: int) -> bool {
    &&& 0 <= k < decl.args@.len()
    &&& decl.args@[k].typ == Type::NewId
    &&& forall|j: int|
        0 <= j < decl.args@.len() && j != k ==> #[trigger] decl.args@[j].typ != Type::NewId
}

proof fn lemma_run_fds(wire: Wire, start: Progress, n: nat)
    requires
        n <= wire.decl.args@.len(),
        wire.run(start, n).1 is None,
    ensures
        ({
            let c = fd_args(wire.decl.args@, n) as int;
            let p = wire.run(start, n).0;
            &&& c <= start.left.len()
            &&& p.taken == start.taken + start.left.take(c)
            &&& p.left == start.left.skip(c)
        }),
    decreases n,
{
    if n == 0 {
        assert(start.taken =~= start.taken + start.left.take(0));
        assert(start.left =~= start.left.skip(0));
    } else {
        lemma_run_fds(wire, start, (n - 1) as nat);
        let c = fd_args(wire.decl.args@, n) as int;
        let p = wire.run(start, n).0;
        assert(p.taken =~= start.taken + start.left.take(c));
        assert(p.left =~= start.left.skip(c));
    }
}

proof fn lemma_run_no_ids(wire: Wire, start: Progress, n: nat)
    requires
        n <= wire.decl.args@.len(),
        wire.run(start, n).1 is None,
        forall|j: int| 0 <= j < n ==> #[trigger] wire.decl.args@[j].typ != Type::NewId,
    ensures
        wire.run(start, n).0.ids == start.ids,
    decreases n,
{
    if n > 0 {
        lemma_run_no_ids(wire, start, (n - 1) as nat);
        assert(wire.decl.args@[n - 1].typ != Type::NewId);
    }
}

proof fn lemma_run_later_ids(wire: Wire, start: Progress, k: nat, n: nat)
    requires
        k < n <= wire.decl.args@.len(),
        wire.run(start, n).1 is None,
        forall|j: int| k < j < n ==> #[trigger] wire.decl.args@[j].typ != Type::NewId,
    ensures
        wire.run(start, n).0.ids == wire.run(start, k + 1).0.ids,
    decreases n,
{
    if n > k + 1 {
        lemma_run_later_ids(wire, start, k, (n - 1) as nat);
        assert(wire.decl.args@[n - 1].typ != Type::NewId);
    }
}

/// To show a message changes nothing else: if it can be taken apart, then the same is sent, with the
/// same file descriptors, and the same objects are live, as when it is passed on without being shown.
/// (A sync request that names an object of the server is none of the usual ones.)
pub proof fn law_showing_changes_nothing<H: MessageHandler>(
    scene: Scene<H>,
    from_server: bool,
    id: InterfaceId,
    source: Seq<u32>,
    fds: Seq<Fd>,
    ids: IdMapV,
    states: Seq<H::State>,
)
    requires
        scene.shown(from_server, id, source, fds, ids, states).verdict is Send,
        ({
            let decl = message_of(
                scene.actives.get(id),
                from_server,
                header_of(source).opcode as int,
            );
            &&& consistent(decl)
            &&& decl.special == Some(SpecialMessage::WlDisplaySync) && decl.new_id_interface is Some
                ==> !is_server_id(source[new_id_pos(decl, source, 0, 2)->0 as int])
        }),
    ensures
        ({
            let shown = scene.shown(from_server, id, source, fds, ids, states);
            let passed = scene.passed(from_server, id, source, fds, ids, states);
            passed == MediationV { lines: Seq::empty(), ..shown }
        }),
{
    let decl = message_of(scene.actives.get(id), from_server, header_of(source).opcode as int);
    let wire = Wire { order: scene.order, source, decl, actives: scene.actives };
    let start = Progress { args: Seq::empty(), taken: Seq::empty(), left: fds, pos: 2, ids };
    let n = decl.args@.len();
    assert(wire.demarshalled(start).1 is None);
    assert(wire.run(start, n).1 is None);
    let p = wire.run(start, n).0;
    lemma_run_fds(wire, start, n);
    assert(p.taken =~= fds.take(decl.num_fds as int));
    assert(p.left =~= fds.skip(decl.num_fds as int));
    let shown = scene.shown(from_server, id, source, fds, ids, states);
    let passed = scene.passed(from_server, id, source, fds, ids, states);
    match decl.new_id_interface {
        None => {
            lemma_run_no_ids(wire, start, n);
        },
        Some(interface) => {
            let k = choose|k: int| only_new_id(decl, k);
            wire.lemma_run_extends(start, k as nat, n);
            wire.lemma_run_extends(start, (k + 1) as nat, n);
            wire.lemma_before_new_id(start, k as nat, k as nat);
            lemma_run_no_ids(wire, start, k as nat);
            lemma_run_later_ids(wire, start, k as nat, n);
            let at = wire.run(start, k as nat).0.pos;
            assert(wire.run(start, (k + 1) as nat).1 is None);
            assert(new_id_pos(decl, source, 0, 2) == Some(at));
        },
    }
    assert(passed =~= MediationV { lines: Seq::empty(), ..shown });
}

/// It does not matter in which pieces messages come in: what comes later changes nothing about the
/// message that comes first.
pub proof fn law_pieces_do_not_matter(pending: Seq<u32>, more: Seq<u32>)
    requires
        first_message(pending) is Some,
    ensures
        first_message(pending + more) == first_message(pending),
{
    let n = first_message(pending)->0.len() as int;
    assert((pending + more)[1] == pending[1]);
    assert((pending + more).take(n) =~= pending.take(n));
}

/// The words that a session has yet to send to the side that a job is for, with those of the message
/// that is being sent and has not been written.
pub open spec fn owed<S>(s: SessionV<S>, job: JobV) -> Seq<u32> {
    s.outs[job.dest()].words() + match job.phase {
        PhaseV::Sending(j) => match j.payload {
            Some(payload) => payload.words(),
            None => Seq::empty(),
        },
        _ => Seq::empty(),
    }
}

proof fn lemma_written_words(v: OutBufferV, payload: PayloadV)
    requires
        v.relieved(),
        payload.fits(),
    ensures
        v.written(payload).words() == v.words() + payload.words(),
        v.written(payload).fds == v.fds,
{
    match payload {
        PayloadV::Raw(msg) => {
            law_raw_written_in_order(v, msg);
        },
        PayloadV::Marshalled(header, body) => {
            law_message_written_in_order(v, header, body);
        },
    }
}

/// When a message is to be sent, its words are owed behind all others, and its file descriptors are
/// queued behind all others. Nothing else is changed of what is owed, and the message is the only
/// thing that is taken from what has come in.
pub proof fn law_sent_in_order<H: MessageHandler>(scene: Scene<H>, s: SessionV<H::State>, job: JobV)
    requires
        job.fits(s),
        s.pending.len() == 2,
        job.phase is Popping,
        first_message(s.pending[job.source]) is Some,
        ({
            let m = scene.next_mediated(
                s,
                job.source,
                first_message(s.pending[job.source])->0,
            );
            &&& m.verdict matches VerdictV::Send(payload) && payload.fits()
            &&& m.fds.len() <= MAX_FDS_OUT
        }),
    ensures
        ({
            let message = first_message(s.pending[job.source])->0;
            let m = scene.next_mediated(s, job.source, message);
            let (after, job2, step) = scene.stepped(s, job);
            &&& step.action is Continue
            &&& owed(after, job2) == owed(s, job) + m.verdict->Send_0.words()
            &&& after.outs[job.dest()].fds == s.outs[job.dest()].fds + m.fds
            &&& after.outs[job.source] == s.outs[job.source]
            &&& message + after.pending[job.source] == s.pending[job.source]
            &&& after.pending[job.dest()] == s.pending[job.dest()]
        }),
{
    let message = first_message(s.pending[job.source])->0;
    let m = scene.next_mediated(s, job.source, message);
    let (after, job2, step) = scene.stepped(s, job);
    let payload = m.verdict->Send_0;
    let v = s.outs[job.dest()];
    let queued = v.with_fds(m.fds);
    assert(queued.words() == v.words());
    assert(message + after.pending[job.source] =~= s.pending[job.source]);
    if queued.too_many_fds() {
        assert(owed(after, job2) =~= owed(s, job) + payload.words());
    } else {
        assert(queued.relieved()) by {
            assert(queued.chunks == v.chunks);
        }
        lemma_written_words(queued, payload);
        assert(owed(after, job2) =~= owed(s, job) + payload.words());
    }
}

/// A message that no handler sees, and that something can be done with, is owed to the other side
/// word for word.
pub proof fn law_unhandled_is_relayed<H: MessageHandler>(
    scene: Scene<H>,
    s: SessionV<H::State>,
    job: JobV,
)
    requires
        job.fits(s),
        s.pending.len() == 2,
        job.phase is Popping,
        first_message(s.pending[job.source]) is Some,
        ({
            let message = first_message(s.pending[job.source])->0;
            let m = scene.next_mediated(s, job.source, message);
            &&& unhandled(scene, job.source > 0, message, s.ids)
            &&& !(m.verdict is Fail)
            &&& m.fds.len() <= MAX_FDS_OUT
        }),
    ensures
        owed(scene.stepped(s, job).0, scene.stepped(s, job).1) == owed(s, job) + first_message(
            s.pending[job.source],
        )->0,
{
    let message = first_message(s.pending[job.source])->0;
    reveal(Scene::mediated_from);
    law_unhandled_is_unchanged(
        scene,
        job.source > 0,
        message,
        s.queues[job.source],
        s.ids,
        s.states,
    );
    assert(PayloadV::Raw(message).fits()) by {
        assert(scene.subject(job.source > 0, message, s.ids) is Ok);
    }
    law_sent_in_order(scene, s, job);
}

/// While a message is being sent, and when something is flushed, nothing is lost of what is owed and
/// nothing is added to it.
pub proof fn law_sending_keeps_what_is_owed<H: MessageHandler>(
    scene: Scene<H>,
    s: SessionV<H::State>,
    job: JobV,
)
    requires
        job.fits(s),
        job.phase is Sending || job.phase is Flushing,
    ensures
        ({
            let (after, job2, _) = scene.stepped(s, job);
            &&& owed(after, job2) == owed(s, job)
            &&& after.outs[job.dest()].fds == s.outs[job.dest()].fds
        }),
{
    let (after, job2, _) = scene.stepped(s, job);
    let v = s.outs[job.dest()];
    match job.phase {
        PhaseV::Sending(j) => {
            if j.phase is Relieving && v.next_send(true) is None {
                law_job_writes_in_order(v, j);
            }
            assert(owed(after, job2) =~= owed(s, job));
        },
        _ => {
            assert(owed(after, job2) =~= owed(s, job));
        },
    }
}

/// What is transmitted are the first words and file descriptors that are owed.
pub proof fn law_transmitted_is_first<H: MessageHandler>(
    scene: Scene<H>,
    s: SessionV<H::State>,
    job: JobV,
)
    requires
        job.fits(s),
        scene.stepped(s, job).2.action is Transmit,
    ensures
        ({
            let (after, job2, step) = scene.stepped(s, job);
            let words = step.action->Transmit_0;
            let fds = step.action->Transmit_1;
            let v = after.outs[job.dest()];
            &&& v.words() == words + v.accepted().words()
            &&& v.fds == fds + v.accepted().fds
            &&& words.len() > 0
        }),
{
    let (after, job2, step) = scene.stepped(s, job);
    let v = after.outs[job.dest()];
    match job.phase {
        PhaseV::Sending(j) => {
            let (out, j2) = j.advanced(s.outs[job.dest()]);
            assert(v == out);
            if j.phase is Relieving && s.outs[job.dest()].next_send(true) is None {
                law_job_writes_in_order(s.outs[job.dest()], j);
            }
            match j2.phase {
                SendPhase::Relieving => law_accepted_takes_the_first(v, true),
                SendPhase::Flushing { force } => law_accepted_takes_the_first(v, force),
            }
        },
        PhaseV::Flushing(j) => {
            assert(v == s.outs[job.dest()]);
            match j.phase {
                SendPhase::Relieving => {},
                SendPhase::Flushing { force } => law_accepted_takes_the_first(v, force),
            }
        },
        _ => {},
    }
}

/// When input has been handled, or a socket has reported room, then nothing waits for the other side,
/// unless its socket has refused something.
pub proof fn law_finished_leaves_nothing<H: MessageHandler>(
    scene: Scene<H>,
    s: SessionV<H::State>,
    job: JobV,
)
    requires
        job.fits(s),
        job.phase matches PhaseV::Flushing(j) && j.phase == (SendPhase::Flushing { force: true }),
        scene.stepped(s, job).2.action is Finished,
    ensures
        ({
            let v = scene.stepped(s, job).0.outs[job.dest()];
            v.waiting || (v.words() == Seq::<u32>::empty() && v.fds == Seq::<Fd>::empty())
        }),
{
    let v = s.outs[job.dest()];
    assert(scene.stepped(s, job).0.outs[job.dest()] == v);
    law_forced_flush_leaves_nothing(v);
}

/// Messages of the client are requests, and go to the server. Those of the server are events, and go
/// to the client.
pub proof fn law_each_side_has_its_messages<H: MessageHandler>(
    scene: Scene<H>,
    s: SessionV<H::State>,
    message: Seq<u32>,
    job: JobV,
)
    ensures
        scene.next_mediated(s, 0, message) == scene.mediated(
            false,
            message,
            s.queues[0],
            s.ids,
            s.states,
        ),
        scene.next_mediated(s, 1, message) == scene.mediated(
            true,
            message,
            s.queues[1],
            s.ids,
            s.states,
        ),
        job.source == 0 ==> job.dest() == 1,
        job.source == 1 ==> job.dest() == 0,
{
    reveal(Scene::mediated_from);
}

/// A message is handled when as many words are there as the size in its header needs, and it is those
/// words.
pub proof fn law_whole_messages_are_handled(pending: Seq<u32>, n: int)
    requires
        pending.len() >= 2,
        4 * (n - 1) < pending[1] / 0x1_0000 <= 4 * n,
    ensures
        n <= pending.len() ==> first_message(pending) == Some(pending.take(n)),
        n > pending.len() ==> first_message(pending) is None,
        first_message(pending.take(1)) is None,
        first_message(Seq::empty()) is None,
{
}

/// While no whole message is there, more is received, and what waits is handled before. There is
/// always room for the longest message.
pub proof fn law_more_is_received<H: MessageHandler>(
    scene: Scene<H>,
    s: SessionV<H::State>,
    job: JobV,
)
    ensures
        job.phase is Popping && first_message(s.pending[job.source]) is None ==> {
            let (after, job2, step) = scene.stepped(s, job);
            &&& after == s
            &&& job2 == JobV { phase: PhaseV::Receiving, ..job }
            &&& step.action is Continue
            &&& step.lines.len() == 0
            &&& step.close.len() == 0
        },
        job.phase is Receiving ==> {
            let (after, job2, step) = scene.stepped(s, job);
            &&& after == s
            &&& s.pending[job.source].len() <= 1024 ==> step.action is Receive && job2 == job
            &&& s.pending[job.source].len() > 1024 ==> step.action == ActionV::Fail(
                SessionError::NoRoom,
            )
        },
        job.phase is Done ==> scene.stepped(s, job).2.action is Finished,
{
}

/// What has come is handled. When nothing has come, and messages have come before, everything that
/// waits is sent; if none has come before, there is nothing to do.
pub proof fn law_what_a_receipt_leads_to(job: JobV, count: nat)
    ensures
        count > 0 ==> received_job(job, count).phase is Popping,
        count == 0 && job.received ==> (received_job(job, count).phase matches PhaseV::Flushing(j)
            ==> j.phase == (SendPhase::Flushing { force: true }) && j.payload is None),
        count == 0 && job.received ==> received_job(job, count).phase is Flushing,
        count == 0 && !job.received ==> received_job(job, count).phase is Done,
        received_job(job, count).source == job.source,
        received_job(job, count).received == job.received,
{
}

/// A message that is dropped goes nowhere, and its file descriptors are closed. A message that
/// nothing can be done with ends the session, and so does one with too many file descriptors; these
/// are closed too.
pub proof fn law_what_is_not_sent_is_closed<H: MessageHandler>(
    scene: Scene<H>,
    s: SessionV<H::State>,
    job: JobV,
)
    requires
        0 <= job.source <= 1,
        s.pending.len() == 2,
        s.queues.len() == 2,
        job.phase is Popping,
        first_message(s.pending[job.source]) is Some,
    ensures
        ({
            let message = first_message(s.pending[job.source])->0;
            let m = scene.next_mediated(s, job.source, message);
            let (after, job2, step) = scene.stepped(s, job);
            &&& message + after.pending[job.source] == s.pending[job.source]
            &&& after.pending[1 - job.source] == s.pending[1 - job.source]
            &&& after.queues[job.source] == m.left
            &&& after.queues[1 - job.source] == s.queues[1 - job.source]
            &&& after.ids == m.ids
            &&& after.states == m.states
            &&& step.lines == m.lines
            &&& job2.received
            &&& job2.source == job.source
            &&& m.verdict is Drop ==> {
                &&& after.outs == s.outs
                &&& step.action is Continue
                &&& step.close == m.fds
                &&& job2.phase is Popping
            }
            &&& m.verdict matches VerdictV::Fail(e) ==> {
                &&& after.outs == s.outs
                &&& step.action == ActionV::Fail(SessionError::Mediate(e))
                &&& step.close == m.fds
                &&& job2.phase is Done
            }
            &&& m.verdict is Send && m.fds.len() > 28 ==> {
                &&& after.outs == s.outs
                &&& step.action == ActionV::Fail(SessionError::TooManyFds)
                &&& step.close == m.fds
                &&& job2.phase is Done
            }
            &&& m.verdict is Send && m.fds.len() <= 28 ==> {
                &&& step.action is Continue
                &&& step.close.len() == 0
                &&& job2.phase is Sending
                &&& job2.phase->Sending_0.payload is None ==> job2.phase->Sending_0.phase == (
                SendPhase::Flushing { force: s.outs[1 - job.source].flush_every_send })
            }
        }),
{
    let message = first_message(s.pending[job.source])->0;
    let rest = s.pending[job.source].skip(message.len() as int);
    assert(message + rest =~= s.pending[job.source]);
}

} // verus!
