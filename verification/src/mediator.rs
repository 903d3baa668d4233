//! What becomes of each message that comes in.

use crate::actives::ActiveInterfaces;
use crate::args::{fds_into_vec, fds_slice};
use crate::basics::{ByteOrder, Fd, MAX_BYTES_OUT};
use crate::debug::{
    args_text, describe_args, describe_message, line_text, shown_in, shown_out, shows_in, shows_out,
    Flow,
};
use crate::for_handlers::{
    HandlerError, MessageHandler, MessageHandlerResult, MessageInfo, MessageInfoV, SessionInfo,
    SessionInitInfo, UCred,
};
use crate::header::{get_msg_length, header_of, msg_length, size_field, MessageHeader};
use crate::map::{IdMap, IdMapError, IdMapV};
use crate::message::{
    new_id_pos, outgoing, DemarshalError, DemarshalledMessage, MarshalError, Progress, Wire,
};
use crate::outbuffer::{Payload, PayloadV};
use crate::protocol::{
    message_count, message_of, valid_id, HandlerEntry, Interface, InterfaceId, Message,
};
use crate::text::str_views;
use std::collections::VecDeque;
use vstd::prelude::*;

verus! {

/// What a session is told when it begins.
pub struct InitInfo<'a> {
    pub ucred: Option<UCred>,
    pub active_interfaces: &'a ActiveInterfaces,
    pub debug_level: u32,
}

impl<'a> SessionInitInfo for InitInfo<'a> {
    open spec fn actives(&self) -> ActiveInterfaces {
        *self.active_interfaces
    }

    open spec fn client(&self) -> Option<UCred> {
        self.ucred
    }

    open spec fn debug_level(&self) -> u32 {
        self.debug_level
    }

    fn ucred(&self) -> (r: Option<UCred>) {
        self.ucred
    }

    fn get_active_interfaces(&self) -> (r: &ActiveInterfaces) {
        self.active_interfaces
    }

    fn get_display(&self) -> (r: InterfaceId) {
        self.active_interfaces.display
    }

    fn get_debug_level(&self) -> (r: u32) {
        self.debug_level
    }
}

/// The middle of a session: it knows the live objects, and decides on each message.
pub struct Mediator<'a> {
    pub id_map: IdMap,
    pub init_info: &'a InitInfo<'a>,
}

impl<'a> SessionInitInfo for Mediator<'a> {
    open spec fn actives(&self) -> ActiveInterfaces {
        *self.init_info.active_interfaces
    }

    open spec fn client(&self) -> Option<UCred> {
        self.init_info.ucred
    }

    open spec fn debug_level(&self) -> u32 {
        self.init_info.debug_level
    }

    fn ucred(&self) -> (r: Option<UCred>) {
        self.init_info.ucred()
    }

    fn get_active_interfaces(&self) -> (r: &ActiveInterfaces) {
        self.init_info.active_interfaces
    }

    fn get_display(&self) -> (r: InterfaceId) {
        self.init_info.get_display()
    }

    fn get_debug_level(&self) -> (r: u32) {
        self.init_info.get_debug_level()
    }
}

impl<'a> SessionInfo for Mediator<'a> {
    open spec fn ids(&self) -> IdMapV {
        self.id_map@
    }

    fn try_lookup(&self, id: u32) -> (r: Option<InterfaceId>) {
        self.id_map.try_lookup(id)
    }

    fn lookup(&self, id: u32) -> (r: InterfaceId) {
        self.id_map.lookup(id)
    }

    fn add(&mut self, id: u32, interface: InterfaceId) -> (r: Result<(), IdMapError>)
        ensures
            final(self).init_info == old(self).init_info,
    {
        self.id_map.add(id, interface)
    }

    fn delete(&mut self, id: u32)
        ensures
            final(self).init_info == old(self).init_info,
    {
        self.id_map.delete(id)
    }
}

/// Why nothing can be done with a message.
#[derive(Debug, PartialEq, Eq, Clone, Copy, Structural)]
pub enum MediateError {
    /// The message has no whole header, or one that gives a length that it does not have.
    BadHeader,
    /// The message is for an object that is not there.
    NoSuchObject,
    /// The interface of the object has no such message.
    NoSuchMessage,
    /// The message cannot be taken apart.
    Demarshal(DemarshalError),
    /// A handler is to see the message that is not there, or whose group has no state.
    NoSuchHandler,
    /// A handler cannot deal with the message.
    Handler(HandlerError),
    /// The message cannot be put together.
    Marshal(MarshalError),
    /// The id of the new object is not where it should be.
    NoNewId,
    /// The id of the new object cannot be used.
    Id(IdMapError),
    /// Fewer file descriptors have come than the message needs.
    NotEnoughFds,
}

/// What is to be done with a message.
#[derive(Debug)]
pub enum Verdict {
    Send(Payload),
    Drop,
    Fail(MediateError),
}

/// The contents of a [`Verdict`].
#[verifier::ext_equal]
pub enum VerdictV {
    Send(PayloadV),
    Drop,
    Fail(MediateError),
}

impl View for Verdict {
    type V = VerdictV;

    open spec fn view(&self) -> VerdictV {
        match self {
            Verdict::Send(payload) => VerdictV::Send(payload@),
            Verdict::Drop => VerdictV::Drop,
            Verdict::Fail(e) => VerdictV::Fail(*e),
        }
    }
}

/// What has been decided on a message: what is to be done with it, the file descriptors that belong
/// to it, which are to be sent with it or closed, and the lines of debug output.
#[derive(Debug)]
pub struct Mediation {
    pub verdict: Verdict,
    pub fds: Vec<Fd>,
    pub lines: Vec<String>,
}

/// What has been decided on a message, and what is left behind.
#[verifier::ext_equal]
pub struct MediationV<S> {
    pub verdict: VerdictV,
    pub fds: Seq<Fd>,
    pub lines: Seq<Seq<char>>,
    /// The file descriptors that do not belong to the message.
    pub left: Seq<Fd>,
    /// The live objects.
    pub ids: IdMapV,
    /// The states of the groups.
    pub states: Seq<S>,
}

/// How far the handlers of a message have come, and what stopped them, if anything did.
#[verifier::ext_equal]
pub struct HandlersRun<S> {
    pub message: MessageInfoV,
    pub ids: IdMapV,
    pub states: Seq<S>,
    pub stop: Option<Result<MessageHandlerResult, MediateError>>,
}

/// What stays the same through a session: what it was told when it began, the handlers, and the
/// byte order.
pub struct Scene<H> {
    pub actives: ActiveInterfaces,
    pub client: Option<UCred>,
    pub debug_level: u32,
    pub table: Seq<H>,
    pub order: ByteOrder,
}

/// The interface of the object that a message is for, if there is such a message.
pub open spec fn subject_of(
    actives: ActiveInterfaces,
    from_server: bool,
    source: Seq<u32>,
    ids: IdMapV,
) -> Result<InterfaceId, MediateError> {
    if msg_length(source) != Some(source.len() as int) || size_field(source[1]) > MAX_BYTES_OUT {
        Err(MediateError::BadHeader)
    } else {
        let header = header_of(source);
        match ids.lookup(header.object_id) {
            Some(id) if valid_id(actives.protocols@, id) => if header.opcode < message_count(
                actives.get(id),
                from_server,
            ) {
                Ok(id)
            } else {
                Err(MediateError::NoSuchMessage)
            },
            _ => Err(MediateError::NoSuchObject),
        }
    }
}

impl<H: MessageHandler> Scene<H> {
    /// The interface of the object that a message is for, if there is such a message.
    pub open spec fn subject(self, from_server: bool, source: Seq<u32>, ids: IdMapV) -> Result<
        InterfaceId,
        MediateError,
    > {
        subject_of(self.actives, from_server, source, ids)
    }

    /// The first `n` handlers of a message have seen it, or as many of them as were let.
    pub open spec fn run(
        self,
        queue: Seq<HandlerEntry>,
        start: HandlersRun<H::State>,
        n: nat,
    ) -> HandlersRun<H::State>
        decreases n,
    {
        if n == 0 {
            start
        } else {
            let before = self.run(queue, start, (n - 1) as nat);
            if before.stop is Some {
                before
            } else {
                let entry = queue[n - 1];
                if entry.handler < self.table.len() && entry.group < before.states.len() {
                    let e = self.table[entry.handler as int].effect(
                        before.message,
                        self.actives,
                        before.ids,
                        before.states[entry.group as int],
                    );
                    HandlersRun {
                        message: e.message,
                        ids: e.ids,
                        states: before.states.update(entry.group as int, e.state),
                        stop: match e.result {
                            Ok(MessageHandlerResult::Next) => None,
                            Ok(result) => Some(Ok(result)),
                            Err(error) => Some(Err(MediateError::Handler(error))),
                        },
                    }
                } else {
                    HandlersRun { stop: Some(Err(MediateError::NoSuchHandler)), ..before }
                }
            }
        }
    }

    /// A line of debug output for a message.
    pub open spec fn line(
        self,
        flow: Flow,
        from_server: bool,
        id: InterfaceId,
        source: Seq<u32>,
        body: Seq<char>,
    ) -> Seq<char> {
        let header = header_of(source);
        line_text(
            flow,
            from_server,
            self.client,
            self.actives.get(id).name@,
            header.object_id,
            message_of(self.actives.get(id), from_server, header.opcode as int).name@,
            body,
        )
    }

    /// What becomes of a message that handlers see: it is taken apart, they see it in turn, and it is
    /// put together again, unless one of them has it dropped.
    pub open spec fn handled(
        self,
        from_server: bool,
        id: InterfaceId,
        source: Seq<u32>,
        queue: Seq<HandlerEntry>,
        fds: Seq<Fd>,
        ids: IdMapV,
        states: Seq<H::State>,
    ) -> MediationV<H::State> {
        let header = header_of(source);
        let decl = message_of(self.actives.get(id), from_server, header.opcode as int);
        let wire = Wire { order: self.order, source, decl, actives: self.actives };
        let (p, error) = wire.demarshalled(
            Progress { args: Seq::empty(), taken: Seq::empty(), left: fds, pos: 2, ids },
        );
        if error is Some {
            MediationV {
                verdict: VerdictV::Fail(MediateError::Demarshal(error->0)),
                fds: p.taken,
                lines: Seq::empty(),
                left: p.left,
                ids: p.ids,
                states,
            }
        } else {
            let first = if shown_in(self.debug_level, from_server) {
                seq![
                    self.line(
                        Flow::In,
                        from_server,
                        id,
                        source,
                        args_text(p.args, p.taken, self.actives, p.ids),
                    ),
                ]
            } else {
                Seq::empty()
            };
            let run = self.run(
                queue,
                HandlersRun {
                    message: MessageInfoV {
                        decl,
                        object_id: header.object_id,
                        size: header.size,
                        args: p.args,
                        modified: false,
                        type_changed: false,
                    },
                    ids: p.ids,
                    states,
                    stop: None,
                },
                queue.len(),
            );
            let (verdict, lines) = match run.stop {
                Some(Err(e)) => (VerdictV::Fail(e), first),
                Some(Ok(MessageHandlerResult::Drop)) => (
                    VerdictV::Drop,
                    if self.debug_level != 0 {
                        first.push(
                            self.line(Flow::Out, from_server, id, source, "dropped!"@),
                        )
                    } else {
                        first
                    },
                ),
                _ => (
                    match outgoing(self.order, header, source, run.message) {
                        Ok(payload) => VerdictV::Send(payload),
                        Err(e) => VerdictV::Fail(MediateError::Marshal(e)),
                    },
                    if shown_out(self.debug_level, from_server) {
                        first.push(
                            self.line(
                                Flow::Out,
                                from_server,
                                id,
                                source,
                                args_text(run.message.args, p.taken, self.actives, run.ids),
                            ),
                        )
                    } else {
                        first
                    },
                ),
            };
            MediationV {
                verdict,
                fds: p.taken,
                lines,
                left: p.left,
                ids: run.ids,
                states: run.states,
            }
        }
    }

    /// What becomes of a message that is only taken apart to be shown.
    pub open spec fn shown(
        self,
        from_server: bool,
        id: InterfaceId,
        source: Seq<u32>,
        fds: Seq<Fd>,
        ids: IdMapV,
        states: Seq<H::State>,
    ) -> MediationV<H::State> {
        let decl = message_of(
            self.actives.get(id),
            from_server,
            header_of(source).opcode as int,
        );
        let wire = Wire { order: self.order, source, decl, actives: self.actives };
        let (p, error) = wire.demarshalled(
            Progress { args: Seq::empty(), taken: Seq::empty(), left: fds, pos: 2, ids },
        );
        MediationV {
            verdict: match error {
                Some(e) => VerdictV::Fail(MediateError::Demarshal(e)),
                None => VerdictV::Send(PayloadV::Raw(source)),
            },
            fds: p.taken,
            lines: if error is Some {
                Seq::empty()
            } else {
                seq![
                    self.line(
                        Flow::Unified,
                        from_server,
                        id,
                        source,
                        args_text(p.args, p.taken, self.actives, p.ids),
                    ),
                ]
            },
            left: p.left,
            ids: p.ids,
            states,
        }
    }

    /// What becomes of a message that is passed on without being taken apart: only the id of a new
    /// object is looked for.
    pub open spec fn passed(
        self,
        from_server: bool,
        id: InterfaceId,
        source: Seq<u32>,
        fds: Seq<Fd>,
        ids: IdMapV,
        states: Seq<H::State>,
    ) -> MediationV<H::State> {
        let decl = message_of(
            self.actives.get(id),
            from_server,
            header_of(source).opcode as int,
        );
        let failed = |e: MediateError, after: IdMapV|
            MediationV {
                verdict: VerdictV::Fail(e),
                fds: Seq::<Fd>::empty(),
                lines: Seq::<Seq<char>>::empty(),
                left: fds,
                ids: after,
                states,
            };
        let sent = |after: IdMapV|
            if fds.len() < decl.num_fds {
                failed(MediateError::NotEnoughFds, after)
            } else {
                MediationV {
                    verdict: VerdictV::Send(PayloadV::Raw(source)),
                    fds: fds.take(decl.num_fds as int),
                    lines: Seq::empty(),
                    left: fds.skip(decl.num_fds as int),
                    ids: after,
                    states,
                }
            };
        match decl.new_id_interface {
            None => sent(ids),
            Some(interface) => match new_id_pos(decl, source, 0, 2) {
                None => failed(MediateError::NoNewId, ids),
                Some(pos) => match ids.add_error(source[pos as int]) {
                    Some(e) => failed(MediateError::Id(e), ids),
                    None => sent(ids.added(source[pos as int], interface)),
                },
            },
        }
    }

    /// What becomes of a message.
    pub open spec fn mediated(
        self,
        from_server: bool,
        source: Seq<u32>,
        fds: Seq<Fd>,
        ids: IdMapV,
        states: Seq<H::State>,
    ) -> MediationV<H::State> {
        match self.subject(from_server, source, ids) {
            Err(e) => MediationV {
                verdict: VerdictV::Fail(e),
                fds: Seq::empty(),
                lines: Seq::empty(),
                left: fds,
                ids,
                states,
            },
            Ok(id) => {
                let decl = message_of(
                    self.actives.get(id),
                    from_server,
                    header_of(source).opcode as int,
                );
                match decl.handlers.0 {
                    Some(queue) => self.handled(
                        from_server,
                        id,
                        source,
                        queue@,
                        fds,
                        ids,
                        states,
                    ),
                    None => if self.debug_level == 0 {
                        self.passed(from_server, id, source, fds, ids, states)
                    } else {
                        self.shown(from_server, id, source, fds, ids, states)
                    },
                }
            },
        }
    }
}

/// Takes file descriptors from the front of a queue.
pub fn drain_fds(fds: &mut VecDeque<Fd>, n: usize) -> (r: Vec<Fd>)
    requires
        n <= old(fds)@.len(),
    ensures
        r@ == old(fds)@.take(n as int),
        final(fds)@ == old(fds)@.skip(n as int),
{
    let ghost all = fds@;
    let mut out: Vec<Fd> = Vec::new();
    let mut i: usize = 0;
    assert(all.skip(0) =~= all);
    while i < n
        invariant
            i <= n <= all.len(),
            out@ == all.take(i as int),
            fds@ == all.skip(i as int),
        decreases n - i,
    {
        let fd: Fd = fds.pop_front().unwrap();
        assert(all.skip(i as int).skip(1) =~= all.skip(i + 1));
        out.push(fd);
        assert(out@ =~= all.take(i + 1));
        i = i + 1;
    }
    out
}

impl<'a> Mediator<'a> {
    /// What stays the same through the session.
    pub open spec fn scene<H>(self, table: Seq<H>, order: ByteOrder) -> Scene<H> {
        Scene {
            actives: self.actives(),
            client: self.client(),
            debug_level: self.debug_level(),
            table,
            order,
        }
    }

    /// A session that begins: the only live object is the display.
    pub fn new(init_info: &'a InitInfo<'a>) -> (r: Mediator<'a>)
        ensures
            r.init_info == init_info,
            r.ids() == (IdMapV {
                client: seq![
                    crate::map::ObjectEntry::NeverUsed,
                    crate::map::ObjectEntry::Live(init_info.active_interfaces.display),
                ],
                server: Seq::empty(),
            }),
    {
        Mediator { id_map: IdMap::with_display(init_info.get_display()), init_info }
    }

    fn debug_line(
        &self,
        flow: Flow,
        from_server: bool,
        interface: &Interface,
        header: MessageHeader,
        decl: &Message,
        body: &str,
    ) -> (r: String)
        ensures
            r@ == line_text(
                flow,
                from_server,
                self.client(),
                interface.name@,
                header.object_id,
                decl.name@,
                body@,
            ),
    {
        describe_message(
            flow,
            from_server,
            self.init_info.ucred,
            interface.name.as_str(),
            header.object_id,
            decl.name.as_str(),
            body,
        )
    }

    #[verifier::rlimit(30)]
    fn run_handlers<'m, H: MessageHandler>(
        &mut self,
        dmsg: &mut DemarshalledMessage<'m>,
        queue: &VecDeque<HandlerEntry>,
        handlers: &Vec<H>,
        group_states: &mut Vec<H::State>,
        order: ByteOrder,
    ) -> (r: Option<Result<MessageHandlerResult, MediateError>>)
        requires
            old(self).actives().wf(),
        ensures
            ({
                let run = old(self).scene(handlers@, order).run(
                    queue@,
                    HandlersRun {
                        message: old(dmsg).info(),
                        ids: old(self).ids(),
                        states: old(group_states)@,
                        stop: None,
                    },
                    queue@.len(),
                );
                &&& r == run.stop
                &&& final(dmsg).info() == run.message
                &&& final(self).ids() == run.ids
                &&& final(group_states)@ == run.states
            }),
            final(dmsg).msg_decl == old(dmsg).msg_decl,
            final(dmsg).header == old(dmsg).header,
            final(dmsg).source == old(dmsg).source,
            final(dmsg).fds == old(dmsg).fds,
            final(dmsg).order == old(dmsg).order,
            final(self).actives() == old(self).actives(),
            final(self).client() == old(self).client(),
            final(self).debug_level() == old(self).debug_level(),
    {
        let ghost scene = self.scene(handlers@, order);
        let ghost start = HandlersRun {
            message: dmsg.info(),
            ids: self.ids(),
            states: group_states@,
            stop: None,
        };
        let n: usize = queue.len();
        let mut k: usize = 0;
        while k < n
            invariant
                k <= n,
                n == queue@.len(),
                scene == old(self).scene(handlers@, order),
                start == (HandlersRun {
                    message: old(dmsg).info(),
                    ids: old(self).ids(),
                    states: old(group_states)@,
                    stop: None,
                }),
                scene.run(queue@, start, k as nat) == (HandlersRun {
                    message: dmsg.info(),
                    ids: self.ids(),
                    states: group_states@,
                    stop: None,
                }),
                dmsg.msg_decl == old(dmsg).msg_decl,
                dmsg.header == old(dmsg).header,
                dmsg.source == old(dmsg).source,
                dmsg.fds == old(dmsg).fds,
                dmsg.order == old(dmsg).order,
                self.actives() == old(self).actives(),
                self.actives().wf(),
                self.client() == old(self).client(),
                self.debug_level() == old(self).debug_level(),
            decreases n - k,
        {
            let entry: &HandlerEntry = &queue[k];
            if entry.handler >= handlers.len() || entry.group >= group_states.len() {
                proof {
                    scene.lemma_run_stops(queue@, start, (k + 1) as nat, n as nat);
                }
                return Some(Err(MediateError::NoSuchHandler));
            }
            let result: Result<MessageHandlerResult, HandlerError> = handlers[entry.handler].handle(
                dmsg,
                self,
                &mut group_states[entry.group],
            );
            match result {
                Ok(MessageHandlerResult::Next) => {},
                Ok(other) => {
                    proof {
                        scene.lemma_run_stops(queue@, start, (k + 1) as nat, n as nat);
                    }
                    return Some(Ok(other));
                },
                Err(error) => {
                    proof {
                        scene.lemma_run_stops(queue@, start, (k + 1) as nat, n as nat);
                    }
                    return Some(Err(MediateError::Handler(error)));
                },
            }
            k = k + 1;
        }
        None
    }
}

impl<H: MessageHandler> Scene<H> {
    /// Once a handler has stopped a message, no other handler sees it.
    pub proof fn lemma_run_stops(
        self,
        queue: Seq<HandlerEntry>,
        start: HandlersRun<H::State>,
        i: nat,
        n: nat,
    )
        requires
            i <= n,
            self.run(queue, start, i).stop is Some,
        ensures
            self.run(queue, start, n) == self.run(queue, start, i),
        decreases n - i,
    {
        if i < n {
            self.lemma_run_stops(queue, start, i, (n - 1) as nat);
        }
    }
}

impl<'a> Mediator<'a> {
    /// Has the handlers of a message see it.
    #[verifier::rlimit(30)]
    fn mediate_handled<H: MessageHandler>(
        &mut self,
        from_server: bool,
        id: InterfaceId,
        in_msg: &[u32],
        in_fds: &mut VecDeque<Fd>,
        handlers: &Vec<H>,
        group_states: &mut Vec<H::State>,
        order: ByteOrder,
    ) -> (r: Mediation)
        requires
            old(self).actives().wf(),
            old(self).scene(handlers@, order).subject(from_server, in_msg@, old(self).ids()) == Ok::<
                InterfaceId,
                MediateError,
            >(id),
            message_of(
                old(self).actives().get(id),
                from_server,
                header_of(in_msg@).opcode as int,
            ).handlers.0 is Some,
        ensures
            ({
                let queue = message_of(
                    old(self).actives().get(id),
                    from_server,
                    header_of(in_msg@).opcode as int,
                ).handlers.0->0;
                let v = old(self).scene(handlers@, order).handled(
                    from_server,
                    id,
                    in_msg@,
                    queue@,
                    old(in_fds)@,
                    old(self).ids(),
                    old(group_states)@,
                );
                &&& r.verdict@ == v.verdict
                &&& r.fds@ == v.fds
                &&& str_views(r.lines@) == v.lines
                &&& final(in_fds)@ == v.left
                &&& final(self).ids() == v.ids
                &&& final(group_states)@ == v.states
            }),
            r.verdict matches Verdict::Send(p) ==> p@.fits(),
            final(self).actives() == old(self).actives(),
            final(self).client() == old(self).client(),
            final(self).debug_level() == old(self).debug_level(),
    {
        let ghost scene = self.scene(handlers@, order);
        let actives: &'a ActiveInterfaces = self.init_info.active_interfaces;
        let interface: &'a Interface = actives.interface(id);
        let header = MessageHeader::new(in_msg);
        let decl: &'a Message = interface.get_message(from_server, header.opcode as usize);
        let queue: &'a VecDeque<HandlerEntry> = match &decl.handlers.0 {
            Some(queue) => queue,
            None => {
                return Mediation {
                    verdict: Verdict::Drop,
                    fds: Vec::new(),
                    lines: Vec::new(),
                };
            },
        };
        let mut lines: Vec<String> = Vec::new();
        assert(str_views(lines@) =~= Seq::<Seq<char>>::empty());
        let mut dmsg = DemarshalledMessage::new(header, decl, in_msg, order);
        match dmsg.demarshal(in_fds, self) {
            Err(e) => {
                return Mediation {
                    verdict: Verdict::Fail(MediateError::Demarshal(e)),
                    fds: fds_into_vec(dmsg.fds),
                    lines,
                };
            },
            Ok(_) => {},
        }
        let level: u32 = self.init_info.debug_level;
        if shows_in(level, from_server) {
            let body: String = describe_args(&dmsg.args, &dmsg.fds, self);
            let line: String = self.debug_line(
                Flow::In,
                from_server,
                interface,
                header,
                decl,
                body.as_str(),
            );
            lines.push(line);
            assert(str_views(lines@) =~= seq![line@]);
        }
        let ghost first = str_views(lines@);
        let stop: Option<Result<MessageHandlerResult, MediateError>> = self.run_handlers(
            &mut dmsg,
            queue,
            handlers,
            group_states,
            order,
        );
        match stop {
            Some(Err(e)) => Mediation {
                verdict: Verdict::Fail(e),
                fds: fds_into_vec(dmsg.fds),
                lines,
            },
            Some(Ok(MessageHandlerResult::Drop)) => {
                if level != 0 {
                    let line: String = self.debug_line(
                        Flow::Out,
                        from_server,
                        interface,
                        header,
                        decl,
                        "dropped!",
                    );
                    lines.push(line);
                    assert(str_views(lines@) =~= first.push(line@));
                }
                Mediation { verdict: Verdict::Drop, fds: fds_into_vec(dmsg.fds), lines }
            },
            _ => {
                if shows_out(level, from_server) {
                    let body: String = describe_args(&dmsg.args, &dmsg.fds, self);
                    let line: String = self.debug_line(
                        Flow::Out,
                        from_server,
                        interface,
                        header,
                        decl,
                        body.as_str(),
                    );
                    lines.push(line);
                    assert(str_views(lines@) =~= first.push(line@));
                }
                let spare: Vec<Fd> = copy_fds(fds_slice(&dmsg.fds));
                match dmsg.marshal() {
                    Ok((fds, payload)) => Mediation { verdict: Verdict::Send(payload), fds, lines },
                    Err(e) => Mediation {
                        verdict: Verdict::Fail(MediateError::Marshal(e)),
                        fds: spare,
                        lines,
                    },
                }
            },
        }
    }

    /// Takes a message apart only to show it.
    fn mediate_shown<H: MessageHandler>(
        &mut self,
        from_server: bool,
        id: InterfaceId,
        in_msg: &[u32],
        in_fds: &mut VecDeque<Fd>,
        order: ByteOrder,
        Ghost(table): Ghost<Seq<H>>,
        Ghost(states): Ghost<Seq<H::State>>,
    ) -> (r: Mediation)
        requires
            old(self).actives().wf(),
            old(self).scene(table, order).subject(from_server, in_msg@, old(self).ids()) == Ok::<
                InterfaceId,
                MediateError,
            >(id),
        ensures
            ({
                let v = old(self).scene(table, order).shown(
                    from_server,
                    id,
                    in_msg@,
                    old(in_fds)@,
                    old(self).ids(),
                    states,
                );
                &&& r.verdict@ == v.verdict
                &&& r.fds@ == v.fds
                &&& str_views(r.lines@) == v.lines
                &&& final(in_fds)@ == v.left
                &&& final(self).ids() == v.ids
                &&& v.states == states
            }),
            r.verdict matches Verdict::Send(p) ==> p@.fits(),
            final(self).actives() == old(self).actives(),
            final(self).client() == old(self).client(),
            final(self).debug_level() == old(self).debug_level(),
    {
        let actives: &'a ActiveInterfaces = self.init_info.active_interfaces;
        let interface: &'a Interface = actives.interface(id);
        let header = MessageHeader::new(in_msg);
        let decl: &'a Message = interface.get_message(from_server, header.opcode as usize);
        let mut lines: Vec<String> = Vec::new();
        assert(str_views(lines@) =~= Seq::<Seq<char>>::empty());
        let mut dmsg = DemarshalledMessage::new(header, decl, in_msg, order);
        match dmsg.demarshal(in_fds, self) {
            Err(e) => {
                return Mediation {
                    verdict: Verdict::Fail(MediateError::Demarshal(e)),
                    fds: fds_into_vec(dmsg.fds),
                    lines,
                };
            },
            Ok(_) => {},
        }
        let body: String = describe_args(&dmsg.args, &dmsg.fds, self);
        let line: String = self.debug_line(
            Flow::Unified,
            from_server,
            interface,
            header,
            decl,
            body.as_str(),
        );
        lines.push(line);
        assert(str_views(lines@) =~= seq![line@]);
        let (fds, payload): (Vec<Fd>, Payload) = dmsg.relay_unmodified();
        Mediation { verdict: Verdict::Send(payload), fds, lines }
    }

    /// Passes a message on without taking it apart.
    #[verifier::rlimit(30)]
    fn mediate_passed<H: MessageHandler>(
        &mut self,
        from_server: bool,
        id: InterfaceId,
        in_msg: &[u32],
        in_fds: &mut VecDeque<Fd>,
        order: ByteOrder,
        Ghost(table): Ghost<Seq<H>>,
        Ghost(states): Ghost<Seq<H::State>>,
    ) -> (r: Mediation)
        requires
            old(self).actives().wf(),
            old(self).scene(table, order).subject(from_server, in_msg@, old(self).ids()) == Ok::<
                InterfaceId,
                MediateError,
            >(id),
        ensures
            ({
                let v = old(self).scene(table, order).passed(
                    from_server,
                    id,
                    in_msg@,
                    old(in_fds)@,
                    old(self).ids(),
                    states,
                );
                &&& r.verdict@ == v.verdict
                &&& r.fds@ == v.fds
                &&& str_views(r.lines@) == v.lines
                &&& final(in_fds)@ == v.left
                &&& final(self).ids() == v.ids
                &&& v.states == states
            }),
            r.verdict matches Verdict::Send(p) ==> p@.fits(),
            final(self).actives() == old(self).actives(),
            final(self).client() == old(self).client(),
            final(self).debug_level() == old(self).debug_level(),
    {
        let actives: &'a ActiveInterfaces = self.init_info.active_interfaces;
        let interface: &'a Interface = actives.interface(id);
        let header = MessageHeader::new(in_msg);
        let decl: &'a Message = interface.get_message(from_server, header.opcode as usize);
        let lines: Vec<String> = Vec::new();
        assert(str_views(lines@) =~= Seq::<Seq<char>>::empty());
        match decl.get_new_id_interface() {
            None => {},
            Some(created) => {
                let new_id: u32 = match decl.find_new_id(in_msg) {
                    None => {
                        return Mediation {
                            verdict: Verdict::Fail(MediateError::NoNewId),
                            fds: Vec::new(),
                            lines,
                        };
                    },
                    Some(new_id) => new_id,
                };
                match self.add(new_id, created) {
                    Err(e) => {
                        return Mediation {
                            verdict: Verdict::Fail(MediateError::Id(e)),
                            fds: Vec::new(),
                            lines,
                        };
                    },
                    Ok(_) => {},
                }
            },
        }
        if (in_fds.len() as u64) < (decl.num_fds as u64) {
            return Mediation {
                verdict: Verdict::Fail(MediateError::NotEnoughFds),
                fds: Vec::new(),
                lines,
            };
        }
        let fds: Vec<Fd> = drain_fds(in_fds, decl.num_fds as usize);
        let mut words: Vec<u32> = Vec::new();
        words.extend_from_slice(in_msg);
        assert(words@ =~= in_msg@);
        Mediation { verdict: Verdict::Send(Payload::Raw(words)), fds, lines }
    }

    /// Decides what becomes of a message that has come in from the client (`index` zero) or from the
    /// server. If there are handlers for it, it is taken apart, the handlers see it in turn, and it is
    /// put together again if it may have been changed. Else it is passed on as it is.
    pub fn mediate<H: MessageHandler>(
        &mut self,
        index: usize,
        in_msg: &[u32],
        in_fds: &mut VecDeque<Fd>,
        handlers: &Vec<H>,
        group_states: &mut Vec<H::State>,
        order: ByteOrder,
    ) -> (r: Mediation)
        requires
            old(self).actives().wf(),
        ensures
            ({
                let v = old(self).scene(handlers@, order).mediated(
                    index > 0,
                    in_msg@,
                    old(in_fds)@,
                    old(self).ids(),
                    old(group_states)@,
                );
                &&& r.verdict@ == v.verdict
                &&& r.fds@ == v.fds
                &&& str_views(r.lines@) == v.lines
                &&& final(in_fds)@ == v.left
                &&& final(self).ids() == v.ids
                &&& final(group_states)@ == v.states
            }),
            r.verdict matches Verdict::Send(p) ==> p@.fits(),
            final(self).actives() == old(self).actives(),
            final(self).client() == old(self).client(),
            final(self).debug_level() == old(self).debug_level(),
    {
        let from_server: bool = index > 0;
        let id: InterfaceId = match self.find_subject(from_server, in_msg) {
            Err(e) => {
                let lines: Vec<String> = Vec::new();
                assert(str_views(lines@) =~= Seq::<Seq<char>>::empty());
                return Mediation { verdict: Verdict::Fail(e), fds: Vec::new(), lines };
            },
            Ok(id) => id,
        };
        assert(self.scene(handlers@, order).subject(from_server, in_msg@, self.ids()) == Ok::<
            InterfaceId,
            MediateError,
        >(id));
        let actives: &'a ActiveInterfaces = self.init_info.active_interfaces;
        let header = MessageHeader::new(in_msg);
        let decl: &'a Message = actives.interface(id).get_message(
            from_server,
            header.opcode as usize,
        );
        if decl.handlers.0.is_some() {
            self.mediate_handled(from_server, id, in_msg, in_fds, handlers, group_states, order)
        } else {
            let ghost states = group_states@;
            if self.init_info.debug_level == 0 {
                self.mediate_passed::<H>(
                    from_server,
                    id,
                    in_msg,
                    in_fds,
                    order,
                    Ghost(handlers@),
                    Ghost(states),
                )
            } else {
                self.mediate_shown::<H>(
                    from_server,
                    id,
                    in_msg,
                    in_fds,
                    order,
                    Ghost(handlers@),
                    Ghost(states),
                )
            }
        }
    }

    /// Finds the interface of the object that a message is for.
    fn find_subject(&self, from_server: bool, in_msg: &[u32]) -> (r: Result<InterfaceId, MediateError>)
        ensures
            r == self.subject(from_server, in_msg@),
    {
        match get_msg_length(in_msg) {
            Some(n) if n == in_msg.len() => {},
            _ => {
                return Err(MediateError::BadHeader);
            },
        }
        let word_2: u32 = in_msg[1];
        if word_2 / 65536 > MAX_BYTES_OUT as u32 {
            return Err(MediateError::BadHeader);
        }
        let header = MessageHeader::new(in_msg);
        let actives: &ActiveInterfaces = self.init_info.active_interfaces;
        match self.id_map.try_lookup(header.object_id) {
            Some(id) => {
                if id.protocol >= actives.protocols.len() || id.index
                    >= actives.protocols[id.protocol].interfaces.len() {
                    return Err(MediateError::NoSuchObject);
                }
                let interface: &Interface = actives.interface(id);
                let count: usize = if from_server {
                    interface.events.len()
                } else {
                    interface.requests.len()
                };
                if (header.opcode as usize) < count {
                    Ok(id)
                } else {
                    Err(MediateError::NoSuchMessage)
                }
            },
            None => Err(MediateError::NoSuchObject),
        }
    }

    /// The interface of the object that a message is for, if there is such a message.
    pub open spec fn subject(self, from_server: bool, source: Seq<u32>) -> Result<
        InterfaceId,
        MediateError,
    > {
        subject_of(self.actives(), from_server, source, self.ids())
    }
}

fn copy_fds(fds: &[Fd]) -> (r: Vec<Fd>)
    ensures
        r@ == fds@,
{
    let mut out: Vec<Fd> = Vec::new();
    out.extend_from_slice(fds);
    assert(out@ =~= fds@);
    out
}

} // verus!
