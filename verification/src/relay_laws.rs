//! What becomes of a message on its way from one side to the other.

use crate::args::body_words;
use crate::basics::{ByteOrder, Fd};
use crate::for_handlers::{HandlerError, MessageHandler, MessageHandlerResult, MessageInfoV};
use crate::header::MessageHeader;
use crate::map::{law_added_is_found, IdMapV};
use crate::mediator::{HandlersRun, MediateError, MediationV, Scene, VerdictV};
use crate::message::{outgoing, MarshalError, Progress, Wire};
use crate::outbuffer::PayloadV;
use crate::protocol::{HandlerEntry, Interface, Message, SpecialMessage};
use crate::session_laws::{law_mediation_keeps_fds, law_stopped_is_seen_by_no_other};
use crate::wire_laws::{law_new_id_is_found, starts_at};
use vstd::prelude::*;

verus! {

/// Whether some words are one message: there is a header, and the size in the upper half of its
/// second word is that of the words, up to what fills the last one, and no larger than is allowed.
pub open spec fn is_one_message(source: Seq<u32>) -> bool {
    &&& source.len() >= 2
    &&& source[1] / 0x1_0000 <= 4096
    &&& 4 * (source.len() - 1) < source[1] / 0x1_0000 <= 4 * source.len()
}

/// The requests or the events of an interface.
pub open spec fn messages_from(i: Interface, from_server: bool) -> Seq<Message> {
    if from_server {
        i.events@
    } else {
        i.requests@
    }
}

impl<H: MessageHandler> Scene<H> {
    /// The messages that may come for the object that a message is for, if it is live.
    pub open spec fn messages_for(self, from_server: bool, source: Seq<u32>, ids: IdMapV) -> Option<
        Seq<Message>,
    > {
        match ids.lookup(source[0]) {
            None => None,
            Some(id) => if id.protocol < self.actives.protocols@.len() && id.index
                < self.actives.protocols@[id.protocol as int].interfaces@.len() {
                Some(
                    messages_from(
                        self.actives.protocols@[id.protocol as int].interfaces@[id.index as int],
                        from_server,
                    ),
                )
            } else {
                None
            },
        }
    }

    /// Whether some words are a message for a live object, and this is the one that it is.
    pub open spec fn is_message(
        self,
        from_server: bool,
        source: Seq<u32>,
        ids: IdMapV,
        decl: Message,
    ) -> bool {
        &&& is_one_message(source)
        &&& self.messages_for(from_server, source, ids) matches Some(messages) && source[1]
            % 0x1_0000 < messages.len() && messages[(source[1] % 0x1_0000) as int] == decl
    }
}

/// Words that are no message for a live object are refused, each for its reason. Nothing changes,
/// and no file descriptor is taken.
pub proof fn law_what_is_no_message_is_refused<H: MessageHandler>(
    scene: Scene<H>,
    from_server: bool,
    source: Seq<u32>,
    fds: Seq<Fd>,
    ids: IdMapV,
    states: Seq<H::State>,
)
    ensures
        ({
            let m = scene.mediated(from_server, source, fds, ids, states);
            let messages = scene.messages_for(from_server, source, ids);
            let reason = if !is_one_message(source) {
                Some(MediateError::BadHeader)
            } else if messages is None {
                Some(MediateError::NoSuchObject)
            } else if source[1] % 0x1_0000 >= messages->0.len() {
                Some(MediateError::NoSuchMessage)
            } else {
                None
            };
            reason matches Some(e) ==> m == MediationV {
                verdict: VerdictV::Fail(e),
                fds: Seq::empty(),
                lines: Seq::empty(),
                left: fds,
                ids,
                states,
            }
        }),
{
}

/// A message that no handler is to see, and that makes no object, is sent word for word, with the
/// first of the file descriptors that have come, as many as it is declared with. If there are fewer,
/// it is refused. Nothing else changes.
pub proof fn law_messages_are_relayed<H: MessageHandler>(
    scene: Scene<H>,
    from_server: bool,
    source: Seq<u32>,
    fds: Seq<Fd>,
    ids: IdMapV,
    states: Seq<H::State>,
    decl: Message,
)
    requires
        scene.debug_level == 0,
        scene.is_message(from_server, source, ids, decl),
        decl.handlers.0 is None,
        decl.new_id_interface is None,
    ensures
        ({
            let m = scene.mediated(from_server, source, fds, ids, states);
            &&& fds.len() >= decl.num_fds ==> m == MediationV {
                verdict: VerdictV::Send(PayloadV::Raw(source)),
                fds: fds.take(decl.num_fds as int),
                lines: Seq::empty(),
                left: fds.skip(decl.num_fds as int),
                ids,
                states,
            }
            &&& fds.len() < decl.num_fds ==> m == MediationV {
                verdict: VerdictV::Fail(MediateError::NotEnoughFds),
                fds: Seq::empty(),
                lines: Seq::empty(),
                left: fds,
                ids,
                states,
            }
        }),
{
}

/// A message that no handler is to see, and that makes an object, is sent word for word too. From
/// then on the object is live, with the interface that is declared, and no other object is touched.
/// It is refused if its id cannot be used, or is not there.
pub proof fn law_new_objects_are_noted<H: MessageHandler>(
    scene: Scene<H>,
    from_server: bool,
    source: Seq<u32>,
    fds: Seq<Fd>,
    ids: IdMapV,
    states: Seq<H::State>,
    decl: Message,
    k: int,
    at: Seq<nat>,
    other: u32,
)
    requires
        scene.debug_level == 0,
        scene.is_message(from_server, source, ids, decl),
        decl.handlers.0 is None,
        decl.new_id_interface is Some,
        starts_at(decl, source, k, at),
        decl.args@[k].typ is NewId,
        fds.len() >= decl.num_fds,
    ensures
        ({
            let m = scene.mediated(from_server, source, fds, ids, states);
            let id = source[at[k] as int];
            &&& m.states == states
            &&& m.lines.len() == 0
            &&& at[k] >= source.len() ==> m.verdict == VerdictV::Fail(MediateError::NoNewId)
                && m.ids == ids && m.left == fds
            &&& at[k] < source.len() && ids.add_error(id) is Some ==> m.verdict == VerdictV::Fail(
                MediateError::Id(ids.add_error(id)->0),
            ) && m.ids == ids && m.left == fds
            &&& at[k] < source.len() && ids.add_error(id) is None ==> {
                &&& m.verdict == VerdictV::Send(PayloadV::Raw(source))
                &&& m.fds == fds.take(decl.num_fds as int)
                &&& m.left == fds.skip(decl.num_fds as int)
                &&& m.ids.lookup(id) == decl.new_id_interface
                &&& other != id ==> m.ids.lookup(other) == ids.lookup(other)
            }
        }),
{
    law_new_id_is_found(decl, source, k, at);
    let id = source[at[k] as int];
    if at[k] < source.len() && ids.add_error(id) is None {
        law_added_is_found(ids, id, decl.new_id_interface->0, id);
        law_added_is_found(ids, id, decl.new_id_interface->0, other);
    }
}

/// Whether handlers see a message in turn, each what the one before has left: `seen[i]` is what
/// handler number `i` of the queue is given, and all of them but the last have it passed to the next.
pub open spec fn in_turn<H: MessageHandler>(
    scene: Scene<H>,
    queue: Seq<HandlerEntry>,
    seen: Seq<HandlersRun<H::State>>,
) -> bool {
    &&& 0 < seen.len() <= queue.len() + 1
    &&& forall|i: int|
        #![trigger queue[i]]
        0 <= i < seen.len() - 1 ==> {
            let entry = queue[i];
            let e = scene.table[entry.handler as int].effect(
                seen[i].message,
                scene.actives,
                seen[i].ids,
                seen[i].states[entry.group as int],
            );
            &&& entry.handler < scene.table.len()
            &&& entry.group < seen[i].states.len()
            &&& e.result == Ok::<MessageHandlerResult, HandlerError>(MessageHandlerResult::Next)
            &&& seen[i + 1] == HandlersRun {
                message: e.message,
                ids: e.ids,
                states: seen[i].states.update(entry.group as int, e.state),
                stop: None,
            }
        }
}

proof fn lemma_in_turn<H: MessageHandler>(
    scene: Scene<H>,
    queue: Seq<HandlerEntry>,
    seen: Seq<HandlersRun<H::State>>,
    n: nat,
)
    requires
        in_turn(scene, queue, seen),
        n < seen.len(),
        seen[0].stop is None,
    ensures
        scene.run(queue, seen[0], n) == seen[n as int],
    decreases n,
{
    if n > 0 {
        lemma_in_turn(scene, queue, seen, (n - 1) as nat);
    }
}

/// What handlers are given at first: the message as it came, taken apart.
pub open spec fn as_it_came<S>(
    source: Seq<u32>,
    decl: Message,
    p: Progress,
    states: Seq<S>,
) -> HandlersRun<S> {
    HandlersRun {
        message: MessageInfoV {
            decl,
            object_id: source[0],
            size: (source[1] / 0x1_0000) as u16,
            args: p.args,
            modified: false,
            type_changed: false,
        },
        ids: p.ids,
        states,
        stop: None,
    }
}

/// Handlers see a message in the order of the queue. If all have it passed on, it is sent as the
/// last one left it, and word for word if none has changed it.
pub proof fn law_handlers_see_messages_in_turn<H: MessageHandler>(
    scene: Scene<H>,
    from_server: bool,
    source: Seq<u32>,
    fds: Seq<Fd>,
    ids: IdMapV,
    states: Seq<H::State>,
    decl: Message,
    seen: Seq<HandlersRun<H::State>>,
)
    requires
        scene.is_message(from_server, source, ids, decl),
        decl.handlers.0 is Some,
        in_turn(scene, decl.handlers.0->0@, seen),
        seen.len() == decl.handlers.0->0@.len() + 1,
        ({
            let wire = Wire { order: scene.order, source, decl, actives: scene.actives };
            let (p, error) = wire.demarshalled(
                Progress { args: Seq::empty(), taken: Seq::empty(), left: fds, pos: 2, ids },
            );
            error is None && seen[0] == as_it_came(source, decl, p, states)
        }),
    ensures
        ({
            let m = scene.mediated(from_server, source, fds, ids, states);
            let last = seen.last();
            let body = body_words(scene.order, last.message.args);
            &&& m.ids == last.ids
            &&& m.states == last.states
            &&& m.fds + m.left == fds
            &&& !last.message.modified && !last.message.type_changed ==> m.verdict
                == VerdictV::Send(PayloadV::Raw(source))
            &&& last.message.modified && !last.message.type_changed && body.len() + 2 <= 1024
                ==> m.verdict is Send && m.verdict->Send_0.words() == rewritten(source, body)
            &&& last.message.modified && !last.message.type_changed && body.len() + 2 > 1024
                ==> m.verdict == VerdictV::Fail(MediateError::Marshal(MarshalError::TooLong))
        }),
{
    let queue = decl.handlers.0->0@;
    lemma_in_turn(scene, queue, seen, queue.len());
    law_mediation_keeps_fds(scene, from_server, source, fds, ids, states);
    let last = seen.last();
    let body = body_words(scene.order, last.message.args);
    assert(last.message.args.take(last.message.args.len() as int) =~= last.message.args);
    let m = scene.mediated(from_server, source, fds, ids, states);
    if last.message.modified && !last.message.type_changed && body.len() + 2 <= 1024 {
        assert(m.verdict->Send_0.words() =~= rewritten(source, body));
    }
}

/// A message with the object and the number of another one, and other arguments: its size is that of
/// its words.
pub open spec fn rewritten(source: Seq<u32>, body: Seq<u32>) -> Seq<u32> {
    seq![
        source[0],
        (4 * (body.len() + 2) * 0x1_0000 + source[1] % 0x1_0000) as u32,
    ] + body
}

/// A handler that has a message dropped, sent or refused decides for itself: the rest of the queue
/// does not see it.
pub proof fn law_a_handler_can_decide<H: MessageHandler>(
    scene: Scene<H>,
    from_server: bool,
    source: Seq<u32>,
    fds: Seq<Fd>,
    ids: IdMapV,
    states: Seq<H::State>,
    decl: Message,
    seen: Seq<HandlersRun<H::State>>,
)
    requires
        scene.is_message(from_server, source, ids, decl),
        decl.handlers.0 is Some,
        in_turn(scene, decl.handlers.0->0@, seen),
        seen.len() <= decl.handlers.0->0@.len(),
        ({
            let wire = Wire { order: scene.order, source, decl, actives: scene.actives };
            let (p, error) = wire.demarshalled(
                Progress { args: Seq::empty(), taken: Seq::empty(), left: fds, pos: 2, ids },
            );
            error is None && seen[0] == as_it_came(source, decl, p, states)
        }),
        ({
            let entry = decl.handlers.0->0@[seen.len() - 1];
            entry.handler < scene.table.len() && entry.group < seen.last().states.len()
        }),
    ensures
        ({
            let m = scene.mediated(from_server, source, fds, ids, states);
            let last = seen.last();
            let entry = decl.handlers.0->0@[seen.len() - 1];
            let e = scene.table[entry.handler as int].effect(
                last.message,
                scene.actives,
                last.ids,
                last.states[entry.group as int],
            );
            &&& e.result == Ok::<MessageHandlerResult, HandlerError>(MessageHandlerResult::Drop)
                ==> m.verdict == VerdictV::Drop && m.ids == e.ids && m.states
                == last.states.update(entry.group as int, e.state)
            &&& e.result == Ok::<MessageHandlerResult, HandlerError>(MessageHandlerResult::Send)
                && !e.message.modified && !e.message.type_changed ==> m.verdict == VerdictV::Send(
                PayloadV::Raw(source),
            ) && m.ids == e.ids && m.states == last.states.update(entry.group as int, e.state)
            &&& e.result matches Err(error) ==> m.verdict == VerdictV::Fail(
                MediateError::Handler(error),
            )
        }),
{
    let queue = decl.handlers.0->0@;
    let n = (seen.len() - 1) as nat;
    lemma_in_turn(scene, queue, seen, n);
    assert(seen.last().stop is None);
    let entry = queue[n as int];
    let e = scene.table[entry.handler as int].effect(
        seen.last().message,
        scene.actives,
        seen.last().ids,
        seen.last().states[entry.group as int],
    );
    if e.result != Ok::<MessageHandlerResult, HandlerError>(MessageHandlerResult::Next) {
        assert(scene.run(queue, seen[0], n + 1).stop is Some);
        law_stopped_is_seen_by_no_other(scene, queue, seen[0], n);
    }
}

/// A message that cannot be taken apart is refused, and handlers do not see it.
pub proof fn law_broken_messages_are_refused<H: MessageHandler>(
    scene: Scene<H>,
    from_server: bool,
    source: Seq<u32>,
    fds: Seq<Fd>,
    ids: IdMapV,
    states: Seq<H::State>,
    decl: Message,
)
    requires
        scene.is_message(from_server, source, ids, decl),
        decl.handlers.0 is Some || scene.debug_level != 0,
    ensures
        ({
            let wire = Wire { order: scene.order, source, decl, actives: scene.actives };
            let (p, error) = wire.demarshalled(
                Progress { args: Seq::empty(), taken: Seq::empty(), left: fds, pos: 2, ids },
            );
            let m = scene.mediated(from_server, source, fds, ids, states);
            error matches Some(e) ==> m.verdict == VerdictV::Fail(MediateError::Demarshal(e))
                && m.states == states
        }),
{
}

/// A message whose arguments may be of other types is sent only if they are as many as are declared.
/// The request to bind has two more.
pub proof fn law_arguments_are_counted(
    order: ByteOrder,
    header: MessageHeader,
    source: Seq<u32>,
    m: MessageInfoV,
)
    requires
        m.type_changed,
        m.args.len() != m.decl.args@.len(),
        m.decl.special != Some(SpecialMessage::WlRegistryBind) || m.args.len()
            != m.decl.args@.len() + 2,
    ensures
        outgoing(order, header, source, m) == Err::<PayloadV, MarshalError>(MarshalError::ArgCount),
{
}

/// What is sent of a message whose arguments may be of other types: nothing, unless they are those
/// that are declared.
pub proof fn law_types_are_checked(
    order: ByteOrder,
    header: MessageHeader,
    source: Seq<u32>,
    m: MessageInfoV,
    i: int,
)
    requires
        m.type_changed,
        m.args.len() == m.decl.args@.len(),
    ensures
        0 <= i < m.args.len() && m.args[i].typ() != m.decl.args@[i].typ ==> outgoing(
            order,
            header,
            source,
            m,
        ) == Err::<PayloadV, MarshalError>(MarshalError::TypeMismatch),
        ({
            let body = body_words(order, m.args);
            (forall|k: int|
                0 <= k < m.args.len() ==> (#[trigger] m.args[k]).typ() == m.decl.args@[k].typ)
                && body.len() + 2 <= 1024 ==> outgoing(order, header, source, m) == Ok::<
                PayloadV,
                MarshalError,
            >(PayloadV::Marshalled(header, body))
        }),
{
    assert(m.args.take(m.decl.args@.len() as int) =~= m.args);
}

} // verus!
