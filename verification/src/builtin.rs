//! The handlers that every session has.

use crate::actives::{law_active_is_found, names_at, ActiveInterfaces};
use crate::addons::{GroupState, Handler};
use crate::args::{ArgData, ArgDataV};
use crate::for_handlers::{
    AddHandlerError, HandlerError, MessageHandler, MessageHandlerResult, MessageInfo, MessageInfoV,
    SessionInfo, SessionInitInfo,
};
use crate::handlers::{message_at, AddHandler, AllHandlersV};
use crate::limits::name_at;
use crate::linkup::{is_place, place_named};
use crate::map::IdMapV;
use crate::message::DemarshalledMessage;
use crate::protocol::{lemma_name_index, message_names, name_index, InterfaceId};
use crate::text::{decode_text, utf8_text};
use vstd::prelude::*;
use vstd::utf8::{
    decode_utf8, decode_utf8_encode_utf8, encode_utf8, encode_utf8_decode_utf8,
    encode_utf8_valid_utf8, valid_utf8,
};

verus! {

/// What becomes of the announcement of a global, and what is answered: it is dropped if the global is
/// not active, and else sent with a version that is no higher than the limit. No other handler sees
/// it.
pub open spec fn announced(m: MessageInfoV, actives: ActiveInterfaces) -> (
    Result<MessageHandlerResult, HandlerError>,
    MessageInfoV,
) {
    if m.args.len() < 3 || !(m.args[1] is String) {
        (Err(HandlerError::UnexpectedArgument), m)
    } else {
        match utf8_text(m.args[1]->String_0) {
            None => (Err(HandlerError::NotUtf8), m),
            Some(name) => match m.args[2] {
                ArgDataV::Uint(version) => match actives.global_named(name) {
                    None => (Ok(MessageHandlerResult::Drop), m),
                    Some(id) => {
                        let limit = actives.get(id).limited_version->0;
                        if limit == 0 {
                            (Ok(MessageHandlerResult::Drop), m)
                        } else if version > limit {
                            (
                                Ok(MessageHandlerResult::Send),
                                MessageInfoV {
                                    args: m.args.update(2, ArgDataV::Uint(limit)),
                                    modified: true,
                                    ..m
                                },
                            )
                        } else {
                            (Ok(MessageHandlerResult::Send), m)
                        }
                    },
                },
                _ => (Err(HandlerError::UnexpectedArgument), m),
            },
        }
    }
}

/// Drops the announcement of a global that is not active, and limits the version of any other.
pub fn wl_registry_global_handler<'a, S: SessionInfo>(
    msg: &mut DemarshalledMessage<'a>,
    session_info: &S,
) -> (r: Result<MessageHandlerResult, HandlerError>)
    requires
        session_info.actives().wf(),
    ensures
        (r, final(msg).info()) == announced(old(msg).info(), session_info.actives()),
        final(msg).msg_decl == old(msg).msg_decl,
        final(msg).header == old(msg).header,
        final(msg).source == old(msg).source,
        final(msg).fds == old(msg).fds,
        final(msg).order == old(msg).order,
{
    if msg.get_num_args() < 3 {
        return Err(HandlerError::UnexpectedArgument);
    }
    let name: String = match msg.get_arg(1) {
        ArgData::String(text) => match decode_text(text.as_slice()) {
            None => {
                return Err(HandlerError::NotUtf8);
            },
            Some(name) => name,
        },
        _ => {
            return Err(HandlerError::UnexpectedArgument);
        },
    };
    let advertised_version: u32 = match msg.get_arg(2) {
        ArgData::Uint(version) => *version,
        _ => {
            return Err(HandlerError::UnexpectedArgument);
        },
    };
    let limited_version: u32 = match session_info.get_active_interfaces().maybe_get_global(
        name.as_str(),
    ) {
        None => {
            return Ok(MessageHandlerResult::Drop);
        },
        Some(interface) => *interface.version().unwrap(),
    };
    if limited_version == 0 {
        return Ok(MessageHandlerResult::Drop);
    }
    if advertised_version > limited_version {
        msg.set_arg(2, ArgData::Uint(limited_version));
    }
    Ok(MessageHandlerResult::Send)
}

/// Sends a request to bind a global. What there is to do has been done when it was taken apart, and
/// its arguments are not the declared ones, so that no other handler could deal with it.
pub fn wl_registry_bind_handler() -> (r: Result<MessageHandlerResult, HandlerError>)
    ensures
        r == Ok::<MessageHandlerResult, HandlerError>(MessageHandlerResult::Send),
{
    Ok(MessageHandlerResult::Send)
}

/// What is answered to the news that an object is gone, and what is recorded.
pub open spec fn gone(m: MessageInfoV, ids: IdMapV) -> (
    Result<MessageHandlerResult, HandlerError>,
    IdMapV,
) {
    if m.args.len() > 0 && m.args[0] is Object {
        (Ok(MessageHandlerResult::Next), ids.deleted(m.args[0]->Object_0))
    } else {
        (Err(HandlerError::UnexpectedArgument), ids)
    }
}

/// Records that an object is gone.
pub fn wl_display_delete_id_handler<'a, S: SessionInfo>(
    msg: &DemarshalledMessage<'a>,
    session_info: &mut S,
) -> (r: Result<MessageHandlerResult, HandlerError>)
    ensures
        (r, final(session_info).ids()) == gone(msg.info(), old(session_info).ids()),
        final(session_info).actives() == old(session_info).actives(),
        final(session_info).client() == old(session_info).client(),
        final(session_info).debug_level() == old(session_info).debug_level(),
{
    if msg.get_num_args() == 0 {
        return Err(HandlerError::UnexpectedArgument);
    }
    match msg.get_arg(0) {
        ArgData::Object(id) => {
            session_info.delete(*id);
            Ok(MessageHandlerResult::Next)
        },
        _ => Err(HandlerError::UnexpectedArgument),
    }
}

/// All handlers with those that every session has.
pub open spec fn with_builtins(v: AllHandlersV<Handler>) -> Result<
    AllHandlersV<Handler>,
    AddHandlerError,
> {
    match v.added("wl_registry"@, "global"@, false, true, Handler::RegistryGlobal) {
        Err(e) => Err(e),
        Ok(v) => match v.added("wl_registry"@, "bind"@, true, true, Handler::RegistryBind) {
            Err(e) => Err(e),
            Ok(v) => v.added("wl_display"@, "delete_id"@, false, false, Handler::DeleteId),
        },
    }
}

/// Adds the handlers that every session has. They are added last: those for the registry come before
/// all handlers of addons, which they keep out, and the one for deleted objects comes behind them.
pub fn add_builtin_handlers<A: AddHandler<Handler>>(adder: &mut A) -> (r: Result<
    (),
    AddHandlerError,
>)
    requires
        old(adder).ready(),
    ensures
        final(adder).ready(),
        match (r, with_builtins(old(adder).all())) {
            (Ok(_), Ok(v)) => final(adder).all() == v,
            (Err(e), Err(f)) => e == f,
            _ => false,
        },
{
    match adder.event_push_front("wl_registry", "global", Handler::RegistryGlobal) {
        Err(e) => {
            return Err(e);
        },
        Ok(_) => {},
    }
    match adder.request_push_front("wl_registry", "bind", Handler::RegistryBind) {
        Err(e) => {
            return Err(e);
        },
        Ok(_) => {},
    }
    adder.event_push_back("wl_display", "delete_id", Handler::DeleteId)
}

/// The announcement of a global reaches the client only if the global is active, and then with a
/// version that is no higher than the limit and no higher than the announced one.
pub proof fn law_announced_is_limited(m: MessageInfoV, actives: ActiveInterfaces)
    requires
        announced(m, actives).0 == Ok::<MessageHandlerResult, HandlerError>(
            MessageHandlerResult::Send,
        ),
    ensures
        ({
            let name = utf8_text(m.args[1]->String_0)->0;
            let sent = announced(m, actives).1.args;
            &&& actives.global_named(name) is Some
            &&& sent[2] is Uint
            &&& sent[2]->Uint_0 <= m.args[2]->Uint_0
            &&& sent[2]->Uint_0 <= actives.get(actives.global_named(name)->0).limited_version->0
        }),
{
}

/// Whether the interfaces that take part are there.
pub open spec fn placed(v: AllHandlersV<Handler>) -> bool {
    forall|i: int| 0 <= i < v.map.len() ==> is_place(v.protocols, #[trigger] v.map[i])
}

proof fn lemma_place(v: AllHandlersV<Handler>, name: Seq<char>, message: Seq<char>, is_request: bool)
    requires
        placed(v),
    ensures
        v.place(name, message, is_request) matches Ok((id, k)) ==> {
            let i = v.protocols[id.protocol as int].interfaces[id.index as int];
            &&& is_place(v.protocols, id)
            &&& i.name == name
            &&& 0 <= k < (if is_request {
                i.requests.len()
            } else {
                i.events.len()
            })
        },
{
    let names = Seq::new(v.map.len(), |i: int| name_at(v.protocols, v.map[i]));
    lemma_name_index(names, name);
    if let Some(id) = place_named(v.protocols, v.map, name) {
        let i = v.protocols[id.protocol as int].interfaces[id.index as int];
        lemma_name_index(message_names(i.requests), message);
        lemma_name_index(message_names(i.events), message);
    }
}

/// One more handler changes no name, so that all messages are found where they were.
proof fn lemma_pushed_place(
    v: AllHandlersV<Handler>,
    id: InterfaceId,
    is_request: bool,
    k: int,
    front: bool,
    handler: Handler,
    name: Seq<char>,
    message: Seq<char>,
    of_request: bool,
)
    requires
        placed(v),
        is_place(v.protocols, id),
        0 <= k < (if is_request {
            v.protocols[id.protocol as int].interfaces[id.index as int].requests.len()
        } else {
            v.protocols[id.protocol as int].interfaces[id.index as int].events.len()
        }),
    ensures
        placed(v.pushed(id, is_request, k, front, handler)),
        v.pushed(id, is_request, k, front, handler).place(name, message, of_request) == v.place(
            name,
            message,
            of_request,
        ),
{
    let w = v.pushed(id, is_request, k, front, handler);
    assert forall|i: int| 0 <= i < w.map.len() implies is_place(w.protocols, #[trigger] w.map[i]) by {
        assert(is_place(v.protocols, v.map[i]));
    }
    assert forall|i: int| 0 <= i < v.map.len() implies name_at(w.protocols, #[trigger] v.map[i])
        == name_at(v.protocols, v.map[i]) by {
        assert(is_place(v.protocols, v.map[i]));
    }
    let names = Seq::new(v.map.len(), |i: int| name_at(v.protocols, v.map[i]));
    assert(Seq::new(w.map.len(), |i: int| name_at(w.protocols, w.map[i])) =~= names);
    lemma_name_index(names, name);
    if let Some(at) = place_named(v.protocols, v.map, name) {
        let i = v.protocols[at.protocol as int].interfaces[at.index as int];
        let j = w.protocols[at.protocol as int].interfaces[at.index as int];
        assert(is_place(v.protocols, at));
        assert(message_names(j.requests) =~= message_names(i.requests));
        assert(message_names(j.events) =~= message_names(i.events));
        lemma_name_index(message_names(i.requests), message);
        lemma_name_index(message_names(i.events), message);
    }
}

/// The handler of the entry at one end of the queue of a message.
pub open spec fn end_handler(
    v: AllHandlersV<Handler>,
    id: InterfaceId,
    is_request: bool,
    k: int,
    front: bool,
) -> Option<Handler> {
    match message_at(v.protocols, id, is_request, k).handlers {
        Some(queue) if queue.len() > 0 => {
            let entry = if front {
                queue[0]
            } else {
                queue.last()
            };
            if entry.handler < v.handlers.len() {
                Some(v.handlers[entry.handler as int])
            } else {
                None
            }
        },
        _ => None,
    }
}

/// Whatever handlers addons have added before: the handler that every session has for the
/// announcement of globals is the first to see them, the one for requests to bind them is the first
/// to see those, and the one for deleted objects is the last to see the news.
pub proof fn law_builtins_have_their_places(v: AllHandlersV<Handler>)
    requires
        placed(v),
        v.handlers.len() + 3 <= usize::MAX,
        with_builtins(v) is Ok,
    ensures
        ({
            let w = with_builtins(v)->Ok_0;
            let (global, k) = v.place("wl_registry"@, "global"@, false)->Ok_0;
            let (bind, l) = v.place("wl_registry"@, "bind"@, true)->Ok_0;
            let (gone, m) = v.place("wl_display"@, "delete_id"@, false)->Ok_0;
            &&& v.place("wl_registry"@, "global"@, false) is Ok
            &&& v.place("wl_registry"@, "bind"@, true) is Ok
            &&& v.place("wl_display"@, "delete_id"@, false) is Ok
            &&& end_handler(w, global, false, k, true) == Some(Handler::RegistryGlobal)
            &&& end_handler(w, bind, true, l, true) == Some(Handler::RegistryBind)
            &&& end_handler(w, gone, false, m, false) == Some(Handler::DeleteId)
        }),
{
    reveal_strlit("wl_registry");
    reveal_strlit("wl_display");
    assert("wl_registry"@.len() == 11 && "wl_display"@.len() == 10);
    let (global, k) = v.place("wl_registry"@, "global"@, false)->Ok_0;
    let v1 = v.pushed(global, false, k, true, Handler::RegistryGlobal);
    lemma_place(v, "wl_registry"@, "global"@, false);
    lemma_pushed_place(
        v,
        global,
        false,
        k,
        true,
        Handler::RegistryGlobal,
        "wl_registry"@,
        "bind"@,
        true,
    );
    lemma_pushed_place(
        v,
        global,
        false,
        k,
        true,
        Handler::RegistryGlobal,
        "wl_display"@,
        "delete_id"@,
        false,
    );
    let (bind, l) = v1.place("wl_registry"@, "bind"@, true)->Ok_0;
    let v2 = v1.pushed(bind, true, l, true, Handler::RegistryBind);
    lemma_place(v1, "wl_registry"@, "bind"@, true);
    lemma_pushed_place(
        v1,
        bind,
        true,
        l,
        true,
        Handler::RegistryBind,
        "wl_display"@,
        "delete_id"@,
        false,
    );
    let (gone, m) = v2.place("wl_display"@, "delete_id"@, false)->Ok_0;
    lemma_place(v2, "wl_display"@, "delete_id"@, false);
    lemma_place(v1, "wl_display"@, "delete_id"@, false);
    lemma_place(v, "wl_display"@, "delete_id"@, false);
    let w = v2.pushed(gone, false, m, false, Handler::DeleteId);
    assert(with_builtins(v) == Ok::<AllHandlersV<Handler>, AddHandlerError>(w));
    assert(gone != global);
    assert(gone != bind);
    let first = message_at(v1.protocols, global, false, k);
    assert(first.handlers->0[0] == v.next_entry());
    assert(message_at(v2.protocols, global, false, k) == first);
    assert(message_at(w.protocols, global, false, k) == first);
    let second = message_at(v2.protocols, bind, true, l);
    assert(second.handlers->0[0] == v1.next_entry());
    assert(message_at(w.protocols, bind, true, l) == second);
}

/// The announcement of an active global with a limit of at least one is sent to the client, whatever
/// its version: with the smaller of the version that was announced and the limit, and with all other
/// arguments as they came. It counts as changed only where the version has been lowered.
pub proof fn law_active_globals_are_announced(
    m: MessageInfoV,
    actives: ActiveInterfaces,
    ids: IdMapV,
    state: GroupState,
    k: int,
)
    requires
        actives.wf(),
        0 <= k < actives.map@.len(),
        ({
            let global = actives.get(actives.map@[k]);
            &&& global.parent is None
            &&& global.limited_version->0 >= 1
            &&& m.args.len() >= 3
            &&& m.args[1] == ArgDataV::String(encode_utf8(global.name@))
            &&& m.args[2] is Uint
        }),
    ensures
        ({
            let limit = actives.get(actives.map@[k]).limited_version->0;
            let version = m.args[2]->Uint_0;
            let e = Handler::RegistryGlobal.effect(m, actives, ids, state);
            &&& e.result == Ok::<MessageHandlerResult, HandlerError>(MessageHandlerResult::Send)
            &&& e.message.args.len() == m.args.len()
            &&& version <= limit ==> e.message.args[2] == ArgDataV::Uint(version)
            &&& version >= limit ==> e.message.args[2] == ArgDataV::Uint(limit)
            &&& forall|j: int|
                0 <= j < m.args.len() && j != 2 ==> #[trigger] e.message.args[j] == m.args[j]
            &&& e.message.modified == (m.modified || version > limit)
            &&& e.message.type_changed == m.type_changed
            &&& e.message.decl == m.decl
            &&& e.message.object_id == m.object_id
            &&& e.message.size == m.size
            &&& e.ids == ids
            &&& e.state == state
        }),
{
    let name = actives.get(actives.map@[k]).name@;
    encode_utf8_valid_utf8(name);
    encode_utf8_decode_utf8(name);
    law_active_is_found(actives, k, name);
    let e = Handler::RegistryGlobal.effect(m, actives, ids, state);
    assert(e.message == announced(m, actives).1);
}

/// The announcement of anything that is no active global, or one with a limit of zero, is dropped. So
/// the client hears of nothing that it may not bind.
pub proof fn law_nothing_else_is_announced(
    m: MessageInfoV,
    actives: ActiveInterfaces,
    ids: IdMapV,
    state: GroupState,
    name: Seq<char>,
)
    requires
        actives.wf(),
        m.args.len() >= 3,
        m.args[1] == ArgDataV::String(encode_utf8(name)),
        m.args[2] is Uint,
        forall|k: int|
            0 <= k < actives.map@.len() ==> {
                let i = actives.get(#[trigger] actives.map@[k]);
                i.name@ == name && i.parent is None ==> i.limited_version == Some(0u32)
            },
    ensures
        ({
            let e = Handler::RegistryGlobal.effect(m, actives, ids, state);
            &&& e.result == Ok::<MessageHandlerResult, HandlerError>(MessageHandlerResult::Drop)
            &&& e.ids == ids
            &&& e.state == state
        }),
{
    encode_utf8_valid_utf8(name);
    encode_utf8_decode_utf8(name);
    let names = names_at(actives.protocols@, actives.map@);
    lemma_name_index(names, name);
    if let Some(k) = name_index(names, name) {
        assert(actives.get(actives.map@[k]).name@ == name);
    }
}

/// An announcement that is not well formed ends the session: nothing is sent or dropped.
pub proof fn law_bad_announcements_are_errors(
    m: MessageInfoV,
    actives: ActiveInterfaces,
    ids: IdMapV,
    state: GroupState,
)
    ensures
        ({
            let result = Handler::RegistryGlobal.effect(m, actives, ids, state).result;
            let well_formed = m.args.len() >= 3 && m.args[1] is String && m.args[2] is Uint && (exists|
                name: Seq<char>,
            |
                m.args[1]->String_0 == #[trigger] encode_utf8(name));
            result is Err <==> !well_formed
        }),
{
    if m.args.len() >= 3 && m.args[1] is String {
        let text = m.args[1]->String_0;
        if valid_utf8(text) {
            decode_utf8_encode_utf8(text);
            assert(text == encode_utf8(decode_utf8(text)));
        }
        if exists|name: Seq<char>| text == #[trigger] encode_utf8(name) {
            let name = choose|name: Seq<char>| text == #[trigger] encode_utf8(name);
            encode_utf8_valid_utf8(name);
        }
    }
}

/// The news that an object is gone goes on to the next handler unchanged, and makes the object not
/// live; all other objects stay as they were.
pub proof fn law_deleted_objects_are_forgotten(
    m: MessageInfoV,
    actives: ActiveInterfaces,
    ids: IdMapV,
    state: GroupState,
    id: u32,
    other: u32,
)
    requires
        m.args.len() > 0,
        m.args[0] == ArgDataV::Object(id),
        other != id,
    ensures
        ({
            let e = Handler::DeleteId.effect(m, actives, ids, state);
            &&& e.result == Ok::<MessageHandlerResult, HandlerError>(MessageHandlerResult::Next)
            &&& e.message == m
            &&& e.state == state
            &&& e.ids.lookup(id) is None
            &&& e.ids.lookup(other) == ids.lookup(other)
            &&& ids.lookup(id) is Some ==> e.ids.add_error(id) is None
            &&& e.ids.add_error(other) == ids.add_error(other)
        }),
{
}

/// A request to bind a global is sent as it came.
pub proof fn law_binds_are_sent(
    m: MessageInfoV,
    actives: ActiveInterfaces,
    ids: IdMapV,
    state: GroupState,
)
    ensures
        ({
            let e = Handler::RegistryBind.effect(m, actives, ids, state);
            &&& e.result == Ok::<MessageHandlerResult, HandlerError>(MessageHandlerResult::Send)
            &&& e.message == m
            &&& e.ids == ids
            &&& e.state == state
        }),
{
}

} // verus!
