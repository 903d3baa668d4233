//! Addons. There is one: `safeclip`, which keeps the clipboard of its clients apart from others.
//!
//! Wayland's clipboard passes data under a mime type. Requests of the clients that pass through get
//! a prefix put before their mime types, and events reach the clients only where the mime type has
//! that prefix, which is then taken off. So clients that share a prefix share a clipboard, and see
//! nothing of any other, as long as no prefix starts with another one. The titles of their windows
//! get the prefix too, so that they can be told apart.

use crate::actives::ActiveInterfaces;
use crate::args::{ArgData, ArgDataV};
use crate::basics::MAX_BYTES_OUT;
use crate::builtin::{
    announced, gone, wl_display_delete_id_handler, wl_registry_bind_handler,
    wl_registry_global_handler,
};
use crate::for_handlers::{
    AddHandlerError, HandlerEffect, HandlerError, MessageHandler, MessageHandlerResult, MessageInfo,
    MessageInfoV, SessionInfo, SessionInitHandler, SessionInitInfo,
};
use crate::handlers::{AddHandler, AllHandlers, AllHandlersV};
use crate::linkup::{lemma_actives_wf, lemma_named_by_view, place_named};
use crate::map::IdMapV;
use crate::message::DemarshalledMessage;
use crate::protocol::{
    find_message, message_index, messages_view, Arg, ArgV, Interface, InterfaceId, Message,
    MessageV, Type,
};
use crate::text::{bytes_eq, copy_bytes, str_eq};
use vstd::prelude::*;

verus! {

/// A handler: one of those that every session has, or one of an addon.
#[derive(Debug, PartialEq, Eq, Clone, Copy, Structural)]
pub enum Handler {
    RegistryGlobal,
    RegistryBind,
    DeleteId,
    AddPrefix,
    RemovePrefix,
}

/// What a group knows in a session: the prefix that it was given, if it is one of `safeclip`.
#[derive(Debug)]
pub struct GroupState {
    pub prefix: Vec<u8>,
}

/// What the states of a group are made from: the prefix that it was given.
#[derive(Debug)]
pub struct Group {
    pub prefix: Vec<u8>,
}

impl SessionInitHandler for Group {
    type State = GroupState;

    fn init<I: SessionInitInfo>(&self, session_init_info: &I) -> (r: GroupState)
        ensures
            r.prefix@ == self.prefix@,
    {
        GroupState { prefix: copy_bytes(self.prefix.as_slice()) }
    }
}

/// A text with a prefix before it. Where the message would get too long, as many bytes are taken off
/// the end of the text as the prefix has; this is not possible if the text has fewer. A prefix that
/// holds a zero byte cannot be part of a text.
pub open spec fn prefix_added(prefix: Seq<u8>, text: Seq<u8>, size: u16) -> Option<Seq<u8>> {
    if size + prefix.len() > MAX_BYTES_OUT {
        if prefix.len() > text.len() || prefix.contains(0) {
            None
        } else {
            Some(prefix + text.take(text.len() - prefix.len()))
        }
    } else if prefix.contains(0) {
        None
    } else {
        Some(prefix + text)
    }
}

/// Whether a text, with the zero byte that ends it, starts with a prefix.
pub open spec fn is_prefixed(prefix: Seq<u8>, text: Seq<u8>) -> bool {
    prefix.len() <= text.len() + 1 && text.push(0).take(prefix.len() as int) == prefix
}

/// Whether a declared argument is one that gets the prefix.
pub open spec fn gets_prefix(arg: Arg) -> bool {
    arg.name@ == "mime_type"@ || arg.name@ == "title"@
}

/// What becomes of a request that is to get the prefix, and what is answered: the declared arguments
/// from number `i` on are looked through for a string that gets it.
pub open spec fn adding(prefix: Seq<u8>, m: MessageInfoV, i: nat) -> (
    Result<MessageHandlerResult, HandlerError>,
    MessageInfoV,
)
    decreases m.decl.args@.len() - i,
{
    if i >= m.decl.args@.len() || i >= m.args.len() {
        (Err(HandlerError::UnexpectedArgument), m)
    } else {
        match m.args[i as int] {
            ArgDataV::String(text) if gets_prefix(m.decl.args@[i as int]) => match prefix_added(
                prefix,
                text,
                m.size,
            ) {
                None => (Err(HandlerError::BadPrefix), m),
                Some(fixed) => (
                    Ok(MessageHandlerResult::Next),
                    MessageInfoV {
                        args: m.args.update(i as int, ArgDataV::String(fixed)),
                        modified: true,
                        ..m
                    },
                ),
            },
            _ => adding(prefix, m, i + 1),
        }
    }
}

/// What becomes of an event that is to have the prefix, and what is answered: the declared arguments
/// from number `i` on are looked through for a mime type. It is dropped if it does not have the
/// prefix.
pub open spec fn removing(prefix: Seq<u8>, m: MessageInfoV, i: nat) -> (
    Result<MessageHandlerResult, HandlerError>,
    MessageInfoV,
)
    decreases m.decl.args@.len() - i,
{
    if i >= m.decl.args@.len() {
        (Err(HandlerError::UnexpectedArgument), m)
    } else if m.decl.args@[i as int].name@ != "mime_type"@ {
        removing(prefix, m, i + 1)
    } else if i >= m.args.len() {
        (Err(HandlerError::UnexpectedArgument), m)
    } else {
        let touched = MessageInfoV { modified: true, type_changed: true, ..m };
        match m.args[i as int] {
            ArgDataV::String(text) => if !is_prefixed(prefix, text) {
                (Ok(MessageHandlerResult::Drop), touched)
            } else if prefix.len() > text.len() {
                (Err(HandlerError::BadPrefix), touched)
            } else {
                (
                    Ok(MessageHandlerResult::Next),
                    MessageInfoV {
                        args: m.args.update(
                            i as int,
                            ArgDataV::String(text.skip(prefix.len() as int)),
                        ),
                        ..touched
                    },
                )
            },
            _ => removing(prefix, touched, i + 1),
        }
    }
}

fn has_zero(bytes: &Vec<u8>) -> (r: bool)
    ensures
        r == bytes@.contains(0),
{
    let n: usize = bytes.len();
    for i in 0..n
        invariant
            n == bytes@.len(),
            forall|j: int| 0 <= j < i ==> bytes@[j] != 0,
    {
        if bytes[i] == 0 {
            return true;
        }
    }
    false
}

fn append_bytes(out: &mut Vec<u8>, bytes: &[u8], n: usize)
    requires
        n <= bytes@.len(),
    ensures
        final(out)@ == old(out)@ + bytes@.take(n as int),
{
    let ghost start = out@;
    let mut i: usize = 0;
    assert(start + bytes@.take(0) =~= start);
    while i < n
        invariant
            i <= n <= bytes@.len(),
            out@ == start + bytes@.take(i as int),
        decreases n - i,
    {
        out.push(bytes[i]);
        assert(out@ =~= start + bytes@.take(i + 1));
        i = i + 1;
    }
}

/// Puts a prefix before a text.
pub fn put_prefix(prefix: &Vec<u8>, text: &Vec<u8>, size: usize) -> (r: Option<Vec<u8>>)
    requires
        size <= u16::MAX,
    ensures
        match (r, prefix_added(prefix@, text@, size as u16)) {
            (Some(fixed), Some(f)) => fixed@ == f,
            (None, None) => true,
            _ => false,
        },
{
    let plen: usize = prefix.len();
    let mut keep: usize = text.len();
    if plen > MAX_BYTES_OUT || size + plen > MAX_BYTES_OUT {
        if plen > keep {
            return None;
        }
        keep = keep - plen;
    }
    if has_zero(prefix) {
        return None;
    }
    let mut fixed: Vec<u8> = copy_bytes(prefix.as_slice());
    append_bytes(&mut fixed, text.as_slice(), keep);
    assert(text@.take(text@.len() as int) =~= text@);
    Some(fixed)
}

/// Whether a text, with the zero byte that ends it, starts with a prefix.
pub fn prefixed(prefix: &Vec<u8>, text: &Vec<u8>) -> (r: bool)
    ensures
        r == is_prefixed(prefix@, text@),
{
    let plen: usize = prefix.len();
    let mut whole: Vec<u8> = copy_bytes(text.as_slice());
    whole.push(0);
    if plen > whole.len() {
        return false;
    }
    whole.truncate(plen);
    assert(whole@ =~= text@.push(0).take(plen as int));
    bytes_eq(whole.as_slice(), prefix.as_slice())
}

/// Puts the prefix before the first mime type or title of a request.
pub fn add_prefix<'a>(msg: &mut DemarshalledMessage<'a>, prefix: &Vec<u8>) -> (r: Result<
    MessageHandlerResult,
    HandlerError,
>)
    ensures
        (r, final(msg).info()) == adding(prefix@, old(msg).info(), 0),
        final(msg).msg_decl == old(msg).msg_decl,
        final(msg).header == old(msg).header,
        final(msg).source == old(msg).source,
        final(msg).fds == old(msg).fds,
        final(msg).order == old(msg).order,
{
    let ghost m = msg.info();
    let size: usize = msg.get_size();
    let decl: &'a Message = msg.msg_decl;
    let n: usize = decl.args.len();
    let count: usize = msg.get_num_args();
    let mut i: usize = 0;
    while i < n && i < count
        invariant
            i <= n,
            n == decl.args@.len(),
            count == m.args.len(),
            *msg == *old(msg),
            m == msg.info(),
            m.decl == *decl,
            size == m.size,
            adding(prefix@, m, 0) == adding(prefix@, m, i as nat),
        decreases n - i,
    {
        if let ArgData::String(text) = msg.get_arg(i) {
            let declared: &Arg = &decl.args[i];
            if str_eq(declared.name.as_str(), "mime_type") || str_eq(
                declared.name.as_str(),
                "title",
            ) {
                match put_prefix(prefix, text, size) {
                    None => {
                        return Err(HandlerError::BadPrefix);
                    },
                    Some(fixed) => {
                        msg.set_arg(i, ArgData::String(fixed));
                        return Ok(MessageHandlerResult::Next);
                    },
                }
            }
        }
        i = i + 1;
    }
    Err(HandlerError::UnexpectedArgument)
}

/// Takes the prefix off the mime type of an event, or has the event dropped.
pub fn remove_prefix<'a>(msg: &mut DemarshalledMessage<'a>, prefix: &Vec<u8>) -> (r: Result<
    MessageHandlerResult,
    HandlerError,
>)
    ensures
        (r, final(msg).info()) == removing(prefix@, old(msg).info(), 0),
        final(msg).msg_decl == old(msg).msg_decl,
        final(msg).header == old(msg).header,
        final(msg).source == old(msg).source,
        final(msg).fds == old(msg).fds,
        final(msg).order == old(msg).order,
{
    let ghost m = msg.info();
    let plen: usize = prefix.len();
    let decl: &'a Message = msg.msg_decl;
    let n: usize = decl.args.len();
    let mut i: usize = 0;
    while i < n
        invariant
            i <= n,
            n == decl.args@.len(),
            plen == prefix@.len(),
            msg.msg_decl == decl,
            msg.msg_decl == old(msg).msg_decl,
            msg.header == old(msg).header,
            msg.source == old(msg).source,
            msg.fds == old(msg).fds,
            msg.order == old(msg).order,
            m == old(msg).info(),
            removing(prefix@, m, 0) == removing(prefix@, msg.info(), i as nat),
        decreases n - i,
    {
        let ghost here = msg.info();
        if str_eq(decl.args[i].name.as_str(), "mime_type") {
            if i >= msg.get_num_args() {
                return Err(HandlerError::UnexpectedArgument);
            }
            let arg = msg.get_arg_mut(i);
            let replacement: Option<Vec<u8>> = match arg {
                ArgData::String(text) => {
                    if !prefixed(prefix, text) {
                        assert(here.args.update(i as int, here.args[i as int]) =~= here.args);
                        return Ok(MessageHandlerResult::Drop);
                    }
                    if plen > text.len() {
                        assert(here.args.update(i as int, here.args[i as int]) =~= here.args);
                        return Err(HandlerError::BadPrefix);
                    }
                    let rest = vstd::slice::slice_subrange(text.as_slice(), plen, text.len());
                    assert(rest@ =~= text@.skip(plen as int));
                    Some(copy_bytes(rest))
                },
                _ => None,
            };
            match replacement {
                Some(text) => {
                    *arg = ArgData::String(text);
                    return Ok(MessageHandlerResult::Next);
                },
                None => {
                    assert(here.args.update(i as int, here.args[i as int]) =~= here.args);
                },
            }
        }
        i = i + 1;
    }
    Err(HandlerError::UnexpectedArgument)
}

impl MessageHandler for Handler {
    type State = GroupState;

    open spec fn effect(
        &self,
        message: MessageInfoV,
        actives: ActiveInterfaces,
        ids: IdMapV,
        state: GroupState,
    ) -> HandlerEffect<GroupState> {
        match self {
            Handler::RegistryGlobal => {
                let (result, message) = announced(message, actives);
                HandlerEffect { result, message, ids, state }
            },
            Handler::RegistryBind => HandlerEffect {
                result: Ok(MessageHandlerResult::Send),
                message,
                ids,
                state,
            },
            Handler::DeleteId => {
                let (result, ids) = gone(message, ids);
                HandlerEffect { result, message, ids, state }
            },
            Handler::AddPrefix => {
                let (result, message) = adding(state.prefix@, message, 0);
                HandlerEffect { result, message, ids, state }
            },
            Handler::RemovePrefix => {
                let (result, message) = removing(state.prefix@, message, 0);
                HandlerEffect { result, message, ids, state }
            },
        }
    }

    fn handle<'a, S: SessionInfo>(
        &self,
        mi: &mut DemarshalledMessage<'a>,
        si: &mut S,
        ss: &mut GroupState,
    ) -> (r: Result<MessageHandlerResult, HandlerError>) {
        match self {
            Handler::RegistryGlobal => wl_registry_global_handler(mi, si),
            Handler::RegistryBind => wl_registry_bind_handler(),
            Handler::DeleteId => wl_display_delete_id_handler(mi, si),
            Handler::AddPrefix => add_prefix(mi, &ss.prefix),
            Handler::RemovePrefix => remove_prefix(mi, &ss.prefix),
        }
    }
}

/// Taking a prefix off a text that it was put before gives the text back, unless something had to be
/// taken off the end of the text to make room for it.
pub proof fn law_prefix_comes_off(prefix: Seq<u8>, text: Seq<u8>, size: u16)
    requires
        size + prefix.len() <= MAX_BYTES_OUT,
        prefix_added(prefix, text, size) is Some,
    ensures
        is_prefixed(prefix, prefix_added(prefix, text, size)->0),
        (prefix_added(prefix, text, size)->0).skip(prefix.len() as int) == text,
{
    let fixed = prefix_added(prefix, text, size)->0;
    assert(fixed.push(0).take(prefix.len() as int) =~= prefix);
    assert(fixed.skip(prefix.len() as int) =~= text);
}

/// Whether an argument is a mime type, and no string before it would get the prefix in its place.
pub open spec fn is_mime_type_at(m: MessageInfoV, k: int) -> bool {
    &&& 0 <= k < m.args.len()
    &&& k < m.decl.args@.len()
    &&& m.args[k] is String
    &&& m.decl.args@[k].name@ == "mime_type"@
    &&& forall|j: int|
        0 <= j < k && gets_prefix(#[trigger] m.decl.args@[j]) ==> !(m.args[j] is String)
}

/// A request that got the prefix on its mime type, come back as an event, has the arguments that it
/// had at first, unless something had to be taken off to make room for the prefix.
pub proof fn law_remove_undoes_add(prefix: Seq<u8>, m: MessageInfoV, k: int)
    requires
        is_mime_type_at(m, k),
        !prefix.contains(0),
        m.size + prefix.len() <= MAX_BYTES_OUT,
    ensures
        ({
            let (added, sent) = adding(prefix, m, 0);
            let (removed, received) = removing(prefix, sent, 0);
            &&& added == Ok::<MessageHandlerResult, HandlerError>(MessageHandlerResult::Next)
            &&& removed == Ok::<MessageHandlerResult, HandlerError>(MessageHandlerResult::Next)
            &&& received.args == m.args
        }),
{
    let text = m.args[k]->String_0;
    let sent = adding(prefix, m, 0).1;
    lemma_adding_skips(prefix, m, 0, k as nat);
    lemma_removing_skips(prefix, sent, 0, k as nat);
    law_prefix_comes_off(prefix, text, m.size);
    assert(sent.args.update(k, ArgDataV::String(text)) =~= m.args);
}

proof fn lemma_adding_skips(prefix: Seq<u8>, m: MessageInfoV, i: nat, k: nat)
    requires
        i <= k,
        is_mime_type_at(m, k as int),
    ensures
        adding(prefix, m, i) == adding(prefix, m, k),
    decreases k - i,
{
    if i < k {
        lemma_adding_skips(prefix, m, i + 1, k);
    }
}

proof fn lemma_removing_skips(prefix: Seq<u8>, m: MessageInfoV, i: nat, k: nat)
    requires
        i <= k < m.args.len(),
        k < m.decl.args@.len(),
        m.args[k as int] is String,
        m.decl.args@[k as int].name@ == "mime_type"@,
        forall|j: int|
            0 <= j < k && (#[trigger] m.decl.args@[j]).name@ == "mime_type"@ ==> !(
            m.args[j] is String),
    ensures
        removing(prefix, m, i).0 == removing(prefix, m, k).0,
        removing(prefix, m, i).1.args == removing(prefix, m, k).1.args,
        removing(prefix, m, i).1.modified,
    decreases k - i,
{
    if i < k {
        if m.decl.args@[i as int].name@ == "mime_type"@ {
            let touched = MessageInfoV { modified: true, type_changed: true, ..m };
            lemma_removing_skips(prefix, touched, i + 1, k);
        } else {
            lemma_removing_skips(prefix, m, i + 1, k);
        }
    }
}

/// An event whose mime type does not have the prefix is dropped.
pub proof fn law_foreign_is_dropped(prefix: Seq<u8>, m: MessageInfoV, k: int)
    requires
        0 <= k < m.args.len(),
        k < m.decl.args@.len(),
        m.args[k] is String,
        m.decl.args@[k].name@ == "mime_type"@,
        forall|j: int|
            0 <= j < k && (#[trigger] m.decl.args@[j]).name@ == "mime_type"@ ==> !(
            m.args[j] is String),
        !is_prefixed(prefix, m.args[k]->String_0),
    ensures
        removing(prefix, m, 0).0 == Ok::<MessageHandlerResult, HandlerError>(
            MessageHandlerResult::Drop,
        ),
{
    lemma_removing_skips(prefix, m, 0, k as nat);
}

/// Whether neither of two prefixes starts with the other.
pub open spec fn prefixes_apart(p: Seq<u8>, q: Seq<u8>) -> bool {
    if p.len() >= q.len() {
        p.take(q.len() as int) != q
    } else {
        q.take(p.len() as int) != p
    }
}

/// Clients see nothing of each other's clipboards if neither of their prefixes starts with the other:
/// a mime type that got the one prefix, even where something had to be taken off to make room for it,
/// is dropped where the other prefix is to be taken off.
pub proof fn law_prefixes_keep_clients_apart(p: Seq<u8>, q: Seq<u8>, m: MessageInfoV, k: int)
    requires
        is_mime_type_at(m, k),
        prefix_added(p, m.args[k]->String_0, m.size) is Some,
        prefixes_apart(p, q),
    ensures
        ({
            let (added, sent) = adding(p, m, 0);
            &&& added == Ok::<MessageHandlerResult, HandlerError>(MessageHandlerResult::Next)
            &&& removing(q, sent, 0).0 == Ok::<MessageHandlerResult, HandlerError>(
                MessageHandlerResult::Drop,
            )
        }),
{
    let text = m.args[k]->String_0;
    let fixed = prefix_added(p, text, m.size)->0;
    let sent = adding(p, m, 0).1;
    lemma_adding_skips(p, m, 0, k as nat);
    assert(sent.args[k] == ArgDataV::String(fixed));
    assert(fixed.push(0).take(p.len() as int) =~= p);
    if is_prefixed(q, fixed) {
        let whole = fixed.push(0);
        if p.len() >= q.len() {
            assert(p.take(q.len() as int) =~= whole.take(q.len() as int));
        } else {
            assert(q.take(p.len() as int) =~= whole.take(p.len() as int));
        }
        assert(false);
    }
    law_foreign_is_dropped(q, sent, k);
}

/// The messages of the protocols at hand that are known to have a mime type: the interface, the
/// message, and whether it is a request.
pub open spec fn known_mime_messages() -> Seq<(Seq<char>, Seq<char>, bool)> {
    seq![
        ("wl_data_offer"@, "accept"@, true),
        ("wl_data_offer"@, "receive"@, true),
        ("wl_data_source"@, "offer"@, true),
        ("zwp_primary_selection_offer_v1"@, "receive"@, true),
        ("zwp_primary_selection_source_v1"@, "offer"@, true),
        ("zwlr_data_control_source_v1"@, "offer"@, true),
        ("zwlr_data_control_offer_v1"@, "receive"@, true),
        ("wl_data_offer"@, "offer"@, false),
        ("wl_data_source"@, "target"@, false),
        ("wl_data_source"@, "send"@, false),
        ("zwp_primary_selection_offer_v1"@, "offer"@, false),
        ("zwp_primary_selection_source_v1"@, "send"@, false),
        ("zwlr_data_control_source_v1"@, "send"@, false),
        ("zwlr_data_control_offer_v1"@, "offer"@, false),
    ]
}

/// Whether one of the declared arguments is a mime type.
pub open spec fn has_mime_type(args: Seq<ArgV>) -> bool {
    exists|k: int|
        0 <= k < args.len() && (#[trigger] args[k]).typ is String && args[k].name == "mime_type"@
}

/// Whether a message that is there has a mime type; one that is not there has.
pub open spec fn mime_message_ok(
    v: AllHandlersV<Handler>,
    known: (Seq<char>, Seq<char>, bool),
) -> bool {
    match place_named(v.protocols, v.map, known.0) {
        None => true,
        Some(id) => {
            let i = v.protocols[id.protocol as int].interfaces[id.index as int];
            let messages = if known.2 {
                i.requests
            } else {
                i.events
            };
            match message_index(messages, known.1) {
                None => true,
                Some(k) => has_mime_type(messages[k].args),
            }
        },
    }
}

/// Whether a message has a mime type.
pub fn has_mime_type_arg(msg: &Message) -> (r: bool)
    ensures
        r == has_mime_type(msg@.args),
{
    let ghost args = msg@.args;
    let n: usize = msg.args.len();
    for k in 0..n
        invariant
            n == msg.args@.len(),
            args == msg@.args,
            forall|j: int|
                0 <= j < k ==> !((#[trigger] args[j]).typ is String && args[j].name
                    == "mime_type"@),
    {
        assert(args[k as int] == msg.args@[k as int]@);
        if let Type::String = msg.args[k].typ {
            if str_eq(msg.args[k].name.as_str(), "mime_type") {
                return true;
            }
        }
    }
    false
}

fn check_mime_message(
    all: &AllHandlers<Handler>,
    interface_name: &str,
    message_name: &str,
    is_request: bool,
) -> (r: bool)
    requires
        all.wf(),
    ensures
        r == mime_message_ok(all@, (interface_name@, message_name@, is_request)),
{
    proof {
        lemma_actives_wf(all.active_interfaces);
        lemma_named_by_view(all.active_interfaces, interface_name@);
    }
    match all.active_interfaces.find(interface_name) {
        None => true,
        Some(id) => {
            let interface: &Interface = all.active_interfaces.interface(id);
            assert(all@.protocols[id.protocol as int]
                == all.active_interfaces.protocols@[id.protocol as int]@);
            assert(all@.protocols[id.protocol as int].interfaces[id.index as int] == interface@);
            let messages: &Vec<Message> = if is_request {
                &interface.requests
            } else {
                &interface.events
            };
            match find_message(messages, message_name) {
                None => true,
                Some(k) => has_mime_type_arg(&messages[k]),
            }
        },
    }
}

/// Whether the messages that are known to have a mime type have it in the protocols at hand.
pub fn check_known_mime_type_msgs(all: &AllHandlers<Handler>) -> (r: bool)
    requires
        all.wf(),
    ensures
        r == (forall|k: int|
            0 <= k < known_mime_messages().len() ==> mime_message_ok(
                all@,
                #[trigger] known_mime_messages()[k],
            )),
{
    let requests: [(&str, &str); 7] = [
        ("wl_data_offer", "accept"),
        ("wl_data_offer", "receive"),
        ("wl_data_source", "offer"),
        ("zwp_primary_selection_offer_v1", "receive"),
        ("zwp_primary_selection_source_v1", "offer"),
        ("zwlr_data_control_source_v1", "offer"),
        ("zwlr_data_control_offer_v1", "receive"),
    ];
    let events: [(&str, &str); 7] = [
        ("wl_data_offer", "offer"),
        ("wl_data_source", "target"),
        ("wl_data_source", "send"),
        ("zwp_primary_selection_offer_v1", "offer"),
        ("zwp_primary_selection_source_v1", "send"),
        ("zwlr_data_control_source_v1", "send"),
        ("zwlr_data_control_offer_v1", "offer"),
    ];
    let ghost known = known_mime_messages();
    let mut i: usize = 0;
    while i < 7
        invariant
            i <= 7,
            all.wf(),
            known == known_mime_messages(),
            forall|j: int|
                0 <= j < 7 ==> known[j] == ((#[trigger] requests@[j]).0@, requests@[j].1@, true),
            forall|j: int| 0 <= j < i ==> mime_message_ok(all@, #[trigger] known[j]),
        decreases 7 - i,
    {
        let (interface_name, message_name) = requests[i];
        assert(known[i as int] == (requests@[i as int].0@, requests@[i as int].1@, true));
        if !check_mime_message(all, interface_name, message_name, true) {
            return false;
        }
        i = i + 1;
    }
    let mut i: usize = 0;
    while i < 7
        invariant
            i <= 7,
            all.wf(),
            known == known_mime_messages(),
            forall|j: int|
                0 <= j < 7 ==> known[j + 7] == (
                    (#[trigger] events@[j]).0@,
                    events@[j].1@,
                    false,
                ),
            forall|j: int| 0 <= j < 7 + i ==> mime_message_ok(all@, #[trigger] known[j]),
        decreases 7 - i,
    {
        let (interface_name, message_name) = events[i];
        assert(known[i + 7] == (events@[i as int].0@, events@[i as int].1@, false));
        if !check_mime_message(all, interface_name, message_name, false) {
            return false;
        }
        i = i + 1;
    }
    true
}

/// Why the handlers of the addons cannot be added.
#[derive(Debug, PartialEq, Eq, Clone, Copy, Structural)]
pub enum AddonError {
    /// There is no addon with this name.
    Unknown,
    /// The addon has not been given exactly one argument.
    ArgCount,
    /// A message that is known to have a mime type has none in the protocols at hand.
    MissingMimeType,
    /// A handler cannot be added.
    Add(AddHandlerError),
}

/// A message that a handler is to be added for.
#[derive(Debug)]
pub struct Push {
    pub interface_name: String,
    pub message_name: String,
    pub is_request: bool,
}

/// The contents of a [`Push`].
#[verifier::ext_equal]
pub struct PushV {
    pub interface_name: Seq<char>,
    pub message_name: Seq<char>,
    pub is_request: bool,
}

impl View for Push {
    type V = PushV;

    open spec fn view(&self) -> PushV {
        PushV {
            interface_name: self.interface_name@,
            message_name: self.message_name@,
            is_request: self.is_request,
        }
    }
}

/// The contents of a list of pushes.
pub open spec fn push_views(v: Seq<Push>) -> Seq<PushV> {
    Seq::new(v.len(), |i: int| v[i]@)
}

/// Whether a message is to have a handler of `safeclip`: an active request that sets a title or has
/// a mime type, or an active event that has a mime type.
pub open spec fn is_clipped(m: MessageV, is_request: bool) -> bool {
    m.active && ((is_request && m.name == "set_title"@) || has_mime_type(m.args))
}

/// Which of the first `n` messages of an interface are to have a handler of `safeclip`.
pub open spec fn clipped(
    interface_name: Seq<char>,
    messages: Seq<MessageV>,
    is_request: bool,
    n: nat,
) -> Seq<PushV>
    decreases n,
{
    if n == 0 {
        Seq::empty()
    } else {
        let before = clipped(interface_name, messages, is_request, (n - 1) as nat);
        if is_clipped(messages[n - 1], is_request) {
            before.push(
                PushV { interface_name, message_name: messages[n - 1].name, is_request },
            )
        } else {
            before
        }
    }
}

/// Which messages of the first `n` active interfaces are to have a handler of `safeclip`: for each
/// interface the requests, then the events.
pub open spec fn all_clipped(v: AllHandlersV<Handler>, n: nat) -> Seq<PushV>
    decreases n,
{
    if n == 0 {
        Seq::empty()
    } else {
        let id = v.map[n - 1];
        let i = v.protocols[id.protocol as int].interfaces[id.index as int];
        all_clipped(v, (n - 1) as nat) + clipped(i.name, i.requests, true, i.requests.len())
            + clipped(i.name, i.events, false, i.events.len())
    }
}

/// All handlers with those of `safeclip` for the first `n` of some messages: what adds the prefix
/// comes behind the other handlers of a request, and what removes it comes before the other handlers
/// of an event.
pub open spec fn clips_added(v: AllHandlersV<Handler>, pushes: Seq<PushV>, n: nat) -> Result<
    AllHandlersV<Handler>,
    AddHandlerError,
>
    decreases n,
{
    if n == 0 {
        Ok(v)
    } else {
        match clips_added(v, pushes, (n - 1) as nat) {
            Err(e) => Err(e),
            Ok(before) => {
                let push = pushes[n - 1];
                if push.is_request {
                    before.added(
                        push.interface_name,
                        push.message_name,
                        true,
                        false,
                        Handler::AddPrefix,
                    )
                } else {
                    before.added(
                        push.interface_name,
                        push.message_name,
                        false,
                        true,
                        Handler::RemovePrefix,
                    )
                }
            },
        }
    }
}

/// All handlers with those of `safeclip`.
pub open spec fn with_safeclip(v: AllHandlersV<Handler>) -> Result<AllHandlersV<Handler>, AddonError> {
    if !(forall|k: int|
        0 <= k < known_mime_messages().len() ==> mime_message_ok(
            v,
            #[trigger] known_mime_messages()[k],
        )) {
        Err(AddonError::MissingMimeType)
    } else {
        let pushes = all_clipped(v, v.map.len());
        match clips_added(v, pushes, pushes.len()) {
            Err(e) => Err(AddonError::Add(e)),
            Ok(v) => Ok(v),
        }
    }
}

fn find_clipped(out: &mut Vec<Push>, interface: &Interface, is_request: bool)
    ensures
        push_views(final(out)@) == push_views(old(out)@) + (if is_request {
            clipped(interface@.name, interface@.requests, true, interface@.requests.len())
        } else {
            clipped(interface@.name, interface@.events, false, interface@.events.len())
        }),
{
    let messages: &Vec<Message> = if is_request {
        &interface.requests
    } else {
        &interface.events
    };
    let ghost start = push_views(out@);
    let ghost all = messages_view(messages@);
    let ghost name = interface.name@;
    let n: usize = messages.len();
    assert(start + clipped(name, all, is_request, 0) =~= start);
    for k in 0..n
        invariant
            n == messages@.len(),
            all == messages_view(messages@),
            name == interface.name@,
            push_views(out@) == start + clipped(name, all, is_request, k as nat),
    {
        assert(all[k as int] == messages@[k as int]@);
        let ghost before = out@;
        let m: &Message = &messages[k];
        if m.is_active() && ((is_request && str_eq(m.name.as_str(), "set_title"))
            || has_mime_type_arg(m)) {
            let push = Push {
                interface_name: interface.name.clone(),
                message_name: m.name.clone(),
                is_request,
            };
            out.push(push);
            assert(push_views(out@) =~= push_views(before).push(push@));
        }
        assert(push_views(out@) =~= start + clipped(name, all, is_request, (k + 1) as nat));
    }
}

fn find_all_clipped(all: &AllHandlers<Handler>) -> (r: Vec<Push>)
    requires
        all.wf(),
    ensures
        push_views(r@) == all_clipped(all@, all@.map.len()),
{
    proof {
        lemma_actives_wf(all.active_interfaces);
    }
    let a: &ActiveInterfaces = &all.active_interfaces;
    let n: usize = a.map.len();
    let mut out: Vec<Push> = Vec::new();
    assert(push_views(out@) =~= Seq::<PushV>::empty());
    for k in 0..n
        invariant
            *a == all.active_interfaces,
            a.wf(),
            n == a.map@.len(),
            push_views(out@) == all_clipped(all@, k as nat),
    {
        let id: InterfaceId = a.map[k];
        assert(a.place_ok(a.map@[k as int]));
        let interface: &Interface = a.interface(id);
        assert(all@.protocols[id.protocol as int] == a.protocols@[id.protocol as int]@);
        assert(all@.protocols[id.protocol as int].interfaces[id.index as int] == interface@);
        find_clipped(&mut out, interface, true);
        find_clipped(&mut out, interface, false);
    }
    out
}

proof fn lemma_clips_error(v: AllHandlersV<Handler>, pushes: Seq<PushV>, i: nat, n: nat)
    requires
        i <= n,
        clips_added(v, pushes, i) is Err,
    ensures
        clips_added(v, pushes, n) == clips_added(v, pushes, i),
    decreases n - i,
{
    if i < n {
        lemma_clips_error(v, pushes, i, (n - 1) as nat);
    }
}

/// Adds the handlers of `safeclip` for the last group.
pub fn init_handler(all: &mut AllHandlers<Handler>) -> (r: Result<(), AddonError>)
    requires
        old(all).ready(),
    ensures
        final(all).ready(),
        match (r, with_safeclip(old(all)@)) {
            (Ok(_), Ok(v)) => final(all)@ == v,
            (Err(e), Err(f)) => e == f,
            _ => false,
        },
{
    let ghost v = all@;
    if !check_known_mime_type_msgs(all) {
        return Err(AddonError::MissingMimeType);
    }
    let pushes: Vec<Push> = find_all_clipped(all);
    let ghost plan = push_views(pushes@);
    let n: usize = pushes.len();
    let mut k: usize = 0;
    while k < n
        invariant
            k <= n,
            n == pushes@.len(),
            v == old(all)@,
            plan == push_views(pushes@),
            plan == all_clipped(v, v.map.len()),
            forall|j: int|
                0 <= j < known_mime_messages().len() ==> mime_message_ok(
                    v,
                    #[trigger] known_mime_messages()[j],
                ),
            all.ready(),
            clips_added(v, plan, k as nat) == Ok::<AllHandlersV<Handler>, AddHandlerError>(all@),
        decreases n - k,
    {
        let push: &Push = &pushes[k];
        assert(plan[k as int] == push@);
        let added: Result<(), AddHandlerError> = if push.is_request {
            all.request_push_back(
                push.interface_name.as_str(),
                push.message_name.as_str(),
                Handler::AddPrefix,
            )
        } else {
            all.event_push_front(
                push.interface_name.as_str(),
                push.message_name.as_str(),
                Handler::RemovePrefix,
            )
        };
        match added {
            Err(e) => {
                proof {
                    lemma_clips_error(v, plan, (k + 1) as nat, n as nat);
                }
                return Err(AddonError::Add(e));
            },
            Ok(_) => {},
        }
        k = k + 1;
    }
    Ok(())
}

/// Whether an argument is the first string among those that are named like one that is wanted.
pub open spec fn is_first_named(m: MessageInfoV, k: int, names: Set<Seq<char>>) -> bool {
    &&& 0 <= k < m.args.len()
    &&& k < m.decl.args@.len()
    &&& m.args[k] is String
    &&& names.contains(m.decl.args@[k].name@)
    &&& forall|j: int|
        0 <= j < k && names.contains((#[trigger] m.decl.args@[j]).name@) ==> !(
        m.args[j] is String)
}

proof fn lemma_adding_first(prefix: Seq<u8>, m: MessageInfoV, i: nat, k: nat)
    requires
        i <= k,
        is_first_named(m, k as int, set!["mime_type"@, "title"@]),
    ensures
        adding(prefix, m, i) == adding(prefix, m, k),
    decreases k - i,
{
    if i < k {
        lemma_adding_first(prefix, m, i + 1, k);
    }
}

/// The mime type of a request, or the title that it gives, gets the prefix of the group before it,
/// and nothing else of the message changes. If that makes the message too long for Wayland, the text
/// loses as many bytes at its end as it got at its start; it is an error if it has fewer.
pub proof fn law_requests_get_the_prefix(
    m: MessageInfoV,
    actives: ActiveInterfaces,
    ids: IdMapV,
    state: GroupState,
    k: int,
)
    requires
        is_first_named(m, k, set!["mime_type"@, "title"@]),
        forall|i: int| 0 <= i < state.prefix@.len() ==> #[trigger] state.prefix@[i] != 0,
    ensures
        ({
            let text = m.args[k]->String_0;
            let prefix = state.prefix@;
            let e = Handler::AddPrefix.effect(m, actives, ids, state);
            &&& e.ids == ids
            &&& e.state == state
            &&& m.size + prefix.len() <= 4096 ==> {
                &&& e.result == Ok::<MessageHandlerResult, HandlerError>(MessageHandlerResult::Next)
                &&& e.message == (MessageInfoV {
                    args: m.args.update(k, ArgDataV::String(prefix + text)),
                    modified: true,
                    ..m
                })
            }
            &&& m.size + prefix.len() > 4096 && prefix.len() <= text.len() ==> {
                &&& e.result == Ok::<MessageHandlerResult, HandlerError>(MessageHandlerResult::Next)
                &&& e.message == (MessageInfoV {
                    args: m.args.update(
                        k,
                        ArgDataV::String(prefix + text.take(text.len() - prefix.len())),
                    ),
                    modified: true,
                    ..m
                })
            }
            &&& m.size + prefix.len() > 4096 && prefix.len() > text.len() ==> e.result == Err::<
                MessageHandlerResult,
                HandlerError,
            >(HandlerError::BadPrefix)
        }),
{
    lemma_adding_first(state.prefix@, m, 0, k as nat);
}

/// An event reaches the client only if its mime type starts with the prefix of the group, and
/// without that prefix. Any other one is dropped.
pub proof fn law_events_lose_the_prefix(
    m: MessageInfoV,
    actives: ActiveInterfaces,
    ids: IdMapV,
    state: GroupState,
    k: int,
)
    requires
        is_first_named(m, k, set!["mime_type"@]),
        forall|i: int| 0 <= i < state.prefix@.len() ==> #[trigger] state.prefix@[i] != 0,
    ensures
        ({
            let text = m.args[k]->String_0;
            let prefix = state.prefix@;
            let e = Handler::RemovePrefix.effect(m, actives, ids, state);
            &&& e.ids == ids
            &&& e.state == state
            &&& forall|rest: Seq<u8>| text == #[trigger] (prefix + rest) ==> {
                &&& e.result == Ok::<MessageHandlerResult, HandlerError>(MessageHandlerResult::Next)
                &&& e.message.args == m.args.update(k, ArgDataV::String(rest))
                &&& e.message.modified
            }
            &&& (forall|rest: Seq<u8>| text != #[trigger] (prefix + rest)) ==> e.result == Ok::<
                MessageHandlerResult,
                HandlerError,
            >(MessageHandlerResult::Drop)
        }),
{
    let text = m.args[k]->String_0;
    let prefix = state.prefix@;
    let n = prefix.len() as int;
    lemma_removing_skips(prefix, m, 0, k as nat);
    assert forall|rest: Seq<u8>| text == #[trigger] (prefix + rest) implies is_prefixed(prefix, text)
        && text.skip(n) == rest by {
        assert(text.push(0).take(n) =~= prefix);
        assert(text.skip(n) =~= rest);
    }
    if is_prefixed(prefix, text) {
        if n == text.len() + 1 {
            assert(text.push(0).take(n)[n - 1] == 0);
            assert(prefix[n - 1] != 0);
        }
        assert(text =~= prefix + text.skip(n)) by {
            assert forall|i: int| 0 <= i < n implies text[i] == prefix[i] by {
                assert(text.push(0).take(n)[i] == prefix[i]);
            }
        }
    }
}

/// A message without an argument that could get or lose the prefix is an error.
pub proof fn law_something_has_the_prefix(
    m: MessageInfoV,
    actives: ActiveInterfaces,
    ids: IdMapV,
    state: GroupState,
)
    ensures
        (forall|k: int| !is_first_named(m, k, set!["mime_type"@, "title"@]))
            ==> Handler::AddPrefix.effect(m, actives, ids, state).result == Err::<
            MessageHandlerResult,
            HandlerError,
        >(HandlerError::UnexpectedArgument),
        (forall|k: int| !is_first_named(m, k, set!["mime_type"@]))
            ==> Handler::RemovePrefix.effect(m, actives, ids, state).result == Err::<
            MessageHandlerResult,
            HandlerError,
        >(HandlerError::UnexpectedArgument),
{
    if forall|k: int| !is_first_named(m, k, set!["mime_type"@, "title"@]) {
        lemma_nothing_to_add(state.prefix@, m, 0);
    }
    if forall|k: int| !is_first_named(m, k, set!["mime_type"@]) {
        lemma_nothing_to_remove(state.prefix@, m, 0);
    }
}

proof fn lemma_nothing_to_add(prefix: Seq<u8>, m: MessageInfoV, i: nat)
    requires
        forall|k: int| !is_first_named(m, k, set!["mime_type"@, "title"@]),
        forall|j: int|
            0 <= j < i && j < m.args.len() && gets_prefix(#[trigger] m.decl.args@[j]) ==> !(
            m.args[j] is String),
    ensures
        adding(prefix, m, i).0 == Err::<MessageHandlerResult, HandlerError>(
            HandlerError::UnexpectedArgument,
        ),
    decreases m.decl.args@.len() - i,
{
    if i < m.decl.args@.len() && i < m.args.len() {
        assert(!is_first_named(m, i as int, set!["mime_type"@, "title"@]));
        lemma_nothing_to_add(prefix, m, i + 1);
    }
}

proof fn lemma_nothing_to_remove(prefix: Seq<u8>, m: MessageInfoV, i: nat)
    requires
        forall|k: int| !is_first_named(m, k, set!["mime_type"@]),
        forall|j: int|
            0 <= j < i && j < m.args.len() && (#[trigger] m.decl.args@[j]).name@ == "mime_type"@
                ==> !(m.args[j] is String),
    ensures
        removing(prefix, m, i).0 == Err::<MessageHandlerResult, HandlerError>(
            HandlerError::UnexpectedArgument,
        ),
    decreases m.decl.args@.len() - i,
{
    if i < m.decl.args@.len() {
        assert(!is_first_named(m, i as int, set!["mime_type"@]));
        let touched = MessageInfoV { modified: true, type_changed: true, ..m };
        assert forall|k: int| !is_first_named(touched, k, set!["mime_type"@]) by {
            assert(!is_first_named(m, k, set!["mime_type"@]));
        }
        lemma_nothing_to_remove(prefix, m, i + 1);
        lemma_nothing_to_remove(prefix, touched, i + 1);
    }
}

} // verus!
