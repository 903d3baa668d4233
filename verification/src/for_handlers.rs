//! What a handler sees of a message and of a session, and what it answers.
//!
//! A handler is called for a particular occurrence: a message that has come in, or a session that
//! begins. A session is all communication between one client, this process and the server. An addon
//! is a set of handlers made for one purpose. A group is one use of an addon, with its arguments;
//! an addon can be used more than once, and each session has a state for each group.

use crate::actives::ActiveInterfaces;
use crate::args::{values, ArgData, ArgDataV};
use crate::map::{IdMapError, IdMapV};
use crate::message::DemarshalledMessage;
use crate::protocol::{InterfaceId, Message};
use vstd::prelude::*;

verus! {

/// The process at the other end of a socket.
#[derive(Debug, Clone, Copy, PartialEq, Eq, Structural)]
pub struct UCred {
    pub pid: i32,
    pub uid: u32,
    pub gid: u32,
}

/// What a handler can know of a message.
#[verifier::ext_equal]
pub struct MessageInfoV {
    pub decl: Message,
    pub object_id: u32,
    pub size: u16,
    pub args: Seq<ArgDataV>,
    /// Whether an argument may have been changed.
    pub modified: bool,
    /// Whether an argument may have been replaced by one of another type.
    pub type_changed: bool,
}

/// A message, as handlers see it.
pub trait MessageInfo {
    /// What a handler can know of the message.
    spec fn info(&self) -> MessageInfoV;

    fn get_num_args(&self) -> (r: usize)
        ensures
            r == self.info().args.len(),
    ;

    fn get_arg(&self, index: usize) -> (r: &ArgData)
        requires
            index < self.info().args.len(),
        ensures
            r@ == self.info().args[index as int],
    ;

    /// An argument, to be changed or replaced.
    fn get_arg_mut(&mut self, index: usize) -> (r: &mut ArgData)
        requires
            index < old(self).info().args.len(),
        ensures
            (*r)@ == old(self).info().args[index as int],
            final(self).info() == (MessageInfoV {
                args: old(self).info().args.update(index as int, (*final(r))@),
                modified: true,
                type_changed: true,
                ..old(self).info()
            }),
    ;

    /// All arguments, to be changed or replaced.
    fn get_args_mut(&mut self) -> (r: &mut [ArgData])
        ensures
            values(r@) == old(self).info().args,
            final(r)@.len() == r@.len(),
            final(self).info() == (MessageInfoV {
                args: values(final(r)@),
                modified: true,
                type_changed: true,
                ..old(self).info()
            }),
    ;

    fn get_decl(&self) -> (r: &Message)
        ensures
            *r == self.info().decl,
    ;

    fn get_object_id(&self) -> (r: u32)
        ensures
            r == self.info().object_id,
    ;

    /// Replaces an argument by one of the same type.
    fn set_arg(&mut self, index: usize, a: ArgData)
        requires
            index < old(self).info().args.len(),
            old(self).info().args[index as int].typ() == a@.typ(),
        ensures
            final(self).info() == (MessageInfoV {
                args: old(self).info().args.update(index as int, a@),
                modified: true,
                ..old(self).info()
            }),
    ;

    /// The size that the message came with, in bytes.
    fn get_size(&self) -> (r: usize)
        ensures
            r == self.info().size,
    ;
}

/// A session that begins, as handlers see it.
pub trait SessionInitInfo {
    /// The interfaces that take part.
    spec fn actives(&self) -> ActiveInterfaces;

    /// The process of the client, if it is known.
    spec fn client(&self) -> Option<UCred>;

    /// How much debug output there is.
    spec fn debug_level(&self) -> u32;

    fn ucred(&self) -> (r: Option<UCred>)
        ensures
            r == self.client(),
    ;

    fn get_active_interfaces(&self) -> (r: &ActiveInterfaces)
        ensures
            *r == self.actives(),
    ;

    fn get_display(&self) -> (r: InterfaceId)
        ensures
            r == self.actives().display,
    ;

    fn get_debug_level(&self) -> (r: u32)
        ensures
            r == self.debug_level(),
    ;
}

/// A session, as handlers see it.
pub trait SessionInfo: SessionInitInfo {
    /// Which interface each live object has.
    spec fn ids(&self) -> IdMapV;

    fn try_lookup(&self, id: u32) -> (r: Option<InterfaceId>)
        ensures
            r == self.ids().lookup(id),
    ;

    fn lookup(&self, id: u32) -> (r: InterfaceId)
        requires
            self.ids().lookup(id) is Some,
        ensures
            Some(r) == self.ids().lookup(id),
    ;

    fn add(&mut self, id: u32, interface: InterfaceId) -> (r: Result<(), IdMapError>)
        ensures
            final(self).actives() == old(self).actives(),
            final(self).client() == old(self).client(),
            final(self).debug_level() == old(self).debug_level(),
            match r {
                Ok(_) => old(self).ids().add_error(id) is None && final(self).ids() == old(
                    self,
                ).ids().added(id, interface),
                Err(e) => old(self).ids().add_error(id) == Some(e) && final(self).ids() == old(
                    self,
                ).ids(),
            },
    ;

    fn delete(&mut self, id: u32)
        ensures
            final(self).actives() == old(self).actives(),
            final(self).client() == old(self).client(),
            final(self).debug_level() == old(self).debug_level(),
            final(self).ids() == old(self).ids().deleted(id),
    ;
}

/// What is to be done with a message after a handler has seen it.
#[derive(PartialEq, Eq, Debug, Clone, Copy, Structural)]
pub enum MessageHandlerResult {
    /// The next handler sees it; after the last one it is sent.
    Next,
    /// It is sent, and no other handler sees it.
    Send,
    /// It is not sent, and no other handler sees it.
    Drop,
}

/// Why a handler cannot be added.
#[derive(Debug, PartialEq, Eq, Clone, Copy, Structural)]
pub enum AddHandlerError {
    NoSuchInterface,
    NoSuchRequest,
    NoSuchEvent,
    InactiveRequest,
    InactiveEvent,
}

/// Why a handler cannot deal with a message.
#[derive(Debug, PartialEq, Eq, Clone, Copy, Structural)]
pub enum HandlerError {
    /// An argument is missing, or of another type than it should be.
    UnexpectedArgument,
    /// A name is not valid UTF-8.
    NotUtf8,
    /// A prefix does not fit, or holds a zero byte.
    BadPrefix,
}

/// What a handler does: what it answers, and what it leaves of the message, of the live objects and
/// of its own state.
#[verifier::ext_equal]
pub struct HandlerEffect<S> {
    pub result: Result<MessageHandlerResult, HandlerError>,
    pub message: MessageInfoV,
    pub ids: IdMapV,
    pub state: S,
}

/// A handler of messages. The state is the one of its addon group in the session.
pub trait MessageHandler: Sized {
    /// The state that a group has in a session.
    type State;

    /// What the handler does.
    spec fn effect(
        &self,
        message: MessageInfoV,
        actives: ActiveInterfaces,
        ids: IdMapV,
        state: Self::State,
    ) -> HandlerEffect<Self::State>;

    fn handle<'a, S: SessionInfo>(
        &self,
        mi: &mut DemarshalledMessage<'a>,
        si: &mut S,
        ss: &mut Self::State,
    ) -> (r: Result<MessageHandlerResult, HandlerError>)
        requires
            old(si).actives().wf(),
        ensures
            ({
                let e = self.effect(
                    old(mi).info(),
                    old(si).actives(),
                    old(si).ids(),
                    *old(ss),
                );
                &&& r == e.result
                &&& final(mi).info() == e.message
                &&& final(si).ids() == e.ids
                &&& *final(ss) == e.state
            }),
            final(mi).msg_decl == old(mi).msg_decl,
            final(mi).header == old(mi).header,
            final(mi).source == old(mi).source,
            final(mi).fds == old(mi).fds,
            final(mi).order == old(mi).order,
            final(si).actives() == old(si).actives(),
            final(si).client() == old(si).client(),
            final(si).debug_level() == old(si).debug_level(),
    ;
}

/// What makes the state of an addon group when a session begins.
pub trait SessionInitHandler {
    /// The state that the group has in a session.
    type State;

    fn init<I: SessionInitInfo>(&self, session_init_info: &I) -> Self::State;
}

/// A group without a state.
impl SessionInitHandler for () {
    type State = ();

    fn init<I: SessionInitInfo>(&self, session_init_info: &I) -> () {
    }
}

} // verus!
