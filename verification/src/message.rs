//! Messages taken apart into arguments, and put together again.

use crate::actives::ActiveInterfaces;
use crate::args::{
    arg_items, args_len, args_mut_slice, args_push, args_slice, args_with_capacity, body_words,
    fds_into_vec, fds_len, fds_push, fds_with_capacity, values, ArgData, ArgDataV, ArgVec, FdVec,
};
use crate::basics::{to_u8_vec, words_bytes, ByteOrder, Fd, MAX_ARGS, MAX_WORDS_OUT};
use crate::chunk::{array_len, new_chunk, words_of, Chunk, ExtendChunk};
use crate::for_handlers::{MessageInfo, MessageInfoV, SessionInfo, SessionInitInfo};
use crate::header::{words_for, MessageHeader};
use crate::map::{is_server_id, IdMapError, IdMapV, WL_SERVER_ID_START};
use crate::outbuffer::{Payload, PayloadV};
use crate::protocol::{Interface, InterfaceId, Message, SpecialMessage, Type};
use crate::text::{copy_bytes, decode_text, utf8_text};
use std::collections::VecDeque;
use vstd::prelude::*;

verus! {

/// Why a message cannot be taken apart.
#[derive(Debug, PartialEq, Eq, Clone, Copy, Structural)]
pub enum DemarshalError {
    /// The message ends in the middle of an argument.
    Truncated,
    /// A string is not ended by its only zero byte.
    BadString,
    /// The name of an interface is not valid UTF-8.
    NotUtf8,
    /// An object is to be made of an interface that is not active.
    NoSuchInterface,
    /// An object is to be bound to an interface that is not a global one.
    NotGlobal,
    /// An object is to be bound to a version above the limit.
    VersionTooHigh,
    /// A new object comes without an interface.
    UnexpectedNewId,
    /// Fewer file descriptors have come than the message needs.
    NotEnoughFds,
    /// The id of a new object cannot be used.
    Id(IdMapError),
    /// There are words behind the last argument.
    TrailingData,
}

/// Why a message cannot be put together.
#[derive(Debug, PartialEq, Eq, Clone, Copy, Structural)]
pub enum MarshalError {
    /// There are fewer or more arguments than the message has.
    ArgCount,
    /// An argument is of another type than the message has.
    TypeMismatch,
    /// The message would be longer than a message may be.
    TooLong,
}

/// What a message is taken apart by: its words, its declaration, and the interfaces that take part.
pub struct Wire {
    pub order: ByteOrder,
    pub source: Seq<u32>,
    pub decl: Message,
    pub actives: ActiveInterfaces,
}

/// How far the taking apart of a message has come.
#[verifier::ext_equal]
pub struct Progress {
    /// The arguments found so far.
    pub args: Seq<ArgDataV>,
    /// The file descriptors taken so far.
    pub taken: Seq<Fd>,
    /// The file descriptors that are left.
    pub left: Seq<Fd>,
    /// The index of the next word.
    pub pos: nat,
    /// The interfaces of the live objects.
    pub ids: IdMapV,
}

/// The run of bytes that starts with its length at word `pos`, if all of it is there.
pub open spec fn bytes_at(order: ByteOrder, source: Seq<u32>, pos: nat) -> Option<Seq<u8>> {
    if pos >= source.len() {
        None
    } else {
        let n = source[pos as int] as int;
        if pos + 1 + array_len(n) > source.len() {
            None
        } else {
            Some(
                words_bytes(
                    order,
                    source.subrange(pos as int + 1, pos + 1 + array_len(n)),
                ).take(n),
            )
        }
    }
}

/// A run of bytes without the zero byte that ends it, if it holds no other zero byte.
pub open spec fn text_of(bytes: Seq<u8>) -> Option<Seq<u8>> {
    if bytes.len() > 0 && bytes.last() == 0 && !bytes.drop_last().contains(0) {
        Some(bytes.drop_last())
    } else {
        None
    }
}

/// The text that starts with its length at word `pos`, and the index of the word behind it.
pub open spec fn string_at(order: ByteOrder, source: Seq<u32>, pos: nat) -> Result<
    (Seq<u8>, nat),
    DemarshalError,
> {
    match bytes_at(order, source, pos) {
        None => Err(DemarshalError::Truncated),
        Some(bytes) => match text_of(bytes) {
            None => Err(DemarshalError::BadString),
            Some(text) => Ok((text, (pos + 1 + array_len(bytes.len() as int)) as nat)),
        },
    }
}

impl Wire {
    /// One word has been read.
    pub open spec fn word_step(
        self,
        p: Progress,
        arg: spec_fn(u32) -> ArgDataV,
    ) -> Result<Progress, DemarshalError> {
        if p.pos < self.source.len() {
            Ok(
                Progress {
                    args: p.args.push(arg(self.source[p.pos as int])),
                    pos: p.pos + 1,
                    ..p
                },
            )
        } else {
            Err(DemarshalError::Truncated)
        }
    }

    pub open spec fn string_step(self, p: Progress) -> Result<Progress, DemarshalError> {
        match string_at(self.order, self.source, p.pos) {
            Err(e) => Err(e),
            Ok((text, next)) => Ok(
                Progress { args: p.args.push(ArgDataV::String(text)), pos: next, ..p },
            ),
        }
    }

    pub open spec fn array_step(self, p: Progress) -> Result<Progress, DemarshalError> {
        match bytes_at(self.order, self.source, p.pos) {
            None => Err(DemarshalError::Truncated),
            Some(bytes) => Ok(
                Progress {
                    args: p.args.push(ArgDataV::Array(bytes)),
                    pos: (p.pos + 1 + array_len(bytes.len() as int)) as nat,
                    ..p
                },
            ),
        }
    }

    pub open spec fn fd_step(self, p: Progress) -> Result<Progress, DemarshalError> {
        if p.left.len() == 0 {
            Err(DemarshalError::NotEnoughFds)
        } else {
            Ok(
                Progress {
                    args: p.args.push(ArgDataV::Fd { index: p.taken.len() }),
                    taken: p.taken.push(p.left[0]),
                    left: p.left.skip(1),
                    ..p
                },
            )
        }
    }

    /// A new object whose interface the declaration gives. An object that the server has made does
    /// not come with a sync request: there it is only named.
    pub open spec fn new_id_step(self, p: Progress) -> Result<Progress, DemarshalError> {
        match self.decl.new_id_interface {
            None => self.bind_step(p),
            Some(interface) => if p.pos >= self.source.len() {
                Err(DemarshalError::Truncated)
            } else {
                let id = self.source[p.pos as int];
                if is_server_id(id) && self.decl.special == Some(SpecialMessage::WlDisplaySync) {
                    Ok(Progress { args: p.args.push(ArgDataV::Object(id)), pos: p.pos + 1, ..p })
                } else {
                    match p.ids.add_error(id) {
                        Some(e) => Err(DemarshalError::Id(e)),
                        None => Ok(
                            Progress {
                                args: p.args.push(ArgDataV::NewId { id, interface }),
                                pos: p.pos + 1,
                                ids: p.ids.added(id, interface),
                                ..p
                            },
                        ),
                    }
                }
            },
        }
    }

    /// A new object that comes with the name of its interface and its version.
    pub open spec fn bind_step(self, p: Progress) -> Result<Progress, DemarshalError> {
        if self.decl.special != Some(SpecialMessage::WlRegistryBind) {
            Err(DemarshalError::UnexpectedNewId)
        } else {
            match string_at(self.order, self.source, p.pos) {
                Err(e) => Err(e),
                Ok((text, next)) => match utf8_text(text) {
                    None => Err(DemarshalError::NotUtf8),
                    Some(name) => match self.actives.named(name) {
                        None => Err(DemarshalError::NoSuchInterface),
                        Some(interface) => if self.actives.get(interface).parent is Some {
                            Err(DemarshalError::NotGlobal)
                        } else if next + 2 > self.source.len() {
                            Err(DemarshalError::Truncated)
                        } else {
                            let version = self.source[next as int];
                            let id = self.source[next as int + 1];
                            if version > self.actives.get(interface).limited_version->0 {
                                Err(DemarshalError::VersionTooHigh)
                            } else {
                                match p.ids.add_error(id) {
                                    Some(e) => Err(DemarshalError::Id(e)),
                                    None => Ok(
                                        Progress {
                                            args: p.args.push(ArgDataV::String(text)).push(
                                                ArgDataV::Uint(version),
                                            ).push(ArgDataV::NewId { id, interface }),
                                            pos: next + 2,
                                            ids: p.ids.added(id, interface),
                                            ..p
                                        },
                                    ),
                                }
                            }
                        },
                    },
                },
            }
        }
    }

    /// One declared argument has been found.
    pub open spec fn arg_step(self, p: Progress, typ: Type) -> Result<Progress, DemarshalError> {
        match typ {
            Type::Int => self.word_step(p, |w: u32| ArgDataV::Int(w as i32)),
            Type::Uint => self.word_step(p, |w: u32| ArgDataV::Uint(w)),
            Type::Fixed => self.word_step(p, |w: u32| ArgDataV::Fixed(w as i32)),
            Type::String => self.string_step(p),
            Type::Object => self.word_step(p, |w: u32| ArgDataV::Object(w)),
            Type::NewId => self.new_id_step(p),
            Type::Array => self.array_step(p),
            Type::Fd => self.fd_step(p),
        }
    }

    /// The first `n` declared arguments have been looked for: how far this came, and what stopped
    /// it, if anything did.
    pub open spec fn run(self, start: Progress, n: nat) -> (Progress, Option<DemarshalError>)
        decreases n,
    {
        if n == 0 {
            (start, None)
        } else {
            let (p, error) = self.run(start, (n - 1) as nat);
            if error is Some {
                (p, error)
            } else {
                match self.arg_step(p, self.decl.args@[n - 1].typ) {
                    Ok(next) => (next, None),
                    Err(e) => (p, Some(e)),
                }
            }
        }
    }

    /// All declared arguments have been looked for, and nothing may be left behind them.
    pub open spec fn demarshalled(self, start: Progress) -> (Progress, Option<DemarshalError>) {
        let (p, error) = self.run(start, self.decl.args@.len());
        if error is None && p.pos < self.source.len() {
            (p, Some(DemarshalError::TrailingData))
        } else {
            (p, error)
        }
    }
}

/// A message that has been taken apart.
pub struct DemarshalledMessage<'a> {
    pub msg_decl: &'a Message,
    pub header: MessageHeader,
    pub args: ArgVec,
    pub source: &'a [u32],
    pub maybe_modified: bool,
    pub maybe_arg_type_changed: bool,
    pub fds: FdVec,
    pub order: ByteOrder,
}

/// A run of bytes without the zero byte that ends it, if it holds no other zero byte.
pub fn c_string(bytes: Vec<u8>) -> (r: Option<Vec<u8>>)
    ensures
        match r {
            Some(text) => text_of(bytes@) == Some(text@),
            None => text_of(bytes@) is None,
        },
{
    let n: usize = bytes.len();
    if n == 0 || bytes[n - 1] != 0 {
        return None;
    }
    let ghost all = bytes@;
    let mut text = bytes;
    let _ = text.pop();
    assert(text@ =~= all.drop_last());
    for i in 0..n - 1
        invariant
            n == all.len(),
            n > 0,
            all == bytes@,
            text@ == all.drop_last(),
            forall|j: int| 0 <= j < i ==> text@[j] != 0,
    {
        if text[i] == 0 {
            assert(all.drop_last()[i as int] == 0);
            return None;
        }
    }
    Some(text)
}

/// Reads the run of bytes that starts with its length at word `pos`.
pub fn read_bytes(order: ByteOrder, source: &[u32], pos: usize) -> (r: Option<Vec<u8>>)
    requires
        pos <= source@.len(),
    ensures
        match r {
            Some(bytes) => bytes_at(order, source@, pos as nat) == Some(bytes@) && pos + 1
                + array_len(bytes@.len() as int) <= source@.len(),
            None => bytes_at(order, source@, pos as nat) is None,
        },
{
    if pos >= source.len() {
        return None;
    }
    let n: u64 = source[pos] as u64;
    let nwords: u64 = (n + 3) / 4;
    let rest: u64 = (source.len() - pos - 1) as u64;
    if nwords > rest {
        return None;
    }
    let end: usize = pos + 1 + nwords as usize;
    let words = vstd::slice::slice_subrange(source, pos + 1, end);
    let mut bytes: Vec<u8> = to_u8_vec(order, words);
    bytes.truncate(n as usize);
    assert(bytes@ =~= words_bytes(order, words@).take(n as int));
    Some(bytes)
}

/// How many words hold `n` bytes.
fn words_for_bytes(n: usize) -> (r: usize)
    ensures
        r == array_len(n as int),
{
    if n % 4 == 0 {
        n / 4
    } else {
        n / 4 + 1
    }
}

/// Reads the text that starts with its length at word `pos`.
pub fn read_string(order: ByteOrder, source: &[u32], pos: usize) -> (r: Result<
    (Vec<u8>, usize),
    DemarshalError,
>)
    requires
        pos <= source@.len(),
    ensures
        match (r, string_at(order, source@, pos as nat)) {
            (Ok((text, next)), Ok((t, n))) => text@ == t && next == n && next <= source@.len(),
            (Err(e), Err(f)) => e == f,
            _ => false,
        },
{
    let _ = source.len();
    match read_bytes(order, source, pos) {
        None => Err(DemarshalError::Truncated),
        Some(bytes) => {
            let next: usize = pos + 1 + words_for_bytes(bytes.len());
            match c_string(bytes) {
                None => Err(DemarshalError::BadString),
                Some(text) => Ok((text, next)),
            }
        },
    }
}

impl<'a> DemarshalledMessage<'a> {
    /// What the message is taken apart by.
    pub open spec fn wire(self, actives: ActiveInterfaces) -> Wire {
        Wire { order: self.order, source: self.source@, decl: *self.msg_decl, actives }
    }

    /// How far the taking apart has come.
    pub open spec fn progress(self, left: Seq<Fd>, pos: nat, ids: IdMapV) -> Progress {
        Progress { args: self.args@, taken: self.fds@, left, pos, ids }
    }

    /// Whether two messages differ at most in what has been found in them.
    pub open spec fn same_message(self, other: Self) -> bool {
        &&& self.msg_decl == other.msg_decl
        &&& self.header == other.header
        &&& self.source == other.source
        &&& self.maybe_modified == other.maybe_modified
        &&& self.maybe_arg_type_changed == other.maybe_arg_type_changed
        &&& self.order == other.order
    }

    /// A message of which nothing has been found yet.
    pub fn new(header: MessageHeader, msg_decl: &'a Message, data: &'a [u32], order: ByteOrder) -> (r:
        DemarshalledMessage<'a>)
        requires
            words_for(header.size as int) == data@.len(),
        ensures
            r.msg_decl == msg_decl,
            r.header == header,
            r.source == data,
            r.order == order,
            !r.maybe_modified,
            !r.maybe_arg_type_changed,
            r.args@ == Seq::<ArgDataV>::empty(),
            r.fds@ == Seq::<Fd>::empty(),
    {
        let nargs: usize = msg_decl.args.len();
        let nfds: u32 = msg_decl.num_fds;
        let r = DemarshalledMessage {
            msg_decl,
            header,
            args: args_with_capacity(
                if nargs <= MAX_ARGS {
                    nargs
                } else {
                    MAX_ARGS
                },
            ),
            source: data,
            maybe_modified: false,
            maybe_arg_type_changed: false,
            fds: fds_with_capacity(
                if nfds <= MAX_ARGS as u32 {
                    nfds as usize
                } else {
                    MAX_ARGS
                },
            ),
            order,
        };
        assert(r.args@ =~= Seq::<ArgDataV>::empty());
        r
    }

    fn push_arg(&mut self, arg: ArgData)
        ensures
            final(self).same_message(*old(self)),
            final(self).args@ == old(self).args@.push(arg@),
            final(self).fds == old(self).fds,
    {
        let ghost before = arg_items(self.args);
        args_push(&mut self.args, arg);
        assert(self.args@ =~= values(before).push(arg@));
    }

    fn add_string(&mut self, pos: usize) -> (r: Result<usize, DemarshalError>)
        requires
            pos <= old(self).source@.len(),
        ensures
            final(self).same_message(*old(self)),
            final(self).fds == old(self).fds,
            match (r, string_at(old(self).order, old(self).source@, pos as nat)) {
                (Ok(next), Ok((text, after))) => {
                    &&& next == after
                    &&& next <= old(self).source@.len()
                    &&& final(self).args@ == old(self).args@.push(ArgDataV::String(text))
                },
                (Err(e), Err(f)) => e == f && *final(self) == *old(self),
                _ => false,
            },
    {
        match read_string(self.order, self.source, pos) {
            Err(e) => Err(e),
            Ok((text, next)) => {
                self.push_arg(ArgData::String(text));
                Ok(next)
            },
        }
    }

    fn add_array(&mut self, pos: usize) -> (r: Result<usize, DemarshalError>)
        requires
            pos <= old(self).source@.len(),
        ensures
            final(self).same_message(*old(self)),
            final(self).fds == old(self).fds,
            match (r, bytes_at(old(self).order, old(self).source@, pos as nat)) {
                (Ok(next), Some(bytes)) => {
                    &&& next == pos + 1 + array_len(bytes.len() as int)
                    &&& next <= old(self).source@.len()
                    &&& final(self).args@ == old(self).args@.push(ArgDataV::Array(bytes))
                },
                (Err(e), None) => e == DemarshalError::Truncated && *final(self) == *old(self),
                _ => false,
            },
    {
        let _ = self.source.len();
        match read_bytes(self.order, self.source, pos) {
            None => Err(DemarshalError::Truncated),
            Some(bytes) => {
                let next: usize = pos + 1 + words_for_bytes(bytes.len());
                self.push_arg(ArgData::Array(bytes));
                Ok(next)
            },
        }
    }

    fn add_fd(&mut self, fd: Fd)
        ensures
            final(self).same_message(*old(self)),
            final(self).args@ == old(self).args@.push(ArgDataV::Fd { index: old(self).fds@.len() }),
            final(self).fds@ == old(self).fds@.push(fd),
    {
        let index: usize = fds_len(&self.fds);
        self.push_arg(ArgData::Fd { index });
        fds_push(&mut self.fds, fd);
    }

    fn add_new_id<I: SessionInfo>(
        &mut self,
        pos: usize,
        info: &mut I,
        Ghost(left): Ghost<Seq<Fd>>,
    ) -> (r: Result<usize, DemarshalError>)
        requires
            pos <= old(self).source@.len(),
            old(info).actives().wf(),
        ensures
            final(self).same_message(*old(self)),
            final(self).fds == old(self).fds,
            final(info).actives() == old(info).actives(),
            final(info).client() == old(info).client(),
            final(info).debug_level() == old(info).debug_level(),
            match (
                r,
                old(self).wire(old(info).actives()).new_id_step(
                    old(self).progress(left, pos as nat, old(info).ids()),
                ),
            ) {
                (Ok(next), Ok(p)) => next <= old(self).source@.len() && p == final(self).progress(
                    left,
                    next as nat,
                    final(info).ids(),
                ),
                (Err(e), Err(f)) => e == f && *final(self) == *old(self) && final(info).ids()
                    == old(info).ids(),
                _ => false,
            },
    {
        let interface: InterfaceId = match self.msg_decl.get_new_id_interface() {
            Some(interface) => interface,
            None => {
                return self.add_wl_registry_bind_new_id(pos, info, Ghost(left));
            },
        };
        if pos >= self.source.len() {
            return Err(DemarshalError::Truncated);
        }
        let id: u32 = self.source[pos];
        if id >= WL_SERVER_ID_START && self.msg_decl.is_wl_display_sync() {
            // A request to delete an object that the server has made. It can only be relayed as it
            // is: the type of the argument is not the declared one.
            self.push_arg(ArgData::Object(id));
        } else {
            match info.add(id, interface) {
                Err(e) => {
                    return Err(DemarshalError::Id(e));
                },
                Ok(_) => {},
            }
            self.push_arg(ArgData::NewId { id, interface });
        }
        Ok(pos + 1)
    }

    /// Of the declared argument of `wl_registry.bind` there are really three: the name of the
    /// interface, the version, and the id.
    fn add_wl_registry_bind_new_id<I: SessionInfo>(
        &mut self,
        pos: usize,
        info: &mut I,
        Ghost(left): Ghost<Seq<Fd>>,
    ) -> (r: Result<usize, DemarshalError>)
        requires
            pos <= old(self).source@.len(),
            old(info).actives().wf(),
        ensures
            final(self).same_message(*old(self)),
            final(self).fds == old(self).fds,
            final(info).actives() == old(info).actives(),
            final(info).client() == old(info).client(),
            final(info).debug_level() == old(info).debug_level(),
            match (
                r,
                old(self).wire(old(info).actives()).bind_step(
                    old(self).progress(left, pos as nat, old(info).ids()),
                ),
            ) {
                (Ok(next), Ok(p)) => next <= old(self).source@.len() && p == final(self).progress(
                    left,
                    next as nat,
                    final(info).ids(),
                ),
                (Err(e), Err(f)) => e == f && *final(self) == *old(self) && final(info).ids()
                    == old(info).ids(),
                _ => false,
            },
    {
        if !self.msg_decl.is_wl_registry_bind() {
            return Err(DemarshalError::UnexpectedNewId);
        }
        let (text, next): (Vec<u8>, usize) = match read_string(self.order, self.source, pos) {
            Err(e) => {
                return Err(e);
            },
            Ok(found) => found,
        };
        let name: String = match decode_text(text.as_slice()) {
            None => {
                return Err(DemarshalError::NotUtf8);
            },
            Some(name) => name,
        };
        let actives = info.get_active_interfaces();
        let interface: InterfaceId = match actives.find(name.as_str()) {
            None => {
                return Err(DemarshalError::NoSuchInterface);
            },
            Some(interface) => interface,
        };
        let declared: &Interface = actives.interface(interface);
        if declared.parent.is_some() {
            return Err(DemarshalError::NotGlobal);
        }
        let limited_version: u32 = *declared.version().unwrap();
        if self.source.len() - next < 2 {
            return Err(DemarshalError::Truncated);
        }
        let version: u32 = self.source[next];
        let id: u32 = self.source[next + 1];
        if version > limited_version {
            return Err(DemarshalError::VersionTooHigh);
        }
        match info.add(id, interface) {
            Err(e) => {
                return Err(DemarshalError::Id(e));
            },
            Ok(_) => {},
        }
        self.push_arg(ArgData::String(text));
        self.push_arg(ArgData::Uint(version));
        self.push_arg(ArgData::NewId { id, interface });
        Ok(next + 2)
    }

    fn add_arg<I: SessionInfo>(
        &mut self,
        typ: Type,
        pos: usize,
        fds: &mut VecDeque<Fd>,
        info: &mut I,
    ) -> (r: Result<usize, DemarshalError>)
        requires
            pos <= old(self).source@.len(),
            old(info).actives().wf(),
        ensures
            final(self).same_message(*old(self)),
            final(info).actives() == old(info).actives(),
            final(info).client() == old(info).client(),
            final(info).debug_level() == old(info).debug_level(),
            match (
                r,
                old(self).wire(old(info).actives()).arg_step(
                    old(self).progress(old(fds)@, pos as nat, old(info).ids()),
                    typ,
                ),
            ) {
                (Ok(next), Ok(p)) => next <= old(self).source@.len() && p == final(self).progress(
                    final(fds)@,
                    next as nat,
                    final(info).ids(),
                ),
                (Err(e), Err(f)) => e == f && *final(self) == *old(self) && final(fds)@ == old(
                    fds,
                )@ && final(info).ids() == old(info).ids(),
                _ => false,
            },
    {
        let ghost before = self.progress(fds@, pos as nat, info.ids());
        match typ {
            Type::String => self.add_string(pos),
            Type::Array => self.add_array(pos),
            Type::NewId => {
                let ghost left = fds@;
                self.add_new_id(pos, info, Ghost(left))
            },
            Type::Fd => match fds.pop_front() {
                None => Err(DemarshalError::NotEnoughFds),
                Some(fd) => {
                    self.add_fd(fd);
                    assert(fds@ =~= before.left.skip(1));
                    Ok(pos)
                },
            },
            _ => {
                if pos >= self.source.len() {
                    return Err(DemarshalError::Truncated);
                }
                let word: u32 = self.source[pos];
                match typ {
                    Type::Int => self.push_arg(ArgData::Int(word as i32)),
                    Type::Uint => self.push_arg(ArgData::Uint(word)),
                    Type::Fixed => self.push_arg(ArgData::Fixed(word as i32)),
                    _ => self.push_arg(ArgData::Object(word)),
                }
                Ok(pos + 1)
            },
        }
    }

    /// Takes the message apart, argument by argument. File descriptors are taken from `fds`; new
    /// objects are recorded in the session. Where an argument cannot be found, what was found
    /// before it stays.
    pub fn demarshal<I: SessionInfo>(&mut self, fds: &mut VecDeque<Fd>, info: &mut I) -> (r: Result<
        (),
        DemarshalError,
    >)
        requires
            old(self).source@.len() >= 2,
            old(info).actives().wf(),
        ensures
            final(self).same_message(*old(self)),
            final(info).actives() == old(info).actives(),
            final(info).client() == old(info).client(),
            final(info).debug_level() == old(info).debug_level(),
            ({
                let (p, error) = old(self).wire(old(info).actives()).demarshalled(
                    old(self).progress(old(fds)@, 2, old(info).ids()),
                );
                &&& final(self).progress(final(fds)@, p.pos, final(info).ids()) == p
                &&& r == match error {
                    Some(e) => Err::<(), DemarshalError>(e),
                    None => Ok(()),
                }
            }),
    {
        let ghost wire = self.wire(info.actives());
        let ghost start = self.progress(fds@, 2, info.ids());
        let decl: &Message = self.msg_decl;
        let n: usize = decl.args.len();
        let mut pos: usize = 2;
        let mut i: usize = 0;
        while i < n
            invariant
                i <= n,
                n == decl.args@.len(),
                self.msg_decl == decl,
                self.same_message(*old(self)),
                wire == old(self).wire(old(info).actives()),
                start == old(self).progress(old(fds)@, 2, old(info).ids()),
                info.actives() == old(info).actives(),
                info.actives().wf(),
                info.client() == old(info).client(),
                info.debug_level() == old(info).debug_level(),
                pos <= self.source@.len(),
                wire.run(start, i as nat) == (
                    self.progress(fds@, pos as nat, info.ids()),
                    None::<DemarshalError>,
                ),
            decreases n - i,
        {
            let ghost here = self.progress(fds@, pos as nat, info.ids());
            let ghost before = *self;
            match self.add_arg(decl.args[i].typ, pos, fds, info) {
                Ok(next) => {
                    pos = next;
                },
                Err(e) => {
                    proof {
                        assert(wire.run(start, (i + 1) as nat) == (here, Some(e)));
                        lemma_run_stops(wire, start, (i + 1) as nat, n as nat);
                    }
                    return Err(e);
                },
            }
            i = i + 1;
        }
        if pos < self.source.len() {
            return Err(DemarshalError::TrailingData);
        }
        Ok(())
    }
}

/// Once something has stopped the taking apart, nothing more happens.
proof fn lemma_run_stops(wire: Wire, start: Progress, i: nat, n: nat)
    requires
        i <= n,
        wire.run(start, i).1 is Some,
    ensures
        wire.run(start, n) == wire.run(start, i),
    decreases n - i,
{
    if i < n {
        lemma_run_stops(wire, start, i, (n - 1) as nat);
    }
}

impl<'a> MessageInfo for DemarshalledMessage<'a> {
    open spec fn info(&self) -> MessageInfoV {
        MessageInfoV {
            decl: *self.msg_decl,
            object_id: self.header.object_id,
            size: self.header.size,
            args: self.args@,
            modified: self.maybe_modified,
            type_changed: self.maybe_arg_type_changed,
        }
    }

    fn get_num_args(&self) -> (r: usize) {
        args_len(&self.args)
    }

    fn get_arg(&self, index: usize) -> (r: &ArgData) {
        &args_slice(&self.args)[index]
    }

    fn get_arg_mut(&mut self, index: usize) -> (r: &mut ArgData)
        ensures
            final(self).source == old(self).source,
            final(self).header == old(self).header,
            final(self).fds == old(self).fds,
            final(self).order == old(self).order,
    {
        self.maybe_modified = true;
        self.maybe_arg_type_changed = true;
        let ghost before = arg_items(self.args);
        let items = args_mut_slice(&mut self.args);
        let r = &mut items[index];
        assert(values(before.update(index as int, *final(r))) =~= values(before).update(
            index as int,
            (*final(r))@,
        ));
        r
    }

    fn get_args_mut(&mut self) -> (r: &mut [ArgData])
        ensures
            final(self).source == old(self).source,
            final(self).header == old(self).header,
            final(self).fds == old(self).fds,
            final(self).order == old(self).order,
    {
        self.maybe_modified = true;
        self.maybe_arg_type_changed = true;
        args_mut_slice(&mut self.args)
    }

    fn get_decl(&self) -> (r: &Message) {
        self.msg_decl
    }

    fn get_object_id(&self) -> (r: u32) {
        self.header.object_id
    }

    fn set_arg(&mut self, index: usize, a: ArgData)
        ensures
            final(self).source == old(self).source,
            final(self).header == old(self).header,
            final(self).fds == old(self).fds,
            final(self).order == old(self).order,
    {
        self.maybe_modified = true;
        let ghost before = arg_items(self.args);
        let items = args_mut_slice(&mut self.args);
        items[index] = a;
        assert(values(before.update(index as int, a)) =~= values(before).update(index as int, a@));
    }

    fn get_size(&self) -> (r: usize) {
        self.header.size as usize
    }
}

/// The words that the first `n` of some values stand for, if they fit into a message.
fn marshal_args(order: ByteOrder, args: &ArgVec, n: usize) -> (r: Option<Vec<u32>>)
    requires
        n <= args@.len(),
    ensures
        match r {
            Some(body) => body@ == body_words(order, args@.take(n as int)) && body@.len() + 2
                <= MAX_WORDS_OUT,
            None => body_words(order, args@.take(n as int)).len() + 2 > MAX_WORDS_OUT,
        },
{
    let mut chunk: Chunk = new_chunk();
    let mut ext = ExtendChunk::new(&mut chunk, order);
    let items: &[ArgData] = args_slice(args);
    let mut used: usize = 0;
    let mut i: usize = 0;
    assert(args@.take(0) =~= Seq::<ArgDataV>::empty());
    while i < n
        invariant
            i <= n <= args@.len(),
            items@ == arg_items(*args),
            ext.order == order,
            after_borrow(chunk) == *final(ext.chunk),
            ext.words() == body_words(order, args@.take(i as int)),
            ext.words().len() == used,
            used + 2 <= MAX_WORDS_OUT,
        decreases n - i,
    {
        let ghost a = args@[i as int];
        proof {
            assert(args@.take(i + 1).drop_last() =~= args@.take(i as int));
            assert(args@.take(i + 1).last() == a);
        }
        let need: usize = match &items[i] {
            ArgData::String(s) => bytes_need(s.len(), true),
            ArgData::Array(b) => bytes_need(b.len(), false),
            ArgData::Fd { .. } => 0,
            _ => 1,
        };
        assert(need == MAX_WORDS_OUT || need == a.words(order).len());
        if need > MAX_WORDS_OUT - 2 - used {
            proof {
                lemma_body_grows(order, args@.take(n as int), i + 1);
                assert(args@.take(n as int).take(i + 1) =~= args@.take(i + 1));
            }
            return None;
        }
        let ghost before = ext.words();
        match &items[i] {
            ArgData::Int(v) => ext.add_i32(*v),
            ArgData::Uint(v) => ext.add_u32(*v),
            ArgData::Fixed(v) => ext.add_i32(*v),
            ArgData::String(s) => {
                let mut bytes: Vec<u8> = copy_bytes(s.as_slice());
                bytes.push(0);
                ext.add_array(bytes.as_slice());
            },
            ArgData::Object(v) => ext.add_u32(*v),
            ArgData::NewId { id, .. } => ext.add_u32(*id),
            ArgData::Array(b) => ext.add_array(b.as_slice()),
            ArgData::Fd { .. } => {},
        }
        assert(ext.words() =~= before + a.words(order));
        used = used + need;
        i = i + 1;
    }
    let words = words_of(ext.chunk);
    let mut body: Vec<u32> = Vec::new();
    body.extend_from_slice(words);
    assert(body@ =~= words@);
    Some(body)
}

proof fn lemma_body_grows(order: ByteOrder, args: Seq<ArgDataV>, n: int)
    requires
        0 <= n <= args.len(),
    ensures
        body_words(order, args.take(n)).len() <= body_words(order, args).len(),
    decreases args.len(),
{
    if n < args.len() {
        lemma_body_grows(order, args.drop_last(), n);
        assert(args.drop_last().take(n) =~= args.take(n));
    } else {
        assert(args.take(n) =~= args);
    }
}

/// How many words a run of bytes takes up with its length, or the length of a longest message where
/// it takes up as much or more.
fn bytes_need(n: usize, terminated: bool) -> (r: usize)
    ensures
        ({
            let len = if terminated {
                n + 1
            } else {
                n as int
            };
            if 1 + array_len(len) < MAX_WORDS_OUT {
                r == 1 + array_len(len)
            } else {
                r == MAX_WORDS_OUT
            }
        }),
{
    if n >= 4 * MAX_WORDS_OUT {
        return MAX_WORDS_OUT;
    }
    let len: usize = if terminated {
        n + 1
    } else {
        n
    };
    let need: usize = 1 + (len + 3) / 4;
    if need < MAX_WORDS_OUT {
        need
    } else {
        MAX_WORDS_OUT
    }
}

impl MessageInfoV {
    /// Whether there are as many arguments as are declared, or two more where one declared argument
    /// stands for three.
    pub open spec fn arg_count_ok(self) -> bool {
        let declared = self.decl.args@.len();
        ||| declared == self.args.len()
        ||| self.decl.special == Some(SpecialMessage::WlRegistryBind) && declared + 2
            == self.args.len()
    }

    /// Whether every argument is of the type that is declared in its place.
    pub open spec fn types_ok(self) -> bool {
        forall|i: int|
            0 <= i < self.decl.args@.len() && i < self.args.len() ==> #[trigger] self.args[i].typ()
                == self.decl.args@[i].typ
    }
}

/// What a message is sent as, with the first `n` of its arguments.
pub open spec fn payload_of(
    order: ByteOrder,
    header: MessageHeader,
    m: MessageInfoV,
    n: int,
) -> Result<PayloadV, MarshalError> {
    let body = body_words(order, m.args.take(n));
    if body.len() + 2 > MAX_WORDS_OUT {
        Err(MarshalError::TooLong)
    } else {
        Ok(PayloadV::Marshalled(header, body))
    }
}

/// What a message is sent as when the types of its arguments may have changed.
pub open spec fn checked_payload(order: ByteOrder, header: MessageHeader, m: MessageInfoV) -> Result<
    PayloadV,
    MarshalError,
> {
    if !m.arg_count_ok() {
        Err(MarshalError::ArgCount)
    } else if !m.types_ok() {
        Err(MarshalError::TypeMismatch)
    } else {
        payload_of(order, header, m, m.decl.args@.len() as int)
    }
}

/// What a message is sent as: as it came, unless it may have been changed.
pub open spec fn outgoing(
    order: ByteOrder,
    header: MessageHeader,
    source: Seq<u32>,
    m: MessageInfoV,
) -> Result<PayloadV, MarshalError> {
    if m.type_changed {
        checked_payload(order, header, m)
    } else if m.modified {
        payload_of(order, header, m, m.args.len() as int)
    } else {
        Ok(PayloadV::Raw(source))
    }
}

impl<'a> DemarshalledMessage<'a> {
    /// Puts the message together, after a check that its arguments are those that are declared.
    pub fn marshal_modified_check_types(self) -> (r: Result<(Vec<Fd>, Payload), MarshalError>)
        ensures
            match (r, checked_payload(self.order, self.header, self.info())) {
                (Ok((fds, payload)), Ok(p)) => fds@ == self.fds@ && payload@ == p,
                (Err(e), Err(f)) => e == f,
                _ => false,
            },
    {
        let declared: usize = self.msg_decl.args.len();
        let found: usize = args_len(&self.args);
        let count_ok: bool = declared == found || (self.msg_decl.is_wl_registry_bind() && found >= 2
            && declared == found - 2);
        if !count_ok {
            return Err(MarshalError::ArgCount);
        }
        let items: &[ArgData] = args_slice(&self.args);
        let mut i: usize = 0;
        while i < declared
            invariant
                i <= declared <= found,
                declared == self.msg_decl.args@.len(),
                found == self.args@.len(),
                items@ == arg_items(self.args),
                self.info().arg_count_ok(),
                forall|j: int|
                    0 <= j < i ==> #[trigger] self.args@[j].typ() == self.msg_decl.args@[j].typ,
            decreases declared - i,
        {
            if items[i].typ() != self.msg_decl.args[i].typ {
                assert(self.args@[i as int].typ() != self.msg_decl.args@[i as int].typ);
                return Err(MarshalError::TypeMismatch);
            }
            i = i + 1;
        }
        match marshal_args(self.order, &self.args, declared) {
            None => Err(MarshalError::TooLong),
            Some(body) => Ok((fds_into_vec(self.fds), Payload::Marshalled(self.header, body))),
        }
    }

    /// Puts the message together.
    pub fn marshal_modified(self) -> (r: Result<(Vec<Fd>, Payload), MarshalError>)
        ensures
            match (
                r,
                payload_of(self.order, self.header, self.info(), self.args@.len() as int),
            ) {
                (Ok((fds, payload)), Ok(p)) => fds@ == self.fds@ && payload@ == p,
                (Err(e), Err(f)) => e == f,
                _ => false,
            },
    {
        let n: usize = args_len(&self.args);
        match marshal_args(self.order, &self.args, n) {
            None => Err(MarshalError::TooLong),
            Some(body) => Ok((fds_into_vec(self.fds), Payload::Marshalled(self.header, body))),
        }
    }

    /// Puts the message together if it may have been changed; else it is sent as it came.
    pub fn marshal(self) -> (r: Result<(Vec<Fd>, Payload), MarshalError>)
        ensures
            match (r, outgoing(self.order, self.header, self.source@, self.info())) {
                (Ok((fds, payload)), Ok(p)) => fds@ == self.fds@ && payload@ == p,
                (Err(e), Err(f)) => e == f,
                _ => false,
            },
    {
        if self.maybe_arg_type_changed {
            self.marshal_modified_check_types()
        } else if self.maybe_modified {
            self.marshal_modified()
        } else {
            Ok(self.relay_unmodified())
        }
    }

    /// Sends the message as it came.
    pub fn relay_unmodified(self) -> (r: (Vec<Fd>, Payload))
        ensures
            r.0@ == self.fds@,
            r.1@ == PayloadV::Raw(self.source@),
    {
        let mut words: Vec<u32> = Vec::new();
        words.extend_from_slice(self.source);
        assert(words@ =~= self.source@);
        (fds_into_vec(self.fds), Payload::Raw(words))
    }
}

/// Where the id of the new object stands in a message, if the arguments before it are all there:
/// the declared arguments from number `i` on are looked through, from word `pos` on.
pub open spec fn new_id_pos(decl: Message, source: Seq<u32>, i: nat, pos: nat) -> Option<nat>
    decreases decl.args@.len() - i,
{
    if i >= decl.args@.len() {
        None
    } else {
        match decl.args@[i as int].typ {
            Type::NewId => if pos < source.len() {
                Some(pos)
            } else {
                None
            },
            Type::Int | Type::Uint | Type::Fixed | Type::Object => new_id_pos(
                decl,
                source,
                i + 1,
                pos + 1,
            ),
            Type::String | Type::Array => if pos < source.len() {
                new_id_pos(
                    decl,
                    source,
                    i + 1,
                    (pos + 1 + array_len(source[pos as int] as int)) as nat,
                )
            } else {
                None
            },
            Type::Fd => new_id_pos(decl, source, i + 1, pos),
        }
    }
}

impl Message {
    /// Finds the id of the new object without taking the message apart.
    pub fn find_new_id(&self, source: &[u32]) -> (r: Option<u32>)
        ensures
            match new_id_pos(*self, source@, 0, 2) {
                Some(pos) => r == Some(source@[pos as int]) && pos < source@.len(),
                None => r is None,
            },
    {
        let n: usize = self.args.len();
        let len: usize = source.len();
        let mut pos: usize = 2;
        let mut i: usize = 0;
        while i < n
            invariant
                i <= n,
                n == self.args@.len(),
                len == source@.len(),
                new_id_pos(*self, source@, 0, 2) == new_id_pos(*self, source@, i as nat, pos as nat),
            decreases n - i,
        {
            let step: u64 = match self.args[i].typ {
                Type::NewId => {
                    if pos < len {
                        return Some(source[pos]);
                    }
                    return None;
                },
                Type::Int | Type::Uint | Type::Fixed | Type::Object => 1,
                Type::String | Type::Array => {
                    if pos >= len {
                        return None;
                    }
                    1 + (source[pos] as u64 + 3) / 4
                },
                Type::Fd => 0,
            };
            if step > 0 && (pos >= len || step > (len - pos) as u64) {
                proof {
                    lemma_beyond_the_end(*self, source@, (i + 1) as nat, (pos + step) as nat);
                }
                return None;
            }
            pos = pos + step as usize;
            i = i + 1;
        }
        None
    }
}

proof fn lemma_beyond_the_end(decl: Message, source: Seq<u32>, i: nat, pos: nat)
    requires
        pos > source.len(),
    ensures
        new_id_pos(decl, source, i, pos) is None,
    decreases decl.args@.len() - i,
{
    if i < decl.args@.len() {
        lemma_beyond_the_end(decl, source, i + 1, pos);
        lemma_beyond_the_end(decl, source, i + 1, pos + 1);
    }
}

} // verus!
