//! Protocols, and the interfaces, messages and arguments that they declare.
//!
//! A protocol owns its interfaces and an interface its messages. What points from one declaration
//! to another is an index: an interface is known by the place that it has in a list of protocols.

use crate::basics::NoDebug;
use crate::text::{str_eq, str_views};
use std::collections::VecDeque;
use vstd::prelude::*;
use vstd::string::StringExecFns;

verus! {

/// The type of an argument.
#[derive(Debug, PartialEq, Eq, Copy, Clone, Structural)]
pub enum Type {
    Int,
    Uint,
    Fixed,
    String,
    Object,
    NewId,
    Array,
    Fd,
}

/// An argument of a message, as the protocol declares it.
#[derive(Debug)]
pub struct Arg {
    pub name: String,
    pub typ: Type,
    pub interface_name: Option<String>,
}

/// The contents of an [`Arg`].
#[verifier::ext_equal]
pub struct ArgV {
    pub name: Seq<char>,
    pub typ: Type,
    pub interface_name: Option<Seq<char>>,
}

/// The text that an optional `String` holds.
pub open spec fn opt_text(s: Option<String>) -> Option<Seq<char>> {
    match s {
        Some(s) => Some(s@),
        None => None,
    }
}

impl View for Arg {
    type V = ArgV;

    open spec fn view(&self) -> ArgV {
        ArgV { name: self.name@, typ: self.typ, interface_name: opt_text(self.interface_name) }
    }
}

impl Arg {
    /// The argument that a declaration without attributes stands for.
    pub open spec fn blank() -> ArgV {
        ArgV { name: Seq::empty(), typ: Type::Object, interface_name: None }
    }

    /// An argument without a name, of type object.
    pub fn new() -> (r: Arg)
        ensures
            r@ == Arg::blank(),
    {
        Arg { name: String::new(), typ: Type::Object, interface_name: None }
    }
}

/// The messages of the base protocol that are handled apart from all others.
#[derive(Debug, PartialEq, Eq, Copy, Clone, Structural)]
pub enum SpecialMessage {
    WlRegistryGlobal,
    WlRegistryBind,
    WlDisplaySync,
    WlDisplayDeleteId,
}

/// The place of an interface: the index of its protocol in the list of protocols, and its own
/// index in that protocol.
#[derive(Debug, PartialEq, Eq, Copy, Clone, Structural)]
pub struct InterfaceId {
    pub protocol: usize,
    pub index: usize,
}

/// A message handler to be run: its number among all handlers, and the addon group that it was
/// added for.
#[derive(Debug)]
pub struct HandlerEntry {
    pub handler: usize,
    pub group: usize,
    pub group_name: String,
}

/// The contents of a [`HandlerEntry`].
#[verifier::ext_equal]
pub struct HandlerEntryV {
    pub handler: usize,
    pub group: usize,
    pub group_name: Seq<char>,
}

impl View for HandlerEntry {
    type V = HandlerEntryV;

    open spec fn view(&self) -> HandlerEntryV {
        HandlerEntryV {
            handler: self.handler,
            group: self.group,
            group_name: self.group_name@,
        }
    }
}

/// The contents of a queue of handlers.
pub open spec fn queue_view(q: Seq<HandlerEntry>) -> Seq<HandlerEntryV> {
    Seq::new(q.len(), |i: int| q[i]@)
}

/// A request or an event.
pub struct Message {
    pub name: String,
    pub since: u32,
    pub opcode: u32,
    pub args: Vec<Arg>,
    pub owner: Option<InterfaceId>,
    pub new_id_interface: Option<InterfaceId>,
    pub active: bool,
    pub handlers: NoDebug<Option<VecDeque<HandlerEntry>>>,
    pub num_fds: u32,
    pub is_request: bool,
    pub special: Option<SpecialMessage>,
}

/// The contents of a [`Message`].
#[verifier::ext_equal]
pub struct MessageV {
    pub name: Seq<char>,
    pub since: u32,
    pub opcode: u32,
    pub args: Seq<ArgV>,
    pub owner: Option<InterfaceId>,
    pub new_id_interface: Option<InterfaceId>,
    pub active: bool,
    pub handlers: Option<Seq<HandlerEntryV>>,
    pub num_fds: u32,
    pub is_request: bool,
    pub special: Option<SpecialMessage>,
}

/// The contents of a list of arguments.
pub open spec fn args_view(args: Seq<Arg>) -> Seq<ArgV> {
    Seq::new(args.len(), |i: int| args[i]@)
}

impl View for Message {
    type V = MessageV;

    open spec fn view(&self) -> MessageV {
        MessageV {
            name: self.name@,
            since: self.since,
            opcode: self.opcode,
            args: args_view(self.args@),
            owner: self.owner,
            new_id_interface: self.new_id_interface,
            active: self.active,
            handlers: match self.handlers.0 {
                Some(q) => Some(queue_view(q@)),
                None => None,
            },
            num_fds: self.num_fds,
            is_request: self.is_request,
            special: self.special,
        }
    }
}

/// The contents of a list of messages.
pub open spec fn messages_view(messages: Seq<Message>) -> Seq<MessageV> {
    Seq::new(messages.len(), |i: int| messages[i]@)
}

/// An interface.
pub struct Interface {
    pub name: String,
    pub parsed_version: u32,
    pub requests: Vec<Message>,
    pub events: Vec<Message>,
    pub limited_version: Option<u32>,
    pub place: Option<InterfaceId>,
    pub parent: Option<usize>,
}

/// The contents of an [`Interface`].
#[verifier::ext_equal]
pub struct InterfaceV {
    pub name: Seq<char>,
    pub parsed_version: u32,
    pub requests: Seq<MessageV>,
    pub events: Seq<MessageV>,
    pub limited_version: Option<u32>,
    pub place: Option<InterfaceId>,
    pub parent: Option<usize>,
}

impl View for Interface {
    type V = InterfaceV;

    open spec fn view(&self) -> InterfaceV {
        InterfaceV {
            name: self.name@,
            parsed_version: self.parsed_version,
            requests: messages_view(self.requests@),
            events: messages_view(self.events@),
            limited_version: self.limited_version,
            place: self.place,
            parent: self.parent,
        }
    }
}

/// The contents of a list of interfaces.
pub open spec fn interfaces_view(interfaces: Seq<Interface>) -> Seq<InterfaceV> {
    Seq::new(interfaces.len(), |i: int| interfaces[i]@)
}

/// A protocol. No two of its interfaces have the same name.
pub struct Protocol {
    pub name: String,
    pub interfaces: Vec<Interface>,
    pub active: bool,
}

/// The contents of a [`Protocol`].
#[verifier::ext_equal]
pub struct ProtocolV {
    pub name: Seq<char>,
    pub interfaces: Seq<InterfaceV>,
    pub active: bool,
}

impl View for Protocol {
    type V = ProtocolV;

    open spec fn view(&self) -> ProtocolV {
        ProtocolV {
            name: self.name@,
            interfaces: interfaces_view(self.interfaces@),
            active: self.active,
        }
    }
}

/// The contents of a list of protocols.
pub open spec fn protocols_view(protocols: Seq<Protocol>) -> Seq<ProtocolV> {
    Seq::new(protocols.len(), |i: int| protocols[i]@)
}

/// Whether nothing has been recorded of a message but what its declaration says.
pub open spec fn message_fresh(m: MessageV) -> bool {
    m.owner is None && m.new_id_interface is None && !m.active && m.handlers is None
        && m.special is None
}

/// Whether nothing has been recorded of an interface but what its declaration says.
pub open spec fn interface_fresh(i: InterfaceV) -> bool {
    &&& i.limited_version is None
    &&& i.place is None
    &&& i.parent is None
    &&& forall|k: int| 0 <= k < i.requests.len() ==> message_fresh(#[trigger] i.requests[k])
    &&& forall|k: int| 0 <= k < i.events.len() ==> message_fresh(#[trigger] i.events[k])
}

/// Whether nothing has been recorded of a protocol but what its declaration says, and no two of its
/// interfaces have the same name.
pub open spec fn protocol_fresh(p: ProtocolV) -> bool {
    &&& !p.active
    &&& forall|k: int| 0 <= k < p.interfaces.len() ==> interface_fresh(#[trigger] p.interfaces[k])
    &&& names_distinct(p)
}

/// Whether no two interfaces of a protocol have the same name.
pub open spec fn names_distinct(p: ProtocolV) -> bool {
    forall|i: int, j: int|
        0 <= i < j < p.interfaces.len() ==> (#[trigger] p.interfaces[i]).name
            != (#[trigger] p.interfaces[j]).name
}

/// The index of the first of `names` that is `name`.
pub open spec fn name_index(names: Seq<Seq<char>>, name: Seq<char>) -> Option<int>
    decreases names.len(),
{
    if names.len() == 0 {
        None
    } else {
        match name_index(names.drop_last(), name) {
            Some(i) => Some(i),
            None => if names.last() == name {
                Some(names.len() - 1)
            } else {
                None
            },
        }
    }
}

/// What [`name_index`] finds: the first index at which the name stands, if it stands anywhere.
pub proof fn lemma_name_index(names: Seq<Seq<char>>, name: Seq<char>)
    ensures
        name_index(names, name) matches Some(i) ==> 0 <= i < names.len() && names[i] == name && (
        forall|j: int| 0 <= j < i ==> names[j] != name),
        name_index(names, name) is None ==> (forall|j: int|
            0 <= j < names.len() ==> names[j] != name),
    decreases names.len(),
{
    if names.len() > 0 {
        lemma_name_index(names.drop_last(), name);
        assert forall|j: int| 0 <= j < names.len() - 1 implies names[j] == names.drop_last()[j] by {}
    }
}

/// The index that [`name_index`] finds is the only one with these properties.
pub proof fn lemma_name_index_is(names: Seq<Seq<char>>, name: Seq<char>, i: int)
    requires
        0 <= i < names.len(),
        names[i] == name,
        forall|j: int| 0 <= j < i ==> names[j] != name,
    ensures
        name_index(names, name) == Some(i),
{
    lemma_name_index(names, name);
}

/// The index of the first of some names that is a given one.
pub fn find_name(names: &Vec<String>, name: &str) -> (r: Option<usize>)
    ensures
        match (r, name_index(str_views(names@), name@)) {
            (Some(i), Some(j)) => i == j && i < names@.len(),
            (None, None) => true,
            _ => false,
        },
{
    let ghost all = str_views(names@);
    let n: usize = names.len();
    for i in 0..n
        invariant
            n == names@.len(),
            all == str_views(names@),
            forall|j: int| 0 <= j < i ==> all[j] != name@,
    {
        assert(all[i as int] == names@[i as int]@);
        if str_eq(names[i].as_str(), name) {
            proof {
                lemma_name_index_is(all, name@, i as int);
            }
            return Some(i);
        }
    }
    proof {
        lemma_name_index(all, name@);
    }
    None
}

/// The names of a list of messages.
pub open spec fn message_names(messages: Seq<MessageV>) -> Seq<Seq<char>> {
    Seq::new(messages.len(), |i: int| messages[i].name)
}

/// The names of a list of interfaces.
pub open spec fn interface_names(interfaces: Seq<InterfaceV>) -> Seq<Seq<char>> {
    Seq::new(interfaces.len(), |i: int| interfaces[i].name)
}

/// The index of the first message with a name.
pub open spec fn message_index(messages: Seq<MessageV>, name: Seq<char>) -> Option<int> {
    name_index(message_names(messages), name)
}

/// The index of the first message with a name.
pub fn find_message(messages: &Vec<Message>, name: &str) -> (r: Option<usize>)
    ensures
        r matches Some(i) ==> message_index(messages_view(messages@), name@) == Some(i as int) && i
            < messages@.len(),
        r is None ==> message_index(messages_view(messages@), name@) is None,
{
    let n: usize = messages.len();
    let ghost names = message_names(messages_view(messages@));
    for i in 0..n
        invariant
            n == messages@.len(),
            names == message_names(messages_view(messages@)),
            forall|j: int| 0 <= j < i ==> names[j] != name@,
    {
        if str_eq(messages[i].name.as_str(), name) {
            proof {
                lemma_name_index_is(names, name@, i as int);
            }
            return Some(i);
        }
        assert(names[i as int] != name@);
    }
    proof {
        lemma_name_index(names, name@);
    }
    None
}

impl Protocol {
    /// Whether no two interfaces have the same name.
    pub open spec fn distinct(self) -> bool {
        names_distinct(self@)
    }

    /// The index of the interface with a name.
    pub open spec fn index_of(self, name: Seq<char>) -> Option<int> {
        name_index(interface_names(self@.interfaces), name)
    }

    /// A protocol without interfaces.
    pub fn new(name: String) -> (r: Protocol)
        ensures
            r@ == (ProtocolV { name: name@, interfaces: Seq::empty(), active: false }),
            r.distinct(),
    {
        let r = Protocol { name, interfaces: Vec::new(), active: false };
        assert(r@.interfaces =~= Seq::<InterfaceV>::empty());
        r
    }

    /// The index of the interface with a name.
    pub fn find_index(&self, name: &str) -> (r: Option<usize>)
        ensures
            r matches Some(i) ==> self.index_of(name@) == Some(i as int) && i
                < self.interfaces@.len() && self.interfaces@[i as int].name@ == name@,
            r is None ==> self.index_of(name@) is None && (forall|j: int|
                0 <= j < self.interfaces@.len() ==> (#[trigger] self.interfaces@[j]).name@ != name@),
    {
        let n: usize = self.interfaces.len();
        let ghost names = interface_names(self@.interfaces);
        for i in 0..n
            invariant
                n == self.interfaces@.len(),
                names == interface_names(self@.interfaces),
                names.len() == n,
                forall|j: int| 0 <= j < i ==> names[j] != name@,
        {
            assert(names[i as int] == self.interfaces@[i as int].name@);
            if str_eq(self.interfaces[i].name.as_str(), name) {
                proof {
                    lemma_name_index_is(names, name@, i as int);
                }
                return Some(i);
            }
        }
        proof {
            lemma_name_index(names, name@);
            assert forall|j: int| 0 <= j < self.interfaces@.len() implies (
            #[trigger] self.interfaces@[j]).name@ != name@ by {
                assert(names[j] == self.interfaces@[j].name@);
            }
        }
        None
    }

    /// The interface with a name.
    pub fn find_interface(&self, name: &str) -> (r: Option<&Interface>)
        ensures
            match self.index_of(name@) {
                Some(i) => r == Some(&self.interfaces@[i]) && 0 <= i < self.interfaces@.len()
                    && self.interfaces@[i].name@ == name@,
                None => r is None && (forall|j: int|
                    0 <= j < self.interfaces@.len() ==> (#[trigger] self.interfaces@[j]).name@
                        != name@),
            },
    {
        match self.find_index(name) {
            Some(i) => Some(&self.interfaces[i]),
            None => None,
        }
    }

    /// Whether any global of the protocol has been given a version limit.
    pub fn is_active(&self) -> (r: bool)
        ensures
            r == self.active,
    {
        self.active
    }

    /// The protocol in words.
    pub fn describe(&self) -> (r: String)
        ensures
            r@ == "protocol "@ + self.name@,
    {
        let mut s = "protocol ".to_owned();
        s.append(self.name.as_str());
        s
    }
}

/// Whether `id` is the place of an interface in `protocols`.
pub open spec fn valid_id(protocols: Seq<Protocol>, id: InterfaceId) -> bool {
    id.protocol < protocols.len() && id.index < protocols[id.protocol as int].interfaces@.len()
}

/// The interface at a place.
pub open spec fn at(protocols: Seq<Protocol>, id: InterfaceId) -> Interface {
    protocols[id.protocol as int].interfaces@[id.index as int]
}

/// The interface at a place.
pub fn interface_at(protocols: &Vec<Protocol>, id: InterfaceId) -> (r: &Interface)
    requires
        valid_id(protocols@, id),
    ensures
        *r == at(protocols@, id),
{
    &protocols[id.protocol].interfaces[id.index]
}

/// Whether what a message points to is there.
pub open spec fn message_linked(protocols: Seq<Protocol>, m: Message) -> bool {
    &&& m.new_id_interface matches Some(id) ==> valid_id(protocols, id)
    &&& m.owner matches Some(id) ==> valid_id(protocols, id)
}

/// Whether what an interface and its messages point to is there.
pub open spec fn interface_linked(protocols: Seq<Protocol>, i: Interface) -> bool {
    &&& i.place matches Some(id) ==> valid_id(protocols, id)
    &&& i.parent matches Some(p) ==> i.place is Some && p
        < protocols[i.place->0.protocol as int].interfaces@.len()
    &&& forall|k: int|
        0 <= k < i.requests@.len() ==> message_linked(protocols, #[trigger] i.requests@[k])
    &&& forall|k: int|
        0 <= k < i.events@.len() ==> message_linked(protocols, #[trigger] i.events@[k])
}

/// A request or an event, by its place in an interface.
pub open spec fn message_of(i: Interface, from_server: bool, opcode: int) -> Message {
    if from_server {
        i.events@[opcode]
    } else {
        i.requests@[opcode]
    }
}

/// How many requests or events an interface has.
pub open spec fn message_count(i: Interface, from_server: bool) -> nat {
    if from_server {
        i.events@.len()
    } else {
        i.requests@.len()
    }
}

impl Interface {
    /// An interface without a name, of version one, without messages.
    pub open spec fn blank() -> InterfaceV {
        InterfaceV {
            name: Seq::empty(),
            parsed_version: 1,
            requests: Seq::empty(),
            events: Seq::empty(),
            limited_version: None,
            place: None,
            parent: None,
        }
    }

    /// An interface without a name, of version one, without messages.
    pub fn new() -> (r: Interface)
        ensures
            r@ == Interface::blank(),
    {
        let r = Interface {
            name: String::new(),
            parsed_version: 1,
            requests: Vec::new(),
            events: Vec::new(),
            limited_version: None,
            place: None,
            parent: None,
        };
        assert(r@ =~= Interface::blank());
        r
    }

    /// The version that the interface is limited to, if it is active.
    pub open spec fn version_limit(&self) -> Option<&u32> {
        match self.limited_version {
            Some(v) => Some(&v),
            None => None,
        }
    }

    /// The version that the interface is limited to, if it is active.
    #[verifier::when_used_as_spec(version_limit)]
    pub fn version(&self) -> (r: Option<&u32>)
        ensures
            r == self.version_limit(),
    {
        self.limited_version.as_ref()
    }

    /// The protocol that the interface belongs to.
    pub fn owning_protocol<'a>(&self, protocols: &'a Vec<Protocol>) -> (r: &'a Protocol)
        requires
            self.place is Some,
            self.place->0.protocol < protocols@.len(),
        ensures
            *r == protocols@[self.place->0.protocol as int],
    {
        let id = self.place.unwrap();
        &protocols[id.protocol]
    }

    /// The requests, then the events.
    pub fn all_messages(&self) -> (r: Vec<&Message>)
        ensures
            r@.len() == self.requests@.len() + self.events@.len(),
            forall|k: int|
                0 <= k < self.requests@.len() ==> *(#[trigger] r@[k]) == self.requests@[k],
            forall|k: int|
                self.requests@.len() <= k < r@.len() ==> *(#[trigger] r@[k]) == self.events@[k
                    - self.requests@.len()],
    {
        let mut out: Vec<&Message> = Vec::new();
        let nr: usize = self.requests.len();
        for i in 0..nr
            invariant
                nr == self.requests@.len(),
                out@.len() == i,
                forall|k: int| 0 <= k < i ==> *(#[trigger] out@[k]) == self.requests@[k],
        {
            out.push(&self.requests[i]);
        }
        let ne: usize = self.events.len();
        for i in 0..ne
            invariant
                nr == self.requests@.len(),
                ne == self.events@.len(),
                out@.len() == nr + i,
                forall|k: int| 0 <= k < nr ==> *(#[trigger] out@[k]) == self.requests@[k],
                forall|k: int| nr <= k < nr + i ==> *(#[trigger] out@[k]) == self.events@[k - nr],
        {
            out.push(&self.events[i]);
        }
        out
    }

    /// The request with an opcode.
    pub fn get_request(&self, opcode: usize) -> (r: &Message)
        requires
            opcode < self.requests@.len(),
        ensures
            *r == self.requests@[opcode as int],
    {
        &self.requests[opcode]
    }

    /// The event with an opcode.
    pub fn get_event(&self, opcode: usize) -> (r: &Message)
        requires
            opcode < self.events@.len(),
        ensures
            *r == self.events@[opcode as int],
    {
        &self.events[opcode]
    }

    /// The first request with a name.
    pub fn get_request_by_name(&self, name: &str) -> (r: Option<&Message>)
        ensures
            match message_index(messages_view(self.requests@), name@) {
                Some(i) => r == Some(&self.requests@[i]),
                None => r is None,
            },
    {
        match find_message(&self.requests, name) {
            Some(i) => Some(&self.requests[i]),
            None => None,
        }
    }

    /// The first event with a name.
    pub fn get_event_by_name(&self, name: &str) -> (r: Option<&Message>)
        ensures
            match message_index(messages_view(self.events@), name@) {
                Some(i) => r == Some(&self.events@[i]),
                None => r is None,
            },
    {
        match find_message(&self.events, name) {
            Some(i) => Some(&self.events[i]),
            None => None,
        }
    }

    /// The event with an opcode if the message comes from the server, else the request.
    pub fn get_message(&self, from_server: bool, opcode: usize) -> (r: &Message)
        requires
            opcode < message_count(*self, from_server),
        ensures
            *r == message_of(*self, from_server, opcode as int),
    {
        if from_server {
            self.get_event(opcode)
        } else {
            self.get_request(opcode)
        }
    }

    /// Whether the interface has been given a version limit.
    pub open spec fn has_limit(&self) -> bool {
        self.limited_version is Some
    }

    /// Whether the interface has been given a version limit.
    #[verifier::when_used_as_spec(has_limit)]
    pub fn is_active(&self) -> (r: bool)
        ensures
            r == self.has_limit(),
    {
        self.limited_version.is_some()
    }

    /// Whether two interfaces are one and the same object, by their addresses. One object has one
    /// value; two objects may have the same value too, so what is equal need not be the same.
    /// Addresses are no part of a value, so no more is stated.
    pub fn same_as(&self, other: &Interface) -> (r: bool)
        ensures
            r ==> *self == *other,
    {
        one_object(self, other)
    }
}

/// Calls `std::ptr::eq`, which compares two addresses. Where they are the same there is one object,
/// and so one value. Where they differ nothing is claimed, and nothing says when they are the same,
/// as this rests on addresses.
#[verifier::external_body]
fn one_object(a: &Interface, b: &Interface) -> (r: bool)
    ensures
        r ==> *a == *b,
{
    std::ptr::eq(a, b)
}

/// An interface is active exactly if it has a version that it is limited to. One that is new is not.
pub proof fn law_active_is_limited(i: Interface)
    ensures
        i.is_active() == (i.version() is Some),
        i@ == Interface::blank() ==> !i.is_active(),
{
}

impl Message {
    /// A message without a name or arguments.
    pub open spec fn blank(opcode: u32) -> MessageV {
        MessageV {
            name: Seq::empty(),
            since: 1,
            opcode,
            args: Seq::empty(),
            owner: None,
            new_id_interface: None,
            active: false,
            handlers: None,
            num_fds: 0,
            is_request: false,
            special: None,
        }
    }

    /// A message without a name or arguments.
    pub fn new(opcode: u32) -> (r: Message)
        ensures
            r@ == Message::blank(opcode),
    {
        let r = Message {
            name: String::new(),
            since: 1,
            opcode,
            args: Vec::new(),
            owner: None,
            new_id_interface: None,
            active: false,
            handlers: NoDebug(None),
            num_fds: 0,
            is_request: false,
            special: None,
        };
        assert(r@ =~= Message::blank(opcode));
        r
    }

    /// The name of the message.
    pub fn get_name(&self) -> (r: &str)
        ensures
            r@ == self.name@,
    {
        self.name.as_str()
    }

    /// Whether the version limits let the message through.
    pub fn is_active(&self) -> (r: bool)
        ensures
            r == self.active,
    {
        self.active
    }

    /// The declared arguments.
    pub fn get_args(&self) -> (r: &[Arg])
        ensures
            r@ == self.args@,
    {
        self.args.as_slice()
    }

    /// The interface of the object that the message creates.
    pub fn get_new_id_interface(&self) -> (r: Option<InterfaceId>)
        ensures
            r == self.new_id_interface,
    {
        self.new_id_interface
    }

    pub fn is_wl_registry_bind(&self) -> (r: bool)
        ensures
            r == (self.special == Some(SpecialMessage::WlRegistryBind)),
    {
        matches!(self.special, Some(SpecialMessage::WlRegistryBind))
    }

    pub fn is_wl_registry_global(&self) -> (r: bool)
        ensures
            r == (self.special == Some(SpecialMessage::WlRegistryGlobal)),
    {
        matches!(self.special, Some(SpecialMessage::WlRegistryGlobal))
    }

    pub fn is_wl_display_sync(&self) -> (r: bool)
        ensures
            r == (self.special == Some(SpecialMessage::WlDisplaySync)),
    {
        matches!(self.special, Some(SpecialMessage::WlDisplaySync))
    }

    pub fn is_wl_display_delete_id(&self) -> (r: bool)
        ensures
            r == (self.special == Some(SpecialMessage::WlDisplayDeleteId)),
    {
        matches!(self.special, Some(SpecialMessage::WlDisplayDeleteId))
    }
}

} // verus!
