//! Reading a protocol out of the events of its XML description.

use crate::protocol::{
    args_view, interface_fresh, interface_names, lemma_name_index, message_fresh, name_index,
    names_distinct, protocol_fresh, Arg, ArgV, Interface, InterfaceV, Message, MessageV, Protocol,
    ProtocolV, Type,
};
use crate::text::{bytes_eq, decode_text, parse_u32, to_chars, u32_text, utf8_text};
use crate::xml::{
    attr_view, attrs_view, events_view, read_events, xml_events, XmlAttr, XmlAttrV, XmlEvent,
    XmlEventV,
};
use vstd::prelude::*;
use vstd::utf8::encode_utf8;

verus! {

/// Why a protocol cannot be read.
#[derive(Debug, PartialEq, Eq, Clone, Copy, Structural)]
pub enum ParseError {
    /// The document does not start with an XML declaration.
    MissingDecl,
    /// No element follows the declaration.
    IllFormed,
    /// The outermost element is not a protocol.
    MissingProtocol,
    /// The protocol has no name.
    MissingName,
    /// A name is not valid UTF-8.
    InvalidUtf8,
    /// A value is not what its attribute stands for.
    InvalidValue,
    /// An argument is of no known type.
    UnexpectedType,
    /// A message has more file descriptors than can be counted.
    TooManyFds,
    /// The document ends, or is not well formed, before the protocol ends.
    UnexpectedEnd,
}

/// A word as it stands in a document.
pub open spec fn word(s: Seq<char>) -> Seq<u8> {
    encode_utf8(s)
}

fn is_word(bytes: &Vec<u8>, s: &str) -> (r: bool)
    ensures
        r == (bytes@ == word(s@)),
{
    bytes_eq(bytes.as_slice(), s.as_bytes())
}

/// The type that a word stands for.
pub open spec fn type_named(txt: Seq<u8>) -> Option<Type> {
    if txt == word("int"@) {
        Some(Type::Int)
    } else if txt == word("uint"@) {
        Some(Type::Uint)
    } else if txt == word("fixed"@) {
        Some(Type::Fixed)
    } else if txt == word("string"@) {
        Some(Type::String)
    } else if txt == word("object"@) {
        Some(Type::Object)
    } else if txt == word("new_id"@) {
        Some(Type::NewId)
    } else if txt == word("array"@) {
        Some(Type::Array)
    } else if txt == word("fd"@) {
        Some(Type::Fd)
    } else {
        None
    }
}

/// The type that a word stands for.
pub fn parse_type(txt: &Vec<u8>) -> (r: Option<Type>)
    ensures
        r == type_named(txt@),
{
    if is_word(txt, "int") {
        Some(Type::Int)
    } else if is_word(txt, "uint") {
        Some(Type::Uint)
    } else if is_word(txt, "fixed") {
        Some(Type::Fixed)
    } else if is_word(txt, "string") {
        Some(Type::String)
    } else if is_word(txt, "object") {
        Some(Type::Object)
    } else if is_word(txt, "new_id") {
        Some(Type::NewId)
    } else if is_word(txt, "array") {
        Some(Type::Array)
    } else if is_word(txt, "fd") {
        Some(Type::Fd)
    } else {
        None
    }
}

/// The number that a value stands for.
pub open spec fn number_of(value: Seq<u8>) -> Option<u32> {
    match utf8_text(value) {
        Some(text) => u32_text(text),
        None => None,
    }
}

fn parse_number(value: &Vec<u8>) -> (r: Option<u32>)
    ensures
        r == number_of(value@),
{
    match decode_text(value.as_slice()) {
        Some(text) => parse_u32(to_chars(text.as_str()).as_slice()),
        None => None,
    }
}

/// What the attributes of an argument make of it: each attribute in turn, those that could not be
/// read passed over.
pub open spec fn arg_from(attrs: Seq<Option<XmlAttrV>>) -> Result<ArgV, ParseError>
    decreases attrs.len(),
{
    if attrs.len() == 0 {
        Ok(Arg::blank())
    } else {
        match arg_from(attrs.drop_last()) {
            Err(e) => Err(e),
            Ok(arg) => match attrs.last() {
                None => Ok(arg),
                Some(a) => if a.key == word("name"@) {
                    match utf8_text(a.value) {
                        Some(name) => Ok(ArgV { name, ..arg }),
                        None => Err(ParseError::InvalidUtf8),
                    }
                } else if a.key == word("type"@) {
                    match type_named(a.value) {
                        Some(typ) => Ok(ArgV { typ, ..arg }),
                        None => Err(ParseError::UnexpectedType),
                    }
                } else if a.key == word("interface"@) {
                    match utf8_text(a.value) {
                        Some(name) => Ok(ArgV { interface_name: Some(name), ..arg }),
                        None => Err(ParseError::InvalidValue),
                    }
                } else {
                    Ok(arg)
                },
            },
        }
    }
}

proof fn lemma_arg_error(attrs: Seq<Option<XmlAttrV>>, n: int)
    requires
        0 <= n <= attrs.len(),
        arg_from(attrs.take(n)) is Err,
    ensures
        arg_from(attrs) == arg_from(attrs.take(n)),
    decreases attrs.len(),
{
    if n < attrs.len() {
        assert(attrs.drop_last().take(n) =~= attrs.take(n));
        lemma_arg_error(attrs.drop_last(), n);
    } else {
        assert(attrs.take(n) =~= attrs);
    }
}

/// Reads an argument out of its attributes.
pub fn parse_arg(attrs: &Vec<Option<XmlAttr>>) -> (r: Result<Arg, ParseError>)
    ensures
        match (r, arg_from(attrs_view(attrs@))) {
            (Ok(arg), Ok(a)) => arg@ == a,
            (Err(e), Err(f)) => e == f,
            _ => false,
        },
{
    let ghost all = attrs_view(attrs@);
    let mut arg = Arg::new();
    let n: usize = attrs.len();
    assert(all.take(0) =~= Seq::<Option<XmlAttrV>>::empty());
    for i in 0..n
        invariant
            n == attrs@.len(),
            all == attrs_view(attrs@),
            arg_from(all.take(i as int)) == Ok::<ArgV, ParseError>(arg@),
    {
        assert(all.take(i + 1).drop_last() =~= all.take(i as int));
        assert(all.take(i + 1).last() == attr_view(attrs@[i as int]));
        if let Some(a) = &attrs[i] {
            if is_word(&a.key, "name") {
                match decode_text(a.value.as_slice()) {
                    Some(name) => {
                        arg.name = name;
                    },
                    None => {
                        proof {
                            lemma_arg_error(all, i + 1);
                        }
                        return Err(ParseError::InvalidUtf8);
                    },
                }
            } else if is_word(&a.key, "type") {
                match parse_type(&a.value) {
                    Some(typ) => {
                        arg.typ = typ;
                    },
                    None => {
                        proof {
                            lemma_arg_error(all, i + 1);
                        }
                        return Err(ParseError::UnexpectedType);
                    },
                }
            } else if is_word(&a.key, "interface") {
                match decode_text(a.value.as_slice()) {
                    Some(name) => {
                        arg.interface_name = Some(name);
                    },
                    None => {
                        proof {
                            lemma_arg_error(all, i + 1);
                        }
                        return Err(ParseError::InvalidValue);
                    },
                }
            }
        }
    }
    assert(all.take(n as int) =~= all);
    Ok(arg)
}

/// What the attributes of an element make of a name and a number: each attribute in turn, those
/// that could not be read passed over.
pub open spec fn named_from(
    attrs: Seq<Option<XmlAttrV>>,
    number_key: Seq<char>,
) -> Result<(Seq<char>, u32), ParseError>
    decreases attrs.len(),
{
    if attrs.len() == 0 {
        Ok((Seq::empty(), 1))
    } else {
        match named_from(attrs.drop_last(), number_key) {
            Err(e) => Err(e),
            Ok((name, number)) => match attrs.last() {
                None => Ok((name, number)),
                Some(a) => if a.key == word("name"@) {
                    match utf8_text(a.value) {
                        Some(name) => Ok((name, number)),
                        None => Err(ParseError::InvalidUtf8),
                    }
                } else if a.key == word(number_key) {
                    match number_of(a.value) {
                        Some(number) => Ok((name, number)),
                        None => Err(ParseError::InvalidValue),
                    }
                } else {
                    Ok((name, number))
                },
            },
        }
    }
}

proof fn lemma_named_error(attrs: Seq<Option<XmlAttrV>>, number_key: Seq<char>, n: int)
    requires
        0 <= n <= attrs.len(),
        named_from(attrs.take(n), number_key) is Err,
    ensures
        named_from(attrs, number_key) == named_from(attrs.take(n), number_key),
    decreases attrs.len(),
{
    if n < attrs.len() {
        assert(attrs.drop_last().take(n) =~= attrs.take(n));
        lemma_named_error(attrs.drop_last(), number_key, n);
    } else {
        assert(attrs.take(n) =~= attrs);
    }
}

fn parse_named(attrs: &Vec<Option<XmlAttr>>, number_key: &str) -> (r: Result<
    (String, u32),
    ParseError,
>)
    ensures
        match (r, named_from(attrs_view(attrs@), number_key@)) {
            (Ok((name, number)), Ok((s, n))) => name@ == s && number == n,
            (Err(e), Err(f)) => e == f,
            _ => false,
        },
{
    let ghost all = attrs_view(attrs@);
    let mut name = String::new();
    let mut number: u32 = 1;
    let n: usize = attrs.len();
    assert(all.take(0) =~= Seq::<Option<XmlAttrV>>::empty());
    assert(name@ =~= Seq::<char>::empty());
    for i in 0..n
        invariant
            n == attrs@.len(),
            all == attrs_view(attrs@),
            named_from(all.take(i as int), number_key@) == Ok::<(Seq<char>, u32), ParseError>(
                (name@, number),
            ),
    {
        assert(all.take(i + 1).drop_last() =~= all.take(i as int));
        assert(all.take(i + 1).last() == attr_view(attrs@[i as int]));
        if let Some(a) = &attrs[i] {
            if is_word(&a.key, "name") {
                match decode_text(a.value.as_slice()) {
                    Some(text) => {
                        name = text;
                    },
                    None => {
                        proof {
                            lemma_named_error(all, number_key@, i + 1);
                        }
                        return Err(ParseError::InvalidUtf8);
                    },
                }
            } else if is_word(&a.key, number_key) {
                match parse_number(&a.value) {
                    Some(value) => {
                        number = value;
                    },
                    None => {
                        proof {
                            lemma_named_error(all, number_key@, i + 1);
                        }
                        return Err(ParseError::InvalidValue);
                    },
                }
            }
        }
    }
    assert(all.take(n as int) =~= all);
    Ok((name, number))
}

/// What stands for a kind of message in a document.
pub open spec fn kind_word(is_request: bool) -> Seq<u8> {
    if is_request {
        word("request"@)
    } else {
        word("event"@)
    }
}

/// A message that starts here: the events from `pos` on, up to the end of the message.
pub open spec fn message_from(events: Seq<XmlEventV>, pos: nat, m: MessageV) -> Result<
    (MessageV, nat),
    ParseError,
>
    decreases events.len() - pos,
{
    if pos >= events.len() {
        Err(ParseError::UnexpectedEnd)
    } else {
        match events[pos as int] {
            XmlEventV::Start { name, attrs } => if name == word("arg"@) {
                match arg_from(attrs) {
                    Err(e) => Err(e),
                    Ok(arg) => if arg.typ is Fd && m.num_fds == u32::MAX {
                        Err(ParseError::TooManyFds)
                    } else {
                        message_from(
                            events,
                            pos + 1,
                            MessageV {
                                args: m.args.push(arg),
                                num_fds: if arg.typ is Fd {
                                    (m.num_fds + 1) as u32
                                } else {
                                    m.num_fds
                                },
                                ..m
                            },
                        )
                    },
                }
            } else {
                message_from(events, pos + 1, m)
            },
            XmlEventV::End { name } => if name == kind_word(m.is_request) {
                Ok((m, pos + 1))
            } else {
                message_from(events, pos + 1, m)
            },
            XmlEventV::Failed => Err(ParseError::UnexpectedEnd),
            _ => message_from(events, pos + 1, m),
        }
    }
}

/// A message ends behind the place where it starts.
proof fn lemma_message_end(events: Seq<XmlEventV>, pos: nat, m: MessageV)
    ensures
        message_from(events, pos, m) matches Ok((_, next)) ==> pos < next <= events.len(),
    decreases events.len() - pos,
{
    if pos < events.len() {
        match events[pos as int] {
            XmlEventV::Start { name, attrs } => if name == word("arg"@) {
                if let Ok(arg) = arg_from(attrs) {
                    lemma_message_end(
                        events,
                        pos + 1,
                        MessageV {
                            args: m.args.push(arg),
                            num_fds: if arg.typ is Fd {
                                (m.num_fds + 1) as u32
                            } else {
                                m.num_fds
                            },
                            ..m
                        },
                    );
                }
            } else {
                lemma_message_end(events, pos + 1, m);
            },
            _ => {
                lemma_message_end(events, pos + 1, m);
            },
        }
    }
}

/// The message that an element with some attributes starts.
pub open spec fn message_start(attrs: Seq<Option<XmlAttrV>>, opcode: u32, is_request: bool) -> Result<
    MessageV,
    ParseError,
> {
    match named_from(attrs, "since"@) {
        Err(e) => Err(e),
        Ok((name, since)) => Ok(MessageV { name, since, is_request, ..Message::blank(opcode) }),
    }
}

#[verifier::rlimit(30)]
fn parse_message(
    events: &Vec<XmlEvent>,
    start: usize,
    opcode: u32,
    attrs: &Vec<Option<XmlAttr>>,
    is_request: bool,
) -> (r: Result<(Message, usize), ParseError>)
    requires
        start <= events@.len(),
    ensures
        match message_start(attrs_view(attrs@), opcode, is_request) {
            Err(f) => r matches Err(e) && e == f,
            Ok(m) => match (r, message_from(events_view(events@), start as nat, m)) {
                (Ok((message, next)), Ok((v, n))) => message@ == v && next == n && start < next
                    <= events@.len(),
                (Err(e), Err(f)) => e == f,
                _ => false,
            },
        },
{
    let ghost all = events_view(events@);
    let mut message = Message::new(opcode);
    message.is_request = is_request;
    match parse_named(attrs, "since") {
        Err(e) => {
            return Err(e);
        },
        Ok((name, since)) => {
            message.name = name;
            message.since = since;
        },
    }
    let ghost m = message@;
    assert(message_start(attrs_view(attrs@), opcode, is_request) == Ok::<MessageV, ParseError>(m));
    let kind: &str = if is_request {
        "request"
    } else {
        "event"
    };
    let n: usize = events.len();
    let mut pos: usize = start;
    while pos < n
        invariant
            start <= pos <= n,
            n == events@.len(),
            all == events_view(events@),
            message@.is_request == is_request,
            kind@ == (if is_request {
                "request"@
            } else {
                "event"@
            }),
            message_start(attrs_view(attrs@), opcode, is_request) == Ok::<MessageV, ParseError>(m),
            message_from(all, pos as nat, message@) == message_from(all, start as nat, m),
        decreases n - pos,
    {
        assert(all[pos as int] == events@[pos as int]@);
        match &events[pos] {
            XmlEvent::Start { name, attrs } => {
                if is_word(name, "arg") {
                    match parse_arg(attrs) {
                        Err(e) => {
                            return Err(e);
                        },
                        Ok(arg) => {
                            if let Type::Fd = arg.typ {
                                if message.num_fds == u32::MAX {
                                    return Err(ParseError::TooManyFds);
                                }
                                message.num_fds = message.num_fds + 1;
                            }
                            let ghost before = message.args@;
                            message.args.push(arg);
                            assert(args_view(message.args@) =~= args_view(before).push(arg@));
                        },
                    }
                }
            },
            XmlEvent::End { name } => {
                if is_word(name, kind) {
                    return Ok((message, pos + 1));
                }
            },
            XmlEvent::Failed => {
                return Err(ParseError::UnexpectedEnd);
            },
            _ => {},
        }
        pos = pos + 1;
    }
    Err(ParseError::UnexpectedEnd)
}

/// The interface that has got one more message.
pub open spec fn with_message(i: InterfaceV, m: MessageV) -> InterfaceV {
    if m.is_request {
        InterfaceV { requests: i.requests.push(m), ..i }
    } else {
        InterfaceV { events: i.events.push(m), ..i }
    }
}

/// The number that the next message of an interface gets.
pub open spec fn next_opcode(i: InterfaceV, is_request: bool) -> u32 {
    if is_request {
        i.requests.len() as u32
    } else {
        i.events.len() as u32
    }
}

/// An interface that starts here: the events from `pos` on, up to the end of the interface.
pub open spec fn interface_from(events: Seq<XmlEventV>, pos: nat, i: InterfaceV) -> Result<
    (InterfaceV, nat),
    ParseError,
>
    decreases events.len() - pos,
{
    if pos >= events.len() {
        Err(ParseError::UnexpectedEnd)
    } else {
        match events[pos as int] {
            XmlEventV::Start { name, attrs } => if name == kind_word(true) || name == kind_word(
                false,
            ) {
                let is_request = name == kind_word(true);
                match message_start(attrs, next_opcode(i, is_request), is_request) {
                    Err(e) => Err(e),
                    Ok(m) => match message_from(events, pos + 1, m) {
                        Err(e) => Err(e),
                        Ok((m, next)) => if pos < next <= events.len() {
                            interface_from(events, next, with_message(i, m))
                        } else {
                            Err(ParseError::UnexpectedEnd)
                        },
                    },
                }
            } else {
                interface_from(events, pos + 1, i)
            },
            XmlEventV::End { name } => if name == word("interface"@) {
                Ok((i, pos + 1))
            } else {
                interface_from(events, pos + 1, i)
            },
            XmlEventV::Failed => Err(ParseError::UnexpectedEnd),
            _ => interface_from(events, pos + 1, i),
        }
    }
}

/// The interface that an element with some attributes starts.
pub open spec fn interface_start(attrs: Seq<Option<XmlAttrV>>) -> Result<InterfaceV, ParseError> {
    match named_from(attrs, "version"@) {
        Err(e) => Err(e),
        Ok((name, parsed_version)) => Ok(
            InterfaceV { name, parsed_version, ..Interface::blank() },
        ),
    }
}

/// A message keeps its kind while it is read.
proof fn lemma_message_kind(events: Seq<XmlEventV>, pos: nat, m: MessageV)
    ensures
        message_from(events, pos, m) matches Ok((r, _)) ==> r.is_request == m.is_request,
    decreases events.len() - pos,
{
    if pos < events.len() {
        match events[pos as int] {
            XmlEventV::Start { name, attrs } => if name == word("arg"@) {
                if let Ok(arg) = arg_from(attrs) {
                    lemma_message_kind(
                        events,
                        pos + 1,
                        MessageV {
                            args: m.args.push(arg),
                            num_fds: if arg.typ is Fd {
                                (m.num_fds + 1) as u32
                            } else {
                                m.num_fds
                            },
                            ..m
                        },
                    );
                }
            } else {
                lemma_message_kind(events, pos + 1, m);
            },
            _ => {
                lemma_message_kind(events, pos + 1, m);
            },
        }
    }
}

#[verifier::rlimit(30)]
fn parse_interface(events: &Vec<XmlEvent>, start: usize, attrs: &Vec<Option<XmlAttr>>) -> (r: Result<
    (Interface, usize),
    ParseError,
>)
    requires
        start <= events@.len(),
    ensures
        match interface_start(attrs_view(attrs@)) {
            Err(f) => r matches Err(e) && e == f,
            Ok(i) => match (r, interface_from(events_view(events@), start as nat, i)) {
                (Ok((interface, next)), Ok((v, n))) => interface@ == v && next == n && start < next
                    <= events@.len(),
                (Err(e), Err(f)) => e == f,
                _ => false,
            },
        },
{
    let ghost all = events_view(events@);
    let mut interface = Interface::new();
    match parse_named(attrs, "version") {
        Err(e) => {
            return Err(e);
        },
        Ok((name, version)) => {
            interface.name = name;
            interface.parsed_version = version;
        },
    }
    let ghost i0 = interface@;
    assert(interface_start(attrs_view(attrs@)) == Ok::<InterfaceV, ParseError>(i0));
    let n: usize = events.len();
    let mut pos: usize = start;
    while pos < n
        invariant
            start <= pos <= n,
            n == events@.len(),
            all == events_view(events@),
            interface_start(attrs_view(attrs@)) == Ok::<InterfaceV, ParseError>(i0),
            interface_from(all, pos as nat, interface@) == interface_from(all, start as nat, i0),
        decreases n - pos,
    {
        assert(all[pos as int] == events@[pos as int]@);
        match &events[pos] {
            XmlEvent::Start { name, attrs } => {
                let is_request: bool = is_word(name, "request");
                if is_request || is_word(name, "event") {
                    let opcode: u32 = if is_request {
                        interface.requests.len() as u32
                    } else {
                        interface.events.len() as u32
                    };
                    match parse_message(events, pos + 1, opcode, attrs, is_request) {
                        Err(e) => {
                            return Err(e);
                        },
                        Ok((message, next)) => {
                            let ghost before = interface@;
                            proof {
                                let m = message_start(
                                    attrs_view(attrs@),
                                    opcode,
                                    is_request,
                                )->Ok_0;
                                lemma_message_kind(all, (pos + 1) as nat, m);
                            }
                            if is_request {
                                interface.requests.push(message);
                            } else {
                                interface.events.push(message);
                            }
                            assert(interface@.requests =~= with_message(
                                before,
                                message@,
                            ).requests);
                            assert(interface@.events =~= with_message(before, message@).events);
                            pos = next;
                            continue;
                        },
                    }
                }
            },
            XmlEvent::End { name } => {
                if is_word(name, "interface") {
                    return Ok((interface, pos + 1));
                }
            },
            XmlEvent::Failed => {
                return Err(ParseError::UnexpectedEnd);
            },
            _ => {},
        }
        pos = pos + 1;
    }
    Err(ParseError::UnexpectedEnd)
}

/// Interfaces with one more, which takes the place of one with the same name.
pub open spec fn with_interface(interfaces: Seq<InterfaceV>, i: InterfaceV) -> Seq<InterfaceV> {
    match name_index(interface_names(interfaces), i.name) {
        Some(k) => interfaces.update(k, i),
        None => interfaces.push(i),
    }
}

/// A protocol that starts here: the events from `pos` on, up to the end of the protocol.
pub open spec fn protocol_from(events: Seq<XmlEventV>, pos: nat, p: ProtocolV) -> Result<
    ProtocolV,
    ParseError,
>
    decreases events.len() - pos,
{
    if pos >= events.len() {
        Err(ParseError::UnexpectedEnd)
    } else {
        match events[pos as int] {
            XmlEventV::Start { name, attrs } => if name == word("interface"@) {
                match interface_start(attrs) {
                    Err(e) => Err(e),
                    Ok(i) => match interface_from(events, pos + 1, i) {
                        Err(e) => Err(e),
                        Ok((i, next)) => if pos < next <= events.len() {
                            protocol_from(
                                events,
                                next,
                                ProtocolV { interfaces: with_interface(p.interfaces, i), ..p },
                            )
                        } else {
                            Err(ParseError::UnexpectedEnd)
                        },
                    },
                }
            } else {
                protocol_from(events, pos + 1, p)
            },
            XmlEventV::End { name } => if name == word("protocol"@) {
                Ok(p)
            } else {
                protocol_from(events, pos + 1, p)
            },
            XmlEventV::Failed => Err(ParseError::UnexpectedEnd),
            _ => protocol_from(events, pos + 1, p),
        }
    }
}

/// The value of the first attribute with a key, among those that could be read.
pub open spec fn first_attr(attrs: Seq<Option<XmlAttrV>>, key: Seq<u8>) -> Option<Seq<u8>>
    decreases attrs.len(),
{
    if attrs.len() == 0 {
        None
    } else {
        match attrs[0] {
            Some(a) if a.key == key => Some(a.value),
            _ => first_attr(attrs.skip(1), key),
        }
    }
}

/// The protocol that a document describes.
pub open spec fn protocol_of(events: Seq<XmlEventV>) -> Result<ProtocolV, ParseError> {
    if events.len() == 0 || !(events[0] is Decl) {
        Err(ParseError::MissingDecl)
    } else if events.len() == 1 {
        Err(ParseError::IllFormed)
    } else {
        match events[1] {
            XmlEventV::Start { name, attrs } => if name != word("protocol"@) {
                Err(ParseError::MissingProtocol)
            } else {
                match first_attr(attrs, word("name"@)) {
                    None => Err(ParseError::MissingName),
                    Some(value) => match utf8_text(value) {
                        None => Err(ParseError::InvalidUtf8),
                        Some(name) => protocol_from(
                            events,
                            2,
                            ProtocolV { name, interfaces: Seq::empty(), active: false },
                        ),
                    },
                }
            },
            _ => Err(ParseError::IllFormed),
        }
    }
}

fn find_attr<'a>(attrs: &'a Vec<Option<XmlAttr>>, key: &str) -> (r: Option<&'a Vec<u8>>)
    ensures
        match (r, first_attr(attrs_view(attrs@), word(key@))) {
            (Some(value), Some(v)) => value@ == v,
            (None, None) => true,
            _ => false,
        },
{
    let ghost all = attrs_view(attrs@);
    let n: usize = attrs.len();
    assert(all.skip(0) =~= all);
    for i in 0..n
        invariant
            n == attrs@.len(),
            all == attrs_view(attrs@),
            first_attr(all.skip(i as int), word(key@)) == first_attr(all, word(key@)),
    {
        assert(all.skip(i as int)[0] == attr_view(attrs@[i as int]));
        assert(all.skip(i as int).skip(1) =~= all.skip(i + 1));
        if let Some(a) = &attrs[i] {
            if is_word(&a.key, key) {
                return Some(&a.value);
            }
        }
    }
    assert(all.skip(n as int).len() == 0);
    None
}

fn insert_interface(protocol: &mut Protocol, interface: Interface)
    requires
        old(protocol).distinct(),
    ensures
        final(protocol).distinct(),
        final(protocol)@ == (ProtocolV {
            interfaces: with_interface(old(protocol)@.interfaces, interface@),
            ..old(protocol)@
        }),
{
    let ghost before = protocol@;
    let ghost names = interface_names(before.interfaces);
    proof {
        lemma_name_index(names, interface.name@);
        assert forall|k: int| 0 <= k < names.len() implies names[k]
            == #[trigger] before.interfaces[k].name by {}
    }
    match protocol.find_index(interface.name.as_str()) {
        Some(k) => {
            protocol.interfaces.set(k, interface);
            assert(protocol@.interfaces =~= before.interfaces.update(k as int, interface@));
        },
        None => {
            protocol.interfaces.push(interface);
            assert(protocol@.interfaces =~= before.interfaces.push(interface@));
        },
    }
}

/// Reads a protocol out of the events of a document.
#[verifier::rlimit(30)]
pub fn parse_protocol(events: &Vec<XmlEvent>) -> (r: Result<Protocol, ParseError>)
    ensures
        match (r, protocol_of(events_view(events@))) {
            (Ok(protocol), Ok(p)) => protocol@ == p && protocol.distinct(),
            (Err(e), Err(f)) => e == f,
            _ => false,
        },
{
    let ghost all = events_view(events@);
    let n: usize = events.len();
    if n == 0 {
        return Err(ParseError::MissingDecl);
    }
    assert(all[0] == events@[0]@);
    match &events[0] {
        XmlEvent::Decl => {},
        _ => {
            return Err(ParseError::MissingDecl);
        },
    }
    if n == 1 {
        return Err(ParseError::IllFormed);
    }
    assert(all[1] == events@[1]@);
    let mut protocol: Protocol = match &events[1] {
        XmlEvent::Start { name, attrs } => {
            if !is_word(name, "protocol") {
                return Err(ParseError::MissingProtocol);
            }
            match find_attr(attrs, "name") {
                None => {
                    return Err(ParseError::MissingName);
                },
                Some(value) => match decode_text(value.as_slice()) {
                    None => {
                        return Err(ParseError::InvalidUtf8);
                    },
                    Some(name) => Protocol::new(name),
                },
            }
        },
        _ => {
            return Err(ParseError::IllFormed);
        },
    };
    let ghost p0 = protocol@;
    assert(protocol_of(all) == protocol_from(all, 2, p0));
    let mut pos: usize = 2;
    while pos < n
        invariant
            2 <= pos <= n,
            n == events@.len(),
            all == events_view(events@),
            protocol.distinct(),
            protocol_of(all) == protocol_from(all, pos as nat, protocol@),
        decreases n - pos,
    {
        assert(all[pos as int] == events@[pos as int]@);
        match &events[pos] {
            XmlEvent::Start { name, attrs } => {
                if is_word(name, "interface") {
                    match parse_interface(events, pos + 1, attrs) {
                        Err(e) => {
                            return Err(e);
                        },
                        Ok((interface, next)) => {
                            insert_interface(&mut protocol, interface);
                            pos = next;
                            continue;
                        },
                    }
                }
            },
            XmlEvent::End { name } => {
                if is_word(name, "protocol") {
                    return Ok(protocol);
                }
            },
            XmlEvent::Failed => {
                return Err(ParseError::UnexpectedEnd);
            },
            _ => {},
        }
        pos = pos + 1;
    }
    Err(ParseError::UnexpectedEnd)
}

/// Reads the protocol that an XML document describes.
pub fn parse(data: &[u8]) -> (r: Result<Protocol, ParseError>)
    ensures
        match (r, protocol_of(xml_events(data@, true, true))) {
            (Ok(protocol), Ok(p)) => protocol@ == p && protocol.distinct(),
            (Err(e), Err(f)) => e == f,
            _ => false,
        },
{
    let events: Vec<XmlEvent> = read_events(data);
    parse_protocol(&events)
}

/// How many file descriptors some arguments bring.
pub open spec fn count_fds(args: Seq<ArgV>) -> nat
    decreases args.len(),
{
    if args.len() == 0 {
        0
    } else {
        count_fds(args.drop_last()) + if args.last().typ is Fd {
            1nat
        } else {
            0
        }
    }
}

/// Whether a message is of a kind, has a number, counts its file descriptors right, and nothing else
/// has been recorded of it.
pub open spec fn message_sound(m: MessageV, is_request: bool, opcode: u32) -> bool {
    m.is_request == is_request && m.opcode == opcode && m.num_fds == count_fds(m.args)
        && message_fresh(m)
}

/// Whether the messages of an interface are numbered in the order in which they stand there, those
/// of each kind apart.
pub open spec fn interface_sound(i: InterfaceV) -> bool {
    &&& interface_fresh(i)
    &&& forall|k: int|
        0 <= k < i.requests.len() ==> message_sound(#[trigger] i.requests[k], true, k as u32)
    &&& forall|k: int|
        0 <= k < i.events.len() ==> message_sound(#[trigger] i.events[k], false, k as u32)
}

proof fn lemma_message_sound(events: Seq<XmlEventV>, pos: nat, m: MessageV)
    requires
        message_sound(m, m.is_request, m.opcode),
    ensures
        message_from(events, pos, m) matches Ok((r, _)) ==> message_sound(
            r,
            m.is_request,
            m.opcode,
        ),
    decreases events.len() - pos,
{
    if pos < events.len() {
        match events[pos as int] {
            XmlEventV::Start { name, attrs } => if name == word("arg"@) {
                if let Ok(arg) = arg_from(attrs) {
                    assert(m.args.push(arg).drop_last() =~= m.args);
                    let next = MessageV {
                        args: m.args.push(arg),
                        num_fds: if arg.typ is Fd {
                            (m.num_fds + 1) as u32
                        } else {
                            m.num_fds
                        },
                        ..m
                    };
                    if !(arg.typ is Fd && m.num_fds == u32::MAX) {
                        lemma_message_sound(events, pos + 1, next);
                    }
                }
            } else {
                lemma_message_sound(events, pos + 1, m);
            },
            _ => {
                lemma_message_sound(events, pos + 1, m);
            },
        }
    }
}

proof fn lemma_interface_sound(events: Seq<XmlEventV>, pos: nat, i: InterfaceV)
    requires
        interface_sound(i),
    ensures
        interface_from(events, pos, i) matches Ok((r, _)) ==> interface_sound(r),
    decreases events.len() - pos,
{
    if pos < events.len() {
        match events[pos as int] {
            XmlEventV::Start { name, attrs } => if name == kind_word(true) || name == kind_word(
                false,
            ) {
                let is_request = name == kind_word(true);
                if let Ok(m) = message_start(attrs, next_opcode(i, is_request), is_request) {
                    lemma_message_sound(events, pos + 1, m);
                    if let Ok((m, next)) = message_from(events, pos + 1, m) {
                        if pos < next <= events.len() {
                            lemma_interface_sound(events, next, with_message(i, m));
                        }
                    }
                }
            } else {
                lemma_interface_sound(events, pos + 1, i);
            },
            _ => {
                lemma_interface_sound(events, pos + 1, i);
            },
        }
    }
}

proof fn lemma_protocol_sound(events: Seq<XmlEventV>, pos: nat, p: ProtocolV)
    requires
        !p.active,
        names_distinct(p),
        forall|k: int| 0 <= k < p.interfaces.len() ==> interface_sound(#[trigger] p.interfaces[k]),
    ensures
        protocol_from(events, pos, p) matches Ok(r) ==> protocol_fresh(r) && (forall|k: int|
            0 <= k < r.interfaces.len() ==> interface_sound(#[trigger] r.interfaces[k])),
    decreases events.len() - pos,
{
    if pos < events.len() {
        match events[pos as int] {
            XmlEventV::Start { name, attrs } => if name == word("interface"@) {
                if let Ok(i) = interface_start(attrs) {
                    lemma_interface_sound(events, pos + 1, i);
                    if let Ok((i, next)) = interface_from(events, pos + 1, i) {
                        if pos < next <= events.len() {
                            let names = interface_names(p.interfaces);
                            lemma_name_index(names, i.name);
                            assert forall|k: int| 0 <= k < p.interfaces.len() implies names[k]
                                == (#[trigger] p.interfaces[k]).name by {}
                            lemma_protocol_sound(
                                events,
                                next,
                                ProtocolV { interfaces: with_interface(p.interfaces, i), ..p },
                            );
                        }
                    }
                }
            } else {
                lemma_protocol_sound(events, pos + 1, p);
            },
            _ => {
                lemma_protocol_sound(events, pos + 1, p);
            },
        }
    }
}

/// In a protocol that has been read, the requests and the events of each interface are numbered in
/// the order in which they stand there, each message counts its file descriptors right, and nothing
/// is recorded but what the document says.
pub proof fn law_parsed_is_sound(events: Seq<XmlEventV>)
    ensures
        protocol_of(events) matches Ok(p) ==> protocol_fresh(p) && (forall|k: int|
            0 <= k < p.interfaces.len() ==> interface_sound(#[trigger] p.interfaces[k])),
{
    if protocol_of(events) is Ok {
        match events[1] {
            XmlEventV::Start { name, attrs } => {
                let value = first_attr(attrs, word("name"@))->0;
                lemma_protocol_sound(
                    events,
                    2,
                    ProtocolV {
                        name: utf8_text(value)->0,
                        interfaces: Seq::empty(),
                        active: false,
                    },
                );
            },
            _ => {},
        }
    }
}

/// The interfaces that stand in a protocol, in order: the events from `pos` on, up to the end of the
/// protocol.
pub open spec fn interfaces_in(events: Seq<XmlEventV>, pos: nat) -> Seq<InterfaceV>
    decreases events.len() - pos,
{
    if pos >= events.len() {
        Seq::empty()
    } else {
        match events[pos as int] {
            XmlEventV::Start { name, attrs } if name == word("interface"@) => match interface_start(
                attrs,
            ) {
                Err(_) => Seq::empty(),
                Ok(i) => match interface_from(events, pos + 1, i) {
                    Ok((i, next)) if pos < next && next <= events.len() => seq![i] + interfaces_in(
                        events,
                        next,
                    ),
                    _ => Seq::empty(),
                },
            },
            XmlEventV::End { name } if name == word("protocol"@) => Seq::empty(),
            _ => interfaces_in(events, pos + 1),
        }
    }
}

/// The interface that is found by its name.
pub open spec fn found(interfaces: Seq<InterfaceV>, name: Seq<char>) -> Option<InterfaceV> {
    match name_index(interface_names(interfaces), name) {
        Some(k) => Some(interfaces[k]),
        None => None,
    }
}

/// The last of some interfaces that has a name.
pub open spec fn last_named(interfaces: Seq<InterfaceV>, name: Seq<char>) -> Option<InterfaceV>
    decreases interfaces.len(),
{
    if interfaces.len() == 0 {
        None
    } else if interfaces.last().name == name {
        Some(interfaces.last())
    } else {
        last_named(interfaces.drop_last(), name)
    }
}

proof fn lemma_last_named(interfaces: Seq<InterfaceV>, name: Seq<char>)
    ensures
        match last_named(interfaces, name) {
            Some(i) => i.name == name && interfaces.contains(i),
            None => forall|j: int|
                0 <= j < interfaces.len() ==> (#[trigger] interfaces[j]).name != name,
        },
    decreases interfaces.len(),
{
    if interfaces.len() > 0 {
        let front = interfaces.drop_last();
        lemma_last_named(front, name);
        assert forall|j: int| 0 <= j < front.len() implies front[j] == interfaces[j] by {}
        if interfaces.last().name == name {
            assert(interfaces[interfaces.len() - 1] == interfaces.last());
        } else if last_named(front, name) is Some {
            let i = last_named(front, name)->0;
            let j = choose|j: int| 0 <= j < front.len() && front[j] == i;
            assert(interfaces[j] == i);
        }
    }
}

proof fn lemma_last_named_behind(i: InterfaceV, rest: Seq<InterfaceV>, name: Seq<char>)
    ensures
        last_named(seq![i] + rest, name) == match last_named(rest, name) {
            Some(j) => Some(j),
            None => if i.name == name {
                Some(i)
            } else {
                None
            },
        },
    decreases rest.len(),
{
    let all = seq![i] + rest;
    if rest.len() == 0 {
        assert(all.drop_last() =~= Seq::<InterfaceV>::empty());
        assert(last_named(all.drop_last(), name) is None);
    } else {
        assert(all.drop_last() =~= seq![i] + rest.drop_last());
        assert(all.last() == rest.last());
        lemma_last_named_behind(i, rest.drop_last(), name);
    }
}

proof fn lemma_found_with(interfaces: Seq<InterfaceV>, i: InterfaceV, name: Seq<char>)
    ensures
        found(with_interface(interfaces, i), name) == if i.name == name {
            Some(i)
        } else {
            found(interfaces, name)
        },
{
    let names = interface_names(interfaces);
    let all = with_interface(interfaces, i);
    lemma_name_index(names, i.name);
    lemma_name_index(names, name);
    match name_index(names, i.name) {
        Some(_) => {
            assert(interface_names(all) =~= names);
        },
        None => {
            assert(interface_names(all).drop_last() =~= names);
        },
    }
}

proof fn lemma_found_from(events: Seq<XmlEventV>, pos: nat, p: ProtocolV, name: Seq<char>)
    ensures
        protocol_from(events, pos, p) matches Ok(r) ==> found(r.interfaces, name)
            == match last_named(interfaces_in(events, pos), name) {
            Some(i) => Some(i),
            None => found(p.interfaces, name),
        },
    decreases events.len() - pos,
{
    if protocol_from(events, pos, p) is Ok {
        match events[pos as int] {
            XmlEventV::Start { name: element, attrs } => if element == word("interface"@) {
                let start = interface_start(attrs)->Ok_0;
                let (i, next) = interface_from(events, pos + 1, start)->Ok_0;
                let more = with_interface(p.interfaces, i);
                lemma_found_from(events, next, ProtocolV { interfaces: more, ..p }, name);
                lemma_found_with(p.interfaces, i, name);
                lemma_last_named_behind(i, interfaces_in(events, next), name);
            } else {
                lemma_found_from(events, pos + 1, p, name);
            },
            XmlEventV::End { name: element } => if element != word("protocol"@) {
                lemma_found_from(events, pos + 1, p, name);
            },
            _ => {
                lemma_found_from(events, pos + 1, p, name);
            },
        }
    }
}

/// In a protocol that has been read, an interface is found by a name exactly if one with that name
/// stands in the document, whether or not it ever becomes active. What is found has that name, and is
/// the last such interface.
pub proof fn law_interfaces_are_found(events: Seq<XmlEventV>, name: Seq<char>)
    ensures
        protocol_of(events) matches Ok(p) ==> {
            let read = interfaces_in(events, 2);
            let k = name_index(interface_names(p.interfaces), name);
            &&& k is Some <==> exists|j: int|
                0 <= j < read.len() && (#[trigger] read[j]).name == name
            &&& k matches Some(k) ==> 0 <= k < p.interfaces.len() && p.interfaces[k].name == name
                && last_named(read, name) == Some(p.interfaces[k])
        },
{
    if let Ok(p) = protocol_of(events) {
        match events[1] {
            XmlEventV::Start { name: _, attrs } => {
                let start = ProtocolV {
                    name: utf8_text(first_attr(attrs, word("name"@))->0)->0,
                    interfaces: Seq::empty(),
                    active: false,
                };
                lemma_found_from(events, 2, start, name);
                assert(interface_names(start.interfaces) =~= Seq::<Seq<char>>::empty());
                lemma_name_index(interface_names(p.interfaces), name);
                let read = interfaces_in(events, 2);
                lemma_last_named(read, name);
                if let Some(i) = last_named(read, name) {
                    let j = choose|j: int| 0 <= j < read.len() && read[j] == i;
                    assert(read[j].name == name);
                }
            },
            _ => {},
        }
    }
}

} // verus!
