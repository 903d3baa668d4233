//! What is read out of a document is what the document says.

use crate::parse::{
    arg_from, first_attr, interface_from, interface_start, message_from, message_start, named_from,
    number_of, protocol_from, protocol_of, type_named, with_interface, with_message, word,
    ParseError,
};
use crate::protocol::{
    interface_names, lemma_name_index, Arg, ArgV, InterfaceV, MessageV, ProtocolV, Type,
};
use crate::text::{decimal, law_decimal_round_trip, u32_text};
use crate::xml::{XmlAttrV, XmlEventV};
use vstd::prelude::*;
use vstd::utf8::{encode_utf8, encode_utf8_decode_utf8, encode_utf8_valid_utf8};

verus! {

/// An attribute.
pub open spec fn attr(key: Seq<char>, value: Seq<char>) -> Option<XmlAttrV> {
    Some(XmlAttrV { key: encode_utf8(key), value: encode_utf8(value) })
}

/// The start of an element.
pub open spec fn opening(name: Seq<char>, attrs: Seq<Option<XmlAttrV>>) -> XmlEventV {
    XmlEventV::Start { name: encode_utf8(name), attrs }
}

/// The end of an element.
pub open spec fn closing(name: Seq<char>) -> XmlEventV {
    XmlEventV::End { name: encode_utf8(name) }
}

/// What a type is called in a document.
pub open spec fn type_text(typ: Type) -> Seq<char> {
    match typ {
        Type::Int => "int"@,
        Type::Uint => "uint"@,
        Type::Fixed => "fixed"@,
        Type::String => "string"@,
        Type::Object => "object"@,
        Type::NewId => "new_id"@,
        Type::Array => "array"@,
        Type::Fd => "fd"@,
    }
}

/// What a document may hold besides what is looked for: attributes that cannot be read or have other
/// names, and text and elements with other names.
pub struct Clutter {
    pub attrs: Seq<Option<XmlAttrV>>,
    pub events: Seq<XmlEventV>,
}

/// Whether a name is one that has a meaning.
pub open spec fn has_meaning(name: Seq<u8>) -> bool {
    ||| name == encode_utf8("protocol"@)
    ||| name == encode_utf8("interface"@)
    ||| name == encode_utf8("request"@)
    ||| name == encode_utf8("event"@)
    ||| name == encode_utf8("arg"@)
}

/// Whether the key of an attribute is one that has a meaning.
pub open spec fn key_has_meaning(key: Seq<u8>) -> bool {
    ||| key == encode_utf8("name"@)
    ||| key == encode_utf8("type"@)
    ||| key == encode_utf8("interface"@)
    ||| key == encode_utf8("since"@)
    ||| key == encode_utf8("version"@)
}

/// Whether an event means nothing to a protocol.
pub open spec fn means_nothing(e: XmlEventV) -> bool {
    match e {
        XmlEventV::Start { name, .. } => !has_meaning(name),
        XmlEventV::End { name } => !has_meaning(name),
        XmlEventV::Failed => false,
        _ => true,
    }
}

impl Clutter {
    /// Whether nothing of it means anything to a protocol.
    pub open spec fn meaningless(self) -> bool {
        &&& forall|i: int|
            0 <= i < self.attrs.len() ==> ((#[trigger] self.attrs[i]) matches Some(a)
                ==> !key_has_meaning(a.key))
        &&& forall|i: int| 0 <= i < self.events.len() ==> means_nothing(#[trigger] self.events[i])
    }
}

/// An argument, written out.
pub open spec fn arg_written(a: ArgV, c: Clutter) -> Seq<XmlEventV> {
    c.events + seq![
        opening(
            "arg"@,
            c.attrs + seq![attr("name"@, a.name), attr("type"@, type_text(a.typ))] + (
            match a.interface_name {
                Some(name) => seq![attr("interface"@, name)],
                None => Seq::empty(),
            }),
        ),
        closing("arg"@),
    ]
}

/// Arguments from number `k` on, written out.
pub open spec fn args_written(args: Seq<ArgV>, k: nat, c: Clutter) -> Seq<XmlEventV>
    decreases args.len() - k,
{
    if k >= args.len() {
        c.events
    } else {
        arg_written(args[k as int], c) + args_written(args, k + 1, c)
    }
}

/// A message, written out.
pub open spec fn message_written(m: MessageV, c: Clutter) -> Seq<XmlEventV> {
    let kind = if m.is_request {
        "request"@
    } else {
        "event"@
    };
    c.events + seq![
        opening(
            kind,
            c.attrs + seq![attr("name"@, m.name), attr("since"@, decimal(m.since as nat))],
        ),
    ] + args_written(m.args, 0, c) + seq![closing(kind)]
}

/// Messages from number `k` on, written out.
pub open spec fn messages_written(ms: Seq<MessageV>, k: nat, c: Clutter) -> Seq<XmlEventV>
    decreases ms.len() - k,
{
    if k >= ms.len() {
        c.events
    } else {
        message_written(ms[k as int], c) + messages_written(ms, k + 1, c)
    }
}

/// An interface, written out: its requests, and then its events.
pub open spec fn interface_written(i: InterfaceV, c: Clutter) -> Seq<XmlEventV> {
    c.events + seq![
        opening(
            "interface"@,
            c.attrs + seq![
                attr("name"@, i.name),
                attr("version"@, decimal(i.parsed_version as nat)),
            ],
        ),
    ] + messages_written(i.requests, 0, c) + messages_written(i.events, 0, c) + seq![
        closing("interface"@),
    ]
}

/// Interfaces from number `k` on, written out.
pub open spec fn interfaces_written(is: Seq<InterfaceV>, k: nat, c: Clutter) -> Seq<XmlEventV>
    decreases is.len() - k,
{
    if k >= is.len() {
        c.events
    } else {
        interface_written(is[k as int], c) + interfaces_written(is, k + 1, c)
    }
}

/// A protocol, written out.
pub open spec fn protocol_written(p: ProtocolV, c: Clutter) -> Seq<XmlEventV> {
    seq![XmlEventV::Decl, opening("protocol"@, c.attrs + seq![attr("name"@, p.name)])]
        + interfaces_written(p.interfaces, 0, c) + seq![closing("protocol"@)]
}

/// Whether a message is one that has only been declared, as one of a kind with a number.
pub open spec fn is_declared(m: MessageV, is_request: bool, opcode: int) -> bool {
    &&& m.is_request == is_request
    &&& m.opcode == opcode
    &&& m.num_fds == m.args.filter(|a: ArgV| a.typ is Fd).len()
    &&& m.owner is None
    &&& m.new_id_interface is None
    &&& !m.active
    &&& m.handlers is None
    &&& m.special is None
}

/// Whether an interface is one that has only been declared.
pub open spec fn is_declared_interface(i: InterfaceV) -> bool {
    &&& i.limited_version is None
    &&& i.place is None
    &&& i.parent is None
    &&& forall|k: int| 0 <= k < i.requests.len() ==> is_declared(#[trigger] i.requests[k], true, k)
    &&& forall|k: int| 0 <= k < i.events.len() ==> is_declared(#[trigger] i.events[k], false, k)
}

/// Whether a run of events stands at a place among others.
spec fn stands(events: Seq<XmlEventV>, pos: int, run: Seq<XmlEventV>) -> bool {
    0 <= pos && pos + run.len() <= events.len() && events.subrange(pos, pos + run.len()) == run
}

proof fn lemma_stands(events: Seq<XmlEventV>, pos: int, a: Seq<XmlEventV>, b: Seq<XmlEventV>)
    requires
        stands(events, pos, a + b),
    ensures
        stands(events, pos, a),
        stands(events, pos + a.len(), b),
{
    let whole = events.subrange(pos, pos + (a + b).len());
    assert(events.subrange(pos, pos + a.len()) =~= whole.take(a.len() as int));
    assert(whole.take(a.len() as int) =~= a);
    assert(events.subrange(pos + a.len(), pos + a.len() + b.len()) =~= whole.skip(a.len() as int));
    assert(whole.skip(a.len() as int) =~= b);
}

proof fn lemma_stands_at(events: Seq<XmlEventV>, pos: int, run: Seq<XmlEventV>, i: int)
    requires
        stands(events, pos, run),
        0 <= i < run.len(),
    ensures
        events[pos + i] == run[i],
{
    assert(events.subrange(pos, pos + run.len())[i] == events[pos + i]);
}

proof fn lemma_text_apart(a: Seq<char>, b: Seq<char>)
    requires
        a != b,
    ensures
        encode_utf8(a) != encode_utf8(b),
{
    encode_utf8_decode_utf8(a);
    encode_utf8_decode_utf8(b);
}

proof fn lemma_names_apart()
    ensures
        word("protocol"@) != word("interface"@),
        word("protocol"@) != word("request"@),
        word("protocol"@) != word("event"@),
        word("protocol"@) != word("arg"@),
        word("interface"@) != word("request"@),
        word("interface"@) != word("event"@),
        word("interface"@) != word("arg"@),
        word("request"@) != word("event"@),
        word("request"@) != word("arg"@),
        word("event"@) != word("arg"@),
{
    reveal_strlit("protocol");
    reveal_strlit("interface");
    reveal_strlit("request");
    reveal_strlit("event");
    reveal_strlit("arg");
    lemma_text_apart("protocol"@, "interface"@);
    lemma_text_apart("protocol"@, "request"@);
    lemma_text_apart("protocol"@, "event"@);
    lemma_text_apart("protocol"@, "arg"@);
    lemma_text_apart("interface"@, "request"@);
    lemma_text_apart("interface"@, "event"@);
    lemma_text_apart("interface"@, "arg"@);
    lemma_text_apart("request"@, "event"@);
    lemma_text_apart("request"@, "arg"@);
    lemma_text_apart("event"@, "arg"@);
}

proof fn lemma_keys_apart()
    ensures
        word("name"@) != word("type"@),
        word("name"@) != word("interface"@),
        word("name"@) != word("since"@),
        word("name"@) != word("version"@),
        word("type"@) != word("interface"@),
{
    reveal_strlit("name");
    reveal_strlit("type");
    reveal_strlit("interface");
    reveal_strlit("since");
    reveal_strlit("version");
    assert("name"@[0] == 'n');
    assert("type"@[0] == 't');
    lemma_text_apart("name"@, "type"@);
    lemma_text_apart("name"@, "interface"@);
    lemma_text_apart("name"@, "since"@);
    lemma_text_apart("name"@, "version"@);
    lemma_text_apart("type"@, "interface"@);
}

/// Each type is known by its name.
pub proof fn law_types_are_known(typ: Type)
    ensures
        type_named(encode_utf8(type_text(typ))) == Some(typ),
{
    reveal_strlit("int");
    reveal_strlit("uint");
    reveal_strlit("fixed");
    reveal_strlit("string");
    reveal_strlit("object");
    reveal_strlit("new_id");
    reveal_strlit("array");
    reveal_strlit("fd");
    assert("string"@[0] == 's');
    assert("object"@[0] == 'o');
    assert("new_id"@[0] == 'n');
    assert("fixed"@[0] == 'f');
    assert("array"@[0] == 'a');
    let t = type_text(typ);
    if t != "int"@ {
        lemma_text_apart(t, "int"@);
    }
    if t != "uint"@ {
        lemma_text_apart(t, "uint"@);
    }
    if t != "fixed"@ {
        lemma_text_apart(t, "fixed"@);
    }
    if t != "string"@ {
        lemma_text_apart(t, "string"@);
    }
    if t != "object"@ {
        lemma_text_apart(t, "object"@);
    }
    if t != "new_id"@ {
        lemma_text_apart(t, "new_id"@);
    }
    if t != "array"@ {
        lemma_text_apart(t, "array"@);
    }
}

proof fn lemma_clutter_arg(attrs: Seq<Option<XmlAttrV>>)
    requires
        forall|i: int|
            0 <= i < attrs.len() ==> ((#[trigger] attrs[i]) matches Some(a) ==> !key_has_meaning(
                a.key,
            )),
    ensures
        arg_from(attrs) == Ok::<ArgV, ParseError>(Arg::blank()),
    decreases attrs.len(),
{
    if attrs.len() > 0 {
        assert forall|i: int| 0 <= i < attrs.drop_last().len() implies ((
        #[trigger] attrs.drop_last()[i]) matches Some(a) ==> !key_has_meaning(a.key)) by {
            assert(attrs.drop_last()[i] == attrs[i]);
        }
        lemma_clutter_arg(attrs.drop_last());
        assert(attrs.last() == attrs[attrs.len() - 1]);
    }
}

proof fn lemma_clutter_named(attrs: Seq<Option<XmlAttrV>>, key: Seq<char>)
    requires
        key == "since"@ || key == "version"@,
        forall|i: int|
            0 <= i < attrs.len() ==> ((#[trigger] attrs[i]) matches Some(a) ==> !key_has_meaning(
                a.key,
            )),
    ensures
        named_from(attrs, key) == Ok::<(Seq<char>, u32), ParseError>((Seq::empty(), 1)),
        first_attr(attrs, word("name"@)) is None,
    decreases attrs.len(),
{
    if attrs.len() > 0 {
        assert forall|i: int| 0 <= i < attrs.drop_last().len() implies ((
        #[trigger] attrs.drop_last()[i]) matches Some(a) ==> !key_has_meaning(a.key)) by {
            assert(attrs.drop_last()[i] == attrs[i]);
        }
        assert forall|i: int| 0 <= i < attrs.skip(1).len() implies ((
        #[trigger] attrs.skip(1)[i]) matches Some(a) ==> !key_has_meaning(a.key)) by {
            assert(attrs.skip(1)[i] == attrs[i + 1]);
        }
        lemma_clutter_named(attrs.drop_last(), key);
        lemma_clutter_named(attrs.skip(1), key);
        assert(attrs.last() == attrs[attrs.len() - 1]);
        assert(attrs[0] matches Some(a) ==> !key_has_meaning(a.key));
    }
}

proof fn lemma_first_name(clutter: Seq<Option<XmlAttrV>>, a: XmlAttrV)
    requires
        first_attr(clutter, word("name"@)) is None,
        a.key == word("name"@),
    ensures
        first_attr(clutter + seq![Some(a)], word("name"@)) == Some(a.value),
    decreases clutter.len(),
{
    let all = clutter + seq![Some(a)];
    if clutter.len() > 0 {
        assert(all.skip(1) =~= clutter.skip(1) + seq![Some(a)]);
        assert(all[0] == clutter[0]);
        lemma_first_name(clutter.skip(1), a);
    } else {
        assert(all[0] == Some(a));
    }
}

/// An argument is read back from its attributes.
proof fn lemma_arg_read(a: ArgV, c: Clutter)
    requires
        c.meaningless(),
    ensures
        arg_written(a, c)[c.events.len() as int] matches XmlEventV::Start { name, attrs } && name
            == word("arg"@) && arg_from(attrs) == Ok::<ArgV, ParseError>(a),
{
    lemma_clutter_arg(c.attrs);
    lemma_keys_apart();
    law_types_are_known(a.typ);
    encode_utf8_decode_utf8(a.name);
    encode_utf8_valid_utf8(a.name);
    let n = attr("name"@, a.name);
    let t = attr("type"@, type_text(a.typ));
    let two = c.attrs + seq![n, t];
    let one = c.attrs + seq![n];
    assert(one.drop_last() =~= c.attrs);
    assert(arg_from(one) == Ok::<ArgV, ParseError>(ArgV { name: a.name, ..Arg::blank() }));
    assert(two.drop_last() =~= one);
    assert(two.last() == t);
    assert(arg_from(two) == Ok::<ArgV, ParseError>(
        ArgV { name: a.name, typ: a.typ, ..Arg::blank() },
    ));
    match a.interface_name {
        Some(name) => {
            encode_utf8_decode_utf8(name);
            encode_utf8_valid_utf8(name);
            let three = two + seq![attr("interface"@, name)];
            assert(three.drop_last() =~= two);
            assert(arg_from(three) == Ok::<ArgV, ParseError>(a));
        },
        None => {
            assert(two + Seq::<Option<XmlAttrV>>::empty() =~= two);
        },
    }
}

/// A name and a number are read back from attributes.
proof fn lemma_named_read(
    clutter: Seq<Option<XmlAttrV>>,
    name: Seq<char>,
    key: Seq<char>,
    number: u32,
)
    requires
        key == "since"@ || key == "version"@,
        named_from(clutter, key) == Ok::<(Seq<char>, u32), ParseError>((Seq::empty(), 1)),
    ensures
        named_from(
            clutter + seq![attr("name"@, name), attr(key, decimal(number as nat))],
            key,
        ) == Ok::<(Seq<char>, u32), ParseError>((name, number)),
{
    lemma_keys_apart();
    encode_utf8_decode_utf8(name);
    encode_utf8_valid_utf8(name);
    let text = decimal(number as nat);
    encode_utf8_decode_utf8(text);
    encode_utf8_valid_utf8(text);
    law_decimal_round_trip(number);
    assert(number_of(encode_utf8(text)) == Some(number));
    let one = clutter + seq![attr("name"@, name)];
    let two = clutter + seq![attr("name"@, name), attr(key, text)];
    assert(one.drop_last() =~= clutter);
    assert(named_from(one, key) == Ok::<(Seq<char>, u32), ParseError>((name, 1)));
    assert(two.drop_last() =~= one);
    assert(two.last() == attr(key, text));
}

proof fn lemma_message_passes(events: Seq<XmlEventV>, pos: nat, run: Seq<XmlEventV>, m: MessageV)
    requires
        stands(events, pos as int, run),
        forall|i: int| 0 <= i < run.len() ==> means_nothing(#[trigger] run[i]),
    ensures
        message_from(events, pos, m) == message_from(events, pos + run.len(), m),
    decreases run.len(),
{
    if run.len() > 0 {
        lemma_stands_at(events, pos as int, run, 0);
        assert(means_nothing(run[0]));
        let rest = run.skip(1);
        assert(seq![run[0]] + rest =~= run);
        lemma_stands(events, pos as int, seq![run[0]], rest);
        assert forall|i: int| 0 <= i < rest.len() implies means_nothing(#[trigger] rest[i]) by {
            assert(rest[i] == run[i + 1]);
        }
        lemma_message_passes(events, pos + 1, rest, m);
    }
}

proof fn lemma_interface_passes(
    events: Seq<XmlEventV>,
    pos: nat,
    run: Seq<XmlEventV>,
    i: InterfaceV,
)
    requires
        stands(events, pos as int, run),
        forall|k: int| 0 <= k < run.len() ==> means_nothing(#[trigger] run[k]),
    ensures
        interface_from(events, pos, i) == interface_from(events, pos + run.len(), i),
    decreases run.len(),
{
    if run.len() > 0 {
        lemma_stands_at(events, pos as int, run, 0);
        assert(means_nothing(run[0]));
        let rest = run.skip(1);
        assert(seq![run[0]] + rest =~= run);
        lemma_stands(events, pos as int, seq![run[0]], rest);
        assert forall|k: int| 0 <= k < rest.len() implies means_nothing(#[trigger] rest[k]) by {
            assert(rest[k] == run[k + 1]);
        }
        lemma_interface_passes(events, pos + 1, rest, i);
    }
}

proof fn lemma_protocol_passes(events: Seq<XmlEventV>, pos: nat, run: Seq<XmlEventV>, p: ProtocolV)
    requires
        stands(events, pos as int, run),
        forall|k: int| 0 <= k < run.len() ==> means_nothing(#[trigger] run[k]),
    ensures
        protocol_from(events, pos, p) == protocol_from(events, pos + run.len(), p),
    decreases run.len(),
{
    if run.len() > 0 {
        lemma_stands_at(events, pos as int, run, 0);
        assert(means_nothing(run[0]));
        let rest = run.skip(1);
        assert(seq![run[0]] + rest =~= run);
        lemma_stands(events, pos as int, seq![run[0]], rest);
        assert forall|k: int| 0 <= k < rest.len() implies means_nothing(#[trigger] rest[k]) by {
            assert(rest[k] == run[k + 1]);
        }
        lemma_protocol_passes(events, pos + 1, rest, p);
    }
}

/// A message of which the first `k` arguments have been read.
spec fn read_so_far(m: MessageV, k: int) -> MessageV {
    MessageV {
        args: m.args.take(k),
        num_fds: m.args.take(k).filter(|a: ArgV| a.typ is Fd).len() as u32,
        ..m
    }
}

proof fn lemma_fds_grow(args: Seq<ArgV>, k: int)
    requires
        0 <= k < args.len(),
    ensures
        args.take(k + 1).filter(|a: ArgV| a.typ is Fd).len() == args.take(k).filter(
            |a: ArgV| a.typ is Fd,
        ).len() + (if args[k].typ is Fd {
            1int
        } else {
            0
        }),
{
    reveal(Seq::filter);
    assert(args.take(k + 1).drop_last() =~= args.take(k));
    assert(args.take(k + 1).last() == args[k]);
}

proof fn lemma_fds_bound(args: Seq<ArgV>, k: int)
    requires
        0 <= k <= args.len(),
    ensures
        args.take(k).filter(|a: ArgV| a.typ is Fd).len() <= args.filter(
            |a: ArgV| a.typ is Fd,
        ).len(),
    decreases args.len() - k,
{
    if k < args.len() {
        lemma_fds_grow(args, k);
        lemma_fds_bound(args, k + 1);
    } else {
        assert(args.take(k) =~= args);
    }
}

proof fn lemma_args_read(events: Seq<XmlEventV>, pos: nat, m: MessageV, k: nat, c: Clutter)
    requires
        c.meaningless(),
        m.num_fds == m.args.filter(|a: ArgV| a.typ is Fd).len(),
        k <= m.args.len(),
        stands(events, pos as int, args_written(m.args, k, c)),
    ensures
        message_from(events, pos, read_so_far(m, k as int)) == message_from(
            events,
            pos + args_written(m.args, k, c).len(),
            m,
        ),
    decreases m.args.len() - k,
{
    let so_far = read_so_far(m, k as int);
    if k < m.args.len() {
        let a = m.args[k as int];
        let here = arg_written(a, c);
        let rest = args_written(m.args, k + 1, c);
        lemma_stands(events, pos as int, here, rest);
        let two = here.skip(c.events.len() as int);
        assert(here =~= c.events + two);
        lemma_stands(events, pos as int, c.events, two);
        lemma_message_passes(events, pos, c.events, so_far);
        let at = pos + c.events.len();
        lemma_arg_read(a, c);
        lemma_stands_at(events, at as int, two, 0);
        lemma_stands_at(events, at as int, two, 1);
        lemma_names_apart();
        lemma_fds_grow(m.args, k as int);
        lemma_fds_bound(m.args, k as int);
        lemma_fds_bound(m.args, k as int + 1);
        let next = read_so_far(m, k as int + 1);
        assert(so_far.args.push(a) =~= next.args);
        assert(message_from(events, at, so_far) == message_from(events, at + 1, next));
        assert(message_from(events, at + 1, next) == message_from(events, at + 2, next));
        assert(here.len() == c.events.len() + 2);
        lemma_args_read(events, pos + here.len(), m, k + 1, c);
    } else {
        assert(m.args.take(k as int) =~= m.args);
        assert(so_far == m);
        lemma_message_passes(events, pos, c.events, m);
    }
}

/// A message is read back, and what has been written after it is read next.
proof fn lemma_message_read(
    events: Seq<XmlEventV>,
    pos: nat,
    i: InterfaceV,
    m: MessageV,
    c: Clutter,
)
    requires
        c.meaningless(),
        m.is_request ==> is_declared(m, true, i.requests.len() as int),
        !m.is_request ==> is_declared(m, false, i.events.len() as int),
        stands(events, pos as int, message_written(m, c)),
    ensures
        interface_from(events, pos, i) == interface_from(
            events,
            pos + message_written(m, c).len(),
            with_message(i, m),
        ),
{
    let kind = if m.is_request {
        "request"@
    } else {
        "event"@
    };
    let attrs = c.attrs + seq![attr("name"@, m.name), attr("since"@, decimal(m.since as nat))];
    let first = seq![opening(kind, attrs)];
    let args = args_written(m.args, 0, c);
    let last = seq![closing(kind)];
    let whole = message_written(m, c);
    assert(whole =~= c.events + (first + (args + last)));
    lemma_stands(events, pos as int, c.events, first + (args + last));
    lemma_interface_passes(events, pos, c.events, i);
    let at = pos + c.events.len();
    lemma_stands(events, at as int, first, args + last);
    lemma_stands_at(events, at as int, first, 0);
    lemma_stands(events, at as int + 1, args, last);
    lemma_clutter_named(c.attrs, "since"@);
    lemma_named_read(c.attrs, m.name, "since"@, m.since);
    lemma_names_apart();
    reveal(Seq::filter);
    let start = read_so_far(m, 0);
    assert(m.args.take(0) =~= Seq::<ArgV>::empty());
    assert(start.args =~= Seq::<ArgV>::empty());
    assert(message_start(attrs, m.opcode, m.is_request) == Ok::<MessageV, ParseError>(start));
    lemma_args_read(events, at + 1, m, 0, c);
    let end = at + 1 + args.len();
    lemma_stands_at(events, end as int, last, 0);
    assert(message_from(events, end, m) == Ok::<(MessageV, nat), ParseError>((m, end + 1)));
    assert(whole.len() == c.events.len() + 1 + args.len() + 1);
    assert(message_from(events, at + 1, start) == Ok::<(MessageV, nat), ParseError>((m, end + 1)));
    assert(end + 1 <= events.len());
    assert(events[at as int] == opening(kind, attrs));
}

proof fn lemma_requests_read(events: Seq<XmlEventV>, pos: nat, i: InterfaceV, k: nat, c: Clutter)
    requires
        c.meaningless(),
        is_declared_interface(i),
        k <= i.requests.len(),
        stands(events, pos as int, messages_written(i.requests, k, c)),
    ensures
        interface_from(
            events,
            pos,
            InterfaceV { requests: i.requests.take(k as int), events: Seq::empty(), ..i },
        ) == interface_from(
            events,
            pos + messages_written(i.requests, k, c).len(),
            InterfaceV { events: Seq::empty(), ..i },
        ),
    decreases i.requests.len() - k,
{
    let so_far = InterfaceV { requests: i.requests.take(k as int), events: Seq::empty(), ..i };
    if k < i.requests.len() {
        let m = i.requests[k as int];
        let here = message_written(m, c);
        let rest = messages_written(i.requests, k + 1, c);
        lemma_stands(events, pos as int, here, rest);
        lemma_message_read(events, pos, so_far, m, c);
        assert(i.requests.take(k as int).push(m) =~= i.requests.take(k as int + 1));
        lemma_requests_read(events, pos + here.len(), i, k + 1, c);
    } else {
        assert(i.requests.take(k as int) =~= i.requests);
        lemma_interface_passes(events, pos, c.events, so_far);
    }
}

proof fn lemma_events_read(events: Seq<XmlEventV>, pos: nat, i: InterfaceV, k: nat, c: Clutter)
    requires
        c.meaningless(),
        is_declared_interface(i),
        k <= i.events.len(),
        stands(events, pos as int, messages_written(i.events, k, c)),
    ensures
        interface_from(events, pos, InterfaceV { events: i.events.take(k as int), ..i })
            == interface_from(events, pos + messages_written(i.events, k, c).len(), i),
    decreases i.events.len() - k,
{
    let so_far = InterfaceV { events: i.events.take(k as int), ..i };
    if k < i.events.len() {
        let m = i.events[k as int];
        let here = message_written(m, c);
        let rest = messages_written(i.events, k + 1, c);
        lemma_stands(events, pos as int, here, rest);
        lemma_message_read(events, pos, so_far, m, c);
        assert(i.events.take(k as int).push(m) =~= i.events.take(k as int + 1));
        lemma_events_read(events, pos + here.len(), i, k + 1, c);
    } else {
        assert(i.events.take(k as int) =~= i.events);
        lemma_interface_passes(events, pos, c.events, so_far);
    }
}

proof fn lemma_interface_read(
    events: Seq<XmlEventV>,
    pos: nat,
    p: ProtocolV,
    i: InterfaceV,
    c: Clutter,
)
    requires
        c.meaningless(),
        is_declared_interface(i),
        stands(events, pos as int, interface_written(i, c)),
    ensures
        protocol_from(events, pos, p) == protocol_from(
            events,
            pos + interface_written(i, c).len(),
            ProtocolV { interfaces: with_interface(p.interfaces, i), ..p },
        ),
{
    let attrs = c.attrs + seq![
        attr("name"@, i.name),
        attr("version"@, decimal(i.parsed_version as nat)),
    ];
    let first = seq![opening("interface"@, attrs)];
    let requests = messages_written(i.requests, 0, c);
    let its_events = messages_written(i.events, 0, c);
    let last = seq![closing("interface"@)];
    let whole = interface_written(i, c);
    assert(whole =~= c.events + (first + (requests + (its_events + last))));
    lemma_stands(events, pos as int, c.events, first + (requests + (its_events + last)));
    lemma_protocol_passes(events, pos, c.events, p);
    let at = pos + c.events.len();
    lemma_stands(events, at as int, first, requests + (its_events + last));
    lemma_stands_at(events, at as int, first, 0);
    lemma_stands(events, at as int + 1, requests, its_events + last);
    lemma_stands(events, at as int + 1 + requests.len(), its_events, last);
    lemma_clutter_named(c.attrs, "version"@);
    lemma_named_read(c.attrs, i.name, "version"@, i.parsed_version);
    lemma_names_apart();
    let start = InterfaceV { requests: i.requests.take(0), events: Seq::empty(), ..i };
    assert(start.requests =~= Seq::<MessageV>::empty());
    assert(interface_start(attrs) == Ok::<InterfaceV, ParseError>(start));
    lemma_requests_read(events, at + 1, i, 0, c);
    let middle = InterfaceV { events: Seq::empty(), ..i };
    assert(i.events.take(0) =~= Seq::<MessageV>::empty());
    lemma_events_read(events, at + 1 + requests.len(), i, 0, c);
    let end = at + 1 + requests.len() + its_events.len();
    lemma_stands_at(events, end as int, last, 0);
    assert(interface_from(events, end, i) == Ok::<(InterfaceV, nat), ParseError>((i, end + 1)));
    assert(interface_from(events, at + 1, start) == Ok::<(InterfaceV, nat), ParseError>(
        (i, end + 1),
    ));
    assert(whole.len() == c.events.len() + 1 + requests.len() + its_events.len() + 1);
    assert(events[at as int] == opening("interface"@, attrs));
}

proof fn lemma_interfaces_read(events: Seq<XmlEventV>, pos: nat, p: ProtocolV, k: nat, c: Clutter)
    requires
        c.meaningless(),
        forall|j: int|
            0 <= j < p.interfaces.len() ==> is_declared_interface(#[trigger] p.interfaces[j]),
        forall|i: int, j: int|
            0 <= i < j < p.interfaces.len() ==> (#[trigger] p.interfaces[i]).name
                != (#[trigger] p.interfaces[j]).name,
        k <= p.interfaces.len(),
        stands(events, pos as int, interfaces_written(p.interfaces, k, c)),
    ensures
        protocol_from(
            events,
            pos,
            ProtocolV { interfaces: p.interfaces.take(k as int), ..p },
        ) == protocol_from(events, pos + interfaces_written(p.interfaces, k, c).len(), p),
    decreases p.interfaces.len() - k,
{
    let so_far = ProtocolV { interfaces: p.interfaces.take(k as int), ..p };
    if k < p.interfaces.len() {
        let i = p.interfaces[k as int];
        let here = interface_written(i, c);
        let rest = interfaces_written(p.interfaces, k + 1, c);
        lemma_stands(events, pos as int, here, rest);
        lemma_interface_read(events, pos, so_far, i, c);
        let names = interface_names(so_far.interfaces);
        lemma_name_index(names, i.name);
        assert forall|j: int| 0 <= j < names.len() implies names[j] != i.name by {
            assert(names[j] == p.interfaces[j].name);
        }
        assert(with_interface(so_far.interfaces, i) =~= p.interfaces.take(k as int + 1));
        lemma_interfaces_read(events, pos + here.len(), p, k + 1, c);
    } else {
        assert(p.interfaces.take(k as int) =~= p.interfaces);
        lemma_protocol_passes(events, pos, c.events, so_far);
    }
}

/// A protocol that is written out as a document is read back as it was: the protocol, its
/// interfaces, their requests and events in order, and the arguments of each. Attributes, elements
/// and text that mean nothing to a protocol may stand anywhere between.
pub proof fn law_protocols_are_read_back(p: ProtocolV, c: Clutter)
    requires
        c.meaningless(),
        !p.active,
        forall|j: int|
            0 <= j < p.interfaces.len() ==> is_declared_interface(#[trigger] p.interfaces[j]),
        forall|i: int, j: int|
            0 <= i < j < p.interfaces.len() ==> (#[trigger] p.interfaces[i]).name
                != (#[trigger] p.interfaces[j]).name,
    ensures
        protocol_of(protocol_written(p, c)) == Ok::<ProtocolV, ParseError>(p),
{
    let events = protocol_written(p, c);
    let attrs = c.attrs + seq![attr("name"@, p.name)];
    let first = seq![XmlEventV::Decl, opening("protocol"@, attrs)];
    let middle = interfaces_written(p.interfaces, 0, c);
    let last = seq![closing("protocol"@)];
    assert(events =~= first + (middle + last));
    assert(events.subrange(0, events.len() as int) =~= events);
    lemma_stands(events, 0, first, middle + last);
    lemma_stands_at(events, 0, first, 0);
    lemma_stands_at(events, 0, first, 1);
    lemma_stands(events, 2, middle, last);
    lemma_clutter_named(c.attrs, "since"@);
    lemma_first_name(c.attrs, XmlAttrV { key: word("name"@), value: encode_utf8(p.name) });
    encode_utf8_decode_utf8(p.name);
    encode_utf8_valid_utf8(p.name);
    lemma_names_apart();
    assert(p.interfaces.take(0) =~= Seq::<InterfaceV>::empty());
    lemma_interfaces_read(events, 2, p, 0, c);
    lemma_stands_at(events, 2 + middle.len() as int, last, 0);
}

/// A document starts with a declaration, and then with the protocol and its name, or is refused.
pub proof fn law_documents_start_with_the_protocol(events: Seq<XmlEventV>)
    ensures
        events.len() == 0 || !(events[0] is Decl) ==> protocol_of(events) == Err::<
            ProtocolV,
            ParseError,
        >(ParseError::MissingDecl),
        events.len() > 1 && events[0] is Decl ==> (events[1] matches XmlEventV::Start { name, attrs }
            ==> {
            &&& name != encode_utf8("protocol"@) ==> protocol_of(events) == Err::<
                ProtocolV,
                ParseError,
            >(ParseError::MissingProtocol)
            &&& name == encode_utf8("protocol"@) && (forall|i: int|
                0 <= i < attrs.len() ==> ((#[trigger] attrs[i]) matches Some(a) ==> a.key
                    != encode_utf8("name"@))) ==> protocol_of(events) == Err::<
                ProtocolV,
                ParseError,
            >(ParseError::MissingName)
        }),
        events.len() == 1 && events[0] is Decl ==> protocol_of(events) == Err::<
            ProtocolV,
            ParseError,
        >(ParseError::IllFormed),
        events.len() > 1 && events[0] is Decl && !(events[1] is Start) ==> protocol_of(events)
            == Err::<ProtocolV, ParseError>(ParseError::IllFormed),
{
    if events.len() > 1 {
        if let XmlEventV::Start { name, attrs } = events[1] {
            if forall|i: int|
                0 <= i < attrs.len() ==> ((#[trigger] attrs[i]) matches Some(a) ==> a.key
                    != encode_utf8("name"@)) {
                lemma_no_name(attrs);
            }
        }
    }
}

proof fn lemma_no_name(attrs: Seq<Option<XmlAttrV>>)
    requires
        forall|i: int|
            0 <= i < attrs.len() ==> ((#[trigger] attrs[i]) matches Some(a) ==> a.key != word(
                "name"@,
            )),
    ensures
        first_attr(attrs, word("name"@)) is None,
    decreases attrs.len(),
{
    if attrs.len() > 0 {
        let rest = attrs.skip(1);
        assert(attrs[0] matches Some(a) ==> a.key != word("name"@));
        assert forall|i: int| 0 <= i < rest.len() implies ((#[trigger] rest[i]) matches Some(a)
            ==> a.key != word("name"@)) by {
            assert(rest[i] == attrs[i + 1]);
        }
        lemma_no_name(rest);
    }
}

/// An attribute that does not say what it should is an error: an argument of a type that is not known,
/// and a version that is no number.
pub proof fn law_bad_attributes_are_errors(
    attrs: Seq<Option<XmlAttrV>>,
    text: Seq<char>,
    key: Seq<char>,
)
    requires
        key == "since"@ || key == "version"@,
    ensures
        arg_from(attrs) is Ok && (forall|typ: Type| text != #[trigger] type_text(typ)) ==> arg_from(
            attrs.push(attr("type"@, text)),
        ) == Err::<ArgV, ParseError>(ParseError::UnexpectedType),
        named_from(attrs, key) is Ok && u32_text(text) is None ==> named_from(
            attrs.push(attr(key, text)),
            key,
        ) == Err::<(Seq<char>, u32), ParseError>(ParseError::InvalidValue),
        named_from(attrs, key) is Err ==> named_from(attrs.push(attr(key, text)), key)
            == named_from(attrs, key),
{
    lemma_keys_apart();
    encode_utf8_decode_utf8(text);
    encode_utf8_valid_utf8(text);
    assert(attrs.push(attr("type"@, text)).drop_last() =~= attrs);
    assert(attrs.push(attr(key, text)).drop_last() =~= attrs);
    if forall|typ: Type| text != #[trigger] type_text(typ) {
        assert(text != type_text(Type::Int) && text != type_text(Type::Uint));
        assert(text != type_text(Type::Fixed) && text != type_text(Type::String));
        assert(text != type_text(Type::Object) && text != type_text(Type::NewId));
        assert(text != type_text(Type::Array) && text != type_text(Type::Fd));
        lemma_text_apart(text, "int"@);
        lemma_text_apart(text, "uint"@);
        lemma_text_apart(text, "fixed"@);
        lemma_text_apart(text, "string"@);
        lemma_text_apart(text, "object"@);
        lemma_text_apart(text, "new_id"@);
        lemma_text_apart(text, "array"@);
        lemma_text_apart(text, "fd"@);
    }
}

/// What a document does not say is taken to be so: an interface is of version one, a message has been
/// there since version one, and an argument is an object without a given interface.
pub proof fn law_what_is_not_said(c: Clutter, key: Seq<char>)
    requires
        c.meaningless(),
        key == "since"@ || key == "version"@,
    ensures
        named_from(c.attrs, key) == Ok::<(Seq<char>, u32), ParseError>((Seq::empty(), 1)),
        arg_from(c.attrs) == Ok::<ArgV, ParseError>(
            ArgV { name: Seq::empty(), typ: Type::Object, interface_name: None },
        ),
{
    lemma_clutter_named(c.attrs, key);
    lemma_clutter_arg(c.attrs);
}

/// Where an attribute is given more than once, the last one counts; only the name of the protocol is
/// the first that is given.
pub proof fn law_later_attributes_count(
    attrs: Seq<Option<XmlAttrV>>,
    text: Seq<char>,
    key: Seq<char>,
    typ: Type,
    number: u32,
)
    requires
        key == "since"@ || key == "version"@,
    ensures
        arg_from(attrs) matches Ok(arg) ==> {
            &&& arg_from(attrs.push(attr("name"@, text))) == Ok::<ArgV, ParseError>(
                ArgV { name: text, ..arg },
            )
            &&& arg_from(attrs.push(attr("type"@, type_text(typ)))) == Ok::<ArgV, ParseError>(
                ArgV { typ, ..arg },
            )
            &&& arg_from(attrs.push(attr("interface"@, text))) == Ok::<ArgV, ParseError>(
                ArgV { interface_name: Some(text), ..arg },
            )
        },
        named_from(attrs, key) matches Ok((name, n)) ==> {
            &&& named_from(attrs.push(attr("name"@, text)), key) == Ok::<
                (Seq<char>, u32),
                ParseError,
            >((text, n))
            &&& named_from(attrs.push(attr(key, decimal(number as nat))), key) == Ok::<
                (Seq<char>, u32),
                ParseError,
            >((name, number))
        },
        first_attr(attrs, encode_utf8("name"@)) matches Some(value) ==> first_attr(
            attrs.push(attr("name"@, text)),
            encode_utf8("name"@),
        ) == Some(value),
{
    lemma_keys_apart();
    law_types_are_known(typ);
    encode_utf8_decode_utf8(text);
    encode_utf8_valid_utf8(text);
    let digits = decimal(number as nat);
    encode_utf8_decode_utf8(digits);
    encode_utf8_valid_utf8(digits);
    law_decimal_round_trip(number);
    assert(attrs.push(attr("name"@, text)).drop_last() =~= attrs);
    assert(attrs.push(attr("type"@, type_text(typ))).drop_last() =~= attrs);
    assert(attrs.push(attr("interface"@, text)).drop_last() =~= attrs);
    assert(attrs.push(attr(key, digits)).drop_last() =~= attrs);
    lemma_first_stays(attrs, attr("name"@, text));
}

proof fn lemma_first_stays(attrs: Seq<Option<XmlAttrV>>, last: Option<XmlAttrV>)
    ensures
        first_attr(attrs, word("name"@)) matches Some(value) ==> first_attr(
            attrs.push(last),
            word("name"@),
        ) == Some(value),
    decreases attrs.len(),
{
    if attrs.len() > 0 {
        lemma_first_stays(attrs.skip(1), last);
        assert(attrs.push(last).skip(1) =~= attrs.skip(1).push(last));
        assert(attrs.push(last)[0] == attrs[0]);
    }
}

} // verus!
