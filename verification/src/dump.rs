//! Protocols in words: descriptions, and a listing of what is active.

use crate::actives::ActiveInterfacesA;
use crate::protocol::{
    at, interface_at, interface_linked, message_linked, Arg, HandlerEntry, Interface, Message,
    Protocol, Type,
};
use crate::text::{decimal, to_decimal};
use std::collections::VecDeque;
use vstd::prelude::*;
use vstd::string::StringExecFns;

verus! {

/// The letter for a type.
pub open spec fn type_text(typ: Type) -> Seq<char> {
    match typ {
        Type::Int => "i"@,
        Type::Uint => "u"@,
        Type::Fixed => "f"@,
        Type::String => "s"@,
        Type::Object => "o"@,
        Type::NewId => "n"@,
        Type::Array => "a"@,
        Type::Fd => "h"@,
    }
}

/// The letters for the types of some arguments.
pub open spec fn types_text(args: Seq<Arg>) -> Seq<char>
    decreases args.len(),
{
    if args.len() == 0 {
        Seq::empty()
    } else {
        types_text(args.drop_last()) + type_text(args.last().typ)
    }
}

/// The names of the groups that some handlers were added for.
pub open spec fn groups_text(handlers: Seq<HandlerEntry>) -> Seq<char>
    decreases handlers.len(),
{
    if handlers.len() == 0 {
        Seq::empty()
    } else if handlers.len() == 1 {
        handlers[0].group_name@
    } else {
        groups_text(handlers.drop_last()) + ", "@ + handlers.last().group_name@
    }
}

/// The line for a message.
pub open spec fn message_text(protocols: Seq<Protocol>, m: Message) -> Seq<char> {
    (if m.is_request {
        "   request "@
    } else {
        "     event "@
    }) + m.name@ + "[o:"@ + decimal(m.opcode as nat) + ",s:"@ + decimal(m.since as nat) + "]("@
        + types_text(m.args@) + ")"@ + (match m.new_id_interface {
        Some(id) => "<n:"@ + at(protocols, id).name@ + ">"@,
        None => Seq::empty(),
    }) + (match m.handlers.0 {
        Some(handlers) => "h:["@ + groups_text(handlers@) + "]"@,
        None => Seq::empty(),
    }) + "\n"@
}

/// The lines for messages, up to the first one that is not active.
pub open spec fn messages_text(protocols: Seq<Protocol>, messages: Seq<Message>) -> Seq<char>
    decreases messages.len(),
{
    if messages.len() == 0 || !messages[0].active {
        Seq::empty()
    } else {
        message_text(protocols, messages[0]) + messages_text(protocols, messages.skip(1))
    }
}

/// The lines for an interface.
pub open spec fn interface_text(protocols: Seq<Protocol>, i: Interface) -> Seq<char> {
    i.name@ + "[v:"@ + decimal(i.limited_version->0 as nat) + "](^:"@ + (match i.parent {
        Some(p) => protocols[i.place->0.protocol as int].interfaces@[p as int].name@,
        None => "<global>"@,
    }) + ")[in:"@ + protocols[i.place->0.protocol as int].name@ + "]\n"@ + " requests:\n"@
        + messages_text(protocols, i.requests@) + " events:\n"@ + messages_text(
        protocols,
        i.events@,
    ) + "\n"@
}

fn type_letter(typ: Type) -> (r: &'static str)
    ensures
        r@ == type_text(typ),
{
    match typ {
        Type::Int => "i",
        Type::Uint => "u",
        Type::Fixed => "f",
        Type::String => "s",
        Type::Object => "o",
        Type::NewId => "n",
        Type::Array => "a",
        Type::Fd => "h",
    }
}

fn append_groups(out: &mut String, handlers: &VecDeque<HandlerEntry>)
    ensures
        final(out)@ == old(out)@ + groups_text(handlers@),
{
    let n: usize = handlers.len();
    let ghost start = out@;
    assert(handlers@.take(0) =~= Seq::<HandlerEntry>::empty());
    assert(start + groups_text(handlers@.take(0)) =~= start);
    for i in 0..n
        invariant
            n == handlers@.len(),
            out@ == start + groups_text(handlers@.take(i as int)),
    {
        assert(handlers@.take(i + 1).drop_last() =~= handlers@.take(i as int));
        if i > 0 {
            out.append(", ");
        }
        out.append(handlers[i].group_name.as_str());
        assert(out@ =~= start + groups_text(handlers@.take(i + 1)));
    }
    assert(handlers@.take(n as int) =~= handlers@);
}

fn append_types(out: &mut String, args: &Vec<Arg>)
    ensures
        final(out)@ == old(out)@ + types_text(args@),
{
    let n: usize = args.len();
    let ghost start = out@;
    assert(args@.take(0) =~= Seq::<Arg>::empty());
    assert(start + types_text(args@.take(0)) =~= start);
    for i in 0..n
        invariant
            n == args@.len(),
            out@ == start + types_text(args@.take(i as int)),
    {
        assert(args@.take(i + 1).drop_last() =~= args@.take(i as int));
        out.append(type_letter(args[i].typ));
        assert(out@ =~= start + types_text(args@.take(i + 1)));
    }
    assert(args@.take(n as int) =~= args@);
}

impl Message {
    /// Adds the line for the message to a text.
    pub fn dump(&self, protocols: &Vec<Protocol>, out: &mut String)
        requires
            message_linked(protocols@, *self),
        ensures
            final(out)@ == old(out)@ + message_text(protocols@, *self),
    {
        let mut line: String = if self.is_request {
            "   request ".to_owned()
        } else {
            "     event ".to_owned()
        };
        line.append(self.name.as_str());
        line.append("[o:");
        line.append(to_decimal(self.opcode as u64).as_str());
        line.append(",s:");
        line.append(to_decimal(self.since as u64).as_str());
        line.append("](");
        append_types(&mut line, &self.args);
        line.append(")");
        match self.new_id_interface {
            Some(id) => {
                let ghost before = line@;
                line.append("<n:");
                line.append(interface_at(protocols, id).name.as_str());
                line.append(">");
                assert(line@ =~= before + ("<n:"@ + at(protocols@, id).name@ + ">"@));
            },
            None => {
                assert(line@ + Seq::<char>::empty() =~= line@);
            },
        }
        match &self.handlers.0 {
            Some(handlers) => {
                let ghost before = line@;
                line.append("h:[");
                append_groups(&mut line, handlers);
                line.append("]");
                assert(line@ =~= before + ("h:["@ + groups_text(handlers@) + "]"@));
            },
            None => {
                assert(line@ + Seq::<char>::empty() =~= line@);
            },
        }
        line.append("\n");
        out.append(line.as_str());
    }

    /// The message in words.
    pub fn describe(&self, protocols: &Vec<Protocol>) -> (r: String)
        requires
            message_linked(protocols@, *self),
            self.owner matches Some(id) ==> interface_linked(protocols@, at(protocols@, id)),
        ensures
            r@ == "message "@ + self.name@ + " in "@ + (match self.owner {
                Some(id) => at(protocols@, id).description(protocols@),
                None => "<unknown interface>"@,
            }),
    {
        let mut s: String = "message ".to_owned();
        s.append(self.name.as_str());
        s.append(" in ");
        match self.owner {
            Some(id) => {
                let text = interface_at(protocols, id).describe(protocols);
                s.append(text.as_str());
            },
            None => {
                s.append("<unknown interface>");
            },
        }
        s
    }
}

fn append_messages(out: &mut String, protocols: &Vec<Protocol>, messages: &Vec<Message>)
    requires
        forall|k: int|
            0 <= k < messages@.len() ==> message_linked(protocols@, #[trigger] messages@[k]),
    ensures
        final(out)@ == old(out)@ + messages_text(protocols@, messages@),
{
    let n: usize = messages.len();
    let ghost start = out@;
    let mut i: usize = 0;
    assert(messages@.skip(0) =~= messages@);
    while i < n && messages[i].is_active()
        invariant
            i <= n,
            n == messages@.len(),
            forall|k: int|
                0 <= k < messages@.len() ==> message_linked(protocols@, #[trigger] messages@[k]),
            out@ + messages_text(protocols@, messages@.skip(i as int)) == start + messages_text(
                protocols@,
                messages@,
            ),
        decreases n - i,
    {
        let ghost rest = messages@.skip(i as int);
        let ghost before = out@;
        assert(rest.skip(1) =~= messages@.skip(i + 1));
        assert(rest[0] == messages@[i as int]);
        messages[i].dump(protocols, out);
        assert(out@ + messages_text(protocols@, messages@.skip(i + 1)) =~= before + messages_text(
            protocols@,
            rest,
        ));
        i = i + 1;
    }
    let ghost rest = messages@.skip(i as int);
    assert(rest.len() > 0 ==> rest[0] == messages@[i as int]);
    assert(out@ + Seq::<char>::empty() =~= out@);
}

impl Interface {
    /// The interface in words.
    pub open spec fn description(self, protocols: Seq<Protocol>) -> Seq<char> {
        "interface "@ + self.name@ + " in "@ + (match self.place {
            Some(id) => "protocol "@ + protocols[id.protocol as int].name@,
            None => "<unknown protocol>"@,
        })
    }

    /// The interface in words.
    pub fn describe(&self, protocols: &Vec<Protocol>) -> (r: String)
        requires
            self.place matches Some(id) ==> id.protocol < protocols@.len(),
        ensures
            r@ == self.description(protocols@),
    {
        let mut s: String = "interface ".to_owned();
        s.append(self.name.as_str());
        s.append(" in ");
        match self.place {
            Some(id) => {
                let text = protocols[id.protocol].describe();
                s.append(text.as_str());
            },
            None => {
                s.append("<unknown protocol>");
            },
        }
        s
    }

    /// Adds the lines for the interface to a text.
    pub fn dump(&self, protocols: &Vec<Protocol>, out: &mut String)
        requires
            interface_linked(protocols@, *self),
            self.place is Some,
            self.limited_version is Some,
        ensures
            final(out)@ == old(out)@ + interface_text(protocols@, *self),
    {
        let owner: &Protocol = self.owning_protocol(protocols);
        let parent: &str = match self.parent {
            Some(p) => owner.interfaces[p].name.as_str(),
            None => "<global>",
        };
        let mut text: String = String::new();
        text.append(self.name.as_str());
        assert(text@ =~= self.name@);
        text.append("[v:");
        text.append(to_decimal(*self.version().unwrap() as u64).as_str());
        text.append("](^:");
        text.append(parent);
        text.append(")[in:");
        text.append(owner.name.as_str());
        text.append("]\n");
        text.append(" requests:\n");
        append_messages(&mut text, protocols, &self.requests);
        text.append(" events:\n");
        append_messages(&mut text, protocols, &self.events);
        text.append("\n");
        out.append(text.as_str());
    }
}

/// The lines for the first `n` of all active interfaces.
pub open spec fn actives_text(a: ActiveInterfacesA, n: nat) -> Seq<char>
    decreases n,
{
    if n == 0 {
        Seq::empty()
    } else {
        actives_text(a, (n - 1) as nat) + interface_text(a.protocols@, a.get(a.map@[n - 1]))
    }
}

impl ActiveInterfacesA {
    /// Whether what the active interfaces point to is there.
    pub open spec fn linked(self) -> bool {
        forall|i: int|
            0 <= i < self.map@.len() ==> interface_linked(
                self.protocols@,
                self.get(#[trigger] self.map@[i]),
            )
    }

    /// A listing of all active interfaces.
    pub fn dump(&self) -> (r: String)
        requires
            self.wf(),
            self.linked(),
        ensures
            r@ == actives_text(*self, self.map@.len()),
    {
        let mut out: String = String::new();
        let n: usize = self.map.len();
        assert(out@ =~= Seq::<char>::empty());
        for i in 0..n
            invariant
                n == self.map@.len(),
                self.wf(),
                self.linked(),
                out@ == actives_text(*self, i as nat),
        {
            assert(self.place_ok(self.map@[i as int]));
            self.interface(self.map[i]).dump(&self.protocols, &mut out);
        }
        out
    }
}

/// The types of arguments are listed by a letter each, in order.
pub proof fn law_types_are_listed(first: Seq<Arg>, rest: Seq<Arg>)
    ensures
        types_text(first + rest) == types_text(first) + types_text(rest),
        types_text(rest).len() == rest.len(),
        forall|i: int|
            0 <= i < rest.len() ==> #[trigger] types_text(rest)[i] == match rest[i].typ {
                Type::Int => 'i',
                Type::Uint => 'u',
                Type::Fixed => 'f',
                Type::String => 's',
                Type::Object => 'o',
                Type::NewId => 'n',
                Type::Array => 'a',
                Type::Fd => 'h',
            },
    decreases rest.len(),
{
    reveal_strlit("i");
    reveal_strlit("u");
    reveal_strlit("f");
    reveal_strlit("s");
    reveal_strlit("o");
    reveal_strlit("n");
    reveal_strlit("a");
    reveal_strlit("h");
    if rest.len() == 0 {
        assert(first + rest =~= first);
        assert(types_text(first) + types_text(rest) =~= types_text(first));
    } else {
        law_types_are_listed(first, rest.drop_last());
        assert((first + rest).drop_last() =~= first + rest.drop_last());
        assert(types_text(first + rest) =~= types_text(first) + types_text(rest));
        let before = types_text(rest.drop_last());
        let last = rest.last();
        assert(type_text(last.typ).len() == 1);
        assert(rest.last() == rest[rest.len() - 1]);
        assert forall|i: int| 0 <= i < rest.len() - 1 implies types_text(rest)[i] == before[i]
            && rest.drop_last()[i] == rest[i] by {}
    }
}

/// The messages at the start of a list that are active are listed, each on a line of its own, in
/// order, and nothing is listed from the first one on that is not.
pub proof fn law_active_messages_are_listed(
    protocols: Seq<Protocol>,
    first: Seq<Message>,
    rest: Seq<Message>,
    m: Message,
)
    requires
        forall|i: int| 0 <= i < first.len() ==> (#[trigger] first[i]).active,
    ensures
        messages_text(protocols, first + rest) == messages_text(protocols, first) + messages_text(
            protocols,
            rest,
        ),
        m.active ==> messages_text(protocols, seq![m]) == message_text(protocols, m),
        rest.len() > 0 && !rest[0].active ==> messages_text(protocols, rest).len() == 0,
    decreases first.len(),
{
    reveal_with_fuel(messages_text, 2);
    assert(seq![m].skip(1) =~= Seq::<Message>::empty());
    assert(m.active ==> messages_text(protocols, seq![m]) =~= message_text(protocols, m));
    if first.len() == 0 {
        assert(first + rest =~= rest);
        assert(messages_text(protocols, first) + messages_text(protocols, rest) =~= messages_text(
            protocols,
            rest,
        ));
    } else {
        let later = first.skip(1);
        assert forall|i: int| 0 <= i < later.len() implies (#[trigger] later[i]).active by {
            assert(later[i] == first[i + 1]);
        }
        law_active_messages_are_listed(protocols, later, rest, m);
        assert((first + rest).skip(1) =~= later + rest);
        assert((first + rest)[0] == first[0]);
        assert(first[0].active);
        assert(messages_text(protocols, first + rest) =~= messages_text(protocols, first)
            + messages_text(protocols, rest));
    }
}

/// The groups whose handlers see a message are listed in the order in which they see it, with a comma
/// and a space between them.
pub proof fn law_groups_are_listed(handlers: Seq<HandlerEntry>, entry: HandlerEntry)
    ensures
        groups_text(seq![entry]) == entry.group_name@,
        handlers.len() > 0 ==> groups_text(handlers.push(entry)) == groups_text(handlers) + seq![
            ',',
            ' ',
        ] + entry.group_name@,
{
    reveal_strlit(", ");
    assert(", "@ =~= seq![',', ' ']);
    assert(handlers.push(entry).drop_last() =~= handlers);
}

} // verus!
