//! What is worked out over all protocols once they have been read: who creates whom, which
//! interfaces and messages the version limits let through, and what new objects are.

use crate::protocol::{
    find_name, interface_names, lemma_name_index, messages_view, name_index, ArgV, InterfaceId,
    InterfaceV, Message, MessageV, Protocol, ProtocolV, SpecialMessage, Type,
};
use crate::text::{
    char_views, fields, from_chars, parse_u32, split_fields, str_eq, str_views, to_chars, u32_text,
};
use vstd::prelude::*;

verus! {

/// What is wrong with a line of the version limits.
#[derive(Debug, PartialEq, Eq, Clone, Copy, Structural)]
pub enum LimitError {
    /// There is no version behind the name.
    MissingVersion,
    /// There is more than a name and a version.
    ExtraFields,
    /// The version is no number.
    BadVersion,
    /// The interface has a limit already.
    Duplicate,
    /// More than one protocol has a global with this name.
    Ambiguous,
    /// The interface is no global one.
    NotGlobal,
    /// There is no such interface.
    NotFound,
}

/// What is wrong with the protocols or with the version limits.
#[derive(Debug, PartialEq, Eq, Clone, Copy, Structural)]
pub enum PostparseError {
    /// The base protocol is there more than once.
    BaseSeenTwice,
    /// The base protocol is not there.
    MissingBase,
    /// An interface of the base protocol is not there.
    MissingInterface,
    /// A message of the base protocol is not there.
    MissingMessage,
    /// A message of the base protocol is not where it should be.
    UnexpectedMessage,
    /// A message has more than one new object, or one whose interface is not given.
    BadNewId,
    /// More than one other interface of a protocol creates objects of an interface.
    TwoParents,
    /// A line of the version limits, counted from one, is wrong.
    Limit { line: usize, error: LimitError },
    /// An interface is its own ancestor.
    ParentCycle,
    /// Two active interfaces have the same name.
    NameConflict,
    /// An interface that is not global has a limit already.
    LimitClash,
    /// An active message creates an object of an interface that is not active.
    MissingExternal,
}

/// What a line of the version limits says: nothing, where it is blank or a comment, or a name and a
/// limit. A limit of zero is none.
pub open spec fn limit_line(line: Seq<char>) -> Result<Option<(Seq<char>, u32)>, LimitError> {
    let f = fields(line);
    if f.len() == 0 || f[0][0] == '#' {
        Ok(None)
    } else if f.len() == 1 {
        Err(LimitError::MissingVersion)
    } else if f.len() > 2 {
        Err(LimitError::ExtraFields)
    } else {
        match u32_text(f[1]) {
            None => Err(LimitError::BadVersion),
            Some(v) => Ok(
                Some(
                    (
                        f[0],
                        if v > 0 {
                            v
                        } else {
                            u32::MAX
                        },
                    ),
                ),
            ),
        }
    }
}

proof fn lemma_first_field(s: Seq<char>)
    ensures
        fields(s).len() > 0 ==> fields(s)[0].len() > 0,
    decreases s.len(),
{
    if s.len() > 0 && crate::text::is_white_space(s[0]) {
        lemma_first_field(s.skip(1));
    }
}

/// Reads a line of the version limits.
pub fn parse_limit_line(line: &str) -> (r: Result<Option<(String, u32)>, LimitError>)
    ensures
        match (r, limit_line(line@)) {
            (Ok(Some((name, limit))), Ok(Some((n, l)))) => name@ == n && limit == l,
            (Ok(None), Ok(None)) => true,
            (Err(e), Err(f)) => e == f,
            _ => false,
        },
{
    let chars: Vec<char> = to_chars(line);
    let found: Vec<Vec<char>> = split_fields(chars.as_slice());
    let ghost f = fields(line@);
    assert(f == char_views(found@));
    proof {
        lemma_first_field(line@);
    }
    if found.len() == 0 {
        return Ok(None);
    }
    assert(f[0] == found@[0]@);
    if found[0][0] == '#' {
        return Ok(None);
    }
    if found.len() == 1 {
        return Err(LimitError::MissingVersion);
    }
    if found.len() > 2 {
        return Err(LimitError::ExtraFields);
    }
    assert(f[1] == found@[1]@);
    match parse_u32(found[1].as_slice()) {
        None => Err(LimitError::BadVersion),
        Some(v) => {
            let limit: u32 = if v > 0 {
                v
            } else {
                u32::MAX
            };
            Ok(Some((from_chars(found[0].as_slice()), limit)))
        },
    }
}

/// The index of the interface with a name.
pub open spec fn index_in(p: ProtocolV, name: Seq<char>) -> Option<int> {
    name_index(interface_names(p.interfaces), name)
}

/// The protocol in which one message is marked as special.
pub open spec fn marked(
    p: ProtocolV,
    i: int,
    is_request: bool,
    k: int,
    special: SpecialMessage,
) -> ProtocolV {
    let old_i = p.interfaces[i];
    let new_i = if is_request {
        InterfaceV {
            requests: old_i.requests.update(
                k,
                MessageV { special: Some(special), ..old_i.requests[k] },
            ),
            ..old_i
        }
    } else {
        InterfaceV {
            events: old_i.events.update(
                k,
                MessageV { special: Some(special), ..old_i.events[k] },
            ),
            ..old_i
        }
    };
    ProtocolV { interfaces: p.interfaces.update(i, new_i), ..p }
}

/// Where the message with a given place and name stands, if it stands there.
pub open spec fn expected(
    p: ProtocolV,
    interface: Seq<char>,
    is_request: bool,
    k: int,
    name: Seq<char>,
) -> Result<int, PostparseError> {
    match index_in(p, interface) {
        None => Err(PostparseError::MissingInterface),
        Some(i) => {
            let messages = if is_request {
                p.interfaces[i].requests
            } else {
                p.interfaces[i].events
            };
            if k >= messages.len() {
                Err(PostparseError::MissingMessage)
            } else if messages[k].name != name {
                Err(PostparseError::UnexpectedMessage)
            } else {
                Ok(i)
            }
        },
    }
}

/// The base protocol with its special messages marked, the display limited to version one, and the
/// callback made a child of the display; and the index of the display.
pub open spec fn fixed_up(p: ProtocolV) -> Result<(ProtocolV, int), PostparseError> {
    match (
        expected(p, "wl_registry"@, true, 0, "bind"@),
        expected(p, "wl_registry"@, false, 0, "global"@),
        expected(p, "wl_display"@, true, 0, "sync"@),
        expected(p, "wl_display"@, false, 1, "delete_id"@),
        index_in(p, "wl_callback"@),
    ) {
        (Err(e), _, _, _, _) => Err(e),
        (_, Err(e), _, _, _) => Err(e),
        (_, _, Err(e), _, _) => Err(e),
        (_, _, _, Err(e), _) => Err(e),
        (_, _, _, _, None) => Err(PostparseError::MissingInterface),
        (Ok(registry), _, Ok(display), _, Some(callback)) => {
            let p = marked(p, registry, true, 0, SpecialMessage::WlRegistryBind);
            let p = marked(p, registry, false, 0, SpecialMessage::WlRegistryGlobal);
            let p = marked(p, display, true, 0, SpecialMessage::WlDisplaySync);
            let p = marked(p, display, false, 1, SpecialMessage::WlDisplayDeleteId);
            let p = ProtocolV {
                interfaces: p.interfaces.update(
                    display,
                    InterfaceV { limited_version: Some(1), ..p.interfaces[display] },
                ),
                ..p
            };
            let p = ProtocolV {
                interfaces: p.interfaces.update(
                    callback,
                    InterfaceV { parent: Some(display as usize), ..p.interfaces[callback] },
                ),
                ..p
            };
            Ok((p, display))
        },
    }
}

/// Whether a message is not marked as a special one, if it is there.
pub open spec fn unmarked(messages: Seq<MessageV>, k: int) -> bool {
    k < messages.len() ==> messages[k].special is None
}

/// Whether nothing is set yet of what is set when the base protocol is prepared: the marks of its
/// special messages, the limit of the display, and the parent of the callback.
pub open spec fn unprepared(p: ProtocolV) -> bool {
    &&& index_in(p, "wl_registry"@) matches Some(i) ==> {
        &&& unmarked(p.interfaces[i].requests, 0)
        &&& unmarked(p.interfaces[i].events, 0)
    }
    &&& index_in(p, "wl_display"@) matches Some(i) ==> {
        &&& unmarked(p.interfaces[i].requests, 0)
        &&& unmarked(p.interfaces[i].events, 1)
        &&& p.interfaces[i].limited_version is None
    }
    &&& index_in(p, "wl_callback"@) matches Some(i) ==> p.interfaces[i].parent is None
}

fn expect_message(
    protocol: &Protocol,
    interface: &str,
    is_request: bool,
    k: usize,
    name: &str,
) -> (r: Result<usize, PostparseError>)
    ensures
        match (r, expected(protocol@, interface@, is_request, k as int, name@)) {
            (Ok(i), Ok(j)) => i == j && i < protocol@.interfaces.len() && k < (if is_request {
                protocol@.interfaces[j].requests.len()
            } else {
                protocol@.interfaces[j].events.len()
            }),
            (Err(e), Err(f)) => e == f,
            _ => false,
        },
{
    match protocol.find_index(interface) {
        None => Err(PostparseError::MissingInterface),
        Some(i) => {
            let messages: &Vec<Message> = if is_request {
                &protocol.interfaces[i].requests
            } else {
                &protocol.interfaces[i].events
            };
            if k >= messages.len() {
                Err(PostparseError::MissingMessage)
            } else if !str_eq(messages[k].name.as_str(), name) {
                Err(PostparseError::UnexpectedMessage)
            } else {
                Ok(i)
            }
        },
    }
}

fn mark(protocol: &mut Protocol, i: usize, is_request: bool, k: usize, special: SpecialMessage)
    requires
        i < old(protocol)@.interfaces.len(),
        k < (if is_request {
            old(protocol)@.interfaces[i as int].requests.len()
        } else {
            old(protocol)@.interfaces[i as int].events.len()
        }),
    ensures
        final(protocol)@ == marked(old(protocol)@, i as int, is_request, k as int, special),
        final(protocol)@.interfaces.len() == old(protocol)@.interfaces.len(),
{
    let ghost before = protocol@;
    if is_request {
        let ghost messages = protocol.interfaces@[i as int].requests@;
        protocol.interfaces[i].requests[k].special = Some(special);
        assert(protocol@.interfaces[i as int].requests =~= before.interfaces[i as int].requests.update(
            k as int,
            MessageV { special: Some(special), ..before.interfaces[i as int].requests[k as int] },
        ));
    } else {
        protocol.interfaces[i].events[k].special = Some(special);
        assert(protocol@.interfaces[i as int].events =~= before.interfaces[i as int].events.update(
            k as int,
            MessageV { special: Some(special), ..before.interfaces[i as int].events[k as int] },
        ));
    }
    assert(protocol@.interfaces =~= marked(
        before,
        i as int,
        is_request,
        k as int,
        special,
    ).interfaces);
}

/// Marks the special messages of the base protocol, limits the display to the only version that it
/// has, and makes the callback a child of the display, so that it does not become the child of
/// another of the interfaces that create callbacks. Gives the index of the display. This is done
/// once, before anything else.
pub fn fixup_wayland_get_display(protocol: &mut Protocol) -> (r: Result<usize, PostparseError>)
    requires
        old(protocol)@.name == "wayland"@,
        unprepared(old(protocol)@),
    ensures
        match (r, fixed_up(old(protocol)@)) {
            (Ok(display), Ok((p, d))) => display == d && final(protocol)@ == p && display
                < p.interfaces.len(),
            (Err(e), Err(f)) => e == f && final(protocol)@ == old(protocol)@,
            _ => false,
        },
{
    let registry: usize = match expect_message(protocol, "wl_registry", true, 0, "bind") {
        Err(e) => {
            return Err(e);
        },
        Ok(i) => i,
    };
    match expect_message(protocol, "wl_registry", false, 0, "global") {
        Err(e) => {
            return Err(e);
        },
        Ok(_) => {},
    }
    let display: usize = match expect_message(protocol, "wl_display", true, 0, "sync") {
        Err(e) => {
            return Err(e);
        },
        Ok(i) => i,
    };
    match expect_message(protocol, "wl_display", false, 1, "delete_id") {
        Err(e) => {
            return Err(e);
        },
        Ok(_) => {},
    }
    let callback: usize = match protocol.find_index("wl_callback") {
        None => {
            return Err(PostparseError::MissingInterface);
        },
        Some(i) => i,
    };
    mark(protocol, registry, true, 0, SpecialMessage::WlRegistryBind);
    mark(protocol, registry, false, 0, SpecialMessage::WlRegistryGlobal);
    mark(protocol, display, true, 0, SpecialMessage::WlDisplaySync);
    mark(protocol, display, false, 1, SpecialMessage::WlDisplayDeleteId);
    let ghost before = protocol@;
    protocol.interfaces[display].limited_version = Some(1);
    assert(protocol@.interfaces =~= before.interfaces.update(
        display as int,
        InterfaceV { limited_version: Some(1), ..before.interfaces[display as int] },
    ));
    let ghost before = protocol@;
    protocol.interfaces[callback].parent = Some(display);
    assert(protocol@.interfaces =~= before.interfaces.update(
        callback as int,
        InterfaceV { parent: Some(display), ..before.interfaces[callback as int] },
    ));
    Ok(display)
}

/// The arguments that are new objects.
pub open spec fn new_ids(args: Seq<ArgV>) -> Seq<ArgV>
    decreases args.len(),
{
    if args.len() == 0 {
        Seq::empty()
    } else if args.last().typ is NewId {
        new_ids(args.drop_last()).push(args.last())
    } else {
        new_ids(args.drop_last())
    }
}

/// The name of the interface of the object that a message creates, if it creates one with a given
/// interface. `None` where the message has more than one new object, or one whose interface is not
/// given; only the bind request may leave it open.
pub open spec fn target(m: MessageV) -> Option<Option<Seq<char>>> {
    let ids = new_ids(m.args);
    if ids.len() == 0 {
        Some(None)
    } else if ids.len() > 1 {
        None
    } else {
        match ids[0].interface_name {
            Some(name) => Some(Some(name)),
            None => if m.special == Some(SpecialMessage::WlRegistryBind) && ids[0].name == "id"@ {
                Some(None)
            } else {
                None
            },
        }
    }
}

impl Message {
    /// The name of the interface of the object that the message creates.
    pub fn new_id_interface_name(&self) -> (r: Result<Option<&String>, PostparseError>)
        ensures
            match (r, target(self@)) {
                (Ok(Some(name)), Some(Some(n))) => name@ == n,
                (Ok(None), Some(None)) => true,
                (Err(e), None) => e == PostparseError::BadNewId,
                _ => false,
            },
    {
        let ghost all = self@.args;
        let n: usize = self.args.len();
        let mut found: Option<usize> = None;
        let mut count: usize = 0;
        assert(all.take(0) =~= Seq::<ArgV>::empty());
        for i in 0..n
            invariant
                n == self.args@.len(),
                all == self@.args,
                count == new_ids(all.take(i as int)).len(),
                count <= i,
                count > 0 ==> found is Some,
                found matches Some(k) ==> count > 0 && k < n && self.args@[k as int]@ == new_ids(
                    all.take(i as int),
                )[0],
        {
            assert(all.take(i + 1).drop_last() =~= all.take(i as int));
            assert(all.take(i + 1).last() == self.args@[i as int]@);
            if let Type::NewId = self.args[i].typ {
                if count == 0 {
                    found = Some(i);
                }
                count = count + 1;
            }
        }
        assert(all.take(n as int) =~= all);
        if count > 1 {
            return Err(PostparseError::BadNewId);
        }
        match found {
            None => Ok(None),
            Some(k) => match &self.args[k].interface_name {
                Some(name) => Ok(Some(name)),
                None => if self.is_wl_registry_bind() && str_eq(self.args[k].name.as_str(), "id") {
                    Ok(None)
                } else {
                    Err(PostparseError::BadNewId)
                },
            },
        }
    }
}

/// Whether every message has at most one new object, with a given interface.
pub open spec fn targets_ok(messages: Seq<MessageV>) -> bool {
    forall|k: int| 0 <= k < messages.len() ==> target(#[trigger] messages[k]) is Some
}

/// Whether every message of a protocol has at most one new object, with a given interface.
pub open spec fn protocol_targets_ok(p: ProtocolV) -> bool {
    forall|i: int|
        0 <= i < p.interfaces.len() ==> targets_ok((#[trigger] p.interfaces[i]).requests)
            && targets_ok(p.interfaces[i].events)
}

/// Whether one of some messages creates an object of the interface with a name.
pub open spec fn creates(messages: Seq<MessageV>, name: Seq<char>) -> bool {
    exists|k: int| 0 <= k < messages.len() && target(#[trigger] messages[k]) == Some(Some(name))
}

/// Whether one of the messages of an interface creates an object of the interface with a name.
pub open spec fn creates_any(i: InterfaceV, name: Seq<char>) -> bool {
    creates(i.requests, name) || creates(i.events, name)
}

/// Whether the interface at `a` is another one than that at `k`, and creates objects of it.
pub open spec fn makes(p: ProtocolV, a: int, k: int) -> bool {
    a != k && creates_any(p.interfaces[a], p.interfaces[k].name)
}

/// The first of the first `n` interfaces of a protocol that is another one than that at `k`, and
/// creates objects of it.
pub open spec fn first_maker(p: ProtocolV, k: int, n: nat) -> Option<int>
    decreases n,
{
    if n == 0 {
        None
    } else {
        match first_maker(p, k, (n - 1) as nat) {
            Some(j) => Some(j),
            None => if makes(p, n - 1, k) {
                Some(n - 1)
            } else {
                None
            },
        }
    }
}

pub proof fn lemma_first_maker(p: ProtocolV, k: int, n: nat)
    ensures
        match first_maker(p, k, n) {
            Some(j) => 0 <= j < n && makes(p, j, k),
            None => forall|a: int| 0 <= a < n ==> !#[trigger] makes(p, a, k),
        },
    decreases n,
{
    if n > 0 {
        lemma_first_maker(p, k, (n - 1) as nat);
    }
}

/// Whether only one interface can be the parent of that at `k`: all other interfaces that create
/// objects of it, and the parent that it was given before, are the same.
pub open spec fn one_parent(p: ProtocolV, k: int) -> bool {
    &&& forall|a: int, b: int|
        0 <= a < p.interfaces.len() && 0 <= b < p.interfaces.len() && #[trigger] makes(p, a, k)
            && #[trigger] makes(p, b, k) ==> a == b
    &&& forall|a: int|
        0 <= a < p.interfaces.len() && #[trigger] makes(p, a, k) ==> match p.interfaces[k].parent {
            Some(given) => given == a,
            None => true,
        }
}

/// Whether every interface of a protocol but `wl_callback` has one parent at most.
pub open spec fn parents_agree(p: ProtocolV) -> bool {
    forall|k: int|
        0 <= k < p.interfaces.len() && (#[trigger] p.interfaces[k]).name != "wl_callback"@
            ==> one_parent(p, k)
}

/// A message that knows its interface, and the interface of the object that it creates where this
/// is in the same protocol.
pub open spec fn owned_message(
    names: Seq<Seq<char>>,
    place: InterfaceId,
    m: MessageV,
) -> MessageV {
    MessageV {
        owner: Some(place),
        new_id_interface: match target(m) {
            Some(Some(name)) => match name_index(names, name) {
                Some(k) => Some(InterfaceId { protocol: place.protocol, index: k as usize }),
                None => m.new_id_interface,
            },
            _ => m.new_id_interface,
        },
        ..m
    }
}

/// Messages that know their interface.
pub open spec fn owned_messages(
    names: Seq<Seq<char>>,
    place: InterfaceId,
    messages: Seq<MessageV>,
) -> Seq<MessageV> {
    Seq::new(messages.len(), |k: int| owned_message(names, place, messages[k]))
}

/// An interface that knows its place and its parent: the first other interface of its protocol that
/// creates objects of it, if there is one and no parent was given before.
pub open spec fn owned_interface(p: ProtocolV, protocol: usize, k: int) -> InterfaceV {
    let i = p.interfaces[k];
    let names = interface_names(p.interfaces);
    let place = InterfaceId { protocol, index: k as usize };
    InterfaceV {
        requests: owned_messages(names, place, i.requests),
        events: owned_messages(names, place, i.events),
        place: Some(place),
        parent: match i.parent {
            Some(parent) => Some(parent),
            None => match first_maker(p, k, p.interfaces.len()) {
                Some(j) => Some(j as usize),
                None => None,
            },
        },
        ..i
    }
}

/// A protocol whose interfaces know their places and their parents.
pub open spec fn owned_protocol(p: ProtocolV, protocol: usize) -> ProtocolV {
    ProtocolV {
        interfaces: Seq::new(p.interfaces.len(), |k: int| owned_interface(p, protocol, k)),
        ..p
    }
}

/// Whether messages do not know their interface yet, nor the interface of the object that they
/// create, where this is one of those with some names.
pub open spec fn messages_unowned(names: Seq<Seq<char>>, messages: Seq<MessageV>) -> bool {
    forall|k: int|
        0 <= k < messages.len() ==> {
            let m = #[trigger] messages[k];
            &&& m.owner is None
            &&& match target(m) {
                Some(Some(name)) => name_index(names, name) is Some ==> m.new_id_interface is None,
                _ => true,
            }
        }
}

/// Whether no interface of a protocol knows its place yet, and no message its interface or, where
/// this is in the same protocol, the interface of the object that it creates.
pub open spec fn unowned(p: ProtocolV) -> bool {
    forall|k: int|
        0 <= k < p.interfaces.len() ==> {
            let i = #[trigger] p.interfaces[k];
            &&& i.place is None
            &&& messages_unowned(interface_names(p.interfaces), i.requests)
            &&& messages_unowned(interface_names(p.interfaces), i.events)
        }
}

fn check_targets(messages: &Vec<Message>) -> (r: bool)
    ensures
        r == targets_ok(messages_view(messages@)),
{
    let ghost all = messages_view(messages@);
    let n: usize = messages.len();
    for k in 0..n
        invariant
            n == messages@.len(),
            all == messages_view(messages@),
            forall|j: int| 0 <= j < k ==> target(#[trigger] all[j]) is Some,
    {
        assert(all[k as int] == messages@[k as int]@);
        match messages[k].new_id_interface_name() {
            Ok(_) => {},
            Err(_) => {
                return false;
            },
        }
    }
    true
}

pub(crate) fn check_protocol_targets(protocol: &Protocol) -> (r: bool)
    ensures
        r == protocol_targets_ok(protocol@),
{
    let ghost p = protocol@;
    let n: usize = protocol.interfaces.len();
    for i in 0..n
        invariant
            n == protocol.interfaces@.len(),
            p == protocol@,
            forall|j: int|
                0 <= j < i ==> targets_ok((#[trigger] p.interfaces[j]).requests) && targets_ok(
                    p.interfaces[j].events,
                ),
    {
        assert(p.interfaces[i as int] == protocol.interfaces@[i as int]@);
        if !check_targets(&protocol.interfaces[i].requests) {
            return false;
        }
        if !check_targets(&protocol.interfaces[i].events) {
            return false;
        }
    }
    true
}

fn does_create(messages: &Vec<Message>, name: &str) -> (r: bool)
    ensures
        r == creates(messages_view(messages@), name@),
{
    let ghost all = messages_view(messages@);
    let n: usize = messages.len();
    for k in 0..n
        invariant
            n == messages@.len(),
            all == messages_view(messages@),
            forall|j: int| 0 <= j < k ==> target(#[trigger] all[j]) != Some(Some(name@)),
    {
        assert(all[k as int] == messages@[k as int]@);
        match messages[k].new_id_interface_name() {
            Ok(Some(found)) => {
                if str_eq(found.as_str(), name) {
                    return true;
                }
            },
            _ => {},
        }
    }
    false
}

fn does_make(protocol: &Protocol, a: usize, k: usize) -> (r: bool)
    requires
        a < protocol.interfaces@.len(),
        k < protocol.interfaces@.len(),
    ensures
        r == makes(protocol@, a as int, k as int),
{
    assert(protocol@.interfaces[a as int] == protocol.interfaces@[a as int]@);
    assert(protocol@.interfaces[k as int] == protocol.interfaces@[k as int]@);
    let name: &str = protocol.interfaces[k].name.as_str();
    a != k && (does_create(&protocol.interfaces[a].requests, name) || does_create(
        &protocol.interfaces[a].events,
        name,
    ))
}

fn find_maker(protocol: &Protocol, k: usize) -> (r: Option<usize>)
    requires
        k < protocol.interfaces@.len(),
    ensures
        match (r, first_maker(protocol@, k as int, protocol@.interfaces.len())) {
            (Some(i), Some(j)) => i == j && i < protocol@.interfaces.len(),
            (None, None) => true,
            _ => false,
        },
{
    let ghost p = protocol@;
    let n: usize = protocol.interfaces.len();
    let mut found: Option<usize> = None;
    for i in 0..n
        invariant
            n == protocol.interfaces@.len(),
            k < n,
            p == protocol@,
            match (found, first_maker(p, k as int, i as nat)) {
                (Some(a), Some(b)) => a == b && a < i,
                (None, None) => true,
                _ => false,
            },
    {
        if found.is_none() && does_make(protocol, i, k) {
            found = Some(i);
        }
    }
    found
}

fn has_one_parent(protocol: &Protocol, k: usize, parent: Option<usize>) -> (r: bool)
    requires
        k < protocol.interfaces@.len(),
        parent == owned_interface(protocol@, 0, k as int).parent,
    ensures
        r == one_parent(protocol@, k as int),
{
    let ghost p = protocol@;
    let n: usize = protocol.interfaces.len();
    for a in 0..n
        invariant
            n == protocol.interfaces@.len(),
            k < n,
            p == protocol@,
            parent == owned_interface(p, 0, k as int).parent,
            forall|b: int|
                0 <= b < a && #[trigger] makes(p, b, k as int) ==> parent == Some(b as usize),
    {
        if does_make(protocol, a, k) {
            let agrees: bool = match parent {
                Some(given) => given == a,
                None => false,
            };
            if !agrees {
                proof {
                    lemma_first_maker(p, k as int, n as nat);
                }
                return false;
            }
        }
    }
    true
}

fn own_messages(messages: &mut Vec<Message>, names: &Vec<String>, place: InterfaceId)
    requires
        targets_ok(messages_view(old(messages)@)),
    ensures
        messages_view(final(messages)@) == owned_messages(
            str_views(names@),
            place,
            messages_view(old(messages)@),
        ),
{
    let ghost all = messages_view(messages@);
    let ghost texts = str_views(names@);
    let n: usize = messages.len();
    let mut k: usize = 0;
    while k < n
        invariant
            k <= n,
            n == messages@.len(),
            n == all.len(),
            texts == str_views(names@),
            targets_ok(all),
            forall|j: int|
                0 <= j < k ==> (#[trigger] messages@[j])@ == owned_message(texts, place, all[j]),
            forall|j: int| k <= j < n ==> (#[trigger] messages@[j])@ == all[j],
        decreases n - k,
    {
        let ghost before = messages@;
        let ghost m = messages@[k as int]@;
        assert(m == all[k as int]);
        assert(target(all[k as int]) is Some);
        let link: Option<usize> = match messages[k].new_id_interface_name() {
            Ok(Some(name)) => find_name(names, name.as_str()),
            _ => None,
        };
        messages[k].owner = Some(place);
        match link {
            Some(index) => {
                messages[k].new_id_interface = Some(
                    InterfaceId { protocol: place.protocol, index },
                );
            },
            None => {},
        }
        assert(messages@[k as int]@ =~= owned_message(texts, place, m));
        k = k + 1;
    }
    assert(messages_view(messages@) =~= owned_messages(texts, place, all));
}

/// Tells each interface of a protocol its place and its parent, and each message its interface and,
/// where this is in the same protocol, the interface of the object that it creates.
///
/// The parent of an interface is the only other interface of the protocol that creates objects of
/// it. Only `wl_callback` may be created by several. This is done once.
pub fn set_owners(protocol: &mut Protocol, index: usize) -> (r: Result<(), PostparseError>)
    requires
        unowned(old(protocol)@),
    ensures
        match r {
            Ok(_) => {
                &&& protocol_targets_ok(old(protocol)@)
                &&& parents_agree(old(protocol)@)
                &&& final(protocol)@ == owned_protocol(old(protocol)@, index)
            },
            Err(e) => {
                &&& final(protocol)@ == old(protocol)@
                &&& if protocol_targets_ok(old(protocol)@) {
                    e == PostparseError::TwoParents && !parents_agree(old(protocol)@)
                } else {
                    e == PostparseError::BadNewId
                }
            },
        },
{
    if !check_protocol_targets(protocol) {
        return Err(PostparseError::BadNewId);
    }
    let ghost p = protocol@;
    let n: usize = protocol.interfaces.len();
    let mut names: Vec<String> = Vec::new();
    let mut parents: Vec<Option<usize>> = Vec::new();
    for k in 0..n
        invariant
            n == protocol.interfaces@.len(),
            p == protocol@,
            p == old(protocol)@,
            protocol_targets_ok(p),
            names@.len() == k,
            parents@.len() == k,
            forall|j: int| 0 <= j < k ==> (#[trigger] names@[j])@ == p.interfaces[j].name,
            forall|j: int|
                0 <= j < k ==> #[trigger] parents@[j] == owned_interface(p, index, j).parent,
            forall|j: int|
                0 <= j < k && (#[trigger] p.interfaces[j]).name != "wl_callback"@ ==> one_parent(
                    p,
                    j,
                ),
    {
        assert(p.interfaces[k as int] == protocol.interfaces@[k as int]@);
        let parent: Option<usize> = match protocol.interfaces[k].parent {
            Some(parent) => Some(parent),
            None => find_maker(protocol, k),
        };
        if !str_eq(protocol.interfaces[k].name.as_str(), "wl_callback") && !has_one_parent(
            protocol,
            k,
            parent,
        ) {
            return Err(PostparseError::TwoParents);
        }
        names.push(protocol.interfaces[k].name.clone());
        parents.push(parent);
    }
    let ghost texts = str_views(names@);
    assert(texts =~= interface_names(p.interfaces));
    let mut k: usize = 0;
    while k < n
        invariant
            k <= n,
            n == protocol.interfaces@.len(),
            n == p.interfaces.len(),
            n == parents@.len(),
            protocol_targets_ok(p),
            parents_agree(p),
            p == old(protocol)@,
            texts == str_views(names@),
            texts == interface_names(p.interfaces),
            protocol@.name == p.name,
            protocol@.active == p.active,
            forall|j: int|
                0 <= j < n ==> #[trigger] parents@[j] == owned_interface(p, index, j).parent,
            forall|j: int|
                0 <= j < k ==> (#[trigger] protocol.interfaces@[j])@ == owned_interface(p, index, j),
            forall|j: int|
                k <= j < n ==> (#[trigger] protocol.interfaces@[j])@ == p.interfaces[j],
        decreases n - k,
    {
        let ghost i = protocol.interfaces@[k as int]@;
        assert(i == p.interfaces[k as int]);
        assert(targets_ok(p.interfaces[k as int].requests));
        let place = InterfaceId { protocol: index, index: k };
        own_messages(&mut protocol.interfaces[k].requests, &names, place);
        own_messages(&mut protocol.interfaces[k].events, &names, place);
        protocol.interfaces[k].place = Some(place);
        protocol.interfaces[k].parent = parents[k];
        assert(protocol.interfaces@[k as int]@ =~= owned_interface(p, index, k as int));
        k = k + 1;
    }
    assert(protocol@.interfaces =~= owned_protocol(p, index).interfaces);
    Ok(())
}

/// Callbacks are children of the display, whichever other interfaces create them.
pub proof fn law_callbacks_belong_to_the_display(p: ProtocolV, protocol: usize)
    requires
        p.interfaces.len() <= usize::MAX,
        fixed_up(p) is Ok,
    ensures
        ({
            let (fixed, display) = fixed_up(p)->Ok_0;
            let callback = index_in(p, "wl_callback"@);
            let owned = owned_protocol(fixed, protocol);
            &&& callback is Some
            &&& index_in(p, "wl_display"@) == Some(display)
            &&& owned.interfaces[callback->0].name == "wl_callback"@
            &&& owned.interfaces[callback->0].parent == Some(display as usize)
        }),
{
    lemma_name_index(interface_names(p.interfaces), "wl_callback"@);
    lemma_name_index(interface_names(p.interfaces), "wl_display"@);
    lemma_name_index(interface_names(p.interfaces), "wl_registry"@);
}

/// The parent of an interface, where none was given before, is the only other interface of its
/// protocol that creates objects of it. Where no other interface does, there is no parent.
pub proof fn law_the_parent_is_the_only_creator(p: ProtocolV, protocol: usize, k: int)
    requires
        p.interfaces.len() <= usize::MAX,
        parents_agree(p),
        0 <= k < p.interfaces.len(),
        p.interfaces[k].name != "wl_callback"@,
        p.interfaces[k].parent is None,
    ensures
        ({
            let parent = owned_protocol(p, protocol).interfaces[k].parent;
            &&& forall|a: int|
                0 <= a < p.interfaces.len() ==> (#[trigger] makes(p, a, k) <==> parent == Some(
                    a as usize,
                ))
            &&& parent is None <==> (forall|a: int|
                0 <= a < p.interfaces.len() ==> !#[trigger] makes(p, a, k))
        }),
{
    lemma_first_maker(p, k, p.interfaces.len());
    assert(one_parent(p, k));
}

} // verus!
