//! Which handlers see which messages.

use crate::actives::ActiveInterfaces;
use crate::basics::NoDebug;
use crate::for_handlers::AddHandlerError;
use crate::limits::{has_conflict, name_at};
use crate::linkup::{
    interface_ok, is_place, lemma_actives_wf, lemma_named_by_view, lemma_pointers, limited_at,
    place_named, same_places, sound,
};
use crate::protocol::{
    find_message, lemma_name_index, lemma_name_index_is, message_index, message_names,
    messages_view, name_index, protocols_view, queue_view, HandlerEntry, HandlerEntryV, Interface,
    InterfaceId, InterfaceV, Message, MessageV, ProtocolV,
};
use crate::text::str_views;
use std::collections::VecDeque;
use vstd::prelude::*;

verus! {

/// A message with one more handler, before or behind those that it has.
pub open spec fn with_handler(m: MessageV, entry: HandlerEntryV, front: bool) -> MessageV {
    let queue = match m.handlers {
        Some(queue) => queue,
        None => Seq::empty(),
    };
    MessageV {
        handlers: Some(
            if front {
                seq![entry] + queue
            } else {
                queue.push(entry)
            },
        ),
        ..m
    }
}

/// Protocols in which one message has been replaced.
pub open spec fn with_message_at(
    ps: Seq<ProtocolV>,
    id: InterfaceId,
    is_request: bool,
    k: int,
    m: MessageV,
) -> Seq<ProtocolV> {
    let p = ps[id.protocol as int];
    let i = p.interfaces[id.index as int];
    let new_i = if is_request {
        InterfaceV { requests: i.requests.update(k, m), ..i }
    } else {
        InterfaceV { events: i.events.update(k, m), ..i }
    };
    ps.update(
        id.protocol as int,
        ProtocolV { interfaces: p.interfaces.update(id.index as int, new_i), ..p },
    )
}

/// The message at a place.
pub open spec fn message_at(ps: Seq<ProtocolV>, id: InterfaceId, is_request: bool, k: int) -> MessageV {
    let i = ps[id.protocol as int].interfaces[id.index as int];
    if is_request {
        i.requests[k]
    } else {
        i.events[k]
    }
}

/// All handlers: the messages that they are for, the handlers themselves, and the groups that they
/// were added for. New handlers are added for the last group.
pub struct AllHandlers<H> {
    pub active_interfaces: ActiveInterfaces,
    pub handlers: Vec<H>,
    pub groups: Vec<String>,
}

/// The contents of an [`AllHandlers`].
#[verifier::ext_equal]
pub struct AllHandlersV<H> {
    pub protocols: Seq<ProtocolV>,
    pub map: Seq<InterfaceId>,
    pub display: InterfaceId,
    pub handlers: Seq<H>,
    pub groups: Seq<Seq<char>>,
}

impl<H> View for AllHandlers<H> {
    type V = AllHandlersV<H>;

    open spec fn view(&self) -> AllHandlersV<H> {
        AllHandlersV {
            protocols: protocols_view(self.active_interfaces.protocols@),
            map: self.active_interfaces.map@,
            display: self.active_interfaces.display,
            handlers: self.handlers@,
            groups: str_views(self.groups@),
        }
    }
}

impl<H> AllHandlersV<H> {
    /// The entry that the next handler gets.
    pub open spec fn next_entry(self) -> HandlerEntryV {
        HandlerEntryV {
            handler: self.handlers.len() as usize,
            group: (self.groups.len() - 1) as usize,
            group_name: self.groups.last(),
        }
    }

    /// Where the active message with a name is, for which a handler can be added.
    pub open spec fn place(
        self,
        interface_name: Seq<char>,
        message_name: Seq<char>,
        is_request: bool,
    ) -> Result<(InterfaceId, int), AddHandlerError> {
        match place_named(self.protocols, self.map, interface_name) {
            None => Err(AddHandlerError::NoSuchInterface),
            Some(id) => {
                let i = self.protocols[id.protocol as int].interfaces[id.index as int];
                let messages = if is_request {
                    i.requests
                } else {
                    i.events
                };
                match message_index(messages, message_name) {
                    None => Err(
                        if is_request {
                            AddHandlerError::NoSuchRequest
                        } else {
                            AddHandlerError::NoSuchEvent
                        },
                    ),
                    Some(k) => if messages[k].active {
                        Ok((id, k))
                    } else {
                        Err(
                            if is_request {
                                AddHandlerError::InactiveRequest
                            } else {
                                AddHandlerError::InactiveEvent
                            },
                        )
                    },
                }
            },
        }
    }

    /// All handlers with one more, for the message with a name.
    pub open spec fn added(
        self,
        interface_name: Seq<char>,
        message_name: Seq<char>,
        is_request: bool,
        front: bool,
        handler: H,
    ) -> Result<AllHandlersV<H>, AddHandlerError> {
        match self.place(interface_name, message_name, is_request) {
            Err(e) => Err(e),
            Ok((id, k)) => Ok(self.pushed(id, is_request, k, front, handler)),
        }
    }

    /// All handlers with one more, for a message at a place.
    pub open spec fn pushed(
        self,
        id: InterfaceId,
        is_request: bool,
        k: int,
        front: bool,
        handler: H,
    ) -> AllHandlersV<H> {
        AllHandlersV {
            protocols: with_message_at(
                self.protocols,
                id,
                is_request,
                k,
                with_handler(
                    message_at(self.protocols, id, is_request, k),
                    self.next_entry(),
                    front,
                ),
            ),
            handlers: self.handlers.push(handler),
            ..self
        }
    }
}

/// What handlers are added with.
pub trait AddHandler<H> {
    /// All handlers so far.
    spec fn all(&self) -> AllHandlersV<H>;

    /// Whether there is a group to add handlers for.
    spec fn ready(&self) -> bool;

    fn request_push_front(
        &mut self,
        interface_name: &str,
        request_name: &str,
        handler: H,
    ) -> (r: Result<(), AddHandlerError>)
        requires
            old(self).ready(),
        ensures
            final(self).ready(),
            match (
                r,
                old(self).all().added(interface_name@, request_name@, true, true, handler),
            ) {
                (Ok(_), Ok(v)) => final(self).all() == v,
                (Err(e), Err(f)) => e == f && final(self).all() == old(self).all(),
                _ => false,
            },
    ;

    fn request_push_back(
        &mut self,
        interface_name: &str,
        request_name: &str,
        handler: H,
    ) -> (r: Result<(), AddHandlerError>)
        requires
            old(self).ready(),
        ensures
            final(self).ready(),
            match (
                r,
                old(self).all().added(interface_name@, request_name@, true, false, handler),
            ) {
                (Ok(_), Ok(v)) => final(self).all() == v,
                (Err(e), Err(f)) => e == f && final(self).all() == old(self).all(),
                _ => false,
            },
    ;

    fn event_push_front(
        &mut self,
        interface_name: &str,
        event_name: &str,
        handler: H,
    ) -> (r: Result<(), AddHandlerError>)
        requires
            old(self).ready(),
        ensures
            final(self).ready(),
            match (
                r,
                old(self).all().added(interface_name@, event_name@, false, true, handler),
            ) {
                (Ok(_), Ok(v)) => final(self).all() == v,
                (Err(e), Err(f)) => e == f && final(self).all() == old(self).all(),
                _ => false,
            },
    ;

    fn event_push_back(
        &mut self,
        interface_name: &str,
        event_name: &str,
        handler: H,
    ) -> (r: Result<(), AddHandlerError>)
        requires
            old(self).ready(),
        ensures
            final(self).ready(),
            match (
                r,
                old(self).all().added(interface_name@, event_name@, false, false, handler),
            ) {
                (Ok(_), Ok(v)) => final(self).all() == v,
                (Err(e), Err(f)) => e == f && final(self).all() == old(self).all(),
                _ => false,
            },
    ;
}

/// Replacing a message by one that points to the same places leaves all in order.
proof fn lemma_message_replaced(
    ps: Seq<ProtocolV>,
    ids: Seq<InterfaceId>,
    display: InterfaceId,
    id: InterfaceId,
    is_request: bool,
    k: int,
    m: MessageV,
)
    requires
        sound(ps, ids, display),
        is_place(ps, id),
        0 <= k < (if is_request {
            ps[id.protocol as int].interfaces[id.index as int].requests.len()
        } else {
            ps[id.protocol as int].interfaces[id.index as int].events.len()
        }),
        m.owner == message_at(ps, id, is_request, k).owner,
        m.new_id_interface == message_at(ps, id, is_request, k).new_id_interface,
    ensures
        sound(with_message_at(ps, id, is_request, k, m), ids, display),
{
    let qs = with_message_at(ps, id, is_request, k, m);
    assert(same_places(ps, qs));
    assert forall|p: int, j: int| 0 <= p < qs.len() && 0 <= j < qs[p].interfaces.len() implies
        #[trigger] interface_ok(qs, p, j) by {
        assert(interface_ok(ps, p, j));
        lemma_pointers(ps, qs, ps[p].interfaces[j].requests);
        lemma_pointers(ps, qs, ps[p].interfaces[j].events);
        let old = ps[p].interfaces[j];
        let new = qs[p].interfaces[j];
        assert forall|x: int| 0 <= x < new.requests.len() implies {
            let y = #[trigger] new.requests[x];
            &&& y.new_id_interface matches Some(z) ==> is_place(qs, z)
            &&& y.owner matches Some(z) ==> is_place(qs, z)
        } by {
            assert(old.requests[x].owner == new.requests[x].owner);
            assert(old.requests[x].new_id_interface == new.requests[x].new_id_interface);
        }
        assert forall|x: int| 0 <= x < new.events.len() implies {
            let y = #[trigger] new.events[x];
            &&& y.new_id_interface matches Some(z) ==> is_place(qs, z)
            &&& y.owner matches Some(z) ==> is_place(qs, z)
        } by {
            assert(old.events[x].owner == new.events[x].owner);
            assert(old.events[x].new_id_interface == new.events[x].new_id_interface);
        }
    }
    assert forall|x: InterfaceId| #[trigger] limited_at(ps, x) implies limited_at(qs, x) by {}
    assert(!has_conflict(qs, ids)) by {
        if has_conflict(qs, ids) {
            let (i, j) = choose|i: int, j: int|
                0 <= i < j < ids.len() && #[trigger] name_at(qs, ids[i]) == #[trigger] name_at(
                    qs,
                    ids[j],
                );
            assert(limited_at(ps, ids[i]));
            assert(limited_at(ps, ids[j]));
            assert(name_at(ps, ids[i]) == name_at(ps, ids[j]));
        }
    }
}

fn push_handler(messages: &mut Vec<Message>, k: usize, entry: HandlerEntry, front: bool)
    requires
        k < old(messages)@.len(),
    ensures
        messages_view(final(messages)@) == messages_view(old(messages)@).update(
            k as int,
            with_handler(old(messages)@[k as int]@, entry@, front),
        ),
{
    let ghost all = messages_view(messages@);
    let ghost m = messages@[k as int]@;
    let mut queue: VecDeque<HandlerEntry> = match messages[k].handlers.0.take() {
        Some(queue) => queue,
        None => VecDeque::new(),
    };
    let ghost before = queue_view(queue@);
    assert(m.handlers is None ==> before =~= Seq::<HandlerEntryV>::empty());
    if front {
        queue.push_front(entry);
        assert(queue_view(queue@) =~= seq![entry@] + before);
    } else {
        queue.push_back(entry);
        assert(queue_view(queue@) =~= before.push(entry@));
    }
    messages[k].handlers = NoDebug(Some(queue));
    assert(messages@[k as int]@ =~= with_handler(m, entry@, front));
    assert(messages_view(messages@) =~= all.update(k as int, with_handler(m, entry@, front)));
}

impl<H> AllHandlers<H> {
    /// Whether all is in order.
    pub open spec fn wf(self) -> bool {
        sound(self@.protocols, self@.map, self@.display)
    }

    /// No handlers yet.
    pub fn new(active_interfaces: ActiveInterfaces) -> (r: AllHandlers<H>)
        requires
            sound(
                protocols_view(active_interfaces.protocols@),
                active_interfaces.map@,
                active_interfaces.display,
            ),
        ensures
            r.wf(),
            r.active_interfaces == active_interfaces,
            r@.handlers == Seq::<H>::empty(),
            r@.groups == Seq::<Seq<char>>::empty(),
    {
        let r = AllHandlers { active_interfaces, handlers: Vec::new(), groups: Vec::new() };
        assert(r@.groups =~= Seq::<Seq<char>>::empty());
        r
    }

    /// Starts a new group.
    pub fn start_group(&mut self, name: String)
        requires
            old(self).wf(),
        ensures
            final(self).wf(),
            final(self)@ == (AllHandlersV { groups: old(self)@.groups.push(name@), ..old(self)@ }),
            final(self).active_interfaces == old(self).active_interfaces,
    {
        let ghost before = self@;
        self.groups.push(name);
        assert(self@.groups =~= before.groups.push(name@));
    }

    /// Where the active message with a name is, for which a handler can be added.
    fn get_handlers(&self, interface_name: &str, message_name: &str, is_request: bool) -> (r: Result<
        (InterfaceId, usize),
        AddHandlerError,
    >)
        requires
            self.wf(),
        ensures
            match (r, self@.place(interface_name@, message_name@, is_request)) {
                (Ok((id, k)), Ok((i, j))) => {
                    &&& id == i
                    &&& k == j
                    &&& is_place(self@.protocols, id)
                    &&& k < (if is_request {
                        self@.protocols[id.protocol as int].interfaces[id.index as int].requests.len()
                    } else {
                        self@.protocols[id.protocol as int].interfaces[id.index as int].events.len()
                    })
                },
                (Err(e), Err(f)) => e == f,
                _ => false,
            },
    {
        proof {
            lemma_actives_wf(self.active_interfaces);
            lemma_named_by_view(self.active_interfaces, interface_name@);
        }
        let id: InterfaceId = match self.active_interfaces.find(interface_name) {
            None => {
                return Err(AddHandlerError::NoSuchInterface);
            },
            Some(id) => id,
        };
        let interface: &Interface = self.active_interfaces.interface(id);
        assert(self@.protocols[id.protocol as int]
            == self.active_interfaces.protocols@[id.protocol as int]@);
        assert(self@.protocols[id.protocol as int].interfaces[id.index as int] == interface@);
        let messages: &Vec<Message> = if is_request {
            &interface.requests
        } else {
            &interface.events
        };
        match find_message(messages, message_name) {
            None => Err(
                if is_request {
                    AddHandlerError::NoSuchRequest
                } else {
                    AddHandlerError::NoSuchEvent
                },
            ),
            Some(k) => if messages[k].is_active() {
                Ok((id, k))
            } else {
                Err(
                    if is_request {
                        AddHandlerError::InactiveRequest
                    } else {
                        AddHandlerError::InactiveEvent
                    },
                )
            },
        }
    }

    /// Adds a handler for the message with a name.
    pub fn push(
        &mut self,
        interface_name: &str,
        message_name: &str,
        is_request: bool,
        front: bool,
        handler: H,
    ) -> (r: Result<(), AddHandlerError>)
        requires
            old(self).wf(),
            old(self)@.groups.len() > 0,
        ensures
            final(self).wf(),
            match (
                r,
                old(self)@.added(interface_name@, message_name@, is_request, front, handler),
            ) {
                (Ok(_), Ok(v)) => final(self)@ == v,
                (Err(e), Err(f)) => e == f && final(self)@ == old(self)@,
                _ => false,
            },
    {
        let ghost before = self@;
        let (id, k): (InterfaceId, usize) = match self.get_handlers(
            interface_name,
            message_name,
            is_request,
        ) {
            Err(e) => {
                return Err(e);
            },
            Ok(found) => found,
        };
        let entry = HandlerEntry {
            handler: self.handlers.len(),
            group: self.groups.len() - 1,
            group_name: self.groups[self.groups.len() - 1].clone(),
        };
        assert(entry@ =~= before.next_entry());
        let ghost m = message_at(before.protocols, id, is_request, k as int);
        let ghost new_m = with_handler(m, entry@, front);
        let ghost p = self.active_interfaces.protocols@[id.protocol as int];
        assert(before.protocols[id.protocol as int] == p@);
        assert(p@.interfaces[id.index as int] == p.interfaces@[id.index as int]@);
        if is_request {
            push_handler(
                &mut self.active_interfaces.protocols[id.protocol].interfaces[id.index].requests,
                k,
                entry,
                front,
            );
        } else {
            push_handler(
                &mut self.active_interfaces.protocols[id.protocol].interfaces[id.index].events,
                k,
                entry,
                front,
            );
        }
        self.handlers.push(handler);
        proof {
            let expected = with_message_at(before.protocols, id, is_request, k as int, new_m);
            let q = self.active_interfaces.protocols@[id.protocol as int];
            assert(q.interfaces@[id.index as int]@
                =~= expected[id.protocol as int].interfaces[id.index as int]);
            assert(q@.interfaces =~= expected[id.protocol as int].interfaces);
            assert(self@.protocols =~= expected);
            lemma_message_replaced(
                before.protocols,
                before.map,
                before.display,
                id,
                is_request,
                k as int,
                new_m,
            );
        }
        assert(self@ =~= before.pushed(id, is_request, k as int, front, handler));
        Ok(())
    }
}

impl<H> AddHandler<H> for AllHandlers<H> {
    open spec fn all(&self) -> AllHandlersV<H> {
        self@
    }

    open spec fn ready(&self) -> bool {
        self.wf() && self@.groups.len() > 0
    }

    fn request_push_front(&mut self, interface_name: &str, request_name: &str, handler: H) -> (r:
        Result<(), AddHandlerError>) {
        self.push(interface_name, request_name, true, true, handler)
    }

    fn request_push_back(&mut self, interface_name: &str, request_name: &str, handler: H) -> (r:
        Result<(), AddHandlerError>) {
        self.push(interface_name, request_name, true, false, handler)
    }

    fn event_push_front(&mut self, interface_name: &str, event_name: &str, handler: H) -> (r: Result<
        (),
        AddHandlerError,
    >) {
        self.push(interface_name, event_name, false, true, handler)
    }

    fn event_push_back(&mut self, interface_name: &str, event_name: &str, handler: H) -> (r: Result<
        (),
        AddHandlerError,
    >) {
        self.push(interface_name, event_name, false, false, handler)
    }
}

/// The messages of a kind of the interface at a place.
pub open spec fn messages_of_kind(i: InterfaceV, is_request: bool) -> Seq<MessageV> {
    if is_request {
        i.requests
    } else {
        i.events
    }
}

/// A handler is added for the message that has the given name, in the active interface that has the
/// given name: at the front of those that see it or at the back, with the next number, for the last
/// group. Nothing else changes.
pub proof fn law_handlers_are_added<H>(
    v: AllHandlersV<H>,
    x: int,
    k: int,
    is_request: bool,
    front: bool,
    handler: H,
    other: InterfaceId,
    other_kind: bool,
    m: int,
)
    requires
        0 <= x < v.map.len(),
        v.groups.len() > 0,
        is_place(v.protocols, v.map[x]),
        forall|y: int|
            0 <= y < x ==> name_at(v.protocols, #[trigger] v.map[y]) != name_at(v.protocols, v.map[x]),
        ({
            let i = v.protocols[v.map[x].protocol as int].interfaces[v.map[x].index as int];
            let messages = messages_of_kind(i, is_request);
            &&& 0 <= k < messages.len()
            &&& messages[k].active
            &&& forall|j: int| 0 <= j < k ==> (#[trigger] messages[j]).name != messages[k].name
        }),
        v.handlers.len() < usize::MAX,
        v.groups.len() < usize::MAX,
    ensures
        ({
            let id = v.map[x];
            let i = v.protocols[id.protocol as int].interfaces[id.index as int];
            let old = messages_of_kind(i, is_request)[k];
            let added = v.added(i.name, old.name, is_request, front, handler);
            let w = added->Ok_0;
            let new = messages_of_kind(
                w.protocols[id.protocol as int].interfaces[id.index as int],
                is_request,
            )[k];
            let queue = match old.handlers {
                Some(queue) => queue,
                None => Seq::empty(),
            };
            let entry = HandlerEntryV {
                handler: v.handlers.len() as usize,
                group: (v.groups.len() - 1) as usize,
                group_name: v.groups[v.groups.len() - 1],
            };
            &&& added is Ok
            &&& w.handlers == v.handlers.push(handler)
            &&& w.groups == v.groups
            &&& w.map == v.map
            &&& w.display == v.display
            &&& w.protocols.len() == v.protocols.len()
            &&& new == MessageV { handlers: new.handlers, ..old }
            &&& front ==> new.handlers == Some(seq![entry] + queue)
            &&& !front ==> new.handlers == Some(queue + seq![entry])
            &&& is_place(v.protocols, other) && 0 <= m < messages_of_kind(
                v.protocols[other.protocol as int].interfaces[other.index as int],
                other_kind,
            ).len() && !(other == id && other_kind == is_request && m == k) ==> messages_of_kind(
                w.protocols[other.protocol as int].interfaces[other.index as int],
                other_kind,
            )[m] == messages_of_kind(
                v.protocols[other.protocol as int].interfaces[other.index as int],
                other_kind,
            )[m]
        }),
{
    let id = v.map[x];
    let i = v.protocols[id.protocol as int].interfaces[id.index as int];
    let messages = messages_of_kind(i, is_request);
    let old = messages[k];
    let names = Seq::new(v.map.len(), |j: int| name_at(v.protocols, v.map[j]));
    lemma_name_index_is(names, i.name, x);
    let found = message_names(messages);
    assert forall|j: int| 0 <= j < k implies found[j] != old.name by {
        assert(found[j] == messages[j].name);
    }
    lemma_name_index_is(found, old.name, k);
    let w = v.added(i.name, old.name, is_request, front, handler)->Ok_0;
    let queue = match old.handlers {
        Some(queue) => queue,
        None => Seq::empty(),
    };
    assert(queue.push(v.next_entry()) =~= queue + seq![v.next_entry()]);
}

/// A handler cannot be added where no active interface has the name, where it has no message of that
/// name and kind, or where that message is not active.
pub proof fn law_what_handlers_cannot_be_added_for<H>(
    v: AllHandlersV<H>,
    interface: Seq<char>,
    name: Seq<char>,
    is_request: bool,
    front: bool,
    handler: H,
    x: int,
)
    ensures
        (forall|y: int|
            0 <= y < v.map.len() ==> name_at(v.protocols, #[trigger] v.map[y]) != interface)
            ==> v.added(interface, name, is_request, front, handler) == Err::<
            AllHandlersV<H>,
            AddHandlerError,
        >(AddHandlerError::NoSuchInterface),
        0 <= x < v.map.len() && name_at(v.protocols, v.map[x]) == interface && (forall|y: int|
            0 <= y < x ==> name_at(v.protocols, #[trigger] v.map[y]) != interface) ==> {
            let i = v.protocols[v.map[x].protocol as int].interfaces[v.map[x].index as int];
            let messages = messages_of_kind(i, is_request);
            let added = v.added(interface, name, is_request, front, handler);
            &&& (forall|k: int| 0 <= k < messages.len() ==> (#[trigger] messages[k]).name != name)
                ==> added == Err::<AllHandlersV<H>, AddHandlerError>(
                if is_request {
                    AddHandlerError::NoSuchRequest
                } else {
                    AddHandlerError::NoSuchEvent
                },
            )
            &&& forall|k: int|
                0 <= k < messages.len() && (#[trigger] messages[k]).name == name
                    && !messages[k].active && (forall|j: int|
                    0 <= j < k ==> (#[trigger] messages[j]).name != name) ==> added == Err::<
                    AllHandlersV<H>,
                    AddHandlerError,
                >(
                    if is_request {
                        AddHandlerError::InactiveRequest
                    } else {
                        AddHandlerError::InactiveEvent
                    },
                )
        },
{
    let names = Seq::new(v.map.len(), |j: int| name_at(v.protocols, v.map[j]));
    lemma_name_index(names, interface);
    if forall|y: int| 0 <= y < v.map.len() ==> name_at(v.protocols, #[trigger] v.map[y]) != interface {
        if let Some(y) = name_index(names, interface) {
            assert(names[y] == name_at(v.protocols, v.map[y]));
        }
    }
    if 0 <= x < v.map.len() && name_at(v.protocols, v.map[x]) == interface && (forall|y: int|
        0 <= y < x ==> name_at(v.protocols, #[trigger] v.map[y]) != interface) {
        lemma_name_index_is(names, interface, x);
        let i = v.protocols[v.map[x].protocol as int].interfaces[v.map[x].index as int];
        let messages = messages_of_kind(i, is_request);
        let found = message_names(messages);
        lemma_name_index(found, name);
        if let Some(k) = name_index(found, name) {
            assert(found[k] == messages[k].name);
        }
        assert forall|k: int|
            0 <= k < messages.len() && (#[trigger] messages[k]).name == name && (forall|j: int|
                0 <= j < k ==> (#[trigger] messages[j]).name != name) implies name_index(found, name)
            == Some(k) by {
            assert forall|j: int| 0 <= j < k implies found[j] != name by {
                assert(found[j] == messages[j].name);
            }
            assert(found[k] == name);
            lemma_name_index_is(found, name, k);
        }
    }
}

} // verus!
