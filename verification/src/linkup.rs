//! From protocols as they were read to the active interfaces: all steps in turn.

use crate::actives::{names_at, ActiveInterfaces, ActiveInterfacesA};
use crate::limit_laws::{lemma_quiet_before_reach, quiet_messages, quiet_protocol};
use crate::limits::{
    activated, all_limited, get_globals_limits, globals_named, has_conflict, lemma_actives_of,
    limited, name_at, none_active, propagate_limits_find_actives, propagated, reach, reached,
    reached_at, reached_interface, reached_protocol, not_reached, with_limit,
};
use crate::postparse::{
    check_protocol_targets, expected, fixed_up, fixup_wayland_get_display, index_in,
    lemma_first_maker, limit_line, marked, owned_messages, owned_protocol, parents_agree,
    protocol_targets_ok, set_owners, target, unowned, unprepared, PostparseError,
};
use crate::protocol::{
    at, find_name, interface_linked, interface_names, lemma_name_index, message_linked,
    messages_view, name_index, protocol_fresh, protocols_view, InterfaceId, InterfaceV, Message,
    MessageV, Protocol, ProtocolV,
};
use crate::text::{str_eq, str_views};
use vstd::prelude::*;

verus! {

/// The place of the interface with a name among those at some places.
pub open spec fn place_named(
    ps: Seq<ProtocolV>,
    ids: Seq<InterfaceId>,
    name: Seq<char>,
) -> Option<InterfaceId> {
    match name_index(Seq::new(ids.len(), |i: int| name_at(ps, ids[i])), name) {
        Some(i) => Some(ids[i]),
        None => None,
    }
}

/// The name of the interface of the object that an active message creates, where this is in another
/// protocol.
pub open spec fn external(names: Seq<Seq<char>>, m: MessageV) -> Option<Seq<char>> {
    match target(m) {
        Some(Some(name)) if m.active && name_index(names, name) is None => Some(name),
        _ => None,
    }
}

/// Whether active interfaces are there for all objects that some messages create.
pub open spec fn externals_ok(
    ps: Seq<ProtocolV>,
    ids: Seq<InterfaceId>,
    names: Seq<Seq<char>>,
    messages: Seq<MessageV>,
) -> bool {
    forall|k: int|
        0 <= k < messages.len() ==> (external(names, #[trigger] messages[k]) matches Some(name)
            ==> place_named(ps, ids, name) is Some)
}

/// Messages that know the interfaces of the objects that they create, also where these are in
/// another protocol.
pub open spec fn linked_messages(
    ps: Seq<ProtocolV>,
    ids: Seq<InterfaceId>,
    names: Seq<Seq<char>>,
    messages: Seq<MessageV>,
) -> Seq<MessageV> {
    Seq::new(
        messages.len(),
        |k: int|
            match external(names, messages[k]) {
                Some(name) => MessageV {
                    new_id_interface: place_named(ps, ids, name),
                    ..messages[k]
                },
                None => messages[k],
            },
    )
}

/// An interface whose messages know the interfaces of the objects that they create.
pub open spec fn linked_interface(
    ps: Seq<ProtocolV>,
    ids: Seq<InterfaceId>,
    names: Seq<Seq<char>>,
    i: InterfaceV,
) -> InterfaceV {
    InterfaceV {
        requests: linked_messages(ps, ids, names, i.requests),
        events: linked_messages(ps, ids, names, i.events),
        ..i
    }
}

/// A protocol whose messages know the interfaces of the objects that they create.
pub open spec fn linked_protocol(
    ps: Seq<ProtocolV>,
    ids: Seq<InterfaceId>,
    p: ProtocolV,
) -> ProtocolV {
    ProtocolV {
        interfaces: Seq::new(
            p.interfaces.len(),
            |k: int|
                linked_interface(ps, ids, interface_names(p.interfaces), p.interfaces[k]),
        ),
        ..p
    }
}

/// Whether active interfaces are there for all objects that the messages of a protocol create.
pub open spec fn protocol_externals_ok(
    ps: Seq<ProtocolV>,
    ids: Seq<InterfaceId>,
    p: ProtocolV,
) -> bool {
    let names = interface_names(p.interfaces);
    forall|k: int|
        0 <= k < p.interfaces.len() ==> externals_ok(
            ps,
            ids,
            names,
            (#[trigger] p.interfaces[k]).requests,
        ) && externals_ok(ps, ids, names, p.interfaces[k].events)
}

/// Active interfaces are found by the names that their views have.
pub proof fn lemma_named_by_view(a: ActiveInterfacesA, name: Seq<char>)
    requires
        a.wf(),
    ensures
        a.named(name) == place_named(protocols_view(a.protocols@), a.map@, name),
{
    let ps = protocols_view(a.protocols@);
    let names = Seq::new(a.map@.len(), |i: int| name_at(ps, a.map@[i]));
    assert forall|i: int| 0 <= i < a.map@.len() implies names[i] == #[trigger] names_at(
        a.protocols@,
        a.map@,
    )[i] by {
        assert(a.place_ok(a.map@[i]));
        assert(ps[a.map@[i].protocol as int] == a.protocols@[a.map@[i].protocol as int]@);
    }
    assert(names =~= names_at(a.protocols@, a.map@));
}

/// What becomes of the protocols when all messages know the interfaces of the objects that they
/// create.
pub open spec fn linked(ps: Seq<ProtocolV>, ids: Seq<InterfaceId>) -> Result<
    Seq<ProtocolV>,
    PostparseError,
> {
    if forall|p: int| 0 <= p < ps.len() ==> protocol_externals_ok(ps, ids, #[trigger] ps[p]) {
        Ok(Seq::new(ps.len(), |p: int| linked_protocol(ps, ids, ps[p])))
    } else {
        Err(PostparseError::MissingExternal)
    }
}

/// Whether no message knows yet the interface of the object that it creates, where this is in another
/// protocol.
pub open spec fn unlinked(ps: Seq<ProtocolV>) -> bool {
    forall|p: int, k: int|
        0 <= p < ps.len() && 0 <= k < ps[p].interfaces.len() ==> {
            let names = interface_names(ps[p].interfaces);
            let i = #[trigger] ps[p].interfaces[k];
            &&& messages_unlinked(names, i.requests)
            &&& messages_unlinked(names, i.events)
        }
}

/// Whether messages do not know yet the interface of the object that they create, where this is none
/// of those with some names.
pub open spec fn messages_unlinked(names: Seq<Seq<char>>, messages: Seq<MessageV>) -> bool {
    forall|k: int|
        0 <= k < messages.len() ==> (external(names, #[trigger] messages[k]) is Some
            ==> messages[k].new_id_interface is None)
}

fn link_messages(
    messages: &mut Vec<Message>,
    names: &Vec<String>,
    active_names: &Vec<String>,
    ids: &Vec<InterfaceId>,
    Ghost(ps): Ghost<Seq<ProtocolV>>,
) -> (r: bool)
    requires
        str_views(active_names@) == Seq::new(ids@.len(), |i: int| name_at(ps, ids@[i])),
    ensures
        r == externals_ok(ps, ids@, str_views(names@), messages_view(old(messages)@)),
        r ==> messages_view(final(messages)@) == linked_messages(
            ps,
            ids@,
            str_views(names@),
            messages_view(old(messages)@),
        ),
{
    let ghost all = messages_view(messages@);
    let ghost texts = str_views(names@);
    assert(str_views(active_names@).len() == ids@.len());
    let n: usize = messages.len();
    let mut k: usize = 0;
    while k < n
        invariant
            k <= n,
            n == messages@.len(),
            n == all.len(),
            all == messages_view(old(messages)@),
            texts == str_views(names@),
            active_names@.len() == ids@.len(),
            str_views(active_names@) == Seq::new(ids@.len(), |i: int| name_at(ps, ids@[i])),
            forall|j: int|
                0 <= j < k ==> (external(texts, #[trigger] all[j]) matches Some(name)
                    ==> place_named(ps, ids@, name) is Some),
            forall|j: int|
                0 <= j < k ==> (#[trigger] messages@[j])@ == linked_messages(
                    ps,
                    ids@,
                    texts,
                    all,
                )[j],
            forall|j: int| k <= j < n ==> (#[trigger] messages@[j])@ == all[j],
        decreases n - k,
    {
        let ghost m = messages@[k as int]@;
        assert(m == all[k as int]);
        if messages[k].is_active() {
            let place: Option<Option<usize>> = match messages[k].new_id_interface_name() {
                Ok(Some(name)) => match find_name(names, name.as_str()) {
                    Some(_) => None,
                    None => Some(find_name(active_names, name.as_str())),
                },
                _ => None,
            };
            match place {
                None => {},
                Some(None) => {
                    assert(external(texts, all[k as int]) is Some);
                    return false;
                },
                Some(Some(i)) => {
                    messages[k].new_id_interface = Some(ids[i]);
                    assert(messages@[k as int]@ =~= MessageV {
                        new_id_interface: Some(ids@[i as int]),
                        ..m
                    });
                },
            }
        }
        k = k + 1;
    }
    assert(messages_view(messages@) =~= linked_messages(ps, ids@, texts, all));
    true
}

fn link_protocol(
    protocol: &mut Protocol,
    active_names: &Vec<String>,
    ids: &Vec<InterfaceId>,
    Ghost(ps): Ghost<Seq<ProtocolV>>,
) -> (r: bool)
    requires
        str_views(active_names@) == Seq::new(ids@.len(), |i: int| name_at(ps, ids@[i])),
    ensures
        r == protocol_externals_ok(ps, ids@, old(protocol)@),
        r ==> final(protocol)@ == linked_protocol(ps, ids@, old(protocol)@),
{
    let ghost p = protocol@;
    let n: usize = protocol.interfaces.len();
    let mut names: Vec<String> = Vec::new();
    for k in 0..n
        invariant
            n == protocol.interfaces@.len(),
            p == protocol@,
            names@.len() == k,
            forall|j: int| 0 <= j < k ==> (#[trigger] names@[j])@ == p.interfaces[j].name,
    {
        assert(p.interfaces[k as int] == protocol.interfaces@[k as int]@);
        names.push(protocol.interfaces[k].name.clone());
    }
    let ghost texts = interface_names(p.interfaces);
    assert(str_views(names@) =~= texts);
    let mut k: usize = 0;
    while k < n
        invariant
            k <= n,
            n == protocol.interfaces@.len(),
            n == p.interfaces.len(),
            p == old(protocol)@,
            texts == interface_names(p.interfaces),
            texts == str_views(names@),
            str_views(active_names@) == Seq::new(ids@.len(), |i: int| name_at(ps, ids@[i])),
            protocol@.name == p.name,
            protocol@.active == p.active,
            forall|j: int|
                0 <= j < k ==> externals_ok(ps, ids@, texts, (#[trigger] p.interfaces[j]).requests)
                    && externals_ok(ps, ids@, texts, p.interfaces[j].events),
            forall|j: int|
                0 <= j < k ==> (#[trigger] protocol.interfaces@[j])@ == linked_interface(
                    ps,
                    ids@,
                    texts,
                    p.interfaces[j],
                ),
            forall|j: int|
                k <= j < n ==> (#[trigger] protocol.interfaces@[j])@ == p.interfaces[j],
        decreases n - k,
    {
        let ghost i = protocol.interfaces@[k as int]@;
        assert(i == p.interfaces[k as int]);
        if !link_messages(
            &mut protocol.interfaces[k].requests,
            &names,
            active_names,
            ids,
            Ghost(ps),
        ) {
            return false;
        }
        if !link_messages(
            &mut protocol.interfaces[k].events,
            &names,
            active_names,
            ids,
            Ghost(ps),
        ) {
            return false;
        }
        assert(protocol.interfaces@[k as int]@ =~= linked_interface(ps, ids@, texts, i));
        k = k + 1;
    }
    assert(protocol@.interfaces =~= linked_protocol(ps, ids@, p).interfaces);
    true
}

/// Tells the active messages that create objects of an interface in another protocol which
/// interface that is. It can only be told once it is known which interfaces are active. This is done
/// once.
pub fn link_externals(protocols: Vec<Protocol>, ids: &Vec<InterfaceId>) -> (r: Result<
    Vec<Protocol>,
    PostparseError,
>)
    requires
        forall|k: int|
            0 <= k < ids@.len() ==> (#[trigger] ids@[k]).protocol < protocols@.len()
                && ids@[k].index < protocols@[ids@[k].protocol as int].interfaces@.len(),
        unlinked(protocols_view(protocols@)),
    ensures
        match (r, linked(protocols_view(protocols@), ids@)) {
            (Ok(after), Ok(ps)) => protocols_view(after@) == ps,
            (Err(e), Err(f)) => e == f,
            _ => false,
        },
{
    let ghost ps = protocols_view(protocols@);
    let m: usize = ids.len();
    let mut active_names: Vec<String> = Vec::new();
    for i in 0..m
        invariant
            m == ids@.len(),
            ps == protocols_view(protocols@),
            active_names@.len() == i,
            forall|k: int|
                0 <= k < ids@.len() ==> (#[trigger] ids@[k]).protocol < protocols@.len()
                    && ids@[k].index < protocols@[ids@[k].protocol as int].interfaces@.len(),
            forall|k: int| 0 <= k < i ==> (#[trigger] active_names@[k])@ == name_at(ps, ids@[k]),
    {
        let id = ids[i];
        assert(ps[id.protocol as int] == protocols@[id.protocol as int]@);
        active_names.push(protocols[id.protocol].interfaces[id.index].name.clone());
    }
    assert(str_views(active_names@) =~= Seq::new(ids@.len(), |i: int| name_at(ps, ids@[i])));
    let n: usize = protocols.len();
    let mut work = protocols;
    let mut p: usize = 0;
    while p < n
        invariant
            p <= n,
            n == work@.len(),
            n == ps.len(),
            ps == protocols_view(protocols@),
            str_views(active_names@) == Seq::new(ids@.len(), |i: int| name_at(ps, ids@[i])),
            forall|q: int| 0 <= q < p ==> protocol_externals_ok(ps, ids@, #[trigger] ps[q]),
            forall|q: int|
                0 <= q < p ==> (#[trigger] work@[q])@ == linked_protocol(ps, ids@, ps[q]),
            forall|q: int| p <= q < n ==> (#[trigger] work@[q])@ == ps[q],
        decreases n - p,
    {
        assert(work@[p as int]@ == ps[p as int]);
        if !link_protocol(&mut work[p], &active_names, ids, Ghost(ps)) {
            return Err(PostparseError::MissingExternal);
        }
        p = p + 1;
    }
    assert(protocols_view(work@) =~= Seq::new(ps.len(), |p: int| linked_protocol(ps, ids@, ps[p])));
    Ok(work)
}

/// The first `n` protocols with the base protocol among them prepared, and where its display is.
pub open spec fn based(ps: Seq<ProtocolV>, n: nat) -> Result<
    (Seq<ProtocolV>, Option<InterfaceId>),
    PostparseError,
>
    decreases n,
{
    if n == 0 {
        Ok((ps, None))
    } else {
        match based(ps, (n - 1) as nat) {
            Err(e) => Err(e),
            Ok((before, display)) => if ps[n - 1].name != "wayland"@ {
                Ok((before, display))
            } else if display is Some {
                Err(PostparseError::BaseSeenTwice)
            } else {
                match fixed_up(ps[n - 1]) {
                    Err(e) => Err(e),
                    Ok((p, k)) => Ok(
                        (
                            before.update(n - 1, p),
                            Some(InterfaceId { protocol: (n - 1) as usize, index: k as usize }),
                        ),
                    ),
                }
            },
        }
    }
}

proof fn lemma_based_error(ps: Seq<ProtocolV>, i: nat, n: nat)
    requires
        i <= n,
        based(ps, i) is Err,
    ensures
        based(ps, n) == based(ps, i),
    decreases n - i,
{
    if i < n {
        lemma_based_error(ps, i, (n - 1) as nat);
    }
}

/// Whether every message has at most one new object, with a given interface.
pub open spec fn all_targets_ok(ps: Seq<ProtocolV>) -> bool {
    forall|p: int| 0 <= p < ps.len() ==> protocol_targets_ok(#[trigger] ps[p])
}

/// Whether every interface but `wl_callback` has one parent at most.
pub open spec fn all_parents_agree(ps: Seq<ProtocolV>) -> bool {
    forall|p: int| 0 <= p < ps.len() ==> parents_agree(#[trigger] ps[p])
}

/// Protocols whose interfaces know their places and their parents.
pub open spec fn all_owned(ps: Seq<ProtocolV>) -> Seq<ProtocolV> {
    Seq::new(ps.len(), |p: int| owned_protocol(ps[p], p as usize))
}

/// What the protocols and the limits come to.
pub struct Outcome {
    pub protocols: Seq<ProtocolV>,
    pub ids: Seq<InterfaceId>,
    pub display: InterfaceId,
    pub skipped: Seq<usize>,
}

/// What the protocols and the lines of limits come to: the base protocol is prepared, interfaces and
/// messages learn where they belong, globals get their limits, the limits reach the other
/// interfaces, and messages learn what they create.
pub open spec fn outcome(ps: Seq<ProtocolV>, lines: Seq<Seq<char>>, allow_missing: bool) -> Result<
    Outcome,
    PostparseError,
> {
    match based(ps, ps.len()) {
        Err(e) => Err(e),
        Ok((_, None)) => Err(PostparseError::MissingBase),
        Ok((base, Some(display))) => if !all_targets_ok(base) {
            Err(PostparseError::BadNewId)
        } else if !all_parents_agree(base) {
            Err(PostparseError::TwoParents)
        } else {
            match all_limited(all_owned(base), lines, allow_missing, lines.len()) {
                Err(e) => Err(e),
                Ok((with_limits, skipped)) => match propagated(with_limits) {
                    Err(e) => Err(e),
                    Ok((with_reach, ids)) => match linked(with_reach, ids) {
                        Err(e) => Err(e),
                        Ok(protocols) => Ok(Outcome { protocols, ids, display, skipped }),
                    },
                },
            }
        },
    }
}

/// Whether there is an interface at a place.
pub open spec fn is_place(ps: Seq<ProtocolV>, id: InterfaceId) -> bool {
    id.protocol < ps.len() && id.index < ps[id.protocol as int].interfaces.len()
}

/// Whether what some messages point to is there.
pub open spec fn pointers_ok(ps: Seq<ProtocolV>, messages: Seq<MessageV>) -> bool {
    forall|k: int|
        0 <= k < messages.len() ==> {
            let m = #[trigger] messages[k];
            &&& m.new_id_interface matches Some(id) ==> is_place(ps, id)
            &&& m.owner matches Some(id) ==> is_place(ps, id)
        }
}

/// Whether an interface knows its place, and what it and its messages point to is there.
pub open spec fn interface_ok(ps: Seq<ProtocolV>, p: int, k: int) -> bool {
    let i = ps[p].interfaces[k];
    &&& i.place == Some(InterfaceId { protocol: p as usize, index: k as usize })
    &&& i.parent matches Some(j) ==> j < ps[p].interfaces.len()
    &&& pointers_ok(ps, i.requests)
    &&& pointers_ok(ps, i.events)
}

/// Whether all interfaces know their places, and all that is pointed to is there.
pub open spec fn all_ok(ps: Seq<ProtocolV>) -> bool {
    forall|p: int, k: int|
        0 <= p < ps.len() && 0 <= k < ps[p].interfaces.len() ==> #[trigger] interface_ok(ps, p, k)
}

/// Whether two lists of protocols have the same places.
pub open spec fn same_places(ps: Seq<ProtocolV>, qs: Seq<ProtocolV>) -> bool {
    &&& ps.len() == qs.len()
    &&& forall|p: int|
        0 <= p < ps.len() ==> (#[trigger] ps[p]).interfaces.len() == qs[p].interfaces.len()
}

/// Whether the indices of a list of protocols fit into machine words.
pub open spec fn indexable(ps: Seq<ProtocolV>) -> bool {
    &&& ps.len() <= usize::MAX
    &&& forall|p: int| 0 <= p < ps.len() ==> (#[trigger] ps[p]).interfaces.len() <= usize::MAX
}

/// Whether messages point to nothing.
pub open spec fn untied(messages: Seq<MessageV>) -> bool {
    forall|m: int|
        0 <= m < messages.len() ==> (#[trigger] messages[m]).new_id_interface is None
            && messages[m].owner is None
}

/// Whether a protocol has been prepared at most: parents are there, no interface knows its place, and
/// messages point to nothing.
pub open spec fn prepared(p: ProtocolV) -> bool {
    forall|k: int|
        0 <= k < p.interfaces.len() ==> {
            let i = #[trigger] p.interfaces[k];
            &&& i.parent matches Some(j) ==> j < p.interfaces.len()
            &&& i.place is None
            &&& untied(i.requests)
            &&& untied(i.events)
        }
}

/// Whether there is an interface with a limit at a place.
pub open spec fn limited_at(ps: Seq<ProtocolV>, id: InterfaceId) -> bool {
    is_place(ps, id)
        && ps[id.protocol as int].interfaces[id.index as int].limited_version is Some
}

proof fn lemma_marked(
    p: ProtocolV,
    i: int,
    is_request: bool,
    k: int,
    special: crate::protocol::SpecialMessage,
)
    requires
        prepared(p),
        0 <= i < p.interfaces.len(),
        0 <= k < (if is_request {
            p.interfaces[i].requests.len()
        } else {
            p.interfaces[i].events.len()
        }),
    ensures
        prepared(marked(p, i, is_request, k, special)),
        marked(p, i, is_request, k, special).interfaces.len() == p.interfaces.len(),
        forall|j: int|
            0 <= j < p.interfaces.len() ==> (#[trigger] marked(
                p,
                i,
                is_request,
                k,
                special,
            ).interfaces[j]).requests.len() == p.interfaces[j].requests.len() && marked(
                p,
                i,
                is_request,
                k,
                special,
            ).interfaces[j].events.len() == p.interfaces[j].events.len(),
{
    let q = marked(p, i, is_request, k, special);
    assert forall|j: int| 0 <= j < q.interfaces.len() implies {
        let x = #[trigger] q.interfaces[j];
        &&& x.parent matches Some(n) ==> n < q.interfaces.len()
        &&& x.place is None
        &&& untied(x.requests)
        &&& untied(x.events)
    } by {
        let old = p.interfaces[j];
        let x = q.interfaces[j];
        assert forall|m: int| 0 <= m < x.requests.len() implies (
        #[trigger] x.requests[m]).new_id_interface is None && x.requests[m].owner is None by {
            assert(old.requests[m].new_id_interface is None);
        }
        assert forall|m: int| 0 <= m < x.events.len() implies (
        #[trigger] x.events[m]).new_id_interface is None && x.events[m].owner is None by {
            assert(old.events[m].new_id_interface is None);
        }
    }
}

proof fn lemma_index_in(p: ProtocolV, name: Seq<char>)
    ensures
        index_in(p, name) matches Some(i) ==> 0 <= i < p.interfaces.len() && p.interfaces[i].name
            == name,
{
    lemma_name_index(interface_names(p.interfaces), name);
}

proof fn lemma_fixed_up(p: ProtocolV)
    requires
        prepared(p),
        p.interfaces.len() <= usize::MAX,
    ensures
        fixed_up(p) matches Ok((q, d)) ==> prepared(q) && q.interfaces.len() == p.interfaces.len()
            && 0 <= d < p.interfaces.len() && q.interfaces[d].limited_version is Some,
{
    lemma_index_in(p, "wl_registry"@);
    lemma_index_in(p, "wl_display"@);
    lemma_index_in(p, "wl_callback"@);
    if let Ok((q, d)) = fixed_up(p) {
        let registry = expected(p, "wl_registry"@, true, 0, "bind"@)->Ok_0;
        let callback = index_in(p, "wl_callback"@)->0;
        let p1 = marked(p, registry, true, 0, crate::protocol::SpecialMessage::WlRegistryBind);
        lemma_marked(p, registry, true, 0, crate::protocol::SpecialMessage::WlRegistryBind);
        assert(p1.interfaces[registry].events.len() == p.interfaces[registry].events.len());
        let p2 = marked(p1, registry, false, 0, crate::protocol::SpecialMessage::WlRegistryGlobal);
        lemma_marked(p1, registry, false, 0, crate::protocol::SpecialMessage::WlRegistryGlobal);
        assert(p1.interfaces[d].requests.len() == p.interfaces[d].requests.len());
        assert(p2.interfaces[d].requests.len() == p1.interfaces[d].requests.len());
        let p3 = marked(p2, d, true, 0, crate::protocol::SpecialMessage::WlDisplaySync);
        lemma_marked(p2, d, true, 0, crate::protocol::SpecialMessage::WlDisplaySync);
        assert(p3.interfaces[d].events.len() == p2.interfaces[d].events.len());
        assert(p2.interfaces[d].events.len() == p1.interfaces[d].events.len());
        lemma_marked(p3, d, false, 1, crate::protocol::SpecialMessage::WlDisplayDeleteId);
        let p4 = marked(p3, d, false, 1, crate::protocol::SpecialMessage::WlDisplayDeleteId);
        assert forall|k: int| 0 <= k < q.interfaces.len() implies {
            let i = #[trigger] q.interfaces[k];
            &&& i.parent matches Some(j) ==> j < q.interfaces.len()
            &&& i.place is None
            &&& untied(i.requests)
            &&& untied(i.events)
        } by {
            assert(q.interfaces[k].requests == p4.interfaces[k].requests);
            assert(q.interfaces[k].events == p4.interfaces[k].events);
        }
    }
}

proof fn lemma_based(ps: Seq<ProtocolV>, n: nat)
    requires
        n <= ps.len(),
        indexable(ps),
        forall|p: int| 0 <= p < ps.len() ==> prepared(#[trigger] ps[p]),
    ensures
        based(ps, n) matches Ok((qs, display)) ==> {
            &&& same_places(ps, qs)
            &&& forall|p: int| 0 <= p < qs.len() ==> prepared(#[trigger] qs[p])
            &&& forall|p: int| n <= p < qs.len() ==> qs[p] == ps[p]
            &&& display matches Some(d) ==> limited_at(qs, d) && d.protocol < n
        },
    decreases n,
{
    if n > 0 {
        lemma_based(ps, (n - 1) as nat);
        assert(prepared(ps[n - 1]));
        lemma_fixed_up(ps[n - 1]);
    }
}

proof fn lemma_owned(ps: Seq<ProtocolV>)
    requires
        indexable(ps),
        forall|p: int| 0 <= p < ps.len() ==> prepared(#[trigger] ps[p]),
    ensures
        all_ok(all_owned(ps)),
        same_places(ps, all_owned(ps)),
        forall|id: InterfaceId| #[trigger] limited_at(ps, id) ==> limited_at(all_owned(ps), id),
{
    let qs = all_owned(ps);
    assert forall|p: int, k: int| 0 <= p < qs.len() && 0 <= k < qs[p].interfaces.len() implies
        #[trigger] interface_ok(qs, p, k) by {
        let old = ps[p].interfaces[k];
        assert(prepared(ps[p]));
        let names = interface_names(ps[p].interfaces);
        lemma_first_maker(ps[p], k, ps[p].interfaces.len());
        let i = qs[p].interfaces[k];
        assert forall|m: int| 0 <= m < i.requests.len() implies {
            let x = #[trigger] i.requests[m];
            &&& x.new_id_interface matches Some(id) ==> is_place(qs, id)
            &&& x.owner matches Some(id) ==> is_place(qs, id)
        } by {
            if let Some(Some(name)) = target(old.requests[m]) {
                lemma_name_index(names, name);
            }
            assert(old.requests[m].new_id_interface is None);
        }
        assert forall|m: int| 0 <= m < i.events.len() implies {
            let x = #[trigger] i.events[m];
            &&& x.new_id_interface matches Some(id) ==> is_place(qs, id)
            &&& x.owner matches Some(id) ==> is_place(qs, id)
        } by {
            if let Some(Some(name)) = target(old.events[m]) {
                lemma_name_index(names, name);
            }
            assert(old.events[m].new_id_interface is None);
        }
    }
}

/// Whether no message that creates an object of an interface in another protocol knows that interface
/// yet, be the message active or not.
spec fn waiting(ps: Seq<ProtocolV>) -> bool {
    forall|p: int, k: int|
        0 <= p < ps.len() && 0 <= k < ps[p].interfaces.len() ==> {
            let names = interface_names(ps[p].interfaces);
            let i = #[trigger] ps[p].interfaces[k];
            &&& messages_waiting(names, i.requests)
            &&& messages_waiting(names, i.events)
        }
}

spec fn messages_waiting(names: Seq<Seq<char>>, messages: Seq<MessageV>) -> bool {
    forall|k: int|
        0 <= k < messages.len() ==> match target(#[trigger] messages[k]) {
            Some(Some(name)) => name_index(names, name) is None
                ==> messages[k].new_id_interface is None,
            _ => true,
        }
}

proof fn lemma_owned_waiting(ps: Seq<ProtocolV>)
    requires
        forall|p: int| 0 <= p < ps.len() ==> prepared(#[trigger] ps[p]),
    ensures
        waiting(all_owned(ps)),
{
    let qs = all_owned(ps);
    assert forall|p: int, k: int| 0 <= p < qs.len() && 0 <= k < qs[p].interfaces.len() implies {
        let names = interface_names(qs[p].interfaces);
        let i = #[trigger] qs[p].interfaces[k];
        &&& messages_waiting(names, i.requests)
        &&& messages_waiting(names, i.events)
    } by {
        assert(prepared(ps[p]));
        let old = ps[p].interfaces[k];
        let names = interface_names(ps[p].interfaces);
        assert(interface_names(qs[p].interfaces) =~= names);
        assert(untied(old.requests) && untied(old.events));
        let place = InterfaceId { protocol: p as usize, index: k as usize };
        lemma_owned_messages_waiting(names, place, old.requests);
        lemma_owned_messages_waiting(names, place, old.events);
    }
}

proof fn lemma_owned_messages_waiting(
    names: Seq<Seq<char>>,
    place: InterfaceId,
    messages: Seq<MessageV>,
)
    requires
        untied(messages),
    ensures
        messages_waiting(names, owned_messages(names, place, messages)),
{
    let after = owned_messages(names, place, messages);
    assert forall|k: int| 0 <= k < after.len() implies match target(#[trigger] after[k]) {
        Some(Some(name)) => name_index(names, name) is None ==> after[k].new_id_interface is None,
        _ => true,
    } by {
        assert(target(after[k]) == target(messages[k]));
        assert(messages[k].new_id_interface is None);
    }
}

proof fn lemma_limited_waiting(
    ps: Seq<ProtocolV>,
    lines: Seq<Seq<char>>,
    allow_missing: bool,
    n: nat,
)
    requires
        waiting(ps),
        all_ok(ps),
        indexable(ps),
    ensures
        all_limited(ps, lines, allow_missing, n) matches Ok((qs, _)) ==> waiting(qs),
    decreases n,
{
    if n > 0 {
        lemma_limited_waiting(ps, lines, allow_missing, (n - 1) as nat);
        lemma_all_limited(ps, lines, allow_missing, (n - 1) as nat);
        if let Ok((before, _)) = all_limited(ps, lines, allow_missing, (n - 1) as nat) {
            if let Ok(Some((name, limit))) = limit_line(lines[n - 1]) {
                let found = globals_named(before, name, before.len());
                if found.len() == 1 {
                    lemma_globals(before, name, before.len());
                    assert(is_place(before, found[0]));
                    let after = with_limit(before, found[0], limit);
                    assert forall|p: int, k: int|
                        0 <= p < after.len() && 0 <= k < after[p].interfaces.len() implies {
                        let names = interface_names(after[p].interfaces);
                        let i = #[trigger] after[p].interfaces[k];
                        &&& messages_waiting(names, i.requests)
                        &&& messages_waiting(names, i.events)
                    } by {
                        let old = before[p].interfaces[k];
                        assert(interface_names(after[p].interfaces) =~= interface_names(
                            before[p].interfaces,
                        ));
                        assert(after[p].interfaces[k].requests == old.requests);
                        assert(after[p].interfaces[k].events == old.events);
                    }
                }
            }
        }
    }
}

proof fn lemma_activated_unlinked(names: Seq<Seq<char>>, messages: Seq<MessageV>, limit: u32)
    requires
        messages_waiting(names, messages),
    ensures
        messages_unlinked(names, messages),
        messages_unlinked(names, activated(messages, limit)),
{
    let after = activated(messages, limit);
    assert forall|k: int|
        0 <= k < after.len() && external(names, #[trigger] after[k]) is Some implies after[k].new_id_interface is None by {
        assert(target(after[k]) == target(messages[k]));
    }
}

proof fn lemma_reached_unlinked(ps: Seq<ProtocolV>)
    requires
        waiting(ps),
    ensures
        unlinked(reached(ps)),
{
    let qs = reached(ps);
    assert forall|p: int, k: int| 0 <= p < qs.len() && 0 <= k < qs[p].interfaces.len() implies {
        let names = interface_names(qs[p].interfaces);
        let i = #[trigger] qs[p].interfaces[k];
        &&& messages_unlinked(names, i.requests)
        &&& messages_unlinked(names, i.events)
    } by {
        let old = ps[p].interfaces[k];
        let names = interface_names(ps[p].interfaces);
        assert(interface_names(qs[p].interfaces) =~= names);
        assert(qs[p].interfaces[k] == reached_interface(ps[p], k));
        let limit = match reach(ps[p], k) {
            Some((_, limit)) => limit,
            None => 0,
        };
        lemma_activated_unlinked(names, old.requests, limit);
        lemma_activated_unlinked(names, old.events, limit);
    }
}

pub proof fn lemma_globals(ps: Seq<ProtocolV>, name: Seq<char>, n: nat)
    requires
        n <= ps.len(),
        indexable(ps),
    ensures
        forall|k: int|
            0 <= k < globals_named(ps, name, n).len() ==> is_place(
                ps,
                #[trigger] globals_named(ps, name, n)[k],
            ),
    decreases n,
{
    if n > 0 {
        lemma_globals(ps, name, (n - 1) as nat);
        lemma_index_in(ps[n - 1], name);
        assert(ps[n - 1].interfaces.len() <= usize::MAX);
        let before = globals_named(ps, name, (n - 1) as nat);
        assert forall|k: int| 0 <= k < globals_named(ps, name, n).len() implies is_place(
            ps,
            #[trigger] globals_named(ps, name, n)[k],
        ) by {
            if k < before.len() {
                assert(globals_named(ps, name, n)[k] == before[k]);
            }
        }
    }
}

proof fn lemma_with_limit(ps: Seq<ProtocolV>, id: InterfaceId, limit: u32)
    requires
        all_ok(ps),
        indexable(ps),
        is_place(ps, id),
    ensures
        all_ok(with_limit(ps, id, limit)),
        same_places(ps, with_limit(ps, id, limit)),
        indexable(with_limit(ps, id, limit)),
        forall|x: InterfaceId|
            #[trigger] limited_at(ps, x) ==> limited_at(with_limit(ps, id, limit), x),
{
    let qs = with_limit(ps, id, limit);
    assert(same_places(ps, qs));
    assert forall|p: int, k: int| 0 <= p < qs.len() && 0 <= k < qs[p].interfaces.len() implies
        #[trigger] interface_ok(qs, p, k) by {
        assert(interface_ok(ps, p, k));
        lemma_pointers(ps, qs, ps[p].interfaces[k].requests);
        lemma_pointers(ps, qs, ps[p].interfaces[k].events);
    }
}

pub proof fn lemma_pointers(ps: Seq<ProtocolV>, qs: Seq<ProtocolV>, messages: Seq<MessageV>)
    requires
        pointers_ok(ps, messages),
        same_places(ps, qs),
    ensures
        pointers_ok(qs, messages),
{
    assert forall|k: int| 0 <= k < messages.len() implies {
        let m = #[trigger] messages[k];
        &&& m.new_id_interface matches Some(id) ==> is_place(qs, id)
        &&& m.owner matches Some(id) ==> is_place(qs, id)
    } by {
        let m = messages[k];
        if let Some(id) = m.new_id_interface {
            assert(is_place(ps, id));
            assert(ps[id.protocol as int].interfaces.len() == qs[id.protocol as int].interfaces.len());
        }
        if let Some(id) = m.owner {
            assert(is_place(ps, id));
            assert(ps[id.protocol as int].interfaces.len() == qs[id.protocol as int].interfaces.len());
        }
    }
}

proof fn lemma_all_limited(
    ps: Seq<ProtocolV>,
    lines: Seq<Seq<char>>,
    allow_missing: bool,
    n: nat,
)
    requires
        all_ok(ps),
        indexable(ps),
    ensures
        all_limited(ps, lines, allow_missing, n) matches Ok((qs, _)) ==> {
            &&& all_ok(qs)
            &&& indexable(qs)
            &&& same_places(ps, qs)
            &&& forall|x: InterfaceId| #[trigger] limited_at(ps, x) ==> limited_at(qs, x)
        },
    decreases n,
{
    if n > 0 {
        lemma_all_limited(ps, lines, allow_missing, (n - 1) as nat);
        if let Ok((before, _)) = all_limited(ps, lines, allow_missing, (n - 1) as nat) {
            if let Ok(Some((name, limit))) = limit_line(lines[n - 1]) {
                lemma_globals(before, name, before.len());
                if limited(before, name, limit, allow_missing) is Ok {
                    let found = globals_named(before, name, before.len());
                    if found.len() == 1 {
                        assert(is_place(before, found[0]));
                        lemma_with_limit(before, found[0], limit);
                        let after = with_limit(before, found[0], limit);
                        assert forall|x: InterfaceId| #[trigger] limited_at(
                            ps,
                            x,
                        ) implies limited_at(after, x) by {
                            assert(limited_at(before, x));
                        }
                    }
                }
            }
        }
    }
}

proof fn lemma_activated(ps: Seq<ProtocolV>, qs: Seq<ProtocolV>, messages: Seq<MessageV>, limit: u32)
    requires
        pointers_ok(ps, messages),
        same_places(ps, qs),
    ensures
        pointers_ok(qs, activated(messages, limit)),
{
    lemma_pointers(ps, qs, messages);
    let after = activated(messages, limit);
    assert forall|k: int| 0 <= k < after.len() implies {
        let m = #[trigger] after[k];
        &&& m.new_id_interface matches Some(id) ==> is_place(qs, id)
        &&& m.owner matches Some(id) ==> is_place(qs, id)
    } by {
        assert(messages[k].new_id_interface == after[k].new_id_interface);
        assert(messages[k].owner == after[k].owner);
    }
}

proof fn lemma_reached(ps: Seq<ProtocolV>)
    requires
        all_ok(ps),
        indexable(ps),
    ensures
        all_ok(reached(ps)),
        indexable(reached(ps)),
        same_places(ps, reached(ps)),
        forall|x: InterfaceId| #[trigger] limited_at(ps, x) ==> limited_at(reached(ps), x),
        forall|x: InterfaceId| #[trigger] reached_at(ps, x) ==> limited_at(reached(ps), x),
        forall|x: InterfaceId| is_place(ps, x) ==> #[trigger] name_at(reached(ps), x) == name_at(ps, x),
{
    let qs = reached(ps);
    assert(same_places(ps, qs));
    assert forall|p: int, k: int| 0 <= p < qs.len() && 0 <= k < qs[p].interfaces.len() implies
        #[trigger] interface_ok(qs, p, k) by {
        assert(interface_ok(ps, p, k));
        let i = ps[p].interfaces[k];
        assert(qs[p].interfaces[k] == reached_interface(ps[p], k));
        match reach(ps[p], k) {
            None => {
                lemma_pointers(ps, qs, i.requests);
                lemma_pointers(ps, qs, i.events);
            },
            Some((_, limit)) => {
                lemma_activated(ps, qs, i.requests, limit);
                lemma_activated(ps, qs, i.events, limit);
            },
        }
    }
}

proof fn lemma_place_named(ps: Seq<ProtocolV>, ids: Seq<InterfaceId>, name: Seq<char>)
    ensures
        place_named(ps, ids, name) matches Some(id) ==> ids.contains(id),
{
    let names = Seq::new(ids.len(), |i: int| name_at(ps, ids[i]));
    lemma_name_index(names, name);
}

proof fn lemma_linked_messages(
    ps: Seq<ProtocolV>,
    qs: Seq<ProtocolV>,
    ids: Seq<InterfaceId>,
    names: Seq<Seq<char>>,
    messages: Seq<MessageV>,
)
    requires
        pointers_ok(ps, messages),
        same_places(ps, qs),
        forall|k: int| 0 <= k < ids.len() ==> is_place(ps, #[trigger] ids[k]),
    ensures
        pointers_ok(qs, linked_messages(ps, ids, names, messages)),
{
    lemma_pointers(ps, qs, messages);
    let after = linked_messages(ps, ids, names, messages);
    assert forall|k: int| 0 <= k < after.len() implies {
        let m = #[trigger] after[k];
        &&& m.new_id_interface matches Some(id) ==> is_place(qs, id)
        &&& m.owner matches Some(id) ==> is_place(qs, id)
    } by {
        assert(messages[k].owner == after[k].owner);
        match external(names, messages[k]) {
            Some(name) => {
                lemma_place_named(ps, ids, name);
                if let Some(id) = place_named(ps, ids, name) {
                    let j = choose|j: int| 0 <= j < ids.len() && ids[j] == id;
                    assert(is_place(ps, ids[j]));
                    assert(ps[id.protocol as int].interfaces.len()
                        == qs[id.protocol as int].interfaces.len());
                }
            },
            None => {
                assert(messages[k].new_id_interface == after[k].new_id_interface);
            },
        }
    }
}

proof fn lemma_linked(ps: Seq<ProtocolV>, ids: Seq<InterfaceId>)
    requires
        all_ok(ps),
        indexable(ps),
        forall|k: int| 0 <= k < ids.len() ==> is_place(ps, #[trigger] ids[k]),
    ensures
        linked(ps, ids) matches Ok(qs) ==> {
            &&& all_ok(qs)
            &&& same_places(ps, qs)
            &&& forall|x: InterfaceId| #[trigger] limited_at(ps, x) ==> limited_at(qs, x)
            &&& forall|x: InterfaceId|
                is_place(ps, x) ==> #[trigger] name_at(qs, x) == name_at(ps, x)
        },
{
    if let Ok(qs) = linked(ps, ids) {
        assert(same_places(ps, qs));
        assert forall|p: int, k: int|
            0 <= p < qs.len() && 0 <= k < qs[p].interfaces.len() implies #[trigger] interface_ok(
            qs,
            p,
            k,
        ) by {
            assert(interface_ok(ps, p, k));
            let names = interface_names(ps[p].interfaces);
            let i = ps[p].interfaces[k];
            assert(qs[p].interfaces[k] == linked_interface(ps, ids, names, i));
            lemma_linked_messages(ps, qs, ids, names, i.requests);
            lemma_linked_messages(ps, qs, ids, names, i.events);
        }
    }
}

/// Whether all that is pointed to is there, active interfaces and the display have limits, and no two
/// active interfaces have the same name.
pub open spec fn sound(ps: Seq<ProtocolV>, ids: Seq<InterfaceId>, display: InterfaceId) -> bool {
    &&& all_ok(ps)
    &&& limited_at(ps, display)
    &&& forall|k: int| 0 <= k < ids.len() ==> limited_at(ps, #[trigger] ids[k])
    &&& !has_conflict(ps, ids)
}

/// In what all steps come to, all that is pointed to is there, active interfaces and the display have
/// limits, and no two active interfaces have the same name.
pub proof fn law_outcome_is_sound(ps: Seq<ProtocolV>, lines: Seq<Seq<char>>, allow_missing: bool)
    requires
        indexable(ps),
        forall|p: int| 0 <= p < ps.len() ==> protocol_fresh(#[trigger] ps[p]),
    ensures
        outcome(ps, lines, allow_missing) matches Ok(o) ==> sound(o.protocols, o.ids, o.display),
{
    assert forall|p: int| 0 <= p < ps.len() implies prepared(#[trigger] ps[p]) by {
        assert(protocol_fresh(ps[p]));
    }
    lemma_based(ps, ps.len());
    if let Ok((base, Some(display))) = based(ps, ps.len()) {
        assert(indexable(base)) by {
            assert forall|p: int| 0 <= p < base.len() implies (#[trigger] base[p]).interfaces.len()
                <= usize::MAX by {
                assert(ps[p].interfaces.len() == base[p].interfaces.len());
            }
        }
        lemma_owned(base);
        let own = all_owned(base);
        assert(indexable(own)) by {
            assert forall|p: int| 0 <= p < own.len() implies (#[trigger] own[p]).interfaces.len()
                <= usize::MAX by {
                assert(base[p].interfaces.len() == own[p].interfaces.len());
            }
        }
        assert(limited_at(own, display));
        lemma_all_limited(own, lines, allow_missing, lines.len());
        if let Ok((with_limits, _)) = all_limited(own, lines, allow_missing, lines.len()) {
            assert(limited_at(with_limits, display));
            lemma_reached(with_limits);
            lemma_actives_of(with_limits, with_limits.len());
            if let Ok((with_reach, ids)) = propagated(with_limits) {
                assert forall|k: int| 0 <= k < ids.len() implies is_place(
                    with_reach,
                    #[trigger] ids[k],
                ) && limited_at(with_reach, ids[k]) by {
                    assert(reached_at(with_limits, ids[k]));
                }
                lemma_linked(with_reach, ids);
                if let Ok(protocols) = linked(with_reach, ids) {
                    assert(limited_at(with_reach, display));
                    assert(limited_at(protocols, display));
                    assert forall|k: int| 0 <= k < ids.len() implies limited_at(
                        protocols,
                        #[trigger] ids[k],
                    ) by {
                        assert(limited_at(with_reach, ids[k]));
                    }
                    if has_conflict(protocols, ids) {
                        let (i, j) = choose|i: int, j: int|
                            0 <= i < j < ids.len() && #[trigger] name_at(protocols, ids[i])
                                == #[trigger] name_at(protocols, ids[j]);
                        assert(reached_at(with_limits, ids[i]));
                        assert(reached_at(with_limits, ids[j]));
                        assert(name_at(with_reach, ids[i]) == name_at(with_limits, ids[i]));
                        assert(name_at(with_reach, ids[j]) == name_at(with_limits, ids[j]));
                        assert(name_at(with_limits, ids[i]) == name_at(with_limits, ids[j]));
                        assert(false);
                    }
                }
            }
        }
    }
}

fn prepare_base(protocols: Vec<Protocol>) -> (r: Result<
    (Vec<Protocol>, Option<InterfaceId>),
    PostparseError,
>)
    requires
        forall|p: int| 0 <= p < protocols@.len() ==> unprepared((#[trigger] protocols@[p])@),
    ensures
        match (r, based(protocols_view(protocols@), protocols@.len())) {
            (Ok((after, display)), Ok((ps, d))) => protocols_view(after@) == ps && display == d,
            (Err(e), Err(f)) => e == f,
            _ => false,
        },
{
    let ghost ps = protocols_view(protocols@);
    let n: usize = protocols.len();
    let mut work = protocols;
    let mut display: Option<InterfaceId> = None;
    let mut p: usize = 0;
    while p < n
        invariant
            p <= n,
            n == work@.len(),
            n == ps.len(),
            n == protocols@.len(),
            ps == protocols_view(protocols@),
            forall|q: int| 0 <= q < n ==> unprepared((#[trigger] protocols@[q])@),
            based(ps, p as nat) == Ok::<(Seq<ProtocolV>, Option<InterfaceId>), PostparseError>(
                (protocols_view(work@), display),
            ),
            forall|q: int| p <= q < n ==> (#[trigger] work@[q])@ == ps[q],
        decreases n - p,
    {
        let ghost before = protocols_view(work@);
        assert(work@[p as int]@ == ps[p as int]);
        assert(unprepared(protocols@[p as int]@));
        if str_eq(work[p].name.as_str(), "wayland") {
            if display.is_some() {
                proof {
                    lemma_based_error(ps, (p + 1) as nat, n as nat);
                }
                return Err(PostparseError::BaseSeenTwice);
            }
            match fixup_wayland_get_display(&mut work[p]) {
                Err(e) => {
                    proof {
                        lemma_based_error(ps, (p + 1) as nat, n as nat);
                    }
                    return Err(e);
                },
                Ok(index) => {
                    display = Some(InterfaceId { protocol: p, index });
                    assert(protocols_view(work@) =~= before.update(
                        p as int,
                        work@[p as int]@,
                    ));
                },
            }
        }
        p = p + 1;
    }
    Ok((work, display))
}

fn check_all_targets(protocols: &Vec<Protocol>) -> (r: bool)
    ensures
        r == all_targets_ok(protocols_view(protocols@)),
{
    let ghost ps = protocols_view(protocols@);
    let n: usize = protocols.len();
    for p in 0..n
        invariant
            n == protocols@.len(),
            ps == protocols_view(protocols@),
            forall|q: int| 0 <= q < p ==> protocol_targets_ok(#[trigger] ps[q]),
    {
        assert(ps[p as int] == protocols@[p as int]@);
        if !check_protocol_targets(&protocols[p]) {
            return false;
        }
    }
    true
}

fn own_all(protocols: Vec<Protocol>) -> (r: Result<Vec<Protocol>, PostparseError>)
    requires
        forall|p: int| 0 <= p < protocols@.len() ==> unowned((#[trigger] protocols@[p])@),
    ensures
        match r {
            Ok(after) => all_targets_ok(protocols_view(protocols@)) && all_parents_agree(
                protocols_view(protocols@),
            ) && protocols_view(after@) == all_owned(protocols_view(protocols@)),
            Err(e) => if all_targets_ok(protocols_view(protocols@)) {
                e == PostparseError::TwoParents && !all_parents_agree(protocols_view(protocols@))
            } else {
                e == PostparseError::BadNewId
            },
        },
{
    let ghost ps = protocols_view(protocols@);
    if !check_all_targets(&protocols) {
        return Err(PostparseError::BadNewId);
    }
    let n: usize = protocols.len();
    let mut work = protocols;
    let mut p: usize = 0;
    while p < n
        invariant
            p <= n,
            n == work@.len(),
            n == ps.len(),
            ps == protocols_view(protocols@),
            all_targets_ok(ps),
            n == protocols@.len(),
            forall|q: int| 0 <= q < n ==> unowned((#[trigger] protocols@[q])@),
            forall|q: int| 0 <= q < p ==> parents_agree(#[trigger] ps[q]),
            forall|q: int|
                0 <= q < p ==> (#[trigger] work@[q])@ == owned_protocol(ps[q], q as usize),
            forall|q: int| p <= q < n ==> (#[trigger] work@[q])@ == ps[q],
        decreases n - p,
    {
        assert(work@[p as int]@ == ps[p as int]);
        assert(unowned(protocols@[p as int]@));
        match set_owners(&mut work[p], p) {
            Err(e) => {
                return Err(e);
            },
            Ok(_) => {},
        }
        p = p + 1;
    }
    assert(protocols_view(work@) =~= all_owned(ps));
    Ok(work)
}

proof fn lemma_fresh_unprepared(p: ProtocolV)
    requires
        protocol_fresh(p),
    ensures
        unprepared(p),
{
    lemma_index_in(p, "wl_registry"@);
    lemma_index_in(p, "wl_display"@);
    lemma_index_in(p, "wl_callback"@);
}

/// From protocols as they were read, every step finds unset what it sets.
proof fn lemma_steps(ps: Seq<ProtocolV>, lines: Seq<Seq<char>>, allow_missing: bool)
    requires
        indexable(ps),
        forall|p: int| 0 <= p < ps.len() ==> protocol_fresh(#[trigger] ps[p]),
    ensures
        based(ps, ps.len()) matches Ok((base, _)) ==> {
            &&& forall|p: int| 0 <= p < base.len() ==> unowned(#[trigger] base[p])
            &&& all_limited(all_owned(base), lines, allow_missing, lines.len()) matches Ok(
                (limited, _),
            ) ==> not_reached(limited) && unlinked(reached(limited))
        },
{
    assert forall|p: int| 0 <= p < ps.len() implies prepared(#[trigger] ps[p]) by {
        assert(protocol_fresh(ps[p]));
    }
    lemma_based(ps, ps.len());
    if let Ok((base, _)) = based(ps, ps.len()) {
        assert forall|p: int| 0 <= p < base.len() implies unowned(#[trigger] base[p]) by {
            assert(prepared(base[p]));
        }
        assert(indexable(base)) by {
            assert forall|p: int| 0 <= p < base.len() implies (#[trigger] base[p]).interfaces.len()
                <= usize::MAX by {
                assert(ps[p].interfaces.len() == base[p].interfaces.len());
            }
        }
        let own = all_owned(base);
        lemma_owned(base);
        lemma_owned_waiting(base);
        assert(indexable(own)) by {
            assert forall|p: int| 0 <= p < own.len() implies (#[trigger] own[p]).interfaces.len()
                <= usize::MAX by {
                assert(base[p].interfaces.len() == own[p].interfaces.len());
            }
        }
        lemma_limited_waiting(own, lines, allow_missing, lines.len());
        lemma_quiet_before_reach(ps, lines, allow_missing);
        if let Ok((limited, _)) = all_limited(own, lines, allow_missing, lines.len()) {
            lemma_reached_unlinked(limited);
            assert forall|p: int, k: int|
                0 <= p < limited.len() && 0 <= k < limited[p].interfaces.len() implies (
            #[trigger] reach(limited[p], k) matches Some((_, limit)) ==> none_active(
                limited[p].interfaces[k].requests,
                limit,
            ) && none_active(limited[p].interfaces[k].events, limit)) by {
                assert(quiet_protocol(limited[p]));
                assert(quiet_messages(limited[p].interfaces[k].requests));
            }
        }
    }
}

/// Works out what the protocols and the lines of version limits come to: the active interfaces, and
/// which of the lines, counted from one, name an interface that is not there.
#[verifier::rlimit(30)]
pub fn active_interfaces(protocols: Vec<Protocol>, lines: &Vec<String>, allow_missing: bool) -> (r:
    Result<(ActiveInterfaces, Vec<usize>), PostparseError>)
    requires
        forall|p: int| 0 <= p < protocols@.len() ==> protocol_fresh((#[trigger] protocols@[p])@),
    ensures
        match (r, outcome(protocols_view(protocols@), str_views(lines@), allow_missing)) {
            (Ok((actives, skipped)), Ok(o)) => {
                &&& protocols_view(actives.protocols@) == o.protocols
                &&& actives.map@ == o.ids
                &&& actives.display == o.display
                &&& skipped@ == o.skipped
                &&& sound(o.protocols, o.ids, o.display)
                &&& actives.wf()
                &&& actives.linked()
            },
            (Err(e), Err(f)) => e == f,
            _ => false,
        },
{
    let ghost ps = protocols_view(protocols@);
    let ghost texts = str_views(lines@);
    let _ = protocols.len();
    proof {
        assert forall|p: int| 0 <= p < ps.len() implies (#[trigger] ps[p]).interfaces.len()
            <= usize::MAX && protocol_fresh(ps[p]) by {
            assert(ps[p] == protocols@[p]@);
            assert(protocols@[p].interfaces.len() == protocols@[p].interfaces@.len());
        }
        law_outcome_is_sound(ps, texts, allow_missing);
        lemma_steps(ps, texts, allow_missing);
        assert forall|p: int| 0 <= p < protocols@.len() implies unprepared(
            (#[trigger] protocols@[p])@,
        ) by {
            assert(ps[p] == protocols@[p]@);
            lemma_fresh_unprepared(ps[p]);
        }
    }
    let (base, display): (Vec<Protocol>, InterfaceId) = match prepare_base(protocols) {
        Err(e) => {
            return Err(e);
        },
        Ok((_, None)) => {
            return Err(PostparseError::MissingBase);
        },
        Ok((base, Some(display))) => (base, display),
    };
    proof {
        assert forall|p: int| 0 <= p < base@.len() implies unowned((#[trigger] base@[p])@) by {
            assert(protocols_view(base@)[p] == base@[p]@);
        }
    }
    let own: Vec<Protocol> = match own_all(base) {
        Err(e) => {
            return Err(e);
        },
        Ok(own) => own,
    };
    let (with_limits, skipped): (Vec<Protocol>, Vec<usize>) = match get_globals_limits(
        own,
        lines,
        allow_missing,
    ) {
        Err(e) => {
            return Err(e);
        },
        Ok(found) => found,
    };
    let ghost lps = protocols_view(with_limits@);
    let _ = with_limits.len();
    proof {
        assert forall|p: int| 0 <= p < lps.len() implies (#[trigger] lps[p]).interfaces.len()
            <= usize::MAX by {
            assert(lps[p] == with_limits@[p]@);
            assert(with_limits@[p].interfaces.len() == with_limits@[p].interfaces@.len());
        }
        lemma_actives_of(lps, lps.len());
    }
    let (with_reach, map): (Vec<Protocol>, Vec<InterfaceId>) = match propagate_limits_find_actives(
        with_limits,
    ) {
        Err(e) => {
            return Err(e);
        },
        Ok(found) => found,
    };
    proof {
        let rps = protocols_view(with_reach@);
        assert forall|k: int| 0 <= k < map@.len() implies (#[trigger] map@[k]).protocol
            < with_reach@.len() && map@[k].index < with_reach@[map@[k].protocol as int].interfaces@.len() by {
            let p = map@[k].protocol as int;
            assert(reached_at(lps, map@[k]));
            assert(rps == reached(lps));
            assert(rps.len() == lps.len());
            assert(rps[p] == reached_protocol(lps[p]));
            assert(rps[p].interfaces.len() == lps[p].interfaces.len());
            assert(rps[p] == with_reach@[p]@);
            assert(with_reach@[p]@.interfaces.len() == with_reach@[p].interfaces@.len());
        }
    }
    let protocols: Vec<Protocol> = match link_externals(with_reach, &map) {
        Err(e) => {
            return Err(e);
        },
        Ok(protocols) => protocols,
    };
    let actives = ActiveInterfacesA { protocols, map, display };
    proof {
        lemma_actives_wf(actives);
    }
    Ok((actives, skipped))
}

/// The views of active interfaces tell whether they are in order.
pub proof fn lemma_actives_wf(a: ActiveInterfacesA)
    requires
        sound(protocols_view(a.protocols@), a.map@, a.display),
    ensures
        a.wf(),
        a.linked(),
{
    let ps = protocols_view(a.protocols@);
    assert forall|p: int, i: int|
        0 <= p < a.protocols@.len() && 0 <= i < a.protocols@[p].interfaces@.len() implies
        #[trigger] a.protocols@[p].interfaces@[i].place == Some(
        InterfaceId { protocol: p as usize, index: i as usize },
    ) by {
        assert(ps[p].interfaces[i] == a.protocols@[p].interfaces@[i]@);
        assert(interface_ok(ps, p, i));
    }
    assert forall|id: InterfaceId| #[trigger] limited_at(ps, id) implies a.place_ok(id) by {
        assert(ps[id.protocol as int] == a.protocols@[id.protocol as int]@);
        assert(ps[id.protocol as int].interfaces[id.index as int]
            == a.protocols@[id.protocol as int].interfaces@[id.index as int]@);
        assert(interface_ok(ps, id.protocol as int, id.index as int));
    }
    assert forall|i: int, j: int| 0 <= i < j < a.map@.len() implies at(
        a.protocols@,
        #[trigger] a.map@[i],
    ).name@ != at(a.protocols@, #[trigger] a.map@[j]).name@ by {
        assert(limited_at(ps, a.map@[i]));
        assert(limited_at(ps, a.map@[j]));
        assert(name_at(ps, a.map@[i]) == at(a.protocols@, a.map@[i]).name@);
        assert(name_at(ps, a.map@[j]) == at(a.protocols@, a.map@[j]).name@);
    }
    assert forall|k: int| 0 <= k < a.map@.len() implies interface_linked(
        a.protocols@,
        a.get(#[trigger] a.map@[k]),
    ) by {
        let id = a.map@[k];
        assert(limited_at(ps, id));
        let p = id.protocol as int;
        let i = a.get(id);
        assert(ps[p] == a.protocols@[p]@);
        assert(ps[p].interfaces[id.index as int] == i@);
        assert(interface_ok(ps, p, id.index as int));
        assert forall|m: int| 0 <= m < i.requests@.len() implies message_linked(
            a.protocols@,
            #[trigger] i.requests@[m],
        ) by {
            assert(i@.requests[m] == i.requests@[m]@);
        }
        assert forall|m: int| 0 <= m < i.events@.len() implies message_linked(
            a.protocols@,
            #[trigger] i.events@[m],
        ) by {
            assert(i@.events[m] == i.events@[m]@);
        }
    }
}

} // verus!
