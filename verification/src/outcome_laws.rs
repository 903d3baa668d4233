//! When protocols and limits fit together.

use crate::limit_laws::{
    has_lineage, is_lineage, law_global_ancestor_is_near, lemma_has_lineage, lemma_in_ids,
    lemma_lineage, lemma_new_ids, lemma_target,
};
use crate::limits::{
    actives_in, actives_of, all_limited, global_ancestor, has_clash, has_conflict, has_cycle,
    lemma_actives_of, name_at, propagated, reach, reached_at,
};
use crate::link_laws::{is_new_object, messages_in};
use crate::linkup::{
    all_owned, all_parents_agree, all_targets_ok, based, external, externals_ok, indexable,
    is_place, linked, outcome, place_named, protocol_externals_ok,
};
use crate::postparse::{
    expected, fixed_up, index_in, new_ids, protocol_targets_ok, target, targets_ok,
};
use crate::protocol::{
    interface_names, lemma_name_index, lemma_name_index_is, name_index, names_distinct, ArgV,
    InterfaceId, MessageV, ProtocolV, SpecialMessage,
};
use vstd::prelude::*;

verus! {

/// Whether a protocol has an interface with a name at a place.
pub open spec fn is_interface(p: ProtocolV, x: int, name: Seq<char>) -> bool {
    0 <= x < p.interfaces.len() && p.interfaces[x].name == name
}

/// Whether a protocol has an interface with a name, and in it a message with a name, of a kind and
/// with a number.
pub open spec fn has_message(
    p: ProtocolV,
    interface: Seq<char>,
    is_request: bool,
    m: int,
    name: Seq<char>,
) -> bool {
    exists|x: int|
        #[trigger] is_interface(p, x, interface) && m < messages_in(
            p.interfaces[x],
            is_request,
        ).len() && messages_in(p.interfaces[x], is_request)[m].name == name
}

proof fn lemma_index_in(p: ProtocolV, name: Seq<char>)
    requires
        names_distinct(p),
    ensures
        forall|x: int| #[trigger] is_interface(p, x, name) ==> index_in(p, name) == Some(x),
        index_in(p, name) matches Some(x) ==> is_interface(p, x, name),
{
    let names = interface_names(p.interfaces);
    lemma_name_index(names, name);
    if let Some(x) = index_in(p, name) {
        assert(names[x] == p.interfaces[x].name);
    }
    assert forall|x: int| #[trigger] is_interface(p, x, name) implies index_in(p, name) == Some(x) by {
        assert(names[x] == name);
        assert forall|j: int| 0 <= j < x implies names[j] != name by {
            assert(p.interfaces[j].name != p.interfaces[x].name);
        }
        lemma_name_index_is(names, name, x);
    }
}

proof fn lemma_expected(p: ProtocolV, interface: Seq<char>, is_request: bool, m: int, name: Seq<char>)
    requires
        names_distinct(p),
        0 <= m,
    ensures
        expected(p, interface, is_request, m, name) is Ok <==> has_message(
            p,
            interface,
            is_request,
            m,
            name,
        ),
{
    lemma_index_in(p, interface);
    if has_message(p, interface, is_request, m, name) {
        let x = choose|x: int|
            #[trigger] is_interface(p, x, interface) && m < messages_in(
                p.interfaces[x],
                is_request,
            ).len() && messages_in(p.interfaces[x], is_request)[m].name == name;
        assert(index_in(p, interface) == Some(x));
    }
    if expected(p, interface, is_request, m, name) is Ok {
        let x = index_in(p, interface)->0;
        assert(is_interface(p, x, interface));
    }
}

/// The base protocol can be used exactly if it has what a session cannot do without: the requests to
/// bind and to sync, the events that announce a global and that delete an id, and callbacks.
pub proof fn law_what_the_base_needs(p: ProtocolV)
    requires
        names_distinct(p),
    ensures
        fixed_up(p) is Ok <==> {
            &&& has_message(p, "wl_registry"@, true, 0, "bind"@)
            &&& has_message(p, "wl_registry"@, false, 0, "global"@)
            &&& has_message(p, "wl_display"@, true, 0, "sync"@)
            &&& has_message(p, "wl_display"@, false, 1, "delete_id"@)
            &&& exists|x: int| is_interface(p, x, "wl_callback"@)
        },
{
    lemma_expected(p, "wl_registry"@, true, 0, "bind"@);
    lemma_expected(p, "wl_registry"@, false, 0, "global"@);
    lemma_expected(p, "wl_display"@, true, 0, "sync"@);
    lemma_expected(p, "wl_display"@, false, 1, "delete_id"@);
    lemma_index_in(p, "wl_callback"@);
    if exists|x: int| is_interface(p, x, "wl_callback"@) {
        let x = choose|x: int| is_interface(p, x, "wl_callback"@);
        assert(index_in(p, "wl_callback"@) == Some(x));
    }
    if index_in(p, "wl_callback"@) is Some {
        assert(is_interface(p, index_in(p, "wl_callback"@)->0, "wl_callback"@));
    }
}

/// Whether two different arguments are new objects.
pub open spec fn both_new(args: Seq<ArgV>, i: int, j: int) -> bool {
    0 <= i < j < args.len() && args[i].typ is NewId && args[j].typ is NewId
}

proof fn lemma_count_new(args: Seq<ArgV>)
    ensures
        new_ids(args).len() > 0 <==> exists|i: int|
            0 <= i < args.len() && (#[trigger] args[i]).typ is NewId,
        new_ids(args).len() > 1 <==> exists|i: int, j: int| both_new(args, i, j),
    decreases args.len(),
{
    if args.len() > 0 {
        let front = args.drop_last();
        let last = args.len() - 1;
        lemma_count_new(front);
        if exists|i: int| 0 <= i < front.len() && (#[trigger] front[i]).typ is NewId {
            let i = choose|i: int| 0 <= i < front.len() && (#[trigger] front[i]).typ is NewId;
            assert(args[i].typ is NewId);
            if args[last].typ is NewId {
                assert(both_new(args, i, last));
            }
        }
        if exists|i: int, j: int| both_new(front, i, j) {
            let (i, j) = choose|i: int, j: int| both_new(front, i, j);
            assert(both_new(args, i, j));
        }
        if exists|i: int| 0 <= i < args.len() && (#[trigger] args[i]).typ is NewId {
            let i = choose|i: int| 0 <= i < args.len() && (#[trigger] args[i]).typ is NewId;
            if i < last {
                assert(front[i].typ is NewId);
            }
        }
        if exists|i: int, j: int| both_new(args, i, j) {
            let (i, j) = choose|i: int, j: int| both_new(args, i, j);
            assert(front[i].typ is NewId);
            if j < last {
                assert(both_new(front, i, j));
            }
        }
    }
}

/// A message creates one object at most, and says of which interface. Only the request to bind
/// leaves that open, for the argument `id`.
pub proof fn law_what_messages_may_create(m: MessageV)
    ensures
        target(m) is Some <==> {
            &&& forall|i: int, j: int| !both_new(m.args, i, j)
            &&& forall|i: int|
                0 <= i < m.args.len() && (#[trigger] m.args[i]).typ is NewId
                    && m.args[i].interface_name is None ==> m.special == Some(
                    SpecialMessage::WlRegistryBind,
                ) && m.args[i].name == "id"@
        },
{
    lemma_count_new(m.args);
    lemma_new_ids(m.args);
    let ids = new_ids(m.args);
    if ids.len() == 1 {
        assert(m.args.contains(ids[0]));
        let x = choose|x: int| 0 <= x < m.args.len() && m.args[x] == ids[0];
        assert(m.args[x].typ is NewId);
        assert forall|i: int| 0 <= i < m.args.len() && (#[trigger] m.args[i]).typ is NewId implies i
            == x by {
            if i < x {
                assert(both_new(m.args, i, x));
            } else if x < i {
                assert(both_new(m.args, x, i));
            }
        }
    }
}

/// Whether the limits reach an interface: its protocol takes part, and it descends from a global that
/// has a limit.
pub open spec fn is_reached(ps: Seq<ProtocolV>, id: InterfaceId) -> bool {
    &&& id.protocol < ps.len()
    &&& id.index < ps[id.protocol as int].interfaces.len()
    &&& ps[id.protocol as int].active
    &&& exists|line: Seq<int>|
        #[trigger] is_lineage(ps[id.protocol as int], line) && line[0] == id.index
            && ps[id.protocol as int].interfaces[line.last()].limited_version is Some
}

proof fn lemma_reached(ps: Seq<ProtocolV>, id: InterfaceId)
    requires
        indexable(ps),
        is_place(ps, id),
    ensures
        is_reached(ps, id) <==> reach(ps[id.protocol as int], id.index as int) is Some,
        has_lineage(ps[id.protocol as int], id.index as int) <==> global_ancestor(
            ps[id.protocol as int],
            id.index as int,
        ) is Some,
        reach(ps[id.protocol as int], id.index as int) matches Some((is_global, _)) ==> is_global
            == (ps[id.protocol as int].interfaces[id.index as int].parent is None),
{
    let p = ps[id.protocol as int];
    let k = id.index as int;
    assert(p.interfaces.len() <= usize::MAX);
    if is_reached(ps, id) {
        let line = choose|line: Seq<int>|
            #[trigger] is_lineage(p, line) && line[0] == k && p.interfaces[line.last()].limited_version is Some;
        lemma_lineage(p, line);
        law_global_ancestor_is_near(p, k, (line.len() - 1) as nat);
    }
    if has_lineage(p, k) {
        let line = choose|line: Seq<int>| #[trigger] is_lineage(p, line) && line[0] == k;
        lemma_lineage(p, line);
        law_global_ancestor_is_near(p, k, (line.len() - 1) as nat);
    }
    if global_ancestor(p, k) is Some {
        let line = lemma_has_lineage(p, k, p.interfaces.len());
        assert(is_lineage(p, line) && line[0] == k);
        lemma_lineage(p, line);
        law_global_ancestor_is_near(p, k, (line.len() - 1) as nat);
        let g = global_ancestor(p, k)->0;
        assert(g == line.last());
        assert(g == k ==> p.interfaces[k].parent is None);
        if p.interfaces[k].parent is None {
            assert(line.len() == 1) by {
                if line.len() > 1 {
                    assert(p.interfaces[line[0]].parent == Some(line[1] as usize));
                }
            }
        }
    }
}

proof fn lemma_actives_in_apart(p: ProtocolV, protocol: usize, n: nat)
    requires
        n <= p.interfaces.len() <= usize::MAX,
    ensures
        forall|i: int|
            0 <= i < actives_in(p, protocol, n).len() ==> (#[trigger] actives_in(
                p,
                protocol,
                n,
            )[i]).index < n && actives_in(p, protocol, n)[i].protocol == protocol,
        forall|i: int, j: int|
            0 <= i < j < actives_in(p, protocol, n).len() ==> (#[trigger] actives_in(
                p,
                protocol,
                n,
            )[i]) != (#[trigger] actives_in(p, protocol, n)[j]),
    decreases n,
{
    if n > 0 {
        lemma_actives_in_apart(p, protocol, (n - 1) as nat);
        let before = actives_in(p, protocol, (n - 1) as nat);
        let all = actives_in(p, protocol, n);
        assert forall|i: int| 0 <= i < before.len() implies all[i] == before[i] by {}
    }
}

proof fn lemma_actives_apart(ps: Seq<ProtocolV>, n: nat)
    requires
        n <= ps.len(),
        indexable(ps),
    ensures
        forall|i: int, j: int|
            0 <= i < j < actives_of(ps, n).len() ==> (#[trigger] actives_of(ps, n)[i]) != (
            #[trigger] actives_of(ps, n)[j]),
        forall|i: int|
            0 <= i < actives_of(ps, n).len() ==> (#[trigger] actives_of(ps, n)[i]).protocol < n,
    decreases n,
{
    if n > 0 {
        lemma_actives_apart(ps, (n - 1) as nat);
        let p = ps[n - 1];
        assert(p.interfaces.len() <= usize::MAX);
        lemma_actives_in_apart(p, (n - 1) as usize, p.interfaces.len());
        let front = actives_of(ps, (n - 1) as nat);
        let back = actives_in(p, (n - 1) as usize, p.interfaces.len());
        let all = actives_of(ps, n);
        assert forall|i: int| 0 <= i < all.len() implies if i < front.len() {
            #[trigger] all[i] == front[i]
        } else {
            all[i] == back[i - front.len()]
        } by {}
    }
}

/// The limits can reach the interfaces exactly if in a protocol that takes part no interface is its own
/// ancestor, no two interfaces that they reach have the same name, and none but globals has a limit
/// before.
pub proof fn law_when_limits_can_reach(ps: Seq<ProtocolV>)
    requires
        indexable(ps),
    ensures
        propagated(ps) is Ok <==> {
            &&& forall|p: int, k: int|
                0 <= p < ps.len() && ps[p].active && 0 <= k < ps[p].interfaces.len()
                    ==> #[trigger] has_lineage(ps[p], k)
            &&& forall|a: InterfaceId, b: InterfaceId|
                #[trigger] is_reached(ps, a) && #[trigger] is_reached(ps, b) && a != b ==> name_at(
                    ps,
                    a,
                ) != name_at(ps, b)
            &&& forall|a: InterfaceId|
                #[trigger] is_reached(ps, a)
                    && ps[a.protocol as int].interfaces[a.index as int].parent is Some
                    ==> ps[a.protocol as int].interfaces[a.index as int].limited_version is None
        },
        propagated(ps) matches Ok((_, ids)) ==> forall|id: InterfaceId|
            ids.contains(id) <==> #[trigger] is_reached(ps, id),
{
    let ids = actives_of(ps, ps.len());
    lemma_actives_of(ps, ps.len());
    lemma_actives_apart(ps, ps.len());
    assert forall|id: InterfaceId| ids.contains(id) <==> #[trigger] is_reached(ps, id) by {
        if ids.contains(id) {
            let i = choose|i: int| 0 <= i < ids.len() && ids[i] == id;
            assert(reached_at(ps, ids[i]));
            lemma_reached(ps, id);
        }
        if is_reached(ps, id) {
            lemma_reached(ps, id);
            lemma_in_ids(ps, id);
        }
    }
    if has_cycle(ps) {
        let (p, k) = choose|p: int, k: int|
            0 <= p < ps.len() && 0 <= k < ps[p].interfaces.len() && ps[p].active
                && #[trigger] global_ancestor(ps[p], k) is None;
        assert(ps[p].interfaces.len() <= usize::MAX);
        lemma_reached(ps, InterfaceId { protocol: p as usize, index: k as usize });
        assert(!has_lineage(ps[p], k));
    } else {
        assert forall|p: int, k: int|
            0 <= p < ps.len() && ps[p].active && 0 <= k < ps[p].interfaces.len() implies #[trigger] has_lineage(
            ps[p],
            k,
        ) by {
            assert(ps[p].interfaces.len() <= usize::MAX);
            assert(global_ancestor(ps[p], k) is Some);
            lemma_reached(ps, InterfaceId { protocol: p as usize, index: k as usize });
        }
    }
    if has_conflict(ps, ids) {
        let (i, j) = choose|i: int, j: int|
            0 <= i < j < ids.len() && #[trigger] name_at(ps, ids[i]) == #[trigger] name_at(
                ps,
                ids[j],
            );
        assert(is_reached(ps, ids[i]) && is_reached(ps, ids[j]) && ids[i] != ids[j]);
    } else {
        assert forall|a: InterfaceId, b: InterfaceId|
            #[trigger] is_reached(ps, a) && #[trigger] is_reached(ps, b) && a != b implies name_at(
            ps,
            a,
        ) != name_at(ps, b) by {
            let i = choose|i: int| 0 <= i < ids.len() && ids[i] == a;
            let j = choose|j: int| 0 <= j < ids.len() && ids[j] == b;
            if i < j {
                assert(name_at(ps, ids[i]) != name_at(ps, ids[j]));
            } else {
                assert(name_at(ps, ids[j]) != name_at(ps, ids[i]));
            }
        }
    }
    if has_clash(ps) {
        let (p, k) = choose|p: int, k: int|
            0 <= p < ps.len() && 0 <= k < ps[p].interfaces.len() && (#[trigger] reach(
                ps[p],
                k,
            ) matches Some((is_global, _)) && !is_global)
                && ps[p].interfaces[k].limited_version is Some;
        assert(ps[p].interfaces.len() <= usize::MAX);
        let id = InterfaceId { protocol: p as usize, index: k as usize };
        lemma_reached(ps, id);
        assert(is_reached(ps, id));
    } else {
        assert forall|a: InterfaceId|
            #[trigger] is_reached(ps, a)
                && ps[a.protocol as int].interfaces[a.index as int].parent is Some implies ps[a.protocol as int].interfaces[a.index as int].limited_version is None by {
            lemma_reached(ps, a);
            let r = reach(ps[a.protocol as int], a.index as int);
        }
    }
}

/// Whether an active message creates an object of an interface with a name that is in another
/// protocol.
pub open spec fn needs_other(
    ps: Seq<ProtocolV>,
    p: int,
    k: int,
    is_request: bool,
    m: int,
    name: Seq<char>,
) -> bool {
    &&& 0 <= p < ps.len()
    &&& 0 <= k < ps[p].interfaces.len()
    &&& 0 <= m < messages_in(ps[p].interfaces[k], is_request).len()
    &&& messages_in(ps[p].interfaces[k], is_request)[m].active
    &&& exists|j: int|
        #[trigger] is_new_object(messages_in(ps[p].interfaces[k], is_request)[m], j, name)
    &&& forall|x: int| !is_interface(ps[p], x, name)
}

proof fn lemma_needs_other(
    ps: Seq<ProtocolV>,
    p: int,
    k: int,
    is_request: bool,
    m: int,
    name: Seq<char>,
)
    requires
        0 <= p < ps.len(),
        0 <= k < ps[p].interfaces.len(),
        0 <= m < messages_in(ps[p].interfaces[k], is_request).len(),
        target(messages_in(ps[p].interfaces[k], is_request)[m]) is Some,
    ensures
        needs_other(ps, p, k, is_request, m, name) <==> external(
            interface_names(ps[p].interfaces),
            messages_in(ps[p].interfaces[k], is_request)[m],
        ) == Some(name),
{
    let message = messages_in(ps[p].interfaces[k], is_request)[m];
    let names = interface_names(ps[p].interfaces);
    lemma_name_index(names, name);
    lemma_target(message, name);
    if needs_other(ps, p, k, is_request, m, name) {
        let j = choose|j: int| is_new_object(message, j, name);
        assert(message.args[j].typ is NewId);
        if let Some(x) = name_index(names, name) {
            assert(names[x] == ps[p].interfaces[x].name);
            assert(is_interface(ps[p], x, name));
        }
    }
    if external(names, message) == Some(name) {
        let j = choose|j: int|
            0 <= j < message.args.len() && (#[trigger] message.args[j]).typ is NewId
                && message.args[j].interface_name == Some(name);
        assert(is_new_object(message, j, name));
        assert forall|x: int| !is_interface(ps[p], x, name) by {
            if is_interface(ps[p], x, name) {
                assert(names[x] == name);
            }
        }
    }
}

/// Whether one of the interfaces at some places has a name.
pub open spec fn is_among(ps: Seq<ProtocolV>, ids: Seq<InterfaceId>, name: Seq<char>) -> bool {
    exists|x: int| 0 <= x < ids.len() && name_at(ps, #[trigger] ids[x]) == name
}

/// Protocols can be linked exactly if every interface that an active message needs from another
/// protocol is active.
pub proof fn law_when_protocols_can_be_linked(ps: Seq<ProtocolV>, ids: Seq<InterfaceId>)
    requires
        all_targets_ok(ps),
    ensures
        linked(ps, ids) is Ok <==> (forall|p: int, k: int, is_request: bool, m: int, name: Seq<char>|
            #[trigger] needs_other(ps, p, k, is_request, m, name) ==> is_among(ps, ids, name)),
{
    assert forall|name: Seq<char>|
        (#[trigger] place_named(ps, ids, name)) is Some <==> is_among(ps, ids, name) by {
        let names = Seq::new(ids.len(), |i: int| name_at(ps, ids[i]));
        lemma_name_index(names, name);
        if let Some(x) = name_index(names, name) {
            assert(names[x] == name_at(ps, ids[x]));
        }
        if is_among(ps, ids, name) {
            let x = choose|x: int| 0 <= x < ids.len() && name_at(ps, #[trigger] ids[x]) == name;
            assert(names[x] == name);
        }
    }
    if linked(ps, ids) is Ok {
        assert forall|p: int, k: int, is_request: bool, m: int, name: Seq<char>|
            #[trigger] needs_other(ps, p, k, is_request, m, name) implies is_among(
            ps,
            ids,
            name,
        ) by {
            assert(protocol_targets_ok(ps[p]));
            let i = ps[p].interfaces[k];
            assert(targets_ok(i.requests) && targets_ok(i.events));
            lemma_needs_other(ps, p, k, is_request, m, name);
            assert(protocol_externals_ok(ps, ids, ps[p]));
            assert(externals_ok(ps, ids, interface_names(ps[p].interfaces), i.requests));
            assert(place_named(ps, ids, name) is Some);
        }
    }
    if forall|p: int, k: int, is_request: bool, m: int, name: Seq<char>|
        #[trigger] needs_other(ps, p, k, is_request, m, name) ==> is_among(ps, ids, name) {
        assert forall|p: int| 0 <= p < ps.len() implies protocol_externals_ok(
            ps,
            ids,
            #[trigger] ps[p],
        ) by {
            let names = interface_names(ps[p].interfaces);
            assert(protocol_targets_ok(ps[p]));
            assert forall|k: int| 0 <= k < ps[p].interfaces.len() implies externals_ok(
                ps,
                ids,
                names,
                (#[trigger] ps[p].interfaces[k]).requests,
            ) && externals_ok(ps, ids, names, ps[p].interfaces[k].events) by {
                let i = ps[p].interfaces[k];
                assert(targets_ok(i.requests) && targets_ok(i.events));
                assert forall|m: int| 0 <= m < i.requests.len() implies (external(
                    names,
                    #[trigger] i.requests[m],
                ) matches Some(name) ==> place_named(ps, ids, name) is Some) by {
                    if let Some(name) = external(names, i.requests[m]) {
                        assert(messages_in(i, true)[m] == i.requests[m]);
                        lemma_needs_other(ps, p, k, true, m, name);
                        assert(is_among(ps, ids, name));
                    }
                }
                assert forall|m: int| 0 <= m < i.events.len() implies (external(
                    names,
                    #[trigger] i.events[m],
                ) matches Some(name) ==> place_named(ps, ids, name) is Some) by {
                    if let Some(name) = external(names, i.events[m]) {
                        assert(messages_in(i, false)[m] == i.events[m]);
                        lemma_needs_other(ps, p, k, false, m, name);
                        assert(is_among(ps, ids, name));
                    }
                }
            }
        }
    }
}

/// Protocols and limits come to something exactly if each step does: there is one base protocol, and
/// it can be used, messages create what they may, no interface has two parents, the lines of the limits
/// can be taken, the limits can reach the interfaces, and the protocols can be linked.
pub proof fn law_when_there_is_an_outcome(
    ps: Seq<ProtocolV>,
    lines: Seq<Seq<char>>,
    allow_missing: bool,
)
    ensures
        outcome(ps, lines, allow_missing) is Ok <==> {
            let (base, display) = based(ps, ps.len())->Ok_0;
            let taken = all_limited(all_owned(base), lines, allow_missing, lines.len());
            let reached = propagated(taken->Ok_0.0);
            &&& based(ps, ps.len()) is Ok
            &&& display is Some
            &&& all_targets_ok(base)
            &&& all_parents_agree(base)
            &&& taken is Ok
            &&& reached is Ok
            &&& linked(reached->Ok_0.0, reached->Ok_0.1) is Ok
        },
{
}

} // verus!
