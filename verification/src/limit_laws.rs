//! What holds of version limits.

use crate::limits::{
    actives_in, actives_of, all_limited, ancestor, global_ancestor, globals_named, limited,
    propagated, reach, reached, reached_at, reached_interface, smaller, with_limit,
};
use crate::linkup::{
    all_owned, based, indexable, is_place, lemma_globals, linked, linked_messages, outcome,
    same_places,
};
use crate::postparse::{
    creates, expected, fixed_up, lemma_first_maker, limit_line, makes, marked, new_ids, one_parent,
    owned_protocol, parents_agree, protocol_targets_ok, target, targets_ok, unprepared, LimitError,
};
use crate::protocol::{
    interface_names, lemma_name_index, lemma_name_index_is, names_distinct, protocol_fresh, ArgV,
    InterfaceId, InterfaceV, MessageV, ProtocolV, SpecialMessage,
};
use vstd::prelude::*;
use vstd::set_lib::{lemma_int_range, lemma_len_subset, set_int_range};

verus! {

/// Whether no message is active.
pub open spec fn quiet_messages(messages: Seq<MessageV>) -> bool {
    forall|k: int| 0 <= k < messages.len() ==> !(#[trigger] messages[k]).active
}

/// Whether no message of a protocol is active.
pub open spec fn quiet_protocol(p: ProtocolV) -> bool {
    forall|k: int|
        0 <= k < p.interfaces.len() ==> quiet_messages((#[trigger] p.interfaces[k]).requests)
            && quiet_messages(p.interfaces[k].events)
}

/// Whether no message is active.
pub open spec fn quiet(ps: Seq<ProtocolV>) -> bool {
    forall|p: int| 0 <= p < ps.len() ==> quiet_protocol(#[trigger] ps[p])
}

proof fn lemma_quiet_marked(p: ProtocolV, i: int, is_request: bool, k: int, special: SpecialMessage)
    requires
        quiet_protocol(p),
        0 <= i < p.interfaces.len(),
        0 <= k < (if is_request {
            p.interfaces[i].requests.len()
        } else {
            p.interfaces[i].events.len()
        }),
    ensures
        quiet_protocol(marked(p, i, is_request, k, special)),
        marked(p, i, is_request, k, special).interfaces.len() == p.interfaces.len(),
        forall|j: int|
            0 <= j < p.interfaces.len() ==> (#[trigger] marked(
                p,
                i,
                is_request,
                k,
                special,
            ).interfaces[j]).requests.len() == p.interfaces[j].requests.len() && marked(
                p,
                i,
                is_request,
                k,
                special,
            ).interfaces[j].events.len() == p.interfaces[j].events.len(),
{
    let q = marked(p, i, is_request, k, special);
    assert forall|j: int| 0 <= j < q.interfaces.len() implies quiet_messages(
        (#[trigger] q.interfaces[j]).requests,
    ) && quiet_messages(q.interfaces[j].events) by {
        let old = p.interfaces[j];
        let x = q.interfaces[j];
        assert forall|m: int| 0 <= m < x.requests.len() implies !(
        #[trigger] x.requests[m]).active by {
            assert(!old.requests[m].active);
        }
        assert forall|m: int| 0 <= m < x.events.len() implies !(#[trigger] x.events[m]).active by {
            assert(!old.events[m].active);
        }
    }
}

proof fn lemma_quiet_fixed_up(p: ProtocolV)
    requires
        quiet_protocol(p),
    ensures
        fixed_up(p) matches Ok((q, _)) ==> quiet_protocol(q) && q.interfaces.len()
            == p.interfaces.len(),
{
    lemma_name_index(interface_names(p.interfaces), "wl_registry"@);
    lemma_name_index(interface_names(p.interfaces), "wl_display"@);
    lemma_name_index(interface_names(p.interfaces), "wl_callback"@);
    if let Ok((q, d)) = fixed_up(p) {
        let registry = expected(p, "wl_registry"@, true, 0, "bind"@)->Ok_0;
        let p1 = marked(p, registry, true, 0, SpecialMessage::WlRegistryBind);
        lemma_quiet_marked(p, registry, true, 0, SpecialMessage::WlRegistryBind);
        assert(p1.interfaces[registry].events.len() == p.interfaces[registry].events.len());
        let p2 = marked(p1, registry, false, 0, SpecialMessage::WlRegistryGlobal);
        lemma_quiet_marked(p1, registry, false, 0, SpecialMessage::WlRegistryGlobal);
        assert(p1.interfaces[d].requests.len() == p.interfaces[d].requests.len());
        assert(p2.interfaces[d].requests.len() == p1.interfaces[d].requests.len());
        let p3 = marked(p2, d, true, 0, SpecialMessage::WlDisplaySync);
        lemma_quiet_marked(p2, d, true, 0, SpecialMessage::WlDisplaySync);
        assert(p3.interfaces[d].events.len() == p2.interfaces[d].events.len());
        assert(p2.interfaces[d].events.len() == p1.interfaces[d].events.len());
        let p4 = marked(p3, d, false, 1, SpecialMessage::WlDisplayDeleteId);
        lemma_quiet_marked(p3, d, false, 1, SpecialMessage::WlDisplayDeleteId);
        assert forall|k: int| 0 <= k < q.interfaces.len() implies quiet_messages(
            (#[trigger] q.interfaces[k]).requests,
        ) && quiet_messages(q.interfaces[k].events) by {
            assert(q.interfaces[k].requests == p4.interfaces[k].requests);
            assert(q.interfaces[k].events == p4.interfaces[k].events);
        }
    }
}

proof fn lemma_quiet_based(ps: Seq<ProtocolV>, n: nat)
    requires
        n <= ps.len(),
        quiet(ps),
    ensures
        based(ps, n) matches Ok((qs, _)) ==> quiet(qs) && qs.len() == ps.len() && (forall|p: int|
            0 <= p < ps.len() ==> (#[trigger] qs[p]).interfaces.len() == ps[p].interfaces.len()),
    decreases n,
{
    if n > 0 {
        lemma_quiet_based(ps, (n - 1) as nat);
        assert(quiet_protocol(ps[n - 1]));
        lemma_quiet_fixed_up(ps[n - 1]);
    }
}

proof fn lemma_quiet_owned(ps: Seq<ProtocolV>)
    requires
        quiet(ps),
    ensures
        quiet(all_owned(ps)),
{
    let qs = all_owned(ps);
    assert forall|p: int| 0 <= p < qs.len() implies quiet_protocol(#[trigger] qs[p]) by {
        assert(quiet_protocol(ps[p]));
        assert forall|k: int| 0 <= k < qs[p].interfaces.len() implies quiet_messages(
            (#[trigger] qs[p].interfaces[k]).requests,
        ) && quiet_messages(qs[p].interfaces[k].events) by {
            let old = ps[p].interfaces[k];
            let x = qs[p].interfaces[k];
            assert forall|m: int| 0 <= m < x.requests.len() implies !(
            #[trigger] x.requests[m]).active by {
                assert(!old.requests[m].active);
            }
            assert forall|m: int| 0 <= m < x.events.len() implies !(
            #[trigger] x.events[m]).active by {
                assert(!old.events[m].active);
            }
        }
    }
}

proof fn lemma_quiet_with_limit(ps: Seq<ProtocolV>, id: InterfaceId, limit: u32)
    requires
        quiet(ps),
        is_place(ps, id),
    ensures
        quiet(with_limit(ps, id, limit)),
{
    let qs = with_limit(ps, id, limit);
    assert forall|p: int| 0 <= p < qs.len() implies quiet_protocol(#[trigger] qs[p]) by {
        assert(quiet_protocol(ps[p]));
        assert forall|k: int| 0 <= k < qs[p].interfaces.len() implies quiet_messages(
            (#[trigger] qs[p].interfaces[k]).requests,
        ) && quiet_messages(qs[p].interfaces[k].events) by {
            let old = ps[p].interfaces[k];
            assert(quiet_messages(old.requests));
        }
    }
}

proof fn lemma_quiet_limited(ps: Seq<ProtocolV>, lines: Seq<Seq<char>>, allow_missing: bool, n: nat)
    requires
        quiet(ps),
        ps.len() <= usize::MAX,
        forall|p: int| 0 <= p < ps.len() ==> (#[trigger] ps[p]).interfaces.len() <= usize::MAX,
    ensures
        all_limited(ps, lines, allow_missing, n) matches Ok((qs, _)) ==> quiet(qs) && qs.len()
            == ps.len() && (forall|p: int|
            0 <= p < qs.len() ==> (#[trigger] qs[p]).interfaces.len() <= usize::MAX),
    decreases n,
{
    if n > 0 {
        lemma_quiet_limited(ps, lines, allow_missing, (n - 1) as nat);
        if let Ok((before, _)) = all_limited(ps, lines, allow_missing, (n - 1) as nat) {
            if let Ok(Some((name, limit))) = limit_line(lines[n - 1]) {
                if limited(before, name, limit, allow_missing) is Ok {
                    let found = globals_named(before, name, before.len());
                    if found.len() == 1 {
                        lemma_globals(before, name, before.len());
                        assert(is_place(before, found[0]));
                        lemma_quiet_with_limit(before, found[0], limit);
                        assert(before[found[0].protocol as int].interfaces.len() <= usize::MAX);
                    }
                }
            }
        }
    }
}

/// No message of protocols as they were read is active before the limits reach all interfaces.
pub proof fn lemma_quiet_before_reach(ps: Seq<ProtocolV>, lines: Seq<Seq<char>>, allow_missing: bool)
    requires
        indexable(ps),
        forall|p: int| 0 <= p < ps.len() ==> protocol_fresh(#[trigger] ps[p]),
    ensures
        based(ps, ps.len()) matches Ok((base, _)) ==> (all_limited(
            all_owned(base),
            lines,
            allow_missing,
            lines.len(),
        ) matches Ok((limited, _)) ==> quiet(limited) && indexable(limited)),
{
    assert(quiet(ps)) by {
        assert forall|p: int| 0 <= p < ps.len() implies quiet_protocol(#[trigger] ps[p]) by {
            assert(protocol_fresh(ps[p]));
        }
    }
    lemma_quiet_based(ps, ps.len());
    if let Ok((base, _)) = based(ps, ps.len()) {
        lemma_quiet_owned(base);
        let own = all_owned(base);
        assert forall|p: int| 0 <= p < own.len() implies (#[trigger] own[p]).interfaces.len()
            <= usize::MAX by {
            assert(base[p].interfaces.len() == ps[p].interfaces.len());
        }
        lemma_quiet_limited(own, lines, allow_missing, lines.len());
    }
}

/// Every interface that the limits let through is among the active ones.
proof fn lemma_actives_complete(ps: Seq<ProtocolV>, n: nat, id: InterfaceId)
    requires
        n <= ps.len() <= usize::MAX,
        id.protocol < n,
        reached_at(ps, id),
        forall|p: int| 0 <= p < ps.len() ==> (#[trigger] ps[p]).interfaces.len() <= usize::MAX,
    ensures
        actives_of(ps, n).contains(id),
    decreases n,
{
    let front = actives_of(ps, (n - 1) as nat);
    let p = ps[n - 1];
    assert(p.interfaces.len() <= usize::MAX);
    let back = actives_in(p, (n - 1) as usize, p.interfaces.len());
    if id.protocol < n - 1 {
        lemma_actives_complete(ps, (n - 1) as nat, id);
        let k = choose|k: int| 0 <= k < front.len() && front[k] == id;
        assert(actives_of(ps, n)[k] == id);
    } else {
        lemma_actives_in_complete(p, (n - 1) as usize, p.interfaces.len(), id.index as int);
        let k = choose|k: int| 0 <= k < back.len() && back[k] == id;
        assert(actives_of(ps, n)[front.len() + k] == id);
    }
}

proof fn lemma_actives_in_complete(p: ProtocolV, protocol: usize, n: nat, k: int)
    requires
        0 <= k < n <= p.interfaces.len() <= usize::MAX,
        reach(p, k) is Some,
    ensures
        actives_in(p, protocol, n).contains(InterfaceId { protocol, index: k as usize }),
    decreases n,
{
    let id = InterfaceId { protocol, index: k as usize };
    let all = actives_in(p, protocol, n);
    if k == n - 1 {
        assert(all[all.len() - 1] == id);
    } else {
        lemma_actives_in_complete(p, protocol, (n - 1) as nat, k);
        let before = actives_in(p, protocol, (n - 1) as nat);
        let j = choose|j: int| 0 <= j < before.len() && before[j] == id;
        assert(all[j] == id);
    }
}

/// The messages that are active when all is worked out are those of the active interfaces that are
/// in the version that the interface is limited to; no other message is active.
pub proof fn law_limits_decide(
    ps: Seq<ProtocolV>,
    lines: Seq<Seq<char>>,
    allow_missing: bool,
    id: InterfaceId,
)
    requires
        ps.len() <= usize::MAX,
        forall|p: int| 0 <= p < ps.len() ==> (#[trigger] ps[p]).interfaces.len() <= usize::MAX,
        forall|p: int| 0 <= p < ps.len() ==> protocol_fresh(#[trigger] ps[p]),
    ensures
        outcome(ps, lines, allow_missing) matches Ok(o) ==> (is_place(o.protocols, id) ==> {
            let i = o.protocols[id.protocol as int].interfaces[id.index as int];
            if o.ids.contains(id) {
                let limit = smaller(i.parsed_version, i.limited_version->0);
                &&& i.limited_version is Some
                &&& forall|m: int|
                    0 <= m < i.requests.len() ==> (#[trigger] i.requests[m]).active == (
                    i.requests[m].since <= limit)
                &&& forall|m: int|
                    0 <= m < i.events.len() ==> (#[trigger] i.events[m]).active == (
                    i.events[m].since <= limit)
            } else {
                quiet_messages(i.requests) && quiet_messages(i.events)
            }
        }),
{
    if let Ok(o) = outcome(ps, lines, allow_missing) {
        if is_place(o.protocols, id) {
            lemma_quiet_before_reach(ps, lines, allow_missing);
            crate::linkup::law_outcome_is_sound(ps, lines, allow_missing);
            let (base, _) = based(ps, ps.len())->Ok_0;
            let own = all_owned(base);
            let (lps, _) = all_limited(own, lines, allow_missing, lines.len())->Ok_0;
            crate::limits::lemma_actives_of(lps, lps.len());
            let rps = reached(lps);
            let p = id.protocol as int;
            let k = id.index as int;
            assert(o.protocols.len() == lps.len());
            let names = interface_names(rps[p].interfaces);
            let i = o.protocols[p].interfaces[k];
            let r = rps[p].interfaces[k];
            let l = lps[p].interfaces[k];
            assert(r == reached_interface(lps[p], k));
            assert(i.requests == linked_messages(rps, o.ids, names, r.requests));
            assert(i.events == linked_messages(rps, o.ids, names, r.events));
            assert(quiet_protocol(lps[p]));
            assert(quiet_messages(l.requests) && quiet_messages(l.events));
            if o.ids.contains(id) {
                let j = choose|j: int| 0 <= j < o.ids.len() && o.ids[j] == id;
                assert(reached_at(lps, o.ids[j]));
            } else if reach(lps[p], k) is Some {
                lemma_actives_complete(lps, lps.len(), id);
            }
            assert forall|m: int| 0 <= m < i.requests.len() implies (
            #[trigger] i.requests[m]).active == r.requests[m].active && i.requests[m].since
                == l.requests[m].since && !l.requests[m].active by {}
            assert forall|m: int| 0 <= m < i.events.len() implies (#[trigger] i.events[m]).active
                == r.events[m].active && i.events[m].since == l.events[m].since
                && !l.events[m].active by {}
        }
    }
}

/// The indices of an interface and its ancestors, `d` generations up.
spec fn line_of(p: ProtocolV, k: int, d: nat) -> Set<int>
    decreases d,
{
    if d == 0 || k < 0 || k >= p.interfaces.len() || p.interfaces[k].parent is None {
        set![k]
    } else {
        line_of(p, p.interfaces[k].parent->0 as int, (d - 1) as nat).insert(k)
    }
}

proof fn lemma_more_fuel(p: ProtocolV, k: int, d: nat, e: nat)
    requires
        ancestor(p, k, d) is Some,
        d <= e,
    ensures
        ancestor(p, k, e) == ancestor(p, k, d),
    decreases d,
{
    if d > 0 && p.interfaces[k].parent is Some {
        lemma_more_fuel(p, p.interfaces[k].parent->0 as int, (d - 1) as nat, (e - 1) as nat);
    }
}

/// Whoever stands in the line of ancestors of an interface is at most as many generations away from
/// its global ancestor.
proof fn lemma_line_members(p: ProtocolV, k: int, d: nat, x: int)
    requires
        ancestor(p, k, d) is Some,
        line_of(p, k, d).contains(x),
    ensures
        ancestor(p, x, d) is Some,
        0 <= x < p.interfaces.len(),
    decreases d,
{
    if d > 0 && p.interfaces[k].parent is Some && x != k {
        lemma_line_members(p, p.interfaces[k].parent->0 as int, (d - 1) as nat, x);
        lemma_more_fuel(p, x, (d - 1) as nat, d);
    }
}

proof fn lemma_line_len(p: ProtocolV, k: int, d: nat)
    requires
        ancestor(p, k, d) is Some,
        d == 0 || ancestor(p, k, (d - 1) as nat) is None,
    ensures
        line_of(p, k, d).finite(),
        line_of(p, k, d).len() == d + 1,
    decreases d,
{
    if d > 0 {
        let j = p.interfaces[k].parent->0 as int;
        assert(p.interfaces[k].parent is Some);
        lemma_line_len(p, j, (d - 1) as nat);
        if line_of(p, j, (d - 1) as nat).contains(k) {
            lemma_line_members(p, j, (d - 1) as nat, k);
        }
    }
}

proof fn lemma_least_fuel(p: ProtocolV, k: int, d: nat) -> (e: nat)
    requires
        ancestor(p, k, d) is Some,
    ensures
        e <= d,
        ancestor(p, k, e) is Some,
        e == 0 || ancestor(p, k, (e - 1) as nat) is None,
    decreases d,
{
    if d > 0 && ancestor(p, k, (d - 1) as nat) is Some {
        lemma_least_fuel(p, k, (d - 1) as nat)
    } else {
        d
    }
}

/// An interface has a global ancestor at all exactly if it has one within as many generations as
/// there are interfaces; else its line of ancestors never ends.
pub proof fn law_global_ancestor_is_near(p: ProtocolV, k: int, d: nat)
    requires
        ancestor(p, k, d) is Some,
    ensures
        global_ancestor(p, k) == ancestor(p, k, d),
{
    let e = lemma_least_fuel(p, k, d);
    lemma_line_len(p, k, e);
    let line = line_of(p, k, e);
    let n = p.interfaces.len();
    assert forall|x: int| line.contains(x) implies set_int_range(0, n as int).contains(x) by {
        lemma_line_members(p, k, e, x);
    }
    lemma_int_range(0, n as int);
    lemma_len_subset(line, set_int_range(0, n as int));
    lemma_more_fuel(p, k, e, d);
    lemma_more_fuel(p, k, e, n);
}

/// Whether protocols have the places that they had, and every interface that had a limit has the same
/// limit.
pub open spec fn limits_kept(before: Seq<ProtocolV>, after: Seq<ProtocolV>) -> bool {
    &&& same_places(before, after)
    &&& forall|p: int, k: int|
        #![trigger after[p].interfaces[k]]
        0 <= p < before.len() && 0 <= k < before[p].interfaces.len()
            && before[p].interfaces[k].limited_version is Some
            ==> after[p].interfaces[k].limited_version == before[p].interfaces[k].limited_version
}

proof fn lemma_limits_kept(ps: Seq<ProtocolV>, lines: Seq<Seq<char>>, allow_missing: bool, n: nat)
    requires
        indexable(ps),
    ensures
        all_limited(ps, lines, allow_missing, n) matches Ok((qs, _)) ==> limits_kept(ps, qs),
    decreases n,
{
    if n > 0 {
        lemma_limits_kept(ps, lines, allow_missing, (n - 1) as nat);
        if let Ok((before, _)) = all_limited(ps, lines, allow_missing, (n - 1) as nat) {
            assert forall|p: int| 0 <= p < before.len() implies (
            #[trigger] before[p]).interfaces.len() <= usize::MAX by {
                assert(ps[p].interfaces.len() == before[p].interfaces.len());
            }
            if let Ok(Some((name, limit))) = limit_line(lines[n - 1]) {
                let found = globals_named(before, name, before.len());
                if found.len() == 1 {
                    lemma_globals(before, name, before.len());
                    assert(is_place(before, found[0]));
                }
            }
        }
    }
}

proof fn lemma_fixed_up_keeps_limits(p: ProtocolV)
    requires
        unprepared(p),
    ensures
        fixed_up(p) matches Ok((q, _)) ==> q.interfaces.len() == p.interfaces.len() && (forall|k: int|
            0 <= k < p.interfaces.len() && p.interfaces[k].limited_version is Some ==> (
            #[trigger] q.interfaces[k]).limited_version == p.interfaces[k].limited_version),
{
    lemma_name_index(interface_names(p.interfaces), "wl_registry"@);
    lemma_name_index(interface_names(p.interfaces), "wl_display"@);
    lemma_name_index(interface_names(p.interfaces), "wl_callback"@);
}

proof fn lemma_based_keeps_limits(ps: Seq<ProtocolV>, n: nat)
    requires
        n <= ps.len(),
        forall|p: int| 0 <= p < ps.len() ==> unprepared(#[trigger] ps[p]),
    ensures
        based(ps, n) matches Ok((qs, _)) ==> limits_kept(ps, qs),
    decreases n,
{
    if n > 0 {
        lemma_based_keeps_limits(ps, (n - 1) as nat);
        assert(unprepared(ps[n - 1]));
        lemma_fixed_up_keeps_limits(ps[n - 1]);
    }
}

/// A limit, once given, never changes: not when the base protocol, of which nothing has been set, is
/// prepared, not when the interfaces learn their places, not by a line of limits, not when the limits reach the other interfaces, and not when messages learn what they
/// create.
pub proof fn law_limits_never_change(
    ps: Seq<ProtocolV>,
    index: usize,
    lines: Seq<Seq<char>>,
    allow_missing: bool,
    ids: Seq<InterfaceId>,
)
    requires
        indexable(ps),
    ensures
        forall|p: int|
            0 <= p < ps.len() && unprepared(#[trigger] ps[p]) ==> (fixed_up(ps[p]) matches Ok((q, _))
                ==> limits_kept(seq![ps[p]], seq![q])),
        (forall|p: int| 0 <= p < ps.len() ==> unprepared(#[trigger] ps[p])) ==> (based(
            ps,
            ps.len(),
        ) matches Ok((qs, _)) ==> limits_kept(ps, qs)),
        forall|p: int, k: int|
            0 <= p < ps.len() && 0 <= k < ps[p].interfaces.len() ==> (#[trigger] owned_protocol(
                ps[p],
                index,
            ).interfaces[k]).limited_version == ps[p].interfaces[k].limited_version,
        limits_kept(ps, all_owned(ps)),
        all_limited(ps, lines, allow_missing, lines.len()) matches Ok((qs, _)) ==> limits_kept(
            ps,
            qs,
        ),
        propagated(ps) matches Ok((qs, _)) ==> limits_kept(ps, qs),
        linked(ps, ids) matches Ok(qs) ==> limits_kept(ps, qs),
{
    assert forall|p: int| 0 <= p < ps.len() && unprepared(#[trigger] ps[p]) implies (fixed_up(
        ps[p],
    ) matches Ok((q, _)) ==> limits_kept(seq![ps[p]], seq![q])) by {
        lemma_fixed_up_keeps_limits(ps[p]);
    }
    if forall|p: int| 0 <= p < ps.len() ==> unprepared(#[trigger] ps[p]) {
        lemma_based_keeps_limits(ps, ps.len());
    }
    lemma_limits_kept(ps, lines, allow_missing, lines.len());
    if let Ok((qs, _)) = propagated(ps) {
        assert forall|p: int, k: int|
            #![trigger qs[p].interfaces[k]]
            0 <= p < ps.len() && 0 <= k < ps[p].interfaces.len()
                && ps[p].interfaces[k].limited_version is Some implies qs[p].interfaces[k].limited_version
            == ps[p].interfaces[k].limited_version by {
            assert(qs[p].interfaces[k] == reached_interface(ps[p], k));
            assert(reach(ps[p], k) matches Some((is_global, _)) ==> is_global);
        }
    }
}

/// Whether interfaces of a protocol are a line of ancestors: each is the child of the next, and the
/// last one has no parent.
pub open spec fn is_lineage(p: ProtocolV, line: Seq<int>) -> bool {
    &&& line.len() > 0
    &&& forall|i: int| 0 <= i < line.len() ==> 0 <= #[trigger] line[i] < p.interfaces.len()
    &&& forall|i: int, j: int|
        0 <= i && j == i + 1 && j < line.len() ==> p.interfaces[#[trigger] line[i]].parent == Some(
            (#[trigger] line[j]) as usize,
        )
    &&& p.interfaces[line.last()].parent is None
}

/// Whether a line of the limits names an interface, and gives it a limit.
pub open spec fn line_gives(lines: Seq<Seq<char>>, n: int, name: Seq<char>, limit: u32) -> bool {
    0 <= n < lines.len() && limit_line(lines[n]) == Ok::<Option<(Seq<char>, u32)>, LimitError>(
        Some((name, limit)),
    )
}

/// Whether one of the lines of the limits names an interface.
pub open spec fn is_listed(lines: Seq<Seq<char>>, name: Seq<char>) -> bool {
    exists|n: int, limit: u32| line_gives(lines, n, name, limit)
}

pub proof fn lemma_lineage(p: ProtocolV, line: Seq<int>)
    requires
        is_lineage(p, line),
        p.interfaces.len() <= usize::MAX,
    ensures
        ancestor(p, line[0], (line.len() - 1) as nat) == Some(line.last()),
    decreases line.len(),
{
    if line.len() > 1 {
        let rest = line.skip(1);
        assert(p.interfaces[line[0]].parent == Some(line[1] as usize));
        assert forall|i: int, j: int| 0 <= i && j == i + 1 && j < rest.len() implies p.interfaces[
        #[trigger] rest[i]].parent == Some((#[trigger] rest[j]) as usize) by {
            assert(p.interfaces[line[i + 1]].parent == Some(line[i + 2] as usize));
        }
        assert forall|i: int| 0 <= i < rest.len() implies 0 <= #[trigger] rest[i]
            < p.interfaces.len() by {
            assert(rest[i] == line[i + 1]);
        }
        assert(rest.last() == line.last());
        lemma_lineage(p, rest);
        assert(rest[0] == line[1]);
        assert(0 <= line[0] < p.interfaces.len());
    } else {
        assert(line[0] == line.last());
    }
}

pub proof fn lemma_has_lineage(p: ProtocolV, k: int, d: nat) -> (line: Seq<int>)
    requires
        ancestor(p, k, d) is Some,
    ensures
        is_lineage(p, line),
        line[0] == k,
    decreases d,
{
    match p.interfaces[k].parent {
        None => seq![k],
        Some(j) => {
            let rest = lemma_has_lineage(p, j as int, (d - 1) as nat);
            let line = seq![k] + rest;
            assert forall|i: int, j: int| 0 <= i && j == i + 1 && j < line.len() implies p.interfaces[
            #[trigger] line[i]].parent == Some((#[trigger] line[j]) as usize) by {
                if i > 0 {
                    assert(line[i] == rest[i - 1] && line[j] == rest[j - 1]);
                    assert(p.interfaces[rest[i - 1]].parent == Some(rest[i] as usize));
                } else {
                    assert(line[j] == rest[0]);
                }
            }
            assert forall|i: int| 0 <= i < line.len() implies 0 <= #[trigger] line[i]
                < p.interfaces.len() by {
                if i > 0 {
                    assert(line[i] == rest[i - 1]);
                }
            }
            assert(line.last() == rest.last());
            line
        },
    }
}

/// Whether protocols have the interfaces that they had, with the same names, versions and parents.
spec fn kin(ps: Seq<ProtocolV>, qs: Seq<ProtocolV>) -> bool {
    &&& same_places(ps, qs)
    &&& forall|p: int, k: int|
        #![trigger qs[p].interfaces[k]]
        0 <= p < ps.len() && 0 <= k < ps[p].interfaces.len() ==> {
            &&& qs[p].interfaces[k].name == ps[p].interfaces[k].name
            &&& qs[p].interfaces[k].parsed_version == ps[p].interfaces[k].parsed_version
            &&& qs[p].interfaces[k].parent == ps[p].interfaces[k].parent
        }
}

/// Whether one of the first `n` lines of the limits names an interface.
spec fn listed_before(lines: Seq<Seq<char>>, n: int, name: Seq<char>) -> bool {
    exists|j: int, limit: u32| j < n && line_gives(lines, j, name, limit)
}

/// What the first `n` lines have made of an interface.
spec fn line_effect(
    ps: Seq<ProtocolV>,
    qs: Seq<ProtocolV>,
    lines: Seq<Seq<char>>,
    n: int,
    p: int,
    k: int,
) -> bool {
    let i = ps[p].interfaces[k];
    let j = qs[p].interfaces[k];
    &&& i.parent is None ==> (forall|x: int, limit: u32|
        x < n && #[trigger] line_gives(lines, x, i.name, limit) ==> i.limited_version is None
            && j.limited_version == Some(
            if limit <= i.parsed_version {
                limit
            } else {
                i.parsed_version
            },
        ) && qs[p].active)
    &&& i.parent is Some || !listed_before(lines, n, i.name) ==> j.limited_version
        == i.limited_version
}

spec fn has_listed_global(ps: Seq<ProtocolV>, lines: Seq<Seq<char>>, n: int, p: int) -> bool {
    exists|k: int|
        0 <= k < ps[p].interfaces.len() && (#[trigger] ps[p].interfaces[k]).parent is None
            && listed_before(lines, n, ps[p].interfaces[k].name)
}

/// A global is among those that have its name.
pub proof fn lemma_global_is_found(ps: Seq<ProtocolV>, n: nat, id: InterfaceId)
    requires
        n <= ps.len(),
        indexable(ps),
        id.protocol < n,
        is_place(ps, id),
        names_distinct(ps[id.protocol as int]),
        ps[id.protocol as int].interfaces[id.index as int].parent is None,
    ensures
        globals_named(
            ps,
            ps[id.protocol as int].interfaces[id.index as int].name,
            n,
        ).contains(id),
    decreases n,
{
    let p = ps[id.protocol as int];
    let name = p.interfaces[id.index as int].name;
    let all = globals_named(ps, name, n);
    if id.protocol < n - 1 {
        lemma_global_is_found(ps, (n - 1) as nat, id);
        let before = globals_named(ps, name, (n - 1) as nat);
        let x = choose|x: int| 0 <= x < before.len() && before[x] == id;
        assert(all[x] == id);
    } else {
        let names = interface_names(p.interfaces);
        assert(names[id.index as int] == name);
        assert forall|j: int| 0 <= j < id.index implies names[j] != name by {
            assert(p.interfaces[j].name != p.interfaces[id.index as int].name);
        }
        lemma_name_index_is(names, name, id.index as int);
        assert(all[all.len() - 1] == id);
    }
}

#[verifier::rlimit(40)]
proof fn lemma_lines(ps: Seq<ProtocolV>, lines: Seq<Seq<char>>, allow_missing: bool, n: nat)
    requires
        indexable(ps),
        n <= lines.len(),
        forall|p: int| 0 <= p < ps.len() ==> names_distinct(#[trigger] ps[p]),
    ensures
        all_limited(ps, lines, allow_missing, n) matches Ok((qs, _)) ==> {
            &&& kin(ps, qs)
            &&& forall|p: int, k: int|
                0 <= p < ps.len() && 0 <= k < ps[p].interfaces.len() ==> #[trigger] line_effect(
                    ps,
                    qs,
                    lines,
                    n as int,
                    p,
                    k,
                )
            &&& forall|p: int|
                0 <= p < ps.len() ==> (#[trigger] qs[p]).active == (ps[p].active
                    || has_listed_global(ps, lines, n as int, p))
        },
    decreases n,
{
    if n > 0 {
        let m = (n - 1) as nat;
        lemma_lines(ps, lines, allow_missing, m);
        if let Ok((before, _)) = all_limited(ps, lines, allow_missing, m) {
            if let Ok((qs, _)) = all_limited(ps, lines, allow_missing, n) {
                assert(indexable(before)) by {
                    assert forall|p: int| 0 <= p < before.len() implies (
                    #[trigger] before[p]).interfaces.len() <= usize::MAX by {
                        assert(ps[p].interfaces.len() == before[p].interfaces.len());
                    }
                }
                assert forall|p: int| 0 <= p < before.len() implies names_distinct(
                    #[trigger] before[p],
                ) by {
                    assert(names_distinct(ps[p]));
                    assert(ps[p].interfaces.len() == before[p].interfaces.len());
                    assert forall|i: int, j: int| 0 <= i < j < before[p].interfaces.len() implies (
                    #[trigger] before[p].interfaces[i]).name != (
                    #[trigger] before[p].interfaces[j]).name by {
                        assert(ps[p].interfaces[i].name != ps[p].interfaces[j].name);
                    }
                }
                lemma_line(ps, before, qs, lines, allow_missing, m as int);
            }
        }
    }
}

#[verifier::rlimit(60)]
proof fn lemma_line(
    ps: Seq<ProtocolV>,
    before: Seq<ProtocolV>,
    qs: Seq<ProtocolV>,
    lines: Seq<Seq<char>>,
    allow_missing: bool,
    m: int,
)
    requires
        indexable(before),
        0 <= m < lines.len(),
        kin(ps, before),
        forall|p: int| 0 <= p < before.len() ==> names_distinct(#[trigger] before[p]),
        forall|p: int, k: int|
            0 <= p < ps.len() && 0 <= k < ps[p].interfaces.len() ==> #[trigger] line_effect(
                ps,
                before,
                lines,
                m,
                p,
                k,
            ),
        forall|p: int|
            0 <= p < ps.len() ==> (#[trigger] before[p]).active == (ps[p].active
                || has_listed_global(ps, lines, m, p)),
        match limit_line(lines[m]) {
            Err(_) => false,
            Ok(None) => qs == before,
            Ok(Some((name, limit))) => limited(before, name, limit, allow_missing) matches Ok((q, _))
                && q == qs,
        },
    ensures
        kin(ps, qs),
        forall|p: int, k: int|
            0 <= p < ps.len() && 0 <= k < ps[p].interfaces.len() ==> #[trigger] line_effect(
                ps,
                qs,
                lines,
                m + 1,
                p,
                k,
            ),
        forall|p: int|
            0 <= p < ps.len() ==> (#[trigger] qs[p]).active == (ps[p].active
                || has_listed_global(ps, lines, m + 1, p)),
{
    match limit_line(lines[m]) {
        Ok(Some((name, limit))) => {
            assert(line_gives(lines, m, name, limit));
            let found = globals_named(before, name, before.len());
            lemma_globals(before, name, before.len());
            lemma_globals_are_named(before, name, before.len());
            assert forall|p: int, k: int|
                0 <= p < ps.len() && 0 <= k < ps[p].interfaces.len()
                    && ps[p].interfaces[k].parent is None && ps[p].interfaces[k].name
                    == name implies #[trigger] found.contains(
                InterfaceId { protocol: p as usize, index: k as usize },
            ) by {
                let x = before[p].interfaces[k];
                assert(x.name == name && x.parent is None);
                lemma_global_is_found(
                    before,
                    before.len(),
                    InterfaceId { protocol: p as usize, index: k as usize },
                );
            }
            if found.len() == 1 {
                let g = found[0];
                assert(is_place(before, g));
                let gp = g.protocol as int;
                let gk = g.index as int;
                assert(before[gp].interfaces[gk].name == name);
                assert(before[gp].interfaces[gk].parent is None);
                assert(ps[gp].interfaces[gk].name == name && ps[gp].interfaces[gk].parent is None);
                assert(kin(ps, qs)) by {
                    assert forall|p: int, k: int|
                        #![trigger qs[p].interfaces[k]]
                        0 <= p < ps.len() && 0 <= k < ps[p].interfaces.len() implies {
                        &&& qs[p].interfaces[k].name == ps[p].interfaces[k].name
                        &&& qs[p].interfaces[k].parsed_version == ps[p].interfaces[k].parsed_version
                        &&& qs[p].interfaces[k].parent == ps[p].interfaces[k].parent
                    } by {
                        let x = before[p].interfaces[k];
                        assert(x.name == ps[p].interfaces[k].name);
                    }
                }
                assert forall|p: int, k: int|
                    0 <= p < ps.len() && 0 <= k < ps[p].interfaces.len() implies #[trigger] line_effect(
                    ps,
                    qs,
                    lines,
                    m + 1,
                    p,
                    k,
                ) by {
                    assert(line_effect(ps, before, lines, m, p, k));
                    let i = ps[p].interfaces[k];
                    assert(before[p].interfaces[k].name == i.name);
                    let here = InterfaceId { protocol: p as usize, index: k as usize };
                    if i.parent is None && i.name == name {
                        assert(found.contains(here));
                        assert(here == g);
                        assert(before[p].interfaces[k].limited_version is None);
                        if listed_before(lines, m, name) {
                            let (x, l) = choose|x: int, l: u32|
                                x < m && line_gives(lines, x, name, l);
                            assert(line_gives(lines, x, i.name, l));
                            assert(before[p].interfaces[k].limited_version is Some);
                        }
                        assert(!listed_before(lines, m, i.name));
                        assert forall|x: int, l: u32|
                            x < m + 1 && #[trigger] line_gives(lines, x, i.name, l) implies x == m
                            && l == limit by {
                            if x < m {
                                assert(listed_before(lines, m, i.name));
                            }
                        }
                        assert(listed_before(lines, m + 1, i.name));
                    } else {
                        assert(here != g);
                        assert(qs[p].interfaces[k] == before[p].interfaces[k]);
                        assert forall|x: int, l: u32|
                            x < m + 1 && #[trigger] line_gives(
                                lines,
                                x,
                                i.name,
                                l,
                            ) && i.parent is None implies x < m by {}
                        if i.parent is None && listed_before(lines, m, i.name) {
                            let (x, l) = choose|x: int, l: u32|
                                x < m && line_gives(lines, x, i.name, l);
                            assert(x < m + 1 && line_gives(lines, x, i.name, l));
                        }
                    }
                }
                assert forall|p: int| 0 <= p < ps.len() implies (#[trigger] qs[p]).active == (
                ps[p].active || has_listed_global(ps, lines, m + 1, p)) by {
                    assert(before[p].active == (ps[p].active || has_listed_global(ps, lines, m, p)));
                    lemma_listed_grows(ps, lines, m, p);
                    if p == gp {
                        assert(listed_before(lines, m + 1, ps[p].interfaces[gk].name));
                    } else if has_listed_global(ps, lines, m + 1, p) && !has_listed_global(
                        ps,
                        lines,
                        m,
                        p,
                    ) {
                        let k = choose|k: int|
                            0 <= k < ps[p].interfaces.len() && (
                            #[trigger] ps[p].interfaces[k]).parent is None && listed_before(
                                lines,
                                m + 1,
                                ps[p].interfaces[k].name,
                            );
                        let i = ps[p].interfaces[k];
                        let (x, l) = choose|x: int, l: u32|
                            x < m + 1 && line_gives(lines, x, i.name, l);
                        if x < m {
                            assert(listed_before(lines, m, i.name));
                        } else {
                            assert(i.name == name);
                            assert(found.contains(
                                InterfaceId { protocol: p as usize, index: k as usize },
                            ));
                        }
                    }
                }
            } else {
                assert(found.len() == 0);
                assert(qs == before);
                assert forall|p: int, k: int, l: u32|
                    0 <= p < ps.len() && 0 <= k < ps[p].interfaces.len() && (
                    #[trigger] ps[p].interfaces[k]).parent is None implies !#[trigger] line_gives(
                    lines,
                    m,
                    ps[p].interfaces[k].name,
                    l,
                ) by {
                    if line_gives(lines, m, ps[p].interfaces[k].name, l) {
                        assert(found.contains(
                            InterfaceId { protocol: p as usize, index: k as usize },
                        ));
                    }
                }
                lemma_line_without_effect(ps, before, lines, m);
            }
        },
        _ => {
            lemma_line_without_effect(ps, before, lines, m);
        },
    }
}

proof fn lemma_listed_grows(ps: Seq<ProtocolV>, lines: Seq<Seq<char>>, m: int, p: int)
    ensures
        has_listed_global(ps, lines, m, p) ==> has_listed_global(ps, lines, m + 1, p),
{
    if has_listed_global(ps, lines, m, p) {
        let k = choose|k: int|
            0 <= k < ps[p].interfaces.len() && (#[trigger] ps[p].interfaces[k]).parent is None
                && listed_before(lines, m, ps[p].interfaces[k].name);
        let i = ps[p].interfaces[k];
        let (x, l) = choose|x: int, l: u32| x < m && line_gives(lines, x, i.name, l);
        assert(x < m + 1 && line_gives(lines, x, i.name, l));
        assert(listed_before(lines, m + 1, ps[p].interfaces[k].name));
    }
}

/// A line that names no global of any protocol changes nothing.
proof fn lemma_line_without_effect(
    ps: Seq<ProtocolV>,
    qs: Seq<ProtocolV>,
    lines: Seq<Seq<char>>,
    m: int,
)
    requires
        kin(ps, qs),
        forall|p: int, k: int, limit: u32|
            0 <= p < ps.len() && 0 <= k < ps[p].interfaces.len() && (
            #[trigger] ps[p].interfaces[k]).parent is None ==> !#[trigger] line_gives(
                lines,
                m,
                ps[p].interfaces[k].name,
                limit,
            ),
        forall|p: int, k: int|
            0 <= p < ps.len() && 0 <= k < ps[p].interfaces.len() ==> #[trigger] line_effect(
                ps,
                qs,
                lines,
                m,
                p,
                k,
            ),
        forall|p: int|
            0 <= p < ps.len() ==> (#[trigger] qs[p]).active == (ps[p].active
                || has_listed_global(ps, lines, m, p)),
    ensures
        forall|p: int, k: int|
            0 <= p < ps.len() && 0 <= k < ps[p].interfaces.len() ==> #[trigger] line_effect(
                ps,
                qs,
                lines,
                m + 1,
                p,
                k,
            ),
        forall|p: int|
            0 <= p < ps.len() ==> (#[trigger] qs[p]).active == (ps[p].active
                || has_listed_global(ps, lines, m + 1, p)),
{
    assert forall|p: int, k: int|
        0 <= p < ps.len() && 0 <= k < ps[p].interfaces.len() implies #[trigger] line_effect(
        ps,
        qs,
        lines,
        m + 1,
        p,
        k,
    ) by {
        assert(line_effect(ps, qs, lines, m, p, k));
        let i = ps[p].interfaces[k];
        if i.parent is None {
            assert forall|x: int, l: u32|
                x < m + 1 && #[trigger] line_gives(lines, x, i.name, l) implies x < m by {
                assert(!line_gives(lines, m, ps[p].interfaces[k].name, l));
            }
            if listed_before(lines, m, i.name) {
                let (x, l) = choose|x: int, l: u32| x < m && line_gives(lines, x, i.name, l);
                assert(x < m + 1 && line_gives(lines, x, i.name, l));
            }
        }
    }
    assert forall|p: int| 0 <= p < ps.len() implies (#[trigger] qs[p]).active == (ps[p].active
        || has_listed_global(ps, lines, m + 1, p)) by {
        lemma_listed_grows(ps, lines, m, p);
        if has_listed_global(ps, lines, m + 1, p) {
            let k = choose|k: int|
                0 <= k < ps[p].interfaces.len() && (#[trigger] ps[p].interfaces[k]).parent is None
                    && listed_before(lines, m + 1, ps[p].interfaces[k].name);
            let i = ps[p].interfaces[k];
            let (x, l) = choose|x: int, l: u32| x < m + 1 && line_gives(lines, x, i.name, l);
            assert(!line_gives(lines, m, ps[p].interfaces[k].name, l));
            assert(x < m);
            assert(listed_before(lines, m, i.name));
            assert(has_listed_global(ps, lines, m, p));
        }
    }
}

/// What is found under a name are globals that have it.
pub proof fn lemma_globals_are_named(ps: Seq<ProtocolV>, name: Seq<char>, n: nat)
    requires
        n <= ps.len(),
        indexable(ps),
    ensures
        forall|k: int|
            0 <= k < globals_named(ps, name, n).len() ==> {
                let id = #[trigger] globals_named(ps, name, n)[k];
                let i = ps[id.protocol as int].interfaces[id.index as int];
                i.name == name && i.parent is None
            },
    decreases n,
{
    if n > 0 {
        lemma_globals_are_named(ps, name, (n - 1) as nat);
        lemma_name_index(interface_names(ps[n - 1].interfaces), name);
        assert(ps[n - 1].interfaces.len() <= usize::MAX);
        let before = globals_named(ps, name, (n - 1) as nat);
        assert forall|k: int| 0 <= k < globals_named(ps, name, n).len() implies {
            let id = #[trigger] globals_named(ps, name, n)[k];
            let i = ps[id.protocol as int].interfaces[id.index as int];
            i.name == name && i.parent is None
        } by {
            if k < before.len() {
                assert(globals_named(ps, name, n)[k] == before[k]);
            }
        }
    }
}

/// What preparing the base protocol leaves of its interfaces.
proof fn lemma_fixed_up_interfaces(p: ProtocolV)
    ensures
        fixed_up(p) matches Ok((q, d)) ==> {
            &&& 0 <= d < p.interfaces.len()
            &&& q.interfaces.len() == p.interfaces.len()
            &&& q.active == p.active
            &&& q.name == p.name
            &&& p.interfaces[d].name == "wl_display"@
            &&& forall|k: int|
                0 <= k < p.interfaces.len() ==> {
                    let i = #[trigger] q.interfaces[k];
                    &&& i.name == p.interfaces[k].name
                    &&& i.parsed_version == p.interfaces[k].parsed_version
                    &&& i.limited_version == if k == d {
                        Some(1)
                    } else {
                        p.interfaces[k].limited_version
                    }
                }
        },
{
    lemma_name_index(interface_names(p.interfaces), "wl_registry"@);
    lemma_name_index(interface_names(p.interfaces), "wl_display"@);
    lemma_name_index(interface_names(p.interfaces), "wl_callback"@);
}

/// What preparing the base protocol leaves of all protocols.
proof fn lemma_based_interfaces(ps: Seq<ProtocolV>, n: nat)
    requires
        n <= ps.len() <= usize::MAX,
        forall|p: int| 0 <= p < ps.len() ==> (#[trigger] ps[p]).interfaces.len() <= usize::MAX,
        forall|p: int| 0 <= p < ps.len() ==> protocol_fresh(#[trigger] ps[p]),
    ensures
        based(ps, n) matches Ok((qs, display)) ==> {
            &&& same_places(ps, qs)
            &&& forall|p: int| n <= p < ps.len() ==> qs[p] == ps[p]
            &&& display matches Some(d) ==> d.protocol < n && is_place(ps, d)
            &&& forall|p: int|
                0 <= p < ps.len() ==> (#[trigger] qs[p]).active == false && names_distinct(qs[p])
            &&& forall|p: int, k: int|
                #![trigger qs[p].interfaces[k]]
                0 <= p < ps.len() && 0 <= k < ps[p].interfaces.len() ==> {
                    &&& qs[p].interfaces[k].name == ps[p].interfaces[k].name
                    &&& qs[p].interfaces[k].parsed_version == ps[p].interfaces[k].parsed_version
                    &&& qs[p].interfaces[k].limited_version == if display == Some(
                        InterfaceId { protocol: p as usize, index: k as usize },
                    ) {
                        Some(1u32)
                    } else {
                        None
                    }
                }
        },
    decreases n,
{
    if n == 0 {
        assert forall|p: int| 0 <= p < ps.len() implies !(#[trigger] ps[p]).active && names_distinct(
            ps[p],
        ) by {
            assert(protocol_fresh(ps[p]));
        }
        assert forall|p: int, k: int|
            #![trigger ps[p].interfaces[k]]
            0 <= p < ps.len() && 0 <= k < ps[p].interfaces.len() implies ps[p].interfaces[k].limited_version is None by {
            assert(protocol_fresh(ps[p]));
        }
    } else {
        lemma_based_interfaces(ps, (n - 1) as nat);
        let p = ps[n - 1];
        assert(protocol_fresh(p));
        lemma_fixed_up_interfaces(p);
        if let Ok((q, d)) = fixed_up(p) {
            assert(names_distinct(q)) by {
                assert forall|i: int, j: int| 0 <= i < j < q.interfaces.len() implies (
                #[trigger] q.interfaces[i]).name != (#[trigger] q.interfaces[j]).name by {
                    assert(p.interfaces[i].name != p.interfaces[j].name);
                }
            }
        }
    }
}

/// The smaller of two versions.
pub open spec fn lower(a: u32, b: u32) -> u32 {
    if a <= b {
        a
    } else {
        b
    }
}

/// Whether an interface is limited to a version, and its active messages are those that both this
/// version and its own have.
pub open spec fn is_limited_to(i: InterfaceV, limit: u32) -> bool {
    &&& i.limited_version == Some(limit)
    &&& forall|m: int|
        0 <= m < i.requests.len() ==> (#[trigger] i.requests[m]).active == (i.requests[m].since
            <= limit && i.requests[m].since <= i.parsed_version)
    &&& forall|m: int|
        0 <= m < i.events.len() ==> (#[trigger] i.events[m]).active == (i.events[m].since <= limit
            && i.events[m].since <= i.parsed_version)
}

/// Whether an interface has been left out when all has been worked out: it has no version, and no
/// message of it is active.
pub open spec fn is_left_out(i: InterfaceV) -> bool {
    &&& i.limited_version is None
    &&& forall|m: int| 0 <= m < i.requests.len() ==> !(#[trigger] i.requests[m]).active
    &&& forall|m: int| 0 <= m < i.events.len() ==> !(#[trigger] i.events[m]).active
}

/// The limit of a global reaches all its descendants, over any number of generations. Follow the
/// parents of an interface of an active protocol up to the one that has none: the interface is active
/// exactly if a line of the limits names that one, or it is the display. Its version is then the
/// smallest of its own, that of the ancestor, and the limit, and the messages that the version has are
/// active. Otherwise it has no version, and no message of it is active.
#[verifier::rlimit(60)]
pub proof fn law_limits_reach_all_descendants(
    ps: Seq<ProtocolV>,
    lines: Seq<Seq<char>>,
    allow_missing: bool,
    id: InterfaceId,
    line: Seq<int>,
)
    requires
        indexable(ps),
        forall|p: int| 0 <= p < ps.len() ==> protocol_fresh(#[trigger] ps[p]),
        outcome(ps, lines, allow_missing) is Ok,
        ({
            let o = outcome(ps, lines, allow_missing)->Ok_0;
            &&& is_place(o.protocols, id)
            &&& is_lineage(o.protocols[id.protocol as int], line)
            &&& line[0] == id.index
        }),
    ensures
        ({
            let o = outcome(ps, lines, allow_missing)->Ok_0;
            let p = o.protocols[id.protocol as int];
            let i = p.interfaces[id.index as int];
            let global = p.interfaces[line.last()];
            let is_display = o.display == InterfaceId {
                protocol: id.protocol,
                index: line.last() as usize,
            };
            &&& forall|n: int, limit: u32|
                #[trigger] line_gives(lines, n, global.name, limit) ==> {
                    &&& !is_display
                    &&& p.active
                    &&& o.ids.contains(id)
                    &&& is_limited_to(
                        i,
                        lower(i.parsed_version, lower(global.parsed_version, limit)),
                    )
                }
            &&& is_display && p.active ==> {
                &&& o.ids.contains(id)
                &&& is_limited_to(
                    i,
                    if id == o.display {
                        1
                    } else {
                        lower(i.parsed_version, 1)
                    },
                )
            }
            &&& !is_listed(lines, global.name) && !(is_display && p.active) ==> {
                &&& !o.ids.contains(id)
                &&& id != o.display ==> is_left_out(i)
            }
        }),
{
    let o = outcome(ps, lines, allow_missing)->Ok_0;
    let (base, display) = based(ps, ps.len())->Ok_0;
    let own = all_owned(base);
    let (lps, _) = all_limited(own, lines, allow_missing, lines.len())->Ok_0;
    let rps = reached(lps);
    let p = id.protocol as int;
    let k = id.index as int;
    let g = line.last();
    lemma_based_interfaces(ps, ps.len());
    assert(indexable(own)) by {
        assert forall|q: int| 0 <= q < own.len() implies (#[trigger] own[q]).interfaces.len()
            <= usize::MAX by {
            assert(ps[q].interfaces.len() == base[q].interfaces.len());
        }
    }
    assert forall|q: int| 0 <= q < own.len() implies names_distinct(#[trigger] own[q]) by {
        assert(names_distinct(base[q]));
        assert forall|i: int, j: int| 0 <= i < j < own[q].interfaces.len() implies (
        #[trigger] own[q].interfaces[i]).name != (#[trigger] own[q].interfaces[j]).name by {
            assert(base[q].interfaces[i].name != base[q].interfaces[j].name);
        }
    }
    lemma_lines(own, lines, allow_missing, lines.len());
    assert(o.protocols.len() == lps.len());
    assert(lps[p].interfaces.len() == own[p].interfaces.len());
    let po = o.protocols[p];
    assert(po.interfaces.len() == lps[p].interfaces.len());
    assert forall|j: int| 0 <= j < po.interfaces.len() implies {
        let i = #[trigger] po.interfaces[j];
        &&& i.parent == lps[p].interfaces[j].parent
        &&& i.name == lps[p].interfaces[j].name
        &&& i.parsed_version == lps[p].interfaces[j].parsed_version
    } by {
        assert(rps[p].interfaces[j] == reached_interface(lps[p], j));
    }
    assert(lps[p].interfaces.len() <= usize::MAX);
    assert(is_lineage(lps[p], line)) by {
        assert forall|i: int, j: int| 0 <= i && j == i + 1 && j < line.len() implies lps[p].interfaces[
        #[trigger] line[i]].parent == Some((#[trigger] line[j]) as usize) by {
            assert(po.interfaces[line[i]].parent == lps[p].interfaces[line[i]].parent);
        }
        assert(po.interfaces[g].parent == lps[p].interfaces[g].parent);
    }
    lemma_lineage(lps[p], line);
    law_global_ancestor_is_near(lps[p], k, (line.len() - 1) as nat);
    assert(global_ancestor(lps[p], k) == Some(g));
    let global = po.interfaces[g];
    assert(0 <= g < po.interfaces.len()) by {
        assert(0 <= line[line.len() - 1] < po.interfaces.len());
    }
    let gid = InterfaceId { protocol: id.protocol, index: g as usize };
    assert(line_effect(own, lps, lines, lines.len() as int, p, g));
    assert(line_effect(own, lps, lines, lines.len() as int, p, k));
    assert(own[p].interfaces[g].limited_version == base[p].interfaces[g].limited_version);
    assert(own[p].interfaces[k].limited_version == base[p].interfaces[k].limited_version);
    assert(lps[p].interfaces[g].name == own[p].interfaces[g].name);
    assert(lps[p].interfaces[g].parent == own[p].interfaces[g].parent);
    assert(lps[p].interfaces[k].parent == own[p].interfaces[k].parent);
    assert(lps[p].interfaces[g].parsed_version == own[p].interfaces[g].parsed_version);
    assert(listed_before(lines, lines.len() as int, global.name) == is_listed(lines, global.name)) by {
        if is_listed(lines, global.name) {
            let (n, l) = choose|n: int, l: u32| line_gives(lines, n, global.name, l);
            assert(n < lines.len() && line_gives(lines, n, global.name, l));
        }
        if listed_before(lines, lines.len() as int, global.name) {
            let (n, l) = choose|n: int, l: u32|
                n < lines.len() && line_gives(lines, n, global.name, l);
            assert(line_gives(lines, n, global.name, l));
        }
    }
    if k != g {
        assert(lps[p].interfaces[k].parent is Some) by {
            if line.len() == 1 {
                assert(line[0] == line.last());
            } else {
                assert(lps[p].interfaces[line[0]].parent == Some(line[1] as usize));
            }
        }
    }
    law_limits_decide(ps, lines, allow_missing, id);
    lemma_in_ids(lps, id);
    assert(o.ids == actives_of(lps, lps.len()));
    let i = po.interfaces[k];
    assert(rps[p].interfaces[k] == reached_interface(lps[p], k));
    assert(i.limited_version == rps[p].interfaces[k].limited_version);
    assert(po.active == lps[p].active);
    assert(o.ids.contains(id) == (reach(lps[p], k) is Some));
}

/// Which interfaces are active is a matter of how far the limits reach.
pub proof fn lemma_in_ids(ps: Seq<ProtocolV>, id: InterfaceId)
    requires
        indexable(ps),
        is_place(ps, id),
    ensures
        actives_of(ps, ps.len()).contains(id) == (reach(ps[id.protocol as int], id.index as int) is Some),
{
    let all = actives_of(ps, ps.len());
    crate::limits::lemma_actives_of(ps, ps.len());
    if all.contains(id) {
        let j = choose|j: int| 0 <= j < all.len() && all[j] == id;
        assert(reached_at(ps, all[j]));
    }
    if reach(ps[id.protocol as int], id.index as int) is Some {
        lemma_actives_complete(ps, ps.len(), id);
    }
}

/// Whether an interface descends from one that has no parent.
pub open spec fn has_lineage(p: ProtocolV, k: int) -> bool {
    exists|line: Seq<int>| #[trigger] is_lineage(p, line) && line[0] == k
}

/// A protocol takes part exactly if a line of the limits names one of its globals. In one that takes
/// part every interface descends from a global.
pub proof fn law_listed_protocols_take_part(
    ps: Seq<ProtocolV>,
    lines: Seq<Seq<char>>,
    allow_missing: bool,
    p: int,
)
    requires
        indexable(ps),
        forall|p: int| 0 <= p < ps.len() ==> protocol_fresh(#[trigger] ps[p]),
        outcome(ps, lines, allow_missing) is Ok,
        0 <= p < ps.len(),
    ensures
        ({
            let o = outcome(ps, lines, allow_missing)->Ok_0;
            let q = o.protocols[p];
            &&& o.protocols.len() == ps.len()
            &&& q.interfaces.len() == ps[p].interfaces.len()
            &&& q.active <==> exists|k: int|
                0 <= k < q.interfaces.len() && (#[trigger] q.interfaces[k]).parent is None
                    && is_listed(lines, q.interfaces[k].name)
            &&& q.active ==> (forall|k: int|
                0 <= k < q.interfaces.len() ==> #[trigger] has_lineage(q, k))
        }),
{
    let o = outcome(ps, lines, allow_missing)->Ok_0;
    let (base, display) = based(ps, ps.len())->Ok_0;
    let own = all_owned(base);
    let (lps, _) = all_limited(own, lines, allow_missing, lines.len())->Ok_0;
    lemma_outcome_steps(ps, lines, allow_missing);
    let q = o.protocols[p];
    let n = lines.len() as int;
    assert(lps[p].active == (own[p].active || has_listed_global(own, lines, n, p)));
    assert forall|k: int| 0 <= k < q.interfaces.len() implies {
        let i = #[trigger] q.interfaces[k];
        &&& i.parent == own[p].interfaces[k].parent
        &&& i.name == own[p].interfaces[k].name
        &&& i.parent == lps[p].interfaces[k].parent
    } by {
        assert(reached(lps)[p].interfaces[k] == reached_interface(lps[p], k));
    }
    if q.active {
        let k = choose|k: int|
            0 <= k < own[p].interfaces.len() && (#[trigger] own[p].interfaces[k]).parent is None
                && listed_before(lines, n, own[p].interfaces[k].name);
        let (x, l) = choose|x: int, l: u32|
            x < n && line_gives(lines, x, own[p].interfaces[k].name, l);
        assert(line_gives(lines, x, q.interfaces[k].name, l));
        assert(is_listed(lines, q.interfaces[k].name));
        assert forall|k: int| 0 <= k < q.interfaces.len() implies #[trigger] has_lineage(q, k) by {
            assert(global_ancestor(lps[p], k) is Some);
            let line = lemma_has_lineage(lps[p], k, lps[p].interfaces.len());
            assert forall|i: int, j: int| 0 <= i && j == i + 1 && j < line.len() implies q.interfaces[
            #[trigger] line[i]].parent == Some((#[trigger] line[j]) as usize) by {
                assert(q.interfaces[line[i]].parent == lps[p].interfaces[line[i]].parent);
            }
            assert(0 <= line[line.len() - 1] < q.interfaces.len());
            assert(q.interfaces[line.last()].parent == lps[p].interfaces[line.last()].parent);
            assert(is_lineage(q, line) && line[0] == k);
        }
    }
    if exists|k: int|
        0 <= k < q.interfaces.len() && (#[trigger] q.interfaces[k]).parent is None && is_listed(
            lines,
            q.interfaces[k].name,
        ) {
        let k = choose|k: int|
            0 <= k < q.interfaces.len() && (#[trigger] q.interfaces[k]).parent is None && is_listed(
                lines,
                q.interfaces[k].name,
            );
        let (x, l) = choose|x: int, l: u32| line_gives(lines, x, q.interfaces[k].name, l);
        assert(x < n && line_gives(lines, x, own[p].interfaces[k].name, l));
        assert(listed_before(lines, n, own[p].interfaces[k].name));
    }
}

/// What the steps to the outcome leave of names and parents.
proof fn lemma_outcome_steps(ps: Seq<ProtocolV>, lines: Seq<Seq<char>>, allow_missing: bool)
    requires
        indexable(ps),
        forall|p: int| 0 <= p < ps.len() ==> protocol_fresh(#[trigger] ps[p]),
        outcome(ps, lines, allow_missing) is Ok,
    ensures
        ({
            let o = outcome(ps, lines, allow_missing)->Ok_0;
            let (base, display) = based(ps, ps.len())->Ok_0;
            let own = all_owned(base);
            let (lps, _) = all_limited(own, lines, allow_missing, lines.len())->Ok_0;
            let n = lines.len() as int;
            &&& same_places(ps, own)
            &&& same_places(ps, o.protocols)
            &&& kin(own, lps)
            &&& forall|p: int| 0 <= p < own.len() ==> !(#[trigger] own[p]).active
            &&& forall|p: int|
                0 <= p < own.len() ==> (#[trigger] lps[p]).active == (own[p].active
                    || has_listed_global(own, lines, n, p))
            &&& forall|p: int| 0 <= p < own.len() ==> (#[trigger] o.protocols[p]).active
                == lps[p].active
            &&& forall|p: int, k: int|
                #![trigger o.protocols[p].interfaces[k]]
                0 <= p < ps.len() && 0 <= k < ps[p].interfaces.len()
                    ==> o.protocols[p].interfaces[k].parent == own[p].interfaces[k].parent
                    && o.protocols[p].interfaces[k].name == own[p].interfaces[k].name
        }),
{
    let o = outcome(ps, lines, allow_missing)->Ok_0;
    let (base, display) = based(ps, ps.len())->Ok_0;
    let own = all_owned(base);
    let (lps, _) = all_limited(own, lines, allow_missing, lines.len())->Ok_0;
    lemma_based_interfaces(ps, ps.len());
    assert(same_places(ps, own)) by {
        assert forall|q: int| 0 <= q < ps.len() implies (#[trigger] ps[q]).interfaces.len()
            == own[q].interfaces.len() by {
            assert(ps[q].interfaces.len() == base[q].interfaces.len());
        }
    }
    assert(indexable(own)) by {
        assert forall|q: int| 0 <= q < own.len() implies (#[trigger] own[q]).interfaces.len()
            <= usize::MAX by {
            assert(ps[q].interfaces.len() == own[q].interfaces.len());
        }
    }
    assert forall|q: int| 0 <= q < own.len() implies names_distinct(#[trigger] own[q])
        && !own[q].active by {
        assert(names_distinct(base[q]));
        assert(!base[q].active);
        assert forall|i: int, j: int| 0 <= i < j < own[q].interfaces.len() implies (
        #[trigger] own[q].interfaces[i]).name != (#[trigger] own[q].interfaces[j]).name by {
            assert(base[q].interfaces[i].name != base[q].interfaces[j].name);
        }
    }
    lemma_lines(own, lines, allow_missing, lines.len());
    assert(same_places(ps, o.protocols)) by {
        assert forall|q: int| 0 <= q < ps.len() implies (#[trigger] ps[q]).interfaces.len()
            == o.protocols[q].interfaces.len() by {
            assert(ps[q].interfaces.len() == own[q].interfaces.len());
            assert(own[q].interfaces.len() == lps[q].interfaces.len());
        }
    }
    assert forall|p: int, k: int|
        #![trigger o.protocols[p].interfaces[k]]
        0 <= p < ps.len() && 0 <= k < ps[p].interfaces.len() implies o.protocols[p].interfaces[k].parent
        == own[p].interfaces[k].parent && o.protocols[p].interfaces[k].name
        == own[p].interfaces[k].name by {
        assert(ps[p].interfaces.len() == own[p].interfaces.len());
        assert(own[p].interfaces.len() == lps[p].interfaces.len());
        assert(reached(lps)[p].interfaces[k] == reached_interface(lps[p], k));
        assert(lps[p].interfaces[k].parent == own[p].interfaces[k].parent);
    }
}

/// Whether some of the messages of an interface, as it was read, have a new object of the interface
/// with a name among their arguments.
pub open spec fn has_new_object(messages: Seq<MessageV>, name: Seq<char>) -> bool {
    exists|m: int, j: int|
        0 <= m < messages.len() && 0 <= j < messages[m].args.len() && {
            let arg = #[trigger] messages[m].args[j];
            arg.typ is NewId && arg.interface_name == Some(name)
        }
}

pub proof fn lemma_new_ids(args: Seq<ArgV>)
    ensures
        forall|j: int| 0 <= j < args.len() && (#[trigger] args[j]).typ is NewId ==> new_ids(
            args,
        ).contains(args[j]),
        forall|x: int|
            0 <= x < new_ids(args).len() ==> (#[trigger] new_ids(args)[x]).typ is NewId
                && args.contains(new_ids(args)[x]),
    decreases args.len(),
{
    if args.len() > 0 {
        let front = args.drop_last();
        lemma_new_ids(front);
        let all = new_ids(args);
        let before = new_ids(front);
        assert forall|j: int| 0 <= j < args.len() && (#[trigger] args[j]).typ is NewId implies all.contains(
            args[j],
        ) by {
            if j < front.len() {
                assert(front[j] == args[j]);
                assert(before.contains(args[j]));
                let x = choose|x: int| 0 <= x < before.len() && before[x] == args[j];
                assert(all[x] == args[j]);
            } else {
                assert(all[all.len() - 1] == args[j]);
            }
        }
        assert forall|x: int| 0 <= x < all.len() implies (#[trigger] all[x]).typ is NewId
            && args.contains(all[x]) by {
            if x < before.len() {
                assert(all[x] == before[x]);
                assert(front.contains(before[x]));
                let j = choose|j: int| 0 <= j < front.len() && front[j] == before[x];
                assert(args[j] == all[x]);
            } else {
                assert(args[args.len() - 1] == all[x]);
            }
        }
    }
}

/// A message that creates one object at most creates the object that is among its arguments.
pub proof fn lemma_target(m: MessageV, name: Seq<char>)
    requires
        target(m) is Some,
    ensures
        target(m) == Some(Some(name)) <==> exists|j: int|
            0 <= j < m.args.len() && (#[trigger] m.args[j]).typ is NewId && m.args[j].interface_name
                == Some(name),
{
    lemma_new_ids(m.args);
    let ids = new_ids(m.args);
    if exists|j: int|
        0 <= j < m.args.len() && (#[trigger] m.args[j]).typ is NewId && m.args[j].interface_name
            == Some(name) {
        let j = choose|j: int|
            0 <= j < m.args.len() && (#[trigger] m.args[j]).typ is NewId && m.args[j].interface_name
                == Some(name);
        assert(ids.contains(m.args[j]));
        let x = choose|x: int| 0 <= x < ids.len() && ids[x] == m.args[j];
        assert(ids[0] == m.args[j]);
    }
    if target(m) == Some(Some(name)) {
        assert(ids[0].typ is NewId && m.args.contains(ids[0]));
        let j = choose|j: int| 0 <= j < m.args.len() && m.args[j] == ids[0];
        assert(m.args[j].typ is NewId);
    }
}

/// Whether messages have the arguments that they had.
spec fn same_args(a: Seq<MessageV>, b: Seq<MessageV>) -> bool {
    a.len() == b.len() && forall|m: int| 0 <= m < a.len() ==> (#[trigger] a[m]).args == b[m].args
}

proof fn lemma_creates(a: Seq<MessageV>, b: Seq<MessageV>, name: Seq<char>)
    requires
        same_args(a, b),
        targets_ok(b),
    ensures
        creates(b, name) == has_new_object(a, name),
{
    if creates(b, name) {
        let m = choose|m: int| 0 <= m < b.len() && target(#[trigger] b[m]) == Some(Some(name));
        lemma_target(b[m], name);
        let j = choose|j: int|
            0 <= j < b[m].args.len() && (#[trigger] b[m].args[j]).typ is NewId
                && b[m].args[j].interface_name == Some(name);
        assert(a[m].args == b[m].args);
        assert(a[m].args[j].typ is NewId);
    }
    if has_new_object(a, name) {
        let (m, j) = choose|m: int, j: int|
            0 <= m < a.len() && 0 <= j < a[m].args.len() && {
                let arg = #[trigger] a[m].args[j];
                arg.typ is NewId && arg.interface_name == Some(name)
            };
        assert(a[m].args == b[m].args);
        assert(target(b[m]) is Some);
        assert(b[m].args[j].typ is NewId);
        lemma_target(b[m], name);
    }
}

proof fn lemma_marked_args(p: ProtocolV, i: int, is_request: bool, k: int, special: SpecialMessage)
    requires
        0 <= i < p.interfaces.len(),
        0 <= k < (if is_request {
            p.interfaces[i].requests.len()
        } else {
            p.interfaces[i].events.len()
        }),
    ensures
        ({
            let q = marked(p, i, is_request, k, special);
            &&& q.interfaces.len() == p.interfaces.len()
            &&& forall|j: int|
                0 <= j < p.interfaces.len() ==> {
                    let x = #[trigger] q.interfaces[j];
                    &&& same_args(p.interfaces[j].requests, x.requests)
                    &&& same_args(p.interfaces[j].events, x.events)
                    &&& x.parent == p.interfaces[j].parent
                    &&& x.name == p.interfaces[j].name
                }
        }),
{
}

proof fn lemma_fixed_up_args(p: ProtocolV)
    requires
        p.interfaces.len() <= usize::MAX,
    ensures
        fixed_up(p) matches Ok((q, d)) ==> {
            &&& q.interfaces.len() == p.interfaces.len()
            &&& 0 <= d < p.interfaces.len()
            &&& forall|j: int|
                0 <= j < p.interfaces.len() ==> {
                    let x = #[trigger] q.interfaces[j];
                    &&& same_args(p.interfaces[j].requests, x.requests)
                    &&& same_args(p.interfaces[j].events, x.events)
                    &&& x.name == p.interfaces[j].name
                    &&& p.interfaces[j].name != "wl_callback"@ ==> x.parent
                        == p.interfaces[j].parent
                    &&& p.interfaces[j].name == "wl_callback"@ && names_distinct(p) ==> x.parent
                        == Some(d as usize)
                }
        },
{
    lemma_name_index(interface_names(p.interfaces), "wl_registry"@);
    lemma_name_index(interface_names(p.interfaces), "wl_display"@);
    lemma_name_index(interface_names(p.interfaces), "wl_callback"@);
    if let Ok((q, d)) = fixed_up(p) {
        let registry = expected(p, "wl_registry"@, true, 0, "bind"@)->Ok_0;
        let callback = crate::postparse::index_in(p, "wl_callback"@)->0;
        let p1 = marked(p, registry, true, 0, SpecialMessage::WlRegistryBind);
        lemma_marked_args(p, registry, true, 0, SpecialMessage::WlRegistryBind);
        assert(same_args(p.interfaces[registry].events, p1.interfaces[registry].events));
        let p2 = marked(p1, registry, false, 0, SpecialMessage::WlRegistryGlobal);
        lemma_marked_args(p1, registry, false, 0, SpecialMessage::WlRegistryGlobal);
        assert(same_args(p.interfaces[d].requests, p1.interfaces[d].requests));
        assert(same_args(p1.interfaces[d].requests, p2.interfaces[d].requests));
        let p3 = marked(p2, d, true, 0, SpecialMessage::WlDisplaySync);
        lemma_marked_args(p2, d, true, 0, SpecialMessage::WlDisplaySync);
        assert(same_args(p.interfaces[d].events, p1.interfaces[d].events));
        assert(same_args(p1.interfaces[d].events, p2.interfaces[d].events));
        assert(same_args(p2.interfaces[d].events, p3.interfaces[d].events));
        let p4 = marked(p3, d, false, 1, SpecialMessage::WlDisplayDeleteId);
        lemma_marked_args(p3, d, false, 1, SpecialMessage::WlDisplayDeleteId);
        assert forall|j: int| 0 <= j < p.interfaces.len() implies {
            let x = #[trigger] q.interfaces[j];
            &&& same_args(p.interfaces[j].requests, x.requests)
            &&& same_args(p.interfaces[j].events, x.events)
            &&& x.name == p.interfaces[j].name
            &&& p.interfaces[j].name != "wl_callback"@ ==> x.parent == p.interfaces[j].parent
            &&& p.interfaces[j].name == "wl_callback"@ && names_distinct(p) ==> x.parent == Some(
                d as usize,
            )
        } by {
            assert(p1.interfaces[j].name == p.interfaces[j].name);
            assert(p2.interfaces[j].name == p1.interfaces[j].name);
            assert(p3.interfaces[j].name == p2.interfaces[j].name);
            assert(p4.interfaces[j].name == p3.interfaces[j].name);
            assert(q.interfaces[j].requests == p4.interfaces[j].requests);
            assert(q.interfaces[j].events == p4.interfaces[j].events);
            if p.interfaces[j].name == "wl_callback"@ && names_distinct(p) {
                if j < callback {
                    assert(p.interfaces[j].name != p.interfaces[callback].name);
                } else if callback < j {
                    assert(p.interfaces[callback].name != p.interfaces[j].name);
                }
            }
        }
    }
}

proof fn lemma_based_args(ps: Seq<ProtocolV>, n: nat)
    requires
        n <= ps.len() <= usize::MAX,
        forall|p: int| 0 <= p < ps.len() ==> (#[trigger] ps[p]).interfaces.len() <= usize::MAX,
        forall|p: int| 0 <= p < ps.len() ==> protocol_fresh(#[trigger] ps[p]),
    ensures
        based(ps, n) matches Ok((qs, display)) ==> {
            &&& same_places(ps, qs)
            &&& forall|p: int| n <= p < ps.len() ==> qs[p] == ps[p]
            &&& forall|p: int, j: int|
                #![trigger qs[p].interfaces[j]]
                0 <= p < ps.len() && 0 <= j < ps[p].interfaces.len() ==> {
                    let x = qs[p].interfaces[j];
                    &&& same_args(ps[p].interfaces[j].requests, x.requests)
                    &&& same_args(ps[p].interfaces[j].events, x.events)
                    &&& x.name == ps[p].interfaces[j].name
                    &&& ps[p].interfaces[j].name != "wl_callback"@ ==> x.parent is None
                    &&& ps[p].name == "wayland"@ && p < n && ps[p].interfaces[j].name
                        == "wl_callback"@ ==> display is Some && display->0.protocol == p
                        && x.parent == Some(display->0.index)
                }
        },
    decreases n,
{
    if n == 0 {
        assert forall|p: int, j: int|
            #![trigger ps[p].interfaces[j]]
            0 <= p < ps.len() && 0 <= j < ps[p].interfaces.len() implies ps[p].interfaces[j].parent is None by {
            assert(protocol_fresh(ps[p]));
        }
    } else {
        lemma_based_args(ps, (n - 1) as nat);
        let p = ps[n - 1];
        assert(protocol_fresh(p));
        lemma_fixed_up_args(p);
        lemma_based_has_one_base(ps, n);
    }
}

/// There is at most one base protocol, and it is where the display is.
proof fn lemma_based_has_one_base(ps: Seq<ProtocolV>, n: nat)
    requires
        n <= ps.len() <= usize::MAX,
    ensures
        based(ps, n) matches Ok((_, display)) ==> (forall|p: int|
            0 <= p < n && (#[trigger] ps[p]).name == "wayland"@ ==> display is Some
                && display->0.protocol == p),
    decreases n,
{
    if n > 0 {
        lemma_based_has_one_base(ps, (n - 1) as nat);
    }
}

/// Who is whose parent is a matter of the documents alone: an interface is the child of another one of
/// its protocol exactly if that one, and no other, has a message with a new object of it. Callbacks
/// of the base protocol are children of the display.
#[verifier::rlimit(40)]
pub proof fn law_parents_are_those_who_create(
    ps: Seq<ProtocolV>,
    lines: Seq<Seq<char>>,
    allow_missing: bool,
    p: int,
    k: int,
    b: usize,
)
    requires
        indexable(ps),
        forall|p: int| 0 <= p < ps.len() ==> protocol_fresh(#[trigger] ps[p]),
        outcome(ps, lines, allow_missing) is Ok,
        0 <= p < ps.len(),
        0 <= k < ps[p].interfaces.len(),
    ensures
        ({
            let o = outcome(ps, lines, allow_missing)->Ok_0;
            let i = o.protocols[p].interfaces[k];
            let name = ps[p].interfaces[k].name;
            &&& i.name == name
            &&& if name != "wl_callback"@ {
                i.parent == Some(b) <==> {
                    &&& b < ps[p].interfaces.len()
                    &&& b != k
                    &&& has_new_object(ps[p].interfaces[b as int].requests, name) || has_new_object(
                        ps[p].interfaces[b as int].events,
                        name,
                    )
                }
            } else {
                ps[p].name == "wayland"@ ==> o.display.protocol == p && i.parent == Some(
                    o.display.index,
                )
            }
        }),
{
    let o = outcome(ps, lines, allow_missing)->Ok_0;
    let (base, display) = based(ps, ps.len())->Ok_0;
    let own = all_owned(base);
    lemma_outcome_steps(ps, lines, allow_missing);
    lemma_based_args(ps, ps.len());
    lemma_based_interfaces(ps, ps.len());
    let i = o.protocols[p].interfaces[k];
    let name = ps[p].interfaces[k].name;
    let old = base[p].interfaces[k];
    assert(ps[p].interfaces.len() == base[p].interfaces.len());
    assert(old.name == name);
    assert(own[p].interfaces[k].parent == i.parent);
    assert(own[p] == owned_protocol(base[p], p as usize));
    assert(own[p].interfaces[k] == crate::postparse::owned_interface(base[p], p as usize, k));
    assert(crate::linkup::all_targets_ok(base) && crate::linkup::all_parents_agree(base));
    assert(protocol_targets_ok(base[p]) && parents_agree(base[p]));
    lemma_first_maker(base[p], k, base[p].interfaces.len());
    if name != "wl_callback"@ {
        assert(one_parent(base[p], k));
        assert(old.parent is None);
        if b < ps[p].interfaces.len() {
            let c = base[p].interfaces[b as int];
            assert(targets_ok(c.requests) && targets_ok(c.events));
            lemma_creates(ps[p].interfaces[b as int].requests, c.requests, name);
            lemma_creates(ps[p].interfaces[b as int].events, c.events, name);
            assert(makes(base[p], b as int, k) == (b != k && (creates(c.requests, name) || creates(
                c.events,
                name,
            ))));
        }
    }
}

} // verus!
