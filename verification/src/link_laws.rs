//! What messages know when the protocols and the limits have been put together.

use crate::limit_laws::lemma_target;
use crate::limits::{all_limited, globals_named, name_at, reached, reached_interface};
use crate::linkup::{
    all_owned, based, external, externals_ok, indexable, is_place, lemma_globals, linked_interface,
    linked_protocol, outcome, place_named, protocol_externals_ok, same_places,
};
use crate::postparse::{
    expected, fixed_up, index_in, limit_line, marked, owned_interface, owned_message,
    protocol_targets_ok, target, targets_ok, PostparseError,
};
use crate::protocol::{
    interface_fresh, interface_names, lemma_name_index, message_fresh, name_index, names_distinct,
    protocol_fresh, InterfaceId, InterfaceV, MessageV, ProtocolV, SpecialMessage,
};
use vstd::prelude::*;

verus! {

/// The requests or the events of an interface.
pub open spec fn messages_in(i: InterfaceV, is_request: bool) -> Seq<MessageV> {
    if is_request {
        i.requests
    } else {
        i.events
    }
}

/// What a message of the base protocol is known as, by the name of its interface and its number.
pub open spec fn mark_of(interface: Seq<char>, is_request: bool, m: int) -> Option<SpecialMessage> {
    if interface == "wl_registry"@ && is_request && m == 0 {
        Some(SpecialMessage::WlRegistryBind)
    } else if interface == "wl_registry"@ && !is_request && m == 0 {
        Some(SpecialMessage::WlRegistryGlobal)
    } else if interface == "wl_display"@ && is_request && m == 0 {
        Some(SpecialMessage::WlDisplaySync)
    } else if interface == "wl_display"@ && !is_request && m == 1 {
        Some(SpecialMessage::WlDisplayDeleteId)
    } else {
        None
    }
}

/// Whether the messages of an interface are what they were, but for the marks of the base protocol.
spec fn only_marked(old: InterfaceV, new: InterfaceV, base: bool) -> bool {
    &&& new.name == old.name
    &&& new.parsed_version == old.parsed_version
    &&& forall|is_request: bool|
        (#[trigger] messages_in(new, is_request)).len() == messages_in(old, is_request).len()
    &&& forall|is_request: bool, m: int|
        0 <= m < messages_in(old, is_request).len() ==> #[trigger] messages_in(new, is_request)[m]
            == (MessageV {
            special: if base {
                mark_of(old.name, is_request, m)
            } else {
                None
            },
            ..messages_in(old, is_request)[m]
        })
}

proof fn lemma_base_names_apart()
    ensures
        "wl_registry"@ != "wl_display"@,
{
    reveal_strlit("wl_registry");
    reveal_strlit("wl_display");
    assert("wl_registry"@.len() != "wl_display"@.len());
}

proof fn lemma_fixed_up_messages(p: ProtocolV)
    requires
        protocol_fresh(p),
    ensures
        fixed_up(p) matches Ok((q, d)) ==> {
            &&& q.interfaces.len() == p.interfaces.len()
            &&& 0 <= d < p.interfaces.len()
            &&& p.interfaces[d].name == "wl_display"@
            &&& forall|j: int|
                0 <= j < p.interfaces.len() ==> only_marked(
                    p.interfaces[j],
                    #[trigger] q.interfaces[j],
                    true,
                )
        },
{
    let names = interface_names(p.interfaces);
    lemma_name_index(names, "wl_registry"@);
    lemma_name_index(names, "wl_display"@);
    lemma_name_index(names, "wl_callback"@);
    lemma_base_names_apart();
    if let Ok((q, d)) = fixed_up(p) {
        let r = expected(p, "wl_registry"@, true, 0, "bind"@)->Ok_0;
        let c = index_in(p, "wl_callback"@)->0;
        let p1 = marked(p, r, true, 0, SpecialMessage::WlRegistryBind);
        let p2 = marked(p1, r, false, 0, SpecialMessage::WlRegistryGlobal);
        let p3 = marked(p2, d, true, 0, SpecialMessage::WlDisplaySync);
        let p4 = marked(p3, d, false, 1, SpecialMessage::WlDisplayDeleteId);
        assert(names[r] == p.interfaces[r].name && names[d] == p.interfaces[d].name);
        assert(r != d);
        assert forall|j: int| 0 <= j < p.interfaces.len() implies only_marked(
            p.interfaces[j],
            #[trigger] q.interfaces[j],
            true,
        ) by {
            let old = p.interfaces[j];
            let new = q.interfaces[j];
            assert(interface_fresh(old));
            assert(new.requests == p4.interfaces[j].requests && new.events
                == p4.interfaces[j].events);
            if j != r {
                assert(old.name != "wl_registry"@) by {
                    if j < r {
                        assert(p.interfaces[j].name != p.interfaces[r].name);
                    } else {
                        assert(p.interfaces[r].name != p.interfaces[j].name);
                    }
                }
                assert(p2.interfaces[j] == old);
            }
            if j != d {
                assert(old.name != "wl_display"@) by {
                    if j < d {
                        assert(p.interfaces[j].name != p.interfaces[d].name);
                    } else {
                        assert(p.interfaces[d].name != p.interfaces[j].name);
                    }
                }
                assert(p4.interfaces[j] == p2.interfaces[j]);
            }
            assert forall|is_request: bool, m: int|
                0 <= m < messages_in(old, is_request).len() implies #[trigger] messages_in(
                new,
                is_request,
            )[m] == (MessageV {
                special: mark_of(old.name, is_request, m),
                ..messages_in(old, is_request)[m]
            }) by {
                assert(message_fresh(messages_in(old, is_request)[m])) by {
                    if is_request {
                        assert(message_fresh(old.requests[m]));
                    } else {
                        assert(message_fresh(old.events[m]));
                    }
                }
            }
        }
    }
}

proof fn lemma_based_messages(ps: Seq<ProtocolV>, n: nat)
    requires
        n <= ps.len(),
        indexable(ps),
        forall|p: int| 0 <= p < ps.len() ==> protocol_fresh(#[trigger] ps[p]),
    ensures
        based(ps, n) matches Ok((qs, display)) ==> {
            &&& same_places(ps, qs)
            &&& forall|p: int| n <= p < ps.len() ==> qs[p] == ps[p]
            &&& forall|p: int|
                #![trigger ps[p]]
                0 <= p < n ==> (ps[p].name == "wayland"@ <==> display is Some
                    && display->0.protocol == p)
            &&& display matches Some(d) ==> {
                &&& d.protocol < n
                &&& d.index < ps[d.protocol as int].interfaces.len()
                &&& ps[d.protocol as int].interfaces[d.index as int].name == "wl_display"@
            }
            &&& forall|p: int, j: int|
                #![trigger qs[p].interfaces[j]]
                0 <= p < ps.len() && 0 <= j < ps[p].interfaces.len() ==> only_marked(
                    ps[p].interfaces[j],
                    qs[p].interfaces[j],
                    p < n && ps[p].name == "wayland"@,
                )
        },
    decreases n,
{
    if n == 0 {
        assert forall|p: int, j: int|
            #![trigger ps[p].interfaces[j]]
            0 <= p < ps.len() && 0 <= j < ps[p].interfaces.len() implies only_marked(
            ps[p].interfaces[j],
            ps[p].interfaces[j],
            false,
        ) by {
            lemma_unmarked(ps[p], j);
        }
    } else {
        lemma_based_messages(ps, (n - 1) as nat);
        lemma_fixed_up_messages(ps[n - 1]);
        assert(ps[n - 1].interfaces.len() <= usize::MAX);
        if let Ok((qs, display)) = based(ps, n) {
            let before = based(ps, (n - 1) as nat)->Ok_0.0;
            assert forall|p: int, j: int|
                #![trigger qs[p].interfaces[j]]
                0 <= p < ps.len() && 0 <= j < ps[p].interfaces.len() implies only_marked(
                ps[p].interfaces[j],
                qs[p].interfaces[j],
                p < n && ps[p].name == "wayland"@,
            ) by {
                if p != n - 1 {
                    assert(qs[p] == before[p]);
                    assert(only_marked(
                        ps[p].interfaces[j],
                        before[p].interfaces[j],
                        p < n - 1 && ps[p].name == "wayland"@,
                    ));
                } else if ps[p].name != "wayland"@ {
                    assert(only_marked(ps[p].interfaces[j], before[p].interfaces[j], false));
                }
            }
        }
    }
}

proof fn lemma_unmarked(p: ProtocolV, j: int)
    requires
        protocol_fresh(p),
        0 <= j < p.interfaces.len(),
    ensures
        only_marked(p.interfaces[j], p.interfaces[j], false),
{
    let i = p.interfaces[j];
    assert(interface_fresh(i));
    assert forall|is_request: bool, m: int| 0 <= m < messages_in(i, is_request).len() implies (
    #[trigger] messages_in(i, is_request)[m]).special is None by {
        if is_request {
            assert(message_fresh(i.requests[m]));
        } else {
            assert(message_fresh(i.events[m]));
        }
    }
}

/// Limits change no message.
proof fn lemma_limited_messages(
    ps: Seq<ProtocolV>,
    lines: Seq<Seq<char>>,
    allow_missing: bool,
    n: nat,
)
    requires
        indexable(ps),
    ensures
        all_limited(ps, lines, allow_missing, n) matches Ok((qs, _)) ==> {
            &&& same_places(ps, qs)
            &&& forall|p: int, j: int|
                #![trigger qs[p].interfaces[j]]
                0 <= p < ps.len() && 0 <= j < ps[p].interfaces.len() ==> {
                    &&& qs[p].interfaces[j].name == ps[p].interfaces[j].name
                    &&& qs[p].interfaces[j].place == ps[p].interfaces[j].place
                    &&& qs[p].interfaces[j].parsed_version == ps[p].interfaces[j].parsed_version
                    &&& qs[p].interfaces[j].requests == ps[p].interfaces[j].requests
                    &&& qs[p].interfaces[j].events == ps[p].interfaces[j].events
                }
        },
    decreases n,
{
    if n > 0 {
        lemma_limited_messages(ps, lines, allow_missing, (n - 1) as nat);
        if let Ok((before, _)) = all_limited(ps, lines, allow_missing, (n - 1) as nat) {
            assert forall|p: int| 0 <= p < before.len() implies (
            #[trigger] before[p]).interfaces.len() <= usize::MAX by {
                assert(ps[p].interfaces.len() == before[p].interfaces.len());
            }
            if let Ok(Some((name, limit))) = limit_line(lines[n - 1]) {
                let found = globals_named(before, name, before.len());
                if found.len() == 1 {
                    lemma_globals(before, name, before.len());
                    assert(is_place(before, found[0]));
                }
            }
        }
    }
}

/// The steps from the documents to the outcome, for one message.
proof fn lemma_message_steps(
    ps: Seq<ProtocolV>,
    lines: Seq<Seq<char>>,
    allow_missing: bool,
    p: int,
    k: int,
    is_request: bool,
    m: int,
)
    requires
        indexable(ps),
        forall|p: int| 0 <= p < ps.len() ==> protocol_fresh(#[trigger] ps[p]),
        outcome(ps, lines, allow_missing) is Ok,
        0 <= p < ps.len(),
        0 <= k < ps[p].interfaces.len(),
        0 <= m < messages_in(ps[p].interfaces[k], is_request).len(),
    ensures
        ({
            let o = outcome(ps, lines, allow_missing)->Ok_0;
            let (base, _) = based(ps, ps.len())->Ok_0;
            let own = all_owned(base);
            let (lps, _) = all_limited(own, lines, allow_missing, lines.len())->Ok_0;
            let rps = reached(lps);
            let place = InterfaceId { protocol: p as usize, index: k as usize };
            let names = interface_names(ps[p].interfaces);
            let old = messages_in(ps[p].interfaces[k], is_request)[m];
            let new = messages_in(o.protocols[p].interfaces[k], is_request)[m];
            let known = MessageV {
                special: if ps[p].name == "wayland"@ {
                    mark_of(ps[p].interfaces[k].name, is_request, m)
                } else {
                    None
                },
                ..old
            };
            let owned = MessageV {
                active: new.active,
                ..owned_message(names, place, known)
            };
            &&& same_places(ps, o.protocols)
            &&& same_places(ps, rps)
            &&& forall|q: int, j: int|
                #![trigger rps[q].interfaces[j]]
                0 <= q < ps.len() && 0 <= j < ps[q].interfaces.len()
                    ==> rps[q].interfaces[j].name == ps[q].interfaces[j].name
            &&& messages_in(o.protocols[p].interfaces[k], is_request).len() == messages_in(
                ps[p].interfaces[k],
                is_request,
            ).len()
            &&& target(known) is Some
            &&& external(names, owned) matches Some(name) ==> place_named(rps, o.ids, name) is Some
            &&& new == match external(names, owned) {
                Some(name) => MessageV {
                    new_id_interface: place_named(rps, o.ids, name),
                    ..owned
                },
                None => owned,
            }
        }),
{
    let o = outcome(ps, lines, allow_missing)->Ok_0;
    let (base, _) = based(ps, ps.len())->Ok_0;
    let own = all_owned(base);
    lemma_based_messages(ps, ps.len());
    assert(same_places(ps, own)) by {
        assert forall|q: int| 0 <= q < ps.len() implies (#[trigger] ps[q]).interfaces.len()
            == own[q].interfaces.len() by {
            assert(ps[q].interfaces.len() == base[q].interfaces.len());
        }
    }
    assert(indexable(own)) by {
        assert forall|q: int| 0 <= q < own.len() implies (#[trigger] own[q]).interfaces.len()
            <= usize::MAX by {
            assert(ps[q].interfaces.len() == own[q].interfaces.len());
        }
    }
    lemma_limited_messages(own, lines, allow_missing, lines.len());
    let (lps, _) = all_limited(own, lines, allow_missing, lines.len())->Ok_0;
    let rps = reached(lps);
    assert forall|q: int| 0 <= q < ps.len() implies (#[trigger] ps[q]).interfaces.len()
        == rps[q].interfaces.len() by {
        assert(ps[q].interfaces.len() == own[q].interfaces.len());
        assert(own[q].interfaces.len() == lps[q].interfaces.len());
    }
    assert forall|q: int, j: int|
        #![trigger rps[q].interfaces[j]]
        0 <= q < ps.len() && 0 <= j < ps[q].interfaces.len() implies rps[q].interfaces[j].name
        == ps[q].interfaces[j].name by {
        assert(ps[q].interfaces.len() == base[q].interfaces.len());
        assert(ps[q].interfaces.len() == own[q].interfaces.len());
        assert(own[q].interfaces.len() == lps[q].interfaces.len());
        assert(rps[q].interfaces[j] == reached_interface(lps[q], j));
        assert(lps[q].interfaces[j].name == own[q].interfaces[j].name);
        assert(own[q].interfaces[j] == owned_interface(base[q], q as usize, j));
        assert(only_marked(
            ps[q].interfaces[j],
            base[q].interfaces[j],
            ps[q].name == "wayland"@,
        ));
    }
    assert forall|q: int| 0 <= q < ps.len() implies (#[trigger] ps[q]).interfaces.len()
        == o.protocols[q].interfaces.len() by {
        assert(ps[q].interfaces.len() == rps[q].interfaces.len());
    }
    let names = interface_names(ps[p].interfaces);
    assert(ps[p].interfaces.len() == base[p].interfaces.len());
    assert(ps[p].interfaces.len() == rps[p].interfaces.len());
    assert(interface_names(base[p].interfaces) =~= names) by {
        assert forall|j: int| 0 <= j < names.len() implies interface_names(base[p].interfaces)[j]
            == names[j] by {
            assert(only_marked(
                ps[p].interfaces[j],
                base[p].interfaces[j],
                ps[p].name == "wayland"@,
            ));
        }
    }
    assert(interface_names(rps[p].interfaces) =~= names) by {
        assert forall|j: int| 0 <= j < names.len() implies interface_names(rps[p].interfaces)[j]
            == names[j] by {
            assert(rps[p].interfaces[j].name == ps[p].interfaces[j].name);
        }
    }
    let b = base[p].interfaces[k];
    assert(only_marked(ps[p].interfaces[k], b, ps[p].name == "wayland"@));
    let known = messages_in(b, is_request)[m];
    assert(own[p].interfaces[k] == owned_interface(base[p], p as usize, k));
    let place = InterfaceId { protocol: p as usize, index: k as usize };
    assert(messages_in(own[p].interfaces[k], is_request)[m] == owned_message(names, place, known));
    assert(lps[p].interfaces[k].requests == own[p].interfaces[k].requests);
    assert(rps[p].interfaces[k] == reached_interface(lps[p], k));
    let r = messages_in(rps[p].interfaces[k], is_request)[m];
    assert(r == MessageV { active: r.active, ..owned_message(names, place, known) });
    assert(o.protocols[p] == linked_protocol(rps, o.ids, rps[p]));
    assert(o.protocols[p].interfaces[k] == linked_interface(
        rps,
        o.ids,
        names,
        rps[p].interfaces[k],
    ));
    assert(protocol_targets_ok(base[p]));
    assert(targets_ok(b.requests) && targets_ok(b.events));
    assert(target(known) is Some);
    assert(protocol_externals_ok(rps, o.ids, rps[p]));
    assert(externals_ok(rps, o.ids, names, rps[p].interfaces[k].requests));
    if is_request {
        assert(external(names, rps[p].interfaces[k].requests[m]) matches Some(name) ==> place_named(
            rps,
            o.ids,
            name,
        ) is Some);
    } else {
        assert(external(names, rps[p].interfaces[k].events[m]) matches Some(name) ==> place_named(
            rps,
            o.ids,
            name,
        ) is Some);
    }
}

/// Whether an argument of a message is a new object of the interface with a name.
pub open spec fn is_new_object(m: MessageV, j: int, name: Seq<char>) -> bool {
    0 <= j < m.args.len() && m.args[j].typ is NewId && m.args[j].interface_name == Some(name)
}

/// A message knows where it belongs, and the interface of the object that it creates: the one in its
/// own protocol that has the name that the document gives, and if there is none there, and the message
/// is active, the active one that has it. What else the document says of the message stays.
#[verifier::rlimit(60)]
pub proof fn law_messages_know_what_they_create(
    ps: Seq<ProtocolV>,
    lines: Seq<Seq<char>>,
    allow_missing: bool,
    p: int,
    k: int,
    is_request: bool,
    m: int,
    j: int,
    name: Seq<char>,
)
    requires
        indexable(ps),
        forall|p: int| 0 <= p < ps.len() ==> protocol_fresh(#[trigger] ps[p]),
        outcome(ps, lines, allow_missing) is Ok,
        0 <= p < ps.len(),
        0 <= k < ps[p].interfaces.len(),
        0 <= m < messages_in(ps[p].interfaces[k], is_request).len(),
    ensures
        ({
            let o = outcome(ps, lines, allow_missing)->Ok_0;
            let old = messages_in(ps[p].interfaces[k], is_request)[m];
            let new = messages_in(o.protocols[p].interfaces[k], is_request)[m];
            let siblings = ps[p].interfaces;
            &&& new.name == old.name
            &&& new.since == old.since
            &&& new.opcode == old.opcode
            &&& new.args == old.args
            &&& new.num_fds == old.num_fds
            &&& new.is_request == old.is_request
            &&& new.handlers is None
            &&& new.owner == Some(InterfaceId { protocol: p as usize, index: k as usize })
            &&& new.special == if ps[p].name == "wayland"@ {
                mark_of(ps[p].interfaces[k].name, is_request, m)
            } else {
                None
            }
            &&& (forall|i: int, n: Seq<char>| !is_new_object(old, i, n))
                ==> new.new_id_interface is None
            &&& is_new_object(old, j, name) ==> {
                &&& forall|x: int|
                    0 <= x < siblings.len() && (#[trigger] siblings[x]).name == name
                        ==> new.new_id_interface == Some(
                        InterfaceId { protocol: p as usize, index: x as usize },
                    )
                &&& (forall|x: int| 0 <= x < siblings.len() ==> (#[trigger] siblings[x]).name != name)
                    ==> if new.active {
                    exists|x: int|
                        0 <= x < o.ids.len() && new.new_id_interface == Some(#[trigger] o.ids[x])
                            && name_at(o.protocols, o.ids[x]) == name
                } else {
                    new.new_id_interface is None
                }
            }
        }),
{
    let o = outcome(ps, lines, allow_missing)->Ok_0;
    lemma_message_steps(ps, lines, allow_missing, p, k, is_request, m);
    let (base, _) = based(ps, ps.len())->Ok_0;
    let own = all_owned(base);
    let (lps, _) = all_limited(own, lines, allow_missing, lines.len())->Ok_0;
    let rps = reached(lps);
    let names = interface_names(ps[p].interfaces);
    let old = messages_in(ps[p].interfaces[k], is_request)[m];
    let new = messages_in(o.protocols[p].interfaces[k], is_request)[m];
    let known = MessageV {
        special: if ps[p].name == "wayland"@ {
            mark_of(ps[p].interfaces[k].name, is_request, m)
        } else {
            None
        },
        ..old
    };
    assert(protocol_fresh(ps[p]));
    assert(interface_fresh(ps[p].interfaces[k]));
    assert(message_fresh(old)) by {
        if is_request {
            assert(message_fresh(ps[p].interfaces[k].requests[m]));
        } else {
            assert(message_fresh(ps[p].interfaces[k].events[m]));
        }
    }
    if forall|i: int, n: Seq<char>| !is_new_object(old, i, n) {
        if let Some(Some(n)) = target(known) {
            lemma_target(known, n);
            let i = choose|i: int|
                0 <= i < known.args.len() && (#[trigger] known.args[i]).typ is NewId
                    && known.args[i].interface_name == Some(n);
            assert(is_new_object(old, i, n));
        }
    }
    if is_new_object(old, j, name) {
        assert(known.args[j].typ is NewId);
        lemma_target(known, name);
        assert(target(known) == Some(Some(name)));
        lemma_sibling_named(ps[p], name);
        let siblings = ps[p].interfaces;
        if forall|x: int| 0 <= x < siblings.len() ==> (#[trigger] siblings[x]).name != name {
            let active_names = Seq::new(o.ids.len(), |i: int| name_at(rps, o.ids[i]));
            lemma_name_index(active_names, name);
            if new.active {
                let x = name_index(active_names, name)->0;
                assert(active_names[x] == name);
                assert(new.new_id_interface == Some(o.ids[x]));
                lemma_same_name(ps, lines, allow_missing, o.ids[x]);
            }
        }
    }
}

/// An interface is found among its siblings by its name.
proof fn lemma_sibling_named(p: ProtocolV, name: Seq<char>)
    requires
        names_distinct(p),
    ensures
        forall|x: int|
            0 <= x < p.interfaces.len() && (#[trigger] p.interfaces[x]).name == name ==> name_index(
                interface_names(p.interfaces),
                name,
            ) == Some(x),
        (forall|x: int| 0 <= x < p.interfaces.len() ==> (#[trigger] p.interfaces[x]).name != name)
            ==> name_index(interface_names(p.interfaces), name) is None,
{
    let names = interface_names(p.interfaces);
    lemma_name_index(names, name);
    assert forall|x: int|
        0 <= x < p.interfaces.len() && (#[trigger] p.interfaces[x]).name == name implies name_index(
        names,
        name,
    ) == Some(x) by {
        assert(names[x] == name);
        let y = name_index(names, name)->0;
        assert(names[y] == p.interfaces[y].name);
        if x < y {
            assert(p.interfaces[x].name != p.interfaces[y].name);
        } else if y < x {
            assert(p.interfaces[y].name != p.interfaces[x].name);
        }
    }
    if let Some(y) = name_index(names, name) {
        assert(names[y] == p.interfaces[y].name);
    }
}

/// Linking changes no name.
proof fn lemma_same_name(
    ps: Seq<ProtocolV>,
    lines: Seq<Seq<char>>,
    allow_missing: bool,
    id: InterfaceId,
)
    requires
        indexable(ps),
        forall|p: int| 0 <= p < ps.len() ==> protocol_fresh(#[trigger] ps[p]),
        outcome(ps, lines, allow_missing) is Ok,
        outcome(ps, lines, allow_missing)->Ok_0.ids.contains(id),
    ensures
        ({
            let o = outcome(ps, lines, allow_missing)->Ok_0;
            let (base, _) = based(ps, ps.len())->Ok_0;
            let (lps, _) = all_limited(all_owned(base), lines, allow_missing, lines.len())->Ok_0;
            name_at(o.protocols, id) == name_at(reached(lps), id)
        }),
{
    let o = outcome(ps, lines, allow_missing)->Ok_0;
    let (base, _) = based(ps, ps.len())->Ok_0;
    let own = all_owned(base);
    let (lps, _) = all_limited(own, lines, allow_missing, lines.len())->Ok_0;
    lemma_based_messages(ps, ps.len());
    assert(indexable(own)) by {
        assert forall|q: int| 0 <= q < own.len() implies (#[trigger] own[q]).interfaces.len()
            <= usize::MAX by {
            assert(ps[q].interfaces.len() == base[q].interfaces.len());
            assert(ps[q].interfaces.len() <= usize::MAX);
        }
    }
    lemma_limited_messages(own, lines, allow_missing, lines.len());
    assert forall|q: int| 0 <= q < lps.len() implies (#[trigger] lps[q]).interfaces.len()
        <= usize::MAX by {
        assert(own[q].interfaces.len() <= usize::MAX);
    }
    crate::limits::lemma_actives_of(lps, lps.len());
    let x = choose|x: int| 0 <= x < o.ids.len() && o.ids[x] == id;
    assert(crate::limits::reached_at(lps, o.ids[x]));
}

/// The display is that of the base protocol, which is the one named `wayland`. There has to be
/// exactly one.
pub proof fn law_the_display_is_in_the_base(
    ps: Seq<ProtocolV>,
    lines: Seq<Seq<char>>,
    allow_missing: bool,
    p: int,
    q: int,
)
    requires
        indexable(ps),
        forall|p: int| 0 <= p < ps.len() ==> protocol_fresh(#[trigger] ps[p]),
    ensures
        outcome(ps, lines, allow_missing) matches Ok(o) ==> {
            let d = o.display;
            &&& d.protocol < ps.len()
            &&& d.index < ps[d.protocol as int].interfaces.len()
            &&& ps[d.protocol as int].name == "wayland"@
            &&& ps[d.protocol as int].interfaces[d.index as int].name == "wl_display"@
        },
        (forall|x: int| 0 <= x < ps.len() ==> (#[trigger] ps[x]).name != "wayland"@) ==> outcome(
            ps,
            lines,
            allow_missing,
        ) == Err::<crate::linkup::Outcome, PostparseError>(PostparseError::MissingBase),
        0 <= p < q < ps.len() && ps[p].name == "wayland"@ && ps[q].name == "wayland"@ ==> outcome(
            ps,
            lines,
            allow_missing,
        ) is Err,
{
    lemma_based_messages(ps, ps.len());
    if forall|x: int| 0 <= x < ps.len() ==> (#[trigger] ps[x]).name != "wayland"@ {
        lemma_no_base(ps, ps.len());
    }
    if let Ok((_, Some(d))) = based(ps, ps.len()) {
        assert(ps[d.protocol as int].name == "wayland"@);
    }
}

proof fn lemma_no_base(ps: Seq<ProtocolV>, n: nat)
    requires
        n <= ps.len(),
        forall|x: int| 0 <= x < ps.len() ==> (#[trigger] ps[x]).name != "wayland"@,
    ensures
        based(ps, n) == Ok::<(Seq<ProtocolV>, Option<InterfaceId>), PostparseError>((ps, None)),
    decreases n,
{
    if n > 0 {
        lemma_no_base(ps, (n - 1) as nat);
        assert(ps[n - 1].name != "wayland"@);
    }
}

/// An interface knows its place, and keeps its name and the version that the document gives.
pub proof fn law_interfaces_know_their_place(
    ps: Seq<ProtocolV>,
    lines: Seq<Seq<char>>,
    allow_missing: bool,
    p: int,
    k: int,
)
    requires
        indexable(ps),
        forall|p: int| 0 <= p < ps.len() ==> protocol_fresh(#[trigger] ps[p]),
        outcome(ps, lines, allow_missing) is Ok,
        0 <= p < ps.len(),
        0 <= k < ps[p].interfaces.len(),
    ensures
        ({
            let o = outcome(ps, lines, allow_missing)->Ok_0;
            let i = o.protocols[p].interfaces[k];
            &&& o.protocols.len() == ps.len()
            &&& o.protocols[p].interfaces.len() == ps[p].interfaces.len()
            &&& i.place == Some(InterfaceId { protocol: p as usize, index: k as usize })
            &&& i.name == ps[p].interfaces[k].name
            &&& i.parsed_version == ps[p].interfaces[k].parsed_version
        }),
{
    let o = outcome(ps, lines, allow_missing)->Ok_0;
    let (base, _) = based(ps, ps.len())->Ok_0;
    let own = all_owned(base);
    let (lps, _) = all_limited(own, lines, allow_missing, lines.len())->Ok_0;
    lemma_based_messages(ps, ps.len());
    assert(ps[p].interfaces.len() == base[p].interfaces.len());
    assert(indexable(own)) by {
        assert forall|q: int| 0 <= q < own.len() implies (#[trigger] own[q]).interfaces.len()
            <= usize::MAX by {
            assert(ps[q].interfaces.len() == base[q].interfaces.len());
            assert(ps[q].interfaces.len() <= usize::MAX);
        }
    }
    lemma_limited_messages(own, lines, allow_missing, lines.len());
    assert(own[p].interfaces.len() == lps[p].interfaces.len());
    assert(own[p].interfaces[k] == owned_interface(base[p], p as usize, k));
    assert(lps[p].interfaces[k].place == own[p].interfaces[k].place);
    assert(reached(lps)[p].interfaces[k] == reached_interface(lps[p], k));
    assert(only_marked(ps[p].interfaces[k], base[p].interfaces[k], ps[p].name == "wayland"@));
}

} // verus!
