//! What holds of the handlers that `safeclip` adds.

use crate::addons::{
    all_clipped, clipped, clips_added, has_mime_type, known_mime_messages, mime_message_ok,
    with_safeclip, AddonError, Handler, PushV,
};
use crate::for_handlers::AddHandlerError;
use crate::handlers::{message_at, with_handler, AllHandlersV};
use crate::limits::name_at;
use crate::linkup::{is_place, place_named};
use crate::protocol::{
    lemma_name_index, lemma_name_index_is, message_index, message_names, HandlerEntryV, InterfaceId,
    InterfaceV, MessageV,
};
use vstd::prelude::*;

verus! {

/// The active interface number `a`.
pub open spec fn active_at(v: AllHandlersV<Handler>, a: int) -> InterfaceV {
    v.protocols[v.map[a].protocol as int].interfaces[v.map[a].index as int]
}

/// How many requests or events the active interface number `a` has.
pub open spec fn count_at(v: AllHandlersV<Handler>, a: int, is_request: bool) -> nat {
    if is_request {
        active_at(v, a).requests.len()
    } else {
        active_at(v, a).events.len()
    }
}

/// Whether there is an active interface number `a`, with a request or event number `k`.
pub open spec fn there_is(v: AllHandlersV<Handler>, a: int, is_request: bool, k: int) -> bool {
    0 <= a < v.map.len() && 0 <= k < count_at(v, a, is_request)
}

/// Request or event number `k` of the active interface number `a`.
pub open spec fn active_message(v: AllHandlersV<Handler>, a: int, is_request: bool, k: int) -> MessageV {
    if is_request {
        active_at(v, a).requests[k]
    } else {
        active_at(v, a).events[k]
    }
}

/// Whether the clipboard or a title passes through a message: it is active, and has a string that is
/// called a mime type, or is a request that sets a title.
pub open spec fn carries(m: MessageV, is_request: bool) -> bool {
    m.active && ((is_request && m.name == "set_title"@) || exists|j: int|
        0 <= j < m.args.len() && (#[trigger] m.args[j]).typ is String && m.args[j].name
            == "mime_type"@)
}

/// Whether all active interfaces are there, and no two of them, and no two requests or events of one
/// of them, have the same name.
pub open spec fn told_apart(v: AllHandlersV<Handler>) -> bool {
    &&& forall|a: int| 0 <= a < v.map.len() ==> is_place(v.protocols, #[trigger] v.map[a])
    &&& forall|a: int, b: int|
        0 <= a < b < v.map.len() ==> (#[trigger] active_at(v, a)).name != (#[trigger] active_at(
            v,
            b,
        )).name
    &&& forall|a: int, r: bool, j: int, k: int|
        there_is(v, a, r, j) && there_is(v, a, r, k) && j < k ==> (#[trigger] active_message(
            v,
            a,
            r,
            j,
        )).name != (#[trigger] active_message(v, a, r, k)).name
}

/// The handlers that see a message, in order.
pub open spec fn queue_of(m: MessageV) -> Seq<HandlerEntryV> {
    match m.handlers {
        Some(queue) => queue,
        None => Seq::empty(),
    }
}

/// Whether an entry is one for a handler and for the group that was the last one.
pub open spec fn is_entry(
    v: AllHandlersV<Handler>,
    w: AllHandlersV<Handler>,
    entry: HandlerEntryV,
    handler: Handler,
) -> bool {
    &&& entry.handler < w.handlers.len()
    &&& w.handlers[entry.handler as int] == handler
    &&& entry.group == v.groups.len() - 1
    &&& entry.group_name == v.groups.last()
}

spec fn push_for(v: AllHandlersV<Handler>, a: int, is_request: bool, k: int) -> PushV {
    PushV {
        interface_name: active_at(v, a).name,
        message_name: active_message(v, a, is_request, k).name,
        is_request,
    }
}

spec fn entry_for(v: AllHandlersV<Handler>, x: int) -> HandlerEntryV {
    HandlerEntryV {
        handler: (v.handlers.len() + x) as usize,
        group: (v.groups.len() - 1) as usize,
        group_name: v.groups.last(),
    }
}

/// Whether pushes are all different, and each is for a message that carries something.
spec fn well_aimed(v: AllHandlersV<Handler>, pushes: Seq<PushV>, n: int) -> bool {
    &&& forall|x: int, y: int|
        0 <= x < y < pushes.len() ==> #[trigger] pushes[x] != #[trigger] pushes[y]
    &&& forall|x: int|
        0 <= x < pushes.len() ==> is_aimed(v, #[trigger] pushes[x], n)
}

spec fn is_aimed(v: AllHandlersV<Handler>, push: PushV, n: int) -> bool {
    exists|a: int, k: int| a < n && #[trigger] aims_at(v, push, a, k)
}

spec fn is_aimed_in(v: AllHandlersV<Handler>, push: PushV, a: int, n: int) -> bool {
    exists|k: int| k < n && #[trigger] aims_at(v, push, a, k)
}

spec fn aims_at(v: AllHandlersV<Handler>, push: PushV, a: int, k: int) -> bool {
    &&& there_is(v, a, push.is_request, k)
    &&& carries(active_message(v, a, push.is_request, k), push.is_request)
    &&& push == push_for(v, a, push.is_request, k)
}

spec fn messages_at(v: AllHandlersV<Handler>, a: int, r: bool) -> Seq<MessageV> {
    if r {
        active_at(v, a).requests
    } else {
        active_at(v, a).events
    }
}

spec fn clips_at(v: AllHandlersV<Handler>, a: int, r: bool, n: nat) -> Seq<PushV> {
    clipped(active_at(v, a).name, messages_at(v, a, r), r, n)
}

proof fn lemma_clipped(v: AllHandlersV<Handler>, a: int, r: bool, n: nat)
    requires
        told_apart(v),
        0 <= a < v.map.len(),
        n <= count_at(v, a, r),
    ensures
        ({
            let i = active_at(v, a);
            let pushes = clips_at(v, a, r, n);
            &&& forall|k: int|
                0 <= k < n && carries(#[trigger] active_message(v, a, r, k), r) ==> pushes.contains(
                    push_for(v, a, r, k),
                )
            &&& forall|x: int|
                0 <= x < pushes.len() ==> is_aimed_in(v, #[trigger] pushes[x], a, n as int)
            &&& forall|x: int|
                0 <= x < pushes.len() ==> (#[trigger] pushes[x]).is_request == r
                    && pushes[x].interface_name == i.name
            &&& forall|x: int, y: int|
                0 <= x < y < pushes.len() ==> #[trigger] pushes[x] != #[trigger] pushes[y]
        }),
    decreases n,
{
    if n > 0 {
        let m = (n - 1) as nat;
        lemma_clipped(v, a, r, m);
        let before = clips_at(v, a, r, m);
        let pushes = clips_at(v, a, r, n);
        let last = active_message(v, a, r, m as int);
        assert(messages_at(v, a, r)[m as int] == last);
        if carries(last, r) {
            assert(pushes == before.push(push_for(v, a, r, m as int)));
            assert(pushes[before.len() as int] == push_for(v, a, r, m as int));
            assert(aims_at(v, pushes[before.len() as int], a, m as int));
        } else {
            assert(pushes == before);
        }
        assert forall|k: int|
            0 <= k < n && carries(#[trigger] active_message(v, a, r, k), r) implies pushes.contains(
            push_for(v, a, r, k),
        ) by {
            if k < m {
                assert(before.contains(push_for(v, a, r, k)));
                let x = choose|x: int| 0 <= x < before.len() && before[x] == push_for(v, a, r, k);
                assert(pushes[x] == push_for(v, a, r, k));
            }
        }
        assert forall|x: int| 0 <= x < pushes.len() implies is_aimed_in(
            v,
            #[trigger] pushes[x],
            a,
            n as int,
        ) by {
            if x < before.len() {
                assert(pushes[x] == before[x]);
                assert(is_aimed_in(v, before[x], a, m as int));
                let k = choose|k: int| k < m && #[trigger] aims_at(v, before[x], a, k);
                assert(k < n && aims_at(v, pushes[x], a, k));
            } else {
                assert((m as int) < n && aims_at(v, pushes[x], a, m as int));
            }
        }
        assert forall|x: int, y: int| 0 <= x < y < pushes.len() implies #[trigger] pushes[x]
            != #[trigger] pushes[y] by {
            if y == before.len() {
                assert(pushes[x] == before[x]);
                assert(is_aimed_in(v, before[x], a, m as int));
                let k = choose|k: int| k < m && #[trigger] aims_at(v, before[x], a, k);
                assert(active_message(v, a, r, k).name != active_message(v, a, r, m as int).name);
            } else {
                assert(before[x] != before[y]);
            }
        }
    }
}

proof fn lemma_all_clipped(v: AllHandlersV<Handler>, n: nat)
    requires
        told_apart(v),
        n <= v.map.len(),
    ensures
        well_aimed(v, all_clipped(v, n), n as int),
        forall|a: int, r: bool, k: int|
            a < n && there_is(v, a, r, k) && carries(#[trigger] active_message(v, a, r, k), r)
                ==> all_clipped(v, n).contains(push_for(v, a, r, k)),
    decreases n,
{
    if n > 0 {
        let m = (n - 1) as nat;
        let b = m as int;
        lemma_all_clipped(v, m);
        let i = active_at(v, b);
        lemma_clipped(v, b, true, i.requests.len());
        lemma_clipped(v, b, false, i.events.len());
        let before = all_clipped(v, m);
        let requests = clips_at(v, b, true, i.requests.len());
        let events = clips_at(v, b, false, i.events.len());
        let all = all_clipped(v, n);
        assert(all == before + requests + events);
        assert forall|x: int| 0 <= x < before.len() implies #[trigger] all[x] == before[x] by {}
        assert forall|x: int| 0 <= x < requests.len() implies all[before.len() + x]
            == #[trigger] requests[x] by {}
        assert forall|x: int| 0 <= x < events.len() implies all[before.len() + requests.len() + x]
            == #[trigger] events[x] by {}
        assert forall|x: int| 0 <= x < all.len() implies is_aimed(
            v,
            #[trigger] all[x],
            n as int,
        ) by {
            if x < before.len() {
                assert(is_aimed(v, before[x], m as int));
                let (a, k) = choose|a: int, k: int|
                    a < m && #[trigger] aims_at(v, before[x], a, k);
                assert(aims_at(v, all[x], a, k));
            } else if x < before.len() + requests.len() {
                let y = x - before.len();
                assert(is_aimed_in(v, requests[y], b, i.requests.len() as int));
                let k = choose|k: int|
                    k < i.requests.len() && #[trigger] aims_at(v, requests[y], b, k);
                assert(aims_at(v, all[x], b, k));
            } else {
                let y = x - before.len() - requests.len();
                assert(is_aimed_in(v, events[y], b, i.events.len() as int));
                let k = choose|k: int|
                    k < i.events.len() && #[trigger] aims_at(v, events[y], b, k);
                assert(aims_at(v, all[x], b, k));
            }
        }
        assert forall|x: int, y: int| 0 <= x < y < all.len() implies #[trigger] all[x]
            != #[trigger] all[y] by {
            if x < before.len() {
                assert(is_aimed(v, before[x], m as int));
                let (a, k) = choose|a: int, k: int|
                    a < m && #[trigger] aims_at(v, before[x], a, k);
                if y < before.len() {
                    assert(before[x] != before[y]);
                } else {
                    assert(active_at(v, a).name != active_at(v, b).name);
                    assert(all[x].interface_name == active_at(v, a).name);
                    if y < before.len() + requests.len() {
                        assert(requests[y - before.len()].interface_name == i.name);
                    } else {
                        assert(events[y - before.len() - requests.len()].interface_name == i.name);
                    }
                }
            } else if x < before.len() + requests.len() {
                if y < before.len() + requests.len() {
                    assert(requests[x - before.len()] != requests[y - before.len()]);
                } else {
                    assert(requests[x - before.len()].is_request);
                    assert(!events[y - before.len() - requests.len()].is_request);
                }
            } else {
                assert(events[x - before.len() - requests.len()] != events[y - before.len()
                    - requests.len()]);
            }
        }
        assert forall|a: int, r: bool, k: int|
            a < n && there_is(v, a, r, k) && carries(
                #[trigger] active_message(v, a, r, k),
                r,
            ) implies all.contains(push_for(v, a, r, k)) by {
            let p = push_for(v, a, r, k);
            if a < m {
                assert(before.contains(p));
                let x = choose|x: int| 0 <= x < before.len() && before[x] == p;
                assert(all[x] == p);
            } else if r {
                assert(requests.contains(p));
                let x = choose|x: int| 0 <= x < requests.len() && requests[x] == p;
                assert(all[before.len() + x] == p);
            } else {
                assert(events.contains(p));
                let x = choose|x: int| 0 <= x < events.len() && events[x] == p;
                assert(all[before.len() + requests.len() + x] == p);
            }
        }
    }
}

/// Whether two interfaces are the same but for their messages, and have as many of them.
spec fn alike(i: InterfaceV, j: InterfaceV) -> bool {
    &&& (InterfaceV { requests: i.requests, events: i.events, ..j }) == i
    &&& i.requests.len() == j.requests.len()
    &&& i.events.len() == j.events.len()
}

/// What has become of all handlers when the first `n` pushes have been made.
spec fn pushed_so_far(
    v: AllHandlersV<Handler>,
    w: AllHandlersV<Handler>,
    pushes: Seq<PushV>,
    n: int,
) -> bool {
    &&& w.map == v.map
    &&& w.groups == v.groups
    &&& w.display == v.display
    &&& w.handlers.len() == v.handlers.len() + n
    &&& forall|h: int| 0 <= h < v.handlers.len() ==> #[trigger] w.handlers[h] == v.handlers[h]
    &&& forall|x: int|
        0 <= x < n ==> w.handlers[v.handlers.len() + x] == if (#[trigger] pushes[x]).is_request {
            Handler::AddPrefix
        } else {
            Handler::RemovePrefix
        }
    &&& w.protocols.len() == v.protocols.len()
    &&& forall|p: int|
        0 <= p < v.protocols.len() ==> (#[trigger] w.protocols[p]).interfaces.len()
            == v.protocols[p].interfaces.len() && w.protocols[p].name == v.protocols[p].name
            && w.protocols[p].active == v.protocols[p].active
    &&& forall|id: InterfaceId|
        is_place(v.protocols, id) && !v.map.contains(id) ==> #[trigger] interface_of(w, id)
            == interface_of(v, id)
    &&& forall|a: int| 0 <= a < v.map.len() ==> alike(active_at(v, a), #[trigger] active_at(w, a))
    &&& forall|a: int, r: bool, k: int|
        there_is(v, a, r, k) && (forall|x: int|
            0 <= x < n ==> #[trigger] pushes[x] != push_for(v, a, r, k)) ==> #[trigger] active_message(
            w,
            a,
            r,
            k,
        ) == active_message(v, a, r, k)
    &&& forall|a: int, r: bool, k: int, x: int|
        there_is(v, a, r, k) && 0 <= x < n && pushes[x] == push_for(v, a, r, k) ==> #[trigger] active_message(
            w,
            a,
            r,
            k,
        ) == with_handler(active_message(v, a, r, k), entry_for(v, #[trigger] id(x)), !r)
}

spec fn id(x: int) -> int {
    x
}

/// The interface at a place.
pub open spec fn interface_of(v: AllHandlersV<Handler>, id: InterfaceId) -> InterfaceV {
    v.protocols[id.protocol as int].interfaces[id.index as int]
}

/// Every message keeps its name, and whether it is active.
proof fn lemma_still_there(
    v: AllHandlersV<Handler>,
    w: AllHandlersV<Handler>,
    pushes: Seq<PushV>,
    n: int,
    a: int,
    r: bool,
    k: int,
)
    requires
        pushed_so_far(v, w, pushes, n),
        there_is(v, a, r, k),
    ensures
        there_is(w, a, r, k),
        active_message(w, a, r, k).name == active_message(v, a, r, k).name,
        active_message(w, a, r, k).active == active_message(v, a, r, k).active,
{
    assert(alike(active_at(v, a), active_at(w, a)));
    if exists|x: int| 0 <= x < n && #[trigger] pushes[x] == push_for(v, a, r, k) {
        let x = choose|x: int| 0 <= x < n && #[trigger] pushes[x] == push_for(v, a, r, k);
        assert(active_message(w, a, r, k) == with_handler(
            active_message(v, a, r, k),
            entry_for(v, id(x)),
            !r,
        ));
    }
}

/// A message is found by its name, however many pushes have been made.
proof fn lemma_found_by_name(
    v: AllHandlersV<Handler>,
    w: AllHandlersV<Handler>,
    pushes: Seq<PushV>,
    n: int,
    a: int,
    r: bool,
    k: int,
)
    requires
        told_apart(v),
        pushed_so_far(v, w, pushes, n),
        there_is(v, a, r, k),
        active_message(v, a, r, k).active,
    ensures
        w.place(active_at(v, a).name, active_message(v, a, r, k).name, r) == Ok::<
            (InterfaceId, int),
            AddHandlerError,
        >((v.map[a], k)),
{
    let names = Seq::new(w.map.len(), |i: int| name_at(w.protocols, w.map[i]));
    assert forall|b: int| 0 <= b < w.map.len() implies names[b] == (#[trigger] active_at(v, b)).name by {
        assert(alike(active_at(v, b), active_at(w, b)));
    }
    assert(names[a] == active_at(v, a).name);
    assert forall|b: int| 0 <= b < a implies names[b] != active_at(v, a).name by {
        assert(active_at(v, b).name != active_at(v, a).name);
    }
    lemma_name_index_is(names, active_at(v, a).name, a);
    let i = active_at(w, a);
    let messages = if r {
        i.requests
    } else {
        i.events
    };
    let name = active_message(v, a, r, k).name;
    lemma_still_there(v, w, pushes, n, a, r, k);
    assert(message_names(messages)[k] == name);
    assert forall|j: int| 0 <= j < k implies message_names(messages)[j] != name by {
        assert(there_is(v, a, r, j));
        lemma_still_there(v, w, pushes, n, a, r, j);
        assert(active_message(v, a, r, j).name != active_message(v, a, r, k).name);
        assert(message_names(messages)[j] == active_message(w, a, r, j).name);
    }
    lemma_name_index_is(message_names(messages), name, k);
}

/// Two messages with the same names are the same.
proof fn lemma_one_message(v: AllHandlersV<Handler>, a: int, b: int, r: bool, s: bool, j: int, k: int)
    requires
        told_apart(v),
        there_is(v, a, r, j),
        there_is(v, b, s, k),
        push_for(v, a, r, j) == push_for(v, b, s, k),
    ensures
        a == b,
        r == s,
        j == k,
{
    if a < b {
        assert(active_at(v, a).name != active_at(v, b).name);
    } else if b < a {
        assert(active_at(v, b).name != active_at(v, a).name);
    } else if j < k {
        assert(active_message(v, a, r, j).name != active_message(v, a, r, k).name);
    } else if k < j {
        assert(active_message(v, a, r, k).name != active_message(v, a, r, j).name);
    }
}

#[verifier::rlimit(60)]
proof fn lemma_push(
    v: AllHandlersV<Handler>,
    w: AllHandlersV<Handler>,
    pushes: Seq<PushV>,
    n: int,
    a: int,
    k: int,
)
    requires
        told_apart(v),
        well_aimed(v, pushes, v.map.len() as int),
        0 <= n < pushes.len(),
        pushed_so_far(v, w, pushes, n),
        aims_at(v, pushes[n], a, k),
    ensures
        ({
            let r = pushes[n].is_request;
            let handler = if r {
                Handler::AddPrefix
            } else {
                Handler::RemovePrefix
            };
            pushed_so_far(v, w.pushed(v.map[a], r, k, !r, handler), pushes, n + 1)
        }),
{
    let r = pushes[n].is_request;
    let handler = if r {
        Handler::AddPrefix
    } else {
        Handler::RemovePrefix
    };
    let place = v.map[a];
    let after = w.pushed(place, r, k, !r, handler);
    assert(is_place(v.protocols, v.map[a]));
    assert(w.next_entry() == entry_for(v, id(n)));
    assert forall|b: int| 0 <= b < v.map.len() && b != a implies #[trigger] active_at(after, b)
        == active_at(w, b) && v.map[b] != place by {
        assert(is_place(v.protocols, v.map[b]));
        if b < a {
            assert(active_at(v, b).name != active_at(v, a).name);
        } else {
            assert(active_at(v, a).name != active_at(v, b).name);
        }
    }
    assert(alike(active_at(v, a), active_at(w, a)));
    assert(there_is(v, a, r, k));
    assert forall|x: int| 0 <= x < n implies #[trigger] pushes[x] != push_for(v, a, r, k) by {
        assert(pushes[x] != pushes[n]);
    }
    assert(active_message(w, a, r, k) == active_message(v, a, r, k));
    assert(message_at(w.protocols, place, r, k) == active_message(w, a, r, k));
    assert(active_message(after, a, r, k) == with_handler(
        active_message(v, a, r, k),
        entry_for(v, id(n)),
        !r,
    ));
    assert forall|b: int, s: bool, j: int|
        there_is(v, b, s, j) && !(b == a && s == r && j == k) implies #[trigger] active_message(
        after,
        b,
        s,
        j,
    ) == active_message(w, b, s, j) by {
        assert(alike(active_at(v, b), active_at(w, b)));
        if b != a {
            assert(active_at(after, b) == active_at(w, b));
        }
    }
    assert forall|b: int| 0 <= b < v.map.len() implies alike(
        active_at(v, b),
        #[trigger] active_at(after, b),
    ) by {
        assert(alike(active_at(v, b), active_at(w, b)));
        if b != a {
            assert(active_at(after, b) == active_at(w, b));
        }
    }
    assert forall|x: InterfaceId|
        is_place(v.protocols, x) && !v.map.contains(x) implies #[trigger] interface_of(after, x)
        == interface_of(v, x) by {
        assert(v.map.contains(place));
        assert(interface_of(w, x) == interface_of(v, x));
    }
    assert forall|b: int, s: bool, j: int|
        there_is(v, b, s, j) && (forall|x: int|
            0 <= x < n + 1 ==> #[trigger] pushes[x] != push_for(v, b, s, j)) implies #[trigger] active_message(
        after,
        b,
        s,
        j,
    ) == active_message(v, b, s, j) by {
        assert(pushes[n] != push_for(v, b, s, j));
        assert(active_message(w, b, s, j) == active_message(v, b, s, j));
    }
    assert forall|b: int, s: bool, j: int, x: int|
        there_is(v, b, s, j) && 0 <= x < n + 1 && pushes[x] == push_for(
            v,
            b,
            s,
            j,
        ) implies #[trigger] active_message(after, b, s, j) == with_handler(
        active_message(v, b, s, j),
        entry_for(v, #[trigger] id(x)),
        !s,
    ) by {
        if x == n {
            lemma_one_message(v, a, b, r, s, k, j);
        } else {
            assert(pushes[x] != pushes[n]);
            assert(active_message(w, b, s, j) == with_handler(
                active_message(v, b, s, j),
                entry_for(v, id(x)),
                !s,
            ));
        }
    }
}

proof fn lemma_clips_added(v: AllHandlersV<Handler>, pushes: Seq<PushV>, n: nat)
    requires
        told_apart(v),
        well_aimed(v, pushes, v.map.len() as int),
        n <= pushes.len(),
    ensures
        clips_added(v, pushes, n) is Ok,
        pushed_so_far(v, clips_added(v, pushes, n)->Ok_0, pushes, n as int),
    decreases n,
{
    if n > 0 {
        let m = (n - 1) as nat;
        lemma_clips_added(v, pushes, m);
        let w = clips_added(v, pushes, m)->Ok_0;
        let push = pushes[m as int];
        assert(is_aimed(v, push, v.map.len() as int));
        let (a, k) = choose|a: int, k: int|
            a < v.map.len() && #[trigger] aims_at(v, push, a, k);
        assert(aims_at(v, push, a, k));
        lemma_found_by_name(v, w, pushes, m as int, a, push.is_request, k);
        lemma_push(v, w, pushes, m as int, a, k);
    }
}

/// Whether a message has got a handler, and nothing else of it has changed.
pub open spec fn got_handler(
    v: AllHandlersV<Handler>,
    w: AllHandlersV<Handler>,
    before: MessageV,
    after: MessageV,
    handler: Handler,
    front: bool,
) -> bool {
    let queue = queue_of(after);
    &&& after.handlers is Some
    &&& (MessageV { handlers: before.handlers, ..after }) == before
    &&& queue.len() == queue_of(before).len() + 1
    &&& if front {
        is_entry(v, w, queue[0], handler) && queue.skip(1) == queue_of(before)
    } else {
        is_entry(v, w, queue.last(), handler) && queue.drop_last() == queue_of(before)
    }
}

/// When `safeclip` has added its handlers, every active request, of whichever active interface of
/// whichever protocol, that sets a title or has a mime type has the handler that adds the prefix
/// behind all that it had, and every active event that has a mime type has the handler that removes it
/// before all that it had, both for the last group. No other message has got a handler, and nothing
/// else has changed.
pub proof fn law_safeclip_sees_all_clipboards(v: AllHandlersV<Handler>, a: int, is_request: bool, k: int)
    requires
        told_apart(v),
        1 <= v.groups.len() <= usize::MAX,
        with_safeclip(v) is Ok,
        with_safeclip(v)->Ok_0.handlers.len() <= usize::MAX,
        there_is(v, a, is_request, k),
    ensures
        ({
            let w = with_safeclip(v)->Ok_0;
            let before = active_message(v, a, is_request, k);
            let after = active_message(w, a, is_request, k);
            if carries(before, is_request) {
                if is_request {
                    got_handler(v, w, before, after, Handler::AddPrefix, false)
                } else {
                    got_handler(v, w, before, after, Handler::RemovePrefix, true)
                }
            } else {
                after == before
            }
        }),
{
    let pushes = all_clipped(v, v.map.len());
    lemma_all_clipped(v, v.map.len());
    lemma_clips_added(v, pushes, pushes.len());
    let w = with_safeclip(v)->Ok_0;
    let n = pushes.len() as int;
    assert(pushed_so_far(v, w, pushes, n));
    let before = active_message(v, a, is_request, k);
    let after = active_message(w, a, is_request, k);
    let push = push_for(v, a, is_request, k);
    if carries(before, is_request) {
        assert(pushes.contains(push));
        let x = choose|x: int| 0 <= x < pushes.len() && pushes[x] == push;
        let entry = entry_for(v, id(x));
        assert(after == with_handler(before, entry, !is_request));
        assert(pushes[x].is_request == is_request);
        assert(is_entry(
            v,
            w,
            entry,
            if is_request {
                Handler::AddPrefix
            } else {
                Handler::RemovePrefix
            },
        ));
        if is_request {
            assert(queue_of(after).drop_last() =~= queue_of(before));
        } else {
            assert(queue_of(after).skip(1) =~= queue_of(before));
        }
        assert((MessageV { handlers: before.handlers, ..after }) =~= before);
    } else {
        assert forall|x: int| 0 <= x < n implies #[trigger] pushes[x] != push by {
            if pushes[x] == push {
                assert(is_aimed(v, pushes[x], v.map.len() as int));
                let (b, j) = choose|b: int, j: int|
                    b < v.map.len() && #[trigger] aims_at(v, pushes[x], b, j);
                lemma_one_message(v, a, b, is_request, pushes[x].is_request, k, j);
            }
        }
    }
}

/// When `safeclip` has added its handlers, the active interfaces are those that they were, with the
/// messages that they had, all handlers that were there are there, and interfaces that are not active
/// have not been touched.
pub proof fn law_safeclip_keeps_the_rest(v: AllHandlersV<Handler>)
    requires
        told_apart(v),
        with_safeclip(v) is Ok,
    ensures
        ({
            let w = with_safeclip(v)->Ok_0;
            &&& w.map == v.map
            &&& w.groups == v.groups
            &&& w.display == v.display
            &&& v.handlers.len() <= w.handlers.len()
            &&& forall|h: int|
                0 <= h < v.handlers.len() ==> #[trigger] w.handlers[h] == v.handlers[h]
            &&& forall|id: InterfaceId|
                is_place(v.protocols, id) && !v.map.contains(id) ==> #[trigger] interface_of(w, id)
                    == interface_of(v, id)
            &&& forall|a: int|
                0 <= a < v.map.len() ==> {
                    let i = #[trigger] active_at(w, a);
                    &&& i.name == active_at(v, a).name
                    &&& i.limited_version == active_at(v, a).limited_version
                    &&& i.parent == active_at(v, a).parent
                    &&& i.requests.len() == active_at(v, a).requests.len()
                    &&& i.events.len() == active_at(v, a).events.len()
                }
        }),
{
    let pushes = all_clipped(v, v.map.len());
    lemma_all_clipped(v, v.map.len());
    lemma_clips_added(v, pushes, pushes.len());
    let w = with_safeclip(v)->Ok_0;
    assert(pushed_so_far(v, w, pushes, pushes.len() as int));
    assert forall|a: int| 0 <= a < v.map.len() implies alike(
        active_at(v, a),
        #[trigger] active_at(w, a),
    ) by {}
}

/// Whether an active interface has a message that is known to have a mime type, but not here.
pub open spec fn lacks_mime_type(
    v: AllHandlersV<Handler>,
    interface_name: Seq<char>,
    message_name: Seq<char>,
    is_request: bool,
) -> bool {
    exists|a: int, k: int|
        there_is(v, a, is_request, k) && active_at(v, a).name == interface_name && (
        #[trigger] active_message(v, a, is_request, k)).name == message_name && !(exists|j: int|
            0 <= j < active_message(v, a, is_request, k).args.len() && (#[trigger] active_message(
                v,
                a,
                is_request,
                k,
            ).args[j]).typ is String && active_message(v, a, is_request, k).args[j].name
                == "mime_type"@)
}

proof fn lemma_mime_message(
    v: AllHandlersV<Handler>,
    interface_name: Seq<char>,
    message_name: Seq<char>,
    is_request: bool,
)
    requires
        told_apart(v),
    ensures
        mime_message_ok(v, (interface_name, message_name, is_request)) == !lacks_mime_type(
            v,
            interface_name,
            message_name,
            is_request,
        ),
{
    let names = Seq::new(v.map.len(), |i: int| name_at(v.protocols, v.map[i]));
    lemma_name_index(names, interface_name);
    assert forall|b: int| 0 <= b < v.map.len() implies names[b] == (#[trigger] active_at(v, b)).name by {}
    if lacks_mime_type(v, interface_name, message_name, is_request) {
        let (a, k) = choose|a: int, k: int|
            there_is(v, a, is_request, k) && active_at(v, a).name == interface_name && (
            #[trigger] active_message(v, a, is_request, k)).name == message_name && !(exists|j: int|
                0 <= j < active_message(v, a, is_request, k).args.len() && (
                #[trigger] active_message(v, a, is_request, k).args[j]).typ is String
                    && active_message(v, a, is_request, k).args[j].name == "mime_type"@);
        lemma_found_by_names(v, a, is_request, k);
        assert(!has_mime_type(active_message(v, a, is_request, k).args));
    }
    match place_named(v.protocols, v.map, interface_name) {
        None => {},
        Some(at) => {
            let a = crate::protocol::name_index(names, interface_name)->0;
            let i = active_at(v, a);
            let messages = if is_request {
                i.requests
            } else {
                i.events
            };
            lemma_name_index(message_names(messages), message_name);
            if let Some(k) = message_index(messages, message_name) {
                assert(there_is(v, a, is_request, k));
                assert(message_names(messages)[k] == messages[k].name);
                assert(active_message(v, a, is_request, k) == messages[k]);
            }
        },
    }
}

proof fn lemma_found_by_names(v: AllHandlersV<Handler>, a: int, r: bool, k: int)
    requires
        told_apart(v),
        there_is(v, a, r, k),
    ensures
        place_named(v.protocols, v.map, active_at(v, a).name) == Some(v.map[a]),
        message_index(
            if r {
                active_at(v, a).requests
            } else {
                active_at(v, a).events
            },
            active_message(v, a, r, k).name,
        ) == Some(k),
{
    let names = Seq::new(v.map.len(), |i: int| name_at(v.protocols, v.map[i]));
    assert forall|b: int| 0 <= b < a implies names[b] != active_at(v, a).name by {
        assert(active_at(v, b).name != active_at(v, a).name);
    }
    lemma_name_index_is(names, active_at(v, a).name, a);
    let messages = if r {
        active_at(v, a).requests
    } else {
        active_at(v, a).events
    };
    assert forall|j: int| 0 <= j < k implies message_names(messages)[j] != active_message(
        v,
        a,
        r,
        k,
    ).name by {
        assert(there_is(v, a, r, j));
        assert(active_message(v, a, r, j).name != active_message(v, a, r, k).name);
    }
    lemma_name_index_is(message_names(messages), active_message(v, a, r, k).name, k);
}

/// The handlers of `safeclip` are refused only where an active interface has a message that is known
/// to carry a mime type, and no such argument is declared: then some part of a clipboard would pass
/// through unseen. In all other cases they are added.
pub proof fn law_safeclip_is_refused_only_if_blind(v: AllHandlersV<Handler>)
    requires
        told_apart(v),
    ensures
        with_safeclip(v) is Ok || with_safeclip(v) == Err::<AllHandlersV<Handler>, AddonError>(
            AddonError::MissingMimeType,
        ),
        with_safeclip(v) is Err <==> {
            ||| lacks_mime_type(v, "wl_data_offer"@, "accept"@, true)
            ||| lacks_mime_type(v, "wl_data_offer"@, "receive"@, true)
            ||| lacks_mime_type(v, "wl_data_offer"@, "offer"@, false)
            ||| lacks_mime_type(v, "wl_data_source"@, "offer"@, true)
            ||| lacks_mime_type(v, "wl_data_source"@, "target"@, false)
            ||| lacks_mime_type(v, "wl_data_source"@, "send"@, false)
            ||| lacks_mime_type(v, "zwp_primary_selection_offer_v1"@, "receive"@, true)
            ||| lacks_mime_type(v, "zwp_primary_selection_offer_v1"@, "offer"@, false)
            ||| lacks_mime_type(v, "zwp_primary_selection_source_v1"@, "offer"@, true)
            ||| lacks_mime_type(v, "zwp_primary_selection_source_v1"@, "send"@, false)
            ||| lacks_mime_type(v, "zwlr_data_control_offer_v1"@, "receive"@, true)
            ||| lacks_mime_type(v, "zwlr_data_control_offer_v1"@, "offer"@, false)
            ||| lacks_mime_type(v, "zwlr_data_control_source_v1"@, "offer"@, true)
            ||| lacks_mime_type(v, "zwlr_data_control_source_v1"@, "send"@, false)
        },
{
    let pushes = all_clipped(v, v.map.len());
    lemma_all_clipped(v, v.map.len());
    lemma_clips_added(v, pushes, pushes.len());
    let known = known_mime_messages();
    assert forall|k: int| 0 <= k < known.len() implies mime_message_ok(v, #[trigger] known[k])
        == !lacks_mime_type(v, known[k].0, known[k].1, known[k].2) by {
        lemma_mime_message(v, known[k].0, known[k].1, known[k].2);
    }
    assert(known.len() == 14);
    assert(known[0] == ("wl_data_offer"@, "accept"@, true));
    assert(known[1] == ("wl_data_offer"@, "receive"@, true));
    assert(known[2] == ("wl_data_source"@, "offer"@, true));
    assert(known[3] == ("zwp_primary_selection_offer_v1"@, "receive"@, true));
    assert(known[4] == ("zwp_primary_selection_source_v1"@, "offer"@, true));
    assert(known[5] == ("zwlr_data_control_source_v1"@, "offer"@, true));
    assert(known[6] == ("zwlr_data_control_offer_v1"@, "receive"@, true));
    assert(known[7] == ("wl_data_offer"@, "offer"@, false));
    assert(known[8] == ("wl_data_source"@, "target"@, false));
    assert(known[9] == ("wl_data_source"@, "send"@, false));
    assert(known[10] == ("zwp_primary_selection_offer_v1"@, "offer"@, false));
    assert(known[11] == ("zwp_primary_selection_source_v1"@, "send"@, false));
    assert(known[12] == ("zwlr_data_control_source_v1"@, "send"@, false));
    assert(known[13] == ("zwlr_data_control_offer_v1"@, "offer"@, false));
}

} // verus!
