//! Version limits: which globals they name, and how far they reach.

use crate::postparse::{index_in, limit_line, parse_limit_line, LimitError, PostparseError};
use crate::protocol::{
    messages_view, protocols_view, InterfaceId, InterfaceV, Message, MessageV, Protocol, ProtocolV,
};
use crate::text::{str_eq, str_views};
use vstd::prelude::*;

verus! {

/// The smaller of two numbers.
pub open spec fn smaller(a: u32, b: u32) -> u32 {
    if a <= b {
        a
    } else {
        b
    }
}

/// The global interfaces with a name in the first `n` protocols.
pub open spec fn globals_named(ps: Seq<ProtocolV>, name: Seq<char>, n: nat) -> Seq<InterfaceId>
    decreases n,
{
    if n == 0 {
        Seq::empty()
    } else {
        let before = globals_named(ps, name, (n - 1) as nat);
        match index_in(ps[n - 1], name) {
            Some(k) if ps[n - 1].interfaces[k].parent is None => before.push(
                InterfaceId { protocol: (n - 1) as usize, index: k as usize },
            ),
            _ => before,
        }
    }
}

/// Whether any protocol has an interface with a name.
pub open spec fn known(ps: Seq<ProtocolV>, name: Seq<char>) -> bool {
    exists|p: int| 0 <= p < ps.len() && index_in(#[trigger] ps[p], name) is Some
}

/// The protocols after one global has got a limit, which makes its protocol active.
pub open spec fn with_limit(ps: Seq<ProtocolV>, id: InterfaceId, limit: u32) -> Seq<ProtocolV> {
    let p = ps[id.protocol as int];
    let i = p.interfaces[id.index as int];
    ps.update(
        id.protocol as int,
        ProtocolV {
            interfaces: p.interfaces.update(
                id.index as int,
                InterfaceV { limited_version: Some(smaller(limit, i.parsed_version)), ..i },
            ),
            active: true,
            ..p
        },
    )
}

/// What one limit makes of the protocols. A name that no interface has is passed over where this
/// is allowed; the second part says so.
pub open spec fn limited(
    ps: Seq<ProtocolV>,
    name: Seq<char>,
    limit: u32,
    allow_missing: bool,
) -> Result<(Seq<ProtocolV>, bool), LimitError> {
    let found = globals_named(ps, name, ps.len());
    if found.len() == 1 {
        let id = found[0];
        if ps[id.protocol as int].interfaces[id.index as int].limited_version is Some {
            Err(LimitError::Duplicate)
        } else {
            Ok((with_limit(ps, id, limit), false))
        }
    } else if found.len() > 1 {
        Err(LimitError::Ambiguous)
    } else if known(ps, name) {
        Err(LimitError::NotGlobal)
    } else if allow_missing {
        Ok((ps, true))
    } else {
        Err(LimitError::NotFound)
    }
}

/// What the first `n` lines of limits make of the protocols, and which of these lines, counted from
/// one, name an interface that is not there.
pub open spec fn all_limited(
    ps: Seq<ProtocolV>,
    lines: Seq<Seq<char>>,
    allow_missing: bool,
    n: nat,
) -> Result<(Seq<ProtocolV>, Seq<usize>), PostparseError>
    decreases n,
{
    if n == 0 {
        Ok((ps, Seq::empty()))
    } else {
        match all_limited(ps, lines, allow_missing, (n - 1) as nat) {
            Err(e) => Err(e),
            Ok((before, skipped)) => match limit_line(lines[n - 1]) {
                Err(error) => Err(PostparseError::Limit { line: n as usize, error }),
                Ok(None) => Ok((before, skipped)),
                Ok(Some((name, limit))) => match limited(before, name, limit, allow_missing) {
                    Err(error) => Err(PostparseError::Limit { line: n as usize, error }),
                    Ok((after, missing)) => Ok(
                        (
                            after,
                            if missing {
                                skipped.push(n as usize)
                            } else {
                                skipped
                            },
                        ),
                    ),
                },
            },
        }
    }
}

pub proof fn lemma_limit_error(
    ps: Seq<ProtocolV>,
    lines: Seq<Seq<char>>,
    allow_missing: bool,
    i: nat,
    n: nat,
)
    requires
        i <= n,
        all_limited(ps, lines, allow_missing, i) is Err,
    ensures
        all_limited(ps, lines, allow_missing, n) == all_limited(ps, lines, allow_missing, i),
    decreases n - i,
{
    if i < n {
        lemma_limit_error(ps, lines, allow_missing, i, (n - 1) as nat);
    }
}

fn find_globals(protocols: &Vec<Protocol>, name: &str) -> (r: Vec<InterfaceId>)
    ensures
        r@ == globals_named(protocols_view(protocols@), name@, protocols@.len()),
        forall|k: int|
            0 <= k < r@.len() ==> (#[trigger] r@[k]).protocol < protocols@.len() && r@[k].index
                < protocols@[r@[k].protocol as int].interfaces@.len(),
{
    let ghost ps = protocols_view(protocols@);
    let n: usize = protocols.len();
    let mut found: Vec<InterfaceId> = Vec::new();
    for p in 0..n
        invariant
            n == protocols@.len(),
            ps == protocols_view(protocols@),
            found@ == globals_named(ps, name@, p as nat),
            forall|k: int|
                0 <= k < found@.len() ==> (#[trigger] found@[k]).protocol < protocols@.len()
                    && found@[k].index < protocols@[found@[k].protocol as int].interfaces@.len(),
    {
        assert(ps[p as int] == protocols@[p as int]@);
        match protocols[p].find_index(name) {
            Some(k) => {
                if protocols[p].interfaces[k].parent.is_none() {
                    found.push(InterfaceId { protocol: p, index: k });
                }
            },
            None => {},
        }
    }
    found
}

fn is_known(protocols: &Vec<Protocol>, name: &str) -> (r: bool)
    ensures
        r == known(protocols_view(protocols@), name@),
{
    let ghost ps = protocols_view(protocols@);
    let n: usize = protocols.len();
    for p in 0..n
        invariant
            n == protocols@.len(),
            ps == protocols_view(protocols@),
            forall|q: int| 0 <= q < p ==> index_in(#[trigger] ps[q], name@) is None,
    {
        assert(ps[p as int] == protocols@[p as int]@);
        if protocols[p].find_index(name).is_some() {
            return true;
        }
    }
    false
}

fn apply_limit(protocols: &mut Vec<Protocol>, name: &str, limit: u32, allow_missing: bool) -> (r:
    Result<bool, LimitError>)
    ensures
        match (r, limited(protocols_view(old(protocols)@), name@, limit, allow_missing)) {
            (Ok(missing), Ok((ps, m))) => missing == m && protocols_view(final(protocols)@) == ps,
            (Err(e), Err(f)) => e == f,
            _ => false,
        },
{
    let ghost ps = protocols_view(protocols@);
    let found: Vec<InterfaceId> = find_globals(protocols, name);
    if found.len() == 1 {
        let id = found[0];
        assert(ps[id.protocol as int] == protocols@[id.protocol as int]@);
        if protocols[id.protocol].interfaces[id.index].limited_version.is_some() {
            return Err(LimitError::Duplicate);
        }
        let parsed: u32 = protocols[id.protocol].interfaces[id.index].parsed_version;
        let value: u32 = if limit <= parsed {
            limit
        } else {
            parsed
        };
        let ghost p = ps[id.protocol as int];
        protocols[id.protocol].interfaces[id.index].limited_version = Some(value);
        protocols[id.protocol].active = true;
        assert(protocols@[id.protocol as int]@.interfaces =~= p.interfaces.update(
            id.index as int,
            InterfaceV { limited_version: Some(value), ..p.interfaces[id.index as int] },
        ));
        assert(protocols_view(protocols@) =~= with_limit(ps, id, limit));
        Ok(false)
    } else if found.len() > 1 {
        Err(LimitError::Ambiguous)
    } else if is_known(protocols, name) {
        Err(LimitError::NotGlobal)
    } else if allow_missing {
        Ok(true)
    } else {
        Err(LimitError::NotFound)
    }
}

/// Gives the globals that the lines of limits name their limits, and makes their protocols active.
/// Hands back which lines, counted from one, name an interface that is not there.
pub fn get_globals_limits(protocols: Vec<Protocol>, lines: &Vec<String>, allow_missing: bool) -> (r:
    Result<(Vec<Protocol>, Vec<usize>), PostparseError>)
    ensures
        match (
            r,
            all_limited(
                protocols_view(protocols@),
                str_views(lines@),
                allow_missing,
                lines@.len(),
            ),
        ) {
            (Ok((after, skipped)), Ok((ps, s))) => protocols_view(after@) == ps && skipped@ == s,
            (Err(e), Err(f)) => e == f,
            _ => false,
        },
{
    let ghost ps = protocols_view(protocols@);
    let ghost texts = str_views(lines@);
    let mut work = protocols;
    let mut skipped: Vec<usize> = Vec::new();
    let n: usize = lines.len();
    let mut i: usize = 0;
    while i < n
        invariant
            i <= n,
            n == lines@.len(),
            texts == str_views(lines@),
            ps == protocols_view(protocols@),
            all_limited(ps, texts, allow_missing, i as nat) == Ok::<
                (Seq<ProtocolV>, Seq<usize>),
                PostparseError,
            >((protocols_view(work@), skipped@)),
        decreases n - i,
    {
        assert(texts[i as int] == lines@[i as int]@);
        match parse_limit_line(lines[i].as_str()) {
            Err(error) => {
                proof {
                    lemma_limit_error(ps, texts, allow_missing, (i + 1) as nat, n as nat);
                }
                return Err(PostparseError::Limit { line: i + 1, error });
            },
            Ok(None) => {},
            Ok(Some((name, limit))) => {
                match apply_limit(&mut work, name.as_str(), limit, allow_missing) {
                    Err(error) => {
                        proof {
                            lemma_limit_error(ps, texts, allow_missing, (i + 1) as nat, n as nat);
                        }
                        return Err(PostparseError::Limit { line: i + 1, error });
                    },
                    Ok(missing) => {
                        if missing {
                            skipped.push(i + 1);
                        }
                    },
                }
            },
        }
        i = i + 1;
    }
    Ok((work, skipped))
}

/// The ancestor of an interface that has no parent, if there is one within `fuel` generations.
pub open spec fn ancestor(p: ProtocolV, k: int, fuel: nat) -> Option<int>
    decreases fuel,
{
    if k < 0 || k >= p.interfaces.len() {
        None
    } else {
        match p.interfaces[k].parent {
            None => Some(k),
            Some(j) => if fuel == 0 {
                None
            } else {
                ancestor(p, j as int, (fuel - 1) as nat)
            },
        }
    }
}

/// The ancestor of an interface that has no parent.
pub open spec fn global_ancestor(p: ProtocolV, k: int) -> Option<int> {
    ancestor(p, k, p.interfaces.len())
}

/// What the limits make of an interface, if they let it through: whether it is global itself, and
/// the version that it is limited to. It is let through if its protocol is active and its global
/// ancestor has a limit.
pub open spec fn reach(p: ProtocolV, k: int) -> Option<(bool, u32)> {
    if !p.active {
        None
    } else {
        match global_ancestor(p, k) {
            None => None,
            Some(g) => match p.interfaces[g].limited_version {
                None => None,
                Some(limit) => Some((g == k, smaller(p.interfaces[k].parsed_version, limit))),
            },
        }
    }
}

/// Messages of which those up to a version are active.
pub open spec fn activated(messages: Seq<MessageV>, limit: u32) -> Seq<MessageV> {
    Seq::new(
        messages.len(),
        |k: int|
            if messages[k].since <= limit {
                MessageV { active: true, ..messages[k] }
            } else {
                messages[k]
            },
    )
}

/// An interface that has got its limit, if the limits let it through.
pub open spec fn reached_interface(p: ProtocolV, k: int) -> InterfaceV {
    let i = p.interfaces[k];
    match reach(p, k) {
        None => i,
        Some((is_global, limit)) => InterfaceV {
            requests: activated(i.requests, limit),
            events: activated(i.events, limit),
            limited_version: if is_global {
                i.limited_version
            } else {
                Some(limit)
            },
            ..i
        },
    }
}

/// A protocol whose interfaces have got their limits.
pub open spec fn reached_protocol(p: ProtocolV) -> ProtocolV {
    ProtocolV {
        interfaces: Seq::new(p.interfaces.len(), |k: int| reached_interface(p, k)),
        ..p
    }
}

/// Protocols whose interfaces have got their limits.
pub open spec fn reached(ps: Seq<ProtocolV>) -> Seq<ProtocolV> {
    Seq::new(ps.len(), |p: int| reached_protocol(ps[p]))
}

/// The active interfaces among the first `n` of a protocol.
pub open spec fn actives_in(p: ProtocolV, protocol: usize, n: nat) -> Seq<InterfaceId>
    decreases n,
{
    if n == 0 {
        Seq::empty()
    } else {
        let before = actives_in(p, protocol, (n - 1) as nat);
        if reach(p, n - 1) is Some {
            before.push(InterfaceId { protocol, index: (n - 1) as usize })
        } else {
            before
        }
    }
}

/// The active interfaces of the first `n` protocols.
pub open spec fn actives_of(ps: Seq<ProtocolV>, n: nat) -> Seq<InterfaceId>
    decreases n,
{
    if n == 0 {
        Seq::empty()
    } else {
        actives_of(ps, (n - 1) as nat) + actives_in(
            ps[n - 1],
            (n - 1) as usize,
            ps[n - 1].interfaces.len(),
        )
    }
}

/// The name of the interface at a place.
pub open spec fn name_at(ps: Seq<ProtocolV>, id: InterfaceId) -> Seq<char> {
    ps[id.protocol as int].interfaces[id.index as int].name
}

/// Whether an interface of an active protocol is its own ancestor.
pub open spec fn has_cycle(ps: Seq<ProtocolV>) -> bool {
    exists|p: int, k: int|
        0 <= p < ps.len() && 0 <= k < ps[p].interfaces.len() && ps[p].active
            && #[trigger] global_ancestor(ps[p], k) is None
}

/// Whether two interfaces at some places have the same name.
pub open spec fn has_conflict(ps: Seq<ProtocolV>, ids: Seq<InterfaceId>) -> bool {
    exists|i: int, j: int|
        0 <= i < j < ids.len() && #[trigger] name_at(ps, ids[i]) == #[trigger] name_at(ps, ids[j])
}

/// Whether an active interface that is not global has a limit already.
pub open spec fn has_clash(ps: Seq<ProtocolV>) -> bool {
    exists|p: int, k: int|
        0 <= p < ps.len() && 0 <= k < ps[p].interfaces.len() && (#[trigger] reach(ps[p], k) matches Some(
            (is_global, _),
        ) && !is_global) && ps[p].interfaces[k].limited_version is Some
}

/// What becomes of the protocols when the limits of the globals reach all interfaces, and which
/// interfaces are active then.
pub open spec fn propagated(ps: Seq<ProtocolV>) -> Result<
    (Seq<ProtocolV>, Seq<InterfaceId>),
    PostparseError,
> {
    let ids = actives_of(ps, ps.len());
    if has_cycle(ps) {
        Err(PostparseError::ParentCycle)
    } else if has_conflict(ps, ids) {
        Err(PostparseError::NameConflict)
    } else if has_clash(ps) {
        Err(PostparseError::LimitClash)
    } else {
        Ok((reached(ps), ids))
    }
}

/// Whether no message up to a version is active.
pub open spec fn none_active(messages: Seq<MessageV>, limit: u32) -> bool {
    forall|k: int|
        0 <= k < messages.len() && (#[trigger] messages[k]).since <= limit ==> !messages[k].active
}

/// Whether no message is active yet of those that become active when the limits of the globals reach
/// all interfaces.
pub open spec fn not_reached(ps: Seq<ProtocolV>) -> bool {
    forall|p: int, k: int|
        0 <= p < ps.len() && 0 <= k < ps[p].interfaces.len() ==> (#[trigger] reach(
            ps[p],
            k,
        ) matches Some((_, limit)) ==> none_active(ps[p].interfaces[k].requests, limit)
            && none_active(ps[p].interfaces[k].events, limit))
}

fn find_ancestor(protocol: &Protocol, k: usize) -> (r: Option<usize>)
    ensures
        match (r, global_ancestor(protocol@, k as int)) {
            (Some(i), Some(j)) => i == j && i < protocol@.interfaces.len(),
            (None, None) => true,
            _ => false,
        },
{
    let ghost p = protocol@;
    let n: usize = protocol.interfaces.len();
    let mut j: usize = k;
    let mut fuel: usize = n;
    loop
        invariant
            n == protocol.interfaces@.len(),
            p == protocol@,
            global_ancestor(p, k as int) == ancestor(p, j as int, fuel as nat),
        decreases fuel,
    {
        if j >= n {
            return None;
        }
        assert(p.interfaces[j as int] == protocol.interfaces@[j as int]@);
        match protocol.interfaces[j].parent {
            None => {
                return Some(j);
            },
            Some(next) => {
                if fuel == 0 {
                    return None;
                }
                j = next;
                fuel = fuel - 1;
            },
        }
    }
}

fn find_reach(protocol: &Protocol, k: usize) -> (r: Option<(bool, u32)>)
    requires
        k < protocol@.interfaces.len(),
    ensures
        r == reach(protocol@, k as int),
{
    if !protocol.is_active() {
        return None;
    }
    match find_ancestor(protocol, k) {
        None => None,
        Some(g) => match protocol.interfaces[g].limited_version {
            None => None,
            Some(limit) => {
                let parsed: u32 = protocol.interfaces[k].parsed_version;
                Some(
                    (
                        g == k,
                        if parsed <= limit {
                            parsed
                        } else {
                            limit
                        },
                    ),
                )
            },
        },
    }
}

fn check_cycles(protocols: &Vec<Protocol>) -> (r: bool)
    ensures
        r == has_cycle(protocols_view(protocols@)),
{
    let ghost ps = protocols_view(protocols@);
    let n: usize = protocols.len();
    for p in 0..n
        invariant
            n == protocols@.len(),
            ps == protocols_view(protocols@),
            forall|q: int, k: int|
                0 <= q < p && 0 <= k < ps[q].interfaces.len() && ps[q].active
                    ==> #[trigger] global_ancestor(ps[q], k) is Some,
    {
        assert(ps[p as int] == protocols@[p as int]@);
        if protocols[p].is_active() {
            let m: usize = protocols[p].interfaces.len();
            for k in 0..m
                invariant
                    p < n == protocols@.len(),
                    ps == protocols_view(protocols@),
                    m == protocols@[p as int].interfaces@.len(),
                    protocols@[p as int].active,
                    forall|j: int| 0 <= j < k ==> #[trigger] global_ancestor(ps[p as int], j) is Some,
            {
                assert(ps[p as int] == protocols@[p as int]@);
                if find_ancestor(&protocols[p], k).is_none() {
                    assert(global_ancestor(ps[p as int], k as int) is None);
                    return true;
                }
            }
        }
    }
    false
}

fn find_actives(protocols: &Vec<Protocol>) -> (r: Vec<InterfaceId>)
    ensures
        r@ == actives_of(protocols_view(protocols@), protocols@.len()),
{
    let ghost ps = protocols_view(protocols@);
    let n: usize = protocols.len();
    let mut ids: Vec<InterfaceId> = Vec::new();
    for p in 0..n
        invariant
            n == protocols@.len(),
            ps == protocols_view(protocols@),
            ids@ == actives_of(ps, p as nat),
    {
        assert(ps[p as int] == protocols@[p as int]@);
        let ghost before = ids@;
        let m: usize = protocols[p].interfaces.len();
        assert(before + actives_in(ps[p as int], p, 0) =~= before);
        for k in 0..m
            invariant
                p < n == protocols@.len(),
                ps == protocols_view(protocols@),
                m == protocols@[p as int].interfaces@.len(),
                ids@ == before + actives_in(ps[p as int], p, k as nat),
        {
            assert(ps[p as int] == protocols@[p as int]@);
            if find_reach(&protocols[p], k).is_some() {
                ids.push(InterfaceId { protocol: p, index: k });
            }
            assert(ids@ =~= before + actives_in(ps[p as int], p, (k + 1) as nat));
        }
    }
    ids
}

/// The places of active interfaces are those of interfaces that the limits let through, and of all
/// of them.
pub proof fn lemma_actives_in(p: ProtocolV, protocol: usize, n: nat)
    requires
        n <= p.interfaces.len() <= usize::MAX,
    ensures
        forall|k: int|
            0 <= k < actives_in(p, protocol, n).len() ==> {
                let id = #[trigger] actives_in(p, protocol, n)[k];
                id.protocol == protocol && id.index < n && reach(p, id.index as int) is Some
            },
    decreases n,
{
    if n > 0 {
        lemma_actives_in(p, protocol, (n - 1) as nat);
    }
}

/// Whether an interface at a place is one that the limits let through.
pub open spec fn reached_at(ps: Seq<ProtocolV>, id: InterfaceId) -> bool {
    id.protocol < ps.len() && id.index < ps[id.protocol as int].interfaces.len() && reach(
        ps[id.protocol as int],
        id.index as int,
    ) is Some
}

/// The places of active interfaces are those of interfaces that the limits let through.
pub proof fn lemma_actives_of(ps: Seq<ProtocolV>, n: nat)
    requires
        n <= ps.len() <= usize::MAX,
        forall|p: int| 0 <= p < ps.len() ==> (#[trigger] ps[p]).interfaces.len() <= usize::MAX,
    ensures
        forall|k: int|
            0 <= k < actives_of(ps, n).len() ==> reached_at(ps, #[trigger] actives_of(ps, n)[k])
                && actives_of(ps, n)[k].protocol < n,
    decreases n,
{
    if n > 0 {
        lemma_actives_of(ps, (n - 1) as nat);
        let p = ps[n - 1];
        let m = p.interfaces.len();
        lemma_actives_in(p, (n - 1) as usize, m);
        let front = actives_of(ps, (n - 1) as nat);
        let back = actives_in(p, (n - 1) as usize, m);
        assert forall|k: int| 0 <= k < actives_of(ps, n).len() implies reached_at(
            ps,
            #[trigger] actives_of(ps, n)[k],
        ) && actives_of(ps, n)[k].protocol < n by {
            if k < front.len() {
                assert(actives_of(ps, n)[k] == front[k]);
            } else {
                assert(actives_of(ps, n)[k] == back[k - front.len()]);
            }
        }
    }
}

fn check_conflicts(protocols: &Vec<Protocol>, ids: &Vec<InterfaceId>) -> (r: bool)
    requires
        forall|k: int|
            0 <= k < ids@.len() ==> reached_at(protocols_view(protocols@), #[trigger] ids@[k]),
    ensures
        r == has_conflict(protocols_view(protocols@), ids@),
{
    let ghost ps = protocols_view(protocols@);
    let n: usize = ids.len();
    for i in 0..n
        invariant
            n == ids@.len(),
            ps == protocols_view(protocols@),
            forall|k: int| 0 <= k < ids@.len() ==> reached_at(ps, #[trigger] ids@[k]),
            forall|a: int, b: int|
                0 <= a < i && a < b < n ==> #[trigger] name_at(ps, ids@[a]) != #[trigger] name_at(
                    ps,
                    ids@[b],
                ),
    {
        let a = ids[i];
        assert(reached_at(ps, ids@[i as int]));
        assert(ps[a.protocol as int] == protocols@[a.protocol as int]@);
        let mut j: usize = i + 1;
        while j < n
            invariant
                i < j <= n,
                n == ids@.len(),
                a == ids@[i as int],
                reached_at(ps, a),
                ps == protocols_view(protocols@),
                forall|k: int| 0 <= k < ids@.len() ==> reached_at(ps, #[trigger] ids@[k]),
                forall|b: int|
                    i < b < j ==> name_at(ps, ids@[i as int]) != #[trigger] name_at(ps, ids@[b]),
            decreases n - j,
        {
            let b = ids[j];
            assert(reached_at(ps, ids@[j as int]));
            assert(ps[a.protocol as int] == protocols@[a.protocol as int]@);
            assert(ps[b.protocol as int] == protocols@[b.protocol as int]@);
            if str_eq(
                protocols[a.protocol].interfaces[a.index].name.as_str(),
                protocols[b.protocol].interfaces[b.index].name.as_str(),
            ) {
                assert(name_at(ps, ids@[i as int]) == name_at(ps, ids@[j as int]));
                return true;
            }
            j = j + 1;
        }
    }
    false
}

fn check_clashes(protocols: &Vec<Protocol>) -> (r: bool)
    ensures
        r == has_clash(protocols_view(protocols@)),
{
    let ghost ps = protocols_view(protocols@);
    let n: usize = protocols.len();
    for p in 0..n
        invariant
            n == protocols@.len(),
            ps == protocols_view(protocols@),
            forall|q: int, k: int|
                0 <= q < p && 0 <= k < ps[q].interfaces.len() && (#[trigger] reach(ps[q], k) matches Some(
                    (is_global, _),
                ) && !is_global) ==> ps[q].interfaces[k].limited_version is None,
    {
        assert(ps[p as int] == protocols@[p as int]@);
        let m: usize = protocols[p].interfaces.len();
        for k in 0..m
            invariant
                p < n == protocols@.len(),
                ps == protocols_view(protocols@),
                m == protocols@[p as int].interfaces@.len(),
                forall|j: int|
                    0 <= j < k && (#[trigger] reach(ps[p as int], j) matches Some((is_global, _))
                        && !is_global) ==> ps[p as int].interfaces[j].limited_version is None,
        {
            assert(ps[p as int] == protocols@[p as int]@);
            match find_reach(&protocols[p], k) {
                Some((false, _)) => {
                    if protocols[p].interfaces[k].limited_version.is_some() {
                        assert(ps[p as int].interfaces[k as int].limited_version is Some);
                        return true;
                    }
                },
                _ => {},
            }
        }
    }
    false
}

fn activate_messages(messages: &mut Vec<Message>, limit: u32)
    ensures
        messages_view(final(messages)@) == activated(messages_view(old(messages)@), limit),
{
    let ghost all = messages_view(messages@);
    let n: usize = messages.len();
    let mut k: usize = 0;
    while k < n
        invariant
            k <= n,
            n == messages@.len(),
            n == all.len(),
            forall|j: int|
                0 <= j < k ==> (#[trigger] messages@[j])@ == activated(all, limit)[j],
            forall|j: int| k <= j < n ==> (#[trigger] messages@[j])@ == all[j],
        decreases n - k,
    {
        let ghost m = messages@[k as int]@;
        if messages[k].since <= limit {
            messages[k].active = true;
            assert(messages@[k as int]@ =~= MessageV { active: true, ..m });
        }
        k = k + 1;
    }
    assert(messages_view(messages@) =~= activated(all, limit));
}

fn reach_protocol(protocol: &mut Protocol)
    ensures
        final(protocol)@ == reached_protocol(old(protocol)@),
{
    let ghost p = protocol@;
    let n: usize = protocol.interfaces.len();
    let mut plan: Vec<Option<(bool, u32)>> = Vec::new();
    for k in 0..n
        invariant
            n == protocol.interfaces@.len(),
            p == protocol@,
            plan@.len() == k,
            forall|j: int| 0 <= j < k ==> #[trigger] plan@[j] == reach(p, j),
    {
        plan.push(find_reach(protocol, k));
    }
    let mut k: usize = 0;
    while k < n
        invariant
            k <= n,
            n == protocol.interfaces@.len(),
            n == p.interfaces.len(),
            n == plan@.len(),
            protocol@.name == p.name,
            protocol@.active == p.active,
            forall|j: int| 0 <= j < n ==> #[trigger] plan@[j] == reach(p, j),
            forall|j: int|
                0 <= j < k ==> (#[trigger] protocol.interfaces@[j])@ == reached_interface(p, j),
            forall|j: int|
                k <= j < n ==> (#[trigger] protocol.interfaces@[j])@ == p.interfaces[j],
        decreases n - k,
    {
        let ghost i = protocol.interfaces@[k as int]@;
        assert(i == p.interfaces[k as int]);
        match plan[k] {
            None => {},
            Some((is_global, limit)) => {
                activate_messages(&mut protocol.interfaces[k].requests, limit);
                activate_messages(&mut protocol.interfaces[k].events, limit);
                if !is_global {
                    protocol.interfaces[k].limited_version = Some(limit);
                }
                assert(protocol.interfaces@[k as int]@ =~= reached_interface(p, k as int));
            },
        }
        k = k + 1;
    }
    assert(protocol@.interfaces =~= reached_protocol(p).interfaces);
}

/// Lets the limits of the globals reach all interfaces, and finds out which interfaces are active.
/// This is done once.
pub fn propagate_limits_find_actives(protocols: Vec<Protocol>) -> (r: Result<
    (Vec<Protocol>, Vec<InterfaceId>),
    PostparseError,
>)
    requires
        not_reached(protocols_view(protocols@)),
    ensures
        match (r, propagated(protocols_view(protocols@))) {
            (Ok((after, ids)), Ok((ps, s))) => protocols_view(after@) == ps && ids@ == s,
            (Err(e), Err(f)) => e == f,
            _ => false,
        },
{
    let ghost ps = protocols_view(protocols@);
    if check_cycles(&protocols) {
        return Err(PostparseError::ParentCycle);
    }
    let ids: Vec<InterfaceId> = find_actives(&protocols);
    let n: usize = protocols.len();
    proof {
        assert forall|p: int| 0 <= p < ps.len() implies (#[trigger] ps[p]).interfaces.len()
            <= usize::MAX by {
            assert(ps[p] == protocols@[p]@);
            assert(protocols@[p].interfaces.len() == protocols@[p].interfaces@.len());
        }
        lemma_actives_of(ps, n as nat);
    }
    if check_conflicts(&protocols, &ids) {
        return Err(PostparseError::NameConflict);
    }
    if check_clashes(&protocols) {
        return Err(PostparseError::LimitClash);
    }
    let mut work = protocols;
    let mut p: usize = 0;
    while p < n
        invariant
            p <= n,
            n == work@.len(),
            n == ps.len(),
            forall|q: int| 0 <= q < p ==> (#[trigger] work@[q])@ == reached_protocol(ps[q]),
            forall|q: int| p <= q < n ==> (#[trigger] work@[q])@ == ps[q],
        decreases n - p,
    {
        reach_protocol(&mut work[p]);
        p = p + 1;
    }
    assert(protocols_view(work@) =~= reached(ps));
    Ok((work, ids))
}

} // verus!
