//! What each line of the version limits does.

use crate::limit_laws::{lemma_global_is_found, lemma_globals_are_named};
use crate::limits::{all_limited, globals_named, known, lemma_limit_error};
use crate::linkup::{indexable, is_place, lemma_globals};
use crate::postparse::{index_in, limit_line, LimitError, PostparseError};
use crate::protocol::{
    interface_names, lemma_name_index, names_distinct, InterfaceId, InterfaceV, ProtocolV,
};
use vstd::prelude::*;

verus! {

/// Whether the interface at a place has a name, and no parent.
pub open spec fn is_global_named(ps: Seq<ProtocolV>, id: InterfaceId, name: Seq<char>) -> bool {
    &&& id.protocol < ps.len()
    &&& id.index < ps[id.protocol as int].interfaces.len()
    &&& ps[id.protocol as int].interfaces[id.index as int].name == name
    &&& ps[id.protocol as int].interfaces[id.index as int].parent is None
}

/// Whether there is an interface with a name at a place.
pub open spec fn is_named(ps: Seq<ProtocolV>, p: int, k: int, name: Seq<char>) -> bool {
    0 <= p < ps.len() && 0 <= k < ps[p].interfaces.len() && ps[p].interfaces[k].name == name
}

proof fn lemma_one_each(ps: Seq<ProtocolV>, name: Seq<char>, n: nat)
    requires
        n <= ps.len(),
        indexable(ps),
    ensures
        forall|i: int|
            0 <= i < globals_named(ps, name, n).len() ==> (#[trigger] globals_named(
                ps,
                name,
                n,
            )[i]).protocol < n,
        forall|i: int, j: int|
            0 <= i < j < globals_named(ps, name, n).len() ==> (#[trigger] globals_named(
                ps,
                name,
                n,
            )[i]).protocol != (#[trigger] globals_named(ps, name, n)[j]).protocol,
    decreases n,
{
    if n > 0 {
        lemma_one_each(ps, name, (n - 1) as nat);
        let before = globals_named(ps, name, (n - 1) as nat);
        let all = globals_named(ps, name, n);
        assert forall|i: int| 0 <= i < before.len() implies all[i] == before[i] by {}
    }
}

/// The globals with a name: what is found are those, each once.
proof fn lemma_found(ps: Seq<ProtocolV>, name: Seq<char>)
    requires
        indexable(ps),
        forall|p: int| 0 <= p < ps.len() ==> names_distinct(#[trigger] ps[p]),
    ensures
        ({
            let found = globals_named(ps, name, ps.len());
            &&& forall|i: int|
                0 <= i < found.len() ==> is_global_named(ps, #[trigger] found[i], name)
            &&& forall|id: InterfaceId| #[trigger] is_global_named(ps, id, name) ==> found.contains(id)
            &&& forall|i: int, j: int| 0 <= i < j < found.len() ==> found[i] != found[j]
        }),
{
    let found = globals_named(ps, name, ps.len());
    lemma_globals(ps, name, ps.len());
    lemma_globals_are_named(ps, name, ps.len());
    lemma_one_each(ps, name, ps.len());
    assert forall|i: int| 0 <= i < found.len() implies is_global_named(
        ps,
        #[trigger] found[i],
        name,
    ) by {
        assert(is_place(ps, found[i]));
    }
    assert forall|id: InterfaceId| #[trigger] is_global_named(ps, id, name) implies found.contains(
        id,
    ) by {
        assert(names_distinct(ps[id.protocol as int]));
        lemma_global_is_found(ps, ps.len(), id);
    }
}

proof fn lemma_known(ps: Seq<ProtocolV>, name: Seq<char>)
    ensures
        known(ps, name) <==> exists|p: int, k: int| is_named(ps, p, k, name),
{
    if known(ps, name) {
        let p = choose|p: int| 0 <= p < ps.len() && index_in(#[trigger] ps[p], name) is Some;
        let names = interface_names(ps[p].interfaces);
        lemma_name_index(names, name);
        let k = index_in(ps[p], name)->0;
        assert(names[k] == ps[p].interfaces[k].name);
        assert(is_named(ps, p, k, name));
    }
    if exists|p: int, k: int| is_named(ps, p, k, name) {
        let (p, k) = choose|p: int, k: int| is_named(ps, p, k, name);
        let names = interface_names(ps[p].interfaces);
        lemma_name_index(names, name);
        assert(names[k] == name);
        assert(index_in(ps[p], name) is Some);
    }
}

/// A line that says nothing does nothing, and one that cannot be read is an error that names the
/// line, counted from one. Whatever is an error stays one.
pub proof fn law_lines_are_taken_in_order(
    ps: Seq<ProtocolV>,
    lines: Seq<Seq<char>>,
    allow_missing: bool,
    n: int,
)
    requires
        0 <= n < lines.len(),
        lines.len() < usize::MAX,
        all_limited(ps, lines, allow_missing, n as nat) is Ok,
    ensures
        all_limited(ps, lines, allow_missing, 0) == Ok::<
            (Seq<ProtocolV>, Seq<usize>),
            PostparseError,
        >((ps, Seq::empty())),
        limit_line(lines[n]) matches Err(error) ==> all_limited(
            ps,
            lines,
            allow_missing,
            lines.len(),
        ) == Err::<(Seq<ProtocolV>, Seq<usize>), PostparseError>(
            PostparseError::Limit { line: (n + 1) as usize, error },
        ),
        limit_line(lines[n]) == Ok::<Option<(Seq<char>, u32)>, LimitError>(None) ==> all_limited(
            ps,
            lines,
            allow_missing,
            (n + 1) as nat,
        ) == all_limited(ps, lines, allow_missing, n as nat),
        all_limited(ps, lines, allow_missing, (n + 1) as nat) is Err ==> all_limited(
            ps,
            lines,
            allow_missing,
            lines.len(),
        ) == all_limited(ps, lines, allow_missing, (n + 1) as nat),
{
    if all_limited(ps, lines, allow_missing, (n + 1) as nat) is Err {
        lemma_limit_error(ps, lines, allow_missing, (n + 1) as nat, lines.len());
    }
}

/// A line that names the one global with that name limits it to the given version, or to its own
/// where that is lower, makes its protocol take part, and changes nothing else. It is an error if the
/// global has a limit already.
pub proof fn law_a_line_limits_a_global(
    ps: Seq<ProtocolV>,
    lines: Seq<Seq<char>>,
    allow_missing: bool,
    n: int,
    name: Seq<char>,
    limit: u32,
    id: InterfaceId,
    p: int,
    k: int,
)
    requires
        0 <= n < lines.len(),
        lines.len() < usize::MAX,
        all_limited(ps, lines, allow_missing, n as nat) is Ok,
        limit_line(lines[n]) == Ok::<Option<(Seq<char>, u32)>, LimitError>(Some((name, limit))),
        ({
            let (before, _) = all_limited(ps, lines, allow_missing, n as nat)->Ok_0;
            &&& indexable(before)
            &&& forall|p: int| 0 <= p < before.len() ==> names_distinct(#[trigger] before[p])
            &&& is_global_named(before, id, name)
            &&& forall|other: InterfaceId| #[trigger] is_global_named(before, other, name) ==> other
                == id
        }),
    ensures
        ({
            let (before, skipped) = all_limited(ps, lines, allow_missing, n as nat)->Ok_0;
            let old = before[id.protocol as int].interfaces[id.index as int];
            let next = all_limited(ps, lines, allow_missing, (n + 1) as nat);
            &&& old.limited_version is Some ==> next == Err::<
                (Seq<ProtocolV>, Seq<usize>),
                PostparseError,
            >(PostparseError::Limit { line: (n + 1) as usize, error: LimitError::Duplicate })
            &&& old.limited_version is None ==> {
                let (after, skipped2) = next->Ok_0;
                &&& next is Ok
                &&& skipped2 == skipped
                &&& after.len() == before.len()
                &&& after[id.protocol as int].active
                &&& after[id.protocol as int].interfaces[id.index as int] == (InterfaceV {
                    limited_version: Some(
                        if limit < old.parsed_version {
                            limit
                        } else {
                            old.parsed_version
                        },
                    ),
                    ..old
                })
                &&& 0 <= p < before.len() && p != id.protocol ==> after[p] == before[p]
                &&& 0 <= p < before.len() && 0 <= k < before[p].interfaces.len() && !(p
                    == id.protocol && k == id.index) ==> after[p].interfaces[k]
                    == before[p].interfaces[k]
            }
        }),
{
    let (before, skipped) = all_limited(ps, lines, allow_missing, n as nat)->Ok_0;
    lemma_found(before, name);
    let found = globals_named(before, name, before.len());
    assert(found.contains(id));
    assert(found.len() == 1) by {
        if found.len() > 1 {
            assert(is_global_named(before, found[0], name));
            assert(is_global_named(before, found[1], name));
            assert(found[0] != found[1]);
        }
    }
    assert(found[0] == id);
}

/// A line that does not name exactly one global is an error: where two have the name, where only
/// interfaces with parents have it, and where none has it, unless such lines are to be passed over.
/// Then the line is noted, and does nothing.
pub proof fn law_a_line_names_one_global(
    ps: Seq<ProtocolV>,
    lines: Seq<Seq<char>>,
    allow_missing: bool,
    n: int,
    name: Seq<char>,
    limit: u32,
    a: InterfaceId,
    b: InterfaceId,
)
    requires
        0 <= n < lines.len(),
        lines.len() < usize::MAX,
        all_limited(ps, lines, allow_missing, n as nat) is Ok,
        limit_line(lines[n]) == Ok::<Option<(Seq<char>, u32)>, LimitError>(Some((name, limit))),
        ({
            let (before, _) = all_limited(ps, lines, allow_missing, n as nat)->Ok_0;
            &&& indexable(before)
            &&& forall|p: int| 0 <= p < before.len() ==> names_distinct(#[trigger] before[p])
        }),
    ensures
        ({
            let (before, skipped) = all_limited(ps, lines, allow_missing, n as nat)->Ok_0;
            let next = all_limited(ps, lines, allow_missing, (n + 1) as nat);
            let nothing = forall|id: InterfaceId| !#[trigger] is_global_named(before, id, name);
            let anything = exists|p: int, k: int| is_named(before, p, k, name);
            &&& a != b && is_global_named(before, a, name) && is_global_named(before, b, name)
                ==> next == Err::<(Seq<ProtocolV>, Seq<usize>), PostparseError>(
                PostparseError::Limit { line: (n + 1) as usize, error: LimitError::Ambiguous },
            )
            &&& nothing && anything ==> next == Err::<
                (Seq<ProtocolV>, Seq<usize>),
                PostparseError,
            >(PostparseError::Limit { line: (n + 1) as usize, error: LimitError::NotGlobal })
            &&& !anything && !allow_missing ==> next == Err::<
                (Seq<ProtocolV>, Seq<usize>),
                PostparseError,
            >(PostparseError::Limit { line: (n + 1) as usize, error: LimitError::NotFound })
            &&& !anything && allow_missing ==> next == Ok::<
                (Seq<ProtocolV>, Seq<usize>),
                PostparseError,
            >((before, skipped.push((n + 1) as usize)))
        }),
{
    let (before, skipped) = all_limited(ps, lines, allow_missing, n as nat)->Ok_0;
    lemma_found(before, name);
    lemma_known(before, name);
    let found = globals_named(before, name, before.len());
    if a != b && is_global_named(before, a, name) && is_global_named(before, b, name) {
        assert(found.contains(a) && found.contains(b));
        if found.len() <= 1 {
            assert(found[0] == a);
        }
    }
    if forall|id: InterfaceId| !#[trigger] is_global_named(before, id, name) {
        if found.len() > 0 {
            assert(is_global_named(before, found[0], name));
        }
    }
    if !(exists|p: int, k: int| is_named(before, p, k, name)) {
        if found.len() > 0 {
            assert(is_global_named(before, found[0], name));
            assert(is_named(before, found[0].protocol as int, found[0].index as int, name));
        }
    }
}

} // verus!
