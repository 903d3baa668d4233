//! From the arguments for the addons to all handlers.

use crate::actives::ActiveInterfaces;
use crate::addons::{
    all_clipped, clips_added, init_handler, with_safeclip, AddonError, Group, GroupState, Handler,
    PushV,
};
use crate::builtin::{add_builtin_handlers, with_builtins};
use crate::for_handlers::{SessionInitHandler, SessionInitInfo};
use crate::handlers::{AddHandler, AllHandlers, AllHandlersV};
use crate::linkup::sound;
use crate::protocol::{find_name, lemma_name_index, protocols_view};
use crate::text::{copy_bytes, str_eq, str_views};
use vstd::prelude::*;
use vstd::string::StringExecFns;
use vstd::utf8::encode_utf8;

verus! {

/// How many arguments stand before the first that is two dashes.
pub open spec fn until_dashes(args: Seq<Seq<char>>) -> nat
    decreases args.len(),
{
    if args.len() == 0 || args[0] == "--"@ {
        0
    } else {
        1 + until_dashes(args.skip(1))
    }
}

/// What stands behind the first argument that is two dashes.
pub open spec fn after_dashes(args: Seq<Seq<char>>) -> Seq<Seq<char>> {
    let n = until_dashes(args);
    if n < args.len() {
        args.skip(n as int + 1)
    } else {
        Seq::empty()
    }
}

/// One use of an addon: its name, and its arguments.
#[verifier::ext_equal]
pub struct AddonUseV {
    pub name: Seq<char>,
    pub args: Seq<Seq<char>>,
}

/// One use of an addon: its name, and its arguments.
#[derive(Debug)]
pub struct AddonUse {
    pub name: String,
    pub args: Vec<String>,
}

impl View for AddonUse {
    type V = AddonUseV;

    open spec fn view(&self) -> AddonUseV {
        AddonUseV { name: self.name@, args: str_views(self.args@) }
    }
}

/// The contents of a list of uses of addons.
pub open spec fn use_views(v: Seq<AddonUse>) -> Seq<AddonUseV> {
    Seq::new(v.len(), |i: int| v[i]@)
}

/// The uses of addons that some arguments ask for: each is a name with what follows it, up to two
/// dashes.
pub open spec fn addon_uses(args: Seq<Seq<char>>) -> Seq<AddonUseV>
    decreases args.len(),
{
    if args.len() == 0 {
        Seq::empty()
    } else {
        let rest = args.skip(1);
        let here = AddonUseV { name: args[0], args: rest.take(until_dashes(rest) as int) };
        if after_dashes(rest).len() < args.len() {
            seq![here] + addon_uses(after_dashes(rest))
        } else {
            seq![here]
        }
    }
}

pub proof fn lemma_until_dashes(args: Seq<Seq<char>>)
    ensures
        until_dashes(args) <= args.len(),
        until_dashes(args) < args.len() ==> args[until_dashes(args) as int] == "--"@,
        forall|i: int| 0 <= i < until_dashes(args) ==> #[trigger] args[i] != "--"@,
    decreases args.len(),
{
    if args.len() > 0 && args[0] != "--"@ {
        let rest = args.skip(1);
        lemma_until_dashes(rest);
        assert forall|i: int| 0 <= i < until_dashes(args) implies #[trigger] args[i] != "--"@ by {
            if i > 0 {
                assert(rest[i - 1] == args[i]);
            }
        }
        if until_dashes(args) < args.len() {
            assert(rest[until_dashes(rest) as int] == args[until_dashes(rest) as int + 1]);
        }
    }
}

/// How many arguments, from number `start` on, stand before the first that is two dashes.
fn count_until_dashes(args: &Vec<String>, start: usize) -> (r: usize)
    requires
        start <= args@.len(),
    ensures
        r == until_dashes(str_views(args@).skip(start as int)),
        start + r <= args@.len(),
{
    let ghost all = str_views(args@);
    let ghost rest = all.skip(start as int);
    proof {
        lemma_until_dashes(rest);
    }
    let n: usize = args.len();
    let mut i: usize = start;
    while i < n && !str_eq(args[i].as_str(), "--")
        invariant
            start <= i <= n,
            n == args@.len(),
            all == str_views(args@),
            rest == all.skip(start as int),
            i - start <= until_dashes(rest),
            until_dashes(rest) <= rest.len(),
            until_dashes(rest) < rest.len() ==> rest[until_dashes(rest) as int] == "--"@,
            forall|j: int| 0 <= j < until_dashes(rest) ==> #[trigger] rest[j] != "--"@,
        decreases n - i,
    {
        assert(rest[i - start] == args@[i as int]@);
        i = i + 1;
    }
    assert(i - start == until_dashes(rest)) by {
        if i < n {
            assert(rest[i - start] == args@[i as int]@);
        }
    }
    i - start
}

fn copy_args(args: &Vec<String>, start: usize, end: usize) -> (r: Vec<String>)
    requires
        start <= end <= args@.len(),
    ensures
        str_views(r@) == str_views(args@).subrange(start as int, end as int),
{
    let mut out: Vec<String> = Vec::new();
    let mut i: usize = start;
    while i < end
        invariant
            start <= i <= end <= args@.len(),
            out@.len() == i - start,
            forall|j: int| 0 <= j < i - start ==> (#[trigger] out@[j])@ == args@[start + j]@,
        decreases end - i,
    {
        out.push(args[i].clone());
        i = i + 1;
    }
    assert(str_views(out@) =~= str_views(args@).subrange(start as int, end as int));
    out
}

/// Parts the arguments of the program, without its name, into its own and those for the addons, at
/// the first that is two dashes.
pub fn split_own_args(args: &Vec<String>) -> (r: (Vec<String>, Vec<String>))
    ensures
        str_views((r.0)@) == str_views(args@).take(until_dashes(str_views(args@)) as int),
        str_views((r.1)@) == after_dashes(str_views(args@)),
{
    let ghost all = str_views(args@);
    assert(all.skip(0) =~= all);
    let n: usize = count_until_dashes(args, 0);
    let own: Vec<String> = copy_args(args, 0, n);
    assert(all.subrange(0, n as int) =~= all.take(n as int));
    let len: usize = args.len();
    if n < len {
        let rest: Vec<String> = copy_args(args, n + 1, len);
        assert(all.subrange(n + 1, len as int) =~= all.skip(n + 1));
        (own, rest)
    } else {
        let rest: Vec<String> = Vec::new();
        assert(str_views(rest@) =~= Seq::<Seq<char>>::empty());
        (own, rest)
    }
}

/// Finds out which addons some arguments ask for.
pub fn split_addon_args(args: &Vec<String>) -> (r: Vec<AddonUse>)
    ensures
        use_views(r@) == addon_uses(str_views(args@)),
{
    let ghost all = str_views(args@);
    let mut out: Vec<AddonUse> = Vec::new();
    let n: usize = args.len();
    let mut i: usize = 0;
    assert(all.skip(0) =~= all);
    assert(use_views(out@) + addon_uses(all) =~= addon_uses(all));
    while i < n
        invariant
            i <= n,
            n == args@.len(),
            all == str_views(args@),
            use_views(out@) + addon_uses(all.skip(i as int)) == addon_uses(all),
        decreases n - i,
    {
        let ghost here = all.skip(i as int);
        let ghost rest = here.skip(1);
        assert(rest =~= all.skip(i + 1));
        assert(here[0] == args@[i as int]@);
        let m: usize = count_until_dashes(args, i + 1);
        let name: String = args[i].clone();
        let own: Vec<String> = copy_args(args, i + 1, i + 1 + m);
        assert(all.subrange(i + 1, i + 1 + m) =~= rest.take(m as int));
        let ghost before = out@;
        let used = AddonUse { name, args: own };
        out.push(used);
        assert(use_views(out@) =~= use_views(before).push(used@));
        if m < n - i - 1 {
            assert(rest.skip(m + 1) =~= all.skip(i + 2 + m));
            i = i + 2 + m;
        } else {
            i = n;
            assert(all.skip(n as int) =~= Seq::<Seq<char>>::empty());
        }
        assert(use_views(out@) + addon_uses(all.skip(i as int)) =~= use_views(before) + addon_uses(
            here,
        ));
    }
    assert(all.skip(n as int) =~= Seq::<Seq<char>>::empty());
    assert(use_views(out@) =~= addon_uses(all));
    out
}

/// The names of all addons.
pub open spec fn known_addons() -> Seq<Seq<char>> {
    seq!["safeclip"@]
}

/// The names of all addons.
pub fn addon_names() -> (r: Vec<String>)
    ensures
        str_views(r@) == known_addons(),
{
    let mut names: Vec<String> = Vec::new();
    names.push("safeclip".to_owned());
    assert(str_views(names@) =~= known_addons());
    names
}

fn is_known(name: &str) -> (r: bool)
    ensures
        r == known_addons().contains(name@),
{
    let names: Vec<String> = addon_names();
    proof {
        lemma_name_index(known_addons(), name@);
    }
    find_name(&names, name).is_some()
}

/// Some names, each with a space behind it.
pub open spec fn spaced(names: Seq<Seq<char>>) -> Seq<char>
    decreases names.len(),
{
    if names.len() == 0 {
        Seq::empty()
    } else {
        spaced(names.drop_last()) + names.last() + " "@
    }
}

/// A line that lists all addons.
pub fn addon_list() -> (r: String)
    ensures
        r@ == "Available addon modules: "@ + spaced(known_addons()),
{
    let names: Vec<String> = addon_names();
    let ghost all = known_addons();
    let mut list: String = "Available addon modules: ".to_owned();
    let n: usize = names.len();
    assert(all.take(0) =~= Seq::<Seq<char>>::empty());
    assert(list@ =~= "Available addon modules: "@ + spaced(all.take(0)));
    for i in 0..n
        invariant
            n == names@.len(),
            all == str_views(names@),
            list@ == "Available addon modules: "@ + spaced(all.take(i as int)),
    {
        assert(all[i as int] == names@[i as int]@);
        let ghost before = list@;
        list.append(names[i].as_str());
        list.append(" ");
        let ghost more = all.take(i + 1);
        assert(more.drop_last() =~= all.take(i as int));
        assert(more.last() == all[i as int]);
        assert(list@ =~= "Available addon modules: "@ + spaced(more));
    }
    assert(all.take(n as int) =~= all);
    list
}

/// All handlers with those of the first `n` uses of addons, and the prefixes that the groups were
/// given.
pub open spec fn addons_added(v: AllHandlersV<Handler>, uses: Seq<AddonUseV>, n: nat) -> Result<
    (AllHandlersV<Handler>, Seq<Seq<u8>>),
    AddonError,
>
    decreases n,
{
    if n == 0 {
        Ok((v, Seq::empty()))
    } else {
        match addons_added(v, uses, (n - 1) as nat) {
            Err(e) => Err(e),
            Ok((before, prefixes)) => {
                let used = uses[n - 1];
                if !known_addons().contains(used.name) {
                    Err(AddonError::Unknown)
                } else if used.args.len() != 1 {
                    Err(AddonError::ArgCount)
                } else {
                    match with_safeclip(
                        AllHandlersV { groups: before.groups.push(used.name), ..before },
                    ) {
                        Err(e) => Err(e),
                        Ok(after) => Ok((after, prefixes.push(encode_utf8(used.args[0])))),
                    }
                }
            },
        }
    }
}

/// All handlers that some arguments ask for, with those that every session has behind them, and the
/// prefixes that the groups were given.
pub open spec fn gathered(v: AllHandlersV<Handler>, args: Seq<Seq<char>>) -> Result<
    (AllHandlersV<Handler>, Seq<Seq<u8>>),
    AddonError,
> {
    let uses = addon_uses(args);
    match addons_added(v, uses, uses.len()) {
        Err(e) => Err(e),
        Ok((v, prefixes)) => match with_builtins(
            AllHandlersV { groups: v.groups.push("<builtin>"@), ..v },
        ) {
            Err(e) => Err(AddonError::Add(e)),
            Ok(v) => Ok((v, prefixes.push(Seq::empty()))),
        },
    }
}

/// The prefixes that some groups were given.
pub open spec fn prefixes_of(groups: Seq<Group>) -> Seq<Seq<u8>> {
    Seq::new(groups.len(), |i: int| groups[i].prefix@)
}

pub proof fn lemma_addons_error(v: AllHandlersV<Handler>, uses: Seq<AddonUseV>, i: nat, n: nat)
    requires
        i <= n,
        addons_added(v, uses, i) is Err,
    ensures
        addons_added(v, uses, n) == addons_added(v, uses, i),
    decreases n - i,
{
    if i < n {
        lemma_addons_error(v, uses, i, (n - 1) as nat);
    }
}

fn add_addon_handlers(all: &mut AllHandlers<Handler>, args: &Vec<String>) -> (r: Result<
    Vec<Group>,
    AddonError,
>)
    requires
        old(all).wf(),
    ensures
        final(all).wf(),
        ({
            let uses = addon_uses(str_views(args@));
            match (r, addons_added(old(all)@, uses, uses.len())) {
                (Ok(groups), Ok((v, prefixes))) => final(all)@ == v && prefixes_of(groups@)
                    == prefixes,
                (Err(e), Err(f)) => e == f,
                _ => false,
            }
        }),
{
    let ghost v = all@;
    let uses: Vec<AddonUse> = split_addon_args(args);
    let ghost plan = use_views(uses@);
    let mut groups: Vec<Group> = Vec::new();
    let n: usize = uses.len();
    let mut k: usize = 0;
    assert(prefixes_of(groups@) =~= Seq::<Seq<u8>>::empty());
    while k < n
        invariant
            k <= n,
            n == uses@.len(),
            plan == use_views(uses@),
            plan == addon_uses(str_views(args@)),
            v == old(all)@,
            all.wf(),
            addons_added(v, plan, k as nat) == Ok::<
                (AllHandlersV<Handler>, Seq<Seq<u8>>),
                AddonError,
            >((all@, prefixes_of(groups@))),
        decreases n - k,
    {
        let used: &AddonUse = &uses[k];
        assert(plan[k as int] == used@);
        if !is_known(used.name.as_str()) {
            proof {
                lemma_addons_error(v, plan, (k + 1) as nat, n as nat);
            }
            return Err(AddonError::Unknown);
        }
        if used.args.len() != 1 {
            proof {
                lemma_addons_error(v, plan, (k + 1) as nat, n as nat);
            }
            return Err(AddonError::ArgCount);
        }
        all.start_group(used.name.clone());
        match init_handler(all) {
            Err(e) => {
                proof {
                    lemma_addons_error(v, plan, (k + 1) as nat, n as nat);
                }
                return Err(e);
            },
            Ok(_) => {},
        }
        assert(used@.args[0] == used.args@[0]@);
        let prefix: Vec<u8> = copy_bytes(used.args[0].as_str().as_bytes());
        let ghost before = groups@;
        groups.push(Group { prefix });
        assert(prefixes_of(groups@) =~= prefixes_of(before).push(prefix@));
        k = k + 1;
    }
    Ok(groups)
}

/// Gathers all handlers: those of the addons that some arguments ask for, and behind them those that
/// every session has, which so can keep the others out, or let them go first.
pub fn gather_handlers(args: &Vec<String>, active_interfaces: ActiveInterfaces) -> (r: Result<
    (AllHandlers<Handler>, Vec<Group>),
    AddonError,
>)
    requires
        sound(
            protocols_view(active_interfaces.protocols@),
            active_interfaces.map@,
            active_interfaces.display,
        ),
    ensures
        ({
            let start = AllHandlersV {
                protocols: protocols_view(active_interfaces.protocols@),
                map: active_interfaces.map@,
                display: active_interfaces.display,
                handlers: Seq::<Handler>::empty(),
                groups: Seq::<Seq<char>>::empty(),
            };
            match (r, gathered(start, str_views(args@))) {
                (Ok((all, groups)), Ok((v, prefixes))) => {
                    &&& all@ == v
                    &&& prefixes_of(groups@) == prefixes
                    &&& all.wf()
                },
                (Err(e), Err(f)) => e == f,
                _ => false,
            }
        }),
{
    let mut all: AllHandlers<Handler> = AllHandlers::new(active_interfaces);
    let mut groups: Vec<Group> = match add_addon_handlers(&mut all, args) {
        Err(e) => {
            return Err(e);
        },
        Ok(groups) => groups,
    };
    all.start_group("<builtin>".to_owned());
    match add_builtin_handlers(&mut all) {
        Err(e) => {
            return Err(AddonError::Add(e));
        },
        Ok(_) => {},
    }
    let ghost before = groups@;
    let group = Group { prefix: Vec::new() };
    groups.push(group);
    assert(prefixes_of(groups@) =~= prefixes_of(before).push(Seq::empty()));
    Ok((all, groups))
}

/// The prefixes in some states.
pub open spec fn state_prefixes(states: Seq<GroupState>) -> Seq<Seq<u8>> {
    Seq::new(states.len(), |i: int| states[i].prefix@)
}

/// Has each group make its state for a session that begins.
pub fn init_states<I: SessionInitInfo>(groups: &Vec<Group>, info: &I) -> (r: Vec<GroupState>)
    ensures
        state_prefixes(r@) == prefixes_of(groups@),
{
    let mut states: Vec<GroupState> = Vec::new();
    let n: usize = groups.len();
    for i in 0..n
        invariant
            n == groups@.len(),
            states@.len() == i,
            forall|j: int| 0 <= j < i ==> (#[trigger] states@[j]).prefix@ == groups@[j].prefix@,
    {
        states.push(groups[i].init(info));
    }
    assert(state_prefixes(states@) =~= prefixes_of(groups@));
    states
}

proof fn lemma_clips_keep_groups(v: AllHandlersV<Handler>, pushes: Seq<PushV>, n: nat)
    ensures
        clips_added(v, pushes, n) matches Ok(w) ==> w.groups == v.groups,
    decreases n,
{
    if n > 0 {
        lemma_clips_keep_groups(v, pushes, (n - 1) as nat);
    }
}

proof fn lemma_groups(v: AllHandlersV<Handler>, uses: Seq<AddonUseV>, n: nat)
    requires
        v.groups.len() == 0,
        n <= uses.len(),
        addons_added(v, uses, n) is Ok,
    ensures
        ({
            let (w, prefixes) = addons_added(v, uses, n)->Ok_0;
            &&& w.groups.len() == n
            &&& prefixes.len() == n
            &&& forall|i: int|
                0 <= i < n ==> (#[trigger] w.groups[i]) == uses[i].name && prefixes[i]
                    == encode_utf8(uses[i].args[0])
        }),
    decreases n,
{
    if n > 0 {
        lemma_groups(v, uses, (n - 1) as nat);
        let (before, prefixes) = addons_added(v, uses, (n - 1) as nat)->Ok_0;
        let used = uses[n - 1];
        let started = AllHandlersV { groups: before.groups.push(used.name), ..before };
        let pushes = all_clipped(started, started.map.len());
        lemma_clips_keep_groups(started, pushes, pushes.len());
    }
}

/// Each use of an addon is a group of its own, with the prefix that it was given, in the order of the
/// arguments, also where the same addon is used more than once. Behind them all comes the group of the
/// handlers that every session has.
pub proof fn law_each_use_is_a_group(v: AllHandlersV<Handler>, args: Seq<Seq<char>>)
    requires
        v.groups.len() == 0,
        gathered(v, args) is Ok,
    ensures
        ({
            let uses = addon_uses(args);
            let (w, prefixes) = gathered(v, args)->Ok_0;
            &&& w.groups.len() == uses.len() + 1
            &&& prefixes.len() == uses.len() + 1
            &&& forall|i: int|
                0 <= i < uses.len() ==> (#[trigger] w.groups[i]) == uses[i].name && prefixes[i]
                    == encode_utf8(uses[i].args[0])
            &&& w.groups.last() == "<builtin>"@
            &&& prefixes.last() == Seq::<u8>::empty()
        }),
{
    let uses = addon_uses(args);
    lemma_groups(v, uses, uses.len());
}

} // verus!
