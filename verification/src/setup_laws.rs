//! What the arguments of the program come to.

use crate::addons::{with_safeclip, AddonError, Handler};
use crate::gather::{
    addon_uses, addons_added, after_dashes, gathered, known_addons, lemma_addons_error,
    lemma_until_dashes, until_dashes, AddonUseV,
};
use crate::handlers::AllHandlersV;
use crate::options::all_values;
use crate::setup::{
    arguments_of, debug_level_of, planned, xml_extension, ArgumentsV, SetupError, StartupV,
};
use crate::socket_events::{last_words_of, EndingV};
use crate::text::u64_text;
use vstd::prelude::*;
use vstd::utf8::encode_utf8;

verus! {

/// Whether no argument is two dashes.
pub open spec fn undashed(args: Seq<Seq<char>>) -> bool {
    forall|i: int| 0 <= i < args.len() ==> #[trigger] args[i] != "--"@
}

/// What stands before the first two dashes is for the program itself, and what stands behind them for
/// the addons, with all dashes that follow.
pub proof fn law_dashes_part_the_arguments(own: Seq<Seq<char>>, rest: Seq<Seq<char>>)
    requires
        undashed(own),
    ensures
        ({
            let args = own + seq!["--"@] + rest;
            &&& args.take(until_dashes(args) as int) == own
            &&& after_dashes(args) == rest
        }),
        own.take(until_dashes(own) as int) == own,
        after_dashes(own) == Seq::<Seq<char>>::empty(),
{
    let args = own + seq!["--"@] + rest;
    let n = until_dashes(args);
    lemma_until_dashes(args);
    assert(n == own.len()) by {
        if n < own.len() {
            assert(args[n as int] == own[n as int]);
        }
        if n > own.len() {
            assert(args[own.len() as int] == "--"@);
        }
    }
    assert(args.take(n as int) =~= own);
    assert(args.skip(n as int + 1) =~= rest);
    lemma_until_dashes(own);
    assert(until_dashes(own) == own.len());
    assert(own.take(own.len() as int) =~= own);
}

/// Uses of addons from number `k` on, written as arguments: a name and what it is given, with two
/// dashes between one use and the next.
pub open spec fn uses_written(uses: Seq<AddonUseV>, k: nat) -> Seq<Seq<char>>
    decreases uses.len() - k,
{
    if k >= uses.len() {
        Seq::empty()
    } else {
        let here = seq![uses[k as int].name] + uses[k as int].args;
        if k + 1 == uses.len() {
            here
        } else {
            here + seq!["--"@] + uses_written(uses, k + 1)
        }
    }
}

/// Each addon is used as the arguments say: with its name, and with all that it is given, in order.
pub proof fn law_uses_are_parted(uses: Seq<AddonUseV>)
    requires
        forall|i: int| 0 <= i < uses.len() ==> undashed((#[trigger] uses[i]).args),
    ensures
        addon_uses(uses_written(uses, 0)) == uses,
{
    lemma_uses_parted(uses, 0);
    assert(uses.skip(0) =~= uses);
}

proof fn lemma_uses_parted(uses: Seq<AddonUseV>, k: nat)
    requires
        k <= uses.len(),
        forall|i: int| 0 <= i < uses.len() ==> undashed((#[trigger] uses[i]).args),
    ensures
        addon_uses(uses_written(uses, k)) == uses.skip(k as int),
    decreases uses.len() - k,
{
    let written = uses_written(uses, k);
    if k < uses.len() {
        let used = uses[k as int];
        let tail = written.skip(1);
        assert(written[0] == used.name);
        lemma_uses_parted(uses, k + 1);
        if k + 1 == uses.len() {
            assert(tail =~= used.args);
            law_dashes_part_the_arguments(used.args, Seq::empty());
            assert(addon_uses(Seq::empty()) =~= Seq::<AddonUseV>::empty());
        } else {
            assert(tail =~= used.args + seq!["--"@] + uses_written(uses, k + 1));
            law_dashes_part_the_arguments(used.args, uses_written(uses, k + 1));
        }
        assert(addon_uses(written) =~= uses.skip(k as int));
    } else {
        assert(uses.skip(k as int) =~= Seq::<AddonUseV>::empty());
    }
}

/// The only addon is `safeclip`, and it is given one text: the prefix. Any other use is refused.
pub proof fn law_only_safeclip_can_be_used(
    v: AllHandlersV<Handler>,
    args: Seq<Seq<char>>,
    k: int,
)
    requires
        0 <= k < addon_uses(args).len(),
        addons_added(v, addon_uses(args), k as nat) is Ok,
    ensures
        ({
            let used = addon_uses(args)[k];
            let (before, prefixes) = addons_added(v, addon_uses(args), k as nat)->Ok_0;
            let after = addons_added(v, addon_uses(args), (k + 1) as nat);
            &&& used.name != "safeclip"@ ==> gathered(v, args) == Err::<
                (AllHandlersV<Handler>, Seq<Seq<u8>>),
                AddonError,
            >(AddonError::Unknown)
            &&& used.name == "safeclip"@ && used.args.len() != 1 ==> gathered(v, args) == Err::<
                (AllHandlersV<Handler>, Seq<Seq<u8>>),
                AddonError,
            >(AddonError::ArgCount)
            &&& used.name == "safeclip"@ && used.args.len() == 1 ==> match with_safeclip(
                AllHandlersV { groups: before.groups.push("safeclip"@), ..before },
            ) {
                Ok(w) => after == Ok::<(AllHandlersV<Handler>, Seq<Seq<u8>>), AddonError>(
                    (w, prefixes.push(encode_utf8(used.args[0]))),
                ),
                Err(e) => gathered(v, args) == Err::<
                    (AllHandlersV<Handler>, Seq<Seq<u8>>),
                    AddonError,
                >(e),
            }
        }),
{
    let uses = addon_uses(args);
    let used = uses[k];
    assert(known_addons().contains(used.name) <==> used.name == "safeclip"@) by {
        assert(known_addons()[0] == "safeclip"@);
    }
    if addons_added(v, uses, (k + 1) as nat) is Err {
        lemma_addons_error(v, uses, (k + 1) as nat, uses.len());
    }
}

/// The words by which the environment asks for debug output.
pub open spec fn level_words() -> Seq<Seq<char>> {
    seq!["1"@, "all"@, "both"@, "2"@, "client"@, "3"@, "server"@]
}

/// The environment asks for all debug output, for that of one side, or for none.
pub proof fn law_debug_levels(text: Seq<char>)
    ensures
        debug_level_of(None) == 0,
        debug_level_of(Some("1"@)) == 1 && debug_level_of(Some("all"@)) == 1 && debug_level_of(
            Some("both"@),
        ) == 1,
        debug_level_of(Some("2"@)) == 2 && debug_level_of(Some("client"@)) == 2,
        debug_level_of(Some("3"@)) == 3 && debug_level_of(Some("server"@)) == 3,
        (forall|i: int| 0 <= i < 7 ==> #[trigger] level_words()[i] != text) ==> debug_level_of(
            Some(text),
        ) == 0,
{
    reveal_strlit("1");
    reveal_strlit("all");
    reveal_strlit("both");
    reveal_strlit("2");
    reveal_strlit("client");
    reveal_strlit("3");
    reveal_strlit("server");
    assert("1"@[0] == '1' && "2"@[0] == '2' && "3"@[0] == '3');
    assert("client"@[0] == 'c' && "server"@[0] == 's');
    assert("1"@.len() == 1 && "2"@.len() == 1 && "3"@.len() == 1 && "all"@.len() == 3
        && "both"@.len() == 4 && "client"@.len() == 6 && "server"@.len() == 6);
    if forall|i: int| 0 <= i < 7 ==> #[trigger] level_words()[i] != text {
        let w = level_words();
        assert(w[0] != text && w[1] != text && w[2] != text && w[3] != text && w[4] != text && w[5]
            != text && w[6] != text);
    }
}

/// With help nothing else is done, and with the version nothing but a list of the addons where it is
/// asked for.
pub proof fn law_help_comes_first(a: ArgumentsV, level: u32)
    ensures
        a.help ==> planned(a, level) == Ok::<StartupV, SetupError>(StartupV::Help),
        !a.help && a.version ==> planned(a, level) == Ok::<StartupV, SetupError>(
            StartupV::Version { list: a.list },
        ),
        !a.help && !a.version ==> planned(a, level) is Err || planned(a, level)->Ok_0 is Run,
{
}

/// At most one of the ways to end, or to serve each client, can be asked for, the time has to be a
/// number, and the file of globals has to be given. Then the program runs.
pub proof fn law_when_the_program_runs(a: ArgumentsV, level: u32)
    requires
        !a.help,
        !a.version,
    ensures
        planned(a, level) is Ok <==> {
            &&& a.globals is Some
            &&& a.terminate is Some ==> u64_text(a.terminate->0) is Some
            &&& !(a.terminate is Some && a.single)
            &&& !(a.terminate is Some && a.fork)
            &&& !(a.single && a.fork)
        },
        a.terminate is Some && u64_text(a.terminate->0) is None ==> planned(a, level) == Err::<
            StartupV,
            SetupError,
        >(SetupError::BadSeconds),
        a.terminate is Some && u64_text(a.terminate->0) is Some && a.single ==> planned(a, level)
            == Err::<StartupV, SetupError>(SetupError::TerminateAndSingle),
        a.terminate is Some && u64_text(a.terminate->0) is Some && a.fork && !a.single ==> planned(
            a,
            level,
        ) == Err::<StartupV, SetupError>(SetupError::TerminateAndFork),
        a.terminate is None && a.single && a.fork ==> planned(a, level) == Err::<
            StartupV,
            SetupError,
        >(SetupError::ForkAndSingle),
        a.terminate is None && !(a.single && a.fork) && a.globals is None ==> planned(a, level)
            == Err::<StartupV, SetupError>(SetupError::NoGlobals),
{
}

/// The program runs as it is told: each option is what was given for it. Without a name for the
/// socket it is `waydapt-0`.
pub proof fn law_the_program_runs_as_told(a: ArgumentsV, level: u32)
    requires
        !a.help,
        !a.version,
        planned(a, level) is Ok,
    ensures
        ({
            let plan = planned(a, level)->Ok_0;
            let s = plan->settings;
            &&& plan is Run
            &&& plan->Run_list == a.list
            &&& s.files == a.files
            &&& s.dirs == a.dirs
            &&& Some(s.globals) == a.globals
            &&& s.allow_missing == a.allow_missing
            &&& s.output == a.output
            &&& a.display is Some ==> s.display == a.display->0
            &&& a.display is None ==> s.display == "waydapt-0"@
            &&& s.antilock == a.antilock
            &&& s.daemonize == a.daemonize
            &&& s.options.debug_level == level
            &&& s.options.flush_every_send == a.flush
            &&& s.options.watch_server == a.watch
            &&& s.options.single_mode == a.single
            &&& s.options.fork_mode == a.fork
            &&& a.terminate is None ==> s.options.terminate_after is None
            &&& a.terminate is Some ==> s.options.terminate_after == u64_text(a.terminate->0)
        }),
{
}

/// Each option stands for one setting: a switch is on if it was given at all, a single value is the
/// one that was given, and of values that may be given more than once all are kept, in order.
pub proof fn law_options_set_arguments(
    uses: Map<Seq<char>, Seq<Option<Seq<char>>>>,
    value: Seq<char>,
    more: Seq<Option<Seq<char>>>,
)
    ensures
        arguments_of(uses).flush <==> uses["f"@].len() > 0,
        arguments_of(uses).help <==> uses["h"@].len() > 0,
        arguments_of(uses).list <==> uses["l"@].len() > 0,
        arguments_of(uses).allow_missing <==> uses["m"@].len() > 0,
        arguments_of(uses).single <==> uses["s"@].len() > 0,
        arguments_of(uses).version <==> uses["v"@].len() > 0,
        arguments_of(uses).watch <==> uses["w"@].len() > 0,
        arguments_of(uses).fork <==> uses["c"@].len() > 0,
        arguments_of(uses).daemonize <==> uses["z"@].len() > 0,
        uses["a"@] == seq![Some(value)] ==> arguments_of(uses).antilock == Some(value),
        uses["d"@] == seq![Some(value)] ==> arguments_of(uses).display == Some(value),
        uses["g"@] == seq![Some(value)] ==> arguments_of(uses).globals == Some(value),
        uses["o"@] == seq![Some(value)] ==> arguments_of(uses).output == Some(value),
        uses["t"@] == seq![Some(value)] ==> arguments_of(uses).terminate == Some(value),
        uses["a"@].len() == 0 ==> arguments_of(uses).antilock is None,
        uses["d"@].len() == 0 ==> arguments_of(uses).display is None,
        uses["g"@].len() == 0 ==> arguments_of(uses).globals is None,
        uses["o"@].len() == 0 ==> arguments_of(uses).output is None,
        uses["t"@].len() == 0 ==> arguments_of(uses).terminate is None,
        arguments_of(uses).files == all_values(uses["p"@]),
        arguments_of(uses).dirs == all_values(uses["P"@]),
        all_values(more.push(Some(value))) == all_values(more).push(value),
        all_values(more.push(None)) == all_values(more),
        all_values(Seq::empty()) == Seq::<Seq<char>>::empty(),
{
    assert(more.push(Some(value)).drop_last() =~= more);
    assert(more.push(None).drop_last() =~= more);
}

/// A file is a protocol file if its extension is `xml`, each letter in either case.
pub proof fn law_protocol_files_are_xml(extension: Seq<char>)
    ensures
        xml_extension(extension) <==> extension.len() == 3 && forall|i: int|
            0 <= i < 3 ==> {
                let c = seq!['x', 'm', 'l'][i];
                #[trigger] extension[i] == c || extension[i] as int == c as int - 32
            },
{
    let xml = seq!['x', 'm', 'l'];
    assert(xml[0] == 'x' && xml[1] == 'm' && xml[2] == 'l');
    if extension.len() == 3 && forall|i: int|
        0 <= i < 3 ==> {
            let c = seq!['x', 'm', 'l'][i];
            #[trigger] extension[i] == c || extension[i] as int == c as int - 32
        } {
        assert(extension[0] == 'x' || extension[0] == 'X');
        assert(extension[1] == 'm' || extension[1] == 'M');
        assert(extension[2] == 'l' || extension[2] == 'L');
    }
}

/// The last words of the program are those of a failure exactly if something failed. They end with the
/// reason, where there is one, and those of a failure start with its kind.
pub proof fn law_last_words_give_the_reason(ending: EndingV)
    ensures
        last_words_of(ending).1 <==> ending is Failed,
        ({
            let words = last_words_of(ending).0;
            let reason = match ending {
                EndingV::Interrupted(name) => name,
                EndingV::Normal(why) => why,
                EndingV::Failed(_, why) => why,
            };
            &&& reason matches Some(why) ==> words.len() >= why.len() && words.skip(
                words.len() - why.len(),
            ) == why
            &&& ending matches EndingV::Failed(kind, why) ==> words.len() >= kind.len() && words.take(
                kind.len() as int,
            ) == kind && (why is None ==> words == kind)
        }),
{
    let words = last_words_of(ending).0;
    match ending {
        EndingV::Interrupted(Some(name)) => {
            assert(words.skip(words.len() - name.len()) =~= name);
        },
        EndingV::Normal(Some(why)) => {
            assert(words.skip(words.len() - why.len()) =~= why);
        },
        EndingV::Failed(kind, Some(why)) => {
            assert(words.skip(words.len() - why.len()) =~= why);
            assert(words.take(kind.len() as int) =~= kind);
        },
        EndingV::Failed(kind, None) => {
            assert(words.take(kind.len() as int) =~= kind);
        },
        _ => {},
    }
}

} // verus!
