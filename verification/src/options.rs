//! The options that the program takes, and what has been given for them.

use crate::text::str_views;
use getopts::{Fail, Matches, Options, ParsingStyle};
use vstd::prelude::*;

verus! {

#[verifier::external_type_specification]
#[verifier::external_body]
pub struct ExOptions(Options);

#[verifier::external_type_specification]
#[verifier::external_body]
pub struct ExMatches(Matches);

/// The declaration of an option.
#[verifier::ext_equal]
pub struct OptionV {
    pub short: Seq<char>,
    pub long: Seq<char>,
    pub description: Seq<char>,
    /// What stands for the value in the help, where there is one.
    pub hint: Seq<char>,
    /// Whether a value must follow.
    pub takes_value: bool,
    /// Whether the option can be given more than once.
    pub repeats: bool,
}

/// Why arguments do not fit the declared options. Each comes with the name of the option.
#[derive(Debug, PartialEq, Eq)]
pub enum OptionError {
    ArgumentMissing(String),
    UnrecognizedOption(String),
    OptionMissing(String),
    OptionDuplicated(String),
    UnexpectedArgument(String),
}

/// The contents of an [`OptionError`].
#[verifier::ext_equal]
pub enum OptionErrorV {
    ArgumentMissing(Seq<char>),
    UnrecognizedOption(Seq<char>),
    OptionMissing(Seq<char>),
    OptionDuplicated(Seq<char>),
    UnexpectedArgument(Seq<char>),
}

impl View for OptionError {
    type V = OptionErrorV;

    open spec fn view(&self) -> OptionErrorV {
        match self {
            OptionError::ArgumentMissing(name) => OptionErrorV::ArgumentMissing(name@),
            OptionError::UnrecognizedOption(name) => OptionErrorV::UnrecognizedOption(name@),
            OptionError::OptionMissing(name) => OptionErrorV::OptionMissing(name@),
            OptionError::OptionDuplicated(name) => OptionErrorV::OptionDuplicated(name@),
            OptionError::UnexpectedArgument(name) => OptionErrorV::UnexpectedArgument(name@),
        }
    }
}

/// The options that have been declared, in order.
pub uninterp spec fn declared(options: Options) -> Seq<OptionV>;

/// Whether no option is looked for behind the first argument that is none.
pub uninterp spec fn stops_at_free(options: Options) -> bool;

/// How often each option that can be asked for has been given, and with which values, by the name
/// that it is asked for by.
pub uninterp spec fn given(matches: Matches) -> Map<Seq<char>, Seq<Option<Seq<char>>>>;

/// What `Options::parse` makes of arguments.
pub uninterp spec fn parsed(
    options: Seq<OptionV>,
    stops_at_free: bool,
    args: Seq<Seq<char>>,
) -> Result<Map<Seq<char>, Seq<Option<Seq<char>>>>, OptionErrorV>;

/// The help that `Options::usage` makes.
pub uninterp spec fn usage_text(options: Seq<OptionV>, brief: Seq<char>) -> Seq<char>;

/// Whether an option has a short name that is one Latin letter, and a long one that is longer.
pub open spec fn well_named(short: Seq<char>, long: Seq<char>) -> bool {
    short.len() == 1 && ('a' <= short[0] <= 'z' || 'A' <= short[0] <= 'Z') && long.len() > 1
}

/// Whether all options that have been declared have names.
pub open spec fn all_named(options: Seq<OptionV>) -> bool {
    forall|i: int|
        0 <= i < options.len() ==> well_named((#[trigger] options[i]).short, options[i].long)
}

/// Calls `Options::new`: no option is declared, and options may stand anywhere among other arguments.
#[verifier::external_body]
fn options_new() -> (r: Options)
    ensures
        declared(r) == Seq::<OptionV>::empty(),
        !stops_at_free(r),
{
    Options::new()
}

/// Calls `Options::parsing_style` with `ParsingStyle::StopAtFirstFree`: from then on, no option is
/// looked for behind the first argument that is none.
#[verifier::external_body]
fn options_stop_at_free(options: &mut Options)
    ensures
        declared(*final(options)) == declared(*old(options)),
        stops_at_free(*final(options)),
{
    options.parsing_style(ParsingStyle::StopAtFirstFree);
}

/// Calls `Options::optopt`: one more option is declared, with a value, that can be given once. It
/// panics for names that are not well made.
#[verifier::external_body]
fn options_optopt(options: &mut Options, short: &str, long: &str, description: &str, hint: &str)
    requires
        well_named(short@, long@),
    ensures
        declared(*final(options)) == declared(*old(options)).push(
            OptionV {
                short: short@,
                long: long@,
                description: description@,
                hint: hint@,
                takes_value: true,
                repeats: false,
            },
        ),
        stops_at_free(*final(options)) == stops_at_free(*old(options)),
{
    options.optopt(short, long, description, hint);
}

/// Calls `Options::optmulti`: one more option is declared, with a value, that can be given more than
/// once. It panics for names that are not well made.
#[verifier::external_body]
fn options_optmulti(options: &mut Options, short: &str, long: &str, description: &str, hint: &str)
    requires
        well_named(short@, long@),
    ensures
        declared(*final(options)) == declared(*old(options)).push(
            OptionV {
                short: short@,
                long: long@,
                description: description@,
                hint: hint@,
                takes_value: true,
                repeats: true,
            },
        ),
        stops_at_free(*final(options)) == stops_at_free(*old(options)),
{
    options.optmulti(short, long, description, hint);
}

/// Calls `Options::optflag`: one more option is declared, without a value, that can be given once. It
/// panics for names that are not well made.
#[verifier::external_body]
fn options_optflag(options: &mut Options, short: &str, long: &str, description: &str)
    requires
        well_named(short@, long@),
    ensures
        declared(*final(options)) == declared(*old(options)).push(
            OptionV {
                short: short@,
                long: long@,
                description: description@,
                hint: Seq::empty(),
                takes_value: false,
                repeats: false,
            },
        ),
        stops_at_free(*final(options)) == stops_at_free(*old(options)),
{
    options.optflag(short, long, description);
}

/// Calls `Options::parse`. What it finds depends on the declared options, on where it stops, and on
/// the arguments. It panics where an option has no name. Every option that is declared can be asked
/// for by its short name.
#[verifier::external_body]
pub(crate) fn options_parse(options: &Options, args: &Vec<String>) -> (r: Result<
    Matches,
    OptionError,
>)
    requires
        all_named(declared(*options)),
    ensures
        match r {
            Ok(m) => {
                &&& parsed(declared(*options), stops_at_free(*options), str_views(args@)) == Ok::<
                    Map<Seq<char>, Seq<Option<Seq<char>>>>,
                    OptionErrorV,
                >(given(m))
                &&& forall|i: int|
                    0 <= i < declared(*options).len() ==> given(m).contains_key(
                        (#[trigger] declared(*options)[i]).short,
                    )
            },
            Err(e) => parsed(declared(*options), stops_at_free(*options), str_views(args@)) == Err::<
                Map<Seq<char>, Seq<Option<Seq<char>>>>,
                OptionErrorV,
            >(e@),
        },
{
    options.parse(args).map_err(|fail| match fail {
        Fail::ArgumentMissing(name) => OptionError::ArgumentMissing(name),
        Fail::UnrecognizedOption(name) => OptionError::UnrecognizedOption(name),
        Fail::OptionMissing(name) => OptionError::OptionMissing(name),
        Fail::OptionDuplicated(name) => OptionError::OptionDuplicated(name),
        Fail::UnexpectedArgument(name) => OptionError::UnexpectedArgument(name),
    })
}

/// Calls `Options::usage`. The help depends on the declared options and on the text that it begins
/// with. It panics where a short name is not one character wide.
#[verifier::external_body]
pub(crate) fn options_usage(options: &Options, brief: &str) -> (r: String)
    requires
        all_named(declared(*options)),
    ensures
        r@ == usage_text(declared(*options), brief@),
{
    options.usage(brief)
}

/// Calls `Matches::opt_present`: whether an option has been given. It panics for an option that was
/// not declared.
#[verifier::external_body]
pub(crate) fn matches_present(matches: &Matches, name: &str) -> (r: bool)
    requires
        given(*matches).contains_key(name@),
    ensures
        r == (given(*matches)[name@].len() > 0),
{
    matches.opt_present(name)
}

/// The value that comes with the first use of an option, if there is one.
pub open spec fn first_value(uses: Seq<Option<Seq<char>>>) -> Option<Seq<char>> {
    if uses.len() > 0 {
        uses[0]
    } else {
        None
    }
}

/// Calls `Matches::opt_str`: the value that came with the first use of an option, if there is one. It
/// panics for an option that was not declared.
#[verifier::external_body]
pub(crate) fn matches_str(matches: &Matches, name: &str) -> (r: Option<String>)
    requires
        given(*matches).contains_key(name@),
    ensures
        match r {
            Some(value) => first_value(given(*matches)[name@]) == Some(value@),
            None => first_value(given(*matches)[name@]) is None,
        },
{
    matches.opt_str(name)
}

/// The values that come with the uses of an option.
pub open spec fn all_values(uses: Seq<Option<Seq<char>>>) -> Seq<Seq<char>>
    decreases uses.len(),
{
    if uses.len() == 0 {
        Seq::empty()
    } else {
        match uses.last() {
            Some(value) => all_values(uses.drop_last()).push(value),
            None => all_values(uses.drop_last()),
        }
    }
}

/// Calls `Matches::opt_strs`: the values that came with the uses of an option, in order. It panics
/// for an option that was not declared.
#[verifier::external_body]
pub(crate) fn matches_strs(matches: &Matches, name: &str) -> (r: Vec<String>)
    requires
        given(*matches).contains_key(name@),
    ensures
        str_views(r@) == all_values(given(*matches)[name@]),
{
    matches.opt_strs(name)
}

/// An option with a value that can be given once.
pub open spec fn single(
    short: Seq<char>,
    long: Seq<char>,
    description: Seq<char>,
    hint: Seq<char>,
) -> OptionV {
    OptionV { short, long, description, hint, takes_value: true, repeats: false }
}

/// An option with a value that can be given more than once.
pub open spec fn multiple(
    short: Seq<char>,
    long: Seq<char>,
    description: Seq<char>,
    hint: Seq<char>,
) -> OptionV {
    OptionV { short, long, description, hint, takes_value: true, repeats: true }
}

/// An option without a value.
pub open spec fn flag(short: Seq<char>, long: Seq<char>, description: Seq<char>) -> OptionV {
    OptionV {
        short,
        long,
        description,
        hint: Seq::empty(),
        takes_value: false,
        repeats: false,
    }
}

/// The options that the program takes.
pub open spec fn option_table() -> Seq<OptionV> {
    seq![
        single(
            "a"@,
            "antilock"@,
            "file descriptor for waydapt to unlock when its socket is ready"@,
            "FILE-DESCRIPTOR"@,
        ),
        single("d"@, "display"@, "the name of the Wayland display socket to create"@, "NAME"@),
        flag(
            "f"@,
            "flushsends"@,
            "send every message immediately, instead of batching them"@,
        ),
        single(
            "g"@,
            "globals"@,
            "file with one allowed global interface and max version per line"@,
            "FILE"@,
        ),
        flag("h"@, "help"@, "print this help"@),
        flag("l"@, "list"@, "list available addon modules"@),
        flag(
            "m"@,
            "allowmissing"@,
            "allow global entries that don't appear in protocol files"@,
        ),
        single("o"@, "output"@, "dump processed protocol and handler info to file"@, "FILE"@),
        multiple(
            "p"@,
            "protofile"@,
            "a protocol XML file (can appear multiple times)"@,
            "FILE"@,
        ),
        multiple(
            "P"@,
            "protodir"@,
            "a directory of protocol XML files (can appear multiple times)"@,
            "DIR"@,
        ),
        flag("s"@, "single"@, "Accept only one client"@),
        single(
            "t"@,
            "terminate"@,
            "terminate after last client and no others for secs"@,
            "SECS"@,
        ),
        flag("v"@, "version"@, "show version info and exit"@),
        flag("w"@, "watchserver"@, "exit when server exits"@),
        flag("c"@, "childprocs"@, "Fork client sessions into child processes"@),
        flag("z"@, "daemonize"@, "Daemonize when client socket is ready"@),
    ]
}

/// The short names are what they are.
proof fn lemma_short_names()
    ensures
        "a"@ == seq!['a'],
        "d"@ == seq!['d'],
        "f"@ == seq!['f'],
        "g"@ == seq!['g'],
        "h"@ == seq!['h'],
        "l"@ == seq!['l'],
        "m"@ == seq!['m'],
        "o"@ == seq!['o'],
        "p"@ == seq!['p'],
        "P"@ == seq!['P'],
        "s"@ == seq!['s'],
        "t"@ == seq!['t'],
        "v"@ == seq!['v'],
        "w"@ == seq!['w'],
        "c"@ == seq!['c'],
        "z"@ == seq!['z'],
{
    reveal_strlit("a");
    reveal_strlit("d");
    reveal_strlit("f");
    reveal_strlit("g");
    reveal_strlit("h");
    reveal_strlit("l");
    reveal_strlit("m");
    reveal_strlit("o");
    reveal_strlit("p");
    reveal_strlit("P");
    reveal_strlit("s");
    reveal_strlit("t");
    reveal_strlit("v");
    reveal_strlit("w");
    reveal_strlit("c");
    reveal_strlit("z");
    assert("a"@ =~= seq!['a']);
    assert("d"@ =~= seq!['d']);
    assert("f"@ =~= seq!['f']);
    assert("g"@ =~= seq!['g']);
    assert("h"@ =~= seq!['h']);
    assert("l"@ =~= seq!['l']);
    assert("m"@ =~= seq!['m']);
    assert("o"@ =~= seq!['o']);
    assert("p"@ =~= seq!['p']);
    assert("P"@ =~= seq!['P']);
    assert("s"@ =~= seq!['s']);
    assert("t"@ =~= seq!['t']);
    assert("v"@ =~= seq!['v']);
    assert("w"@ =~= seq!['w']);
    assert("c"@ =~= seq!['c']);
    assert("z"@ =~= seq!['z']);
}

/// The long names are longer than one character.
proof fn lemma_long_names()
    ensures
        "antilock"@.len() > 1,
        "display"@.len() > 1,
        "flushsends"@.len() > 1,
        "globals"@.len() > 1,
        "help"@.len() > 1,
        "list"@.len() > 1,
        "allowmissing"@.len() > 1,
        "output"@.len() > 1,
        "protofile"@.len() > 1,
        "protodir"@.len() > 1,
        "single"@.len() > 1,
        "terminate"@.len() > 1,
        "version"@.len() > 1,
        "watchserver"@.len() > 1,
        "childprocs"@.len() > 1,
        "daemonize"@.len() > 1,
{
    reveal_strlit("antilock");
    reveal_strlit("display");
    reveal_strlit("flushsends");
    reveal_strlit("globals");
    reveal_strlit("help");
    reveal_strlit("list");
    reveal_strlit("allowmissing");
    reveal_strlit("output");
    reveal_strlit("protofile");
    reveal_strlit("protodir");
    reveal_strlit("single");
    reveal_strlit("terminate");
    reveal_strlit("version");
    reveal_strlit("watchserver");
    reveal_strlit("childprocs");
    reveal_strlit("daemonize");
}

/// Declares the options that the program takes.
pub fn get_options() -> (r: Options)
    ensures
        declared(r) == option_table(),
        stops_at_free(r),
        all_named(declared(r)),
{
    proof {
        lemma_short_names();
        lemma_long_names();
    }
    let mut opts = options_new();
    options_stop_at_free(&mut opts);
    options_optopt(
        &mut opts,
        "a",
        "antilock",
        "file descriptor for waydapt to unlock when its socket is ready",
        "FILE-DESCRIPTOR",
    );
    options_optopt(
        &mut opts,
        "d",
        "display",
        "the name of the Wayland display socket to create",
        "NAME",
    );
    options_optflag(
        &mut opts,
        "f",
        "flushsends",
        "send every message immediately, instead of batching them",
    );
    options_optopt(
        &mut opts,
        "g",
        "globals",
        "file with one allowed global interface and max version per line",
        "FILE",
    );
    options_optflag(&mut opts, "h", "help", "print this help");
    options_optflag(&mut opts, "l", "list", "list available addon modules");
    options_optflag(
        &mut opts,
        "m",
        "allowmissing",
        "allow global entries that don't appear in protocol files",
    );
    options_optopt(
        &mut opts,
        "o",
        "output",
        "dump processed protocol and handler info to file",
        "FILE",
    );
    options_optmulti(
        &mut opts,
        "p",
        "protofile",
        "a protocol XML file (can appear multiple times)",
        "FILE",
    );
    options_optmulti(
        &mut opts,
        "P",
        "protodir",
        "a directory of protocol XML files (can appear multiple times)",
        "DIR",
    );
    options_optflag(&mut opts, "s", "single", "Accept only one client");
    options_optopt(
        &mut opts,
        "t",
        "terminate",
        "terminate after last client and no others for secs",
        "SECS",
    );
    options_optflag(&mut opts, "v", "version", "show version info and exit");
    options_optflag(&mut opts, "w", "watchserver", "exit when server exits");
    options_optflag(&mut opts, "c", "childprocs", "Fork client sessions into child processes");
    options_optflag(&mut opts, "z", "daemonize", "Daemonize when client socket is ready");
    assert(declared(opts) =~= option_table());
    opts
}

} // verus!
