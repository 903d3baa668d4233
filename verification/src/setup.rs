//! What the program is to do, as its arguments and its environment say.

use crate::gather::{after_dashes, split_own_args, until_dashes};
use crate::options::{
    all_values, first_value, get_options, given, matches_present, matches_str, matches_strs,
    option_table, options_parse, options_usage, parsed, usage_text, OptionError,
};
use crate::text::{i32_text, parse_i32, parse_u64, str_eq, str_views, to_chars, u64_text};
use getopts::Matches;
use vstd::prelude::*;
use vstd::string::StringExecFns;

verus! {

/// What has been given for each option.
#[derive(Debug)]
pub struct Arguments {
    pub antilock: Option<String>,
    pub display: Option<String>,
    pub flush: bool,
    pub globals: Option<String>,
    pub help: bool,
    pub list: bool,
    pub allow_missing: bool,
    pub output: Option<String>,
    pub files: Vec<String>,
    pub dirs: Vec<String>,
    pub single: bool,
    pub terminate: Option<String>,
    pub version: bool,
    pub watch: bool,
    pub fork: bool,
    pub daemonize: bool,
}

/// The contents of an [`Arguments`].
#[verifier::ext_equal]
pub struct ArgumentsV {
    pub antilock: Option<Seq<char>>,
    pub display: Option<Seq<char>>,
    pub flush: bool,
    pub globals: Option<Seq<char>>,
    pub help: bool,
    pub list: bool,
    pub allow_missing: bool,
    pub output: Option<Seq<char>>,
    pub files: Seq<Seq<char>>,
    pub dirs: Seq<Seq<char>>,
    pub single: bool,
    pub terminate: Option<Seq<char>>,
    pub version: bool,
    pub watch: bool,
    pub fork: bool,
    pub daemonize: bool,
}

/// The text that may be there.
pub open spec fn text_view(text: Option<String>) -> Option<Seq<char>> {
    match text {
        Some(text) => Some(text@),
        None => None,
    }
}

impl View for Arguments {
    type V = ArgumentsV;

    open spec fn view(&self) -> ArgumentsV {
        ArgumentsV {
            antilock: text_view(self.antilock),
            display: text_view(self.display),
            flush: self.flush,
            globals: text_view(self.globals),
            help: self.help,
            list: self.list,
            allow_missing: self.allow_missing,
            output: text_view(self.output),
            files: str_views(self.files@),
            dirs: str_views(self.dirs@),
            single: self.single,
            terminate: text_view(self.terminate),
            version: self.version,
            watch: self.watch,
            fork: self.fork,
            daemonize: self.daemonize,
        }
    }
}

/// What has been given for each option, where it is kept by the short names of the options.
pub open spec fn arguments_of(uses: Map<Seq<char>, Seq<Option<Seq<char>>>>) -> ArgumentsV {
    ArgumentsV {
        antilock: first_value(uses["a"@]),
        display: first_value(uses["d"@]),
        flush: uses["f"@].len() > 0,
        globals: first_value(uses["g"@]),
        help: uses["h"@].len() > 0,
        list: uses["l"@].len() > 0,
        allow_missing: uses["m"@].len() > 0,
        output: first_value(uses["o"@]),
        files: all_values(uses["p"@]),
        dirs: all_values(uses["P"@]),
        single: uses["s"@].len() > 0,
        terminate: first_value(uses["t"@]),
        version: uses["v"@].len() > 0,
        watch: uses["w"@].len() > 0,
        fork: uses["c"@].len() > 0,
        daemonize: uses["z"@].len() > 0,
    }
}

/// Whether all options can be asked for.
pub open spec fn covers_table(matches: Matches) -> bool {
    forall|i: int|
        0 <= i < option_table().len() ==> given(matches).contains_key(
            (#[trigger] option_table()[i]).short,
        )
}

fn read_matches(matches: &Matches) -> (r: Arguments)
    requires
        covers_table(*matches),
    ensures
        r@ == arguments_of(given(*matches)),
{
    proof {
        let t = option_table();
        assert(t[0].short == "a"@ && t[1].short == "d"@ && t[2].short == "f"@ && t[3].short
            == "g"@ && t[4].short == "h"@ && t[5].short == "l"@ && t[6].short == "m"@
            && t[7].short == "o"@ && t[8].short == "p"@ && t[9].short == "P"@ && t[10].short
            == "s"@ && t[11].short == "t"@ && t[12].short == "v"@ && t[13].short == "w"@
            && t[14].short == "c"@ && t[15].short == "z"@);
    }
    Arguments {
        antilock: matches_str(matches, "a"),
        display: matches_str(matches, "d"),
        flush: matches_present(matches, "f"),
        globals: matches_str(matches, "g"),
        help: matches_present(matches, "h"),
        list: matches_present(matches, "l"),
        allow_missing: matches_present(matches, "m"),
        output: matches_str(matches, "o"),
        files: matches_strs(matches, "p"),
        dirs: matches_strs(matches, "P"),
        single: matches_present(matches, "s"),
        terminate: matches_str(matches, "t"),
        version: matches_present(matches, "v"),
        watch: matches_present(matches, "w"),
        fork: matches_present(matches, "c"),
        daemonize: matches_present(matches, "z"),
    }
}

/// Finds out what has been given for each option.
pub fn parse_arguments(args: &Vec<String>) -> (r: Result<Arguments, OptionError>)
    ensures
        match (r, parsed(option_table(), true, str_views(args@))) {
            (Ok(a), Ok(uses)) => a@ == arguments_of(uses),
            (Err(e), Err(f)) => e@ == f,
            _ => false,
        },
{
    let opts = get_options();
    match options_parse(&opts, args) {
        Ok(matches) => {
            Ok(read_matches(&matches))
        },
        Err(e) => Err(e),
    }
}

/// What the help begins with.
pub open spec fn brief_text(program: Seq<char>) -> Seq<char> {
    "Usage: "@ + program + " [options] -- ...addons-and-their-options..."@
}

/// The help.
pub fn usage(program: &str) -> (r: String)
    ensures
        r@ == usage_text(option_table(), brief_text(program@)),
{
    let mut brief = "Usage: ".to_owned();
    brief.append(program);
    brief.append(" [options] -- ...addons-and-their-options...");
    let opts = get_options();
    options_usage(&opts, brief.as_str())
}

/// The options that all of the program can use.
#[derive(Debug, PartialEq, Eq, Clone, Copy, Structural)]
pub struct SharedOptions {
    /// For how many seconds no client may be there before the program ends, if it ends at all.
    pub terminate_after: Option<u64>,
    pub debug_level: u32,
    pub flush_every_send: bool,
    pub watch_server: bool,
    pub single_mode: bool,
    pub fork_mode: bool,
}

/// Why the program cannot do what it is told.
#[derive(Debug, PartialEq, Eq, Clone, Copy, Structural)]
pub enum SetupError {
    /// What is given for `-t` is not a number of seconds.
    BadSeconds,
    /// `-t` and `-s` are mutually exclusive.
    TerminateAndSingle,
    /// `-c` and `-s` are mutually exclusive.
    ForkAndSingle,
    /// `-t` and `-c` are mutually exclusive.
    TerminateAndFork,
    /// The `-g` option for the file of globals is missing.
    NoGlobals,
    /// What is given for `-a` is not a number.
    BadFd,
    /// What is given for `-a` is negative.
    NegativeFd,
}

/// How much debug output the environment asks for: all of it, what the client sends and gets, what
/// the server sends and gets, or none.
pub open spec fn debug_level_of(wayland_debug: Option<Seq<char>>) -> u32 {
    match wayland_debug {
        Some(s) => if s == "1"@ || s == "all"@ || s == "both"@ {
            1
        } else if s == "2"@ || s == "client"@ {
            2
        } else if s == "3"@ || s == "server"@ {
            3
        } else {
            0
        },
        None => 0,
    }
}

/// How much debug output the environment asks for.
pub fn debug_level(wayland_debug: Option<&str>) -> (r: u32)
    ensures
        r == debug_level_of(
            match wayland_debug {
                Some(s) => Some(s@),
                None => None,
            },
        ),
{
    match wayland_debug {
        Some(s) => {
            if str_eq(s, "1") || str_eq(s, "all") || str_eq(s, "both") {
                1
            } else if str_eq(s, "2") || str_eq(s, "client") {
                2
            } else if str_eq(s, "3") || str_eq(s, "server") {
                3
            } else {
                0
            }
        },
        None => 0,
    }
}

/// The options that all of the program can use, unless they exclude each other.
pub open spec fn shared_options(a: ArgumentsV, debug_level: u32) -> Result<SharedOptions, SetupError> {
    if a.terminate is Some && u64_text(a.terminate->0) is None {
        Err(SetupError::BadSeconds)
    } else if a.terminate is Some && a.single {
        Err(SetupError::TerminateAndSingle)
    } else if a.single && a.fork {
        Err(SetupError::ForkAndSingle)
    } else if a.terminate is Some && a.fork {
        Err(SetupError::TerminateAndFork)
    } else {
        Ok(
            SharedOptions {
                terminate_after: match a.terminate {
                    Some(t) => u64_text(t),
                    None => None,
                },
                debug_level,
                flush_every_send: a.flush,
                watch_server: a.watch,
                single_mode: a.single,
                fork_mode: a.fork,
            },
        )
    }
}

impl SharedOptions {
    /// The options that all of the program can use, unless they exclude each other.
    pub fn new(arguments: &Arguments, debug_level: u32) -> (r: Result<SharedOptions, SetupError>)
        ensures
            r == shared_options(arguments@, debug_level),
    {
        let terminate_after: Option<u64> = match &arguments.terminate {
            Some(t) => match parse_u64(to_chars(t.as_str()).as_slice()) {
                Some(secs) => Some(secs),
                None => {
                    return Err(SetupError::BadSeconds);
                },
            },
            None => None,
        };
        if terminate_after.is_some() && arguments.single {
            return Err(SetupError::TerminateAndSingle);
        }
        if arguments.single && arguments.fork {
            return Err(SetupError::ForkAndSingle);
        }
        if terminate_after.is_some() && arguments.fork {
            return Err(SetupError::TerminateAndFork);
        }
        Ok(
            SharedOptions {
                terminate_after,
                debug_level,
                flush_every_send: arguments.flush,
                watch_server: arguments.watch,
                single_mode: arguments.single,
                fork_mode: arguments.fork,
            },
        )
    }
}

/// What the program is to do when it runs.
#[derive(Debug)]
pub struct Settings {
    pub options: SharedOptions,
    /// Protocol files.
    pub files: Vec<String>,
    /// Directories of protocol files.
    pub dirs: Vec<String>,
    /// The file of globals.
    pub globals: String,
    pub allow_missing: bool,
    /// The file to which the protocols and handlers are written, if they are.
    pub output: Option<String>,
    /// The name of the socket that clients connect to.
    pub display: String,
    /// The file descriptor that is unlocked when the socket is ready, as it was given.
    pub antilock: Option<String>,
    pub daemonize: bool,
}

/// The contents of a [`Settings`].
#[verifier::ext_equal]
pub struct SettingsV {
    pub options: SharedOptions,
    pub files: Seq<Seq<char>>,
    pub dirs: Seq<Seq<char>>,
    pub globals: Seq<char>,
    pub allow_missing: bool,
    pub output: Option<Seq<char>>,
    pub display: Seq<char>,
    pub antilock: Option<Seq<char>>,
    pub daemonize: bool,
}

impl View for Settings {
    type V = SettingsV;

    open spec fn view(&self) -> SettingsV {
        SettingsV {
            options: self.options,
            files: str_views(self.files@),
            dirs: str_views(self.dirs@),
            globals: self.globals@,
            allow_missing: self.allow_missing,
            output: text_view(self.output),
            display: self.display@,
            antilock: text_view(self.antilock),
            daemonize: self.daemonize,
        }
    }
}

/// What the program is to do.
#[derive(Debug)]
pub enum Startup {
    /// Print the help, and nothing else.
    Help,
    /// Print the version, behind a list of the addons where that is asked for too.
    Version { list: bool },
    /// Run, behind a list of the addons where that is asked for.
    Run { list: bool, settings: Settings },
}

/// The contents of a [`Startup`].
#[verifier::ext_equal]
pub enum StartupV {
    Help,
    Version { list: bool },
    Run { list: bool, settings: SettingsV },
}

impl View for Startup {
    type V = StartupV;

    open spec fn view(&self) -> StartupV {
        match self {
            Startup::Help => StartupV::Help,
            Startup::Version { list } => StartupV::Version { list: *list },
            Startup::Run { list, settings } => StartupV::Run { list: *list, settings: settings@ },
        }
    }
}

/// What the program is to do, by what has been given for each option.
pub open spec fn planned(a: ArgumentsV, debug_level: u32) -> Result<StartupV, SetupError> {
    if a.help {
        Ok(StartupV::Help)
    } else if a.version {
        Ok(StartupV::Version { list: a.list })
    } else {
        match shared_options(a, debug_level) {
            Err(e) => Err(e),
            Ok(options) => match a.globals {
                None => Err(SetupError::NoGlobals),
                Some(globals) => Ok(
                    StartupV::Run {
                        list: a.list,
                        settings: SettingsV {
                            options,
                            files: a.files,
                            dirs: a.dirs,
                            globals,
                            allow_missing: a.allow_missing,
                            output: a.output,
                            display: match a.display {
                                Some(display) => display,
                                None => "waydapt-0"@,
                            },
                            antilock: a.antilock,
                            daemonize: a.daemonize,
                        },
                    },
                ),
            },
        }
    }
}

/// Says what the program is to do, by what has been given for each option.
pub fn plan(arguments: Arguments, debug_level: u32) -> (r: Result<Startup, SetupError>)
    ensures
        match (r, planned(arguments@, debug_level)) {
            (Ok(s), Ok(v)) => s@ == v,
            (Err(e), Err(f)) => e == f,
            _ => false,
        },
{
    if arguments.help {
        return Ok(Startup::Help);
    }
    if arguments.version {
        return Ok(Startup::Version { list: arguments.list });
    }
    let options = match SharedOptions::new(&arguments, debug_level) {
        Err(e) => {
            return Err(e);
        },
        Ok(options) => options,
    };
    let globals = match arguments.globals {
        None => {
            return Err(SetupError::NoGlobals);
        },
        Some(globals) => globals,
    };
    let display = match arguments.display {
        Some(display) => display,
        None => "waydapt-0".to_owned(),
    };
    Ok(
        Startup::Run {
            list: arguments.list,
            settings: Settings {
                options,
                files: arguments.files,
                dirs: arguments.dirs,
                globals,
                allow_missing: arguments.allow_missing,
                output: arguments.output,
                display,
                antilock: arguments.antilock,
                daemonize: arguments.daemonize,
            },
        },
    )
}

/// Why the program does not start.
#[derive(Debug)]
pub enum StartupError {
    /// The arguments do not fit the options.
    Options(OptionError),
    /// The program cannot do what it is told.
    Setup(SetupError),
}

/// What the program is to do, by its arguments: those before two dashes are its own, and the others
/// are for the addons.
pub fn startup(args: &Vec<String>, wayland_debug: Option<&str>) -> (r: Result<
    (Startup, Vec<String>),
    StartupError,
>)
    ensures
        ({
            let all = str_views(args@);
            let level = debug_level_of(
                match wayland_debug {
                    Some(s) => Some(s@),
                    None => None,
                },
            );
            match parsed(option_table(), true, all.take(until_dashes(all) as int)) {
                Err(e) => r matches Err(StartupError::Options(f)) && f@ == e,
                Ok(uses) => match planned(arguments_of(uses), level) {
                    Err(e) => r matches Err(StartupError::Setup(f)) && f == e,
                    Ok(v) => r matches Ok((s, rest)) && s@ == v && str_views(rest@)
                        == after_dashes(all),
                },
            }
        }),
{
    let (own, rest) = split_own_args(args);
    let arguments = match parse_arguments(&own) {
        Err(e) => {
            return Err(StartupError::Options(e));
        },
        Ok(arguments) => arguments,
    };
    match plan(arguments, debug_level(wayland_debug)) {
        Err(e) => Err(StartupError::Setup(e)),
        Ok(startup) => Ok((startup, rest)),
    }
}

/// The file descriptor that is to be unlocked, by what was given for it.
pub fn antilock_fd(text: &str) -> (r: Result<i32, SetupError>)
    ensures
        r == match i32_text(text@) {
            None => Err::<i32, SetupError>(SetupError::BadFd),
            Some(fd) => if fd < 0 {
                Err(SetupError::NegativeFd)
            } else {
                Ok(fd)
            },
        },
{
    match parse_i32(to_chars(text).as_slice()) {
        None => Err(SetupError::BadFd),
        Some(fd) => if fd < 0 {
            Err(SetupError::NegativeFd)
        } else {
            Ok(fd)
        },
    }
}

/// Whether the extension of a file name is the one of protocol files, in letters of either case.
pub open spec fn xml_extension(extension: Seq<char>) -> bool {
    &&& extension.len() == 3
    &&& extension[0] == 'x' || extension[0] == 'X'
    &&& extension[1] == 'm' || extension[1] == 'M'
    &&& extension[2] == 'l' || extension[2] == 'L'
}

/// Whether the extension of a file name is the one of protocol files.
pub fn is_xml_extension(extension: &str) -> (r: bool)
    ensures
        r == xml_extension(extension@),
{
    let chars = to_chars(extension);
    chars.len() == 3 && (chars[0] == 'x' || chars[0] == 'X') && (chars[1] == 'm' || chars[1] == 'M')
        && (chars[2] == 'l' || chars[2] == 'L')
}

/// No options that exclude each other are ever in force together.
pub proof fn law_modes_exclude_each_other(a: ArgumentsV, debug_level: u32)
    requires
        shared_options(a, debug_level) is Ok,
    ensures
        ({
            let o = shared_options(a, debug_level)->Ok_0;
            &&& !(o.single_mode && o.fork_mode)
            &&& o.terminate_after is Some ==> !o.single_mode && !o.fork_mode
        }),
{
}

} // verus!
