use waydapt::basics::{round4, to_u32_vec, to_u8_vec, ByteOrder};
use waydapt::debug::{shows_in, shows_out, stamp, wayland_fixed};
use waydapt::event_loop::{
    after_wait, AfterWait, Call, Event, EventLoop, EventLoopFlow, Flags, LoopStep, Waited, HUNG_UP,
};
use waydapt::listener::{
    file_still_at_path, server_socket_path, socket_path, FileIdentity, SocketPathError,
};
use waydapt::map::{IdMap, IdMapError};
use waydapt::options::OptionError;
use waydapt::outbuffer::SendReply;
use waydapt::protocol::InterfaceId;
use waydapt::setup::{
    antilock_fd, debug_level, is_xml_extension, parse_arguments, plan, startup, usage, Arguments,
    SetupError, SharedOptions, Startup, StartupError,
};
use waydapt::socket_events::{
    accept_plan, ending_for_server, ending_for_signal, ending_for_signo, last_words, source_of,
    AcceptPlan, Ending, Source,
};
use waydapt::streams::{send_reply, words_received};
use waydapt::terminator::SessionCounts;
use waydapt::text::{decode_text, parse_i32, parse_u32, parse_u64, split_fields, to_chars, to_decimal};
use waydapt::version_info::{version_info, Build};

fn strings(args: &[&str]) -> Vec<String> {
    args.iter().map(|a| a.to_string()).collect()
}

fn arguments(args: &[&str]) -> Arguments {
    parse_arguments(&strings(args)).unwrap()
}

#[test]
fn what_is_given_for_options() {
    let a = arguments(&["-g", "globals", "--protofile=one", "-p", "two", "-Pdir", "-fs", "--display", "d"]);
    assert_eq!(a.globals.as_deref(), Some("globals"));
    assert_eq!(a.files, ["one", "two"]);
    assert_eq!(a.dirs, ["dir"]);
    assert!(a.flush && a.single);
    assert_eq!(a.display.as_deref(), Some("d"));
    assert!(!a.help && !a.list && !a.version && !a.watch && !a.fork && !a.daemonize);
    assert!(!a.allow_missing);
    assert!(a.antilock.is_none() && a.output.is_none() && a.terminate.is_none());
    let a = arguments(&["-hlvwczm", "-a5", "-oout", "-t", "9"]);
    assert!(a.help && a.list && a.version && a.watch && a.fork && a.daemonize && a.allow_missing);
    assert_eq!(a.antilock.as_deref(), Some("5"));
    assert_eq!(a.output.as_deref(), Some("out"));
    assert_eq!(a.terminate.as_deref(), Some("9"));
    // no option is looked for behind the first other argument
    let a = arguments(&["-f", "free", "-s"]);
    assert!(a.flush && !a.single);
}

#[test]
fn arguments_that_do_not_fit() {
    let error = |args: &[&str]| parse_arguments(&strings(args)).unwrap_err();
    assert_eq!(error(&["-x"]), OptionError::UnrecognizedOption("x".into()));
    assert_eq!(error(&["-g"]), OptionError::ArgumentMissing("g".into()));
    assert_eq!(error(&["-d", "a", "-d", "b"]), OptionError::OptionDuplicated("display".into()));
    assert_eq!(error(&["--help=me"]), OptionError::UnexpectedArgument("help".into()));
}

#[test]
fn the_help() {
    let text = usage("prog");
    assert!(text.starts_with("Usage: prog [options] -- ...addons-and-their-options...\n\nOptions:\n"));
    assert!(text.contains("    -g, --globals FILE  file with one allowed global interface and max version\n"));
    assert!(text.contains("    -h, --help          print this help\n"));
    assert!(text.contains("-a, --antilock FILE-DESCRIPTOR"));
    assert!(text.contains("-z, --daemonize"));
}

#[test]
fn debug_levels() {
    for (value, level) in [
        ("1", 1),
        ("all", 1),
        ("both", 1),
        ("2", 2),
        ("client", 2),
        ("3", 3),
        ("server", 3),
        ("0", 0),
        ("", 0),
        ("ALL", 0),
    ] {
        assert_eq!(debug_level(Some(value)), level);
    }
    assert_eq!(debug_level(None), 0);
    assert!(shows_in(1, true) && shows_in(1, false) && shows_out(1, true) && shows_out(1, false));
    assert!(!shows_in(2, true) && shows_in(2, false) && shows_out(2, true) && !shows_out(2, false));
    assert!(shows_in(3, true) && !shows_in(3, false) && !shows_out(3, true) && shows_out(3, false));
    assert!(!shows_in(0, true) && !shows_out(0, false));
}

fn setup_error(args: &[&str]) -> SetupError {
    plan(arguments(args), 0).err().unwrap()
}

#[test]
fn options_that_exclude_each_other() {
    assert_eq!(setup_error(&["-g", "g", "-t", "soon"]), SetupError::BadSeconds);
    assert_eq!(setup_error(&["-g", "g", "-t", "-5"]), SetupError::BadSeconds);
    assert_eq!(setup_error(&["-g", "g", "-t", "5", "-s"]), SetupError::TerminateAndSingle);
    assert_eq!(setup_error(&["-g", "g", "-c", "-s"]), SetupError::ForkAndSingle);
    assert_eq!(setup_error(&["-g", "g", "-t", "5", "-c"]), SetupError::TerminateAndFork);
    assert_eq!(setup_error(&["-f"]), SetupError::NoGlobals);
    let options = SharedOptions::new(&arguments(&["-t", "18446744073709551615", "-w", "-f"]), 2);
    assert_eq!(
        options,
        Ok(SharedOptions {
            terminate_after: Some(u64::MAX),
            debug_level: 2,
            flush_every_send: true,
            watch_server: true,
            single_mode: false,
            fork_mode: false,
        })
    );
}

#[test]
fn what_the_program_does() {
    let args = strings(&["-l", "-g", "globals", "-p", "x.xml", "-m", "-a", "3", "--", "safeclip", "p"]);
    let (startup_plan, rest) = startup(&args, Some("client")).unwrap();
    let Startup::Run { list: true, settings } = startup_plan else { panic!() };
    assert_eq!(rest, ["safeclip", "p"]);
    assert_eq!(settings.globals, "globals");
    assert_eq!(settings.display, "waydapt-0");
    assert_eq!(settings.files, ["x.xml"]);
    assert!(settings.dirs.is_empty());
    assert!(settings.allow_missing && !settings.daemonize);
    assert_eq!(settings.antilock.as_deref(), Some("3"));
    assert_eq!(settings.options.debug_level, 2);
    let (startup_plan, _) = startup(&strings(&["-l", "-v"]), None).unwrap();
    assert!(matches!(startup_plan, Startup::Version { list: true }));
    let (startup_plan, _) = startup(&strings(&["-v", "-h"]), None).unwrap();
    assert!(matches!(startup_plan, Startup::Help));
    assert!(matches!(
        startup(&strings(&["-q"]), None),
        Err(StartupError::Options(OptionError::UnrecognizedOption(_)))
    ));
    assert!(matches!(
        startup(&strings(&["--", "-h"]), None),
        Err(StartupError::Setup(SetupError::NoGlobals))
    ));
}

#[test]
fn the_file_descriptor_to_unlock() {
    assert_eq!(antilock_fd("0"), Ok(0));
    assert_eq!(antilock_fd("+17"), Ok(17));
    assert_eq!(antilock_fd("2147483647"), Ok(i32::MAX));
    assert_eq!(antilock_fd("-1"), Err(SetupError::NegativeFd));
    assert_eq!(antilock_fd("-2147483648"), Err(SetupError::NegativeFd));
    assert_eq!(antilock_fd("2147483648"), Err(SetupError::BadFd));
    assert_eq!(antilock_fd("-+1"), Err(SetupError::BadFd));
    assert_eq!(antilock_fd("three"), Err(SetupError::BadFd));
    assert_eq!(antilock_fd(""), Err(SetupError::BadFd));
}

#[test]
fn protocol_files_by_extension() {
    assert!(is_xml_extension("xml"));
    assert!(is_xml_extension("XmL"));
    assert!(!is_xml_extension("xm"));
    assert!(!is_xml_extension("xmls"));
    assert!(!is_xml_extension("yml"));
}

#[test]
fn where_sockets_are() {
    assert_eq!(socket_path("/tmp/x", None).unwrap(), "/tmp/x");
    assert_eq!(socket_path("x", Some("/run")).unwrap(), "/run/x");
    assert_eq!(socket_path("x", Some("/run/")).unwrap(), "/run/x");
    assert_eq!(socket_path("x", Some("run")).unwrap_err(), SocketPathError::RelativeRuntimeDir);
    assert_eq!(socket_path("x", Some("")).unwrap_err(), SocketPathError::RelativeRuntimeDir);
    assert_eq!(socket_path("x", None).unwrap_err(), SocketPathError::NoRuntimeDir);
    assert_eq!(server_socket_path(None, Some("/run")).unwrap(), "/run/wayland-0");
    assert_eq!(server_socket_path(Some("w1"), Some("/run")).unwrap(), "/run/w1");
    let a = FileIdentity { device: 1, inode: 2 };
    let b = FileIdentity { device: 1, inode: 3 };
    assert!(file_still_at_path(a, Some(a)));
    assert!(!file_still_at_path(a, Some(b)));
    assert!(!file_still_at_path(a, None));
}

fn flags(input: bool, output: bool, edge: bool, rest: u32) -> Flags {
    Flags { input, output, edge, rest }
}

#[test]
fn the_order_of_calls() {
    let both = flags(true, true, true, 0);
    let mut el = EventLoop::new(&vec![both, flags(true, false, false, 0), both]);
    // only what reports changes is asked for at once
    assert_eq!(el.step(), LoopStep::Call(Call::Input(0)));
    assert_eq!(el.answered(EventLoopFlow::<i32>::Continue), None);
    assert_eq!(el.step(), LoopStep::Call(Call::Input(2)));
    assert_eq!(el.answered(EventLoopFlow::<i32>::Continue), None);
    assert_eq!(el.step(), LoopStep::Wait);
    let hung_up = flags(false, false, false, HUNG_UP);
    el.woken(&vec![
        Event { index: 1, flags: flags(true, true, false, HUNG_UP) },
        Event { index: 0, flags: flags(true, false, false, 0) },
    ]);
    for call in [Call::Output(1), Call::Input(1), Call::Error(1, hung_up), Call::Input(0)] {
        assert_eq!(el.step(), LoopStep::Call(call));
        assert_eq!(el.answered(EventLoopFlow::<i32>::Continue), None);
    }
    assert_eq!(el.step(), LoopStep::Wait);
    assert!(hung_up.is_normal_hang_up());
    assert!(!flags(false, false, false, HUNG_UP | 8).is_normal_hang_up());
    assert!(!flags(false, false, true, HUNG_UP).is_normal_hang_up());
}

#[test]
fn how_a_wait_ends() {
    assert_eq!(after_wait(Waited::Done), AfterWait::Handle);
    assert_eq!(after_wait(Waited::Interrupted), AfterWait::Again);
    assert_eq!(after_wait(Waited::Failed), AfterWait::Fail);
}

#[test]
fn the_loop_restarts_and_returns() {
    let mut el = EventLoop::new(&vec![flags(true, false, true, 0), flags(true, false, true, 0)]);
    assert_eq!(el.answered(EventLoopFlow::<i32>::RefreshFDs), None);
    // what is left is done before
    assert_eq!(el.step(), LoopStep::Call(Call::Input(1)));
    assert_eq!(el.answered(EventLoopFlow::<i32>::Continue), None);
    assert_eq!(el.step(), LoopStep::Restart);
    let mut el = EventLoop::new(&vec![]);
    el.woken(&vec![Event { index: 3, flags: flags(true, false, false, 0) }]);
    assert_eq!(el.answered(EventLoopFlow::Return(42)), Some(42));
}

#[test]
fn the_end_of_the_last_session() {
    let mut counts = SessionCounts::new();
    counts.begin();
    counts.begin();
    assert_eq!(counts.end(), None);
    assert_eq!(counts.end(), Some(2));
    assert!(counts.should_exit(2));
    counts.begin();
    assert!(!counts.should_exit(2));
    assert_eq!(counts.end(), Some(3));
    let mut counts = SessionCounts { live: 0, total: u32::MAX };
    counts.begin();
    assert_eq!(counts, SessionCounts { live: 1, total: 0 });
}

#[test]
fn what_happens_to_the_program() {
    assert_eq!(source_of(0), Some(Source::Listener));
    assert_eq!(source_of(1), Some(Source::Signal));
    assert_eq!(source_of(2), Some(Source::Server));
    assert_eq!(source_of(3), None);
    let mut options = SharedOptions {
        terminate_after: None,
        debug_level: 0,
        flush_every_send: false,
        watch_server: false,
        single_mode: false,
        fork_mode: false,
    };
    assert_eq!(accept_plan(&options), AcceptPlan::Spawn);
    options.single_mode = true;
    assert_eq!(accept_plan(&options), AcceptPlan::HandOver);
    options.single_mode = false;
    options.fork_mode = true;
    assert_eq!(accept_plan(&options), AcceptPlan::Fork);
    let say = |e: Ending| last_words(e);
    assert_eq!(
        say(ending_for_signal(10, 10, Some("SIGUSR1".into()))),
        ("Normal termination: Internal signal".into(), false)
    );
    assert_eq!(
        say(ending_for_signal(15, 10, Some("SIGTERM".into()))),
        ("Interrupted with SIGTERM".into(), false)
    );
    assert_eq!(say(ending_for_signal(99, 10, None)), ("Interrupted".into(), false));
    // 2 and 15 are the same signals everywhere
    assert_eq!(say(ending_for_signo(15, 10)), ("Interrupted with SIGTERM".into(), false));
    assert_eq!(say(ending_for_signo(2, 10)), ("Interrupted with SIGINT".into(), false));
    assert_eq!(say(ending_for_signo(0, 10)), ("Interrupted".into(), false));
    assert_eq!(
        say(ending_for_signo(2, 2)),
        ("Normal termination: Internal signal".into(), false)
    );
    assert_eq!(
        say(ending_for_server()),
        ("Normal termination: Server terminated connection".into(), false)
    );
    assert_eq!(say(Ending::Normal(None)), ("Normal termination".into(), false));
    assert_eq!(
        say(Ending::Failed("not found".into(), Some("file".into()))),
        ("not found: file".into(), true)
    );
    assert_eq!(say(Ending::Failed("not found".into(), None)), ("not found".into(), true));
}

#[test]
fn what_sockets_do() {
    let order = ByteOrder::native();
    assert_eq!(words_received(order, &[]), Some(vec![]));
    assert_eq!(words_received(order, &0x0102_0304u32.to_ne_bytes()), Some(vec![0x0102_0304]));
    assert_eq!(words_received(order, &[1, 2, 3]), None);
    assert_eq!(send_reply(None, 8), Some(SendReply::Refused));
    assert_eq!(send_reply(Some(8), 8), Some(SendReply::Accepted));
    assert_eq!(send_reply(Some(4), 8), None);
}

#[test]
fn what_is_said_of_the_build() {
    let build = Build {
        package_version: Some("0.1.0".into()),
        build_timestamp: None,
        cargo_debug: Some("false".into()),
        cargo_dependencies: Some("a b".into()),
        cargo_features: Some("".into()),
        cargo_opt_level: None,
        cargo_target_triple: None,
        git_describe: None,
        git_branch: None,
        git_commit_date: None,
        git_sha: Some("abc".into()),
        rustc_channel: None,
        rustc_commit_date: None,
        rustc_commit_hash: None,
        rustc_host_triple: None,
        rustc_llvm_version: None,
        rustc_semver: Some("1.80.0".into()),
    };
    assert_eq!(
        version_info(&build),
        "WAYDAPT SEMVER:      0.1.0\nCARGO DEBUG:         false\nCARGO DEPENDENCIES:  [a b]\nCARGO FEATURES:      []\nGIT SHA:             abc\nRUSTC SEMVER:        1.80.0\n"
    );
}

#[test]
fn numbers_in_text() {
    assert_eq!(parse_u32(&to_chars("4294967295")), Some(u32::MAX));
    assert_eq!(parse_u32(&to_chars("4294967296")), None);
    assert_eq!(parse_u32(&to_chars("++1")), None);
    assert_eq!(parse_u64(&to_chars("18446744073709551616")), None);
    assert_eq!(parse_i32(&to_chars("-2147483648")), Some(i32::MIN));
    assert_eq!(parse_i32(&to_chars("-0")), Some(0));
    assert_eq!(parse_i32(&to_chars("-")), None);
    assert_eq!(to_decimal(0), "0");
    assert_eq!(to_decimal(u64::MAX), "18446744073709551615");
    assert_eq!(wayland_fixed(0), "0.00000000");
    assert_eq!(wayland_fixed(256), "1.00000000");
    assert_eq!(wayland_fixed(1), "0.00390625");
    assert_eq!(wayland_fixed(-384), "-1.50000000");
    assert_eq!(wayland_fixed(i32::MIN), "-8388608.00000000");
    assert_eq!(stamp(1_234_567_890), "[1234567.890] ");
    assert_eq!(stamp(5), "[      0.005] ");
    assert_eq!(stamp(12_345_678_012), "[12345678.012] ");
}

#[test]
fn bytes_and_text() {
    assert_eq!(decode_text(b"ab\xc3\xa9"), Some("ab\u{e9}".to_string()));
    assert_eq!(decode_text(b"\xff"), None);
    let fields = split_fields(&to_chars(" a \t bc\u{3000}d "));
    assert_eq!(fields, [vec!['a'], vec!['b', 'c'], vec!['d']]);
    assert_eq!(round4(0), 0);
    assert_eq!(round4(5), 8);
    assert_eq!(round4(8), 8);
    for order in [ByteOrder::Little, ByteOrder::Big] {
        let words = vec![0x0102_0304, 0xfffe_fdfc];
        assert_eq!(to_u32_vec(order, &to_u8_vec(order, &words)), words);
    }
    assert_eq!(to_u8_vec(ByteOrder::Little, &[0x0102_0304]), [4, 3, 2, 1]);
    assert_eq!(to_u8_vec(ByteOrder::Big, &[0x0102_0304]), [1, 2, 3, 4]);
    assert_eq!(to_u8_vec(ByteOrder::native(), &[7]), 7u32.to_ne_bytes());
}

#[test]
fn live_objects() {
    let a = InterfaceId { protocol: 0, index: 1 };
    let b = InterfaceId { protocol: 1, index: 0 };
    let mut map = IdMap::with_display(a);
    assert_eq!(map.try_lookup(0), None);
    assert_eq!(map.lookup(1), a);
    assert_eq!(map.add(2, b), Ok(()));
    assert_eq!(map.lookup(2), b);
    assert_eq!(map.add(2, a), Err(IdMapError::Duplicate));
    assert_eq!(map.add(4, a), Err(IdMapError::OutOfRange));
    map.delete(2);
    map.delete(77);
    assert_eq!(map.try_lookup(2), None);
    assert_eq!(map.add(2, a), Ok(()));
    assert_eq!(map.lookup(2), a);
    let mut map = IdMap::new();
    assert_eq!(map.try_lookup(1), None);
    assert_eq!(map.add(0xff00_0000, b), Ok(()));
    assert_eq!(map.lookup(0xff00_0000), b);
}
