use std::collections::VecDeque;
use waydapt::actives::ActiveInterfaces;
use waydapt::addons::{put_prefix, prefixed, AddonError, Group, GroupState, Handler};
use waydapt::basics::{ByteOrder, Fd};
use waydapt::for_handlers::{
    AddHandlerError, HandlerError, SessionInfo, SessionInitInfo, UCred,
};
use waydapt::gather::{
    addon_list, addon_names, gather_handlers, init_states, split_addon_args, split_own_args,
};
use waydapt::handlers::{AddHandler, AllHandlers};
use waydapt::header::MessageHeader;
use waydapt::linkup::active_interfaces;
use waydapt::map::IdMapError;
use waydapt::mediator::{InitInfo, MediateError, Mediation, Mediator, Verdict};
use waydapt::message::DemarshalError;
use waydapt::outbuffer::{OutBuffer, Payload, SendAction, SendReply};
use waydapt::parse::parse;
use waydapt::protocol::InterfaceId;
use waydapt::session::{Action, Job, Session, SessionError};

const WAYLAND: &str = r#"<?xml version="1.0"?>
<protocol name="wayland">
  <interface name="wl_display" version="1">
    <request name="sync"><arg name="callback" type="new_id" interface="wl_callback"/></request>
    <request name="get_registry"><arg name="registry" type="new_id" interface="wl_registry"/></request>
    <event name="error"><arg name="object_id" type="object"/><arg name="code" type="uint"/><arg name="message" type="string"/></event>
    <event name="delete_id"><arg name="id" type="object"/></event>
  </interface>
  <interface name="wl_registry" version="1">
    <request name="bind"><arg name="name" type="uint"/><arg name="id" type="new_id"/></request>
    <event name="global"><arg name="name" type="uint"/><arg name="interface" type="string"/><arg name="version" type="uint"/></event>
  </interface>
  <interface name="wl_callback" version="1">
    <event name="done" type="destructor"><arg name="callback_data" type="uint"/></event>
  </interface>
  <interface name="wl_compositor" version="6">
    <request name="create_surface"><arg name="id" type="new_id" interface="wl_surface"/></request>
    <request name="share"><arg name="fd" type="fd"/><arg name="size" type="int"/></request>
  </interface>
  <interface name="wl_surface" version="6">
    <request name="set_title"><arg name="number" type="fixed"/><arg name="title" type="string"/></request>
    <request name="offset" since="5"><arg name="x" type="int"/></request>
    <event name="moved"><arg name="data" type="array"/></event>
  </interface>
  <interface name="wl_data_device_manager" version="3">
    <request name="create_data_source"><arg name="id" type="new_id" interface="wl_data_source"/></request>
  </interface>
  <interface name="wl_data_source" version="3">
    <request name="offer"><arg name="mime_type" type="string"/></request>
    <event name="target"><arg name="mime_type" type="string"/></event>
    <event name="send"><arg name="mime_type" type="string"/><arg name="fd" type="fd"/></event>
  </interface>
  <interface name="wl_seat" version="9"/>
</protocol>
"#;

const DISPLAY: u32 = 1;

fn actives() -> ActiveInterfaces {
    let protocol = parse(WAYLAND.as_bytes()).unwrap();
    let lines = vec!["wl_compositor 4".to_string(), "wl_data_device_manager 0".to_string()];
    active_interfaces(vec![protocol], &lines, false).ok().unwrap().0
}

fn strings(args: &[&str]) -> Vec<String> {
    args.iter().map(|a| a.to_string()).collect()
}

fn gathered(args: &[&str]) -> (AllHandlers<Handler>, Vec<Group>) {
    match gather_handlers(&strings(args), actives()) {
        Ok(all) => all,
        Err(e) => panic!("{e:?}"),
    }
}

fn gather_error(args: &[&str]) -> AddonError {
    gather_handlers(&strings(args), actives()).err().unwrap()
}

/// A string or an array, as it stands in a message.
fn array(bytes: &[u8]) -> Vec<u32> {
    let mut words = vec![bytes.len() as u32];
    for four in bytes.chunks(4) {
        let mut word = [0u8; 4];
        word[..four.len()].copy_from_slice(four);
        words.push(u32::from_ne_bytes(word));
    }
    words
}

fn text(s: &str) -> Vec<u32> {
    let mut bytes = s.as_bytes().to_vec();
    bytes.push(0);
    array(&bytes)
}

fn message(object_id: u32, opcode: u16, parts: &[Vec<u32>]) -> Vec<u32> {
    let body = parts.concat();
    let size = (body.len() as u16 + 2) * 4;
    let mut words = MessageHeader { object_id, opcode, size }.as_words().to_vec();
    words.extend(body);
    words
}

/// The words that a message is sent as.
fn sent(payload: Payload) -> Vec<u32> {
    let mut out = OutBuffer::new(false, true);
    let mut job = out.send(Vec::new(), payload);
    let SendAction::Transmit { words, .. } = out.advance(&mut job) else { panic!() };
    words
}

/// A mediator with all that it works with.
struct Fixture {
    all: AllHandlers<Handler>,
    groups: Vec<Group>,
    debug_level: u32,
}

impl Fixture {
    fn new(args: &[&str], debug_level: u32) -> Self {
        let (all, groups) = gathered(args);
        Fixture { all, groups, debug_level }
    }

    fn init_info(&self) -> InitInfo<'_> {
        InitInfo {
            ucred: Some(UCred { pid: 77, uid: 1, gid: 2 }),
            active_interfaces: &self.all.active_interfaces,
            debug_level: self.debug_level,
        }
    }

    fn states(&self, info: &InitInfo<'_>) -> Vec<GroupState> {
        init_states(&self.groups, info)
    }
}

struct Bench<'a> {
    mediator: Mediator<'a>,
    handlers: &'a Vec<Handler>,
    states: Vec<GroupState>,
    fds: VecDeque<Fd>,
}

impl<'a> Bench<'a> {
    fn new(fixture: &'a Fixture, info: &'a InitInfo<'a>) -> Self {
        Bench {
            mediator: Mediator::new(info),
            handlers: &fixture.all.handlers,
            states: fixture.states(info),
            fds: VecDeque::new(),
        }
    }

    fn mediate(&mut self, from_server: bool, msg: &[u32]) -> Mediation {
        let index = if from_server { 1 } else { 0 };
        self.mediator.mediate(
            index,
            msg,
            &mut self.fds,
            self.handlers,
            &mut self.states,
            ByteOrder::native(),
        )
    }

    fn passes(&mut self, from_server: bool, msg: &[u32]) -> Vec<u32> {
        match self.mediate(from_server, msg).verdict {
            Verdict::Send(payload) => sent(payload),
            v => panic!("{v:?}"),
        }
    }

    fn fails(&mut self, from_server: bool, msg: &[u32]) -> MediateError {
        match self.mediate(from_server, msg).verdict {
            Verdict::Fail(e) => e,
            v => panic!("{v:?}"),
        }
    }

    fn drops(&mut self, from_server: bool, msg: &[u32]) -> bool {
        matches!(self.mediate(from_server, msg).verdict, Verdict::Drop)
    }

    fn id(&self, name: &str) -> Option<InterfaceId> {
        self.mediator.init_info.active_interfaces.find(name)
    }

    /// The registry is object 2, the compositor object 3, the data device manager object 4.
    fn set_up(&mut self) {
        self.passes(false, &message(DISPLAY, 1, &[vec![2]]));
        self.passes(false, &bind(2, 10, "wl_compositor", 4, 3));
        self.passes(false, &bind(2, 11, "wl_data_device_manager", 3, 4));
    }
}

fn bind(registry: u32, name: u32, interface: &str, version: u32, id: u32) -> Vec<u32> {
    message(registry, 0, &[vec![name], text(interface), vec![version, id]])
}

fn global(registry: u32, name: u32, interface: &str, version: u32) -> Vec<u32> {
    message(registry, 0, &[vec![name], text(interface), vec![version]])
}

#[test]
fn arguments_are_parted_at_two_dashes() {
    let (own, rest) = split_own_args(&strings(&["-g", "x", "--", "safeclip", "p", "--", "b"]));
    assert_eq!(own, ["-g", "x"]);
    assert_eq!(rest, ["safeclip", "p", "--", "b"]);
    let (own, rest) = split_own_args(&strings(&["-h"]));
    assert_eq!(own, ["-h"]);
    assert!(rest.is_empty());
    let uses = split_addon_args(&rest);
    assert!(uses.is_empty());
    let uses = split_addon_args(&strings(&["safeclip", "p", "--", "b", "--", "c", "1", "2"]));
    assert_eq!(uses.len(), 3);
    assert_eq!(uses[0].name, "safeclip");
    assert_eq!(uses[0].args, ["p"]);
    assert_eq!(uses[1].name, "b");
    assert!(uses[1].args.is_empty());
    assert_eq!(uses[2].args, ["1", "2"]);
}

#[test]
fn every_session_has_builtin_handlers() {
    let (all, groups) = gathered(&[]);
    assert_eq!(groups.len(), 1);
    assert!(groups[0].prefix.is_empty());
    assert_eq!(all.groups, ["<builtin>"]);
    assert_eq!(all.handlers, [Handler::RegistryGlobal, Handler::RegistryBind, Handler::DeleteId]);
    let registry = all.active_interfaces.get_interface("wl_registry");
    let queue = registry.get_event_by_name("global").unwrap().handlers.0.as_ref().unwrap();
    assert_eq!(queue.len(), 1);
    assert_eq!(all.handlers[queue[0].handler], Handler::RegistryGlobal);
    assert!(registry.get_request_by_name("bind").unwrap().handlers.0.is_some());
    let display = all.active_interfaces.get_display();
    assert!(display.get_event_by_name("delete_id").unwrap().handlers.0.is_some());
    assert!(display.get_event_by_name("error").unwrap().handlers.0.is_none());
}

#[test]
fn addons_are_listed() {
    assert_eq!(addon_names(), ["safeclip"]);
    assert_eq!(addon_list(), "Available addon modules: safeclip ");
}

#[test]
fn addons_that_cannot_be_used() {
    assert_eq!(gather_error(&["nothing"]), AddonError::Unknown);
    assert_eq!(gather_error(&["safeclip"]), AddonError::ArgCount);
    assert_eq!(gather_error(&["safeclip", "a", "b"]), AddonError::ArgCount);
    let protocol = parse(WAYLAND.replace("name=\"mime_type\"", "name=\"mime\"").as_bytes()).unwrap();
    let lines = strings(&["wl_data_device_manager 0"]);
    let actives = active_interfaces(vec![protocol], &lines, false).ok().unwrap().0;
    let error = gather_handlers(&strings(&["safeclip", "a"]), actives).err().unwrap();
    assert_eq!(error, AddonError::MissingMimeType);
}

#[test]
fn handlers_that_cannot_be_added() {
    let mut all: AllHandlers<Handler> = AllHandlers::new(actives());
    all.start_group("test".into());
    let h = Handler::AddPrefix;
    assert_eq!(
        all.request_push_back("wl_shell", "x", h).unwrap_err(),
        AddHandlerError::NoSuchInterface
    );
    assert_eq!(
        all.request_push_front("wl_surface", "moved", h).unwrap_err(),
        AddHandlerError::NoSuchRequest
    );
    assert_eq!(
        all.event_push_back("wl_surface", "set_title", h).unwrap_err(),
        AddHandlerError::NoSuchEvent
    );
    assert_eq!(
        all.request_push_back("wl_surface", "offset", h).unwrap_err(),
        AddHandlerError::InactiveRequest
    );
    assert!(all.handlers.is_empty());
}

#[test]
fn inactive_events_get_no_handlers() {
    let doc = WAYLAND.replace("<event name=\"moved\">", "<event name=\"moved\" since=\"5\">");
    let protocol = parse(doc.as_bytes()).unwrap();
    let actives =
        active_interfaces(vec![protocol], &strings(&["wl_compositor 4"]), false).ok().unwrap().0;
    let mut all: AllHandlers<Handler> = AllHandlers::new(actives);
    all.start_group("test".into());
    assert_eq!(
        all.event_push_front("wl_surface", "moved", Handler::RemovePrefix).unwrap_err(),
        AddHandlerError::InactiveEvent
    );
}

#[test]
fn handlers_are_pushed_to_either_end() {
    let mut all: AllHandlers<Handler> = AllHandlers::new(actives());
    all.start_group("one".into());
    all.request_push_back("wl_surface", "set_title", Handler::AddPrefix).unwrap();
    all.start_group("two".into());
    all.request_push_back("wl_surface", "set_title", Handler::DeleteId).unwrap();
    all.request_push_front("wl_surface", "set_title", Handler::RegistryBind).unwrap();
    let surface = all.active_interfaces.get_interface("wl_surface");
    let queue = surface.get_request_by_name("set_title").unwrap().handlers.0.as_ref().unwrap();
    let seen: Vec<(Handler, usize, &str)> = queue
        .iter()
        .map(|e| (all.handlers[e.handler], e.group, e.group_name.as_str()))
        .collect();
    assert_eq!(
        seen,
        [
            (Handler::RegistryBind, 1, "two"),
            (Handler::AddPrefix, 0, "one"),
            (Handler::DeleteId, 1, "two")
        ]
    );
    assert!(all.active_interfaces.dump().contains("   request set_title[o:0,s:1](fs)h:[two, one, two]\n"));
}

#[test]
fn the_listing_of_what_is_active() {
    let (all, _) = gathered(&[]);
    let text = all.active_interfaces.dump();
    let display = "wl_display[v:1](^:<global>)[in:wayland]\n requests:\n   request sync[o:0,s:1](n)<n:wl_callback>\n   request get_registry[o:1,s:1](n)<n:wl_registry>\n events:\n     event error[o:0,s:1](ous)\n     event delete_id[o:1,s:1](o)h:[<builtin>]\n\n";
    assert!(text.contains(display));
    let surface = "wl_surface[v:4](^:wl_compositor)[in:wayland]\n requests:\n   request set_title[o:0,s:1](fs)\n events:\n     event moved[o:0,s:1](a)\n\n";
    assert!(text.contains(surface));
    assert!(!text.contains("wl_seat"));
}

#[test]
fn globals_are_filtered_and_limited() {
    let fixture = Fixture::new(&[], 0);
    let info = fixture.init_info();
    let mut bench = Bench::new(&fixture, &info);
    bench.set_up();
    // lower versions are passed on as they are, higher ones are limited
    let low = global(2, 1, "wl_compositor", 3);
    assert_eq!(bench.passes(true, &low), low);
    let high = global(2, 1, "wl_compositor", 6);
    assert_eq!(bench.passes(true, &high), global(2, 1, "wl_compositor", 4));
    // what is not active, and what is no global, is not heard of
    assert!(bench.drops(true, &global(2, 2, "wl_seat", 9)));
    assert!(bench.drops(true, &global(2, 2, "wl_surface", 1)));
    assert!(bench.drops(true, &global(2, 2, "wl_shell", 1)));
    let bad = message(2, 0, &[vec![1], array(b"\xff\0"), vec![1]]);
    assert_eq!(bench.fails(true, &bad), MediateError::Handler(HandlerError::NotUtf8));
}

#[test]
fn binding_makes_objects() {
    let fixture = Fixture::new(&[], 0);
    let info = fixture.init_info();
    let mut bench = Bench::new(&fixture, &info);
    assert_eq!(bench.mediator.try_lookup(1), bench.id("wl_display"));
    assert_eq!(bench.mediator.try_lookup(2), None);
    let get_registry = message(DISPLAY, 1, &[vec![2]]);
    assert_eq!(bench.passes(false, &get_registry), get_registry);
    assert_eq!(bench.mediator.try_lookup(2), bench.id("wl_registry"));
    let b = bind(2, 10, "wl_compositor", 4, 3);
    assert_eq!(bench.passes(false, &b), b);
    assert_eq!(bench.mediator.lookup(3), bench.id("wl_compositor").unwrap());
    let demarshal = |e: DemarshalError| MediateError::Demarshal(e);
    let too_high = bind(2, 10, "wl_compositor", 5, 4);
    assert_eq!(bench.fails(false, &too_high), demarshal(DemarshalError::VersionTooHigh));
    let child = bind(2, 10, "wl_surface", 1, 4);
    assert_eq!(bench.fails(false, &child), demarshal(DemarshalError::NotGlobal));
    let unknown = bind(2, 10, "wl_shell", 1, 4);
    assert_eq!(bench.fails(false, &unknown), demarshal(DemarshalError::NoSuchInterface));
    let again = bind(2, 10, "wl_compositor", 4, 3);
    assert_eq!(bench.fails(false, &again), demarshal(DemarshalError::Id(IdMapError::Duplicate)));
    let skips = bind(2, 10, "wl_compositor", 4, 9);
    assert_eq!(bench.fails(false, &skips), demarshal(DemarshalError::Id(IdMapError::OutOfRange)));
}

#[test]
fn objects_come_and_go() {
    let fixture = Fixture::new(&[], 0);
    let info = fixture.init_info();
    let mut bench = Bench::new(&fixture, &info);
    bench.set_up();
    let create = message(3, 0, &[vec![5]]);
    assert_eq!(bench.passes(false, &create), create);
    assert_eq!(bench.mediator.try_lookup(5), bench.id("wl_surface"));
    assert_eq!(bench.fails(false, &create), MediateError::Id(IdMapError::Duplicate));
    let moved = message(5, 0, &[array(b"abc")]);
    assert_eq!(bench.passes(true, &moved), moved);
    let delete = message(DISPLAY, 1, &[vec![5]]);
    assert_eq!(bench.passes(true, &delete), delete);
    assert_eq!(bench.mediator.try_lookup(5), None);
    assert_eq!(bench.fails(true, &moved), MediateError::NoSuchObject);
    // the id can be used again
    assert_eq!(bench.passes(false, &create), create);
    assert_eq!(bench.mediator.try_lookup(5), bench.id("wl_surface"));
    // an object that was never there can be said to be gone
    let delete = message(DISPLAY, 1, &[vec![0xffff_ffff]]);
    assert_eq!(bench.passes(true, &delete), delete);
}

#[test]
fn messages_that_nothing_can_be_done_with() {
    let fixture = Fixture::new(&[], 0);
    let info = fixture.init_info();
    let mut bench = Bench::new(&fixture, &info);
    bench.set_up();
    assert_eq!(bench.fails(false, &[]), MediateError::BadHeader);
    assert_eq!(bench.fails(false, &[1]), MediateError::BadHeader);
    let mut wrong = message(DISPLAY, 0, &[vec![9]]);
    wrong.push(0);
    assert_eq!(bench.fails(false, &wrong), MediateError::BadHeader);
    assert_eq!(bench.fails(false, &message(99, 0, &[])), MediateError::NoSuchObject);
    assert_eq!(bench.fails(false, &message(DISPLAY, 2, &[])), MediateError::NoSuchMessage);
    assert_eq!(bench.fails(true, &message(DISPLAY, 2, &[])), MediateError::NoSuchMessage);
    assert_eq!(bench.fails(false, &message(DISPLAY, 0, &[])), MediateError::NoNewId);
}

#[test]
fn file_descriptors_go_with_their_message() {
    for debug_level in [0, 1] {
        let fixture = Fixture::new(&[], debug_level);
        let info = fixture.init_info();
        let mut bench = Bench::new(&fixture, &info);
        bench.set_up();
        bench.fds.extend([7, 8]);
        let share = message(3, 1, &[vec![100]]);
        let m = bench.mediate(false, &share);
        assert!(matches!(m.verdict, Verdict::Send(Payload::Raw(words)) if words == share));
        assert_eq!(m.fds, vec![7]);
        assert_eq!(bench.fds, [8]);
        assert_eq!(bench.mediate(false, &share).fds, vec![8]);
        let error = bench.fails(false, &share);
        if debug_level == 0 {
            assert_eq!(error, MediateError::NotEnoughFds);
        } else {
            assert_eq!(error, MediateError::Demarshal(DemarshalError::NotEnoughFds));
        }
    }
}

#[test]
fn debug_output_shows_both_sides() {
    let fixture = Fixture::new(&["safeclip", "|a|"], 1);
    let info = fixture.init_info();
    let mut bench = Bench::new(&fixture, &info);
    let m = bench.mediate(false, &message(DISPLAY, 1, &[vec![2]]));
    assert_eq!(
        m.lines,
        ["client[77]->waydapt->server wl_display#1.get_registry(new_id wl_registry$2)"]
    );
    let m = bench.mediate(true, &global(2, 4, "wl_compositor", 6));
    assert_eq!(
        m.lines,
        [
            "server->waydapt[77] wl_registry#2.global(4, \"wl_compositor\", 6)",
            "waydapt->client[77] wl_registry#2.global(4, \"wl_compositor\", 4)"
        ]
    );
    let m = bench.mediate(true, &global(2, 4, "wl_seat", 6));
    assert_eq!(
        m.lines,
        [
            "server->waydapt[77] wl_registry#2.global(4, \"wl_seat\", 6)",
            "waydapt->client[77] wl_registry#2.global(dropped!)"
        ]
    );
    bench.passes(false, &bind(2, 4, "wl_compositor", 4, 3));
    bench.passes(false, &message(3, 0, &[vec![4]]));
    let m = bench.mediate(true, &message(4, 0, &[array(b"abc")]));
    assert_eq!(m.lines, ["server->waydapt->client[77] wl_surface#4.moved(array[3])"]);
    bench.fds.push_back(9);
    let m = bench.mediate(false, &message(3, 1, &[vec![0xffff_fffe]]));
    assert_eq!(m.lines, ["client[77]->waydapt->server wl_compositor#3.share(fd 9, -2)"]);
    let m = bench.mediate(true, &message(DISPLAY, 0, &[vec![4, 3], text("")]));
    assert_eq!(m.lines, ["server->waydapt->client[77] wl_display#1.error(wl_surface#4, 3, nil)"]);
    let title = message(4, 0, &[vec![0xffff_fe80], text("\"x\"\n")]);
    let m = bench.mediate(false, &title);
    assert_eq!(
        m.lines,
        [
            "client[77]->waydapt wl_surface#4.set_title(-1.50000000, \"\\\"x\\\"\\n\")",
            "waydapt[77]->server wl_surface#4.set_title(-1.50000000, \"|a|\\\"x\\\"\\n\")"
        ]
    );
}

#[test]
fn debug_output_for_one_side() {
    for (level, line) in [
        (2, "waydapt->client[77] wl_registry#2.global(4, \"wl_compositor\", 4)"),
        (3, "server->waydapt[77] wl_registry#2.global(4, \"wl_compositor\", 6)"),
    ] {
        let fixture = Fixture::new(&[], level);
        let info = fixture.init_info();
        let mut bench = Bench::new(&fixture, &info);
        bench.set_up();
        assert_eq!(bench.mediate(true, &global(2, 4, "wl_compositor", 6)).lines, [line]);
    }
}

#[test]
fn showing_changes_nothing() {
    let quiet = Fixture::new(&[], 0);
    let loud = Fixture::new(&[], 1);
    let quiet_info = quiet.init_info();
    let loud_info = loud.init_info();
    let mut a = Bench::new(&quiet, &quiet_info);
    let mut b = Bench::new(&loud, &loud_info);
    a.set_up();
    b.set_up();
    a.fds.extend([5, 6]);
    b.fds.extend([5, 6]);
    for msg in [
        message(3, 0, &[vec![5]]),
        message(3, 1, &[vec![44]]),
        message(5, 0, &[vec![0], text("hello")]),
    ] {
        let m = a.mediate(false, &msg);
        let n = b.mediate(false, &msg);
        assert_eq!(m.fds, n.fds);
        let (Verdict::Send(p), Verdict::Send(q)) = (m.verdict, n.verdict) else { panic!() };
        assert_eq!(sent(p), sent(q));
        assert_eq!(a.fds, b.fds);
        assert_eq!(a.mediator.try_lookup(5), b.mediator.try_lookup(5));
    }
}

#[test]
fn safeclip_marks_titles_and_mime_types() {
    let fixture = Fixture::new(&["safeclip", "|box|"], 0);
    let info = fixture.init_info();
    let mut bench = Bench::new(&fixture, &info);
    bench.set_up();
    bench.passes(false, &message(3, 0, &[vec![5]]));
    bench.passes(false, &message(4, 0, &[vec![6]]));
    assert_eq!(
        bench.passes(false, &message(5, 0, &[vec![7], text("Editor")])),
        message(5, 0, &[vec![7], text("|box|Editor")])
    );
    assert_eq!(
        bench.passes(false, &message(6, 0, &[text("text/plain")])),
        message(6, 0, &[text("|box|text/plain")])
    );
    // what comes back loses the prefix, and the file descriptor stays with it
    bench.fds.push_back(12);
    let m = bench.mediate(true, &message(6, 1, &[text("|box|text/plain")]));
    assert_eq!(m.fds, vec![12]);
    let Verdict::Send(payload) = m.verdict else { panic!() };
    assert_eq!(sent(payload), message(6, 1, &[text("text/plain")]));
    // anything else is dropped, and its file descriptor is to be closed
    bench.fds.push_back(13);
    let m = bench.mediate(true, &message(6, 1, &[text("text/plain")]));
    assert!(matches!(m.verdict, Verdict::Drop));
    assert_eq!(m.fds, vec![13]);
    assert!(bench.fds.is_empty());
    assert!(bench.drops(true, &message(6, 0, &[text("|bo")])));
}

#[test]
fn prefixes_keep_clients_apart() {
    for (mine, theirs) in [("|box|", "|jar|"), ("|long box|", "|b"), ("(a", "(b longer)")] {
        let own = Fixture::new(&["safeclip", mine], 0);
        let info = own.init_info();
        let mut bench = Bench::new(&own, &info);
        bench.set_up();
        bench.passes(false, &message(3, 0, &[vec![5]]));
        bench.passes(false, &message(4, 0, &[vec![6]]));
        let offer = bench.passes(false, &message(6, 0, &[text("text/plain")]));
        assert_eq!(offer, message(6, 0, &[text(&format!("{mine}text/plain"))]));

        let other = Fixture::new(&["safeclip", theirs], 0);
        let info = other.init_info();
        let mut bench = Bench::new(&other, &info);
        bench.set_up();
        bench.passes(false, &message(3, 0, &[vec![5]]));
        bench.passes(false, &message(4, 0, &[vec![6]]));
        bench.fds.push_back(12);
        let m = bench.mediate(true, &message(6, 1, &[text(&format!("{mine}text/plain"))]));
        assert!(matches!(m.verdict, Verdict::Drop));
    }
    // also where the text had to be cut
    let cut = put_prefix(&b"|x|".to_vec(), &b"abcdef".to_vec(), 4094).unwrap();
    assert!(prefixed(&b"|x|".to_vec(), &cut));
    assert!(!prefixed(&b"|y|".to_vec(), &cut));
    // but not where one prefix starts with the other
    let inner = put_prefix(&b"|x|y|".to_vec(), &b"abc".to_vec(), 20).unwrap();
    assert!(prefixed(&b"|x|".to_vec(), &inner));
}

#[test]
fn an_addon_can_be_used_in_several_groups() {
    let fixture = Fixture::new(&["safeclip", "(one)", "--", "safeclip", "(two)"], 0);
    assert_eq!(fixture.all.groups, ["safeclip", "safeclip", "<builtin>"]);
    let info = fixture.init_info();
    let mut bench = Bench::new(&fixture, &info);
    bench.set_up();
    bench.passes(false, &message(4, 0, &[vec![5]]));
    // each group has its own prefix, and they come off in the opposite order
    let out = bench.passes(false, &message(5, 0, &[text("t")]));
    assert_eq!(out, message(5, 0, &[text("(two)(one)t")]));
    assert_eq!(bench.passes(true, &out), message(5, 0, &[text("t")]));
    assert!(bench.drops(true, &message(5, 0, &[text("(two)t")])));
}

#[test]
fn prefixes() {
    let p = b"|x|".to_vec();
    assert_eq!(put_prefix(&p, &b"abc".to_vec(), 20), Some(b"|x|abc".to_vec()));
    // where there is no room, the end of the text is lost
    assert_eq!(put_prefix(&p, &b"abcdef".to_vec(), 4094), Some(b"|x|abc".to_vec()));
    assert_eq!(put_prefix(&p, &b"ab".to_vec(), 4094), None);
    assert_eq!(put_prefix(&b"a\0".to_vec(), &b"ab".to_vec(), 20), None);
    assert!(prefixed(&p, &b"|x|abc".to_vec()));
    assert!(prefixed(&p, &b"|x|".to_vec()));
    assert!(!prefixed(&p, &b"|x".to_vec()));
    assert!(!prefixed(&p, &b"abc|x|".to_vec()));
}

#[test]
fn ids_of_the_server() {
    let fixture = Fixture::new(&[], 0);
    let info = fixture.init_info();
    let mut mediator = Mediator::new(&info);
    let surface = info.active_interfaces.find("wl_surface").unwrap();
    assert_eq!(mediator.add(0xff00_0000, surface), Ok(()));
    assert_eq!(mediator.try_lookup(0xff00_0000), Some(surface));
    assert_eq!(mediator.add(0xff00_0002, surface), Err(IdMapError::OutOfRange));
    assert_eq!(mediator.try_lookup(0xff00_0001), None);
    mediator.delete(0xff00_0000);
    assert_eq!(mediator.try_lookup(0xff00_0000), None);
    assert_eq!(mediator.get_debug_level(), 0);
    assert_eq!(mediator.ucred().unwrap().pid, 77);
    assert_eq!(mediator.get_display(), info.active_interfaces.find("wl_display").unwrap());
}

/// Sockets to both sides, as a session sees them.
struct Sockets {
    incoming: [VecDeque<(Vec<u32>, Vec<Fd>)>; 2],
    outgoing: [Vec<(Vec<u32>, Vec<Fd>)>; 2],
    refuse: bool,
    closed: Vec<Fd>,
}

impl Sockets {
    fn new() -> Self {
        Sockets {
            incoming: [VecDeque::new(), VecDeque::new()],
            outgoing: [Vec::new(), Vec::new()],
            refuse: false,
            closed: Vec::new(),
        }
    }

    fn run(
        &mut self,
        session: &mut Session<'_, Handler>,
        source: usize,
        mut job: Job,
    ) -> Result<(), SessionError> {
        loop {
            let step = session.step(&mut job);
            self.closed.extend(step.close);
            match step.action {
                Action::Receive => {
                    let (words, fds) =
                        self.incoming[source].pop_front().unwrap_or((Vec::new(), Vec::new()));
                    session.take_in(&mut job, &words, fds);
                }
                Action::Transmit { words, fds } => {
                    if self.refuse {
                        session.hear(&mut job, SendReply::Refused);
                    } else {
                        self.outgoing[1 - source].push((words, fds));
                        self.closed.extend(session.hear(&mut job, SendReply::Accepted));
                    }
                }
                Action::Continue => {}
                Action::Finished => return Ok(()),
                Action::Fail(e) => return Err(e),
            }
        }
    }

    fn input(&mut self, session: &mut Session<'_, Handler>, source: usize) -> Result<(), SessionError> {
        let job = session.handle_input(source);
        self.run(session, source, job)
    }
}

#[test]
fn a_session_relays_both_ways() {
    let fixture = Fixture::new(&["safeclip", "|s|"], 0);
    let info = fixture.init_info();
    let states = fixture.states(&info);
    let mut session = Session::new(
        &info,
        &fixture.all.handlers,
        states,
        ByteOrder::native(),
        false,
        true,
        false,
    );
    let mut sockets = Sockets::new();
    // nothing there: nothing is sent
    assert_eq!(sockets.input(&mut session, 0), Ok(()));
    assert!(sockets.outgoing[1].is_empty());
    // several messages in pieces are sent in one go
    let client = [
        message(DISPLAY, 1, &[vec![2]]),
        bind(2, 1, "wl_compositor", 4, 3),
        message(3, 0, &[vec![4]]),
        message(3, 1, &[vec![99]]),
        message(4, 0, &[vec![0], text("me")]),
    ]
    .concat();
    sockets.incoming[0].push_back((client[..7].to_vec(), vec![]));
    sockets.incoming[0].push_back((client[7..].to_vec(), vec![21]));
    assert_eq!(sockets.input(&mut session, 0), Ok(()));
    let expected = [
        message(DISPLAY, 1, &[vec![2]]),
        bind(2, 1, "wl_compositor", 4, 3),
        message(3, 0, &[vec![4]]),
        message(3, 1, &[vec![99]]),
        message(4, 0, &[vec![0], text("|s|me")]),
    ]
    .concat();
    assert_eq!(sockets.outgoing[1], [(expected, vec![21])]);
    assert_eq!(sockets.closed, vec![21]);
    // the other way
    let dropped = global(2, 2, "wl_seat", 9);
    let kept = global(2, 1, "wl_compositor", 4);
    sockets.incoming[1].push_back(([dropped, kept.clone()].concat(), vec![]));
    assert_eq!(sockets.input(&mut session, 1), Ok(()));
    assert_eq!(sockets.outgoing[0], [(kept, vec![])]);
}

#[test]
fn a_session_waits_for_room() {
    let fixture = Fixture::new(&[], 0);
    let info = fixture.init_info();
    let states = fixture.states(&info);
    let mut session =
        Session::new(&info, &fixture.all.handlers, states, ByteOrder::native(), true, false, true);
    let mut sockets = Sockets::new();
    let first = message(DISPLAY, 1, &[vec![2]]);
    let second = message(DISPLAY, 0, &[vec![3]]);
    sockets.refuse = true;
    sockets.incoming[0].push_back(([first.clone(), second.clone()].concat(), vec![]));
    assert_eq!(sockets.input(&mut session, 0), Ok(()));
    assert!(sockets.outgoing[1].is_empty());
    sockets.refuse = false;
    // room at the wrong side changes nothing
    let job = session.handle_output(0);
    assert_eq!(sockets.run(&mut session, 1, job), Ok(()));
    assert!(sockets.outgoing[0].is_empty());
    let job = session.handle_output(1);
    assert_eq!(sockets.run(&mut session, 0, job), Ok(()));
    assert_eq!(sockets.outgoing[1], [([first, second].concat(), vec![])]);
}

#[test]
fn a_session_ends_when_a_message_is_wrong() {
    let fixture = Fixture::new(&[], 0);
    let info = fixture.init_info();
    let states = fixture.states(&info);
    let mut session =
        Session::new(&info, &fixture.all.handlers, states, ByteOrder::native(), false, false, false);
    let mut sockets = Sockets::new();
    sockets.incoming[0].push_back((message(8, 0, &[]), vec![]));
    assert_eq!(
        sockets.input(&mut session, 0),
        Err(SessionError::Mediate(MediateError::NoSuchObject))
    );
}

#[test]
fn a_session_ends_when_a_message_is_too_long() {
    let fixture = Fixture::new(&[], 0);
    let info = fixture.init_info();
    let states = fixture.states(&info);
    let mut session =
        Session::new(&info, &fixture.all.handlers, states, ByteOrder::native(), false, false, false);
    let mut sockets = Sockets::new();
    let mut words = MessageHeader { object_id: 1, opcode: 0, size: 60000 }.as_words().to_vec();
    words.resize(1024, 0);
    sockets.incoming[0].push_back((words, vec![]));
    sockets.incoming[0].push_back((vec![0; 10], vec![]));
    assert_eq!(sockets.input(&mut session, 0), Err(SessionError::NoRoom));
}

/// What a session makes of a request with some file descriptors.
fn share_many(n: u32) -> (Result<(), SessionError>, Sockets) {
    let many: String = (0..n).map(|i| format!("<arg name=\"f{i}\" type=\"fd\"/>")).collect();
    let doc = WAYLAND.replace("<arg name=\"fd\" type=\"fd\"/><arg name=\"size\" type=\"int\"/>", &many);
    let protocol = parse(doc.as_bytes()).unwrap();
    let lines = strings(&["wl_compositor 4"]);
    let actives = active_interfaces(vec![protocol], &lines, false).ok().unwrap().0;
    let (all, groups) = gather_handlers(&Vec::new(), actives).ok().unwrap();
    let fixture = Fixture { all, groups, debug_level: 0 };
    let info = fixture.init_info();
    let states = fixture.states(&info);
    let mut session =
        Session::new(&info, &fixture.all.handlers, states, ByteOrder::native(), false, false, false);
    let mut sockets = Sockets::new();
    let words = [
        message(DISPLAY, 1, &[vec![2]]),
        bind(2, 1, "wl_compositor", 4, 3),
        message(3, 1, &[]),
    ]
    .concat();
    // they need not all come at once
    let fds: Vec<Fd> = (100..100 + n as Fd).collect();
    let (early, late) = fds.split_at(10);
    sockets.incoming[0].push_back((words[..4].to_vec(), early.to_vec()));
    sockets.incoming[0].push_back((words[4..].to_vec(), late.to_vec()));
    let result = sockets.input(&mut session, 0);
    (result, sockets)
}

#[test]
fn a_session_relays_as_many_fds_as_can_travel_together() {
    for n in [20, 21, 28] {
        let (result, sockets) = share_many(n);
        assert_eq!(result, Ok(()));
        let fds: Vec<Fd> = sockets.outgoing[1].iter().flat_map(|(_, fds)| fds.clone()).collect();
        assert_eq!(fds, (100..100 + n as Fd).collect::<Vec<Fd>>());
        assert_eq!(sockets.closed, fds);
    }
}

#[test]
fn a_session_ends_when_a_message_has_too_many_fds() {
    let (result, sockets) = share_many(29);
    assert_eq!(result, Err(SessionError::TooManyFds));
    assert_eq!(sockets.closed, (100..129).collect::<Vec<Fd>>());
    assert!(sockets.outgoing[1].is_empty());
}
