use waydapt::actives::ActiveInterfaces;
use waydapt::limits::{get_globals_limits, propagate_limits_find_actives};
use waydapt::linkup::{active_interfaces, link_externals};
use waydapt::parse::{parse, parse_protocol, parse_type, ParseError};
use waydapt::postparse::{
    fixup_wayland_get_display, parse_limit_line, set_owners, LimitError, PostparseError,
};
use waydapt::protocol::{Interface, InterfaceId, Message, Protocol, Type};
use waydapt::xml::{read_events, XmlEvent};

const TEST_PROTOCOL: &str = r#"<?xml version="1.0" encoding="UTF-8"?>
<protocol name="parse test protocol">
  <copyright>none at all</copyright>
  <interface name="test_global" version="5">
    <description summary="a global">for tests</description>
    <request name="many_args" since="4">
      <description summary="many arguments"/>
      <arg name="unsigned_int" type="uint" summary="one"/>
      <arg name="signed_int" type="int"/>
      <arg name="fixed_point" type="fixed"/>
      <arg name="number_array" type="array"/>
      <arg name="some_text" type="string" allow-null="true"/>
      <arg name="file_descriptor" type="fd"/>
      <arg name="object_id" type="object" interface="an-interface-name"/>
      <arg name="new_id" type="new_id" interface="another-interface-name"/>
    </request>
    <event name="many_args_event">
      <arg name="unsigned_int" type="uint"/>
      <arg name="signed_int" type="int"/>
      <arg name="fixed_point" type="fixed"/>
      <arg name="number_array" type="array"/>
      <arg name="some_text" type="string"/>
      <arg name="file_descriptor" type="fd"/>
      <arg name="object_id" type="object" interface="an-interface-name"/>
      <arg name="new_id" type="new_id" interface="another-interface-name"/>
    </event>
    <enum name="an_enum"><entry name="one" value="1"/></enum>
    <request name="second_request" since="6"/>
    <event name="second_event" since="6"></event>
  </interface>
  <interface name="secondary" version="3">
    <request name="destroy" type="destructor" since="2"/>
  </interface>
  <interface name="tertiary" version="5">
    <request name="destroy" type="destructor" since="3"/>
  </interface>
</protocol>
"#;

fn check_msg<'a>(
    interface: &'a Interface,
    msg_name: &str,
    opcode: usize,
    request: bool,
    since: u32,
) -> &'a Message {
    let msg = interface.get_message(!request, opcode);
    if request {
        assert!(std::ptr::eq(interface.get_request(opcode), msg));
        assert!(std::ptr::eq(interface.get_request_by_name(msg_name).unwrap(), msg));
        assert!(msg.is_request);
    } else {
        assert!(std::ptr::eq(interface.get_event(opcode), msg));
        assert!(std::ptr::eq(interface.get_event_by_name(msg_name).unwrap(), msg));
        assert!(!msg.is_request);
    }
    assert_eq!(msg.name, msg_name);
    assert_eq!(msg.get_name(), msg_name);
    assert_eq!(msg.opcode as usize, opcode);
    assert_eq!(msg.since, since);
    msg
}

fn check_zero_args_msg(interface: &Interface, name: &str, opcode: usize, request: bool, since: u32) {
    let msg = check_msg(interface, name, opcode, request, since);
    assert_eq!(msg.num_fds, 0);
    assert_eq!(msg.args.len(), 0);
}

fn check_many_args_msg(interface: &Interface, name: &str, opcode: usize, request: bool, since: u32) {
    let msg = check_msg(interface, name, opcode, request, since);
    assert_eq!(msg.num_fds, 1);
    let args = &msg.args;
    let good_args = [
        ("unsigned_int", Type::Uint),
        ("signed_int", Type::Int),
        ("fixed_point", Type::Fixed),
        ("number_array", Type::Array),
        ("some_text", Type::String),
        ("file_descriptor", Type::Fd),
        ("object_id", Type::Object),
        ("new_id", Type::NewId),
    ];
    assert_eq!(args.len(), good_args.len());
    for ((good_name, good_typ), arg) in good_args.iter().zip(args.iter()) {
        assert_eq!(good_name, &arg.name);
        assert_eq!(good_typ, &arg.typ);
    }
    assert_eq!(args[6].interface_name, Some("an-interface-name".into()));
    assert_eq!(args[7].interface_name, Some("another-interface-name".into()));
}

#[test]
fn parse_test_protocol() {
    let protocol = parse(TEST_PROTOCOL.as_bytes()).unwrap();
    assert_eq!(protocol.name, "parse test protocol");
    let test_global_interface = protocol.find_interface("test_global").unwrap();
    assert_eq!(test_global_interface.name, "test_global");
    assert_eq!(test_global_interface.parsed_version, 5);
    check_many_args_msg(test_global_interface, "many_args", 0, true, 4);
    check_many_args_msg(test_global_interface, "many_args_event", 0, false, 1);
    check_zero_args_msg(test_global_interface, "second_request", 1, true, 6);
    check_zero_args_msg(test_global_interface, "second_event", 1, false, 6);
    //
    let secondary_interface = protocol.find_interface("secondary").unwrap();
    assert_eq!(secondary_interface.name, "secondary");
    assert_eq!(secondary_interface.parsed_version, 3);
    check_zero_args_msg(secondary_interface, "destroy", 0, true, 2);
    //
    let tertiary_interface = protocol.find_interface("tertiary").unwrap();
    assert_eq!(tertiary_interface.name, "tertiary");
    assert_eq!(tertiary_interface.parsed_version, 5);
    check_zero_args_msg(tertiary_interface, "destroy", 0, true, 3);
}

#[test]
fn lookups_that_find_nothing() {
    let protocol = parse(TEST_PROTOCOL.as_bytes()).unwrap();
    assert!(protocol.find_interface("quaternary").is_none());
    let interface = protocol.find_interface("secondary").unwrap();
    assert!(interface.get_request_by_name("create").is_none());
    assert!(interface.get_event_by_name("destroy").is_none());
    assert!(!protocol.is_active());
    assert!(!interface.is_active());
    assert!(interface.version().is_none());
    assert_eq!(interface.all_messages().len(), 1);
}

fn document(inside: &str) -> String {
    format!("<?xml version=\"1.0\"?>{inside}")
}

fn parse_error(doc: &str) -> ParseError {
    parse(doc.as_bytes()).err().unwrap()
}

#[test]
fn documents_that_are_no_protocols() {
    assert_eq!(parse_error("<protocol name=\"p\"></protocol>"), ParseError::MissingDecl);
    assert_eq!(parse_error(""), ParseError::MissingDecl);
    assert_eq!(parse_error(&document("")), ParseError::IllFormed);
    assert_eq!(parse_error(&document("<proto name=\"p\"/>")), ParseError::MissingProtocol);
    assert_eq!(parse_error(&document("<protocol><x/></protocol>")), ParseError::MissingName);
    assert_eq!(parse_error(&document("<protocol name=\"p\">")), ParseError::UnexpectedEnd);
}

#[test]
fn protocols_with_wrong_values() {
    let with = |inside: &str| document(&format!("<protocol name=\"p\">{inside}</protocol>"));
    let version = with("<interface name=\"i\" version=\"one\"></interface>");
    assert_eq!(parse_error(&version), ParseError::InvalidValue);
    let since =
        with("<interface name=\"i\" version=\"1\"><event name=\"e\" since=\"-1\"/></interface>");
    assert_eq!(parse_error(&since), ParseError::InvalidValue);
    let typ = with(
        "<interface name=\"i\" version=\"1\"><event name=\"e\"><arg name=\"a\" type=\"float\"/></event></interface>",
    );
    assert_eq!(parse_error(&typ), ParseError::UnexpectedType);
    let mut name = with("<interface name=\"?\" version=\"1\"></interface>").into_bytes();
    let at = name.iter().position(|b| *b == b'?').unwrap();
    let at = at + 1 + name[at + 1..].iter().position(|b| *b == b'?').unwrap();
    let at = at + 1 + name[at + 1..].iter().position(|b| *b == b'?').unwrap();
    name[at] = 0xff;
    assert_eq!(parse(&name).err().unwrap(), ParseError::InvalidUtf8);
}

#[test]
fn a_plus_sign_is_allowed_in_versions() {
    let doc = document(
        "<protocol name=\"p\"><interface name=\"i\" version=\"+12\"/></protocol>",
    );
    let protocol = parse(doc.as_bytes()).unwrap();
    assert_eq!(protocol.find_interface("i").unwrap().parsed_version, 12);
}

#[test]
fn later_interfaces_replace_earlier_ones_of_the_same_name() {
    let doc = document(
        "<protocol name=\"p\"><interface name=\"i\" version=\"1\"/><interface name=\"j\" version=\"2\"/><interface name=\"i\" version=\"3\"/></protocol>",
    );
    let protocol = parse(doc.as_bytes()).unwrap();
    assert_eq!(protocol.interfaces.len(), 2);
    assert_eq!(protocol.find_interface("i").unwrap().parsed_version, 3);
}

#[test]
fn types_by_name() {
    for (name, typ) in [
        ("int", Type::Int),
        ("uint", Type::Uint),
        ("fixed", Type::Fixed),
        ("string", Type::String),
        ("object", Type::Object),
        ("new_id", Type::NewId),
        ("array", Type::Array),
        ("fd", Type::Fd),
    ] {
        assert_eq!(parse_type(&name.as_bytes().to_vec()), Some(typ));
    }
    assert_eq!(parse_type(&b"Int".to_vec()), None);
    assert_eq!(parse_type(&b"".to_vec()), None);
}

#[test]
fn events_of_a_document() {
    let events = read_events(b"<?xml version=\"1.0\"?>\n<a b=\"c\"> <d/> text </a>");
    assert_eq!(events.len(), 6);
    assert!(matches!(&events[0], XmlEvent::Decl));
    let XmlEvent::Start { name, attrs } = &events[1] else { panic!() };
    assert_eq!(name, b"a");
    assert_eq!(attrs.len(), 1);
    let attr = attrs[0].as_ref().unwrap();
    assert_eq!(attr.key, b"b");
    assert_eq!(attr.value, b"c");
    // an empty element starts and ends
    assert!(matches!(&events[2], XmlEvent::Start { name, .. } if name == b"d"));
    assert!(matches!(&events[3], XmlEvent::End { name } if name == b"d"));
    assert!(matches!(&events[4], XmlEvent::Other));
    assert!(matches!(&events[5], XmlEvent::End { name } if name == b"a"));
    let protocol = parse_protocol(&read_events(document("<protocol name=\"p\"></protocol>").as_bytes()));
    assert_eq!(protocol.unwrap().name, "p");
}

#[test]
fn lines_of_version_limits() {
    assert_eq!(parse_limit_line(""), Ok(None));
    assert_eq!(parse_limit_line("  \t "), Ok(None));
    assert_eq!(parse_limit_line(" # wl_seat 3"), Ok(None));
    assert_eq!(parse_limit_line("#wl_seat"), Ok(None));
    assert_eq!(parse_limit_line("wl_seat 3"), Ok(Some(("wl_seat".into(), 3))));
    assert_eq!(parse_limit_line("\twl_seat   +7 "), Ok(Some(("wl_seat".into(), 7))));
    // zero is no limit
    assert_eq!(parse_limit_line("wl_seat 0"), Ok(Some(("wl_seat".into(), u32::MAX))));
    assert_eq!(parse_limit_line("wl_seat"), Err(LimitError::MissingVersion));
    assert_eq!(parse_limit_line("wl_seat 3 4"), Err(LimitError::ExtraFields));
    assert_eq!(parse_limit_line("wl_seat three"), Err(LimitError::BadVersion));
    assert_eq!(parse_limit_line("wl_seat 4294967296"), Err(LimitError::BadVersion));
}

const WAYLAND: &str = r#"<?xml version="1.0"?>
<protocol name="wayland">
  <interface name="wl_display" version="1">
    <request name="sync"><arg name="callback" type="new_id" interface="wl_callback"/></request>
    <request name="get_registry"><arg name="registry" type="new_id" interface="wl_registry"/></request>
    <event name="error"><arg name="object_id" type="object"/></event>
    <event name="delete_id"><arg name="id" type="object"/></event>
  </interface>
  <interface name="wl_registry" version="1">
    <request name="bind"><arg name="name" type="uint"/><arg name="id" type="new_id"/></request>
    <event name="global"><arg name="name" type="uint"/><arg name="interface" type="string"/><arg name="version" type="uint"/></event>
  </interface>
  <interface name="wl_callback" version="1">
    <event name="done" type="destructor"><arg name="callback_data" type="uint"/></event>
  </interface>
  <interface name="wl_compositor" version="6">
    <request name="create_surface"><arg name="id" type="new_id" interface="wl_surface"/></request>
  </interface>
  <interface name="wl_surface" version="6">
    <request name="frame"><arg name="callback" type="new_id" interface="wl_callback"/></request>
    <request name="set_buffer_scale" since="3"><arg name="scale" type="int"/></request>
    <request name="offset" since="5"><arg name="x" type="int"/></request>
  </interface>
  <interface name="wl_seat" version="9">
    <event name="name" since="2"><arg name="name" type="string"/></event>
  </interface>
</protocol>
"#;

const SHELL: &str = r#"<?xml version="1.0"?>
<protocol name="shell">
  <interface name="shell_base" version="4">
    <request name="get_surface"><arg name="id" type="new_id" interface="shell_surface"/></request>
    <request name="get_frame" since="2"><arg name="id" type="new_id" interface="wl_callback"/></request>
    <request name="get_other" since="3"><arg name="id" type="new_id" interface="elsewhere"/></request>
  </interface>
  <interface name="shell_surface" version="4">
    <request name="set_title"><arg name="title" type="string"/></request>
  </interface>
</protocol>
"#;

fn protocols(docs: &[&str]) -> Vec<Protocol> {
    docs.iter().map(|d| parse(d.as_bytes()).unwrap()).collect()
}

fn actives(docs: &[&str], lines: &[&str]) -> Result<ActiveInterfaces, PostparseError> {
    let lines: Vec<String> = lines.iter().map(|l| l.to_string()).collect();
    active_interfaces(protocols(docs), &lines, false).map(|(a, _)| a)
}

fn names(a: &ActiveInterfaces) -> Vec<String> {
    let mut names: Vec<String> = a.iter().iter().map(|i| i.name.clone()).collect();
    names.sort();
    names
}

#[test]
fn limits_decide_what_is_active() {
    let a = actives(&[WAYLAND, SHELL], &["wl_compositor 4", "# nothing", "shell_base 2"]).unwrap();
    assert_eq!(
        names(&a),
        [
            "shell_base",
            "shell_surface",
            "wl_callback",
            "wl_compositor",
            "wl_display",
            "wl_registry",
            "wl_surface"
        ]
    );
    assert!(a.maybe_get_interface("wl_seat").is_none());
    // the limit of the global holds for what it creates
    let surface = a.get_interface("wl_surface");
    assert_eq!(surface.version(), Some(&4));
    assert!(surface.get_request_by_name("frame").unwrap().is_active());
    assert!(surface.get_request_by_name("set_buffer_scale").unwrap().is_active());
    assert!(!surface.get_request_by_name("offset").unwrap().is_active());
    assert!(a.maybe_get_global("wl_surface").is_none());
    let compositor = a.get_global("wl_compositor");
    assert_eq!(compositor.version(), Some(&4));
    assert_eq!(compositor.owning_protocol(&a.protocols).name, "wayland");
    assert_eq!(a.get_display().name, "wl_display");
    assert_eq!(a.get_display().version(), Some(&1));
    // callbacks belong to the display, whoever else creates them
    let callback = a.get_interface("wl_callback");
    assert_eq!(callback.version(), Some(&1));
    assert_eq!(a.interface(InterfaceId { protocol: 0, index: callback.parent.unwrap() }).name, "wl_display");
    // objects of other protocols are linked
    let frame = a.get_interface("shell_base").get_request_by_name("get_frame").unwrap();
    assert!(a.interface(frame.get_new_id_interface().unwrap()).same_as(callback));
    let title = a.get_interface("shell_surface").get_request_by_name("set_title").unwrap();
    assert_eq!(title.get_args()[0].name, "title");
    assert!(title.get_new_id_interface().is_none());
}

#[test]
fn limits_cannot_raise_versions() {
    let a = actives(&[WAYLAND], &["wl_compositor 99", "wl_seat 0"]).unwrap();
    assert_eq!(a.get_interface("wl_compositor").version(), Some(&6));
    assert_eq!(a.get_interface("wl_seat").version(), Some(&9));
}

#[test]
fn protocols_without_globals_are_not_active() {
    let a = actives(&[WAYLAND, SHELL], &["wl_compositor 4"]).unwrap();
    assert!(a.maybe_get_interface("shell_base").is_none());
    assert!(!a.protocols[1].is_active());
    assert!(a.protocols[0].is_active());
}

fn error(docs: &[&str], lines: &[&str]) -> PostparseError {
    actives(docs, lines).err().unwrap()
}

#[test]
fn wrong_limits() {
    let limit = |line: usize, error: LimitError| PostparseError::Limit { line, error };
    assert_eq!(
        error(&[WAYLAND], &["", "wl_compositor"]),
        limit(2, LimitError::MissingVersion)
    );
    assert_eq!(
        error(&[WAYLAND], &["wl_compositor 4", "wl_compositor 5"]),
        limit(2, LimitError::Duplicate)
    );
    assert_eq!(error(&[WAYLAND], &["wl_surface 4"]), limit(1, LimitError::NotGlobal));
    assert_eq!(error(&[WAYLAND], &["wl_shell 4"]), limit(1, LimitError::NotFound));
    assert_eq!(error(&[WAYLAND], &["wl_display 1"]), limit(1, LimitError::Duplicate));
    assert_eq!(
        error(&[WAYLAND, SHELL, SHELL], &["shell_base 1"]),
        limit(1, LimitError::Ambiguous)
    );
}

#[test]
fn missing_globals_can_be_allowed() {
    let lines = vec!["wl_shell 1".to_string(), "wl_compositor 1".to_string(), "x 2".to_string()];
    let (a, skipped) = active_interfaces(protocols(&[WAYLAND]), &lines, true).unwrap();
    assert_eq!(skipped, vec![1, 3]);
    assert_eq!(a.get_interface("wl_compositor").version(), Some(&1));
}

#[test]
fn wrong_protocols() {
    assert_eq!(error(&[SHELL], &[]), PostparseError::MissingBase);
    assert_eq!(error(&[WAYLAND, WAYLAND], &[]), PostparseError::BaseSeenTwice);
    let without = |name: &str| WAYLAND.replace(name, "renamed");
    assert_eq!(error(&[&without("name=\"wl_callback\"").replace("renamed", "name=\"cb\"")], &[]), PostparseError::MissingInterface);
    assert_eq!(error(&[&without("delete_id")], &[]), PostparseError::UnexpectedMessage);
    let no_bind = WAYLAND.replace(
        "<request name=\"bind\"><arg name=\"name\" type=\"uint\"/><arg name=\"id\" type=\"new_id\"/></request>",
        "",
    );
    assert_eq!(error(&[&no_bind], &[]), PostparseError::MissingMessage);
    // a new object of another protocol that is not active
    assert_eq!(error(&[WAYLAND, SHELL], &["shell_base 3"]), PostparseError::MissingExternal);
    // a new object without an interface
    let open = SHELL.replace(" interface=\"shell_surface\"", "");
    assert_eq!(error(&[WAYLAND, &open], &[]), PostparseError::BadNewId);
    // two new objects
    let two = SHELL.replace(
        "<arg name=\"id\" type=\"new_id\" interface=\"shell_surface\"/>",
        "<arg name=\"id\" type=\"new_id\" interface=\"shell_surface\"/><arg name=\"id2\" type=\"new_id\" interface=\"shell_surface\"/>",
    );
    assert_eq!(error(&[WAYLAND, &two], &[]), PostparseError::BadNewId);
    // active interfaces of the same name
    let other = SHELL.replace("shell_base", "other_base").replace("name=\"shell\"", "name=\"other\"");
    let other = other.replace("elsewhere", "wl_callback");
    assert_eq!(
        error(&[WAYLAND, SHELL, &other], &["shell_base 1", "other_base 1"]),
        PostparseError::NameConflict
    );
}

/// A protocol of interfaces, each with the names of those whose objects it creates, by requests or, with
/// `!`, by events.
fn family(interfaces: &[(&str, &[&str])]) -> String {
    let mut doc = "<?xml version=\"1.0\"?><protocol name=\"family\">".to_string();
    for (name, created) in interfaces {
        doc += &format!("<interface name=\"{name}\" version=\"3\">");
        for c in *created {
            let (kind, c) = match c.strip_prefix('!') {
                Some(c) => ("event", c),
                None => ("request", *c),
            };
            doc += &format!(
                "<{kind} name=\"new_{c}\"><arg name=\"id\" type=\"new_id\" interface=\"{c}\"/></{kind}>"
            );
        }
        doc += "</interface>";
    }
    doc + "</protocol>"
}

#[test]
fn parents_have_to_agree() {
    // one interface may create objects of another in several ways
    let one = family(&[("base", &["child", "!child", "child"]), ("child", &[])]);
    let a = actives(&[WAYLAND, &one], &["base 2"]).unwrap();
    assert_eq!(a.get_interface("child").parent, Some(0));
    assert_eq!(a.get_interface("child").version(), Some(&2));
    // but two interfaces may not
    let two = family(&[("base", &["left", "right"]), ("left", &["child"]), ("right", &["!child"]), ("child", &[])]);
    assert_eq!(error(&[WAYLAND, &two], &["base 2"]), PostparseError::TwoParents);
    assert_eq!(error(&[WAYLAND, &two], &[]), PostparseError::TwoParents);
    // except for callbacks
    let callbacks = two.replace("child", "wl_callback");
    let a = actives(&[WAYLAND, &callbacks], &[]).unwrap();
    assert_eq!(a.protocols[1].find_interface("wl_callback").unwrap().parent, Some(1));
    // what is wrong with new objects is found first
    let open = SHELL.replace(" interface=\"shell_surface\"", "");
    assert_eq!(error(&[WAYLAND, &two, &open], &[]), PostparseError::BadNewId);
}

#[test]
fn a_parent_is_another_interface() {
    // an interface that creates itself is the child of the other one that creates it
    let doc = family(&[("base", &["node"]), ("node", &["node"])]);
    let a = actives(&[WAYLAND, &doc], &["base 1"]).unwrap();
    assert_eq!(a.get_interface("node").parent, Some(0));
    assert_eq!(a.get_interface("node").version(), Some(&1));
    assert!(a.maybe_get_global("node").is_none());
    // and a global where there is no other
    let doc = family(&[("node", &["node"])]);
    let a = actives(&[WAYLAND, &doc], &["node 2"]).unwrap();
    assert_eq!(a.get_global("node").version(), Some(&2));
    // two that create each other have no global ancestor
    let doc = family(&[("base", &[]), ("ping", &["pong"]), ("pong", &["ping"])]);
    assert_eq!(error(&[WAYLAND, &doc], &["base 1"]), PostparseError::ParentCycle);
    // which matters only where the protocol is active
    assert!(actives(&[WAYLAND, &doc], &[]).is_ok());
}

#[test]
fn owners_are_set() {
    let mut protocol = parse(family(&[("base", &["child"]), ("child", &[])]).as_bytes()).unwrap();
    assert_eq!(set_owners(&mut protocol, 7), Ok(()));
    let base = &protocol.interfaces[0];
    let child = &protocol.interfaces[1];
    assert_eq!(base.place, Some(InterfaceId { protocol: 7, index: 0 }));
    assert_eq!((base.parent, child.parent), (None, Some(0)));
    assert_eq!(base.requests[0].get_new_id_interface(), child.place);
    assert!(child.same_as(child));
    assert!(!child.same_as(base));
    // a parent that was given before has to be the one that creates
    let mut protocol = parse(family(&[("base", &["child"]), ("child", &[])]).as_bytes()).unwrap();
    protocol.interfaces[1].parent = Some(1);
    assert_eq!(set_owners(&mut protocol, 0), Err(PostparseError::TwoParents));
    assert_eq!(protocol.interfaces[0].place, None);
}

#[test]
fn an_interface_is_the_same_as_itself() {
    let i = Interface::new();
    let j = Interface::new();
    assert!(i.same_as(&i));
    // equal field by field, but not the same
    assert!(!i.same_as(&j));
    assert!(!j.same_as(&i));
    assert!(!i.same_as(&Interface::new()));
    assert!(!i.is_active());
    assert_eq!(i.version(), None);
    // not even with the same place
    let family = family(&[("base", &[])]);
    let mut one = parse(family.as_bytes()).unwrap();
    let mut other = parse(family.as_bytes()).unwrap();
    set_owners(&mut one, 0).unwrap();
    set_owners(&mut other, 0).unwrap();
    assert_eq!(one.interfaces[0].place, other.interfaces[0].place);
    assert!(!one.interfaces[0].same_as(&other.interfaces[0]));
    assert!(one.find_interface("base").unwrap().same_as(&one.interfaces[0]));
}

#[test]
fn the_base_protocol_is_prepared() {
    let mut protocol = parse(WAYLAND.as_bytes()).unwrap();
    let before = protocol.interfaces.iter().filter(|i| i.is_active()).count();
    assert_eq!(before, 0);
    let display = fixup_wayland_get_display(&mut protocol).unwrap();
    assert_eq!(protocol.interfaces[display].name, "wl_display");
    for (k, i) in protocol.interfaces.iter().enumerate() {
        assert_eq!(i.version().copied(), if k == display { Some(1) } else { None });
        let parent = if i.name == "wl_callback" { Some(display) } else { None };
        assert_eq!(i.parent, parent);
    }
    let registry = protocol.find_interface("wl_registry").unwrap();
    assert!(registry.requests[0].is_wl_registry_bind());
    assert!(protocol.interfaces[display].requests[0].special.is_some());
    assert!(protocol.interfaces[display].requests[1].special.is_none());
}

#[test]
fn interfaces_are_found_by_their_names() {
    let doc = family(&[("base", &["child"]), ("child", &[]), ("base", &["child", "child"])]);
    let protocol = parse(doc.as_bytes()).unwrap();
    assert_eq!(protocol.interfaces.len(), 2);
    let base = protocol.find_interface("base").unwrap();
    assert_eq!(base.name, "base");
    // the last one counts
    assert_eq!(base.requests.len(), 2);
    assert!(!base.is_active());
    assert_eq!(protocol.find_interface("child").unwrap().name, "child");
    assert!(protocol.find_interface("nobody").is_none());
}

#[test]
fn limits_stay_as_they_are() {
    let given = vec!["base 2".to_string()];
    let mut protocol =
        parse(family(&[("base", &["child"]), ("child", &[]), ("idle", &[])]).as_bytes()).unwrap();
    set_owners(&mut protocol, 0).unwrap();
    let (limited, skipped) = get_globals_limits(vec![protocol], &given, false).ok().unwrap();
    assert!(skipped.is_empty());
    let versions = |p: &Protocol| -> Vec<Option<u32>> {
        p.interfaces.iter().map(|i| i.version().copied()).collect()
    };
    assert_eq!(versions(&limited[0]), [Some(2), None, None]);
    let idle = vec!["idle 1".to_string()];
    let (limited, _) = get_globals_limits(limited, &idle, false).ok().unwrap();
    assert_eq!(versions(&limited[0]), [Some(2), None, Some(1)]);
    let (reached, ids) = propagate_limits_find_actives(limited).ok().unwrap();
    assert_eq!(versions(&reached[0]), [Some(2), Some(2), Some(1)]);
    let linked = link_externals(reached, &ids).ok().unwrap();
    assert_eq!(versions(&linked[0]), [Some(2), Some(2), Some(1)]);
    assert!(linked[0].interfaces.iter().all(|i| i.is_active()));
    // another limit is refused
    let (again, error) = (linked, LimitError::Duplicate);
    assert_eq!(
        get_globals_limits(again, &given, false).err(),
        Some(PostparseError::Limit { line: 1, error })
    );
}

#[test]
fn dump_of_the_active_interfaces() {
    let a = actives(&[WAYLAND, SHELL], &["shell_base 1"]).unwrap();
    let text = a.dump();
    println!("{text}");
    assert!(text.contains("shell_surface"));
    assert!(text.contains("set_title"));
    assert!(!text.contains("wl_compositor"));
}
