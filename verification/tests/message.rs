use std::collections::VecDeque;
use waydapt::actives::ActiveInterfaces;
use waydapt::args::ArgData;
use waydapt::basics::{ByteOrder, Fd};
use waydapt::for_handlers::{MessageInfo, SessionInfo, SessionInitInfo, UCred};
use waydapt::header::MessageHeader;
use waydapt::map::{IdMapError, IdMapV};
use waydapt::message::{DemarshalError, DemarshalledMessage, MarshalError};
use waydapt::outbuffer::{OutBuffer, Payload, SendAction};
use waydapt::protocol::{Arg, InterfaceId, Message, Type};

const FAKE_INTERFACE: InterfaceId = InterfaceId { protocol: 3, index: 7 };

fn arg(name: &str, typ: Type) -> Arg {
    Arg { name: name.into(), typ, interface_name: None }
}

fn fake_msg_decl() -> Message {
    let mut msg = Message::new(42);
    msg.name = "fake_msg".into();
    msg.args = vec![
        arg("a_int", Type::Int),
        arg("a_uint", Type::Uint),
        arg("a_fixed", Type::Fixed),
        arg("a_string", Type::String),
        arg("an_object", Type::Object),
        arg("an_array", Type::Array),
        arg("an_fd", Type::Fd),
        arg("an_fd", Type::Fd),
        Arg {
            name: "a_new_id".into(),
            typ: Type::NewId,
            interface_name: Some("fake_interface".into()),
        },
    ];
    msg.new_id_interface = Some(FAKE_INTERFACE);
    msg
}

fn with_header(mut data: Vec<u32>) -> Vec<u32> {
    let size = data.len() as u16 * 4;
    let hdr = MessageHeader { object_id: 13, opcode: 42, size }.as_words();
    data[0] = hdr[0];
    data[1] = hdr[1];
    data
}

fn fake_msg_data() -> Vec<u32> {
    with_header(vec![
        0,
        0,           // room for header later
        0x1234_5678, // a_int
        0x90ab_cdef, // a_uint
        0x1357_9ace, // a_fixed
        27,          //a_string length, including final 0
        u32::from_ne_bytes(*b"abcd"),
        u32::from_ne_bytes(*b"efgh"),
        u32::from_ne_bytes(*b"ijkl"),
        u32::from_ne_bytes(*b"mnop"),
        u32::from_ne_bytes(*b"qrst"),
        u32::from_ne_bytes(*b"uvwx"),
        u32::from_ne_bytes(*b"yz\0\0"),
        9876, // an object id
        10,   // an_array length
        u32::from_ne_bytes(*b"0123"),
        u32::from_ne_bytes(*b"4567"),
        u32::from_ne_bytes(*b"89\0\0"),
        // the fds take up no data
        5432, // a new_id
    ])
}

fn fake_msg_data_modified() -> Vec<u32> {
    with_header(vec![
        0,
        0,           // room for header later
        0x5678_1234, // a_int
        0x90ab_cdef, // a_uint
        0x9ace_1357, // a_fixed
        13,          //a_string length, including final 0
        u32::from_ne_bytes(*b"ABCD"),
        u32::from_ne_bytes(*b"IJKL"),
        u32::from_ne_bytes(*b"QRST"),
        0,
        9876, // an object id
        16,   // an_array length
        u32::from_ne_bytes(*b"abcd"),
        u32::from_ne_bytes(*b"0123"),
        u32::from_ne_bytes(*b"4567"),
        u32::from_ne_bytes(*b"890!"),
        // the fds take up no data
        5432, // a new_id
    ])
}

struct FakeSessionInfo(Vec<(u32, InterfaceId)>);

impl SessionInitInfo for FakeSessionInfo {
    fn actives(&self) -> ActiveInterfaces {
        unreachable!()
    }
    fn client(&self) -> Option<UCred> {
        unreachable!()
    }
    fn debug_level(&self) -> u32 {
        unreachable!()
    }
    fn ucred(&self) -> Option<UCred> {
        None
    }
    fn get_active_interfaces(&self) -> &ActiveInterfaces {
        unreachable!()
    }
    fn get_display(&self) -> InterfaceId {
        unreachable!()
    }
    fn get_debug_level(&self) -> u32 {
        0
    }
}

impl SessionInfo for FakeSessionInfo {
    fn ids(&self) -> IdMapV {
        unreachable!()
    }
    fn try_lookup(&self, _id: u32) -> Option<InterfaceId> {
        None
    }
    fn lookup(&self, _id: u32) -> InterfaceId {
        unreachable!()
    }
    fn add(&mut self, id: u32, interface: InterfaceId) -> Result<(), IdMapError> {
        self.0.push((id, interface));
        Ok(())
    }
    fn delete(&mut self, _id: u32) {}
}

fn demarshalled<'a>(
    decl: &'a Message,
    data: &'a [u32],
    fds: Vec<Fd>,
) -> (DemarshalledMessage<'a>, Result<(), DemarshalError>, Vec<Fd>, Vec<(u32, InterfaceId)>) {
    let mut dm =
        DemarshalledMessage::new(MessageHeader::new(data), decl, data, ByteOrder::native());
    let mut queue: VecDeque<Fd> = fds.into();
    let mut fsi = FakeSessionInfo(Vec::new());
    let result = dm.demarshal(&mut queue, &mut fsi);
    (dm, result, queue.into(), fsi.0)
}

fn test_msg<'a>(msg_decl: &'a Message, msg_data: &'a [u32]) -> DemarshalledMessage<'a> {
    let (dm, result, left, added) = demarshalled(msg_decl, msg_data, vec![1, 2]);
    assert_eq!(result, Ok(()));
    assert!(left.is_empty());

    assert_eq!(dm.get_num_args(), 9);
    assert!(matches!(dm.get_arg(0), ArgData::Int(0x1234_5678)));
    assert!(matches!(dm.get_arg(1), ArgData::Uint(0x90ab_cdef)));
    assert!(matches!(dm.get_arg(2), ArgData::Fixed(0x1357_9ace)));
    let ArgData::String(s) = dm.get_arg(3) else { panic!() };
    assert_eq!(s, b"abcdefghijklmnopqrstuvwxyz");
    assert!(matches!(dm.get_arg(4), ArgData::Object(9876)));
    let ArgData::Array(a) = dm.get_arg(5) else { panic!() };
    assert_eq!(a, b"0123456789");
    assert!(matches!(dm.get_arg(6), ArgData::Fd { index: 0 }));
    assert!(matches!(dm.get_arg(7), ArgData::Fd { index: 1 }));
    let ArgData::NewId { id: 5432, interface } = dm.get_arg(8) else { panic!() };
    assert_eq!(*interface, msg_decl.new_id_interface.unwrap());
    assert_eq!(msg_decl.find_new_id(msg_data), Some(5432));

    assert_eq!(added, vec![(5432, FAKE_INTERFACE)]);
    assert_eq!(dm.get_object_id(), 13);
    assert_eq!(dm.get_size(), msg_data.len() * 4);
    assert_eq!(dm.get_decl().get_name(), "fake_msg");
    dm
}

/// The words that a message is sent as.
fn sent(payload: Payload) -> Vec<u32> {
    let mut out = OutBuffer::new(false, true);
    let mut job = out.send(Vec::new(), payload);
    let SendAction::Transmit { words, .. } = out.advance(&mut job) else { panic!() };
    words
}

fn test_demarshal(check_types: bool) {
    let decl = fake_msg_decl();
    let msg_data = fake_msg_data();
    let dm = test_msg(&decl, &msg_data);
    let (fds, payload) = if check_types {
        dm.marshal_modified_check_types().unwrap()
    } else {
        dm.marshal_modified().unwrap()
    };
    let words = sent(payload);
    assert_eq!(words.len(), msg_data.len());
    assert_eq!(msg_data, words);
    assert_eq!(fds, vec![1, 2]);
}

#[test]
fn test_demarshal1() {
    test_demarshal(false);
}

#[test]
fn test_demarshal2() {
    test_demarshal(true);
}

#[test]
fn test_demarshal_modified1() {
    let decl = fake_msg_decl();
    let msg_data = fake_msg_data();
    let mut dm = test_msg(&decl, &msg_data);

    *dm.get_arg_mut(0) = ArgData::Int(0x5678_1234);
    *dm.get_arg_mut(2) = ArgData::Fixed(0x9ace_1357_u32 as i32);
    let ArgData::String(c) = dm.get_arg_mut(3) else { panic!() };
    *c = b"ABCDIJKLQRST".to_vec();
    let ArgData::Array(a) = dm.get_arg_mut(5) else { panic!() };
    *a = b"abcd01234567890!".to_vec();

    let mod_msg_data = fake_msg_data_modified();
    assert_eq!(dm.msg_decl.find_new_id(&mod_msg_data), Some(5432));

    let (fds, payload) = dm.marshal().unwrap();
    let words = sent(payload);
    assert_eq!(words.len(), mod_msg_data.len());
    assert_eq!(mod_msg_data, words);
    assert_eq!(fds, vec![1, 2]);
}

#[test]
fn unmodified_messages_are_relayed_as_they_are() {
    let decl = fake_msg_decl();
    let msg_data = fake_msg_data();
    let dm = test_msg(&decl, &msg_data);
    let (fds, payload) = dm.marshal().unwrap();
    let Payload::Raw(raw) = payload else { panic!() };
    assert_eq!(raw, msg_data);
    assert_eq!(fds, vec![1, 2]);
    let (fds, payload) = test_msg(&decl, &msg_data).relay_unmodified();
    let Payload::Raw(raw) = payload else { panic!() };
    assert_eq!(raw, msg_data);
    assert_eq!(fds, vec![1, 2]);
}

#[test]
fn replaced_arguments_are_marshalled() {
    let decl = fake_msg_decl();
    let msg_data = fake_msg_data();
    let mut dm = test_msg(&decl, &msg_data);
    dm.set_arg(1, ArgData::Uint(7));
    let (_, payload) = dm.marshal().unwrap();
    let mut expected = msg_data.clone();
    expected[3] = 7;
    assert_eq!(sent(payload), expected);
}

#[test]
fn arguments_of_other_types_are_refused() {
    let decl = fake_msg_decl();
    let msg_data = fake_msg_data();
    let mut dm = test_msg(&decl, &msg_data);
    *dm.get_arg_mut(1) = ArgData::Int(7);
    assert_eq!(dm.marshal().unwrap_err(), MarshalError::TypeMismatch);
    let mut dm = test_msg(&decl, &msg_data);
    dm.get_args_mut()[8] = ArgData::Uint(5432);
    assert_eq!(dm.marshal_modified_check_types().unwrap_err(), MarshalError::TypeMismatch);
}

#[test]
fn messages_that_become_too_long_are_refused() {
    let decl = fake_msg_decl();
    let msg_data = fake_msg_data();
    let mut dm = test_msg(&decl, &msg_data);
    dm.set_arg(5, ArgData::Array(vec![1; 4096]));
    assert_eq!(dm.marshal().unwrap_err(), MarshalError::TooLong);
}

#[test]
fn truncated_messages_are_refused() {
    let decl = fake_msg_decl();
    let data = fake_msg_data();
    for n in 2..data.len() {
        let (_, result, _, added) = demarshalled(&decl, &data[..n], vec![1, 2]);
        assert_eq!(result, Err(DemarshalError::Truncated));
        assert!(added.is_empty());
    }
}

#[test]
fn trailing_words_are_refused() {
    let decl = fake_msg_decl();
    let mut data = fake_msg_data();
    data.push(0);
    let (_, result, _, _) = demarshalled(&decl, &data, vec![1, 2]);
    assert_eq!(result, Err(DemarshalError::TrailingData));
}

#[test]
fn missing_fds_are_noticed_and_surplus_ones_kept() {
    let decl = fake_msg_decl();
    let data = fake_msg_data();
    let (_, result, left, _) = demarshalled(&decl, &data, vec![1]);
    assert_eq!(result, Err(DemarshalError::NotEnoughFds));
    assert!(left.is_empty());
    let (_, result, left, _) = demarshalled(&decl, &data, vec![1, 2, 3]);
    assert_eq!(result, Ok(()));
    assert_eq!(left, vec![3]);
}

#[test]
fn strings_must_end_with_their_only_zero() {
    let mut decl = Message::new(0);
    decl.args = vec![arg("text", Type::String)];
    let with = |len: u32, bytes: [u8; 4]| with_header(vec![0, 0, len, u32::from_ne_bytes(bytes)]);
    for (len, bytes) in [(4, *b"abcd"), (3, *b"a\0\0\0"), (2, *b"ab\0\0")] {
        let (_, result, _, _) = demarshalled(&decl, &with(len, bytes), Vec::new());
        assert_eq!(result, Err(DemarshalError::BadString));
    }
    let data = with(4, *b"abc\0");
    let (dm, result, _, _) = demarshalled(&decl, &data, Vec::new());
    assert_eq!(result, Ok(()));
    let ArgData::String(s) = dm.get_arg(0) else { panic!() };
    assert_eq!(s, b"abc");
    // no length at all: not even the zero
    let data = with_header(vec![0, 0, 0]);
    let (_, result, _, _) = demarshalled(&decl, &data, Vec::new());
    assert_eq!(result, Err(DemarshalError::BadString));
}

#[test]
fn a_new_id_without_an_interface_is_only_for_bind() {
    let mut decl = Message::new(0);
    decl.args = vec![arg("id", Type::NewId)];
    let data = with_header(vec![0, 0, 5]);
    let (_, result, _, _) = demarshalled(&decl, &data, Vec::new());
    assert_eq!(result, Err(DemarshalError::UnexpectedNewId));
}

#[test]
fn the_shortcut_to_the_new_id_skips_what_comes_before() {
    let mut decl = Message::new(0);
    decl.args =
        vec![arg("text", Type::String), arg("fd", Type::Fd), arg("n", Type::Int), arg("id", Type::NewId)];
    let data = with_header(vec![0, 0, 5, u32::from_ne_bytes(*b"abcd"), 0, 8, 77]);
    assert_eq!(decl.find_new_id(&data), Some(77));
    assert_eq!(decl.find_new_id(&data[..6]), None);
    decl.args.pop();
    assert_eq!(decl.find_new_id(&data), None);
}

#[test]
fn header_words() {
    let header = MessageHeader { object_id: 0x0102_0304, opcode: 0x0506, size: 0x0708 };
    assert_eq!(header.as_words(), [0x0102_0304, 0x0708_0506]);
    assert_eq!(MessageHeader::new(&header.as_words()), header);
    assert_eq!(MessageHeader { object_id: 1, opcode: 2, size: 9 }.len32(), 3);
}
