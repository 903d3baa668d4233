//! Messages in words, for debug output.

use crate::actives::ActiveInterfaces;
use crate::args::{args_slice, fds_slice, ArgData, ArgDataV, ArgVec, FdVec};
use crate::basics::Fd;
use crate::for_handlers::{SessionInfo, SessionInitInfo, UCred};
use crate::map::IdMapV;
use crate::protocol::{at, interface_at, valid_id, InterfaceId};
use crate::text::{decimal, digit_char, from_chars, to_chars, to_decimal};
use vstd::prelude::*;
use vstd::string::StringExecFns;

verus! {

/// A number in decimal, with a minus sign where it is negative.
pub open spec fn int_text(i: int) -> Seq<char> {
    if i < 0 {
        "-"@ + decimal((-i) as nat)
    } else {
        decimal(i as nat)
    }
}

/// A number in decimal, with zeros before it to make it eight digits long at least.
pub open spec fn eight_digits(n: nat) -> Seq<char> {
    let digits = decimal(n);
    Seq::new(
        if digits.len() < 8 {
            (8 - digits.len()) as nat
        } else {
            0
        },
        |i: int| '0',
    ) + digits
}

/// A fixed-point number, which counts in parts of 256, in decimal.
pub open spec fn fixed_text(f: i32) -> Seq<char> {
    let size = if f < 0 {
        -(f as int)
    } else {
        f as int
    };
    (if f < 0 {
        "-"@
    } else {
        Seq::empty()
    }) + decimal((size / 256) as nat) + "."@ + eight_digits((390625 * (size % 256)) as nat)
}

/// The character for a hexadecimal digit.
pub open spec fn hex_char(d: int) -> char {
    if d == 10 {
        'a'
    } else if d == 11 {
        'b'
    } else if d == 12 {
        'c'
    } else if d == 13 {
        'd'
    } else if d == 14 {
        'e'
    } else if d == 15 {
        'f'
    } else {
        digit_char(d as nat)
    }
}

/// A byte of a text: as it is where it can be printed, and else escaped.
pub open spec fn byte_text(b: u8) -> Seq<char> {
    if b == 9 {
        seq!['\\', 't']
    } else if b == 13 {
        seq!['\\', 'r']
    } else if b == 10 {
        seq!['\\', 'n']
    } else if b == 39 {
        seq!['\\', '\'']
    } else if b == 34 {
        seq!['\\', '"']
    } else if b == 92 {
        seq!['\\', '\\']
    } else if 32 <= b <= 126 {
        seq![b as char]
    } else {
        seq!['\\', 'x', hex_char(b as int / 16), hex_char(b as int % 16)]
    }
}

/// The bytes of a text, each as it is or escaped.
pub open spec fn bytes_text(bytes: Seq<u8>) -> Seq<char>
    decreases bytes.len(),
{
    if bytes.len() == 0 {
        Seq::empty()
    } else {
        bytes_text(bytes.drop_last()) + byte_text(bytes.last())
    }
}

/// The name of the interface at a place.
pub open spec fn place_text(actives: ActiveInterfaces, id: InterfaceId) -> Seq<char> {
    if valid_id(actives.protocols@, id) {
        actives.get(id).name@
    } else {
        "<unknown interface>"@
    }
}

/// The name of the interface of an object.
pub open spec fn object_text(actives: ActiveInterfaces, ids: IdMapV, id: u32) -> Seq<char> {
    match ids.lookup(id) {
        Some(interface) => place_text(actives, interface),
        None => "<unknown interface>"@,
    }
}

/// The value of an argument.
pub open spec fn arg_text(
    arg: ArgDataV,
    fds: Seq<Fd>,
    actives: ActiveInterfaces,
    ids: IdMapV,
) -> Seq<char> {
    match arg {
        ArgDataV::Int(i) => int_text(i as int),
        ArgDataV::Uint(u) => decimal(u as nat),
        ArgDataV::Fixed(f) => fixed_text(f),
        ArgDataV::String(s) => if s.len() == 0 {
            "nil"@
        } else {
            "\""@ + bytes_text(s) + "\""@
        },
        ArgDataV::Object(id) => object_text(actives, ids, id) + "#"@ + decimal(id as nat),
        ArgDataV::NewId { id, interface } => "new_id "@ + place_text(actives, interface) + "$"@
            + decimal(id as nat),
        ArgDataV::Array(a) => "array["@ + decimal(a.len()) + "]"@,
        ArgDataV::Fd { index } => "fd "@ + if index < fds.len() {
            int_text(fds[index as int] as int)
        } else {
            "<none>"@
        },
    }
}

/// The values of arguments.
pub open spec fn args_text(
    args: Seq<ArgDataV>,
    fds: Seq<Fd>,
    actives: ActiveInterfaces,
    ids: IdMapV,
) -> Seq<char>
    decreases args.len(),
{
    if args.len() == 0 {
        Seq::empty()
    } else if args.len() == 1 {
        arg_text(args[0], fds, actives, ids)
    } else {
        args_text(args.drop_last(), fds, actives, ids) + ", "@ + arg_text(
            args.last(),
            fds,
            actives,
            ids,
        )
    }
}

fn to_int(i: i64) -> (r: String)
    requires
        i > i64::MIN,
    ensures
        r@ == int_text(i as int),
{
    if i < 0 {
        let mut s: String = "-".to_owned();
        s.append(to_decimal((-i) as u64).as_str());
        s
    } else {
        to_decimal(i as u64)
    }
}

fn to_eight_digits(n: u64) -> (r: String)
    ensures
        r@ == eight_digits(n as nat),
{
    let digits: String = to_decimal(n);
    let chars: Vec<char> = crate::text::to_chars(digits.as_str());
    let mut out: Vec<char> = Vec::new();
    let len: usize = chars.len();
    let zeros: usize = if len < 8 {
        8 - len
    } else {
        0
    };
    for i in 0..zeros
        invariant
            out@ == Seq::new(i as nat, |k: int| '0'),
    {
        out.push('0');
        assert(out@ =~= Seq::new((i + 1) as nat, |k: int| '0'));
    }
    let ghost start = out@;
    assert(start + chars@.take(0) =~= start);
    for i in 0..len
        invariant
            len == chars@.len(),
            out@ == start + chars@.take(i as int),
    {
        out.push(chars[i]);
        assert(out@ =~= start + chars@.take(i + 1));
    }
    assert(chars@.take(len as int) =~= chars@);
    from_chars(out.as_slice())
}

/// A fixed-point number in decimal.
pub fn wayland_fixed(f: i32) -> (r: String)
    ensures
        r@ == fixed_text(f),
{
    let size: u64 = if f < 0 {
        (-(f as i64)) as u64
    } else {
        f as u64
    };
    let mut s: String = if f < 0 {
        "-".to_owned()
    } else {
        String::new()
    };
    assert(f >= 0 ==> s@ =~= Seq::<char>::empty());
    s.append(to_decimal(size / 256).as_str());
    s.append(".");
    s.append(to_eight_digits(390625 * (size % 256)).as_str());
    s
}

fn hex_digit(d: u8) -> (r: char)
    requires
        d < 16,
    ensures
        r == hex_char(d as int),
{
    match d {
        0 => '0',
        1 => '1',
        2 => '2',
        3 => '3',
        4 => '4',
        5 => '5',
        6 => '6',
        7 => '7',
        8 => '8',
        9 => '9',
        10 => 'a',
        11 => 'b',
        12 => 'c',
        13 => 'd',
        14 => 'e',
        _ => 'f',
    }
}

fn push_byte(out: &mut Vec<char>, b: u8)
    ensures
        final(out)@ == old(out)@ + byte_text(b),
{
    let ghost start = out@;
    if b == 9 {
        out.push('\\');
        out.push('t');
    } else if b == 13 {
        out.push('\\');
        out.push('r');
    } else if b == 10 {
        out.push('\\');
        out.push('n');
    } else if b == 39 {
        out.push('\\');
        out.push('\'');
    } else if b == 34 {
        out.push('\\');
        out.push('"');
    } else if b == 92 {
        out.push('\\');
        out.push('\\');
    } else if 32 <= b && b <= 126 {
        out.push(b as char);
    } else {
        out.push('\\');
        out.push('x');
        out.push(hex_digit(b / 16));
        out.push(hex_digit(b % 16));
    }
    assert(out@ =~= start + byte_text(b));
}

fn escaped(bytes: &Vec<u8>) -> (r: String)
    ensures
        r@ == bytes_text(bytes@),
{
    let mut out: Vec<char> = Vec::new();
    let n: usize = bytes.len();
    assert(bytes@.take(0) =~= Seq::<u8>::empty());
    for i in 0..n
        invariant
            n == bytes@.len(),
            out@ == bytes_text(bytes@.take(i as int)),
    {
        assert(bytes@.take(i + 1).drop_last() =~= bytes@.take(i as int));
        push_byte(&mut out, bytes[i]);
    }
    assert(bytes@.take(n as int) =~= bytes@);
    from_chars(out.as_slice())
}

fn place_name(actives: &ActiveInterfaces, id: InterfaceId) -> (r: &str)
    ensures
        r@ == place_text(*actives, id),
{
    if id.protocol < actives.protocols.len() && id.index < actives.protocols[id.protocol].interfaces.len() {
        interface_at(&actives.protocols, id).name.as_str()
    } else {
        "<unknown interface>"
    }
}

fn describe_arg<I: SessionInfo>(arg: &ArgData, fds: &[Fd], info: &I) -> (r: String)
    ensures
        r@ == arg_text(arg@, fds@, info.actives(), info.ids()),
{
    match arg {
        ArgData::Int(i) => to_int(*i as i64),
        ArgData::Uint(u) => to_decimal(*u as u64),
        ArgData::Fixed(f) => wayland_fixed(*f),
        ArgData::String(s) => {
            if s.len() == 0 {
                "nil".to_owned()
            } else {
                let mut text: String = "\"".to_owned();
                text.append(escaped(s).as_str());
                text.append("\"");
                text
            }
        },
        ArgData::Object(id) => {
            let mut text: String = match info.try_lookup(*id) {
                Some(interface) => place_name(info.get_active_interfaces(), interface).to_owned(),
                None => "<unknown interface>".to_owned(),
            };
            text.append("#");
            text.append(to_decimal(*id as u64).as_str());
            text
        },
        ArgData::NewId { id, interface } => {
            let mut text: String = "new_id ".to_owned();
            text.append(place_name(info.get_active_interfaces(), *interface));
            text.append("$");
            text.append(to_decimal(*id as u64).as_str());
            text
        },
        ArgData::Array(a) => {
            let mut text: String = "array[".to_owned();
            text.append(to_decimal(a.len() as u64).as_str());
            text.append("]");
            text
        },
        ArgData::Fd { index } => {
            let mut text: String = "fd ".to_owned();
            if *index < fds.len() {
                text.append(to_int(fds[*index] as i64).as_str());
            } else {
                text.append("<none>");
            }
            text
        },
    }
}

/// The values of the arguments of a message.
pub fn describe_args<I: SessionInfo>(args: &ArgVec, fds: &FdVec, info: &I) -> (r: String)
    ensures
        r@ == args_text(args@, fds@, info.actives(), info.ids()),
{
    let items: &[ArgData] = args_slice(args);
    let fd_items: &[Fd] = fds_slice(fds);
    let ghost all = args@;
    let mut out: String = String::new();
    let n: usize = items.len();
    assert(all.take(0) =~= Seq::<ArgDataV>::empty());
    assert(out@ =~= Seq::<char>::empty());
    for i in 0..n
        invariant
            n == items@.len(),
            n == all.len(),
            fd_items@ == fds@,
            forall|j: int| 0 <= j < n ==> (#[trigger] items@[j])@ == all[j],
            out@ == args_text(all.take(i as int), fds@, info.actives(), info.ids()),
    {
        assert(all.take(i + 1).drop_last() =~= all.take(i as int));
        assert(all.take(i + 1).last() == items@[i as int]@);
        if i > 0 {
            out.append(", ");
        }
        let text: String = describe_arg(&items[i], fd_items, info);
        out.append(text.as_str());
        assert(out@ =~= args_text(all.take(i + 1), fds@, info.actives(), info.ids()));
    }
    assert(all.take(n as int) =~= all);
    out
}

/// The number of the process of a client, where it is known.
pub open spec fn pid_text(client: Option<UCred>) -> Seq<char> {
    match client {
        Some(c) => int_text(c.pid as int),
        None => "?"@,
    }
}

fn pid_of(client: Option<UCred>) -> (r: String)
    ensures
        r@ == pid_text(client),
{
    match client {
        Some(c) => to_int(c.pid as i64),
        None => "?".to_owned(),
    }
}

/// At which side of this process a message is shown.
#[derive(Debug, PartialEq, Eq, Clone, Copy, Structural)]
pub enum Flow {
    In,
    Out,
    Unified,
}

/// Where a message comes from and where it goes.
pub open spec fn flow_text(flow: Flow, from_server: bool, client: Option<UCred>) -> Seq<char> {
    let pid = pid_text(client);
    match (flow, from_server) {
        (Flow::In, true) => "server->waydapt["@ + pid + "] "@,
        (Flow::In, false) => "client["@ + pid + "]->waydapt "@,
        (Flow::Out, true) => "waydapt->client["@ + pid + "] "@,
        (Flow::Out, false) => "waydapt["@ + pid + "]->server "@,
        (Flow::Unified, true) => "server->waydapt->client["@ + pid + "] "@,
        (Flow::Unified, false) => "client["@ + pid + "]->waydapt->server "@,
    }
}

fn flow_of(flow: Flow, from_server: bool, client: Option<UCred>) -> (r: String)
    ensures
        r@ == flow_text(flow, from_server, client),
{
    let pid: String = pid_of(client);
    let (before, after): (&str, &str) = match (flow, from_server) {
        (Flow::In, true) => ("server->waydapt[", "] "),
        (Flow::In, false) => ("client[", "]->waydapt "),
        (Flow::Out, true) => ("waydapt->client[", "] "),
        (Flow::Out, false) => ("waydapt[", "]->server "),
        (Flow::Unified, true) => ("server->waydapt->client[", "] "),
        (Flow::Unified, false) => ("client[", "]->waydapt->server "),
    };
    let mut s: String = before.to_owned();
    s.append(pid.as_str());
    s.append(after);
    s
}

/// A line for a message: where it comes from and where it goes, the object that it is for, its name,
/// and what is said of its arguments.
pub open spec fn line_text(
    flow: Flow,
    from_server: bool,
    client: Option<UCred>,
    interface_name: Seq<char>,
    object_id: u32,
    message_name: Seq<char>,
    body: Seq<char>,
) -> Seq<char> {
    flow_text(flow, from_server, client) + interface_name + "#"@ + decimal(object_id as nat) + "."@
        + message_name + "("@ + body + ")"@
}

/// A line for a message.
pub fn describe_message(
    flow: Flow,
    from_server: bool,
    client: Option<UCred>,
    interface_name: &str,
    object_id: u32,
    message_name: &str,
    body: &str,
) -> (r: String)
    ensures
        r@ == line_text(
            flow,
            from_server,
            client,
            interface_name@,
            object_id,
            message_name@,
            body@,
        ),
{
    let mut s: String = flow_of(flow, from_server, client);
    s.append(interface_name);
    s.append("#");
    s.append(to_decimal(object_id as u64).as_str());
    s.append(".");
    s.append(message_name);
    s.append("(");
    s.append(body);
    s.append(")");
    s
}

/// Whether a message is shown as it comes in, at a debug level.
pub open spec fn shown_in(debug_level: u32, from_server: bool) -> bool {
    debug_level == 1 || (debug_level == 2 && !from_server) || (debug_level == 3 && from_server)
}

/// Whether a message is shown as it goes out, at a debug level.
pub open spec fn shown_out(debug_level: u32, from_server: bool) -> bool {
    debug_level == 1 || (debug_level == 2 && from_server) || (debug_level == 3 && !from_server)
}

/// Whether a message is shown as it comes in, at a debug level.
pub fn shows_in(debug_level: u32, from_server: bool) -> (r: bool)
    ensures
        r == shown_in(debug_level, from_server),
{
    match debug_level {
        1 => true,
        2 => !from_server,
        3 => from_server,
        _ => false,
    }
}

/// Whether a message is shown as it goes out, at a debug level.
pub fn shows_out(debug_level: u32, from_server: bool) -> (r: bool)
    ensures
        r == shown_out(debug_level, from_server),
{
    match debug_level {
        1 => true,
        2 => from_server,
        3 => !from_server,
        _ => false,
    }
}

/// A text with as many spaces or zeros before it as it takes to give it a width.
pub open spec fn padded(text: Seq<char>, width: nat, fill: Seq<char>) -> Seq<char>
    decreases width,
{
    if text.len() >= width {
        text
    } else {
        fill + padded(text, (width - 1) as nat, fill)
    }
}

/// Writes a text behind as many spaces or zeros as it takes to give it a width.
fn append_padded(out: &mut String, text: &str, width: usize, fill: &str)
    ensures
        final(out)@ == old(out)@ + padded(text@, width as nat, fill@),
{
    let n: usize = to_chars(text).len();
    let mut w: usize = width;
    assert(out@ + padded(text@, w as nat, fill@) =~= old(out)@ + padded(
        text@,
        width as nat,
        fill@,
    ));
    while w > n
        invariant
            n == text@.len(),
            out@ + padded(text@, w as nat, fill@) == old(out)@ + padded(
                text@,
                width as nat,
                fill@,
            ),
        decreases w,
    {
        let ghost before = out@;
        out.append(fill);
        w = w - 1;
        assert(out@ + padded(text@, w as nat, fill@) =~= before + padded(
            text@,
            (w + 1) as nat,
            fill@,
        ));
    }
    out.append(text);
}

/// What stands before a line of debug output: a time in milliseconds, with three decimals.
pub open spec fn stamp_text(microseconds: u64) -> Seq<char> {
    "["@ + padded(decimal((microseconds / 1000) as nat), 7, " "@) + "."@ + padded(
        decimal((microseconds % 1000) as nat),
        3,
        "0"@,
    ) + "] "@
}

/// What stands before a line of debug output, by the time at which it is written.
pub fn stamp(microseconds: u64) -> (r: String)
    ensures
        r@ == stamp_text(microseconds),
{
    let mut out = "[".to_owned();
    append_padded(&mut out, to_decimal(microseconds / 1000).as_str(), 7, " ");
    out.append(".");
    append_padded(&mut out, to_decimal(microseconds % 1000).as_str(), 3, "0");
    out.append("] ");
    out
}

} // verus!
