//! What debug output says.

use crate::actives::ActiveInterfaces;
use crate::args::ArgDataV;
use crate::basics::Fd;
use crate::debug::{
    arg_text, args_text, byte_text, bytes_text, eight_digits, fixed_text, int_text, padded,
    line_text, shown_in, shown_out, stamp_text, Flow,
};
use crate::for_handlers::{MessageHandler, UCred};
use crate::map::IdMapV;
use crate::mediator::Scene;
use crate::protocol::InterfaceId;
use crate::session_laws::unhandled;
use crate::text::decimal;
use crate::text_laws::worth;
use vstd::prelude::*;

verus! {

/// Whether a text is decimal digits only.
pub open spec fn all_digits(s: Seq<char>) -> bool {
    s.len() > 0 && forall|i: int| 0 <= i < s.len() ==> 0 <= worth(#[trigger] s[i]) <= 9
}

/// What decimal digits stand for, each ten times as much as the next.
pub open spec fn value_of(s: Seq<char>) -> int
    decreases s.len(),
{
    if s.len() == 0 {
        0
    } else {
        10 * value_of(s.drop_last()) + worth(s.last())
    }
}

/// Ten times itself, a number of times.
pub open spec fn power_of_ten(k: nat) -> int
    decreases k,
{
    if k == 0 {
        1
    } else {
        10 * power_of_ten((k - 1) as nat)
    }
}

/// A number is written with the digits that stand for it, and does not start with a zero unless it is
/// zero.
pub proof fn law_numbers_are_written_in_decimal(n: nat)
    ensures
        all_digits(decimal(n)),
        value_of(decimal(n)) == n,
        n > 0 ==> decimal(n)[0] != '0',
    decreases n,
{
    reveal_with_fuel(value_of, 2);
    if n < 10 {
        assert(decimal(n).drop_last() =~= Seq::<char>::empty());
    } else {
        law_numbers_are_written_in_decimal(n / 10);
        assert(decimal(n).drop_last() =~= decimal(n / 10));
        assert(decimal(n)[0] == decimal(n / 10)[0]);
    }
}

/// A negative number is written behind a minus sign.
pub proof fn law_negative_numbers_have_a_sign(i: int)
    ensures
        i >= 0 ==> int_text(i) == decimal(i as nat),
        i < 0 ==> int_text(i) == seq!['-'] + decimal((-i) as nat),
{
    reveal_strlit("-");
    assert("-"@ =~= seq!['-']);
}

proof fn lemma_short_decimal(n: nat, k: nat)
    requires
        k > 0,
        n < power_of_ten(k),
    ensures
        decimal(n).len() <= k,
    decreases k,
{
    reveal_with_fuel(power_of_ten, 2);
    if n >= 10 {
        assert(k > 1);
        lemma_short_decimal(n / 10, (k - 1) as nat);
    }
}

proof fn lemma_zeros_before(zeros: Seq<char>, s: Seq<char>)
    requires
        forall|i: int| 0 <= i < zeros.len() ==> #[trigger] zeros[i] == '0',
    ensures
        value_of(zeros + s) == value_of(s),
        all_digits(s) ==> all_digits(zeros + s),
    decreases s.len(), zeros.len(),
{
    let whole = zeros + s;
    if s.len() == 0 {
        if zeros.len() > 0 {
            assert(whole.drop_last() =~= zeros.drop_last() + s);
            assert forall|i: int| 0 <= i < zeros.drop_last().len() implies #[trigger] zeros.drop_last()[i]
                == '0' by {
                assert(zeros[i] == '0');
            }
            assert(whole.last() == zeros[zeros.len() - 1]);
            lemma_zeros_before(zeros.drop_last(), s);
        }
    } else {
        assert(whole.drop_last() =~= zeros + s.drop_last());
        lemma_zeros_before(zeros, s.drop_last());
        assert forall|i: int| 0 <= i < whole.len() && all_digits(s) implies 0 <= worth(
            #[trigger] whole[i],
        ) <= 9 by {
            if i < zeros.len() {
                assert(zeros[i] == '0');
            } else {
                assert(whole[i] == s[i - zeros.len()]);
            }
        }
    }
}

/// Whether a text is digits, a point and eight digits, behind a minus sign where the number is
/// negative, and these stand for a number that counts in parts of 256.
pub open spec fn is_fixed(s: Seq<char>, f: i32, whole: Seq<char>, part: Seq<char>) -> bool {
    let size = if f < 0 {
        -f
    } else {
        f as int
    };
    &&& all_digits(whole)
    &&& all_digits(part)
    &&& part.len() == 8
    &&& f >= 0 ==> s == whole + seq!['.'] + part
    &&& f < 0 ==> s == seq!['-'] + whole + seq!['.'] + part
    &&& (value_of(whole) * 100_000_000 + value_of(part)) * 256 == size * 100_000_000
}

/// A fixed-point number is written exactly: it counts in parts of 256, and eight digits behind the
/// point are enough for those.
pub proof fn law_fixed_numbers_are_exact(f: i32)
    ensures
        exists|whole: Seq<char>, part: Seq<char>| is_fixed(fixed_text(f), f, whole, part),
{
    reveal_strlit("-");
    reveal_strlit(".");
    assert("-"@ =~= seq!['-']);
    assert("."@ =~= seq!['.']);
    let size = if f < 0 {
        -(f as int)
    } else {
        f as int
    };
    let a = (size / 256) as nat;
    let b = (390625 * (size % 256)) as nat;
    let whole = decimal(a);
    let part = eight_digits(b);
    law_numbers_are_written_in_decimal(a);
    law_numbers_are_written_in_decimal(b);
    assert(b < power_of_ten(8)) by {
        reveal_with_fuel(power_of_ten, 9);
    }
    lemma_short_decimal(b, 8);
    let zeros = Seq::new((8 - decimal(b).len()) as nat, |i: int| '0');
    assert(part =~= zeros + decimal(b));
    lemma_zeros_before(zeros, decimal(b));
    let body = whole + seq!['.'] + part;
    assert((value_of(whole) * 100_000_000 + value_of(part)) * 256 == size * 100_000_000) by {
        assert(value_of(whole) == size / 256);
        assert(value_of(part) == 390625 * (size % 256));
        assert(size == 256 * (size / 256) + size % 256);
    }
    if f < 0 {
        assert(fixed_text(f) =~= seq!['-'] + whole + seq!['.'] + part);
    } else {
        assert(fixed_text(f) =~= body);
    }
    assert(is_fixed(fixed_text(f), f, whole, part));
}

/// The value of a hexadecimal digit.
pub open spec fn hex_worth(c: char) -> int {
    if c as int >= 97 {
        c as int - 87
    } else {
        c as int - 48
    }
}

/// A byte that can be printed is written as it is, but for quotes and the backslash. Any other is
/// written behind a backslash, those without a letter of their own as two hexadecimal digits.
pub proof fn law_bytes_are_escaped(b: u8)
    ensures
        32 <= b <= 126 && b != 34 && b != 39 && b != 92 ==> byte_text(b) == seq![b as char],
        b == 34 || b == 39 || b == 92 ==> byte_text(b) == seq!['\\', b as char],
        b == 9 ==> byte_text(b) == seq!['\\', 't'],
        b == 10 ==> byte_text(b) == seq!['\\', 'n'],
        b == 13 ==> byte_text(b) == seq!['\\', 'r'],
        (b < 32 && b != 9 && b != 10 && b != 13) || b > 126 ==> {
            let t = byte_text(b);
            &&& t.len() == 4
            &&& t[0] == '\\'
            &&& t[1] == 'x'
            &&& 0 <= hex_worth(t[2]) < 16
            &&& 0 <= hex_worth(t[3]) < 16
            &&& 16 * hex_worth(t[2]) + hex_worth(t[3]) == b
        },
{
    if b == 34 {
        assert(b as char == '"');
    }
    if b == 39 {
        assert(b as char == '\'');
    }
    if b == 92 {
        assert(b as char == '\\');
    }
}

/// The bytes of a text are written one behind another.
pub proof fn law_texts_are_written_byte_by_byte(a: Seq<u8>, b: Seq<u8>, byte: u8)
    ensures
        bytes_text(a + b) == bytes_text(a) + bytes_text(b),
        bytes_text(seq![byte]) == byte_text(byte),
    decreases b.len(),
{
    reveal_with_fuel(bytes_text, 2);
    assert(seq![byte].drop_last() =~= Seq::<u8>::empty());
    assert(bytes_text(seq![byte]) =~= byte_text(byte));
    if b.len() == 0 {
        assert(a + b =~= a);
        assert(bytes_text(a) + bytes_text(b) =~= bytes_text(a));
    } else {
        law_texts_are_written_byte_by_byte(a, b.drop_last(), byte);
        assert((a + b).drop_last() =~= a + b.drop_last());
        assert(bytes_text(a + b) =~= bytes_text(a) + bytes_text(b));
    }
}

/// Arguments are written in order, with a comma and a space between them.
pub proof fn law_arguments_are_listed(
    args: Seq<ArgDataV>,
    arg: ArgDataV,
    fds: Seq<Fd>,
    actives: ActiveInterfaces,
    ids: IdMapV,
)
    ensures
        args_text(Seq::empty(), fds, actives, ids) == Seq::<char>::empty(),
        args_text(seq![arg], fds, actives, ids) == arg_text(arg, fds, actives, ids),
        args.len() > 0 ==> args_text(args.push(arg), fds, actives, ids) == args_text(
            args,
            fds,
            actives,
            ids,
        ) + seq![',', ' '] + arg_text(arg, fds, actives, ids),
{
    reveal_strlit(", ");
    assert(", "@ =~= seq![',', ' ']);
    assert(args.push(arg).drop_last() =~= args);
}

/// At level one everything is shown on both sides, at level two what the client sends and gets, at
/// level three what the server sends and gets, and else nothing.
pub proof fn law_each_level_shows_its_side(level: u32, from_server: bool)
    ensures
        level == 1 ==> shown_in(level, from_server) && shown_out(level, from_server),
        level == 2 ==> shown_in(level, from_server) == !from_server && shown_out(level, from_server)
            == from_server,
        level == 3 ==> shown_in(level, from_server) == from_server && shown_out(level, from_server)
            == !from_server,
        level == 0 || level > 3 ==> !shown_in(level, from_server) && !shown_out(level, from_server),
{
}

/// Without debug output there is none. With it, a message that no handler sees is shown once, if it
/// is sent.
pub proof fn law_debug_output_is_asked_for<H: MessageHandler>(
    scene: Scene<H>,
    from_server: bool,
    source: Seq<u32>,
    fds: Seq<Fd>,
    ids: IdMapV,
    states: Seq<H::State>,
)
    ensures
        ({
            let m = scene.mediated(from_server, source, fds, ids, states);
            &&& scene.debug_level == 0 ==> m.lines.len() == 0
            &&& scene.debug_level != 0 && m.verdict is Send && unhandled(
                scene,
                from_server,
                source,
                ids,
            ) ==> m.lines.len() == 1
            &&& scene.debug_level != 0 && m.verdict is Drop ==> m.lines.len() > 0
        }),
{
}

proof fn lemma_padded(text: Seq<char>, width: nat, c: char)
    ensures
        ({
            let all = padded(text, width, seq![c]);
            let n = all.len() - text.len();
            &&& n >= 0
            &&& text.len() >= width ==> n == 0
            &&& text.len() < width ==> all.len() == width
            &&& all.skip(n) == text
            &&& forall|i: int| 0 <= i < n ==> #[trigger] all[i] == c
        }),
    decreases width,
{
    let all = padded(text, width, seq![c]);
    if text.len() < width {
        lemma_padded(text, (width - 1) as nat, c);
        let less = padded(text, (width - 1) as nat, seq![c]);
        assert(all =~= seq![c] + less);
        let n = all.len() - text.len();
        assert(all.skip(n) =~= less.skip(n - 1));
        assert forall|i: int| 0 <= i < n implies #[trigger] all[i] == c by {
            if i > 0 {
                assert(less[i - 1] == c);
            }
        }
    } else {
        assert(all.skip(0) =~= text);
    }
}

/// Whether a text is a number with three digits behind its point, in brackets, with as many spaces
/// before it as make what stands before the point seven characters long.
pub open spec fn is_stamp(
    s: Seq<char>,
    spaces: Seq<char>,
    whole: Seq<char>,
    part: Seq<char>,
) -> bool {
    &&& s == seq!['['] + spaces + whole + seq!['.'] + part + seq![']', ' ']
    &&& forall|i: int| 0 <= i < spaces.len() ==> #[trigger] spaces[i] == ' '
    &&& spaces.len() + whole.len() == 7 || (spaces.len() == 0 && whole.len() > 7)
    &&& all_digits(whole)
    &&& all_digits(part)
    &&& part.len() == 3
}

/// The time before a line is in milliseconds, with three digits behind the point.
pub proof fn law_times_are_in_milliseconds(microseconds: u64)
    ensures
        exists|spaces: Seq<char>, whole: Seq<char>, part: Seq<char>|
            #[trigger] is_stamp(stamp_text(microseconds), spaces, whole, part) && 1000 * value_of(
                whole,
            ) + value_of(part) == microseconds,
{
    reveal_strlit("[");
    reveal_strlit(".");
    reveal_strlit("] ");
    reveal_strlit(" ");
    reveal_strlit("0");
    assert("["@ =~= seq!['[']);
    assert("."@ =~= seq!['.']);
    assert("] "@ =~= seq![']', ' ']);
    assert(" "@ =~= seq![' ']);
    assert("0"@ =~= seq!['0']);
    let a = (microseconds / 1000) as nat;
    let b = (microseconds % 1000) as nat;
    law_numbers_are_written_in_decimal(a);
    law_numbers_are_written_in_decimal(b);
    let whole = decimal(a);
    lemma_padded(whole, 7, ' ');
    let left = padded(whole, 7, seq![' ']);
    let spaces = left.take(left.len() - whole.len());
    assert(left =~= spaces + whole);
    lemma_padded(decimal(b), 3, '0');
    assert(b < power_of_ten(3)) by {
        reveal_with_fuel(power_of_ten, 4);
    }
    lemma_short_decimal(b, 3);
    let part = padded(decimal(b), 3, seq!['0']);
    let zeros = part.take(part.len() - decimal(b).len());
    assert(part =~= zeros + decimal(b));
    lemma_zeros_before(zeros, decimal(b));
    assert(stamp_text(microseconds) =~= seq!['['] + spaces + whole + seq!['.'] + part + seq![
        ']',
        ' ',
    ]);
    assert(is_stamp(stamp_text(microseconds), spaces, whole, part));
}

/// Whether an object is live, and the name of its interface.
pub open spec fn is_object_of(
    actives: ActiveInterfaces,
    interface: InterfaceId,
    name: Seq<char>,
) -> bool {
    &&& interface.protocol < actives.protocols@.len()
    &&& interface.index < actives.protocols@[interface.protocol as int].interfaces@.len()
    &&& actives.protocols@[interface.protocol as int].interfaces@[interface.index as int].name@ == name
}

/// Each argument is shown as what it is: numbers in decimal, texts in quotes, objects by the name of
/// their interface and their id, arrays by their length, and file descriptors by their number.
pub proof fn law_arguments_are_shown(
    fds: Seq<Fd>,
    actives: ActiveInterfaces,
    ids: IdMapV,
    i: i32,
    u: u32,
    bytes: Seq<u8>,
    interface: InterfaceId,
    name: Seq<char>,
    index: nat,
)
    ensures
        arg_text(ArgDataV::Int(i), fds, actives, ids) == int_text(i as int),
        arg_text(ArgDataV::Uint(u), fds, actives, ids) == decimal(u as nat),
        arg_text(ArgDataV::Fixed(i), fds, actives, ids) == fixed_text(i),
        bytes.len() == 0 ==> arg_text(ArgDataV::String(bytes), fds, actives, ids) == seq![
            'n',
            'i',
            'l',
        ],
        bytes.len() > 0 ==> arg_text(ArgDataV::String(bytes), fds, actives, ids) == seq!['"']
            + bytes_text(bytes) + seq!['"'],
        is_object_of(actives, interface, name) && ids.lookup(u) == Some(interface) ==> arg_text(
            ArgDataV::Object(u),
            fds,
            actives,
            ids,
        ) == name + seq!['#'] + decimal(u as nat),
        is_object_of(actives, interface, name) ==> arg_text(
            ArgDataV::NewId { id: u, interface },
            fds,
            actives,
            ids,
        ) == "new_id "@ + name + seq!['$'] + decimal(u as nat),
        arg_text(ArgDataV::Array(bytes), fds, actives, ids) == "array["@ + decimal(bytes.len())
            + seq![']'],
        index < fds.len() ==> arg_text(ArgDataV::Fd { index }, fds, actives, ids) == "fd "@
            + int_text(fds[index as int] as int),
{
    reveal_strlit("nil");
    reveal_strlit("\"");
    reveal_strlit("#");
    reveal_strlit("$");
    reveal_strlit("]");
    assert("nil"@ =~= seq!['n', 'i', 'l']);
    assert("\""@ =~= seq!['"']);
    assert("#"@ =~= seq!['#']);
    assert("$"@ =~= seq!['$']);
    assert("]"@ =~= seq![']']);
}

/// A line of debug output says where a message comes from and where it goes, with the process of the
/// client where it is known, and then what it is for, what it is called, and what it brings.
pub proof fn law_lines_say_who_and_what(
    client: Option<UCred>,
    flow: Flow,
    from_server: bool,
    interface: Seq<char>,
    object_id: u32,
    name: Seq<char>,
    body: Seq<char>,
)
    ensures
        ({
            let pid = match client {
                Some(c) => int_text(c.pid as int),
                None => seq!['?'],
            };
            let who = match (flow, from_server) {
                (Flow::In, false) => "client["@ + pid + "]->waydapt "@,
                (Flow::In, true) => "server->waydapt["@ + pid + "] "@,
                (Flow::Out, false) => "waydapt["@ + pid + "]->server "@,
                (Flow::Out, true) => "waydapt->client["@ + pid + "] "@,
                (Flow::Unified, false) => "client["@ + pid + "]->waydapt->server "@,
                (Flow::Unified, true) => "server->waydapt->client["@ + pid + "] "@,
            };
            line_text(flow, from_server, client, interface, object_id, name, body) == who + interface
                + seq!['#'] + decimal(object_id as nat) + seq!['.'] + name + seq!['('] + body + seq![
                ')',
            ]
        }),
{
    reveal_strlit("?");
    reveal_strlit("#");
    reveal_strlit(".");
    reveal_strlit("(");
    reveal_strlit(")");
    assert("?"@ =~= seq!['?']);
    assert("#"@ =~= seq!['#']);
    assert("."@ =~= seq!['.']);
    assert("("@ =~= seq!['(']);
    assert(")"@ =~= seq![')']);
}

} // verus!
