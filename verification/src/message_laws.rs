//! What holds of taking messages apart and putting them together.

use crate::actives::{law_active_is_found, names_at};
use crate::args::{body_words, ArgDataV};
use crate::basics::{
    bytes_words, law_bytes_through_words, law_words_through_bytes, words_bytes, ByteOrder, Fd,
    MAX_WORDS_OUT,
};
use crate::chunk::{array_len, array_words, i32_word, padded};
use crate::header::{header_of, law_header_words_round_trip, MessageHeader};
use crate::map::{is_server_id, law_added_is_found};
use crate::message::{bytes_at, new_id_pos, string_at, text_of, DemarshalError, Progress, Wire};
use crate::outbuffer::sized;
use crate::protocol::{lemma_name_index, name_index, SpecialMessage, Type};
use crate::text::utf8_text;
use vstd::prelude::*;
use vstd::utf8::{encode_utf8, encode_utf8_decode_utf8, encode_utf8_valid_utf8};

verus! {

proof fn lemma_int_word(i: i32)
    ensures
        i32_word(i) as i32 == i,
{
    assert((i as u32) as i32 == i) by (bit_vector);
}

proof fn lemma_word_int(w: u32)
    ensures
        i32_word(w as i32) == w,
{
    assert((w as i32) as u32 == w) by (bit_vector);
}

proof fn lemma_padded(bytes: Seq<u8>)
    ensures
        padded(bytes).len() % 4 == 0,
        padded(bytes).len() == 4 * array_len(bytes.len() as int),
        padded(bytes).take(bytes.len() as int) == bytes,
{
    assert(padded(bytes).take(bytes.len() as int) =~= bytes);
}

/// A run of bytes in which nothing but zeros follows the first `n` is those filled up.
proof fn lemma_filled_up(all: Seq<u8>, n: int)
    requires
        0 <= n,
        all.len() == 4 * array_len(n),
        forall|i: int| n <= i < all.len() ==> #[trigger] all[i] == 0,
    ensures
        padded(all.take(n)) == all,
{
    assert(padded(all.take(n)) =~= all);
}

/// What stands in a part of a run of words stands in the whole.
proof fn lemma_part(source: Seq<u32>, base: int, at: int, words: Seq<u32>)
    requires
        0 <= base <= source.len(),
        0 <= at,
        at + words.len() <= source.skip(base).len(),
        source.skip(base).subrange(at, at + words.len()) == words,
    ensures
        source.subrange(base + at, base + at + words.len()) == words,
{
    assert(source.subrange(base + at, base + at + words.len()) =~= source.skip(base).subrange(
        at,
        at + words.len(),
    ));
}

/// A run of bytes that has been written is read back.
proof fn lemma_bytes_read_back(order: ByteOrder, source: Seq<u32>, pos: nat, bytes: Seq<u8>)
    requires
        bytes.len() <= u32::MAX,
        pos + array_words(order, bytes).len() <= source.len(),
        source.subrange(pos as int, (pos + array_words(order, bytes).len()) as int) == array_words(
            order,
            bytes,
        ),
    ensures
        bytes_at(order, source, pos) == Some(bytes),
        array_words(order, bytes).len() == 1 + array_len(bytes.len() as int),
{
    let words = array_words(order, bytes);
    let body = bytes_words(order, padded(bytes));
    lemma_padded(bytes);
    let sub = source.subrange(pos as int, (pos + words.len()) as int);
    assert(sub[0] == words[0]);
    assert(source[pos as int] == bytes.len() as u32);
    let n = array_len(bytes.len() as int);
    assert(body.len() == n);
    assert(source.subrange(pos as int + 1, pos + 1 + n) =~= body) by {
        assert forall|i: int| 0 <= i < n implies source[pos + 1 + i] == body[i] by {
            assert(sub[i + 1] == words[i + 1]);
        }
    }
    law_bytes_through_words(order, padded(bytes));
}

/// A run of bytes that has been read, with nothing but zeros behind it, is written as it stood.
proof fn lemma_bytes_written_back(order: ByteOrder, source: Seq<u32>, pos: nat)
    requires
        bytes_at(order, source, pos) is Some,
        zero_padded(order, source, pos),
    ensures
        ({
            let bytes = bytes_at(order, source, pos)->0;
            array_words(order, bytes) == source.subrange(
                pos as int,
                pos + 1 + array_len(bytes.len() as int),
            )
        }),
{
    let n = source[pos as int] as int;
    let sub = source.subrange(pos as int + 1, pos + 1 + array_len(n));
    let all = words_bytes(order, sub);
    let bytes = all.take(n);
    assert(all.len() == 4 * array_len(n));
    assert(bytes_at(order, source, pos) == Some(bytes));
    lemma_filled_up(all, n);
    law_words_through_bytes(order, sub);
    assert(bytes_words(order, padded(bytes)) == sub);
    assert(bytes.len() == n);
    lemma_first_and_rest(source, pos as int, pos + 1 + array_len(n));
}

proof fn lemma_first_and_rest(source: Seq<u32>, start: int, end: int)
    requires
        0 <= start < end <= source.len(),
    ensures
        seq![source[start]] + source.subrange(start + 1, end) == source.subrange(start, end),
{
    assert(seq![source[start]] + source.subrange(start + 1, end) =~= source.subrange(start, end));
}

/// Whether the bytes between the end of a run of bytes and the end of its last word are zero.
pub open spec fn zero_padded(order: ByteOrder, source: Seq<u32>, pos: nat) -> bool {
    let n = source[pos as int] as int;
    let all = words_bytes(order, source.subrange(pos as int + 1, pos + 1 + array_len(n)));
    forall|i: int| n <= i < all.len() ==> #[trigger] all[i] == 0
}

impl Wire {
    /// Whether a value can stand in a message as the next argument.
    pub open spec fn admits(self, p: Progress, arg: ArgDataV, typ: Type) -> bool {
        &&& arg.typ() == typ
        &&& match arg {
            ArgDataV::String(s) => !s.contains(0) && s.len() < u32::MAX,
            ArgDataV::Array(a) => a.len() <= u32::MAX,
            ArgDataV::NewId { id, interface } => {
                &&& self.decl.new_id_interface == Some(interface)
                &&& !(is_server_id(id) && self.decl.special == Some(SpecialMessage::WlDisplaySync))
                &&& p.ids.add_error(id) is None
            },
            ArgDataV::Fd { index } => p.left.len() > 0 && index == p.taken.len(),
            _ => true,
        }
    }

    /// How far the taking apart has come when a value has been found.
    pub open spec fn found(self, p: Progress, arg: ArgDataV) -> Progress {
        Progress {
            args: p.args.push(arg),
            taken: if arg is Fd {
                p.taken.push(p.left[0])
            } else {
                p.taken
            },
            left: if arg is Fd {
                p.left.skip(1)
            } else {
                p.left
            },
            pos: p.pos + arg.words(self.order).len(),
            ids: match arg {
                ArgDataV::NewId { id, interface } => p.ids.added(id, interface),
                _ => p.ids,
            },
        }
    }

    /// How far the taking apart has come when the first `n` of some values have been found.
    pub open spec fn found_all(self, start: Progress, args: Seq<ArgDataV>, n: nat) -> Progress
        decreases n,
    {
        if n == 0 {
            start
        } else {
            self.found(self.found_all(start, args, (n - 1) as nat), args[n - 1])
        }
    }

    /// Whether some values can stand in a message as its arguments.
    pub open spec fn admits_all(self, start: Progress, args: Seq<ArgDataV>) -> bool {
        &&& args.len() == self.decl.args@.len()
        &&& forall|i: int|
            0 <= i < args.len() ==> self.admits(
                self.found_all(start, args, i as nat),
                #[trigger] args[i],
                self.decl.args@[i].typ,
            )
    }

    proof fn lemma_found(self, p: Progress, arg: ArgDataV, typ: Type)
        requires
            self.admits(p, arg, typ),
            p.pos + arg.words(self.order).len() <= self.source.len(),
            self.source.subrange(p.pos as int, (p.pos + arg.words(self.order).len()) as int)
                == arg.words(self.order),
        ensures
            self.arg_step(p, typ) == Ok::<Progress, DemarshalError>(self.found(p, arg)),
    {
        let words = arg.words(self.order);
        let sub = self.source.subrange(p.pos as int, (p.pos + words.len()) as int);
        match arg {
            ArgDataV::Int(i) => {
                lemma_int_word(i);
                assert(sub[0] == self.source[p.pos as int]);
            },
            ArgDataV::Fixed(i) => {
                lemma_int_word(i);
                assert(sub[0] == self.source[p.pos as int]);
            },
            ArgDataV::Uint(_) | ArgDataV::Object(_) | ArgDataV::NewId { .. } => {
                assert(sub[0] == self.source[p.pos as int]);
            },
            ArgDataV::String(s) => {
                let bytes = s.push(0);
                lemma_bytes_read_back(self.order, self.source, p.pos, bytes);
                assert(bytes.drop_last() =~= s);
                assert(text_of(bytes) == Some(s));
            },
            ArgDataV::Array(a) => {
                lemma_bytes_read_back(self.order, self.source, p.pos, a);
            },
            ArgDataV::Fd { .. } => {},
        }
    }

    proof fn lemma_found_all(self, start: Progress, args: Seq<ArgDataV>, n: nat)
        requires
            self.admits_all(start, args),
            n <= args.len(),
            start.pos + body_words(self.order, args).len() == self.source.len(),
            self.source.skip(start.pos as int) == body_words(self.order, args),
        ensures
            self.run(start, n) == (self.found_all(start, args, n), None::<DemarshalError>),
            self.found_all(start, args, n).pos == start.pos + body_words(
                self.order,
                args.take(n as int),
            ).len(),
            self.found_all(start, args, n).args == start.args + args.take(n as int),
        decreases n,
    {
        if n == 0 {
            assert(args.take(0) =~= Seq::<ArgDataV>::empty());
            assert(start.args + args.take(0) =~= start.args);
        } else {
            let m = (n - 1) as nat;
            self.lemma_found_all(start, args, m);
            let p = self.found_all(start, args, m);
            let arg = args[m as int];
            let words = arg.words(self.order);
            assert(args.take(n as int).drop_last() =~= args.take(m as int));
            assert(args.take(n as int).last() == arg);
            lemma_body_part(self.order, args, m as int);
            let at = body_words(self.order, args.take(m as int)).len();
            lemma_part(self.source, start.pos as int, at as int, words);
            self.lemma_found(p, arg, self.decl.args@[m as int].typ);
            assert(start.args + args.take(n as int) =~= (start.args + args.take(m as int)).push(
                arg,
            ));
        }
    }
}

/// Where the words of one argument stand among those of all.
proof fn lemma_body_part(order: ByteOrder, args: Seq<ArgDataV>, k: int)
    requires
        0 <= k < args.len(),
    ensures
        ({
            let body = body_words(order, args);
            let start = body_words(order, args.take(k)).len();
            let words = args[k].words(order);
            start + words.len() <= body.len() && body.subrange(
                start as int,
                (start + words.len()) as int,
            ) == words
        }),
    decreases args.len(),
{
    let body = body_words(order, args);
    let words = args[k].words(order);
    if k == args.len() - 1 {
        assert(args.take(k) =~= args.drop_last());
        let start = body_words(order, args.take(k)).len();
        assert(body.subrange(start as int, (start + words.len()) as int) =~= words);
    } else {
        let front = args.drop_last();
        lemma_body_part(order, front, k);
        assert(front.take(k) =~= args.take(k));
        let start = body_words(order, args.take(k)).len();
        let inner = body_words(order, front);
        assert(body.subrange(start as int, (start + words.len()) as int) =~= inner.subrange(
            start as int,
            (start + words.len()) as int,
        ));
    }
}

/// A message that has been put together is taken apart into the arguments that it was put together
/// from, with nothing left over.
pub proof fn law_demarshal_of_marshal(wire: Wire, start: Progress, header: Seq<u32>, args: Seq<ArgDataV>)
    requires
        header.len() == 2,
        wire.source == header + body_words(wire.order, args),
        start.pos == 2,
        start.args == Seq::<ArgDataV>::empty(),
        wire.admits_all(start, args),
    ensures
        wire.demarshalled(start).1 is None,
        wire.demarshalled(start).0.args == args,
{
    assert(wire.source.skip(2) =~= body_words(wire.order, args));
    wire.lemma_found_all(start, args, args.len());
    assert(args.take(args.len() as int) =~= args);
    assert(Seq::<ArgDataV>::empty() + args =~= args);
}

impl Wire {
    /// Whether the runs of bytes among the first `n` declared arguments are filled up with zeros.
    pub open spec fn clean(self, start: Progress, n: nat) -> bool {
        forall|i: int|
            #![trigger self.decl.args@[i]]
            0 <= i < n && (self.decl.args@[i].typ is String || self.decl.args@[i].typ is Array || (
            self.decl.args@[i].typ is NewId && self.decl.new_id_interface is None))
                ==> zero_padded(self.order, self.source, self.run(start, i as nat).0.pos)
    }

    /// What one step adds to the arguments stands for the words that it has gone past.
    proof fn lemma_step_words(self, p: Progress, typ: Type)
        requires
            self.arg_step(p, typ) is Ok,
            typ is String || typ is Array || (typ is NewId && self.decl.new_id_interface is None)
                ==> zero_padded(self.order, self.source, p.pos),
            p.pos <= self.source.len(),
        ensures
            ({
                let q = self.arg_step(p, typ)->Ok_0;
                &&& p.pos <= q.pos <= self.source.len()
                &&& body_words(self.order, q.args) == body_words(self.order, p.args)
                    + self.source.subrange(p.pos as int, q.pos as int)
            }),
    {
        let q = self.arg_step(p, typ)->Ok_0;
        let sub = self.source.subrange(p.pos as int, q.pos as int);
        match typ {
            Type::String => {
                let bytes = bytes_at(self.order, self.source, p.pos)->0;
                lemma_bytes_written_back(self.order, self.source, p.pos);
                assert(bytes.drop_last().push(0) =~= bytes);
                assert(q.args.drop_last() =~= p.args);
            },
            Type::Array => {
                lemma_bytes_written_back(self.order, self.source, p.pos);
                assert(q.args.drop_last() =~= p.args);
            },
            Type::NewId => {
                if self.decl.new_id_interface is None {
                    let bytes = bytes_at(self.order, self.source, p.pos)->0;
                    lemma_bytes_written_back(self.order, self.source, p.pos);
                    assert(bytes.drop_last().push(0) =~= bytes);
                    let (text, next) = string_at(self.order, self.source, p.pos)->Ok_0;
                    let a1 = p.args.push(ArgDataV::String(text));
                    let a2 = a1.push(ArgDataV::Uint(self.source[next as int]));
                    let version = seq![self.source[next as int]];
                    let id = seq![self.source[next as int + 1]];
                    let words = self.source.subrange(p.pos as int, next as int);
                    assert(a1.drop_last() =~= p.args);
                    assert(a2.drop_last() =~= a1);
                    assert(q.args.drop_last() =~= a2);
                    assert(body_words(self.order, a1) == body_words(self.order, p.args) + words);
                    assert(body_words(self.order, a2) == body_words(self.order, a1) + version);
                    assert(body_words(self.order, q.args) == body_words(self.order, a2) + id);
                    assert(sub =~= words + version + id);
                    assert(body_words(self.order, q.args) =~= body_words(self.order, p.args) + sub);
                } else {
                    assert(q.args.drop_last() =~= p.args);
                    assert(seq![self.source[p.pos as int]] =~= sub);
                }
            },
            Type::Fd => {
                assert(q.args.drop_last() =~= p.args);
                assert(sub =~= Seq::<u32>::empty());
            },
            _ => {
                lemma_word_int(self.source[p.pos as int]);
                assert(q.args.drop_last() =~= p.args);
                assert(seq![self.source[p.pos as int]] =~= sub);
            },
        }
    }

    proof fn lemma_run_words(self, start: Progress, n: nat)
        requires
            n <= self.decl.args@.len(),
            self.run(start, n).1 is None,
            self.clean(start, n),
            start.pos <= self.source.len(),
        ensures
            ({
                let p = self.run(start, n).0;
                &&& start.pos <= p.pos <= self.source.len()
                &&& body_words(self.order, p.args) == body_words(self.order, start.args)
                    + self.source.subrange(start.pos as int, p.pos as int)
            }),
        decreases n,
    {
        if n == 0 {
            assert(self.source.subrange(start.pos as int, start.pos as int) =~= Seq::<
                u32,
            >::empty());
            assert(body_words(self.order, start.args) + Seq::<u32>::empty() =~= body_words(
                self.order,
                start.args,
            ));
        } else {
            let m = (n - 1) as nat;
            self.lemma_run_words(start, m);
            let p = self.run(start, m).0;
            let typ = self.decl.args@[m as int].typ;
            self.lemma_step_words(p, typ);
            let q = self.arg_step(p, typ)->Ok_0;
            assert(self.source.subrange(start.pos as int, p.pos as int) + self.source.subrange(
                p.pos as int,
                q.pos as int,
            ) =~= self.source.subrange(start.pos as int, q.pos as int));
        }
    }

    /// What has been found stays when more is found.
    pub proof fn lemma_run_extends(self, start: Progress, i: nat, n: nat)
        requires
            i <= n,
            self.run(start, n).1 is None,
        ensures
            self.run(start, i).1 is None,
            self.run(start, i).0.args.len() <= self.run(start, n).0.args.len(),
            forall|k: int|
                0 <= k < self.run(start, i).0.args.len() ==> #[trigger] self.run(
                    start,
                    n,
                ).0.args[k] == self.run(start, i).0.args[k],
        decreases n - i,
    {
        if i < n {
            self.lemma_run_extends(start, i, (n - 1) as nat);
        }
    }

    /// Before the new object, there is one argument for each that is declared, and the shortcut to
    /// the new object stands where the taking apart stands.
    pub proof fn lemma_before_new_id(self, start: Progress, i: nat, k: nat)
        requires
            i <= k < self.decl.args@.len(),
            start.pos == 2,
            start.args.len() == 0,
            self.run(start, k).1 is None,
            forall|j: int| 0 <= j < k ==> #[trigger] self.decl.args@[j].typ != Type::NewId,
        ensures
            self.run(start, i).1 is None,
            self.run(start, i).0.args.len() == i,
            new_id_pos(self.decl, self.source, 0, 2) == new_id_pos(
                self.decl,
                self.source,
                i,
                self.run(start, i).0.pos,
            ),
        decreases i,
    {
        self.lemma_run_extends(start, i, k);
        if i > 0 {
            self.lemma_before_new_id(start, (i - 1) as nat, k);
            assert(self.decl.args@[i - 1].typ != Type::NewId);
        }
    }
}

/// A message that is taken apart and put together again is the message that it was, where runs of
/// bytes are filled up with zeros and its header gives a size in whole words.
pub proof fn law_marshal_of_demarshal(wire: Wire, start: Progress)
    requires
        start.pos == 2,
        start.args == Seq::<ArgDataV>::empty(),
        2 <= wire.source.len() <= MAX_WORDS_OUT,
        header_of(wire.source).size == 4 * wire.source.len(),
        wire.demarshalled(start).1 is None,
        wire.clean(start, wire.decl.args@.len()),
    ensures
        ({
            let body = body_words(wire.order, wire.demarshalled(start).0.args);
            &&& body == wire.source.skip(2)
            &&& sized(header_of(wire.source), body) == wire.source
        }),
{
    wire.lemma_run_words(start, wire.decl.args@.len());
    let body = body_words(wire.order, wire.demarshalled(start).0.args);
    assert(body =~= wire.source.skip(2));
    law_header_words_round_trip(wire.source);
    let header = header_of(wire.source);
    assert((MessageHeader { size: (4 * (body.len() + 2)) as u16, ..header }) == header);
    assert(sized(header, body) =~= wire.source);
}

/// The shortcut to the id of a new object finds the id that the taking apart finds.
pub proof fn law_find_new_id_agrees(wire: Wire, start: Progress, k: int)
    requires
        start.pos == 2,
        start.args == Seq::<ArgDataV>::empty(),
        wire.decl.new_id_interface is Some,
        wire.demarshalled(start).1 is None,
        0 <= k < wire.decl.args@.len(),
        wire.decl.args@[k].typ == Type::NewId,
        forall|j: int| 0 <= j < k ==> #[trigger] wire.decl.args@[j].typ != Type::NewId,
    ensures
        new_id_pos(wire.decl, wire.source, 0, 2) is Some,
        ({
            let id = wire.source[new_id_pos(wire.decl, wire.source, 0, 2)->0 as int];
            let arg = wire.demarshalled(start).0.args[k];
            ||| arg == ArgDataV::NewId { id, interface: wire.decl.new_id_interface->0 }
            ||| arg == ArgDataV::Object(id)
        }),
{
    let n = wire.decl.args@.len();
    wire.lemma_run_extends(start, k as nat, n);
    wire.lemma_run_extends(start, (k + 1) as nat, n);
    wire.lemma_before_new_id(start, k as nat, k as nat);
    assert(wire.run(start, (k + 1) as nat).0.args.len() == k + 1);
    assert(wire.run(start, n).0.args[k] == wire.run(start, (k + 1) as nat).0.args[k]);
}

/// File descriptors are neither lost nor made while a message is taken apart, and keep their order,
/// whether or not it succeeds.
pub proof fn law_demarshal_keeps_fds(wire: Wire, start: Progress)
    ensures
        ({
            let p = wire.demarshalled(start).0;
            p.taken + p.left == start.taken + start.left
        }),
{
    lemma_run_keeps_fds(wire, start, wire.decl.args@.len());
}

proof fn lemma_run_keeps_fds(wire: Wire, start: Progress, n: nat)
    ensures
        ({
            let p = wire.run(start, n).0;
            p.taken + p.left == start.taken + start.left
        }),
    decreases n,
{
    if n > 0 {
        lemma_run_keeps_fds(wire, start, (n - 1) as nat);
        let p = wire.run(start, (n - 1) as nat).0;
        let q = wire.run(start, n).0;
        assert(q.taken + q.left =~= p.taken + p.left);
    }
}

/// Whether a message is a whole request to bind a global, word by word: behind the header stand the
/// number of the global, the length of the name of an interface with the zero byte that ends it, the
/// bytes of that name, filled up to whole words, a version, and the id of the new object.
pub open spec fn is_bind_request(
    wire: Wire,
    number: u32,
    name: Seq<char>,
    version: u32,
    id: u32,
) -> bool {
    let text = encode_utf8(name).push(0);
    let n = (text.len() as int + 3) / 4;
    &&& wire.decl.special == Some(SpecialMessage::WlRegistryBind)
    &&& wire.decl.new_id_interface is None
    &&& wire.decl.args@.len() == 2
    &&& wire.decl.args@[0].typ is Uint
    &&& wire.decl.args@[1].typ is NewId
    &&& !encode_utf8(name).contains(0)
    &&& wire.source.len() == 6 + n
    &&& wire.source[2] == number
    &&& wire.source[3] == text.len()
    &&& words_bytes(wire.order, wire.source.subrange(4, 4 + n)).take(text.len() as int) == text
    &&& wire.source[4 + n] == version
    &&& wire.source[5 + n] == id
}

proof fn lemma_bind_request(
    wire: Wire,
    start: Progress,
    number: u32,
    name: Seq<char>,
    version: u32,
    id: u32,
)
    requires
        is_bind_request(wire, number, name, version, id),
        start.pos == 2,
        start.args == Seq::<ArgDataV>::empty(),
    ensures
        ({
            let p = Progress { args: seq![ArgDataV::Uint(number)], pos: 3, ..start };
            &&& wire.run(start, 2) == match wire.bind_step(p) {
                Ok(q) => (q, None),
                Err(e) => (p, Some(e)),
            }
            &&& string_at(wire.order, wire.source, 3) == Ok::<(Seq<u8>, nat), DemarshalError>(
                (encode_utf8(name), (wire.source.len() - 2) as nat),
            )
            &&& utf8_text(encode_utf8(name)) == Some(name)
        }),
{
    let text = encode_utf8(name).push(0);
    let n = (text.len() as int + 3) / 4;
    encode_utf8_valid_utf8(name);
    encode_utf8_decode_utf8(name);
    assert(text.drop_last() =~= encode_utf8(name));
    assert(array_len(text.len() as int) == n);
    assert(bytes_at(wire.order, wire.source, 3) == Some(text));
    let p = Progress { args: seq![ArgDataV::Uint(number)], pos: 3, ..start };
    assert(start.args.push(ArgDataV::Uint(number)) =~= p.args);
    assert(wire.run(start, 0) == (start, None::<DemarshalError>));
    assert(wire.run(start, 1) == (p, None::<DemarshalError>));
}

/// A request to bind an active global, in any version up to the limit, with an id that can be added,
/// is taken apart into the number of the global, the name of its interface, the version that was asked
/// for and the new object, which is live from then on and has that interface. Nothing else changes.
pub proof fn law_bind_makes_the_object(
    wire: Wire,
    start: Progress,
    k: int,
    number: u32,
    version: u32,
    id: u32,
)
    requires
        wire.actives.wf(),
        0 <= k < wire.actives.map@.len(),
        wire.actives.get(wire.actives.map@[k]).parent is None,
        is_bind_request(wire, number, wire.actives.get(wire.actives.map@[k]).name@, version, id),
        version <= wire.actives.get(wire.actives.map@[k]).limited_version->0,
        start.pos == 2,
        start.args == Seq::<ArgDataV>::empty(),
        start.ids.add_error(id) is None,
    ensures
        ({
            let interface = wire.actives.map@[k];
            let (p, error) = wire.demarshalled(start);
            &&& error is None
            &&& p.args == seq![
                ArgDataV::Uint(number),
                ArgDataV::String(encode_utf8(wire.actives.get(interface).name@)),
                ArgDataV::Uint(version),
                ArgDataV::NewId { id, interface },
            ]
            &&& p.ids.lookup(id) == Some(interface)
            &&& forall|other: u32|
                other != id ==> #[trigger] p.ids.lookup(other) == start.ids.lookup(other)
            &&& p.taken == start.taken
            &&& p.left == start.left
        }),
{
    let interface = wire.actives.map@[k];
    let name = wire.actives.get(interface).name@;
    law_active_is_found(wire.actives, k, name);
    lemma_bind_request(wire, start, number, name, version, id);
    let (p, error) = wire.demarshalled(start);
    assert(p.args =~= seq![
        ArgDataV::Uint(number),
        ArgDataV::String(encode_utf8(name)),
        ArgDataV::Uint(version),
        ArgDataV::NewId { id, interface },
    ]);
    assert forall|other: u32| other != id implies #[trigger] p.ids.lookup(other)
        == start.ids.lookup(other) by {
        law_added_is_found(start.ids, id, interface, other);
    }
    law_added_is_found(start.ids, id, interface, id);
}

/// A request to bind an active global in a version above the limit is refused, and makes no object.
pub proof fn law_bind_above_the_limit_is_refused(
    wire: Wire,
    start: Progress,
    k: int,
    number: u32,
    version: u32,
    id: u32,
)
    requires
        wire.actives.wf(),
        0 <= k < wire.actives.map@.len(),
        wire.actives.get(wire.actives.map@[k]).parent is None,
        is_bind_request(wire, number, wire.actives.get(wire.actives.map@[k]).name@, version, id),
        version > wire.actives.get(wire.actives.map@[k]).limited_version->0,
        start.pos == 2,
        start.args == Seq::<ArgDataV>::empty(),
    ensures
        wire.demarshalled(start).1 == Some(DemarshalError::VersionTooHigh),
        wire.demarshalled(start).0.ids == start.ids,
{
    let name = wire.actives.get(wire.actives.map@[k]).name@;
    law_active_is_found(wire.actives, k, name);
    lemma_bind_request(wire, start, number, name, version, id);
}

/// A request to bind what is no active interface, or an active one that is not global, or with an id
/// that cannot be added, is refused, and makes no object.
pub proof fn law_other_binds_are_refused(
    wire: Wire,
    start: Progress,
    number: u32,
    name: Seq<char>,
    version: u32,
    id: u32,
)
    requires
        wire.actives.wf(),
        is_bind_request(wire, number, name, version, id),
        start.pos == 2,
        start.args == Seq::<ArgDataV>::empty(),
    ensures
        ({
            let a = wire.actives;
            let (p, error) = wire.demarshalled(start);
            &&& (forall|k: int|
                0 <= k < a.map@.len() ==> a.get(#[trigger] a.map@[k]).name@ != name) ==> error == Some(
                DemarshalError::NoSuchInterface,
            )
            &&& forall|k: int|
                0 <= k < a.map@.len() && a.get(#[trigger] a.map@[k]).name@ == name && a.get(
                    a.map@[k],
                ).parent is Some ==> error == Some(DemarshalError::NotGlobal)
            &&& start.ids.add_error(id) matches Some(e) ==> (forall|k: int|
                0 <= k < a.map@.len() && a.get(#[trigger] a.map@[k]).name@ == name && a.get(
                    a.map@[k],
                ).parent is None && version <= a.get(a.map@[k]).limited_version->0 ==> error == Some(
                    DemarshalError::Id(e),
                ))
            &&& error is Some ==> p.ids == start.ids
        }),
{
    let a = wire.actives;
    lemma_bind_request(wire, start, number, name, version, id);
    let names = names_at(a.protocols@, a.map@);
    lemma_name_index(names, name);
    if let Some(k) = name_index(names, name) {
        assert(a.get(a.map@[k]).name@ == name);
    }
    let (p, error) = wire.demarshalled(start);
    assert forall|k: int|
        0 <= k < a.map@.len() && a.get(#[trigger] a.map@[k]).name@ == name implies a.named(name)
        == Some(a.map@[k]) by {
        law_active_is_found(a, k, name);
    }
}

} // verus!
