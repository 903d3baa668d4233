//! How the arguments of a message lie in its words.

use crate::args::{body_words, ArgDataV};
use crate::basics::{bytes_words, law_bytes_through_words, words_bytes, ByteOrder, Fd};
use crate::chunk::{array_len, array_words, i32_word, padded};
use crate::map::law_added_is_found;
use crate::message::{bytes_at, new_id_pos, text_of, DemarshalError, Progress, Wire};
use crate::protocol::{InterfaceId, Message, SpecialMessage, Type};
use vstd::prelude::*;

verus! {

/// Whether some words are the length of a run of bytes, and then those bytes, in as many words as
/// they need.
pub open spec fn holds_bytes(order: ByteOrder, words: Seq<u32>, bytes: Seq<u8>) -> bool {
    let all = words_bytes(order, words.skip(1));
    &&& words.len() > 0
    &&& words[0] == bytes.len()
    &&& bytes.len() <= all.len() < bytes.len() + 4
    &&& forall|i: int| 0 <= i < bytes.len() ==> #[trigger] all[i] == bytes[i]
}

/// Whether some words hold an argument: a number with a sign as its two's complement, a text with a
/// zero byte behind it, and nothing for a file descriptor.
pub open spec fn holds(order: ByteOrder, words: Seq<u32>, arg: ArgDataV) -> bool {
    match arg {
        ArgDataV::Int(i) => words.len() == 1 && (words[0] == i || words[0] == i + 0x1_0000_0000),
        ArgDataV::Fixed(i) => words.len() == 1 && (words[0] == i || words[0] == i
            + 0x1_0000_0000),
        ArgDataV::Uint(u) => words == seq![u],
        ArgDataV::Object(u) => words == seq![u],
        ArgDataV::NewId { id, .. } => words == seq![id],
        ArgDataV::String(text) => holds_bytes(order, words, text + seq![0u8]),
        ArgDataV::Array(bytes) => holds_bytes(order, words, bytes),
        ArgDataV::Fd { .. } => words.len() == 0,
    }
}

/// Whether the bytes that follow a run of bytes in its last word are zero.
pub open spec fn zeros_follow(order: ByteOrder, words: Seq<u32>) -> bool {
    let all = words_bytes(order, words.skip(1));
    forall|i: int| words[0] <= i < all.len() ==> #[trigger] all[i] == 0
}

proof fn lemma_array_held(order: ByteOrder, bytes: Seq<u8>)
    requires
        bytes.len() <= u32::MAX,
    ensures
        holds_bytes(order, array_words(order, bytes), bytes),
        zeros_follow(order, array_words(order, bytes)),
{
    let words = array_words(order, bytes);
    assert(words.skip(1) =~= bytes_words(order, padded(bytes)));
    law_bytes_through_words(order, padded(bytes));
}

proof fn lemma_int_words(i: i32)
    ensures
        i32_word(i) == i || i32_word(i) == i + 0x1_0000_0000,
{
    assert(i >= 0 ==> (i as u32) == i) by (bit_vector);
    assert(i < 0 ==> (i as u32) == i + 0x1_0000_0000) by (bit_vector);
}

proof fn lemma_word_ints(w: u32, i: i32)
    requires
        w == i || w == i + 0x1_0000_0000,
    ensures
        w as i32 == i,
{
    assert(w as i32 == i) by (bit_vector)
        requires
            w == i || w == i + 0x1_0000_0000,
    ;
}

/// The words that an argument is written as hold it, with zeros behind a run of bytes.
pub proof fn law_arguments_are_laid_out(order: ByteOrder, arg: ArgDataV)
    requires
        arg matches ArgDataV::String(text) ==> text.len() < u32::MAX,
        arg matches ArgDataV::Array(bytes) ==> bytes.len() <= u32::MAX,
    ensures
        holds(order, arg.words(order), arg),
        arg is String || arg is Array ==> zeros_follow(order, arg.words(order)),
{
    match arg {
        ArgDataV::Int(i) => lemma_int_words(i),
        ArgDataV::Fixed(i) => lemma_int_words(i),
        ArgDataV::String(text) => {
            lemma_array_held(order, text.push(0));
            assert(text.push(0) =~= text + seq![0u8]);
        },
        ArgDataV::Array(bytes) => lemma_array_held(order, bytes),
        _ => {},
    }
}

/// The arguments of a message are written one behind another.
pub proof fn law_arguments_follow_each_other(
    order: ByteOrder,
    first: Seq<ArgDataV>,
    rest: Seq<ArgDataV>,
    arg: ArgDataV,
)
    ensures
        body_words(order, first + rest) == body_words(order, first) + body_words(order, rest),
        body_words(order, seq![arg]) == arg.words(order),
    decreases rest.len(),
{
    reveal_with_fuel(body_words, 2);
    assert(seq![arg].drop_last() =~= Seq::<ArgDataV>::empty());
    assert(body_words(order, seq![arg]) =~= arg.words(order));
    if rest.len() == 0 {
        assert(first + rest =~= first);
        assert(body_words(order, first) + body_words(order, rest) =~= body_words(order, first));
    } else {
        law_arguments_follow_each_other(order, first, rest.drop_last(), arg);
        assert((first + rest).drop_last() =~= first + rest.drop_last());
        assert(body_words(order, first + rest) =~= body_words(order, first) + body_words(
            order,
            rest,
        ));
    }
}

proof fn lemma_bytes_found(
    order: ByteOrder,
    source: Seq<u32>,
    pos: nat,
    words: Seq<u32>,
    bytes: Seq<u8>,
)
    requires
        pos + words.len() <= source.len(),
        source.subrange(pos as int, (pos + words.len()) as int) == words,
        holds_bytes(order, words, bytes),
    ensures
        bytes_at(order, source, pos) == Some(bytes),
        words.len() == 1 + array_len(bytes.len() as int),
{
    let sub = source.subrange(pos as int, (pos + words.len()) as int);
    assert(sub[0] == source[pos as int]);
    let n = bytes.len() as int;
    assert(words_bytes(order, words.skip(1)).len() == 4 * (words.len() - 1));
    assert(words.len() == 1 + array_len(n));
    assert(source.subrange(pos as int + 1, pos + 1 + array_len(n)) =~= words.skip(1));
    assert(words_bytes(order, words.skip(1)).take(n) =~= bytes);
}

/// An argument that some words hold is read from those words: it is the next argument, and what
/// follows the words is next. A file descriptor is the next of those that have come with the
/// message. (A new object is another matter.)
pub proof fn law_arguments_are_read(wire: Wire, p: Progress, words: Seq<u32>, arg: ArgDataV)
    requires
        p.pos + words.len() <= wire.source.len(),
        wire.source.subrange(p.pos as int, (p.pos + words.len()) as int) == words,
        holds(wire.order, words, arg),
        !(arg is NewId),
        arg matches ArgDataV::String(text) ==> forall|i: int|
            0 <= i < text.len() ==> #[trigger] text[i] != 0,
        arg matches ArgDataV::Fd { index } ==> index == p.taken.len() && p.left.len() > 0,
    ensures
        wire.arg_step(p, arg.typ()) == Ok::<Progress, DemarshalError>(
            if arg is Fd {
                Progress {
                    args: p.args.push(arg),
                    taken: p.taken.push(p.left[0]),
                    left: p.left.skip(1),
                    ..p
                }
            } else {
                Progress { args: p.args.push(arg), pos: p.pos + words.len(), ..p }
            },
        ),
{
    let sub = wire.source.subrange(p.pos as int, (p.pos + words.len()) as int);
    if words.len() > 0 {
        assert(sub[0] == wire.source[p.pos as int]);
    }
    match arg {
        ArgDataV::Int(i) => lemma_word_ints(words[0], i),
        ArgDataV::Fixed(i) => lemma_word_ints(words[0], i),
        ArgDataV::Uint(u) => {
            assert(words[0] == u);
        },
        ArgDataV::Object(u) => {
            assert(words[0] == u);
        },
        ArgDataV::String(text) => {
            let bytes = text + seq![0u8];
            lemma_bytes_found(wire.order, wire.source, p.pos, words, bytes);
            assert(bytes.drop_last() =~= text);
            assert(!text.contains(0));
            assert(text_of(bytes) == Some(text));
        },
        ArgDataV::Array(bytes) => {
            lemma_bytes_found(wire.order, wire.source, p.pos, words, bytes);
        },
        _ => {},
    }
}

/// What cannot be read is an error: an argument that begins behind the last word, a text that no zero
/// byte ends, and a file descriptor that has not come.
pub proof fn law_missing_arguments_are_errors(wire: Wire, p: Progress, typ: Type)
    ensures
        p.pos >= wire.source.len() && !(typ is Fd) && !(typ is NewId) ==> wire.arg_step(p, typ)
            == Err::<Progress, DemarshalError>(DemarshalError::Truncated),
        p.pos >= wire.source.len() && wire.decl.new_id_interface is Some ==> wire.arg_step(
            p,
            Type::NewId,
        ) == Err::<Progress, DemarshalError>(DemarshalError::Truncated),
        p.pos < wire.source.len() && 4 * (wire.source.len() - p.pos - 1) < wire.source[p.pos as int]
            && (typ is String || typ is Array) ==> wire.arg_step(p, typ) == Err::<
            Progress,
            DemarshalError,
        >(DemarshalError::Truncated),
        p.left.len() == 0 ==> wire.arg_step(p, Type::Fd) == Err::<Progress, DemarshalError>(
            DemarshalError::NotEnoughFds,
        ),
        p.pos < wire.source.len() && wire.source[p.pos as int] == 0 ==> wire.arg_step(
            p,
            Type::String,
        ) == Err::<Progress, DemarshalError>(DemarshalError::BadString),
{
    if p.pos < wire.source.len() && wire.source[p.pos as int] == 0 {
        assert(array_len(0) == 0);
        let none = wire.source.subrange(p.pos as int + 1, p.pos + 1 + array_len(0));
        assert(words_bytes(wire.order, none).take(0) =~= Seq::<u8>::empty());
    }
}

/// Whether the words of a message hold arguments one behind another: number `i` from word `at[i]` on.
pub open spec fn holds_all(wire: Wire, args: Seq<ArgDataV>, at: Seq<nat>) -> bool {
    &&& args.len() == wire.decl.args@.len()
    &&& at.len() == args.len() + 1
    &&& at[0] == 2
    &&& at[args.len() as int] == wire.source.len()
    &&& forall|i: int|
        #![trigger args[i]]
        0 <= i < args.len() ==> at[i] <= at[i + 1] <= wire.source.len()
    &&& forall|i: int|
        0 <= i < args.len() ==> holds(
            wire.order,
            wire.source.subrange(at[i] as int, at[i + 1] as int),
            #[trigger] args[i],
        )
    &&& forall|i: int|
        0 <= i < args.len() ==> (#[trigger] args[i]).typ() == wire.decl.args@[i].typ
}

/// How many of the first `n` arguments are file descriptors.
pub open spec fn fds_before(args: Seq<ArgDataV>, n: int) -> nat {
    args.take(n).filter(|a: ArgDataV| a is Fd).len()
}

proof fn lemma_fds_before(args: Seq<ArgDataV>, n: int)
    requires
        0 <= n < args.len(),
    ensures
        fds_before(args, n + 1) == fds_before(args, n) + (if args[n] is Fd {
            1int
        } else {
            0
        }),
{
    reveal(Seq::filter);
    assert(args.take(n + 1).drop_last() =~= args.take(n));
    assert(args.take(n + 1).last() == args[n]);
}

proof fn lemma_fds_before_all(args: Seq<ArgDataV>, n: int)
    requires
        0 <= n <= args.len(),
    ensures
        fds_before(args, n) <= fds_before(args, args.len() as int),
    decreases args.len() - n,
{
    if n < args.len() {
        lemma_fds_before(args, n);
        lemma_fds_before_all(args, n + 1);
    }
}

proof fn lemma_all_read(wire: Wire, start: Progress, args: Seq<ArgDataV>, at: Seq<nat>, n: nat)
    requires
        n <= args.len(),
        holds_all(wire, args, at),
        is_plain(args),
        fds_before(args, args.len() as int) <= start.left.len(),
        start.pos == 2,
        start.args == Seq::<ArgDataV>::empty(),
        start.taken == Seq::<Fd>::empty(),
    ensures
        wire.run(start, n) == (
            Progress {
                args: args.take(n as int),
                taken: start.left.take(fds_before(args, n as int) as int),
                left: start.left.skip(fds_before(args, n as int) as int),
                pos: at[n as int],
                ids: start.ids,
            },
            None::<DemarshalError>,
        ),
    decreases n,
{
    if n == 0 {
        reveal(Seq::filter);
        assert(args.take(0) =~= Seq::<ArgDataV>::empty());
        assert(fds_before(args, 0) == 0);
        assert(start.left.take(0) =~= start.taken);
        assert(start.left.skip(0) =~= start.left);
        let p = wire.run(start, 0).0;
        assert(p.args =~= args.take(0));
    } else {
        let m = (n - 1) as nat;
        lemma_all_read(wire, start, args, at, m);
        let p = wire.run(start, m).0;
        let arg = args[m as int];
        let f = fds_before(args, m as int) as int;
        lemma_fds_before(args, m as int);
        lemma_fds_before_all(args, n as int);
        assert(at[m as int] <= at[m as int + 1] <= wire.source.len());
        let words = wire.source.subrange(at[m as int] as int, at[n as int] as int);
        assert(holds(wire.order, words, arg));
        assert(arg is Fd ==> p.left.len() > 0);
        assert(p.taken.len() == f);
        law_arguments_are_read(wire, p, words, arg);
        assert(args.take(m as int).push(arg) =~= args.take(n as int));
        if arg is Fd {
            assert(p.left[0] == start.left[f]);
            assert(start.left.take(f).push(start.left[f]) =~= start.left.take(f + 1));
            assert(start.left.skip(f).skip(1) =~= start.left.skip(f + 1));
        }
    }
}

/// Whether no argument is a new object, no text holds a zero byte, and file descriptors are counted
/// from the first on.
pub open spec fn is_plain(args: Seq<ArgDataV>) -> bool {
    forall|i: int| 0 <= i < args.len() ==> match #[trigger] args[i] {
        ArgDataV::NewId { .. } => false,
        ArgDataV::String(text) => forall|j: int| 0 <= j < text.len() ==> #[trigger] text[j] != 0,
        ArgDataV::Fd { index } => index == fds_before(args, i),
        _ => true,
    }
}

/// A message whose words hold the arguments that are declared, one behind another up to the last
/// word, is taken apart into those arguments. It takes the first of the file descriptors, as many as
/// are declared, and nothing else changes.
pub proof fn law_messages_are_read(
    wire: Wire,
    start: Progress,
    args: Seq<ArgDataV>,
    at: Seq<nat>,
)
    requires
        holds_all(wire, args, at),
        is_plain(args),
        fds_before(args, args.len() as int) <= start.left.len(),
        start.pos == 2,
        start.args == Seq::<ArgDataV>::empty(),
        start.taken == Seq::<Fd>::empty(),
    ensures
        ({
            let (p, error) = wire.demarshalled(start);
            let f = fds_before(args, args.len() as int) as int;
            &&& error is None
            &&& p.args == args
            &&& p.taken == start.left.take(f)
            &&& p.left == start.left.skip(f)
            &&& p.ids == start.ids
        }),
{
    lemma_all_read(wire, start, args, at, args.len());
    assert(args.take(args.len() as int) =~= args);
}

/// A message with words behind its last argument is refused.
pub proof fn law_nothing_may_follow(wire: Wire, start: Progress)
    requires
        wire.run(start, wire.decl.args@.len()).1 is None,
    ensures
        wire.demarshalled(start).1 is None <==> wire.run(start, wire.decl.args@.len()).0.pos
            >= wire.source.len(),
        wire.demarshalled(start).1 is Some ==> wire.demarshalled(start).1 == Some(
            DemarshalError::TrailingData,
        ),
{
}

/// A new object whose interface is declared is live from then on, with that interface, and no other
/// object is touched, if its id can be added. If not, the message is refused. A sync request that
/// names an object of the server makes no object.
pub proof fn law_new_objects_become_live(
    wire: Wire,
    p: Progress,
    interface: InterfaceId,
    other: u32,
)
    requires
        wire.decl.new_id_interface == Some(interface),
        p.pos < wire.source.len(),
    ensures
        ({
            let id = wire.source[p.pos as int];
            let sync = wire.decl.special == Some(SpecialMessage::WlDisplaySync) && id
                >= 0xff00_0000;
            let step = wire.arg_step(p, Type::NewId);
            &&& sync ==> step == Ok::<Progress, DemarshalError>(
                Progress { args: p.args.push(ArgDataV::Object(id)), pos: p.pos + 1, ..p },
            )
            &&& !sync && p.ids.add_error(id) is None ==> {
                let q = step->Ok_0;
                &&& step is Ok
                &&& q.args == p.args.push(ArgDataV::NewId { id, interface })
                &&& q.pos == p.pos + 1
                &&& q.taken == p.taken
                &&& q.left == p.left
                &&& q.ids.lookup(id) == Some(interface)
                &&& other != id ==> q.ids.lookup(other) == p.ids.lookup(other)
            }
            &&& !sync && p.ids.add_error(id) is Some ==> step == Err::<Progress, DemarshalError>(
                DemarshalError::Id(p.ids.add_error(id)->0),
            )
        }),
{
    let id = wire.source[p.pos as int];
    if p.ids.add_error(id) is None {
        law_added_is_found(p.ids, id, interface, id);
        law_added_is_found(p.ids, id, interface, other);
    }
}

/// Whether the arguments of a message up to number `k` start at the words `at` says: one word for a
/// number or an object, none for a file descriptor, and for a run of bytes its length and as many
/// words as it needs.
pub open spec fn starts_at(decl: Message, source: Seq<u32>, k: int, at: Seq<nat>) -> bool {
    &&& 0 <= k < decl.args@.len()
    &&& at.len() == k + 1
    &&& at[0] == 2
    &&& forall|i: int| #![trigger decl.args@[i]] 0 <= i < k ==> match decl.args@[i].typ {
        Type::NewId => false,
        Type::Fd => at[i + 1] == at[i],
        Type::String | Type::Array => at[i] < source.len() && at[i + 1] == at[i] + 1 + (
        source[at[i] as int] + 3) / 4,
        _ => at[i + 1] == at[i] + 1,
    }
}

proof fn lemma_starts_at(decl: Message, source: Seq<u32>, k: int, at: Seq<nat>, i: nat)
    requires
        starts_at(decl, source, k, at),
        i <= k,
    ensures
        new_id_pos(decl, source, 0, 2) == new_id_pos(decl, source, i, at[i as int]),
    decreases i,
{
    if i > 0 {
        lemma_starts_at(decl, source, k, at, (i - 1) as nat);
    }
}

/// The id of the new object is found at the word where that argument starts.
pub proof fn law_new_id_is_found(decl: Message, source: Seq<u32>, k: int, at: Seq<nat>)
    requires
        starts_at(decl, source, k, at),
        decl.args@[k].typ is NewId,
    ensures
        at[k] < source.len() ==> new_id_pos(decl, source, 0, 2) == Some(at[k]),
        at[k] >= source.len() ==> new_id_pos(decl, source, 0, 2) is None,
{
    lemma_starts_at(decl, source, k, at, k as nat);
}

/// A text that no zero byte ends, or that holds one before its end, is refused.
pub proof fn law_bad_texts_are_refused(
    wire: Wire,
    p: Progress,
    words: Seq<u32>,
    bytes: Seq<u8>,
    i: int,
)
    requires
        p.pos + words.len() <= wire.source.len(),
        wire.source.subrange(p.pos as int, (p.pos + words.len()) as int) == words,
        holds_bytes(wire.order, words, bytes),
        bytes.len() > 0,
        bytes.last() != 0 || (0 <= i < bytes.len() - 1 && bytes[i] == 0),
    ensures
        wire.arg_step(p, Type::String) == Err::<Progress, DemarshalError>(DemarshalError::BadString),
{
    lemma_bytes_found(wire.order, wire.source, p.pos, words, bytes);
    if 0 <= i < bytes.len() - 1 && bytes[i] == 0 {
        assert(bytes.drop_last()[i] == 0);
    }
}

} // verus!
