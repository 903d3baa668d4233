//! What is to be sent and has not yet been taken by the socket.
//!
//! Words wait in chunks, each of which is sent in one piece together with at most `MAX_FDS_OUT` of
//! the waiting file descriptors. The sending itself is done by the caller: a [`SendJob`] says what
//! to transmit next, and is told whether the socket took it.

use crate::basics::{Fd, MAX_FDS_OUT, MAX_WORDS_OUT};
use crate::chunk::{
    chunk_clear, chunk_drain, chunk_extend, chunk_len, chunk_new, chunk_room, chunk_slice,
    chunk_words, Chunk, CHUNK_SIZE,
};
use crate::header::{msg_length, MessageHeader};
use std::collections::VecDeque;
use vstd::prelude::*;

verus! {

/// The most chunks that are kept for later use.
pub const ALLOWED_EXCESS_CHUNKS: usize = 4;

/// The words and file descriptors that wait to be sent on a socket.
#[derive(Debug)]
pub struct OutBuffer {
    chunks: VecDeque<Box<Chunk>>,
    free_chunks: VecDeque<Box<Chunk>>,
    fds: VecDeque<Fd>,
    flush_every_send: bool,
    wait_for_output_event: bool,
    limit_sends: bool,
}

/// The contents of an [`OutBuffer`].
#[verifier::ext_equal]
pub struct OutBufferV {
    /// The words of the chunks, in the order in which they are to be sent.
    pub chunks: Seq<Seq<u32>>,
    /// How many empty chunks are kept for later use.
    pub free: nat,
    /// The file descriptors, in the order in which they are to be sent.
    pub fds: Seq<Fd>,
    /// Whether everything is sent after each message.
    pub flush_every_send: bool,
    /// Whether the socket has refused a chunk, and has not reported room since.
    pub waiting: bool,
    /// Whether no chunk that is sent may be longer than the longest message.
    pub limit: bool,
}

/// The words of a list of chunks, one chunk after the other.
pub open spec fn flat(chunks: Seq<Seq<u32>>) -> Seq<u32>
    decreases chunks.len(),
{
    if chunks.len() == 0 {
        Seq::empty()
    } else {
        flat(chunks.drop_last()) + chunks.last()
    }
}

/// The first of some file descriptors, as many as travel with one chunk.
pub open spec fn first_fds(fds: Seq<Fd>) -> Seq<Fd> {
    if fds.len() <= MAX_FDS_OUT {
        fds
    } else {
        fds.take(MAX_FDS_OUT as int)
    }
}

/// The file descriptors that are left when the first ones have gone with a chunk.
pub open spec fn later_fds(fds: Seq<Fd>) -> Seq<Fd> {
    if fds.len() <= MAX_FDS_OUT {
        Seq::empty()
    } else {
        fds.skip(MAX_FDS_OUT as int)
    }
}

impl OutBufferV {
    /// The most words that a chunk may hold between two operations.
    pub open spec fn cap(self) -> int {
        if self.limit {
            MAX_WORDS_OUT as int
        } else {
            CHUNK_SIZE as int
        }
    }

    /// What holds at all times: there is a chunk, none is too long, and only the last one can be
    /// empty.
    pub open spec fn capped(self) -> bool {
        &&& self.chunks.len() >= 1
        &&& self.free <= ALLOWED_EXCESS_CHUNKS
        &&& forall|i: int|
            0 <= i < self.chunks.len() ==> (#[trigger] self.chunks[i]).len() <= self.cap()
        &&& forall|i: int| 0 <= i < self.chunks.len() - 1 ==> (#[trigger] self.chunks[i]).len() > 0
    }

    /// What holds between messages: all file descriptors can travel with the chunks that are there,
    /// and where there are no words to send there are no file descriptors either.
    pub open spec fn settled(self) -> bool {
        &&& self.capped()
        &&& self.fds.len() <= MAX_FDS_OUT * self.chunks.len()
        &&& self.chunks.last().len() == 0 ==> self.chunks.len() == 1 && self.fds.len() == 0
    }

    /// What holds when the file descriptors of a message have been queued, and its words have not.
    pub open spec fn queued(self) -> bool {
        &&& self.capped()
        &&& self.fds.len() <= MAX_FDS_OUT * self.chunks.len() + MAX_FDS_OUT
        &&& self.chunks.last().len() == 0 ==> self.chunks.len() == 1 && self.fds.len() <= MAX_FDS_OUT
    }

    /// What holds when the words of a message can be written.
    pub open spec fn relieved(self) -> bool {
        &&& self.capped()
        &&& self.fds.len() <= MAX_FDS_OUT * self.chunks.len()
    }

    /// Whether there are more file descriptors than can travel with the chunks that are there.
    pub open spec fn too_many_fds(self) -> bool {
        self.fds.len() > self.chunks.len() * MAX_FDS_OUT
    }

    /// All words, in the order in which they are to be sent.
    pub open spec fn words(self) -> Seq<u32> {
        flat(self.chunks)
    }

    /// A buffer without words or file descriptors.
    pub open spec fn empty(limit: bool, flush_every_send: bool) -> OutBufferV {
        OutBufferV {
            chunks: seq![Seq::empty()],
            free: 0,
            fds: Seq::empty(),
            flush_every_send,
            waiting: false,
            limit,
        }
    }

    /// The buffer with one more chunk at the end. Where the last chunk is too long to be sent, the
    /// new one takes over its excess.
    pub open spec fn next_started(self) -> OutBufferV {
        let last = self.chunks.last();
        OutBufferV {
            chunks: if self.limit && last.len() > MAX_WORDS_OUT {
                self.chunks.drop_last().push(last.take(MAX_WORDS_OUT as int)).push(
                    last.skip(MAX_WORDS_OUT as int),
                )
            } else {
                self.chunks.push(Seq::empty())
            },
            free: if self.free == 0 {
                0
            } else {
                (self.free - 1) as nat
            },
            ..self
        }
    }

    /// The buffer with words written to the end of its last chunk.
    pub open spec fn appended(self, words: Seq<u32>) -> OutBufferV {
        OutBufferV { chunks: self.chunks.drop_last().push(self.chunks.last() + words), ..self }
    }

    /// The buffer with file descriptors queued.
    pub open spec fn with_fds(self, fds: Seq<Fd>) -> OutBufferV {
        OutBufferV { fds: self.fds + fds, ..self }
    }

    /// The buffer with one more chunk at the end, if there are too many file descriptors.
    pub open spec fn fds_relieved(self) -> OutBufferV {
        if self.too_many_fds() {
            self.next_started()
        } else {
            self
        }
    }

    /// The buffer after a message has been written as it is, filling the last chunk before a new
    /// one is started.
    pub open spec fn raw_written(self, msg: Seq<u32>) -> OutBufferV {
        let room = self.cap() - self.chunks.last().len();
        if room >= msg.len() {
            self.appended(msg)
        } else {
            self.appended(msg.take(room)).next_started().appended(msg.skip(room))
        }
    }

    /// The buffer after a message has been put together from a header and the words of its
    /// arguments. The size in the header is set to the length that the message has.
    pub open spec fn message_written(self, header: MessageHeader, body: Seq<u32>) -> OutBufferV {
        let roomy = if CHUNK_SIZE - self.chunks.last().len() < MAX_WORDS_OUT {
            self.next_started()
        } else {
            self
        };
        let written = roomy.appended(sized(header, body));
        if self.limit && CHUNK_SIZE - written.chunks.last().len() < MAX_WORDS_OUT {
            written.next_started()
        } else {
            written
        }
    }

    /// What is to be transmitted next, if anything: the first chunk, where there are others behind
    /// it or it is forced, and the file descriptors that go with it.
    pub open spec fn next_send(self, force: bool) -> Option<(Seq<u32>, Seq<Fd>)> {
        if (self.chunks.len() > 1 || force) && !self.waiting && self.chunks[0].len() > 0 {
            Some((self.chunks[0], first_fds(self.fds)))
        } else {
            None
        }
    }

    /// The buffer after the first chunk has been taken by the socket.
    pub open spec fn accepted(self) -> OutBufferV {
        OutBufferV {
            chunks: if self.chunks.len() > 1 {
                self.chunks.skip(1)
            } else {
                seq![Seq::empty()]
            },
            free: if self.chunks.len() > 1 && self.free < ALLOWED_EXCESS_CHUNKS {
                self.free + 1
            } else {
                self.free
            },
            fds: later_fds(self.fds),
            ..self
        }
    }

    /// The buffer after the socket has refused the first chunk.
    pub open spec fn refused(self) -> OutBufferV {
        OutBufferV { waiting: true, ..self }
    }
}

/// The words of a message with a header and the words of its arguments.
pub open spec fn sized(header: MessageHeader, body: Seq<u32>) -> Seq<u32> {
    (MessageHeader { size: (4 * (body.len() + 2)) as u16, ..header }).words() + body
}

proof fn lemma_flat_push(chunks: Seq<Seq<u32>>, c: Seq<u32>)
    ensures
        flat(chunks.push(c)) == flat(chunks) + c,
{
    assert(chunks.push(c).drop_last() =~= chunks);
}

proof fn lemma_flat_first(chunks: Seq<Seq<u32>>)
    requires
        chunks.len() >= 1,
    ensures
        flat(chunks) == chunks[0] + flat(chunks.skip(1)),
    decreases chunks.len(),
{
    if chunks.len() == 1 {
        assert(chunks.drop_last() =~= Seq::<Seq<u32>>::empty());
        assert(chunks.skip(1) =~= Seq::<Seq<u32>>::empty());
        assert(flat(chunks) =~= chunks[0] + flat(chunks.skip(1)));
    } else {
        lemma_flat_first(chunks.drop_last());
        assert(chunks.drop_last().skip(1) =~= chunks.skip(1).drop_last());
        assert(chunks.skip(1).last() == chunks.last());
        assert(flat(chunks) =~= chunks[0] + flat(chunks.skip(1)));
    }
}

proof fn lemma_flat_len(chunks: Seq<Seq<u32>>, cap: nat)
    requires
        forall|i: int| 0 <= i < chunks.len() ==> (#[trigger] chunks[i]).len() <= cap,
    ensures
        flat(chunks).len() <= cap * chunks.len(),
    decreases chunks.len(),
{
    if chunks.len() > 0 {
        let front = chunks.drop_last();
        assert forall|i: int| 0 <= i < front.len() implies (#[trigger] front[i]).len() <= cap by {
            assert(front[i] == chunks[i]);
        }
        lemma_flat_len(front, cap);
        assert(cap * chunks.len() == cap * front.len() + cap) by (nonlinear_arith)
            requires
                chunks.len() == front.len() + 1,
        ;
    } else {
        assert(cap * chunks.len() == 0) by (nonlinear_arith)
            requires
                chunks.len() == 0,
        ;
    }
}

proof fn lemma_appended_words(v: OutBufferV, words: Seq<u32>)
    requires
        v.chunks.len() >= 1,
    ensures
        v.appended(words).words() == v.words() + words,
{
    let front = v.chunks.drop_last();
    lemma_flat_push(front, v.chunks.last() + words);
    assert(v.appended(words).words() =~= v.words() + words);
}

proof fn lemma_next_started_words(v: OutBufferV)
    requires
        v.chunks.len() >= 1,
    ensures
        v.next_started().words() == v.words(),
{
    let front = v.chunks.drop_last();
    let last = v.chunks.last();
    if v.limit && last.len() > MAX_WORDS_OUT {
        let a = last.take(MAX_WORDS_OUT as int);
        let b = last.skip(MAX_WORDS_OUT as int);
        lemma_flat_push(front, a);
        lemma_flat_push(front.push(a), b);
        assert(a + b =~= last);
        assert(v.next_started().words() =~= v.words());
    } else {
        lemma_flat_push(v.chunks, Seq::empty());
        assert(v.next_started().words() =~= v.words());
    }
}

/// Writing a message as it is adds its words behind all others, and nothing else.
pub proof fn law_raw_written_in_order(v: OutBufferV, msg: Seq<u32>)
    requires
        v.relieved(),
        msg.len() <= MAX_WORDS_OUT,
    ensures
        v.raw_written(msg).words() == v.words() + msg,
        v.raw_written(msg).fds == v.fds,
{
    let room = v.cap() - v.chunks.last().len();
    assert(v.chunks[v.chunks.len() - 1].len() <= v.cap());
    if room >= msg.len() {
        lemma_appended_words(v, msg);
    } else {
        let a = msg.take(room);
        let b = msg.skip(room);
        lemma_appended_words(v, a);
        lemma_next_started_words(v.appended(a));
        lemma_appended_words(v.appended(a).next_started(), b);
        assert(a + b =~= msg);
        assert(v.words() + a + b =~= v.words() + msg);
    }
}

/// Putting a message together adds its words behind all others, and nothing else.
pub proof fn law_message_written_in_order(v: OutBufferV, header: MessageHeader, body: Seq<u32>)
    requires
        v.relieved(),
        body.len() + 2 <= MAX_WORDS_OUT,
    ensures
        v.message_written(header, body).words() == v.words() + sized(header, body),
        v.message_written(header, body).fds == v.fds,
{
    let roomy = if CHUNK_SIZE - v.chunks.last().len() < MAX_WORDS_OUT {
        lemma_next_started_words(v);
        v.next_started()
    } else {
        v
    };
    lemma_appended_words(roomy, sized(header, body));
    lemma_next_started_words(roomy.appended(sized(header, body)));
}

/// What the socket takes are the first words and the first file descriptors; the rest stays, in
/// order.
pub proof fn law_accepted_takes_the_first(v: OutBufferV, force: bool)
    requires
        v.capped(),
        v.next_send(force) is Some,
    ensures
        v.words() == (v.next_send(force)->0).0 + v.accepted().words(),
        v.fds == (v.next_send(force)->0).1 + v.accepted().fds,
        (v.next_send(force)->0).0.len() > 0,
        (v.next_send(force)->0).1.len() <= MAX_FDS_OUT,
{
    lemma_flat_first(v.chunks);
    if v.chunks.len() == 1 {
        assert(v.chunks.skip(1) =~= Seq::<Seq<u32>>::empty());
        lemma_flat_push(Seq::empty(), Seq::empty());
        assert(seq![Seq::<u32>::empty()] =~= Seq::<Seq<u32>>::empty().push(Seq::empty()));
        assert(v.accepted().words() =~= Seq::<u32>::empty());
    }
    assert(first_fds(v.fds) + later_fds(v.fds) =~= v.fds);
}

/// One more chunk is always enough for the file descriptors of one message, and it is never
/// started behind an empty one.
pub proof fn law_one_chunk_relieves(v: OutBufferV)
    requires
        v.queued(),
    ensures
        v.fds_relieved().relieved(),
        !v.fds_relieved().too_many_fds(),
        v.fds_relieved().words() == v.words(),
        v.fds_relieved().fds == v.fds,
{
    if v.too_many_fds() {
        lemma_next_started_words(v);
        assert(v.chunks[v.chunks.len() - 1].len() <= v.cap());
        lemma_next_started_capped(v);
    }
}

/// Writing a message leaves no file descriptors behind that have no words to travel with.
pub proof fn law_written_is_settled(v: OutBufferV, msg: Seq<u32>, header: MessageHeader, body: Seq<u32>)
    requires
        v.relieved(),
    ensures
        0 < msg.len() <= MAX_WORDS_OUT ==> v.raw_written(msg).settled(),
        body.len() + 2 <= MAX_WORDS_OUT ==> v.message_written(header, body).settled(),
{
    let n = v.chunks.len();
    assert(v.chunks[n - 1].len() <= v.cap());
    if 0 < msg.len() <= MAX_WORDS_OUT {
        let room = v.cap() - v.chunks.last().len();
        if room >= msg.len() {
            lemma_appended_capped(v, msg);
        } else {
            let a = v.appended(msg.take(room));
            lemma_appended_capped(v, msg.take(room));
            assert(a.chunks.last().len() == v.cap());
            lemma_next_started_capped(a);
            let b = a.next_started();
            assert(b.chunks.last().len() == 0);
            lemma_appended_capped(b, msg.skip(room));
        }
    }
    if body.len() + 2 <= MAX_WORDS_OUT {
        let words = sized(header, body);
        assert(words.len() == body.len() + 2);
        let roomy = if CHUNK_SIZE - v.chunks.last().len() < MAX_WORDS_OUT {
            lemma_next_started_capped(v);
            v.next_started()
        } else {
            v
        };
        assert(roomy.relieved());
        let w = roomy.appended(words);
        if v.limit {
            let m = roomy.chunks.len();
            assert(roomy.chunks[m - 1].len() <= MAX_WORDS_OUT);
            if CHUNK_SIZE - w.chunks.last().len() < MAX_WORDS_OUT {
                let s = w.next_started();
                assert forall|i: int| 0 <= i < s.chunks.len() implies (
                #[trigger] s.chunks[i]).len() <= s.cap() by {
                    if i < m - 1 {
                        assert(s.chunks[i] == roomy.chunks[i]);
                    }
                }
                assert forall|i: int| 0 <= i < s.chunks.len() - 1 implies (
                #[trigger] s.chunks[i]).len() > 0 by {
                    if i < m - 1 {
                        assert(s.chunks[i] == roomy.chunks[i]);
                    }
                }
                assert(s.settled());
            } else {
                lemma_appended_capped(roomy, words);
            }
        } else {
            lemma_appended_capped(roomy, words);
        }
    }
}

proof fn lemma_appended_capped(v: OutBufferV, words: Seq<u32>)
    requires
        v.capped(),
        v.chunks.last().len() + words.len() <= v.cap(),
    ensures
        v.appended(words).capped(),
        v.appended(words).chunks.len() == v.chunks.len(),
        v.appended(words).chunks.last() == v.chunks.last() + words,
{
    let a = v.appended(words);
    assert forall|i: int| 0 <= i < a.chunks.len() implies (#[trigger] a.chunks[i]).len()
        <= a.cap() by {
        if i < v.chunks.len() - 1 {
            assert(a.chunks[i] == v.chunks[i]);
        }
    }
    assert forall|i: int| 0 <= i < a.chunks.len() - 1 implies (#[trigger] a.chunks[i]).len()
        > 0 by {
        assert(a.chunks[i] == v.chunks[i]);
    }
}

proof fn lemma_next_started_capped(v: OutBufferV)
    requires
        v.capped(),
        v.chunks.last().len() > 0,
    ensures
        v.next_started().capped(),
        v.next_started().chunks == v.chunks.push(Seq::empty()),
{
    let s = v.next_started();
    assert(v.chunks[v.chunks.len() - 1].len() <= v.cap());
    assert forall|i: int| 0 <= i < s.chunks.len() implies (#[trigger] s.chunks[i]).len()
        <= s.cap() by {
        if i < v.chunks.len() {
            assert(s.chunks[i] == v.chunks[i]);
        }
    }
    assert forall|i: int| 0 <= i < s.chunks.len() - 1 implies (#[trigger] s.chunks[i]).len()
        > 0 by {
        assert(s.chunks[i] == v.chunks[i]);
    }
}

proof fn lemma_accepted_keeps(v: OutBufferV)
    requires
        v.capped(),
    ensures
        v.accepted().capped(),
        v.settled() ==> v.accepted().settled(),
        v.queued() ==> v.accepted().queued(),
{
    let a = v.accepted();
    if v.chunks.len() > 1 {
        assert forall|i: int| 0 <= i < a.chunks.len() implies (#[trigger] a.chunks[i]).len()
            <= a.cap() by {
            assert(a.chunks[i] == v.chunks[i + 1]);
        }
        assert forall|i: int| 0 <= i < a.chunks.len() - 1 implies (#[trigger] a.chunks[i]).len()
            > 0 by {
            assert(a.chunks[i] == v.chunks[i + 1]);
        }
        assert(a.chunks.last() == v.chunks.last());
    }
}

/// The words of a list of boxed chunks.
pub open spec fn chunk_views(chunks: Seq<Box<Chunk>>) -> Seq<Seq<u32>> {
    Seq::new(chunks.len(), |i: int| chunk_words(*chunks[i]))
}

impl View for OutBuffer {
    type V = OutBufferV;

    closed spec fn view(&self) -> OutBufferV {
        OutBufferV {
            chunks: chunk_views(self.chunks@),
            free: self.free_chunks@.len(),
            fds: self.fds@,
            flush_every_send: self.flush_every_send,
            waiting: self.wait_for_output_event,
            limit: self.limit_sends,
        }
    }
}

/// What a message is sent as: word for word, or put together from a header and the words of its
/// arguments.
#[derive(Debug)]
pub enum Payload {
    Raw(Vec<u32>),
    Marshalled(MessageHeader, Vec<u32>),
}

/// The contents of a [`Payload`].
#[verifier::ext_equal]
pub enum PayloadV {
    Raw(Seq<u32>),
    Marshalled(MessageHeader, Seq<u32>),
}

impl View for Payload {
    type V = PayloadV;

    open spec fn view(&self) -> PayloadV {
        match self {
            Payload::Raw(msg) => PayloadV::Raw(msg@),
            Payload::Marshalled(header, body) => PayloadV::Marshalled(*header, body@),
        }
    }
}

impl PayloadV {
    /// Whether the message has a length that a message can have, and says so in its header where it
    /// is sent word for word.
    pub open spec fn fits(self) -> bool {
        match self {
            PayloadV::Raw(msg) => msg_length(msg) == Some(msg.len() as int) && msg.len()
                <= MAX_WORDS_OUT,
            PayloadV::Marshalled(_, body) => body.len() + 2 <= MAX_WORDS_OUT,
        }
    }

    /// The words of the message.
    pub open spec fn words(self) -> Seq<u32> {
        match self {
            PayloadV::Raw(msg) => msg,
            PayloadV::Marshalled(header, body) => sized(header, body),
        }
    }
}

impl OutBufferV {
    /// The buffer after a message has been written.
    pub open spec fn written(self, payload: PayloadV) -> OutBufferV {
        match payload {
            PayloadV::Raw(msg) => self.raw_written(msg),
            PayloadV::Marshalled(header, body) => self.message_written(header, body),
        }
    }
}

impl OutBuffer {
    /// Whether all chunks that are kept for later use are empty.
    pub closed spec fn wf(self) -> bool {
        forall|i: int|
            0 <= i < self.free_chunks@.len() ==> chunk_words(*(#[trigger] self.free_chunks@[i])).len()
                == 0
    }

    /// A buffer without words or file descriptors.
    pub fn new(limit_sends: bool, flush_every_send: bool) -> (r: OutBuffer)
        ensures
            r.wf(),
            r@ == OutBufferV::empty(limit_sends, flush_every_send),
            r@.settled(),
    {
        let mut chunks: VecDeque<Box<Chunk>> = VecDeque::new();
        chunks.push_back(Box::new(chunk_new()));
        let r = OutBuffer {
            chunks,
            free_chunks: VecDeque::new(),
            fds: VecDeque::with_capacity(2 * MAX_FDS_OUT),
            flush_every_send,
            wait_for_output_event: false,
            limit_sends,
        };
        assert(r@.chunks =~= seq![Seq::<u32>::empty()]);
        r
    }

    fn start_next_chunk(&mut self)
        requires
            old(self).wf(),
            old(self)@.chunks.len() >= 1,
        ensures
            final(self).wf(),
            final(self)@ == old(self)@.next_started(),
    {
        let ghost before = self@;
        let mut new_end: Box<Chunk> = match self.free_chunks.pop_back() {
            Some(chunk) => chunk,
            None => Box::new(chunk_new()),
        };
        let ghost fresh = chunk_words(*new_end);
        assert(fresh =~= Seq::<u32>::empty());
        if self.limit_sends {
            let mut end: Box<Chunk> = self.chunks.pop_back().unwrap();
            assert(chunk_views(self.chunks@) =~= before.chunks.drop_last());
            if chunk_len(&end) > MAX_WORDS_OUT {
                let excess: Vec<u32> = chunk_drain(&mut end, MAX_WORDS_OUT);
                let ghost last = before.chunks.last();
                proof {
                    assert(last.len() <= CHUNK_SIZE);
                }
                chunk_extend(&mut new_end, excess.as_slice());
                assert(chunk_words(*new_end) =~= last.skip(MAX_WORDS_OUT as int));
            }
            let ghost mid = self.chunks@;
            self.chunks.push_back(end);
            assert(chunk_views(self.chunks@) =~= chunk_views(mid).push(chunk_words(*end)));
        }
        let ghost mid = self.chunks@;
        self.chunks.push_back(new_end);
        assert(chunk_views(self.chunks@) =~= chunk_views(mid).push(chunk_words(*new_end)));
        assert(self@ =~= before.next_started());
    }

    fn append_to_end(&mut self, words: &[u32])
        requires
            old(self).wf(),
            old(self)@.chunks.len() >= 1,
            old(self)@.chunks.last().len() + words@.len() <= CHUNK_SIZE,
        ensures
            final(self).wf(),
            final(self)@ == old(self)@.appended(words@),
    {
        let ghost before = self@;
        let mut end: Box<Chunk> = self.chunks.pop_back().unwrap();
        assert(chunk_views(self.chunks@) =~= before.chunks.drop_last());
        chunk_extend(&mut end, words);
        let ghost mid = self.chunks@;
        self.chunks.push_back(end);
        assert(chunk_views(self.chunks@) =~= chunk_views(mid).push(chunk_words(*end)));
        assert(self@ =~= before.appended(words@));
    }

    fn end(&self) -> (r: &Chunk)
        requires
            self@.chunks.len() >= 1,
        ensures
            chunk_words(*r) == self@.chunks.last(),
    {
        &self.chunks[self.chunks.len() - 1]
    }

    fn too_many_fds(&self) -> (r: bool)
        ensures
            r == self@.too_many_fds(),
    {
        let n: u128 = self.chunks.len() as u128;
        let m: u128 = self.fds.len() as u128;
        m > n * (MAX_FDS_OUT as u128)
    }

    /// Hears that the socket has room again.
    pub fn got_output_event(&mut self)
        requires
            old(self).wf(),
        ensures
            final(self).wf(),
            final(self)@ == (OutBufferV { waiting: false, ..old(self)@ }),
    {
        self.wait_for_output_event = false;
    }

    /// Holds back everything until the socket is heard to have room.
    pub fn hold_back(&mut self)
        requires
            old(self).wf(),
        ensures
            final(self).wf(),
            final(self)@ == old(self)@.refused(),
    {
        self.wait_for_output_event = true;
    }

    /// How many chunks wait, how many words the first and the last of them hold, how many chunks
    /// are kept for later use, and how many file descriptors wait.
    pub fn counts(&self) -> (r: (usize, usize, usize, usize, usize))
        requires
            self@.chunks.len() >= 1,
        ensures
            r.0 == self@.chunks.len(),
            r.1 == self@.chunks[0].len(),
            r.2 == self@.chunks.last().len(),
            r.3 == self@.free,
            r.4 == self@.fds.len(),
    {
        (
            self.chunks.len(),
            chunk_len(&self.chunks[0]),
            chunk_len(self.end()),
            self.free_chunks.len(),
            self.fds.len(),
        )
    }

    /// What is to be transmitted next, if anything.
    pub fn next_send(&self, force: bool) -> (r: Option<(Vec<u32>, Vec<Fd>)>)
        requires
            self@.chunks.len() >= 1,
        ensures
            match r {
                Some((words, fds)) => self@.next_send(force) == Some((words@, fds@)),
                None => self@.next_send(force) is None,
            },
    {
        let first: &Chunk = &self.chunks[0];
        assert(chunk_words(*first) == self@.chunks[0]);
        if !(self.chunks.len() > 1 || force) || self.wait_for_output_event || chunk_len(first) == 0 {
            return None;
        }
        let slice: &[u32] = chunk_slice(first);
        let mut words: Vec<u32> = Vec::new();
        words.extend_from_slice(slice);
        assert(words@ =~= slice@);
        let total: usize = self.fds.len();
        let n: usize = if total < MAX_FDS_OUT {
            total
        } else {
            MAX_FDS_OUT
        };
        let mut fds: Vec<Fd> = Vec::new();
        for i in 0..n
            invariant
                n <= self.fds@.len(),
                fds@ == self.fds@.take(i as int),
        {
            fds.push(self.fds[i]);
            assert(fds@ =~= self.fds@.take(i + 1));
        }
        assert(fds@ =~= first_fds(self.fds@));
        Some((words, fds))
    }

    /// Records that the socket has taken the first chunk, and the file descriptors that went with
    /// it. These are handed back; they are to be closed.
    fn sent_first_chunk(&mut self) -> (r: Vec<Fd>)
        requires
            old(self).wf(),
            old(self)@.capped(),
        ensures
            final(self).wf(),
            final(self)@ == old(self)@.accepted(),
            r@ == first_fds(old(self)@.fds),
    {
        let ghost before = self@;
        let total: usize = self.fds.len();
        let n: usize = if total < MAX_FDS_OUT {
            total
        } else {
            MAX_FDS_OUT
        };
        let mut sent: Vec<Fd> = Vec::new();
        let mut i: usize = 0;
        assert(before.fds.skip(0) =~= before.fds);
        while i < n
            invariant
                i <= n <= before.fds.len(),
                self.chunks == old(self).chunks,
                self.free_chunks == old(self).free_chunks,
                self.flush_every_send == old(self).flush_every_send,
                self.wait_for_output_event == old(self).wait_for_output_event,
                self.limit_sends == old(self).limit_sends,
                sent@ == before.fds.take(i as int),
                self.fds@ == before.fds.skip(i as int),
            decreases n - i,
        {
            let fd: Fd = self.fds.pop_front().unwrap();
            assert(before.fds.skip(i as int).skip(1) =~= before.fds.skip(i + 1));
            sent.push(fd);
            assert(sent@ =~= before.fds.take(i + 1));
            i = i + 1;
        }
        assert(sent@ =~= first_fds(before.fds));
        assert(self.fds@ =~= later_fds(before.fds));
        let mut first: Box<Chunk> = self.chunks.pop_front().unwrap();
        assert(chunk_views(self.chunks@) =~= before.chunks.skip(1));
        chunk_clear(&mut first);
        if self.chunks.len() > 0 {
            if self.free_chunks.len() < ALLOWED_EXCESS_CHUNKS {
                self.free_chunks.push_back(first);
            }
        } else {
            self.chunks.push_back(first);
            assert(chunk_views(self.chunks@) =~= seq![Seq::<u32>::empty()]);
        }
        assert(self@ =~= before.accepted());
        sent
    }

    /// Queues the file descriptors of a message.
    fn queue_fds(&mut self, fds: Vec<Fd>)
        requires
            old(self).wf(),
        ensures
            final(self).wf(),
            final(self)@ == old(self)@.with_fds(fds@),
    {
        let ghost before = self@;
        let n: usize = fds.len();
        let mut i: usize = 0;
        assert(before.fds + fds@.take(0) =~= before.fds);
        while i < n
            invariant
                i <= n,
                n == fds@.len(),
                self.chunks == old(self).chunks,
                self.free_chunks == old(self).free_chunks,
                self.flush_every_send == old(self).flush_every_send,
                self.wait_for_output_event == old(self).wait_for_output_event,
                self.limit_sends == old(self).limit_sends,
                self.fds@ == before.fds + fds@.take(i as int),
            decreases n - i,
        {
            self.fds.push_back(fds[i]);
            assert(self.fds@ =~= before.fds + fds@.take(i + 1));
            i = i + 1;
        }
        assert(fds@.take(n as int) =~= fds@);
        assert(self@ =~= before.with_fds(fds@));
    }

    fn write_raw(&mut self, msg: &[u32])
        requires
            old(self).wf(),
            old(self)@.relieved(),
            0 < msg@.len() <= MAX_WORDS_OUT,
        ensures
            final(self).wf(),
            final(self)@ == old(self)@.raw_written(msg@),
            final(self)@.settled(),
    {
        let ghost before = self@;
        assert(before.chunks[before.chunks.len() - 1].len() <= before.cap());
        let room: usize = if self.limit_sends {
            MAX_WORDS_OUT - chunk_len(self.end())
        } else {
            chunk_room(self.end())
        };
        if room >= msg.len() {
            self.append_to_end(msg);
        } else {
            let first_part = vstd::slice::slice_subrange(msg, 0, room);
            let last_part = vstd::slice::slice_subrange(msg, room, msg.len());
            assert(first_part@ =~= msg@.take(room as int));
            assert(last_part@ =~= msg@.skip(room as int));
            self.append_to_end(first_part);
            proof {
                lemma_appended_capped(before, first_part@);
                lemma_next_started_capped(self@);
            }
            self.start_next_chunk();
            self.append_to_end(last_part);
        }
        proof {
            law_written_is_settled(before, msg@, arbitrary(), msg@);
        }
    }

    fn write_message(&mut self, header: MessageHeader, body: &[u32])
        requires
            old(self).wf(),
            old(self)@.relieved(),
            body@.len() + 2 <= MAX_WORDS_OUT,
        ensures
            final(self).wf(),
            final(self)@ == old(self)@.message_written(header, body@),
            final(self)@.settled(),
    {
        let ghost before = self@;
        assert(before.chunks[before.chunks.len() - 1].len() <= before.cap());
        if chunk_room(self.end()) < MAX_WORDS_OUT {
            proof {
                lemma_next_started_capped(before);
            }
            self.start_next_chunk();
        }
        let ghost roomy = self@;
        let size: u16 = 4 * (body.len() as u16 + 2);
        let header = MessageHeader { object_id: header.object_id, opcode: header.opcode, size };
        let words: [u32; 2] = header.as_words();
        self.append_to_end(words.as_slice());
        self.append_to_end(body);
        assert(self@ =~= roomy.appended(sized(header, body@))) by {
            assert(roomy.appended(header.words()).chunks.drop_last() =~= roomy.chunks.drop_last());
            assert(roomy.chunks.last() + header.words() + body@ =~= roomy.chunks.last() + (
            header.words() + body@));
        }
        if self.limit_sends && chunk_room(self.end()) < MAX_WORDS_OUT {
            self.start_next_chunk();
        }
        proof {
            law_written_is_settled(before, Seq::empty(), header, body@);
        }
    }

    fn write(&mut self, payload: &Payload)
        requires
            old(self).wf(),
            old(self)@.relieved(),
            payload@.fits(),
        ensures
            final(self).wf(),
            final(self)@ == old(self)@.written(payload@),
            final(self)@.settled(),
    {
        match payload {
            Payload::Raw(msg) => self.write_raw(msg.as_slice()),
            Payload::Marshalled(header, body) => self.write_message(*header, body.as_slice()),
        }
    }
}

/// How far a [`SendJob`] has come.
#[derive(Debug, PartialEq, Eq, Copy, Clone, Structural)]
pub enum SendPhase {
    /// There are too many file descriptors; everything is flushed before the message is written.
    Relieving,
    /// The message is written; chunks are flushed, the last one only where this is forced.
    Flushing { force: bool },
}

/// The sending of one message, or a flush.
#[derive(Debug)]
pub struct SendJob {
    phase: SendPhase,
    payload: Option<Payload>,
    flushed: u128,
}

/// The contents of a [`SendJob`].
#[verifier::ext_equal]
pub struct SendJobV {
    pub phase: SendPhase,
    /// The message, while it has not been written.
    pub payload: Option<PayloadV>,
    /// How many words the socket has taken since the message was written.
    pub flushed: nat,
}

impl View for SendJob {
    type V = SendJobV;

    closed spec fn view(&self) -> SendJobV {
        SendJobV {
            phase: self.phase,
            payload: match self.payload {
                Some(p) => Some(p@),
                None => None,
            },
            flushed: self.flushed as nat,
        }
    }
}

/// What the caller is to do next.
#[derive(Debug)]
pub enum SendAction {
    /// Send these words and file descriptors, and say whether the socket took them.
    Transmit { words: Vec<u32>, fds: Vec<Fd> },
    /// Nothing: the job is over. So many words were taken by the socket.
    Finished { flushed: u128 },
}

/// What the socket did with what it was to send. It takes all or nothing.
#[derive(Debug, PartialEq, Eq, Copy, Clone, Structural)]
pub enum SendReply {
    Accepted,
    Refused,
}

impl SendJobV {
    /// Whether a job fits the buffer that it is for.
    pub open spec fn fits(self, v: OutBufferV) -> bool {
        match self.phase {
            SendPhase::Relieving => v.queued() && self.flushed == 0 && match self.payload {
                Some(p) => p.fits(),
                None => false,
            },
            SendPhase::Flushing { force } => v.settled() && self.payload is None && self.flushed
                + v.words().len() <= CHUNK_SIZE * usize::MAX,
        }
    }

    /// The buffer and the job when nothing more can be transmitted in this phase.
    pub open spec fn advanced(self, v: OutBufferV) -> (OutBufferV, SendJobV) {
        if self.phase is Relieving && v.next_send(true) is None {
            (
                v.fds_relieved().written(self.payload->0),
                SendJobV {
                    phase: SendPhase::Flushing { force: v.flush_every_send },
                    payload: None,
                    flushed: 0,
                },
            )
        } else {
            (v, self)
        }
    }

    /// What the job would transmit next.
    pub open spec fn next(self, v: OutBufferV) -> Option<(Seq<u32>, Seq<Fd>)> {
        match self.phase {
            SendPhase::Relieving => v.next_send(true),
            SendPhase::Flushing { force } => v.next_send(force),
        }
    }
}

impl OutBuffer {
    proof fn words_bound(self)
        requires
            self@.capped(),
            self@.chunks.len() <= usize::MAX,
        ensures
            self@.words().len() <= CHUNK_SIZE * usize::MAX,
    {
        let v = self@;
        assert forall|i: int| 0 <= i < v.chunks.len() implies (#[trigger] v.chunks[i]).len()
            <= CHUNK_SIZE by {
            assert(v.chunks[i].len() <= v.cap());
        }
        lemma_flat_len(v.chunks, CHUNK_SIZE as nat);
        assert(CHUNK_SIZE * v.chunks.len() <= CHUNK_SIZE * usize::MAX) by (nonlinear_arith)
            requires
                v.chunks.len() <= usize::MAX,
                CHUNK_SIZE >= 0,
        ;
    }

    /// Starts to flush: the chunks that have others behind them, and the last one too where this
    /// is forced.
    pub fn flush(&self, force: bool) -> (r: SendJob)
        requires
            self@.settled(),
        ensures
            r@ == (SendJobV { phase: SendPhase::Flushing { force }, payload: None, flushed: 0 }),
            r@.fits(self@),
    {
        let _ = self.chunks.len();
        proof {
            self.words_bound();
        }
        SendJob { phase: SendPhase::Flushing { force }, payload: None, flushed: 0 }
    }

    /// Starts to send a message. Its file descriptors are queued before its words, so that they go
    /// with the earliest possible chunk. The words are written at once, unless there are more file
    /// descriptors than can travel with the chunks that are there: then everything is flushed
    /// first.
    pub fn send(&mut self, fds: Vec<Fd>, payload: Payload) -> (r: SendJob)
        requires
            old(self).wf(),
            old(self)@.settled(),
            fds@.len() <= MAX_FDS_OUT,
            payload@.fits(),
        ensures
            final(self).wf(),
            r@.fits(final(self)@),
            ({
                let queued = old(self)@.with_fds(fds@);
                if queued.too_many_fds() {
                    &&& final(self)@ == queued
                    &&& r@ == (SendJobV {
                        phase: SendPhase::Relieving,
                        payload: Some(payload@),
                        flushed: 0,
                    })
                } else {
                    &&& final(self)@ == queued.written(payload@)
                    &&& r@ == (SendJobV {
                        phase: SendPhase::Flushing { force: queued.flush_every_send },
                        payload: None,
                        flushed: 0,
                    })
                }
            }),
    {
        self.queue_fds(fds);
        if self.too_many_fds() {
            SendJob { phase: SendPhase::Relieving, payload: Some(payload), flushed: 0 }
        } else {
            self.write(&payload);
            let _ = self.chunks.len();
            proof {
                self.words_bound();
            }
            SendJob {
                phase: SendPhase::Flushing { force: self.flush_every_send },
                payload: None,
                flushed: 0,
            }
        }
    }

    /// Says what to do next for a job.
    pub fn advance(&mut self, job: &mut SendJob) -> (r: SendAction)
        requires
            old(self).wf(),
            old(job)@.fits(old(self)@),
        ensures
            final(self).wf(),
            final(job)@.fits(final(self)@),
            (final(self)@, final(job)@) == old(job)@.advanced(old(self)@),
            match r {
                SendAction::Transmit { words, fds } => final(job)@.next(final(self)@) == Some(
                    (words@, fds@),
                ),
                SendAction::Finished { flushed } => {
                    &&& final(job)@.phase is Flushing
                    &&& final(job)@.next(final(self)@) is None
                    &&& flushed == final(job)@.flushed
                },
            },
    {
        if let SendPhase::Relieving = job.phase {
            match self.next_send(true) {
                Some((words, fds)) => {
                    return SendAction::Transmit { words, fds };
                },
                None => {},
            }
            proof {
                law_one_chunk_relieves(self@);
            }
            if self.too_many_fds() {
                self.start_next_chunk();
            }
            match job.payload.take() {
                Some(payload) => {
                    self.write(&payload);
                },
                None => {},
            }
            job.phase = SendPhase::Flushing { force: self.flush_every_send };
            let _ = self.chunks.len();
            proof {
                self.words_bound();
            }
        }
        let force: bool = match job.phase {
            SendPhase::Flushing { force } => force,
            SendPhase::Relieving => true,
        };
        match self.next_send(force) {
            Some((words, fds)) => SendAction::Transmit { words, fds },
            None => SendAction::Finished { flushed: job.flushed },
        }
    }

    /// Hears what the socket did with what a job was to transmit. File descriptors that have been
    /// sent are handed back; they are to be closed.
    pub fn reply(&mut self, job: &mut SendJob, reply: SendReply) -> (r: Vec<Fd>)
        requires
            old(self).wf(),
            old(job)@.fits(old(self)@),
            old(job)@.next(old(self)@) is Some,
        ensures
            final(self).wf(),
            final(job)@.fits(final(self)@),
            match reply {
                SendReply::Accepted => {
                    &&& final(self)@ == old(self)@.accepted()
                    &&& final(job)@ == (SendJobV {
                        flushed: if old(job)@.phase is Relieving {
                            0
                        } else {
                            old(job)@.flushed + old(self)@.chunks[0].len()
                        },
                        ..old(job)@
                    })
                    &&& r@ == first_fds(old(self)@.fds)
                },
                SendReply::Refused => {
                    &&& final(self)@ == old(self)@.refused()
                    &&& final(job)@ == old(job)@
                    &&& r@ == Seq::<Fd>::empty()
                },
            },
    {
        match reply {
            SendReply::Accepted => {
                proof {
                    lemma_accepted_keeps(self@);
                    law_accepted_takes_the_first(self@, true);
                }
                let n: usize = chunk_len(&self.chunks[0]);
                if let SendPhase::Flushing { .. } = job.phase {
                    job.flushed = job.flushed + n as u128;
                }
                self.sent_first_chunk()
            },
            SendReply::Refused => {
                self.hold_back();
                Vec::new()
            },
        }
    }
}

/// When a forced flush has nothing more to transmit, either the socket has refused, or nothing is
/// left: no words, and no file descriptors.
pub proof fn law_forced_flush_leaves_nothing(v: OutBufferV)
    requires
        v.settled(),
        v.next_send(true) is None,
    ensures
        v.waiting || (v.words() == Seq::<u32>::empty() && v.fds == Seq::<Fd>::empty()),
{
    if !v.waiting {
        assert(v.chunks[0].len() == 0);
        assert(v.chunks.len() == 1);
        assert(v.chunks.drop_last() =~= Seq::<Seq<u32>>::empty());
        assert(flat(v.chunks.drop_last()) =~= Seq::<u32>::empty());
        assert(v.chunks.last() =~= Seq::<u32>::empty());
        assert(v.words() =~= Seq::<u32>::empty());
        assert(v.fds =~= Seq::<Fd>::empty());
    }
}

/// A message that is sent by way of a job is written behind all others, and its file descriptors
/// are queued behind all others, whatever the socket took in between.
pub proof fn law_job_writes_in_order(v: OutBufferV, job: SendJobV)
    requires
        job.fits(v),
        job.phase is Relieving,
        v.next_send(true) is None,
    ensures
        job.advanced(v).0.words() == v.words() + job.payload->0.words(),
        job.advanced(v).0.fds == v.fds,
        job.advanced(v).0.settled(),
{
    law_one_chunk_relieves(v);
    let r = v.fds_relieved();
    match job.payload->0 {
        PayloadV::Raw(msg) => {
            law_raw_written_in_order(r, msg);
            law_written_is_settled(r, msg, arbitrary(), msg);
        },
        PayloadV::Marshalled(header, body) => {
            law_message_written_in_order(r, header, body);
            law_written_is_settled(r, Seq::empty(), header, body);
        },
    }
}

/// While the socket has no room, nothing is transmitted. Otherwise something is, where anything waits
/// and is to go out, and also where more waits than one chunk can hold. What is transmitted is the
/// start of what waits, with the first of the file descriptors, at most 28 of them, and holds no more
/// words than the longest message where sends are limited.
pub proof fn law_what_is_transmitted(v: OutBufferV, force: bool)
    requires
        v.capped(),
    ensures
        v.waiting ==> v.next_send(force) is None,
        !v.waiting && v.words().len() > 0 && force ==> v.next_send(force) is Some,
        !v.waiting && v.words().len() > 2048 ==> v.next_send(force) is Some,
        !v.waiting && v.words().len() > 1024 && v.limit ==> v.next_send(force) is Some,
        !force && v.chunks.len() == 1 ==> v.next_send(force) is None,
        v.next_send(force) matches Some((words, fds)) ==> {
            &&& 0 < words.len() <= v.words().len()
            &&& v.words().take(words.len() as int) == words
            &&& v.limit ==> words.len() <= 1024
            &&& fds.len() == if v.fds.len() < 28 {
                v.fds.len() as int
            } else {
                28
            }
            &&& v.fds.take(fds.len() as int) == fds
        },
        v.refused().words() == v.words(),
        v.refused().fds == v.fds,
        v.refused().next_send(force) is None,
{
    lemma_flat_first(v.chunks);
    assert(v.chunks[0].len() <= v.cap());
    if v.chunks.len() == 1 {
        assert(v.chunks.skip(1) =~= Seq::<Seq<u32>>::empty());
        assert(v.words() =~= v.chunks[0]);
    }
    if v.next_send(force) is Some {
        law_accepted_takes_the_first(v, force);
        let (words, fds) = v.next_send(force)->0;
        assert(v.words().take(words.len() as int) =~= words);
        assert(v.fds.take(fds.len() as int) =~= fds);
    }
}

/// Where everything is to go out after each message, a message that has been written leaves nothing
/// behind, unless the socket has no room.
pub proof fn law_flushing_every_send_leaves_nothing(v: OutBufferV, job: SendJobV)
    requires
        v.flush_every_send,
        job.fits(v),
        job.phase is Relieving,
        v.next_send(true) is None,
    ensures
        ({
            let (after, job2) = job.advanced(v);
            job2.next(after) is None ==> after.waiting || (after.words() == Seq::<u32>::empty()
                && after.fds == Seq::<Fd>::empty())
        }),
{
    let (after, job2) = job.advanced(v);
    law_job_writes_in_order(v, job);
    if job2.next(after) is None {
        law_forced_flush_leaves_nothing(after);
    }
}

} // verus!
