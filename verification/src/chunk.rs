//! Chunks: bounded runs of words that are sent in one piece, and the writing of message arguments
//! into them.

use crate::basics::{bytes_words, word_from_bytes, ByteOrder};
use arrayvec::ArrayVec;
use vstd::prelude::*;

verus! {

/// The most words that a chunk can hold: twice the longest message.
pub const CHUNK_SIZE: usize = 2048;

/// A run of words that is sent in one piece.
pub type Chunk = ArrayVec<u32, CHUNK_SIZE>;

#[verifier::external_type_specification]
#[verifier::external_body]
#[verifier::reject_recursive_types(T)]
pub struct ExArrayVec<T, const CAP: usize>(ArrayVec<T, CAP>);

/// The words that a chunk holds.
pub uninterp spec fn chunk_words(chunk: Chunk) -> Seq<u32>;

/// Calls `ArrayVec::new`: a chunk that holds nothing.
#[verifier::external_body]
pub(crate) fn chunk_new() -> (r: Chunk)
    ensures
        chunk_words(r) == Seq::<u32>::empty(),
{
    ArrayVec::new()
}

/// Calls `ArrayVec::len`: how many words a chunk holds, which is never more than its capacity.
#[verifier::external_body]
pub(crate) fn chunk_len(chunk: &Chunk) -> (r: usize)
    ensures
        r == chunk_words(*chunk).len(),
        r <= CHUNK_SIZE,
{
    chunk.len()
}

/// Calls `ArrayVec::remaining_capacity`: how many more words a chunk can take.
#[verifier::external_body]
pub(crate) fn chunk_room(chunk: &Chunk) -> (r: usize)
    ensures
        r == CHUNK_SIZE - chunk_words(*chunk).len(),
{
    chunk.remaining_capacity()
}

/// Calls `ArrayVec::push`, which adds a word at the end and panics where there is no room.
#[verifier::external_body]
pub(crate) fn chunk_push(chunk: &mut Chunk, word: u32)
    requires
        chunk_words(*old(chunk)).len() < CHUNK_SIZE,
    ensures
        chunk_words(*final(chunk)) == chunk_words(*old(chunk)).push(word),
{
    chunk.push(word);
}

/// Calls `ArrayVec::try_extend_from_slice`, which adds a run of words at the end where there is
/// room for all of it.
#[verifier::external_body]
pub(crate) fn chunk_extend(chunk: &mut Chunk, words: &[u32])
    requires
        chunk_words(*old(chunk)).len() + words@.len() <= CHUNK_SIZE,
    ensures
        chunk_words(*final(chunk)) == chunk_words(*old(chunk)) + words@,
{
    chunk.try_extend_from_slice(words).unwrap();
}

/// Calls `ArrayVec::drain` on the range from `start` to the end, which takes the words of that
/// range out and hands them over in order.
#[verifier::external_body]
pub(crate) fn chunk_drain(chunk: &mut Chunk, start: usize) -> (r: Vec<u32>)
    requires
        start <= chunk_words(*old(chunk)).len(),
    ensures
        chunk_words(*final(chunk)) == chunk_words(*old(chunk)).take(start as int),
        r@ == chunk_words(*old(chunk)).skip(start as int),
{
    chunk.drain(start..).collect()
}

/// Calls `ArrayVec::clear`, which takes all words out.
#[verifier::external_body]
pub(crate) fn chunk_clear(chunk: &mut Chunk)
    ensures
        chunk_words(*final(chunk)) == Seq::<u32>::empty(),
{
    chunk.clear();
}

/// Calls `ArrayVec::as_slice`: the words that a chunk holds, in order.
#[verifier::external_body]
pub(crate) fn chunk_slice(chunk: &Chunk) -> (r: &[u32])
    ensures
        r@ == chunk_words(*chunk),
{
    chunk.as_slice()
}

/// How many words a run of `n` bytes takes up in a message, without the word for its length.
pub open spec fn array_len(n: int) -> int {
    (n + 3) / 4
}

/// A run of bytes, filled up with zeros to whole words.
pub open spec fn padded(bytes: Seq<u8>) -> Seq<u8> {
    Seq::new(
        (4 * array_len(bytes.len() as int)) as nat,
        |i: int|
            if i < bytes.len() {
                bytes[i]
            } else {
                0
            },
    )
}

/// The words that stand for a run of bytes in a message: its length, then the bytes, filled up with
/// zeros to whole words.
pub open spec fn array_words(order: ByteOrder, bytes: Seq<u8>) -> Seq<u32> {
    seq![bytes.len() as u32] + bytes_words(order, padded(bytes))
}

/// The word that an integer with a sign is written as.
pub open spec fn i32_word(data: i32) -> u32 {
    data as u32
}

/// What a message is written with: it can add arguments at the end of a chunk, nothing else.
pub struct ExtendChunk<'a> {
    pub chunk: &'a mut Chunk,
    pub order: ByteOrder,
}

impl<'a> ExtendChunk<'a> {
    /// The words of the chunk.
    pub open spec fn words(self) -> Seq<u32> {
        chunk_words(*self.chunk)
    }

    /// Starts to write at the end of a chunk.
    pub fn new(chunk: &'a mut Chunk, order: ByteOrder) -> (r: ExtendChunk<'a>)
        ensures
            r.words() == chunk_words(*old(chunk)),
            r.order == order,
            *final(r.chunk) == *final(chunk),
    {
        ExtendChunk { chunk, order }
    }

    /// Adds a word.
    pub fn add_u32(&mut self, data: u32)
        requires
            old(self).words().len() < CHUNK_SIZE,
        ensures
            final(self).words() == old(self).words().push(data),
            final(self).order == old(self).order,
            *final(final(self).chunk) == *final(old(self).chunk),
    {
        chunk_push(self.chunk, data);
    }

    /// Adds an integer with a sign.
    pub fn add_i32(&mut self, data: i32)
        requires
            old(self).words().len() < CHUNK_SIZE,
        ensures
            final(self).words() == old(self).words().push(i32_word(data)),
            final(self).order == old(self).order,
            *final(final(self).chunk) == *final(old(self).chunk),
    {
        chunk_push(self.chunk, data as u32);
    }

    /// Adds a run of bytes, with its length before it.
    pub fn add_array(&mut self, data: &[u8])
        requires
            old(self).words().len() + 1 + array_len(data@.len() as int) <= CHUNK_SIZE,
        ensures
            final(self).words() == old(self).words() + array_words(old(self).order, data@),
            final(self).order == old(self).order,
            *final(final(self).chunk) == *final(old(self).chunk),
    {
        let ghost start = self.words();
        let order = self.order;
        let ghost body = bytes_words(order, padded(data@));
        let nbytes: usize = data.len();
        self.add_u32(nbytes as u32);
        let rem: usize = nbytes % 4;
        let cut: usize = nbytes - rem;
        let mut i: usize = 0;
        assert(self.words() =~= start.push(nbytes as u32) + body.take(0));
        while i < cut
            invariant
                i <= cut,
                i % 4 == 0,
                cut % 4 == 0,
                cut <= nbytes,
                nbytes == data@.len(),
                nbytes - cut < 4,
                order == old(self).order,
                self.order == order,
                *final(self.chunk) == *final(old(self).chunk),
                body == bytes_words(order, padded(data@)),
                start.len() + 1 + array_len(nbytes as int) <= CHUNK_SIZE,
                self.words() == start.push(nbytes as u32) + body.take(i as int / 4),
            decreases cut - i,
        {
            let ghost k = i as int / 4;
            let word: u32 = word_from_bytes(order, data[i], data[i + 1], data[i + 2], data[i + 3]);
            assert(4 * k == i);
            assert(word == body[k]);
            self.add_u32(word);
            i = i + 4;
            assert(i as int / 4 == k + 1);
            assert(body.take(k + 1) =~= body.take(k).push(body[k]));
            assert(self.words() =~= start.push(nbytes as u32) + body.take(k + 1));
        }
        let ghost k = cut as int / 4;
        assert(4 * k == cut);
        if rem > 0 {
            let b0: u8 = data[cut];
            let b1: u8 = if rem > 1 {
                data[cut + 1]
            } else {
                0
            };
            let b2: u8 = if rem > 2 {
                data[cut + 2]
            } else {
                0
            };
            let last: u32 = word_from_bytes(order, b0, b1, b2, 0);
            assert(last == body[k]);
            self.add_u32(last);
            assert(body.take(k + 1) =~= body);
            assert(body =~= body.take(k).push(body[k]));
        } else {
            assert(body.take(k) =~= body);
        }
        assert(self.words() =~= start + array_words(order, data@));
    }
}

/// A chunk that holds nothing.
pub fn new_chunk() -> (r: Chunk)
    ensures
        chunk_words(r) == Seq::<u32>::empty(),
{
    chunk_new()
}

/// The words that a chunk holds.
pub fn words_of(chunk: &Chunk) -> (r: &[u32])
    ensures
        r@ == chunk_words(*chunk),
{
    chunk_slice(chunk)
}

} // verus!
