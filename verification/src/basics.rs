//! Limits of the Wayland wire format, and the passage between words and bytes.

use vstd::endian::{endianness, Endian};
use vstd::prelude::*;

verus! {

/// The most file descriptors that travel with one chunk of data.
pub const MAX_FDS_OUT: usize = 28;

/// The longest message, in bytes.
pub const MAX_BYTES_OUT: usize = 4096;

/// The longest message, in 32-bit words.
pub const MAX_WORDS_OUT: usize = 1024;

/// The most arguments that a message can have.
pub const MAX_ARGS: usize = 20;

/// A file descriptor, by number.
pub type Fd = i32;

/// Rounds up to the next multiple of four.
pub fn round4(x: usize) -> (r: usize)
    requires
        x <= usize::MAX - 3,
    ensures
        r % 4 == 0,
        x <= r < x + 4,
{
    (x + 3) / 4 * 4
}

/// The order in which the bytes of a word lie in memory.
#[derive(Copy, Clone, Debug, PartialEq, Eq, Structural)]
pub enum ByteOrder {
    Little,
    Big,
}

/// The byte of `word` that counts `256` to the power `k`.
pub open spec fn digit(word: u32, k: int) -> u8 {
    if k == 0 {
        (word % 256) as u8
    } else if k == 1 {
        (word / 256 % 256) as u8
    } else if k == 2 {
        (word / 65536 % 256) as u8
    } else {
        (word / 16777216) as u8
    }
}

/// Byte number `k` of `word` in memory.
pub open spec fn byte_of(order: ByteOrder, word: u32, k: int) -> u8 {
    match order {
        ByteOrder::Little => digit(word, k),
        ByteOrder::Big => digit(word, 3 - k),
    }
}

/// The word that lies in memory as the bytes `b0`, `b1`, `b2`, `b3`.
pub open spec fn word_of(order: ByteOrder, b0: u8, b1: u8, b2: u8, b3: u8) -> u32 {
    match order {
        ByteOrder::Little => (b0 + 256 * b1 + 65536 * b2 + 16777216 * b3) as u32,
        ByteOrder::Big => (b3 + 256 * b2 + 65536 * b1 + 16777216 * b0) as u32,
    }
}

/// The bytes that a run of words takes up in memory.
pub open spec fn words_bytes(order: ByteOrder, words: Seq<u32>) -> Seq<u8> {
    Seq::new(words.len() * 4, |i: int| byte_of(order, words[i / 4], i % 4))
}

/// The words that take up `bytes` in memory.
pub open spec fn bytes_words(order: ByteOrder, bytes: Seq<u8>) -> Seq<u32> {
    Seq::new(
        bytes.len() / 4,
        |i: int|
            word_of(order, bytes[4 * i], bytes[4 * i + 1], bytes[4 * i + 2], bytes[4 * i + 3]),
    )
}

/// Taking a word apart and putting it together again gives the same word.
pub proof fn lemma_word_of_bytes(order: ByteOrder, word: u32)
    ensures
        word_of(
            order,
            byte_of(order, word, 0),
            byte_of(order, word, 1),
            byte_of(order, word, 2),
            byte_of(order, word, 3),
        ) == word,
{
}

proof fn lemma_digits(d0: u8, d1: u8, d2: u8, d3: u8)
    ensures
        ({
            let w = (d0 + 256 * d1 + 65536 * d2 + 16777216 * d3) as u32;
            digit(w, 0) == d0 && digit(w, 1) == d1 && digit(w, 2) == d2 && digit(w, 3) == d3
        }),
{
    let w = d0 + 256 * d1 + 65536 * d2 + 16777216 * d3;
    let q1 = d1 + 256 * d2 + 65536 * d3;
    let q2 = d2 + 256 * d3;
    assert(w == 256 * q1 + d0);
    assert(w / 256 == q1 && w % 256 == d0);
    assert(w == 65536 * q2 + (d0 + 256 * d1));
    assert(w / 65536 == q2);
    assert(w == 16777216 * d3 + (d0 + 256 * d1 + 65536 * d2));
    assert(w / 16777216 == d3);
    assert(q1 == 256 * q2 + d1 && q1 % 256 == d1);
    assert(q2 % 256 == d2);
}

/// Putting four bytes together and taking the word apart again gives the same bytes.
pub proof fn lemma_bytes_of_word(order: ByteOrder, b0: u8, b1: u8, b2: u8, b3: u8)
    ensures
        byte_of(order, word_of(order, b0, b1, b2, b3), 0) == b0,
        byte_of(order, word_of(order, b0, b1, b2, b3), 1) == b1,
        byte_of(order, word_of(order, b0, b1, b2, b3), 2) == b2,
        byte_of(order, word_of(order, b0, b1, b2, b3), 3) == b3,
{
    match order {
        ByteOrder::Little => lemma_digits(b0, b1, b2, b3),
        ByteOrder::Big => lemma_digits(b3, b2, b1, b0),
    }
}

/// A run of words survives the passage through bytes.
pub proof fn law_words_through_bytes(order: ByteOrder, words: Seq<u32>)
    ensures
        bytes_words(order, words_bytes(order, words)) == words,
{
    let back = bytes_words(order, words_bytes(order, words));
    assert forall|i: int| 0 <= i < words.len() implies back[i] == words[i] by {
        lemma_word_of_bytes(order, words[i]);
    }
    assert(back =~= words);
}

/// A run of bytes that fills whole words survives the passage through words.
pub proof fn law_bytes_through_words(order: ByteOrder, bytes: Seq<u8>)
    requires
        bytes.len() % 4 == 0,
    ensures
        words_bytes(order, bytes_words(order, bytes)) == bytes,
{
    let back = words_bytes(order, bytes_words(order, bytes));
    assert forall|i: int| 0 <= i < bytes.len() implies back[i] == bytes[i] by {
        let k = i / 4;
        lemma_bytes_of_word(order, bytes[4 * k], bytes[4 * k + 1], bytes[4 * k + 2], bytes[4 * k + 3]);
    }
    assert(back =~= bytes);
}

/// Takes a word apart into the bytes that it has in memory.
pub fn word_to_bytes(order: ByteOrder, word: u32) -> (r: (u8, u8, u8, u8))
    ensures
        r.0 == byte_of(order, word, 0),
        r.1 == byte_of(order, word, 1),
        r.2 == byte_of(order, word, 2),
        r.3 == byte_of(order, word, 3),
{
    let d0: u8 = (word % 256) as u8;
    let d1: u8 = (word / 256 % 256) as u8;
    let d2: u8 = (word / 65536 % 256) as u8;
    let d3: u8 = (word / 16777216) as u8;
    match order {
        ByteOrder::Little => (d0, d1, d2, d3),
        ByteOrder::Big => (d3, d2, d1, d0),
    }
}

/// Puts four bytes of memory together into a word.
pub fn word_from_bytes(order: ByteOrder, b0: u8, b1: u8, b2: u8, b3: u8) -> (r: u32)
    ensures
        r == word_of(order, b0, b1, b2, b3),
{
    match order {
        ByteOrder::Little => b0 as u32 + 256 * (b1 as u32) + 65536 * (b2 as u32) + 16777216 * (
        b3 as u32),
        ByteOrder::Big => b3 as u32 + 256 * (b2 as u32) + 65536 * (b1 as u32) + 16777216 * (
        b0 as u32),
    }
}

/// The byte order of the machine that the program runs on. Which of the two it is, is left open.
pub open spec fn machine_order() -> ByteOrder {
    match endianness() {
        Endian::Little => ByteOrder::Little,
        Endian::Big => ByteOrder::Big,
    }
}

/// Calls `u32::from_ne_bytes`, which puts four bytes together in the byte order of the machine
/// that the program runs on.
#[verifier::external_body]
fn ne_word(b0: u8, b1: u8, b2: u8, b3: u8) -> (r: u32)
    ensures
        r == word_of(machine_order(), b0, b1, b2, b3),
{
    u32::from_ne_bytes([b0, b1, b2, b3])
}

/// The byte order in which `word` stands for the bytes `1, 0, 0, 0`.
pub fn order_from_probe(word: u32) -> (r: ByteOrder)
    ensures
        r == (if word == word_of(ByteOrder::Little, 1, 0, 0, 0) {
            ByteOrder::Little
        } else {
            ByteOrder::Big
        }),
{
    if word == 1 {
        ByteOrder::Little
    } else {
        ByteOrder::Big
    }
}

impl ByteOrder {
    /// The byte order of the machine that the program runs on.
    pub fn native() -> (r: ByteOrder)
        ensures
            r == machine_order(),
    {
        order_from_probe(ne_word(1, 0, 0, 0))
    }
}

/// Copies out the bytes that a run of words takes up in memory.
pub fn to_u8_vec(order: ByteOrder, words: &[u32]) -> (r: Vec<u8>)
    ensures
        r@ == words_bytes(order, words@),
{
    let mut out: Vec<u8> = Vec::new();
    let n = words.len();
    for i in 0..n
        invariant
            n == words@.len(),
            out@ == words_bytes(order, words@.take(i as int)),
    {
        let (b0, b1, b2, b3) = word_to_bytes(order, words[i]);
        out.push(b0);
        out.push(b1);
        out.push(b2);
        out.push(b3);
        assert(out@ =~= words_bytes(order, words@.take(i + 1)));
    }
    assert(words@.take(n as int) =~= words@);
    out
}

/// Copies out the words that a run of bytes stands for in memory. Bytes after the last whole word
/// are left out.
pub fn to_u32_vec(order: ByteOrder, bytes: &[u8]) -> (r: Vec<u32>)
    ensures
        r@ == bytes_words(order, bytes@),
{
    let mut out: Vec<u32> = Vec::new();
    let n: usize = bytes.len() / 4;
    for i in 0..n
        invariant
            n == bytes@.len() / 4,
            bytes@.len() <= usize::MAX,
            out@.len() == i,
            forall|j: int| 0 <= j < i ==> out@[j] == bytes_words(order, bytes@)[j],
    {
        out.push(
            word_from_bytes(order, bytes[4 * i], bytes[4 * i + 1], bytes[4 * i + 2], bytes[4 * i + 3]),
        );
    }
    assert(out@ =~= bytes_words(order, bytes@));
    out
}

/// A wrapper for a value that is to stay out of debug output.
pub struct NoDebug<T>(pub T);

impl<T> core::ops::Deref for NoDebug<T> {
    type Target = T;

    fn deref(&self) -> (r: &T)
        ensures
            *r == self.0,
    {
        &self.0
    }
}

} // verus!
