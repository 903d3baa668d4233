//! The two-word header that every message starts with.

use crate::basics::MAX_BYTES_OUT;
use vstd::prelude::*;

verus! {

/// What the header of a message says: the object that it is for, the number of the message among
/// the requests or events of that object's interface, and the size of the message in bytes.
#[derive(Debug, Copy, Clone, PartialEq, Eq, Structural)]
pub struct MessageHeader {
    pub object_id: u32,
    pub opcode: u16,
    pub size: u16,
}

/// The size in bytes that the second word of a header gives.
pub open spec fn size_field(word: u32) -> int {
    word as int / 65536
}

/// The opcode that the second word of a header gives.
pub open spec fn opcode_field(word: u32) -> int {
    word as int % 65536
}

/// The number of words that hold `size` bytes.
pub open spec fn words_for(size: int) -> int {
    (size + 3) / 4
}

/// What the first two words of a message say.
pub open spec fn header_of(words: Seq<u32>) -> MessageHeader {
    MessageHeader {
        object_id: words[0],
        opcode: opcode_field(words[1]) as u16,
        size: size_field(words[1]) as u16,
    }
}

impl MessageHeader {
    /// The two words that stand for this header.
    pub open spec fn words(self) -> Seq<u32> {
        seq![self.object_id, (self.size * 65536 + self.opcode) as u32]
    }

    /// Reads the header at the start of a message.
    pub fn new(header: &[u32]) -> (r: Self)
        requires
            header@.len() >= 2,
            size_field(header@[1]) <= MAX_BYTES_OUT,
        ensures
            r == header_of(header@),
    {
        let object_id: u32 = header[0];
        let word_2: u32 = header[1];
        assert(word_2 & 0xffff == word_2 % 65536) by (bit_vector);
        assert(word_2 >> 16 == word_2 / 65536) by (bit_vector);
        let opcode: u16 = (word_2 & 0xffff) as u16;
        let size: u16 = (word_2 >> 16) as u16;
        MessageHeader { object_id, opcode, size }
    }

    /// The two words that stand for this header.
    pub fn as_words(self) -> (r: [u32; 2])
        ensures
            r@ == self.words(),
    {
        let word1: u32 = self.object_id;
        let high: u32 = self.size as u32;
        let low: u32 = self.opcode as u32;
        assert(high <= 0xffff && low <= 0xffff ==> ((high << 16) | low) == high * 65536 + low)
            by (bit_vector);
        let word2: u32 = (high << 16) | low;
        let r = [word1, word2];
        assert(r@ =~= self.words());
        r
    }

    /// The number of words that the message takes up.
    pub fn len32(&self) -> (r: usize)
        ensures
            r == words_for(self.size as int),
    {
        (self.size as usize + 3) / 4
    }
}

/// The number of words that the message at the start of `header` takes up, if there is enough of
/// it to tell.
pub open spec fn msg_length(header: Seq<u32>) -> Option<int> {
    if header.len() < 2 {
        None
    } else {
        Some(words_for(size_field(header[1])))
    }
}

/// The number of words that the message at the start of `header` takes up, if there is enough of
/// it to tell.
pub fn get_msg_length(header: &[u32]) -> (r: Option<usize>)
    ensures
        r is Some <==> msg_length(header@) is Some,
        r matches Some(n) ==> msg_length(header@) == Some(n as int),
{
    if header.len() < 2 {
        return None;
    }
    let word_2: u32 = header[1];
    assert(word_2 >> 16 == word_2 / 65536) by (bit_vector);
    Some(((word_2 >> 16) as usize + 3) / 4)
}

/// A header written out and read back is the same header.
pub proof fn law_header_round_trip(h: MessageHeader, rest: Seq<u32>)
    ensures
        header_of(h.words() + rest) == h,
        msg_length(h.words() + rest) == Some(words_for(h.size as int)),
{
    let words = h.words() + rest;
    assert(words[0] == h.object_id);
    assert(words[1] == (h.size * 65536 + h.opcode) as u32);
}

/// A header read and written out again gives the words that it was read from.
pub proof fn law_header_words_round_trip(words: Seq<u32>)
    requires
        words.len() >= 2,
    ensures
        header_of(words).words() == words.take(2),
{
    assert(header_of(words).words() =~= words.take(2));
}

} // verus!
