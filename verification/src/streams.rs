//! What comes of sending and receiving on a socket.

use crate::basics::{bytes_words, to_u32_vec, ByteOrder};
use crate::outbuffer::SendReply;
use vstd::prelude::*;

verus! {

/// The words that some bytes make. A socket only ever hands out whole words.
pub fn words_received(order: ByteOrder, bytes: &[u8]) -> (r: Option<Vec<u32>>)
    ensures
        match r {
            Some(words) => bytes@.len() % 4 == 0 && words@ == bytes_words(order, bytes@),
            None => bytes@.len() % 4 != 0,
        },
{
    if bytes.len() % 4 != 0 {
        None
    } else {
        Some(to_u32_vec(order, bytes))
    }
}

/// What a socket did with bytes that it was to send: how many it took, if it did not refuse them. It
/// takes all or nothing.
pub fn send_reply(taken: Option<usize>, offered: usize) -> (r: Option<SendReply>)
    ensures
        r == match taken {
            None => Some(SendReply::Refused),
            Some(n) => if n == offered {
                Some(SendReply::Accepted)
            } else {
                None
            },
        },
{
    match taken {
        None => Some(SendReply::Refused),
        Some(n) => if n == offered {
            Some(SendReply::Accepted)
        } else {
            None
        },
    }
}

} // verus!
