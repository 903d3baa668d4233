//! What has been received and not yet handled.

use crate::basics::{Fd, MAX_FDS_OUT, MAX_WORDS_OUT};
use crate::header::{get_msg_length, msg_length};
use std::collections::VecDeque;
use vstd::prelude::*;

verus! {

/// The words and file descriptors that have come in on a socket and have not been handled.
#[derive(Debug)]
pub struct InBuffer {
    data: Vec<u32>,
    front: usize,
    back: usize,
    fds: VecDeque<Fd>,
    always_compact: bool,
}

impl InBuffer {
    /// Whether the positions lie within the storage.
    pub closed spec fn wf(self) -> bool {
        self.data@.len() == 2 * MAX_WORDS_OUT && self.front <= self.back <= 2 * MAX_WORDS_OUT
    }

    /// The words that have not been handled.
    pub closed spec fn pending(self) -> Seq<u32> {
        self.data@.subrange(self.front as int, self.back as int)
    }

    /// Where in the storage the words that have not been handled start.
    pub closed spec fn start(self) -> int {
        self.front as int
    }

    /// The file descriptors that no message has claimed.
    pub closed spec fn queue(self) -> VecDeque<Fd> {
        self.fds
    }

    /// Whether what is left is moved to the start of the storage before every receipt.
    pub closed spec fn compacts(self) -> bool {
        self.always_compact
    }

    /// A buffer that holds nothing.
    pub fn new(always_compact: bool) -> (r: InBuffer)
        ensures
            r.wf(),
            r.pending() == Seq::<u32>::empty(),
            r.start() == 0,
            r.queue()@ == Seq::<Fd>::empty(),
            r.compacts() == always_compact,
    {
        let mut data: Vec<u32> = Vec::new();
        for i in 0..2 * MAX_WORDS_OUT
            invariant
                data@.len() == i,
        {
            data.push(0);
        }
        let r = InBuffer {
            data,
            front: 0,
            back: 0,
            fds: VecDeque::with_capacity(MAX_FDS_OUT),
            always_compact,
        };
        assert(r.pending() =~= Seq::<u32>::empty());
        r
    }

    /// Where in the storage the words that have not been handled start and end.
    pub fn positions(&self) -> (r: (usize, usize))
        requires
            self.wf(),
        ensures
            r.0 == self.start(),
            r.1 == self.start() + self.pending().len(),
    {
        (self.front, self.back)
    }

    /// The words that have not been handled.
    pub fn waiting(&self) -> (r: &[u32])
        requires
            self.wf(),
        ensures
            r@ == self.pending(),
    {
        vstd::slice::slice_subrange(self.data.as_slice(), self.front, self.back)
    }

    /// Takes one whole message out, by the length that its header gives, if all of it is there.
    /// The file descriptors that may belong to it are handed out beside it.
    pub fn try_pop(&mut self) -> (r: Option<(&[u32], &mut VecDeque<Fd>)>)
        requires
            old(self).wf(),
        ensures
            final(self).wf(),
            final(self).compacts() == old(self).compacts(),
            match r {
                Some((msg, fds)) => {
                    let n = msg@.len() as int;
                    &&& msg_length(old(self).pending()) == Some(n)
                    &&& n <= old(self).pending().len()
                    &&& msg@ == old(self).pending().take(n)
                    &&& final(self).pending() == old(self).pending().skip(n)
                    &&& final(self).start() == old(self).start() + n
                    &&& *fds == old(self).queue()
                    &&& final(self).queue() == *final(fds)
                },
                None => {
                    &&& *final(self) == *old(self)
                    &&& match msg_length(old(self).pending()) {
                        Some(n) => n > old(self).pending().len(),
                        None => true,
                    }
                },
            },
    {
        let front: usize = self.front;
        let back: usize = self.back;
        let ghost pending = self.pending();
        let msg_len: usize;
        {
            let available = vstd::slice::slice_subrange(self.data.as_slice(), front, back);
            assert(available@ == pending);
            match get_msg_length(available) {
                None => {
                    return None;
                },
                Some(n) => {
                    if n > available.len() {
                        return None;
                    }
                    msg_len = n;
                },
            }
        }
        self.front = front + msg_len;
        assert(self.pending() =~= pending.skip(msg_len as int));
        let msg = vstd::slice::slice_subrange(self.data.as_slice(), front, front + msg_len);
        assert(msg@ =~= pending.take(msg_len as int));
        Some((msg, &mut self.fds))
    }

    /// Whether there can be room for what one receipt may bring. There is none only where a
    /// message is longer than messages may be.
    pub fn has_room(&self) -> (r: bool)
        requires
            self.wf(),
        ensures
            r == (self.pending().len() <= MAX_WORDS_OUT),
    {
        self.back - self.front <= MAX_WORDS_OUT
    }

    /// Takes in what has been received.
    pub fn receive(&mut self, words: &[u32], fds: Vec<Fd>) -> (r: usize)
        requires
            old(self).wf(),
            old(self).pending().len() <= MAX_WORDS_OUT,
            words@.len() <= MAX_WORDS_OUT,
        ensures
            r == words@.len(),
            final(self).wf(),
            final(self).compacts() == old(self).compacts(),
            final(self).pending() == old(self).pending() + words@,
            final(self).queue()@ == old(self).queue()@ + fds@,
            final(self).start() == old(self).start_with_room(),
    {
        self.make_room();
        let ghost pending = self.pending();
        let ghost base = *self;
        let n: usize = words.len();
        let mut i: usize = 0;
        assert(pending + words@.take(0) =~= pending);
        while i < n
            invariant
                i <= n,
                n == words@.len(),
                n <= MAX_WORDS_OUT,
                base.wf(),
                base.back <= MAX_WORDS_OUT,
                self.wf(),
                self.front == base.front,
                self.back == base.back + i,
                self.always_compact == base.always_compact,
                self.fds == base.fds,
                pending == base.pending(),
                self.pending() == pending + words@.take(i as int),
            decreases n - i,
        {
            let ghost before = self.data@;
            let ghost taken = self.pending();
            self.data.set(self.back, words[i]);
            self.back = self.back + 1;
            assert(self.pending() =~= taken.push(words@[i as int]));
            assert(words@.take(i + 1) =~= words@.take(i as int).push(words@[i as int]));
            assert(self.pending() =~= pending + words@.take(i + 1));
            i = i + 1;
        }
        assert(words@.take(n as int) =~= words@);
        let m: usize = fds.len();
        let mut j: usize = 0;
        assert(self.fds@ + fds@.take(0) =~= self.fds@);
        while j < m
            invariant
                j <= m,
                m == fds@.len(),
                self.wf(),
                self.front == base.front,
                self.pending() == pending + words@,
                self.always_compact == base.always_compact,
                self.fds@ == base.fds@ + fds@.take(j as int),
            decreases m - j,
        {
            self.fds.push_back(fds[j]);
            assert(fds@.take(j + 1) =~= fds@.take(j as int).push(fds@[j as int]));
            assert(self.fds@ =~= base.fds@ + fds@.take(j + 1));
            j = j + 1;
        }
        assert(fds@.take(m as int) =~= fds@);
        n
    }

    /// Where the words that have not been handled start, once there is room for one receipt: they
    /// are moved to the start of the storage where that is wanted or needed.
    pub open spec fn start_with_room(self) -> int {
        let len = self.pending().len();
        if len == 0 || self.compacts() || self.start() + len > MAX_WORDS_OUT {
            0
        } else {
            self.start()
        }
    }

    fn make_room(&mut self)
        requires
            old(self).wf(),
            old(self).pending().len() <= MAX_WORDS_OUT,
        ensures
            final(self).wf(),
            final(self).back <= MAX_WORDS_OUT,
            final(self).pending() == old(self).pending(),
            final(self).fds == old(self).fds,
            final(self).always_compact == old(self).always_compact,
            final(self).start() == old(self).start_with_room(),
    {
        let len: usize = self.back - self.front;
        if len > 0 {
            if self.always_compact || self.back > MAX_WORDS_OUT {
                self.compact();
            }
        } else {
            self.back = 0;
            self.front = 0;
            assert(self.pending() =~= old(self).pending());
        }
    }

    /// Moves what has not been handled to the start of the storage.
    pub fn compact(&mut self)
        requires
            old(self).wf(),
        ensures
            final(self).wf(),
            final(self).pending() == old(self).pending(),
            final(self).start() == 0,
            final(self).queue() == old(self).queue(),
            final(self).compacts() == old(self).compacts(),
    {
        let len: usize = self.back - self.front;
        let front: usize = self.front;
        let ghost before = self.data@;
        let mut i: usize = 0;
        while i < len
            invariant
                i <= len,
                len == self.back - front,
                self.front == front,
                self.wf(),
                before.len() == 2 * MAX_WORDS_OUT,
                self.fds == old(self).fds,
                self.back == old(self).back,
                self.always_compact == old(self).always_compact,
                forall|k: int| 0 <= k < i ==> self.data@[k] == before[front + k],
                forall|k: int| i <= k < before.len() ==> self.data@[k] == before[k],
            decreases len - i,
        {
            let word: u32 = self.data[front + i];
            self.data.set(i, word);
            i = i + 1;
        }
        self.back = len;
        self.front = 0;
        assert(self.pending() =~= old(self).pending());
    }
}

} // verus!
