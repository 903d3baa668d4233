use std::collections::VecDeque;
use waydapt::basics::{to_u8_vec, ByteOrder, Fd};
use waydapt::buffers::InBuffer;
use waydapt::chunk::{new_chunk, words_of, ExtendChunk};
use waydapt::header::MessageHeader;
use waydapt::outbuffer::{OutBuffer, Payload, SendAction, SendJob, SendReply, ALLOWED_EXCESS_CHUNKS};

/// A pair of connected sockets. What is sent in one piece keeps its file descriptors, which are
/// received with its first words.
struct Pipe {
    pieces: VecDeque<(VecDeque<u32>, Vec<Fd>)>,
}

impl Pipe {
    fn new() -> Self {
        Pipe { pieces: VecDeque::new() }
    }

    fn send(&mut self, words: &[u32], fds: &[Fd]) -> usize {
        self.pieces.push_back((words.iter().copied().collect(), fds.to_vec()));
        words.len()
    }

    fn recv(&mut self) -> (Vec<u32>, Vec<Fd>) {
        let mut words = Vec::new();
        let mut fds = Vec::new();
        while words.len() < 1024 {
            let Some((piece, piece_fds)) = self.pieces.front_mut() else { break };
            if !fds.is_empty() && !piece_fds.is_empty() {
                break;
            }
            fds.append(piece_fds);
            while words.len() < 1024 {
                match piece.pop_front() {
                    Some(w) => words.push(w),
                    None => break,
                }
            }
            if piece.is_empty() {
                self.pieces.pop_front();
            }
            if !fds.is_empty() {
                break;
            }
        }
        (words, fds)
    }
}

fn receive(inbuf: &mut InBuffer, pipe: &mut Pipe) -> usize {
    assert!(inbuf.has_room());
    let (words, fds) = pipe.recv();
    inbuf.receive(&words, fds)
}

fn run(outbuf: &mut OutBuffer, mut job: SendJob, pipe: &mut Pipe) -> usize {
    loop {
        match outbuf.advance(&mut job) {
            SendAction::Transmit { words, fds } => {
                pipe.send(&words, &fds);
                assert_eq!(outbuf.reply(&mut job, SendReply::Accepted), fds);
            }
            SendAction::Finished { flushed } => return flushed as usize,
        }
    }
}

fn flush(outbuf: &mut OutBuffer, pipe: &mut Pipe) -> usize {
    let job = outbuf.flush(true);
    run(outbuf, job, pipe)
}

fn send_raw(outbuf: &mut OutBuffer, pipe: &mut Pipe, fds: Vec<Fd>, msg: &[u32]) -> usize {
    let job = outbuf.send(fds, Payload::Raw(msg.to_vec()));
    run(outbuf, job, pipe)
}

fn pop(inbuf: &mut InBuffer) -> Option<Vec<u32>> {
    inbuf.try_pop().map(|(msg, _)| msg.to_vec())
}

fn chunks(outbuf: &OutBuffer) -> usize {
    outbuf.counts().0
}

fn front_len(outbuf: &OutBuffer) -> usize {
    outbuf.counts().1
}

fn back_len(outbuf: &OutBuffer) -> usize {
    outbuf.counts().2
}

fn free_chunks(outbuf: &OutBuffer) -> usize {
    outbuf.counts().3
}

fn fd_count(outbuf: &OutBuffer) -> usize {
    outbuf.counts().4
}

// A quick-and-dirty fake message with deterministic but distinct contents:
fn fake_msg(object_id: u32, nwords: u16) -> Vec<u32> {
    assert!(nwords >= 2);
    let mut msg = Vec::with_capacity(nwords as usize);
    let hdr = MessageHeader { object_id, opcode: 42, size: 4 * nwords };
    msg.extend_from_slice(&hdr.as_words());
    for i in 2..nwords {
        msg.push(u32::from(i) ^ object_id);
    }
    msg
}

// A fake message whose one argument is an array, so that it can be put together again:
fn fake_msg_for_send(object_id: u32, nwords: u16) -> Vec<u32> {
    assert!(nwords >= 2);
    let mut msg = Vec::with_capacity(nwords as usize);
    let hdr = MessageHeader { object_id, opcode: 42, size: 4 * nwords };
    msg.extend_from_slice(&hdr.as_words());
    if nwords > 2 {
        msg.push(u32::from((nwords - 3) * 4));
        for i in 3..nwords {
            msg.push(u32::from(i) ^ object_id);
        }
    }
    msg
}

fn send_fake_msg_for_send(
    outbuf: &mut OutBuffer,
    pipe: &mut Pipe,
    fds: Vec<Fd>,
    msg: &[u32],
) -> usize {
    let mut chunk = new_chunk();
    let mut ec = ExtendChunk::new(&mut chunk, ByteOrder::native());
    ec.add_array(&to_u8_vec(ByteOrder::native(), &msg[3..]));
    let body = words_of(&chunk).to_vec();
    let job = outbuf.send(fds, Payload::Marshalled(MessageHeader::new(msg), body));
    run(outbuf, job, pipe)
}

#[test]
fn inbuf_test1() {
    let mut pipe = Pipe::new();
    let mut inbuf = InBuffer::new(false);
    let msg1 = fake_msg(1, 512);
    let msg2 = fake_msg(2, 512);

    assert_eq!(pipe.send(&msg1, &[]), msg1.len());
    assert_eq!(pipe.send(&msg2, &[]), msg2.len());
    assert_eq!(receive(&mut inbuf, &mut pipe), msg1.len() + msg2.len());
    // the inbuf contains only those two:
    assert_eq!(inbuf.positions(), (0, msg1.len() + msg2.len()));

    // Pop the first msg and compare contents with what was sent:
    assert_eq!(pop(&mut inbuf).unwrap(), msg1);
    inbuf.compact(); // should have no impact on contents, only on position
    assert_eq!(inbuf.positions(), (0, msg2.len()));

    // Pop the second msg and compare contents with what was sent:
    assert_eq!(pop(&mut inbuf).unwrap(), msg2);
    // Now empty, but with non-0 front/back:
    assert_eq!(inbuf.positions(), (msg2.len(), msg2.len()));
}

#[test]
fn inbuf_test2() {
    let mut pipe = Pipe::new();
    let mut inbuf = InBuffer::new(false);
    // send 3 long msgs, with total length > 1024 words.
    let msg1 = fake_msg(1, 256);
    let msg2 = fake_msg(2, 1024);
    let msg3 = fake_msg(3, 512);

    assert_eq!(pipe.send(&msg1, &[]), msg1.len());
    assert_eq!(pipe.send(&msg2, &[]), msg2.len());
    // we need 2 receives, because its more than 1024 words
    assert_eq!(receive(&mut inbuf, &mut pipe), 1024);
    assert_eq!(receive(&mut inbuf, &mut pipe), msg1.len() + msg2.len() - 1024);
    assert_eq!(inbuf.positions(), (0, msg1.len() + msg2.len()));
    assert_eq!(inbuf.waiting()[0..msg1.len()], msg1);
    assert_eq!(inbuf.waiting()[msg1.len()..msg1.len() + msg2.len()], msg2);

    // pop the first msg.
    assert_eq!(pop(&mut inbuf).unwrap(), msg1);
    // empty space from where it was popped
    assert_eq!(inbuf.positions(), (msg1.len(), msg1.len() + msg2.len()));

    // send msg 3 - this will cause a compact in all cases
    assert_eq!(pipe.send(&msg3, &[]), msg3.len());
    assert_eq!(receive(&mut inbuf, &mut pipe), msg3.len());
    assert_eq!(inbuf.positions(), (0, msg2.len() + msg3.len()));

    // Now pop the second msg.
    assert_eq!(pop(&mut inbuf).unwrap(), msg2);
    assert_eq!(inbuf.positions(), (msg2.len(), msg2.len() + msg3.len()));

    // 3rd msg.
    assert_eq!(pop(&mut inbuf).unwrap(), msg3);
    assert_eq!(inbuf.positions(), (msg2.len() + msg3.len(), msg2.len() + msg3.len()));
}

#[test]
fn inbuf_compacts_every_time_if_told_to() {
    let mut pipe = Pipe::new();
    let mut lazy = InBuffer::new(false);
    let mut eager = InBuffer::new(true);
    let msg1 = fake_msg(1, 16);
    let msg2 = fake_msg(2, 16);
    let msg3 = fake_msg(3, 16);
    for inbuf in [&mut lazy, &mut eager] {
        pipe.send(&msg1, &[]);
        pipe.send(&msg2, &[]);
        assert_eq!(receive(inbuf, &mut pipe), 32);
        assert_eq!(pop(inbuf).unwrap(), msg1);
        pipe.send(&msg3, &[]);
        assert_eq!(receive(inbuf, &mut pipe), 16);
    }
    assert_eq!(lazy.positions(), (16, 48));
    assert_eq!(eager.positions(), (0, 32));
    for inbuf in [&mut lazy, &mut eager] {
        assert_eq!(pop(inbuf).unwrap(), msg2);
        assert_eq!(pop(inbuf).unwrap(), msg3);
        assert!(pop(inbuf).is_none());
    }
}

#[test]
fn inbuf_waits_for_the_whole_message() {
    let mut inbuf = InBuffer::new(false);
    let msg = fake_msg(7, 10);
    assert!(pop(&mut inbuf).is_none());
    assert_eq!(inbuf.receive(&msg[..1], vec![3]), 1);
    assert!(pop(&mut inbuf).is_none());
    assert_eq!(inbuf.receive(&msg[1..9], Vec::new()), 8);
    assert!(pop(&mut inbuf).is_none());
    assert_eq!(inbuf.receive(&msg[9..], vec![4]), 1);
    let (whole, fds) = inbuf.try_pop().unwrap();
    assert_eq!(whole, &msg[..]);
    assert_eq!(fds.iter().copied().collect::<Vec<Fd>>(), vec![3, 4]);
}

#[test]
fn inout_test1() {
    // Just a trivial single msg to sanity test end-to-end buffering
    for limit in [false, true] {
        let mut pipe = Pipe::new();
        let mut inbuf = InBuffer::new(false);
        let mut outbuf = OutBuffer::new(limit, false);
        let msg = fake_msg(1, 1024);

        assert_eq!(send_raw(&mut outbuf, &mut pipe, Vec::new(), &msg), 0); // not flushed
        assert_eq!(flush(&mut outbuf, &mut pipe), msg.len());
        assert_eq!(receive(&mut inbuf, &mut pipe), msg.len());
        assert_eq!(pop(&mut inbuf).unwrap(), msg);
    }
}

#[test]
fn inout_send_test1() {
    // Same as inout_test1, but put the message together
    for limit in [false, true] {
        let mut pipe = Pipe::new();
        let mut inbuf = InBuffer::new(false);
        let mut outbuf = OutBuffer::new(limit, false);
        let msg = fake_msg_for_send(1, 1024);

        // not flushed
        assert_eq!(send_fake_msg_for_send(&mut outbuf, &mut pipe, Vec::new(), &msg), 0);
        assert_eq!(flush(&mut outbuf, &mut pipe), msg.len());
        assert_eq!(receive(&mut inbuf, &mut pipe), msg.len());
        assert_eq!(pop(&mut inbuf).unwrap(), msg);
    }
}

#[test]
fn inout_test2() {
    // Exercise msg splitting by using msgs that don't add up to a multiple of 1024
    for limit in [false, true] {
        let mut pipe = Pipe::new();
        let mut inbuf = InBuffer::new(false);
        let mut outbuf = OutBuffer::new(limit, false);

        // Prevent flushes so we can examine the full impact of the splitting, if any occurred
        outbuf.hold_back();
        let msgs: Vec<Vec<u32>> = (0..3).map(|i| fake_msg(i, 384)).collect();
        for m in &msgs {
            assert_eq!(send_raw(&mut outbuf, &mut pipe, Vec::new(), m), 0); // not flushed
        }
        assert_eq!(flush(&mut outbuf, &mut pipe), 0); // still not flushed
        if limit {
            assert_eq!(chunks(&outbuf), 2);
            assert_eq!(front_len(&outbuf), 1024);
            assert_eq!(back_len(&outbuf), 128);
        } else {
            assert_eq!(chunks(&outbuf), 1);
            assert_eq!(front_len(&outbuf), 1152);
        }

        outbuf.got_output_event(); // allow flushes
        assert_eq!(flush(&mut outbuf, &mut pipe), 1152);
        assert_eq!(chunks(&outbuf), 1);
        assert_eq!(free_chunks(&outbuf), if limit { 1 } else { 0 });

        assert_eq!(receive(&mut inbuf, &mut pipe), 1024);
        assert_eq!(pop(&mut inbuf).unwrap(), msgs[0]);
        assert_eq!(pop(&mut inbuf).unwrap(), msgs[1]);
        assert!(pop(&mut inbuf).is_none()); // no more complete msgs until we receive more data

        assert_eq!(receive(&mut inbuf, &mut pipe), 128);
        assert_eq!(pop(&mut inbuf).unwrap(), msgs[2]);
        assert!(pop(&mut inbuf).is_none());
    }
}

#[test]
fn inout_free_chunks_test1() {
    // The list of free chunks, its max length, and re-use of chunks
    let mut pipe = Pipe::new();
    let mut inbuf = InBuffer::new(false);
    let mut outbuf = OutBuffer::new(true, false);
    let count = ALLOWED_EXCESS_CHUNKS + 2;
    let msgs: Vec<Vec<u32>> = (0..count as u32).map(|i| fake_msg(i, 1024)).collect();

    // the second time around the free list is used again:
    for _ in 0..2 {
        outbuf.hold_back(); // prevent flushes
        for m in &msgs {
            assert_eq!(send_raw(&mut outbuf, &mut pipe, Vec::new(), m), 0); // not flushed
        }
        assert_eq!(chunks(&outbuf), count);
        assert_eq!(free_chunks(&outbuf), 0);

        outbuf.got_output_event(); // allow flushes
        assert_eq!(flush(&mut outbuf, &mut pipe), count * 1024);
        assert_eq!(chunks(&outbuf), 1);
        assert_eq!(free_chunks(&outbuf), ALLOWED_EXCESS_CHUNKS);

        for m in &msgs {
            assert_eq!(receive(&mut inbuf, &mut pipe), 1024);
            assert_eq!(&pop(&mut inbuf).unwrap(), m);
        }
    }
}

#[test]
fn inout_send_test2() {
    // Like inout_test2, only with messages that are put together. They are never split, so a chunk
    // takes one more as long as there is room for the longest.
    for limit in [false, true] {
        let mut pipe = Pipe::new();
        let mut inbuf = InBuffer::new(false);
        let mut outbuf = OutBuffer::new(limit, false);

        outbuf.hold_back(); // prevent flushes
        let msgs: Vec<Vec<u32>> = (0..3).map(|i| fake_msg_for_send(i, 384)).collect();
        for m in &msgs {
            assert_eq!(send_fake_msg_for_send(&mut outbuf, &mut pipe, Vec::new(), m), 0);
        }
        assert_eq!(flush(&mut outbuf, &mut pipe), 0); // still not flushed
        if limit {
            assert_eq!(chunks(&outbuf), 2);
            assert_eq!(front_len(&outbuf), 1024);
            assert_eq!(back_len(&outbuf), 128);
        } else {
            assert_eq!(chunks(&outbuf), 1);
            assert_eq!(front_len(&outbuf), 1152);
        }

        outbuf.got_output_event(); // allow flushes
        assert_eq!(flush(&mut outbuf, &mut pipe), 1152);
        assert_eq!(chunks(&outbuf), 1);
        assert_eq!(free_chunks(&outbuf), if limit { 1 } else { 0 });

        assert_eq!(receive(&mut inbuf, &mut pipe), 1024);
        assert_eq!(pop(&mut inbuf).unwrap(), msgs[0]);
        assert_eq!(pop(&mut inbuf).unwrap(), msgs[1]);
        assert_eq!(receive(&mut inbuf, &mut pipe), 128);
        assert_eq!(pop(&mut inbuf).unwrap(), msgs[2]);
    }
}

#[test]
fn inout_send_test3() {
    // Like inout_send_test2, but with an additional msg to exercise splitting even where sends are
    // not limited.
    for limit in [false, true] {
        let mut pipe = Pipe::new();
        let mut inbuf = InBuffer::new(false);
        let mut outbuf = OutBuffer::new(limit, false);

        outbuf.hold_back(); // prevent flushes
        let msgs: Vec<Vec<u32>> = (0..4).map(|i| fake_msg_for_send(i, 384)).collect();
        for m in &msgs {
            assert_eq!(send_fake_msg_for_send(&mut outbuf, &mut pipe, Vec::new(), m), 0);
        }
        assert_eq!(flush(&mut outbuf, &mut pipe), 0); // still not flushed
        assert_eq!(chunks(&outbuf), 2);
        if limit {
            assert_eq!(front_len(&outbuf), 1024);
            assert_eq!(back_len(&outbuf), 512);
        } else {
            assert_eq!(front_len(&outbuf), 1152);
            assert_eq!(back_len(&outbuf), 384);
        }

        outbuf.got_output_event(); // allow flushes
        assert_eq!(flush(&mut outbuf, &mut pipe), 1536);
        assert_eq!(chunks(&outbuf), 1);
        assert_eq!(free_chunks(&outbuf), 1);

        assert_eq!(receive(&mut inbuf, &mut pipe), 1024);
        assert_eq!(pop(&mut inbuf).unwrap(), msgs[0]);
        assert_eq!(pop(&mut inbuf).unwrap(), msgs[1]);
        assert_eq!(receive(&mut inbuf, &mut pipe), 512);
        assert_eq!(pop(&mut inbuf).unwrap(), msgs[2]);
        assert_eq!(pop(&mut inbuf).unwrap(), msgs[3]);
    }
}

#[test]
fn fd_test1() {
    // Sanity test for fds - send 2 fds with a tiny msg.
    let mut pipe = Pipe::new();
    let mut inbuf = InBuffer::new(false);
    let mut outbuf = OutBuffer::new(false, false);
    let msg = fake_msg(1, 2);

    assert_eq!(send_raw(&mut outbuf, &mut pipe, vec![42, 13], &msg), 0); // not flushed
    assert_eq!(flush(&mut outbuf, &mut pipe), 2);
    assert_eq!(receive(&mut inbuf, &mut pipe), 2);

    let (inmsg, fdqueue) = inbuf.try_pop().unwrap();
    assert_eq!(inmsg, &msg[..]);
    assert_eq!(fdqueue.len(), 2);
    assert_eq!(fdqueue.pop_front().unwrap(), 42);
    assert_eq!(fdqueue.pop_front().unwrap(), 13);
}

#[test]
fn too_many_fds_test1() {
    let mut pipe = Pipe::new();
    let mut inbuf = InBuffer::new(false);
    let mut outbuf = OutBuffer::new(false, false);

    outbuf.hold_back(); // prevent auto flush

    // 28 fds can be sent at once, and a msg can have 20. Use 2 msgs with 20 fds each to force a
    // second chunk.
    let msg1 = fake_msg(1, 2);
    let fd1: Vec<Fd> = (0..20).collect();
    let msg2 = fake_msg(2, 2);
    let fd2: Vec<Fd> = (20..40).collect();

    assert_eq!(send_raw(&mut outbuf, &mut pipe, fd1, &msg1), 0);
    assert_eq!(chunks(&outbuf), 1);
    assert_eq!(send_raw(&mut outbuf, &mut pipe, fd2, &msg2), 0);
    assert_eq!(chunks(&outbuf), 2); // fds forced a second chunk
    assert_eq!(fd_count(&outbuf), 40);

    outbuf.got_output_event(); // open the flood gates
    assert_eq!(flush(&mut outbuf, &mut pipe), 4);
    assert_eq!(chunks(&outbuf), 1);
    assert_eq!(front_len(&outbuf), 0);
    assert_eq!(fd_count(&outbuf), 0);

    assert_eq!(receive(&mut inbuf, &mut pipe), 2);
    let (inmsg1, fdqueue1) = inbuf.try_pop().unwrap();
    assert_eq!(inmsg1, &msg1[..]);
    assert_eq!(fdqueue1.len(), 28);
    for i in 0..28 {
        assert_eq!(fdqueue1.pop_front().unwrap(), i);
    }
    assert!(inbuf.try_pop().is_none());

    assert_eq!(receive(&mut inbuf, &mut pipe), 2);
    let (inmsg2, fdqueue2) = inbuf.try_pop().unwrap();
    assert_eq!(inmsg2, &msg2[..]);
    // Now we get the remaining 12 fds
    assert_eq!(fdqueue2.len(), 12);
    for i in 28..40 {
        assert_eq!(fdqueue2.pop_front().unwrap(), i);
    }
}

#[test]
fn too_many_fds_are_flushed_before_the_message() {
    let mut pipe = Pipe::new();
    let mut outbuf = OutBuffer::new(false, false);
    let msg1 = fake_msg(1, 2);
    let msg2 = fake_msg(2, 2);
    assert_eq!(send_raw(&mut outbuf, &mut pipe, (0..20).collect(), &msg1), 0);
    assert!(pipe.pieces.is_empty());
    assert_eq!(send_raw(&mut outbuf, &mut pipe, (20..40).collect(), &msg2), 0);
    // the first message has been sent, with as many fds as can be
    assert_eq!(pipe.recv(), (msg1, (0..28).collect()));
    assert_eq!(chunks(&outbuf), 1);
    assert_eq!(front_len(&outbuf), 2);
    assert_eq!(fd_count(&outbuf), 12);
}

#[test]
fn inout_send_with_fd_test() {
    // Where more than 4K bytes are sent at once, the fds come with the first part that is received.
    for limit in [false, true] {
        let mut pipe = Pipe::new();
        let mut inbuf = InBuffer::new(false);
        let mut outbuf = OutBuffer::new(limit, false);

        outbuf.hold_back(); // prevent flushes
        let msgs: Vec<Vec<u32>> = (0..3).map(|i| fake_msg_for_send(i, 384)).collect();

        assert_eq!(send_fake_msg_for_send(&mut outbuf, &mut pipe, vec![1], &msgs[0]), 0);
        assert_eq!(send_fake_msg_for_send(&mut outbuf, &mut pipe, Vec::new(), &msgs[1]), 0);
        assert_eq!(send_fake_msg_for_send(&mut outbuf, &mut pipe, Vec::new(), &msgs[2]), 0);
        assert_eq!(flush(&mut outbuf, &mut pipe), 0); // still not flushed

        assert_eq!(fd_count(&outbuf), 1);
        if limit {
            assert_eq!(chunks(&outbuf), 2);
            assert_eq!(front_len(&outbuf), 1024);
            assert_eq!(back_len(&outbuf), 128);
        } else {
            assert_eq!(chunks(&outbuf), 1);
            assert_eq!(front_len(&outbuf), 1152);
        }

        outbuf.got_output_event(); // allow flushes
        assert_eq!(flush(&mut outbuf, &mut pipe), 1152);
        assert_eq!(chunks(&outbuf), 1);
        assert_eq!(free_chunks(&outbuf), if limit { 1 } else { 0 });

        assert_eq!(receive(&mut inbuf, &mut pipe), 1024);
        let (inmsg, fdqueue) = inbuf.try_pop().unwrap();
        assert_eq!(inmsg, &msgs[0][..]);
        assert_eq!(fdqueue.len(), 1);
        assert_eq!(fdqueue.pop_front().unwrap(), 1);
        let (inmsg, fdqueue) = inbuf.try_pop().unwrap();
        assert_eq!(inmsg, &msgs[1][..]);
        assert!(fdqueue.is_empty());
        assert_eq!(receive(&mut inbuf, &mut pipe), 128);
        let (inmsg, fdqueue) = inbuf.try_pop().unwrap();
        assert_eq!(inmsg, &msgs[2][..]);
        assert!(fdqueue.is_empty());
    }
}

#[test]
fn refused_chunks_are_kept() {
    let mut pipe = Pipe::new();
    let mut outbuf = OutBuffer::new(true, true);
    let msg = fake_msg(9, 4);
    let mut job = outbuf.send(vec![5], Payload::Raw(msg.clone()));
    let SendAction::Transmit { words, fds } = outbuf.advance(&mut job) else { panic!() };
    assert_eq!(words, msg);
    assert_eq!(fds, vec![5]);
    assert!(outbuf.reply(&mut job, SendReply::Refused).is_empty());
    assert!(matches!(outbuf.advance(&mut job), SendAction::Finished { flushed: 0 }));
    // nothing is tried until there is room
    assert_eq!(flush(&mut outbuf, &mut pipe), 0);
    outbuf.got_output_event();
    assert_eq!(flush(&mut outbuf, &mut pipe), 4);
    assert_eq!(pipe.recv(), (msg, vec![5]));
}

#[test]
fn every_send_is_flushed_if_told_to() {
    let mut pipe = Pipe::new();
    let mut outbuf = OutBuffer::new(false, true);
    let msg = fake_msg(9, 4);
    assert_eq!(send_raw(&mut outbuf, &mut pipe, Vec::new(), &msg), 4);
    assert_eq!(pipe.recv().0, msg);
}

#[test]
fn test_extend_chunk() {
    // exercise ExtendChunk fully
    let mut chunk = new_chunk();
    let mut extend = ExtendChunk::new(&mut chunk, ByteOrder::native());

    extend.add_u32(42);
    extend.add_i32(13);
    extend.add_array(&[]);
    extend.add_array(&[0x01]);
    extend.add_array(&[0x23, 0x45]);
    extend.add_array(&[0x67, 0x89, 0xab]);
    extend.add_array(&[0xcd, 0xef, 0xfe, 0xdc]);
    extend.add_array(&[0xba, 0x98, 0x76, 0x54, 0x32, 0x10]);
    extend.add_array(b"abcdefghijklmnopqrstuvwxyz");
    let should_be = [
        42u32.to_ne_bytes(),
        13i32.to_ne_bytes(),
        0u32.to_ne_bytes(),
        1u32.to_ne_bytes(),
        [0x01, 0, 0, 0],
        2u32.to_ne_bytes(),
        [0x23, 0x45, 0, 0],
        3u32.to_ne_bytes(),
        [0x67, 0x89, 0xab, 0],
        4u32.to_ne_bytes(),
        [0xcd, 0xef, 0xfe, 0xdc],
        6u32.to_ne_bytes(),
        [0xba, 0x98, 0x76, 0x54],
        [0x32, 0x10, 0, 0],
        26u32.to_ne_bytes(),
        *b"abcd",
        *b"efgh",
        *b"ijkl",
        *b"mnop",
        *b"qrst",
        *b"uvwx",
        *b"yz\0\0",
    ]
    .concat();
    assert_eq!(to_u8_vec(ByteOrder::native(), words_of(&chunk)), should_be);
}

#[test]
fn negative_numbers_keep_their_bits() {
    let mut chunk = new_chunk();
    let mut extend = ExtendChunk::new(&mut chunk, ByteOrder::native());
    extend.add_i32(-1);
    extend.add_i32(i32::MIN);
    assert_eq!(words_of(&chunk), &[0xffff_ffff, 0x8000_0000]);
}
