//! Reassembly of frames from a live byte stream.
//!
//! Bytes are appended at the back of a fixed-capacity buffer as they are
//! read; frames are decoded from the front and dropped once dispatched.
//! A malformed front is discarded by exactly the amount the codec asks
//! for, and draining goes on at once, so corrupted input can never stall
//! the stream.
use vstd::prelude::*;

use crate::codec::{decode, decode_spec, lemma_decode_progress, Error, MessageType};
use slice_deque::SliceDeque;

verus! {

/// The largest buffer capacity that a stream accepts: the deque maps
/// twice the capacity it is asked for.
pub const MAX_STREAM_CAPACITY: usize = usize::MAX / 4;

#[verifier::external_type_specification]
#[verifier::external_body]
#[verifier::reject_recursive_types(T)]
pub struct ExSliceDeque<T>(SliceDeque<T>);

/// The bytes held by a deque, front first.
pub uninterp spec fn deque_contents(d: SliceDeque<u8>) -> Seq<u8>;

/// Relies on `SliceDeque::with_capacity`: a new deque is empty.
#[verifier::external_body]
fn deque_new(capacity: usize) -> (r: SliceDeque<u8>)
    requires
        1 <= capacity <= MAX_STREAM_CAPACITY,
    ensures
        deque_contents(r) == Seq::<u8>::empty(),
{
    SliceDeque::with_capacity(capacity)
}

/// Relies on `SliceDeque::len`: the number of bytes held.
#[verifier::external_body]
fn deque_len(d: &SliceDeque<u8>) -> (r: usize)
    ensures
        r == deque_contents(*d).len(),
{
    d.len()
}

/// Relies on `SliceDeque::as_slice`: all bytes held, front first.
#[verifier::external_body]
fn deque_slice(d: &SliceDeque<u8>) -> (r: &[u8])
    ensures
        r@ == deque_contents(*d),
{
    d.as_slice()
}

/// Relies on `SliceDeque::extend_from_slice`: appends at the back.
#[verifier::external_body]
fn deque_append(d: &mut SliceDeque<u8>, s: &[u8])
    requires
        deque_contents(*old(d)).len() + s@.len() <= MAX_STREAM_CAPACITY,
    ensures
        deque_contents(*final(d)) == deque_contents(*old(d)) + s@,
{
    d.extend_from_slice(s)
}

/// Relies on `SliceDeque::truncate_front`: keeps the last `keep` bytes.
#[verifier::external_body]
fn deque_keep_back(d: &mut SliceDeque<u8>, keep: usize)
    requires
        keep <= deque_contents(*old(d)).len(),
    ensures
        deque_contents(*final(d)) == deque_contents(*old(d)).subrange(
            deque_contents(*old(d)).len() - keep,
            deque_contents(*old(d)).len() as int,
        ),
{
    d.truncate_front(keep)
}

/// A decoded message: its type and its payload.
#[derive(Debug)]
pub struct Message {
    pub kind: MessageType,
    pub payload: Vec<u8>,
}

/// Why bytes could not be taken into a stream.
#[derive(Clone, Copy, Debug, PartialEq, Eq, Structural)]
pub enum StreamError {
    /// Appending the bytes would exceed the buffer's fixed capacity.
    BufferFull,
}

/// What draining a buffer gives: the messages decoded, in order, and the
/// bytes left once no further frame can be taken.
pub open spec fn drain_spec(buf: Seq<u8>, cap: nat) -> (Seq<(MessageType, Seq<u8>)>, Seq<u8>)
    decreases buf.len(),
{
    match decode_spec(buf, cap) {
        Ok((t, used, payload)) => if used == 0 || used > buf.len() {
            (Seq::empty(), buf)
        } else {
            let rest = drain_spec(buf.subrange(used as int, buf.len() as int), cap);
            (seq![(t, payload)] + rest.0, rest.1)
        },
        Err(Error::InvalidLength(k)) => if k == 0 || k > buf.len() {
            (Seq::empty(), buf)
        } else {
            drain_spec(buf.subrange(k as int, buf.len() as int), cap)
        },
        Err(_) => (Seq::empty(), buf),
    }
}

/// How many times draining `buf` calls the decoder.
pub open spec fn drain_steps(buf: Seq<u8>, cap: nat) -> nat
    decreases buf.len(),
{
    match decode_spec(buf, cap) {
        Ok((_, used, _)) => if used == 0 || used > buf.len() {
            1
        } else {
            1 + drain_steps(buf.subrange(used as int, buf.len() as int), cap)
        },
        Err(Error::InvalidLength(k)) => if k == 0 || k > buf.len() {
            1
        } else {
            1 + drain_steps(buf.subrange(k as int, buf.len() as int), cap)
        },
        Err(_) => 1,
    }
}

/// Draining ends on its own, whatever the bytes: it calls the decoder at
/// most once more than there are bytes buffered, since every call but the
/// last consumes a frame or discards at least one byte.
pub proof fn lemma_drain_terminates(buf: Seq<u8>, cap: nat)
    requires
        buf.len() <= usize::MAX,
    ensures
        drain_steps(buf, cap) <= buf.len() + 1,
    decreases buf.len(),
{
    lemma_decode_progress(buf, cap);
    match decode_spec(buf, cap) {
        Ok((_, used, _)) => {
            if !(used == 0 || used > buf.len()) {
                lemma_drain_terminates(buf.subrange(used as int, buf.len() as int), cap);
            }
        },
        Err(Error::InvalidLength(k)) => {
            lemma_drain_terminates(buf.subrange(k as int, buf.len() as int), cap);
        },
        Err(_) => {},
    }
}

/// Resynchronisation makes progress on its own: where the front of the
/// buffer cannot be decoded, the codec asks to drop between one byte and
/// all of them, and draining goes on from what is left with no new input.
pub proof fn lemma_resync_step(buf: Seq<u8>, cap: nat, k: usize)
    requires
        buf.len() <= usize::MAX,
        decode_spec(buf, cap) == Err::<(MessageType, nat, Seq<u8>), Error>(Error::InvalidLength(k)),
    ensures
        0 < k <= buf.len(),
        buf.subrange(k as int, buf.len() as int).len() < buf.len(),
        drain_spec(buf, cap) == drain_spec(buf.subrange(k as int, buf.len() as int), cap),
{
    lemma_decode_progress(buf, cap);
}

/// Draining never adds bytes: what is left is a suffix of the buffer.
pub proof fn lemma_drain_leaves_suffix(buf: Seq<u8>, cap: nat)
    requires
        buf.len() <= usize::MAX,
    ensures
        drain_spec(buf, cap).1.len() <= buf.len(),
        drain_spec(buf, cap).1 == buf.subrange(
            buf.len() - drain_spec(buf, cap).1.len(),
            buf.len() as int,
        ),
    decreases buf.len(),
{
    lemma_decode_progress(buf, cap);
    match decode_spec(buf, cap) {
        Ok((t, used, payload)) => {
            if !(used == 0 || used > buf.len()) {
                let rest = buf.subrange(used as int, buf.len() as int);
                lemma_drain_leaves_suffix(rest, cap);
                let r = drain_spec(rest, cap).1;
                assert(rest.subrange(rest.len() - r.len(), rest.len() as int) =~= buf.subrange(
                    buf.len() - r.len(),
                    buf.len() as int,
                ));
            } else {
                assert(buf.subrange(0, buf.len() as int) =~= buf);
            }
        },
        Err(Error::InvalidLength(k)) => {
            let rest = buf.subrange(k as int, buf.len() as int);
            lemma_drain_leaves_suffix(rest, cap);
            let r = drain_spec(rest, cap).1;
            assert(rest.subrange(rest.len() - r.len(), rest.len() as int) =~= buf.subrange(
                buf.len() - r.len(),
                buf.len() as int,
            ));
        },
        Err(_) => {
            assert(buf.subrange(0, buf.len() as int) =~= buf);
        },
    }
}

/// The view of a message: its type and payload bytes.
pub open spec fn message_view(m: Message) -> (MessageType, Seq<u8>) {
    (m.kind, m.payload@)
}

/// A byte stream being cut into frames.
pub struct Stream {
    buffer: SliceDeque<u8>,
    capacity: usize,
    scratch: Vec<u8>,
}

impl Stream {
    /// The bytes buffered, front first.
    pub closed spec fn contents(&self) -> Seq<u8> {
        deque_contents(self.buffer)
    }

    pub closed spec fn spec_capacity(&self) -> nat {
        self.capacity as nat
    }

    pub closed spec fn wf(&self) -> bool {
        &&& 1 <= self.capacity <= MAX_STREAM_CAPACITY
        &&& self.scratch.len() == self.capacity
        &&& deque_contents(self.buffer).len() <= self.capacity
    }

    /// An empty stream whose buffer holds at most `capacity` bytes.
    pub fn new(capacity: usize) -> (r: Stream)
        requires
            1 <= capacity <= MAX_STREAM_CAPACITY,
        ensures
            r.wf(),
            r.contents() == Seq::<u8>::empty(),
            r.spec_capacity() == capacity,
    {
        Stream { buffer: deque_new(capacity), capacity, scratch: vec![0u8; capacity] }
    }

    pub fn capacity(&self) -> (r: usize)
        requires
            self.wf(),
        ensures
            r == self.spec_capacity(),
    {
        self.capacity
    }

    /// The number of bytes buffered.
    pub fn len(&self) -> (r: usize)
        requires
            self.wf(),
        ensures
            r == self.contents().len(),
    {
        deque_len(&self.buffer)
    }

    /// Appends `chunk` and decodes every frame that is then complete,
    /// returning the messages in order. Fails, leaving the stream as it
    /// was, when the chunk does not fit in the free space.
    pub fn push(&mut self, chunk: &[u8]) -> (r: Result<Vec<Message>, StreamError>)
        requires
            old(self).wf(),
        ensures
            final(self).wf(),
            final(self).spec_capacity() == old(self).spec_capacity(),
            match r {
                Ok(msgs) => {
                    let d = drain_spec(old(self).contents() + chunk@, old(self).spec_capacity());
                    &&& old(self).contents().len() + chunk@.len() <= old(self).spec_capacity()
                    &&& msgs@.map_values(|m: Message| message_view(m)) == d.0
                    &&& final(self).contents() == d.1
                },
                Err(e) => e == StreamError::BufferFull && old(self).contents().len()
                    + chunk@.len() > old(self).spec_capacity() && final(self).contents() == old(
                    self,
                ).contents(),
            },
    {
        let held = deque_len(&self.buffer);
        if chunk.len() > self.capacity - held {
            return Err(StreamError::BufferFull);
        }
        deque_append(&mut self.buffer, chunk);
        let (msgs, _calls) = self.drain();
        Ok(msgs)
    }

    /// Decodes every complete frame at the front of the buffer, with no
    /// new input; also gives the number of decoder calls it made.
    fn drain(&mut self) -> (r: (Vec<Message>, Ghost<nat>))
        requires
            old(self).wf(),
        ensures
            final(self).wf(),
            final(self).spec_capacity() == old(self).spec_capacity(),
            r.1@ == drain_steps(old(self).contents(), old(self).spec_capacity()),
            r.1@ <= old(self).contents().len() + 1,
            r.0@.map_values(|m: Message| message_view(m)) == drain_spec(
                old(self).contents(),
                old(self).spec_capacity(),
            ).0,
            final(self).contents() == drain_spec(old(self).contents(), old(self).spec_capacity()).1,
    {
        let ghost start = self.contents();
        let ghost cap = self.capacity as nat;
        let mut out: Vec<Message> = Vec::new();
        let ghost mut calls: nat = 0;
        proof {
            lemma_drain_terminates(start, cap);
        }
        loop
            invariant
                self.wf(),
                calls + drain_steps(self.contents(), cap) == drain_steps(start, cap),
                drain_steps(start, cap) <= start.len() + 1,
                self.capacity == cap,
                cap == old(self).spec_capacity(),
                start == old(self).contents(),
                drain_spec(start, cap) == (
                    out@.map_values(|m: Message| message_view(m)) + drain_spec(
                        self.contents(),
                        cap,
                    ).0,
                    drain_spec(self.contents(), cap).1,
                ),
            decreases self.contents().len(),
        {
            let ghost cur = self.contents();
            let held = deque_len(&self.buffer);
            let res = decode(deque_slice(&self.buffer), &mut self.scratch);
            proof {
                lemma_decode_progress(cur, cap);
                calls = calls + 1;
            }
            match res {
                Ok((kind, used, written)) => {
                    let payload = copy_prefix(&self.scratch, written);
                    let ghost before = out@;
                    out.push(Message { kind, payload });
                    assert(out@.map_values(|m: Message| message_view(m)) =~= before.map_values(
                        |m: Message| message_view(m),
                    ) + seq![(kind, payload@)]);
                    deque_keep_back(&mut self.buffer, held - used);
                    let ghost rest = drain_spec(self.contents(), cap);
                    assert(self.contents() =~= cur.subrange(used as int, cur.len() as int));
                    assert(before.map_values(|m: Message| message_view(m)) + (seq![
                        (kind, payload@),
                    ] + rest.0) =~= (before.map_values(|m: Message| message_view(m)) + seq![
                        (kind, payload@),
                    ]) + rest.0);
                },
                Err(Error::InvalidLength(k)) => {
                    deque_keep_back(&mut self.buffer, held - k);
                    assert(self.contents() =~= cur.subrange(k as int, cur.len() as int));
                },
                Err(_) => {
                    assert(out@.map_values(|m: Message| message_view(m)) + Seq::empty()
                        =~= out@.map_values(|m: Message| message_view(m)));
                    return (out, Ghost(calls));
                },
            }
        }
    }
}

/// A copy of the first `n` bytes of `v`.
fn copy_prefix(v: &Vec<u8>, n: usize) -> (r: Vec<u8>)
    requires
        n <= v.len(),
    ensures
        r@ == v@.subrange(0, n as int),
{
    let mut r: Vec<u8> = Vec::with_capacity(n);
    let mut i: usize = 0;
    while i < n
        invariant
            i <= n <= v.len(),
            r@ == v@.subrange(0, i as int),
        decreases n - i,
    {
        r.push(v[i]);
        assert(r@ =~= v@.subrange(0, i + 1));
        i = i + 1;
    }
    r
}

} // verus!
