//! A bounded single-producer/single-consumer byte queue.
//!
//! The producer asks for a region of free bytes (a grant), writes into it
//! and commits some prefix of it; the consumer reads the committed bytes
//! and releases a prefix of them. Storage is a ring: a region that runs
//! past the end of the storage continues at its start. A grant that does
//! not fit fails at once, so the producer never waits.
use vstd::prelude::*;

verus! {

/// Why a queue operation could not be done.
#[derive(Clone, Copy, Debug, PartialEq, Eq, Structural)]
pub enum QueueError {
    /// Not enough free bytes for the grant.
    Full,
    /// No committed bytes to read.
    Empty,
}

/// The index in storage of logical position `k`, for `k < 2 * cap`.
pub open spec fn wrap(k: int, cap: int) -> int {
    if k < cap {
        k
    } else {
        k - cap
    }
}

/// The largest radio packet, with its length byte.
pub const MAX_PACKET_LENGTH: usize = 128;

/// The record of a packet in the queue: its length byte, the packet, then
/// the link-quality byte; the length counts the packet and that byte.
pub open spec fn record_of(packet: Seq<u8>, lqi: u8) -> Seq<u8> {
    seq![(packet.len() + 1) as u8] + packet + seq![lqi]
}

pub struct PacketQueue {
    storage: Vec<u8>,
    /// Storage index of the oldest committed byte.
    head: usize,
    /// Committed bytes not yet released.
    occupied: usize,
    /// Size of the write grant in flight, 0 when there is none.
    granted: usize,
    total_committed: Ghost<nat>,
    total_released: Ghost<nat>,
}

impl PacketQueue {
    pub closed spec fn capacity(&self) -> nat {
        self.storage.len() as nat
    }

    /// The committed bytes that the consumer has not released, oldest first.
    pub closed spec fn contents(&self) -> Seq<u8> {
        Seq::new(
            self.occupied as nat,
            |i: int| self.storage@[wrap(self.head + i, self.storage.len() as int)],
        )
    }

    /// The bytes of the write grant in flight.
    pub closed spec fn grant_bytes(&self) -> Seq<u8> {
        Seq::new(
            self.granted as nat,
            |i: int| self.storage@[wrap(self.head + self.occupied + i, self.storage.len() as int)],
        )
    }

    /// Storage indices that the consumer may read.
    pub closed spec fn read_region(&self) -> Set<int> {
        Set::new(
            |j: int|
                exists|i: int|
                    0 <= i < self.occupied && j == #[trigger] wrap(self.head + i, self.storage.len() as int),
        )
    }

    /// Storage indices that the producer may write.
    pub closed spec fn write_region(&self) -> Set<int> {
        Set::new(
            |j: int|
                exists|i: int|
                    0 <= i < self.granted && j == #[trigger] wrap(
                        self.head + self.occupied + i,
                        self.storage.len() as int,
                    ),
        )
    }

    pub closed spec fn committed_total(&self) -> nat {
        self.total_committed@
    }

    pub closed spec fn released_total(&self) -> nat {
        self.total_released@
    }

    pub closed spec fn wf(&self) -> bool {
        &&& self.storage.len() > 0
        &&& self.head < self.storage.len()
        &&& self.occupied + self.granted <= self.storage.len()
        &&& self.total_committed@ >= self.total_released@
        &&& self.occupied == self.total_committed@ - self.total_released@
    }

    /// Bytes committed and not released.
    pub open spec fn occupancy(&self) -> nat {
        self.contents().len()
    }

    /// Size of the write grant in flight; 0 when none is.
    pub closed spec fn grant_len(&self) -> nat {
        self.granted as nat
    }

    /// An empty queue of `capacity` bytes.
    pub fn new(capacity: usize) -> (r: PacketQueue)
        requires
            capacity > 0,
        ensures
            r.wf(),
            r.capacity() == capacity,
            r.contents() == Seq::<u8>::empty(),
            r.grant_len() == 0,
            r.committed_total() == 0,
            r.released_total() == 0,
    {
        let r = PacketQueue {
            storage: vec![0u8; capacity],
            head: 0,
            occupied: 0,
            granted: 0,
            total_committed: Ghost(0),
            total_released: Ghost(0),
        };
        assert(r.contents() =~= Seq::<u8>::empty());
        r
    }

    /// The storage index of the byte `x` places after the oldest one.
    fn index_of(&self, x: usize) -> (r: usize)
        requires
            self.wf(),
            x < self.storage.len(),
        ensures
            r == wrap(self.head + x, self.storage.len() as int),
            r < self.storage.len(),
    {
        let to_end = self.storage.len() - self.head;
        if x < to_end {
            self.head + x
        } else {
            x - to_end
        }
    }

    /// The number of committed bytes available to the consumer.
    pub fn available(&self) -> (r: usize)
        requires
            self.wf(),
        ensures
            r == self.occupancy(),
    {
        self.occupied
    }

    /// Asks for `n` free bytes to write. Fails with `Full`, changing
    /// nothing, when fewer are free.
    pub fn grant(&mut self, n: usize) -> (r: Result<usize, QueueError>)
        requires
            old(self).wf(),
            old(self).grant_len() == 0,
        ensures
            final(self).wf(),
            final(self).capacity() == old(self).capacity(),
            final(self).contents() == old(self).contents(),
            final(self).committed_total() == old(self).committed_total(),
            final(self).released_total() == old(self).released_total(),
            match r {
                Ok(len) => len == n && n <= old(self).capacity() - old(self).occupancy()
                    && final(self).grant_len() == n,
                Err(e) => e == QueueError::Full && n > old(self).capacity() - old(
                    self,
                ).occupancy() && final(self).grant_len() == 0 && *final(self) == *old(self),
            },
    {
        if n > self.storage.len() - self.occupied {
            return Err(QueueError::Full);
        }
        self.granted = n;
        assert(self.contents() =~= old(self).contents());
        Ok(n)
    }

    /// Writes `b` at position `offset` of the write grant.
    pub fn write(&mut self, offset: usize, b: u8)
        requires
            old(self).wf(),
            offset < old(self).grant_len(),
        ensures
            final(self).wf(),
            final(self).capacity() == old(self).capacity(),
            final(self).contents() == old(self).contents(),
            final(self).grant_len() == old(self).grant_len(),
            final(self).grant_bytes() == old(self).grant_bytes().update(offset as int, b),
            final(self).committed_total() == old(self).committed_total(),
            final(self).released_total() == old(self).released_total(),
    {
        let idx = self.index_of(self.occupied + offset);
        self.storage.set(idx, b);
        assert(self.contents() =~= old(self).contents());
        assert(self.grant_bytes() =~= old(self).grant_bytes().update(offset as int, b));
    }

    /// Makes the first `used` bytes of the write grant visible to the
    /// consumer and ends the grant.
    pub fn commit(&mut self, used: usize)
        requires
            old(self).wf(),
            used <= old(self).grant_len(),
        ensures
            final(self).wf(),
            final(self).capacity() == old(self).capacity(),
            final(self).contents() == old(self).contents() + old(self).grant_bytes().subrange(
                0,
                used as int,
            ),
            final(self).grant_len() == 0,
            final(self).committed_total() == old(self).committed_total() + used,
            final(self).released_total() == old(self).released_total(),
    {
        self.occupied = self.occupied + used;
        self.granted = 0;
        self.total_committed = Ghost((self.total_committed@ + used) as nat);
        assert(self.contents() =~= old(self).contents() + old(self).grant_bytes().subrange(
            0,
            used as int,
        ));
    }

    /// The number of committed bytes, or `Empty` when there are none.
    pub fn read(&self) -> (r: Result<usize, QueueError>)
        requires
            self.wf(),
        ensures
            match r {
                Ok(n) => n == self.occupancy() && n > 0,
                Err(e) => e == QueueError::Empty && self.occupancy() == 0,
            },
    {
        if self.occupied == 0 {
            Err(QueueError::Empty)
        } else {
            Ok(self.occupied)
        }
    }

    /// The committed byte at position `i`, oldest first.
    pub fn peek(&self, i: usize) -> (r: u8)
        requires
            self.wf(),
            i < self.occupancy(),
        ensures
            r == self.contents()[i as int],
    {
        self.storage[self.index_of(i)]
    }

    /// Returns the `n` oldest committed bytes to the free space.
    pub fn release(&mut self, n: usize)
        requires
            old(self).wf(),
            n <= old(self).occupancy(),
        ensures
            final(self).wf(),
            final(self).capacity() == old(self).capacity(),
            final(self).contents() == old(self).contents().subrange(
                n as int,
                old(self).occupancy() as int,
            ),
            final(self).grant_len() == old(self).grant_len(),
            final(self).grant_bytes() == old(self).grant_bytes(),
            final(self).committed_total() == old(self).committed_total(),
            final(self).released_total() == old(self).released_total() + n,
    {
        if n < self.storage.len() {
            self.head = self.index_of(n);
        }
        self.occupied = self.occupied - n;
        self.total_released = Ghost((self.total_released@ + n) as nat);
        assert(self.contents() =~= old(self).contents().subrange(
            n as int,
            old(self).occupancy() as int,
        ));
        assert(self.grant_bytes() =~= old(self).grant_bytes());
    }

    /// Queues the record of a captured packet. When the record does not
    /// fit, nothing is written and `Full` tells the producer to drop it.
    pub fn push_record(&mut self, packet: &[u8], lqi: u8) -> (r: Result<(), QueueError>)
        requires
            old(self).wf(),
            old(self).grant_len() == 0,
            packet@.len() + 2 <= MAX_PACKET_LENGTH,
        ensures
            final(self).wf(),
            final(self).capacity() == old(self).capacity(),
            final(self).grant_len() == 0,
            final(self).released_total() == old(self).released_total(),
            match r {
                Ok(()) => packet@.len() + 2 <= old(self).capacity() - old(self).occupancy()
                    && final(self).contents() == old(self).contents() + record_of(packet@, lqi)
                    && final(self).committed_total() == old(self).committed_total()
                    + packet@.len() + 2,
                Err(e) => e == QueueError::Full && packet@.len() + 2 > old(self).capacity()
                    - old(self).occupancy() && *final(self) == *old(self),
            },
    {
        let n = packet.len() + 2;
        match self.grant(n) {
            Err(e) => {
                return Err(e);
            },
            Ok(_) => {},
        }
        let ghost start = self.contents();
        self.write(0, (packet.len() + 1) as u8);
        let mut i: usize = 0;
        while i < packet.len()
            invariant
                self.wf(),
                self.capacity() == old(self).capacity(),
                self.contents() == start,
                start == old(self).contents(),
                self.grant_len() == n,
                n == packet@.len() + 2,
                i <= packet.len(),
                self.committed_total() == old(self).committed_total(),
                self.released_total() == old(self).released_total(),
                self.grant_bytes().subrange(0, i + 1) == record_of(packet@, lqi).subrange(0, i + 1),
            decreases packet.len() - i,
        {
            let ghost before = self.grant_bytes();
            self.write(i + 1, packet[i]);
            assert(self.grant_bytes().subrange(0, i + 2) =~= before.subrange(0, i + 1) + seq![
                packet@[i as int],
            ]);
            assert(record_of(packet@, lqi).subrange(0, i + 2) =~= record_of(packet@, lqi).subrange(0, i + 1) + seq![
                packet@[i as int],
            ]);
            i = i + 1;
        }
        let ghost before = self.grant_bytes();
        self.write(n - 1, lqi);
        assert(self.grant_bytes().subrange(0, n as int) =~= before.subrange(0, n - 1) + seq![lqi]);
        assert(record_of(packet@, lqi) =~= record_of(packet@, lqi).subrange(0, n - 1) + seq![lqi]);
        self.commit(n);
        Ok(())
    }

    /// Takes the oldest record: returns the bytes its length byte counts
    /// (the packet and its link-quality byte) and releases the whole
    /// record. `Empty` when nothing is committed.
    pub fn pop_record(&mut self) -> (r: Result<Vec<u8>, QueueError>)
        requires
            old(self).wf(),
            old(self).occupancy() > 0 ==> old(self).contents()[0] + 1 <= old(self).occupancy(),
        ensures
            final(self).wf(),
            final(self).capacity() == old(self).capacity(),
            final(self).grant_len() == old(self).grant_len(),
            final(self).committed_total() == old(self).committed_total(),
            match r {
                Ok(rec) => {
                    let len = old(self).contents()[0] as int;
                    &&& old(self).occupancy() > 0
                    &&& rec@ == old(self).contents().subrange(1, len + 1)
                    &&& final(self).contents() == old(self).contents().subrange(
                        len + 1,
                        old(self).occupancy() as int,
                    )
                    &&& final(self).released_total() == old(self).released_total() + len + 1
                },
                Err(e) => e == QueueError::Empty && old(self).occupancy() == 0 && *final(self)
                    == *old(self),
            },
    {
        match self.read() {
            Err(e) => {
                return Err(e);
            },
            Ok(_) => {},
        }
        let len = self.peek(0) as usize;
        let mut rec: Vec<u8> = Vec::with_capacity(len);
        let mut i: usize = 0;
        while i < len
            invariant
                self.wf(),
                *self == *old(self),
                len == self.contents()[0],
                len + 1 <= self.occupancy(),
                i <= len,
                rec@ == self.contents().subrange(1, i + 1),
            decreases len - i,
        {
            rec.push(self.peek(i + 1));
            assert(rec@ =~= self.contents().subrange(1, i + 2));
            i = i + 1;
        }
        self.release(len + 1);
        Ok(rec)
    }

    /// In every state the protocol can reach, the committed bytes fit the
    /// capacity and number the bytes ever committed minus those ever
    /// released, and no index the producer may write is one the consumer
    /// may read.
    pub proof fn lemma_conservation(&self)
        requires
            self.wf(),
        ensures
            self.occupancy() <= self.capacity(),
            self.occupancy() == self.committed_total() - self.released_total(),
            self.read_region().disjoint(self.write_region()),
    {
        let cap = self.storage.len() as int;
        assert forall|j: int| #[trigger]
            self.read_region().contains(j) implies !self.write_region().contains(j) by {
            let i = choose|i: int| 0 <= i < self.occupied && j == #[trigger] wrap(self.head + i, cap);
            if self.write_region().contains(j) {
                let i2 = choose|i2: int|
                    0 <= i2 < self.granted && j == #[trigger] wrap(self.head + self.occupied + i2, cap);
            }
        }
    }
}

} // verus!
