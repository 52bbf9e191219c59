//! Sentinel-delimited framing for the host/device serial link.
//!
//! A frame is `START`, then the escaped body, then `END`. The body is the
//! message-type byte followed by the payload. Inside the body each of the
//! three reserved bytes `ESC`, `START` and `END` is written as `ESC`
//! followed by the byte XOR `ESC_MASK`, so that neither sentinel can occur
//! between the two delimiters.
use vstd::prelude::*;

verus! {

pub const FRAME_START: u8 = 0x7e;

pub const FRAME_END: u8 = 0x7f;

pub const FRAME_ESC: u8 = 0x7d;

pub const ESC_MASK: u8 = 0x20;

/// Tag byte of a captured radio packet: packet bytes, then one LQI byte.
pub const TAG_RADIO_RECEIVE: u8 = 0x01;

/// Tag byte of an energy measurement: channel, then energy level.
pub const TAG_ENERGY_DETECT: u8 = 0x02;

/// The kind of a message on the serial link. Tags that this library does
/// not interpret are carried through as `Other`.
#[derive(Clone, Copy, Debug, PartialEq, Eq, Structural)]
pub enum MessageType {
    RadioReceive,
    EnergyDetect,
    Other(u8),
}

/// Why a frame could not be taken from the front of the input.
#[derive(Clone, Copy, Debug, PartialEq, Eq, Structural)]
pub enum Error {
    /// The input holds no complete frame yet; wait for more bytes.
    EndNotFound,
    /// The front of the input cannot be decoded: drop this many bytes.
    InvalidLength(usize),
    /// The encoded frame does not fit in the output buffer.
    NotEnoughSpace,
    /// An `Other` type that carries the tag of a named type: its frame
    /// would decode as that named type.
    ReservedTag,
}

pub open spec fn tag_of(t: MessageType) -> u8 {
    match t {
        MessageType::RadioReceive => TAG_RADIO_RECEIVE,
        MessageType::EnergyDetect => TAG_ENERGY_DETECT,
        MessageType::Other(b) => b,
    }
}

pub open spec fn type_of(b: u8) -> MessageType {
    if b == TAG_RADIO_RECEIVE {
        MessageType::RadioReceive
    } else if b == TAG_ENERGY_DETECT {
        MessageType::EnergyDetect
    } else {
        MessageType::Other(b)
    }
}

/// A message type is canonical when its tag reads back as itself:
/// `Other` never carries the tag of a named kind.
pub open spec fn is_canonical(t: MessageType) -> bool {
    type_of(tag_of(t)) == t
}

impl MessageType {
    pub fn tag(self) -> (r: u8)
        ensures
            r == tag_of(self),
    {
        match self {
            MessageType::RadioReceive => TAG_RADIO_RECEIVE,
            MessageType::EnergyDetect => TAG_ENERGY_DETECT,
            MessageType::Other(b) => b,
        }
    }

    pub fn from_tag(b: u8) -> (r: MessageType)
        ensures
            r == type_of(b),
            is_canonical(r),
    {
        if b == TAG_RADIO_RECEIVE {
            MessageType::RadioReceive
        } else if b == TAG_ENERGY_DETECT {
            MessageType::EnergyDetect
        } else {
            MessageType::Other(b)
        }
    }
}

pub open spec fn is_sentinel(b: u8) -> bool {
    b == FRAME_START || b == FRAME_END
}

pub open spec fn is_reserved(b: u8) -> bool {
    b == FRAME_START || b == FRAME_END || b == FRAME_ESC
}

/// The escaped form of a byte sequence.
pub open spec fn escape(s: Seq<u8>) -> Seq<u8>
    decreases s.len(),
{
    if s.len() == 0 {
        Seq::empty()
    } else if is_reserved(s[0]) {
        seq![FRAME_ESC, s[0] ^ ESC_MASK] + escape(s.drop_first())
    } else {
        seq![s[0]] + escape(s.drop_first())
    }
}

/// The bytes that an escaped sequence stands for, or `None` where an
/// escape byte is dangling or introduces a byte that needs no escaping.
pub open spec fn unescape(s: Seq<u8>) -> Option<Seq<u8>>
    decreases s.len(),
{
    if s.len() == 0 {
        Some(Seq::empty())
    } else if s[0] == FRAME_ESC {
        if s.len() >= 2 && is_reserved(s[1] ^ ESC_MASK) {
            match unescape(s.subrange(2, s.len() as int)) {
                Some(rest) => Some(seq![s[1] ^ ESC_MASK] + rest),
                None => None,
            }
        } else {
            None
        }
    } else {
        match unescape(s.drop_first()) {
            Some(rest) => Some(seq![s[0]] + rest),
            None => None,
        }
    }
}

/// The whole wire frame of a message.
pub open spec fn frame_of(t: MessageType, payload: Seq<u8>) -> Seq<u8> {
    seq![FRAME_START] + escape(seq![tag_of(t)] + payload) + seq![FRAME_END]
}

/// Index of the first sentinel in `s` at or after `from`, or `s.len()`.
pub open spec fn next_sentinel(s: Seq<u8>, from: int) -> int
    decreases s.len() - from,
{
    if from >= s.len() {
        s.len() as int
    } else if is_sentinel(s[from]) {
        from
    } else {
        next_sentinel(s, from + 1)
    }
}

/// Index of the first `FRAME_START` in `s`, or `s.len()`.
pub open spec fn first_start(s: Seq<u8>, from: int) -> int
    decreases s.len() - from,
{
    if from >= s.len() {
        s.len() as int
    } else if s[from] == FRAME_START {
        from
    } else {
        first_start(s, from + 1)
    }
}

/// What decoding the front of `input` into a buffer of `cap` bytes gives:
/// the message type, the bytes consumed and the payload; or an error.
pub open spec fn decode_spec(input: Seq<u8>, cap: nat) -> Result<
    (MessageType, nat, Seq<u8>),
    Error,
> {
    if input.len() == 0 {
        Err(Error::EndNotFound)
    } else if input[0] != FRAME_START {
        Err(Error::InvalidLength(first_start(input, 0) as usize))
    } else {
        let e = next_sentinel(input, 1);
        if e == input.len() {
            Err(Error::EndNotFound)
        } else if input[e] == FRAME_START {
            Err(Error::InvalidLength(e as usize))
        } else {
            match unescape(input.subrange(1, e)) {
                Some(body) => if body.len() == 0 || body.len() - 1 > cap {
                    Err(Error::InvalidLength((e + 1) as usize))
                } else {
                    Ok((type_of(body[0]), (e + 1) as nat, body.drop_first()))
                },
                None => Err(Error::InvalidLength((e + 1) as usize)),
            }
        }
    }
}


pub open spec fn with_prefix(acc: Seq<u8>, o: Option<Seq<u8>>) -> Option<Seq<u8>> {
    match o {
        Some(r) => Some(acc + r),
        None => None,
    }
}

proof fn lemma_escape_append(a: Seq<u8>, b: Seq<u8>)
    ensures
        escape(a + b) == escape(a) + escape(b),
    decreases a.len(),
{
    if a.len() == 0 {
        assert(a + b =~= b);
        assert(escape(a) =~= Seq::<u8>::empty());
        assert(escape(a) + escape(b) =~= escape(b));
    } else {
        assert((a + b).drop_first() =~= a.drop_first() + b);
        lemma_escape_append(a.drop_first(), b);
        let h = if is_reserved(a[0]) {
            seq![FRAME_ESC, a[0] ^ ESC_MASK]
        } else {
            seq![a[0]]
        };
        assert(escape(a + b) == h + escape(a.drop_first() + b));
        assert(h + (escape(a.drop_first()) + escape(b)) =~= (h + escape(a.drop_first())) + escape(
            b,
        ));
    }
}

proof fn lemma_escape_one(b: u8)
    ensures
        escape(seq![b]) == (if is_reserved(b) {
            seq![FRAME_ESC, b ^ ESC_MASK]
        } else {
            seq![b]
        }),
{
    assert(seq![b].drop_first() =~= Seq::<u8>::empty());
    assert(escape(Seq::<u8>::empty()) =~= Seq::<u8>::empty());
    assert(seq![FRAME_ESC, b ^ ESC_MASK] + Seq::<u8>::empty() =~= seq![FRAME_ESC, b ^ ESC_MASK]);
    assert(seq![b] + Seq::<u8>::empty() =~= seq![b]);
}

proof fn lemma_mask_facts(b: u8)
    ensures
        (b ^ ESC_MASK) ^ ESC_MASK == b,
        is_reserved(b) ==> !is_sentinel(b ^ ESC_MASK) && (b ^ ESC_MASK) != FRAME_ESC,
        is_reserved(b) ==> is_reserved((b ^ ESC_MASK) ^ ESC_MASK),
{
    assert((b ^ 0x20u8) ^ 0x20u8 == b) by (bit_vector);
    assert((b == 0x7eu8 || b == 0x7fu8 || b == 0x7du8) ==> ((b ^ 0x20u8) != 0x7eu8 && (b
        ^ 0x20u8) != 0x7fu8 && (b ^ 0x20u8) != 0x7du8)) by (bit_vector);
}

/// An escaped sequence holds no sentinel.
proof fn lemma_escape_no_sentinel(s: Seq<u8>)
    ensures
        forall|j: int| 0 <= j < escape(s).len() ==> !is_sentinel(#[trigger] escape(s)[j]),
    decreases s.len(),
{
    if s.len() > 0 {
        lemma_escape_no_sentinel(s.drop_first());
        lemma_mask_facts(s[0]);
        let h = if is_reserved(s[0]) {
            seq![FRAME_ESC, s[0] ^ ESC_MASK]
        } else {
            seq![s[0]]
        };
        let t = escape(s.drop_first());
        assert(escape(s) == h + t);
        assert forall|j: int| 0 <= j < escape(s).len() implies !is_sentinel(
            #[trigger] escape(s)[j],
        ) by {
            if j >= h.len() {
                assert(escape(s)[j] == t[j - h.len()]);
            }
        }
    }
}

proof fn lemma_unescape_escape(s: Seq<u8>)
    ensures
        unescape(escape(s)) == Some(s),
    decreases s.len(),
{
    if s.len() == 0 {
        assert(escape(s) =~= Seq::<u8>::empty());
    } else {
        lemma_unescape_escape(s.drop_first());
        lemma_mask_facts(s[0]);
        let t = escape(s.drop_first());
        if is_reserved(s[0]) {
            let e = seq![FRAME_ESC, s[0] ^ ESC_MASK] + t;
            assert(escape(s) == e);
            assert(e.subrange(2, e.len() as int) =~= t);
            assert(seq![s[0]] + s.drop_first() =~= s);
        } else {
            let e = seq![s[0]] + t;
            assert(escape(s) == e);
            assert(e.drop_first() =~= t);
            assert(seq![s[0]] + s.drop_first() =~= s);
        }
    }
}

proof fn lemma_next_sentinel_skips(s: Seq<u8>, from: int, to: int)
    requires
        0 <= from <= to <= s.len(),
        forall|j: int| from <= j < to ==> !is_sentinel(#[trigger] s[j]),
    ensures
        next_sentinel(s, from) == next_sentinel(s, to),
    decreases to - from,
{
    if from < to {
        lemma_next_sentinel_skips(s, from + 1, to);
    }
}

/// Decoding the frame of a message gives back the message and consumes
/// the whole frame, whenever the payload fits the output buffer. `encode`
/// writes frames of canonical types only.
pub proof fn lemma_round_trip(t: MessageType, payload: Seq<u8>, cap: nat)
    requires
        is_canonical(t),
        payload.len() <= cap,
    ensures
        decode_spec(frame_of(t, payload), cap) == Ok::<(MessageType, nat, Seq<u8>), Error>(
            (t, frame_of(t, payload).len(), payload),
        ),
{
    let body = seq![tag_of(t)] + payload;
    let esc = escape(body);
    let f = frame_of(t, payload);
    lemma_escape_no_sentinel(body);
    lemma_unescape_escape(body);
    assert(f[0] == FRAME_START);
    assert forall|j: int| 1 <= j < f.len() - 1 implies !is_sentinel(#[trigger] f[j]) by {
        assert(f[j] == esc[j - 1]);
    }
    lemma_next_sentinel_skips(f, 1, f.len() - 1);
    assert(next_sentinel(f, f.len() - 1) == f.len() - 1);
    assert(f.subrange(1, f.len() - 1) =~= esc);
    assert(body.drop_first() =~= payload);
}

/// Writes the escaped form of `b` into `out` at `pos`, if it fits.
fn put_escaped(out: &mut Vec<u8>, pos: usize, b: u8) -> (r: Option<usize>)
    requires
        pos <= old(out).len(),
    ensures
        final(out).len() == old(out).len(),
        forall|j: int| 0 <= j < pos ==> final(out)@[j] == old(out)@[j],
        match r {
            Some(p) => p == pos + escape(seq![b]).len() && p <= old(out).len()
                && final(out)@.subrange(pos as int, p as int) == escape(seq![b]),
            None => pos + escape(seq![b]).len() > old(out).len(),
        },
{
    proof {
        lemma_escape_one(b);
    }
    if b == FRAME_START || b == FRAME_END || b == FRAME_ESC {
        if out.len() - pos < 2 {
            return None;
        }
        out.set(pos, FRAME_ESC);
        out.set(pos + 1, b ^ ESC_MASK);
        assert(out@.subrange(pos as int, pos + 2) =~= seq![FRAME_ESC, b ^ ESC_MASK]);
        Some(pos + 2)
    } else {
        if out.len() - pos < 1 {
            return None;
        }
        out.set(pos, b);
        assert(out@.subrange(pos as int, pos + 1) =~= seq![b]);
        Some(pos + 1)
    }
}

/// Writes the frame of a message into `output`, returning its length.
/// Refuses an `Other` type that holds the tag of a named type, so that
/// every frame written decodes as the type it was written with.
pub fn encode(t: MessageType, payload: &[u8], output: &mut Vec<u8>) -> (r: Result<usize, Error>)
    ensures
        final(output).len() == old(output).len(),
        match r {
            Ok(n) => is_canonical(t) && n == frame_of(t, payload@).len()
                && final(output)@.subrange(0, n as int) == frame_of(t, payload@),
            Err(Error::ReservedTag) => !is_canonical(t),
            Err(e) => e == Error::NotEnoughSpace && is_canonical(t) && frame_of(
                t,
                payload@,
            ).len() > old(output).len(),
        },
{
    if MessageType::from_tag(t.tag()) != t {
        return Err(Error::ReservedTag);
    }
    let ghost cap = output.len();
    let ghost body = seq![tag_of(t)] + payload@;
    if output.len() < 2 {
        proof {
            lemma_escape_append(seq![tag_of(t)], payload@);
            lemma_escape_one(tag_of(t));
        }
        return Err(Error::NotEnoughSpace);
    }
    output.set(0, FRAME_START);
    let tag = t.tag();
    proof {
        lemma_escape_one(tag);
    }
    let mut pos: usize = match put_escaped(output, 1, tag) {
        Some(p) => p,
        None => {
            proof {
                lemma_escape_append(seq![tag_of(t)], payload@);
            }
            return Err(Error::NotEnoughSpace);
        },
    };
    let mut i: usize = 0;
    assert(body.subrange(0, 1) =~= seq![tag_of(t)]);
    while i < payload.len()
        invariant
            i <= payload.len(),
            output.len() == cap,
            cap == old(output).len(),
            is_canonical(t),
            1 <= pos <= cap,
            output@[0] == FRAME_START,
            body == seq![tag_of(t)] + payload@,
            pos == 1 + escape(body.subrange(0, i + 1)).len(),
            output@.subrange(1, pos as int) == escape(body.subrange(0, i + 1)),
        decreases payload.len() - i,
    {
        let ghost before = output@;
        let b = payload[i];
        proof {
            lemma_escape_append(body.subrange(0, i + 1), seq![b]);
            assert(body.subrange(0, i + 2) =~= body.subrange(0, i + 1) + seq![b]);
        }
        match put_escaped(output, pos, b) {
            Some(p) => {
                assert(output@.subrange(1, p as int) =~= before.subrange(1, pos as int)
                    + output@.subrange(pos as int, p as int));
                pos = p;
            },
            None => {
                proof {
                    lemma_escape_append(body.subrange(0, i + 2), body.subrange(i + 2, body.len() as int));
                    assert(body =~= body.subrange(0, i + 2) + body.subrange(i + 2, body.len() as int));
                }
                return Err(Error::NotEnoughSpace);
            },
        }
        i = i + 1;
    }
    assert(body.subrange(0, i + 1) =~= body);
    if pos >= output.len() {
        return Err(Error::NotEnoughSpace);
    }
    output.set(pos, FRAME_END);
    assert(output@.subrange(0, pos + 1) =~= frame_of(t, payload@));
    Ok(pos + 1)
}


/// Takes one frame from the front of `input`, writing its payload to the
/// front of `output`. Returns the message type, the number of input bytes
/// the frame used and the payload length.
pub fn decode(input: &[u8], output: &mut Vec<u8>) -> (r: Result<(MessageType, usize, usize), Error>)
    ensures
        final(output).len() == old(output).len(),
        match decode_spec(input@, old(output).len() as nat) {
            Ok((t, used, payload)) => r == Ok::<(MessageType, usize, usize), Error>(
                (t, used as usize, payload.len() as usize),
            ) && final(output)@.subrange(0, payload.len() as int) == payload,
            Err(e) => r == Err::<(MessageType, usize, usize), Error>(e),
        },
{
    let n = input.len();
    if n == 0 {
        return Err(Error::EndNotFound);
    }
    if input[0] != FRAME_START {
        let mut k: usize = 1;
        while k < n && input[k] != FRAME_START
            invariant
                1 <= k <= n,
                n == input@.len(),
                first_start(input@, 0) == first_start(input@, k as int),
            decreases n - k,
        {
            k = k + 1;
        }
        return Err(Error::InvalidLength(k));
    }
    let mut e: usize = 1;
    while e < n && input[e] != FRAME_START && input[e] != FRAME_END
        invariant
            1 <= e <= n,
            n == input@.len(),
            next_sentinel(input@, 1) == next_sentinel(input@, e as int),
        decreases n - e,
    {
        e = e + 1;
    }
    if e == n {
        return Err(Error::EndNotFound);
    }
    assert(next_sentinel(input@, 1) == e as int);
    if input[e] == FRAME_START {
        return Err(Error::InvalidLength(e));
    }
    let ghost cap = output.len();
    let ghost whole = input@.subrange(1, e as int);
    let mut tag: u8 = 0;
    let mut count: usize = 0;
    let ghost mut acc: Seq<u8> = Seq::empty();
    let mut i: usize = 1;
    while i < e
        invariant
            1 <= i <= e,
            e < n,
            n == input@.len(),
            whole == input@.subrange(1, e as int),
            input@[0] == FRAME_START,
            input@[e as int] == FRAME_END,
            next_sentinel(input@, 1) == e as int,
            output.len() == cap,
            cap == old(output).len(),
            unescape(whole) == with_prefix(acc, unescape(input@.subrange(i as int, e as int))),
            count == acc.len(),
            count < i,
            count > 0 ==> tag == acc[0],
            count > 0 ==> count - 1 <= cap,
            count > 0 ==> output@.subrange(0, count - 1) == acc.drop_first(),
        decreases e - i,
    {
        let ghost rest = input@.subrange(i as int, e as int);
        let mut b = input[i];
        let mut step: usize = 1;
        if b == FRAME_ESC {
            if i + 1 < e && (input[i + 1] ^ ESC_MASK == FRAME_START || input[i + 1] ^ ESC_MASK
                == FRAME_END || input[i + 1] ^ ESC_MASK == FRAME_ESC) {
                b = input[i + 1] ^ ESC_MASK;
                step = 2;
                assert(rest.subrange(2, rest.len() as int) =~= input@.subrange(i + 2, e as int));
            } else {
                assert(unescape(rest) is None);
                return Err(Error::InvalidLength(e + 1));
            }
        } else {
            assert(rest.drop_first() =~= input@.subrange(i + 1, e as int));
        }
        let ghost next = input@.subrange(i + step, e as int);
        assert(unescape(rest) == with_prefix(seq![b], unescape(next)));
        if count == 0 {
            tag = b;
        } else {
            if count - 1 >= output.len() {
                proof {
                    if unescape(next) is Some {
                        assert(unescape(whole)->0.len() == acc.len() + 1 + unescape(next)->0.len());
                    }
                }
                return Err(Error::InvalidLength(e + 1));
            }
            let ghost before = output@;
            output.set(count - 1, b);
            assert(output@.subrange(0, count as int) =~= before.subrange(0, count - 1) + seq![b]);
        }
        proof {
            assert((acc + seq![b]).drop_first() =~= if acc.len() == 0 {
                Seq::<u8>::empty()
            } else {
                acc.drop_first() + seq![b]
            });
            match unescape(next) {
                Some(r) => {
                    assert(acc + (seq![b] + r) =~= (acc + seq![b]) + r);
                },
                None => {},
            }
            acc = acc + seq![b];
        }
        count = count + 1;
        i = i + step;
    }
    assert(input@.subrange(e as int, e as int) =~= Seq::<u8>::empty());
    assert(acc + Seq::<u8>::empty() =~= acc);
    if count == 0 {
        return Err(Error::InvalidLength(e + 1));
    }
    Ok((MessageType::from_tag(tag), e + 1, count - 1))
}


proof fn lemma_first_start_bounds(s: Seq<u8>, from: int)
    requires
        0 <= from <= s.len(),
    ensures
        from <= first_start(s, from) <= s.len(),
        first_start(s, from) < s.len() ==> s[first_start(s, from)] == FRAME_START,
    decreases s.len() - from,
{
    if from < s.len() && s[from] != FRAME_START {
        lemma_first_start_bounds(s, from + 1);
    }
}

proof fn lemma_next_sentinel_bounds(s: Seq<u8>, from: int)
    requires
        0 <= from <= s.len(),
    ensures
        from <= next_sentinel(s, from) <= s.len(),
    decreases s.len() - from,
{
    if from < s.len() && !is_sentinel(s[from]) {
        lemma_next_sentinel_bounds(s, from + 1);
    }
}

/// Every outcome of decoding makes progress or asks for more input: a
/// frame uses at least one and at most all of the input bytes, and a
/// resynchronisation drops at least one and at most all of them.
pub proof fn lemma_decode_progress(input: Seq<u8>, cap: nat)
    requires
        input.len() <= usize::MAX,
    ensures
        decode_spec(input, cap) matches Ok((_, used, _)) ==> 0 < used <= input.len(),
        decode_spec(input, cap) matches Err(Error::InvalidLength(k)) ==> 0 < k <= input.len(),
        !(decode_spec(input, cap) matches Err(Error::NotEnoughSpace)),
        !(decode_spec(input, cap) matches Err(Error::ReservedTag)),
{
    if input.len() > 0 {
        lemma_first_start_bounds(input, 1);
        lemma_next_sentinel_bounds(input, 1);
        if input[0] != FRAME_START {
            assert(first_start(input, 0) == first_start(input, 1));
        }
    }
}


/// A captured radio packet: its bytes and the link-quality indicator that
/// the capture step appended.
#[derive(Debug)]
pub struct RadioPacket {
    pub packet: Vec<u8>,
    pub link_quality: u8,
}

/// Splits the payload of a `RadioReceive` message into the packet and its
/// trailing link-quality byte; `None` for an empty payload.
pub fn split_radio_receive(payload: &[u8]) -> (r: Option<RadioPacket>)
    ensures
        match r {
            Some(rp) => payload@.len() > 0 && rp.packet@ == payload@.drop_last()
                && rp.link_quality == payload@.last(),
            None => payload@.len() == 0,
        },
{
    let n = payload.len();
    if n == 0 {
        return None;
    }
    let mut packet: Vec<u8> = Vec::with_capacity(n - 1);
    let mut i: usize = 0;
    while i < n - 1
        invariant
            n == payload@.len(),
            i <= n - 1,
            packet@ == payload@.subrange(0, i as int),
        decreases n - 1 - i,
    {
        packet.push(payload[i]);
        assert(packet@ =~= payload@.subrange(0, i + 1));
        i = i + 1;
    }
    Some(RadioPacket { packet, link_quality: payload[n - 1] })
}

/// Reads the payload of an `EnergyDetect` message: channel and energy
/// level; `None` unless it is exactly two bytes.
pub fn energy_reading(payload: &[u8]) -> (r: Option<(u8, u8)>)
    ensures
        match r {
            Some((channel, level)) => payload@.len() == 2 && channel == payload@[0] && level
                == payload@[1],
            None => payload@.len() != 2,
        },
{
    if payload.len() == 2 {
        Some((payload[0], payload[1]))
    } else {
        None
    }
}

} // verus!
