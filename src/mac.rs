//! IEEE 802.15.4 MAC frame decoding.
//!
//! Layout, all multi-byte fields little endian: two bytes of frame
//! control, one sequence byte, the destination PAN id and address, the
//! source PAN id (absent when PAN id compression is set) and address, the
//! payload, and a two-byte frame check sequence. The frame check sequence
//! is not verified here: callers that receive frames without one (a radio
//! that strips it and appends a link-quality byte instead) must put two
//! bytes back in its place before decoding.
use vstd::prelude::*;

verus! {

#[derive(Clone, Copy, Debug, PartialEq, Eq, Structural)]
pub enum FrameType {
    Beacon,
    Data,
    Acknowledgement,
    MacCommand,
}

#[derive(Clone, Copy, Debug, PartialEq, Eq, Structural)]
pub enum AddressMode {
    Absent,
    Short,
    Extended,
}

#[derive(Clone, Copy, Debug, PartialEq, Eq, Structural)]
pub enum Address {
    Absent,
    Short { pan_id: u16, address: u16 },
    Extended { pan_id: u16, extended: u64 },
}

#[derive(Clone, Copy, Debug, PartialEq, Eq, Structural)]
pub struct Header {
    pub frame_type: FrameType,
    pub frame_pending: bool,
    pub ack_request: bool,
    pub pan_id_compress: bool,
    pub version: u8,
    pub sequence: u8,
    pub destination: Address,
    pub source: Address,
}

#[derive(Clone, Copy, Debug, PartialEq, Eq, Structural)]
pub enum DecodeError {
    /// The input is shorter than the fields it announces.
    NotEnoughBytes,
    InvalidFrameType,
    /// Security-enabled frames are not decrypted or authenticated.
    SecurityNotSupported,
    InvalidAddressMode,
    /// A valid addressing combination that this decoder does not handle.
    AddressModeNotSupported(AddressMode),
    InvalidFrameVersion,
    /// Fields that contradict each other or an unknown identifier.
    InvalidValue,
}

/// A decoded frame: its header and the bytes between header and frame
/// check sequence.
#[derive(Debug)]
pub struct Frame {
    pub header: Header,
    pub payload: Vec<u8>,
}

pub open spec fn le16(s: Seq<u8>, i: int) -> u16 {
    (s[i] + 256 * s[i + 1]) as u16
}

pub open spec fn le64(s: Seq<u8>, i: int) -> u64 {
    (s[i] + 256 * (s[i + 1] + 256 * (s[i + 2] + 256 * (s[i + 3] + 256 * (s[i + 4] + 256 * (s[i
        + 5] + 256 * (s[i + 6] + 256 * s[i + 7]))))))) as u64
}

/// Length of an address field of a mode, without its PAN id.
pub open spec fn addr_len(mode: u8) -> int {
    if mode == 2 {
        2
    } else if mode == 3 {
        8
    } else {
        0
    }
}

pub open spec fn address_from(mode: u8, pan_id: u16, s: Seq<u8>, at: int) -> Address {
    if mode == 2 {
        Address::Short { pan_id, address: le16(s, at) }
    } else if mode == 3 {
        Address::Extended { pan_id, extended: le64(s, at) }
    } else {
        Address::Absent
    }
}

pub open spec fn frame_type_of(bits: u8) -> FrameType {
    if bits == 0 {
        FrameType::Beacon
    } else if bits == 1 {
        FrameType::Data
    } else if bits == 2 {
        FrameType::Acknowledgement
    } else {
        FrameType::MacCommand
    }
}

/// The decoded header of `raw` and its length in bytes, or the error.
/// Checks come in this order: length of the fixed part, frame type,
/// security, version, address modes, length of the addressing fields.
pub open spec fn header_spec(raw: Seq<u8>) -> Result<(Header, int), DecodeError> {
    if raw.len() < 3 {
        Err(DecodeError::NotEnoughBytes)
    } else {
        let ft = raw[0] % 8;
        let compress = (raw[0] / 64) % 2 == 1;
        let dm = (raw[1] / 4) % 4;
        let version = (raw[1] / 16) % 4;
        let sm = raw[1] / 64;
        if ft > 3 {
            Err(DecodeError::InvalidFrameType)
        } else if (raw[0] / 8) % 2 == 1 {
            Err(DecodeError::SecurityNotSupported)
        } else if version == 3 {
            Err(DecodeError::InvalidFrameVersion)
        } else if dm == 1 || sm == 1 {
            Err(DecodeError::InvalidAddressMode)
        } else if compress && dm == 0 {
            Err(DecodeError::AddressModeNotSupported(AddressMode::Absent))
        } else {
            let dend: int = if dm == 0 {
                3
            } else {
                5 + addr_len(dm)
            };
            let span: int = if sm == 0 || compress {
                0
            } else {
                2
            };
            let send = dend + span + addr_len(sm);
            if raw.len() < send + 2 {
                Err(DecodeError::NotEnoughBytes)
            } else {
                let dpan = le16(raw, 3);
                let spanid = if compress {
                    dpan
                } else {
                    le16(raw, dend)
                };
                Ok(
                    (
                        Header {
                            frame_type: frame_type_of(ft),
                            frame_pending: (raw[0] / 16) % 2 == 1,
                            ack_request: (raw[0] / 32) % 2 == 1,
                            pan_id_compress: compress,
                            version,
                            sequence: raw[2],
                            destination: address_from(dm, dpan, raw, 5),
                            source: address_from(sm, spanid, raw, dend + span),
                        },
                        send,
                    ),
                )
            }
        }
    }
}

/// What decoding `raw` gives: the header and the payload bytes.
pub open spec fn decode_spec(raw: Seq<u8>) -> Result<(Header, Seq<u8>), DecodeError> {
    match header_spec(raw) {
        Ok((h, n)) => Ok((h, raw.subrange(n, raw.len() - 2))),
        Err(e) => Err(e),
    }
}

fn read_le16(s: &[u8], i: usize) -> (r: u16)
    requires
        i + 2 <= s.len(),
    ensures
        r == le16(s@, i as int),
{
    s[i] as u16 + 256 * (s[i + 1] as u16)
}

fn read_le64(s: &[u8], i: usize) -> (r: u64)
    requires
        i + 8 <= s.len(),
    ensures
        r == le64(s@, i as int),
{
    let b7 = s[i + 7] as u64;
    let v6 = s[i + 6] as u64 + 256 * b7;
    let v5 = s[i + 5] as u64 + 256 * v6;
    let v4 = s[i + 4] as u64 + 256 * v5;
    let v3 = s[i + 3] as u64 + 256 * v4;
    let v2 = s[i + 2] as u64 + 256 * v3;
    let v1 = s[i + 1] as u64 + 256 * v2;
    s[i] as u64 + 256 * v1
}

fn read_address(mode: u8, pan_id: u16, s: &[u8], at: usize) -> (r: Address)
    requires
        at + addr_len(mode) <= s@.len(),
    ensures
        r == address_from(mode, pan_id, s@, at as int),
{
    if mode == 2 {
        Address::Short { pan_id, address: read_le16(s, at) }
    } else if mode == 3 {
        Address::Extended { pan_id, extended: read_le64(s, at) }
    } else {
        Address::Absent
    }
}

fn field_len(mode: u8) -> (r: usize)
    ensures
        r == addr_len(mode),
{
    if mode == 2 {
        2
    } else if mode == 3 {
        8
    } else {
        0
    }
}

/// Decodes the MAC header at the front of `raw`, returning it with its
/// length in bytes.
pub fn decode_header(raw: &[u8]) -> (r: Result<(Header, usize), DecodeError>)
    ensures
        match header_spec(raw@) {
            Ok((h, n)) => r == Ok::<(Header, usize), DecodeError>((h, n as usize)),
            Err(e) => r == Err::<(Header, usize), DecodeError>(e),
        },
{
    if raw.len() < 3 {
        return Err(DecodeError::NotEnoughBytes);
    }
    let ft = raw[0] % 8;
    let compress = (raw[0] / 64) % 2 == 1;
    let dm = (raw[1] / 4) % 4;
    let version = (raw[1] / 16) % 4;
    let sm = raw[1] / 64;
    if ft > 3 {
        return Err(DecodeError::InvalidFrameType);
    }
    if (raw[0] / 8) % 2 == 1 {
        return Err(DecodeError::SecurityNotSupported);
    }
    if version == 3 {
        return Err(DecodeError::InvalidFrameVersion);
    }
    if dm == 1 || sm == 1 {
        return Err(DecodeError::InvalidAddressMode);
    }
    if compress && dm == 0 {
        return Err(DecodeError::AddressModeNotSupported(AddressMode::Absent));
    }
    let dend: usize = if dm == 0 {
        3
    } else {
        5 + field_len(dm)
    };
    let span: usize = if sm == 0 || compress {
        0
    } else {
        2
    };
    let send = dend + span + field_len(sm);
    if raw.len() < send + 2 {
        return Err(DecodeError::NotEnoughBytes);
    }
    let dpan = if dm == 0 {
        0
    } else {
        read_le16(raw, 3)
    };
    let spanid = if compress {
        dpan
    } else if sm == 0 {
        0
    } else {
        read_le16(raw, dend)
    };
    let frame_type = if ft == 0 {
        FrameType::Beacon
    } else if ft == 1 {
        FrameType::Data
    } else if ft == 2 {
        FrameType::Acknowledgement
    } else {
        FrameType::MacCommand
    };
    let destination = read_address(dm, dpan, raw, 5);
    let source = read_address(sm, spanid, raw, dend + span);
    let h = Header {
        frame_type,
        frame_pending: (raw[0] / 16) % 2 == 1,
        ack_request: (raw[0] / 32) % 2 == 1,
        pan_id_compress: compress,
        version,
        sequence: raw[2],
        destination,
        source,
    };
    Ok((h, send))
}

/// Decodes a MAC frame whose last two bytes are its frame check sequence.
/// Those two bytes are dropped unchecked; a capture without them must go
/// through `with_fcs_placeholder` first.
pub fn decode(raw: &[u8]) -> (r: Result<Frame, DecodeError>)
    ensures
        match decode_spec(raw@) {
            Ok((h, p)) => r matches Ok(f) && f.header == h && f.payload@ == p,
            Err(e) => r == Err::<Frame, DecodeError>(e),
        },
{
    match decode_header(raw) {
        Ok((header, n)) => {
            let end = raw.len() - 2;
            let mut payload: Vec<u8> = Vec::with_capacity(end - n);
            let mut i: usize = n;
            while i < end
                invariant
                    n <= i <= end,
                    end == raw@.len() - 2,
                    payload@ == raw@.subrange(n as int, i as int),
                decreases end - i,
            {
                payload.push(raw[i]);
                assert(payload@ =~= raw@.subrange(n as int, i + 1));
                i = i + 1;
            }
            Ok(Frame { header, payload })
        },
        Err(e) => Err(e),
    }
}

/// Decoding is a function of the bytes alone: the same bytes give the
/// same frame or the same error.
pub proof fn lemma_decode_deterministic(a: Seq<u8>, b: Seq<u8>)
    requires
        a == b,
    ensures
        decode_spec(a) == decode_spec(b),
        header_spec(a) == header_spec(b),
{
}


/// A MAC command, with its identifier's fields.
#[derive(Clone, Copy, Debug, PartialEq, Eq, Structural)]
pub enum Command {
    AssociationRequest { capability: u8 },
    AssociationResponse { short_address: u16, status: u8 },
    DisassociationNotification { reason: u8 },
    DataRequest,
    PanIdConflictNotification,
    OrphanNotification,
    BeaconRequest,
    CoordinatorRealignment { pan_id: u16, coordinator_address: u16, channel: u8, assigned_address: u16 },
    GtsRequest { characteristics: u8 },
}

/// Bytes that follow the identifier of a known command, or -1.
pub open spec fn command_fields_len(id: u8) -> int {
    if id == 1 || id == 3 || id == 9 {
        1
    } else if id == 2 {
        3
    } else if 4 <= id <= 7 {
        0
    } else if id == 8 {
        7
    } else {
        -1
    }
}

/// What decoding a command payload gives: `None` for an empty payload.
pub open spec fn command_spec(p: Seq<u8>) -> Result<Option<Command>, DecodeError> {
    if p.len() == 0 {
        Ok(None)
    } else if command_fields_len(p[0]) < 0 {
        Err(DecodeError::InvalidValue)
    } else if p.len() < 1 + command_fields_len(p[0]) {
        Err(DecodeError::NotEnoughBytes)
    } else {
        let id = p[0];
        Ok(
            Some(
                if id == 1 {
                    Command::AssociationRequest { capability: p[1] }
                } else if id == 2 {
                    Command::AssociationResponse { short_address: le16(p, 1), status: p[3] }
                } else if id == 3 {
                    Command::DisassociationNotification { reason: p[1] }
                } else if id == 4 {
                    Command::DataRequest
                } else if id == 5 {
                    Command::PanIdConflictNotification
                } else if id == 6 {
                    Command::OrphanNotification
                } else if id == 7 {
                    Command::BeaconRequest
                } else if id == 8 {
                    Command::CoordinatorRealignment {
                        pan_id: le16(p, 1),
                        coordinator_address: le16(p, 3),
                        channel: p[5],
                        assigned_address: le16(p, 6),
                    }
                } else {
                    Command::GtsRequest { characteristics: p[1] }
                },
            ),
        )
    }
}

/// Decodes the payload of a MAC command frame. An empty payload is no
/// error: it gives `None`.
pub fn decode_command(p: &[u8]) -> (r: Result<Option<Command>, DecodeError>)
    ensures
        r == command_spec(p@),
{
    if p.len() == 0 {
        return Ok(None);
    }
    let id = p[0];
    let need: usize = if id == 1 || id == 3 || id == 9 {
        1
    } else if id == 2 {
        3
    } else if 4 <= id && id <= 7 {
        0
    } else if id == 8 {
        7
    } else {
        return Err(DecodeError::InvalidValue);
    };
    if p.len() < 1 + need {
        return Err(DecodeError::NotEnoughBytes);
    }
    let c = if id == 1 {
        Command::AssociationRequest { capability: p[1] }
    } else if id == 2 {
        Command::AssociationResponse { short_address: read_le16(p, 1), status: p[3] }
    } else if id == 3 {
        Command::DisassociationNotification { reason: p[1] }
    } else if id == 4 {
        Command::DataRequest
    } else if id == 5 {
        Command::PanIdConflictNotification
    } else if id == 6 {
        Command::OrphanNotification
    } else if id == 7 {
        Command::BeaconRequest
    } else if id == 8 {
        Command::CoordinatorRealignment {
            pan_id: read_le16(p, 1),
            coordinator_address: read_le16(p, 3),
            channel: p[5],
            assigned_address: read_le16(p, 6),
        }
    } else {
        Command::GtsRequest { characteristics: p[1] }
    };
    Ok(Some(c))
}

#[derive(Clone, Copy, Debug, PartialEq, Eq, Structural)]
pub struct Superframe {
    pub beacon_order: u8,
    pub superframe_order: u8,
    pub final_cap_slot: u8,
    pub battery_life_extension: bool,
    pub pan_coordinator: bool,
    pub association_permit: bool,
}

#[derive(Clone, Copy, Debug, PartialEq, Eq, Structural)]
pub struct GtsDescriptor {
    pub short_address: u16,
    pub starting_slot: u8,
    pub length: u8,
    /// Set when the slot is for reception by the device.
    pub receive: bool,
}

/// A decoded beacon payload.
#[derive(Debug)]
pub struct Beacon {
    pub superframe: Superframe,
    pub gts_permit: bool,
    pub gts: Vec<GtsDescriptor>,
    pub pending_short: Vec<u16>,
    pub pending_extended: Vec<u64>,
    pub payload: Vec<u8>,
}

pub open spec fn superframe_of(p: Seq<u8>) -> Superframe {
    Superframe {
        beacon_order: p[0] % 16,
        superframe_order: p[0] / 16,
        final_cap_slot: p[1] % 16,
        battery_life_extension: (p[1] / 16) % 2 == 1,
        pan_coordinator: (p[1] / 64) % 2 == 1,
        association_permit: p[1] / 128 == 1,
    }
}

/// Number of GTS descriptors a beacon payload announces.
pub open spec fn gts_count(p: Seq<u8>) -> int {
    (p[2] % 8) as int
}

/// Offset of the pending address specification.
pub open spec fn pending_at(p: Seq<u8>) -> int {
    if gts_count(p) == 0 {
        3
    } else {
        4 + 3 * gts_count(p)
    }
}

pub open spec fn gts_of(p: Seq<u8>, k: int) -> GtsDescriptor {
    GtsDescriptor {
        short_address: le16(p, 4 + 3 * k),
        starting_slot: p[6 + 3 * k] % 16,
        length: p[6 + 3 * k] / 16,
        receive: (p[3] / pow2_u8(k)) % 2 == 1,
    }
}

pub open spec fn pow2_u8(k: int) -> u8 {
    if k == 0 {
        1
    } else if k == 1 {
        2
    } else if k == 2 {
        4
    } else if k == 3 {
        8
    } else if k == 4 {
        16
    } else if k == 5 {
        32
    } else {
        64
    }
}

pub open spec fn short_count(p: Seq<u8>) -> int {
    (p[pending_at(p)] % 8) as int
}

pub open spec fn extended_count(p: Seq<u8>) -> int {
    ((p[pending_at(p)] / 16) % 8) as int
}

/// Offset of the beacon's own payload.
pub open spec fn beacon_payload_at(p: Seq<u8>) -> int {
    pending_at(p) + 1 + 2 * short_count(p) + 8 * extended_count(p)
}

/// A beacon payload is long enough for every field it announces.
pub open spec fn beacon_fits(p: Seq<u8>) -> bool {
    &&& p.len() >= 3
    &&& p.len() > pending_at(p)
    &&& p.len() >= beacon_payload_at(p)
}

/// Decodes the payload of a beacon frame: superframe specification, GTS
/// descriptors, pending addresses, then the beacon's own payload.
pub fn decode_beacon(p: &[u8]) -> (r: Result<Beacon, DecodeError>)
    ensures
        match r {
            Ok(b) => {
                &&& beacon_fits(p@)
                &&& b.superframe == superframe_of(p@)
                &&& b.gts_permit == (p@[2] / 128 == 1)
                &&& b.gts@.len() == gts_count(p@)
                &&& forall|k: int| 0 <= k < gts_count(p@) ==> b.gts@[k] == gts_of(p@, k)
                &&& b.pending_short@.len() == short_count(p@)
                &&& forall|k: int|
                    0 <= k < short_count(p@) ==> b.pending_short@[k] == le16(
                        p@,
                        pending_at(p@) + 1 + 2 * k,
                    )
                &&& b.pending_extended@.len() == extended_count(p@)
                &&& forall|k: int|
                    0 <= k < extended_count(p@) ==> b.pending_extended@[k] == le64(
                        p@,
                        pending_at(p@) + 1 + 2 * short_count(p@) + 8 * k,
                    )
                &&& b.payload@ == p@.subrange(beacon_payload_at(p@), p@.len() as int)
            },
            Err(e) => e == DecodeError::NotEnoughBytes && !beacon_fits(p@),
        },
{
    if p.len() < 3 {
        return Err(DecodeError::NotEnoughBytes);
    }
    let superframe = Superframe {
        beacon_order: p[0] % 16,
        superframe_order: p[0] / 16,
        final_cap_slot: p[1] % 16,
        battery_life_extension: (p[1] / 16) % 2 == 1,
        pan_coordinator: (p[1] / 64) % 2 == 1,
        association_permit: p[1] / 128 == 1,
    };
    let count = (p[2] % 8) as usize;
    let pend: usize = if count == 0 {
        3
    } else {
        4 + 3 * count
    };
    if p.len() <= pend {
        return Err(DecodeError::NotEnoughBytes);
    }
    let mut gts: Vec<GtsDescriptor> = Vec::new();
    let mut k: usize = 0;
    let mut mask: u8 = 1;
    while k < count
        invariant
            k <= count <= 7,
            count == gts_count(p@),
            pend == pending_at(p@),
            p.len() > pend,
            mask == pow2_u8(k as int),
            gts@.len() == k,
            forall|j: int| 0 <= j < k ==> gts@[j] == gts_of(p@, j),
        decreases count - k,
    {
        let at = 4 + 3 * k;
        let d = GtsDescriptor {
            short_address: read_le16(p, at),
            starting_slot: p[at + 2] % 16,
            length: p[at + 2] / 16,
            receive: (p[3] / mask) % 2 == 1,
        };
        gts.push(d);
        k = k + 1;
        if k < 7 {
            mask = mask * 2;
        }
    }
    let spec_byte = p[pend];
    let shorts = (spec_byte % 8) as usize;
    let exts = ((spec_byte / 16) % 8) as usize;
    let body = pend + 1 + 2 * shorts + 8 * exts;
    if p.len() < body {
        return Err(DecodeError::NotEnoughBytes);
    }
    let mut pending_short: Vec<u16> = Vec::new();
    let mut k: usize = 0;
    while k < shorts
        invariant
            k <= shorts <= 7,
            shorts == short_count(p@),
            pend == pending_at(p@),
            body == beacon_payload_at(p@),
            body <= p.len(),
            pending_short@.len() == k,
            forall|j: int|
                0 <= j < k ==> pending_short@[j] == le16(p@, pending_at(p@) + 1 + 2 * j),
        decreases shorts - k,
    {
        pending_short.push(read_le16(p, pend + 1 + 2 * k));
        k = k + 1;
    }
    let mut pending_extended: Vec<u64> = Vec::new();
    let mut k: usize = 0;
    let ext_at = pend + 1 + 2 * shorts;
    while k < exts
        invariant
            k <= exts <= 7,
            exts == extended_count(p@),
            ext_at == pending_at(p@) + 1 + 2 * short_count(p@),
            body == beacon_payload_at(p@),
            body <= p.len(),
            pending_extended@.len() == k,
            forall|j: int| 0 <= j < k ==> pending_extended@[j] == le64(p@, ext_at + 8 * j),
        decreases exts - k,
    {
        pending_extended.push(read_le64(p, ext_at + 8 * k));
        k = k + 1;
    }
    let mut payload: Vec<u8> = Vec::new();
    let mut i: usize = body;
    while i < p.len()
        invariant
            body <= i <= p.len(),
            payload@ == p@.subrange(body as int, i as int),
        decreases p.len() - i,
    {
        payload.push(p[i]);
        assert(payload@ =~= p@.subrange(body as int, i + 1));
        i = i + 1;
    }
    Ok(
        Beacon {
            superframe,
            gts_permit: p[2] / 128 == 1,
            gts,
            pending_short,
            pending_extended,
            payload,
        },
    )
}


/// A captured packet with two placeholder bytes where the radio dropped
/// the frame check sequence, ready for `decode`.
pub fn with_fcs_placeholder(packet: &[u8]) -> (r: Vec<u8>)
    ensures
        r@ == packet@ + seq![0u8, 0u8],
{
    let mut r: Vec<u8> = Vec::new();
    let mut i: usize = 0;
    while i < packet.len()
        invariant
            i <= packet.len(),
            r@ == packet@.subrange(0, i as int),
        decreases packet.len() - i,
    {
        r.push(packet[i]);
        assert(r@ =~= packet@.subrange(0, i + 1));
        i = i + 1;
    }
    r.push(0);
    r.push(0);
    assert(r@ =~= packet@ + seq![0u8, 0u8]);
    r
}

} // verus!
