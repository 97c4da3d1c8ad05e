//! Framing for the live-session stream: a fixed 28-byte header in network
//! byte order ahead of each payload.

use vstd::prelude::*;

verus! {

/// The length of an encoded [`StreamHeader`].
pub const STREAM_HEADER_LEN: usize = 28;

/// The loopback TCP port on which a viewer listens for live sessions.
pub const DEFAULT_SESSION_PORT: u16 = 57557;

/// The kind of payload that follows a header.
#[derive(Debug, Clone, Copy, PartialEq, Eq)]
pub enum FrameKind {
    Hello,
    ProfileCheckpoint,
    ProfileDelta,
    Finalizing,
    FinalProfile,
    Failed,
    Heartbeat,
    Acknowledged,
    Stop,
    ProtocolError,
}

/// Why a header could not be decoded.
#[derive(Debug, Clone, Copy, PartialEq, Eq)]
pub struct StreamProtocolError(pub &'static str);

impl StreamProtocolError {
    /// The error's description.
    pub fn message(&self) -> (r: &'static str)
        ensures
            r == self.0,
    {
        self.0
    }
}

/// The wire code of each frame kind.
pub open spec fn kind_code(kind: FrameKind) -> u16 {
    match kind {
        FrameKind::Hello => 1,
        FrameKind::ProfileCheckpoint => 2,
        FrameKind::ProfileDelta => 3,
        FrameKind::Finalizing => 4,
        FrameKind::FinalProfile => 5,
        FrameKind::Failed => 6,
        FrameKind::Heartbeat => 7,
        FrameKind::Acknowledged => 101,
        FrameKind::Stop => 102,
        FrameKind::ProtocolError => 103,
    }
}

/// The frame kind with the given wire code, if any.
pub open spec fn kind_of_code(code: u16) -> Option<FrameKind> {
    if code == 1 {
        Some(FrameKind::Hello)
    } else if code == 2 {
        Some(FrameKind::ProfileCheckpoint)
    } else if code == 3 {
        Some(FrameKind::ProfileDelta)
    } else if code == 4 {
        Some(FrameKind::Finalizing)
    } else if code == 5 {
        Some(FrameKind::FinalProfile)
    } else if code == 6 {
        Some(FrameKind::Failed)
    } else if code == 7 {
        Some(FrameKind::Heartbeat)
    } else if code == 101 {
        Some(FrameKind::Acknowledged)
    } else if code == 102 {
        Some(FrameKind::Stop)
    } else if code == 103 {
        Some(FrameKind::ProtocolError)
    } else {
        None
    }
}

impl FrameKind {
    /// The wire code of this kind.
    pub fn code(&self) -> (r: u16)
        ensures
            r == kind_code(*self),
    {
        match self {
            FrameKind::Hello => 1,
            FrameKind::ProfileCheckpoint => 2,
            FrameKind::ProfileDelta => 3,
            FrameKind::Finalizing => 4,
            FrameKind::FinalProfile => 5,
            FrameKind::Failed => 6,
            FrameKind::Heartbeat => 7,
            FrameKind::Acknowledged => 101,
            FrameKind::Stop => 102,
            FrameKind::ProtocolError => 103,
        }
    }

    /// The kind with wire code `value`; any other code is an
    /// "unknown frame kind" error.
    pub fn try_from(value: u16) -> (r: Result<FrameKind, StreamProtocolError>)
        ensures
            match kind_of_code(value) {
                Some(k) => r == Ok::<FrameKind, StreamProtocolError>(k),
                None => r == Err::<FrameKind, StreamProtocolError>(
                    StreamProtocolError("unknown frame kind"),
                ),
            },
    {
        match value {
            1 => Ok(FrameKind::Hello),
            2 => Ok(FrameKind::ProfileCheckpoint),
            3 => Ok(FrameKind::ProfileDelta),
            4 => Ok(FrameKind::Finalizing),
            5 => Ok(FrameKind::FinalProfile),
            6 => Ok(FrameKind::Failed),
            7 => Ok(FrameKind::Heartbeat),
            101 => Ok(FrameKind::Acknowledged),
            102 => Ok(FrameKind::Stop),
            103 => Ok(FrameKind::ProtocolError),
            _ => Err(StreamProtocolError("unknown frame kind")),
        }
    }
}

/// The fixed header that precedes every frame's payload.
#[derive(Debug, Clone, Copy, PartialEq, Eq)]
pub struct StreamHeader {
    pub major: u16,
    pub minor: u16,
    pub kind: FrameKind,
    pub flags: u16,
    pub sequence: u64,
    pub payload_len: u64,
}

/// The stream magic, "PPRS".
pub open spec fn magic() -> Seq<u8> {
    seq![0x50u8, 0x50u8, 0x52u8, 0x53u8]
}

/// Big-endian bytes of a `u16`.
pub open spec fn be16(v: u16) -> Seq<u8> {
    seq![(v >> 8) as u8, v as u8]
}

/// Big-endian bytes of a `u64`.
pub open spec fn be64(v: u64) -> Seq<u8> {
    seq![
        (v >> 56) as u8,
        (v >> 48) as u8,
        (v >> 40) as u8,
        (v >> 32) as u8,
        (v >> 24) as u8,
        (v >> 16) as u8,
        (v >> 8) as u8,
        v as u8,
    ]
}

/// The `u16` held big-endian at `s[i..i + 2]`.
pub open spec fn read_be16(s: Seq<u8>, i: int) -> u16 {
    ((s[i] as u16) << 8) | (s[i + 1] as u16)
}

/// The `u64` held big-endian at `s[i..i + 8]`.
pub open spec fn read_be64(s: Seq<u8>, i: int) -> u64 {
    ((s[i] as u64) << 56) | ((s[i + 1] as u64) << 48) | ((s[i + 2] as u64) << 40) | ((s[i + 3] as u64)
        << 32) | ((s[i + 4] as u64) << 24) | ((s[i + 5] as u64) << 16) | ((s[i + 6] as u64) << 8) | (s[i
        + 7] as u64)
}

/// The encoding of a header.
pub open spec fn header_bytes(h: StreamHeader) -> Seq<u8> {
    magic() + be16(h.major) + be16(h.minor) + be16(kind_code(h.kind)) + be16(h.flags) + be64(
        h.sequence,
    ) + be64(h.payload_len)
}

/// Decoding of a header: the length, then the magic, then the kind are checked.
pub open spec fn decode_header(s: Seq<u8>) -> Result<StreamHeader, StreamProtocolError> {
    if s.len() != 28 {
        Err(StreamProtocolError("invalid header length"))
    } else if s.subrange(0, 4) != magic() {
        Err(StreamProtocolError("invalid stream magic"))
    } else {
        match kind_of_code(read_be16(s, 8)) {
            None => Err(StreamProtocolError("unknown frame kind")),
            Some(kind) => Ok(
                StreamHeader {
                    major: read_be16(s, 4),
                    minor: read_be16(s, 6),
                    kind,
                    flags: read_be16(s, 10),
                    sequence: read_be64(s, 12),
                    payload_len: read_be64(s, 20),
                },
            ),
        }
    }
}

fn get_be16(bytes: &[u8], i: usize) -> (r: u16)
    requires
        i + 2 <= bytes@.len(),
    ensures
        r == read_be16(bytes@, i as int),
{
    ((bytes[i] as u16) << 8) | (bytes[i + 1] as u16)
}

fn get_be64(bytes: &[u8], i: usize) -> (r: u64)
    requires
        i + 8 <= bytes@.len(),
    ensures
        r == read_be64(bytes@, i as int),
{
    ((bytes[i] as u64) << 56) | ((bytes[i + 1] as u64) << 48) | ((bytes[i + 2] as u64) << 40) | ((bytes[i
        + 3] as u64) << 32) | ((bytes[i + 4] as u64) << 24) | ((bytes[i + 5] as u64) << 16) | ((bytes[i
        + 6] as u64) << 8) | (bytes[i + 7] as u64)
}

impl StreamHeader {
    /// The 28-byte network-order encoding of this header.
    pub fn encode(&self) -> (r: [u8; 28])
        ensures
            r@ == header_bytes(*self),
    {
        let k = self.kind.code();
        let r = [
            0x50u8,
            0x50u8,
            0x52u8,
            0x53u8,
            (self.major >> 8) as u8,
            self.major as u8,
            (self.minor >> 8) as u8,
            self.minor as u8,
            (k >> 8) as u8,
            k as u8,
            (self.flags >> 8) as u8,
            self.flags as u8,
            (self.sequence >> 56) as u8,
            (self.sequence >> 48) as u8,
            (self.sequence >> 40) as u8,
            (self.sequence >> 32) as u8,
            (self.sequence >> 24) as u8,
            (self.sequence >> 16) as u8,
            (self.sequence >> 8) as u8,
            self.sequence as u8,
            (self.payload_len >> 56) as u8,
            (self.payload_len >> 48) as u8,
            (self.payload_len >> 40) as u8,
            (self.payload_len >> 32) as u8,
            (self.payload_len >> 24) as u8,
            (self.payload_len >> 16) as u8,
            (self.payload_len >> 8) as u8,
            self.payload_len as u8,
        ];
        assert(r@ =~= header_bytes(*self));
        r
    }

    /// Decodes a header; `bytes` must be exactly 28 bytes, start with the
    /// magic and carry a known frame kind.
    pub fn decode(bytes: &[u8]) -> (r: Result<Self, StreamProtocolError>)
        ensures
            r == decode_header(bytes@),
    {
        if bytes.len() != STREAM_HEADER_LEN {
            return Err(StreamProtocolError("invalid header length"));
        }
        if !(bytes[0] == 0x50 && bytes[1] == 0x50 && bytes[2] == 0x52 && bytes[3] == 0x53) {
            proof {
                if bytes@.subrange(0, 4) == magic() {
                    assert(bytes@.subrange(0, 4)[0] == bytes@[0]);
                    assert(bytes@.subrange(0, 4)[1] == bytes@[1]);
                    assert(bytes@.subrange(0, 4)[2] == bytes@[2]);
                    assert(bytes@.subrange(0, 4)[3] == bytes@[3]);
                }
            }
            return Err(StreamProtocolError("invalid stream magic"));
        }
        assert(bytes@.subrange(0, 4) =~= magic());
        let kind = match FrameKind::try_from(get_be16(bytes, 8)) {
            Ok(kind) => kind,
            Err(e) => return Err(e),
        };
        Ok(
            StreamHeader {
                major: get_be16(bytes, 4),
                minor: get_be16(bytes, 6),
                kind,
                flags: get_be16(bytes, 10),
                sequence: get_be64(bytes, 12),
                payload_len: get_be64(bytes, 20),
            },
        )
    }
}

proof fn lemma_be16_roundtrip(v: u16)
    ensures
        ((((v >> 8) as u8) as u16) << 8) | ((v as u8) as u16) == v,
{
    assert(((((v >> 8) as u8) as u16) << 8) | ((v as u8) as u16) == v) by (bit_vector);
}

proof fn lemma_be64_roundtrip(v: u64)
    ensures
        read_be64(be64(v), 0) == v,
{
    let b = be64(v);
    assert(b[0] == (v >> 56) as u8 && b[1] == (v >> 48) as u8 && b[2] == (v >> 40) as u8 && b[3] == (v
        >> 32) as u8 && b[4] == (v >> 24) as u8 && b[5] == (v >> 16) as u8 && b[6] == (v >> 8) as u8
        && b[7] == v as u8);
    assert(((((v >> 56) as u8) as u64) << 56) | ((((v >> 48) as u8) as u64) << 48) | ((((v >> 40) as u8)
        as u64) << 40) | ((((v >> 32) as u8) as u64) << 32) | ((((v >> 24) as u8) as u64) << 24) | ((((v
        >> 16) as u8) as u64) << 16) | ((((v >> 8) as u8) as u64) << 8) | ((v as u8) as u64) == v)
        by (bit_vector);
}

proof fn lemma_kind_code_roundtrip(k: FrameKind)
    ensures
        kind_of_code(kind_code(k)) == Some(k),
{
}

/// Every header is decoded back from its encoding.
pub proof fn lemma_header_roundtrip(h: StreamHeader)
    ensures
        decode_header(header_bytes(h)) == Ok::<StreamHeader, StreamProtocolError>(h),
{
    let s = header_bytes(h);
    assert(s.subrange(0, 4) =~= magic());
    lemma_be16_roundtrip(h.major);
    lemma_be16_roundtrip(h.minor);
    lemma_be16_roundtrip(kind_code(h.kind));
    lemma_be16_roundtrip(h.flags);
    lemma_kind_code_roundtrip(h.kind);
    lemma_be64_roundtrip(h.sequence);
    lemma_be64_roundtrip(h.payload_len);
    assert(s.subrange(12, 20) =~= be64(h.sequence));
    assert(s.subrange(20, 28) =~= be64(h.payload_len));
    assert(read_be64(s, 12) == read_be64(s.subrange(12, 20), 0));
    assert(read_be64(s, 20) == read_be64(s.subrange(20, 28), 0));
}

/// The number that the `n` bytes of `s` from position `from` hold, most
/// significant byte first.
pub open spec fn be_value(s: Seq<u8>, from: int, n: nat) -> int
    decreases n,
{
    if n == 0 {
        0
    } else {
        be_value(s, from, (n - 1) as nat) * 256 + s[from + n - 1]
    }
}

proof fn lemma_be_value_2(s: Seq<u8>, from: int)
    ensures
        be_value(s, from, 2) == s[from] * 256 + s[from + 1],
{
    reveal_with_fuel(be_value, 3);
}

proof fn lemma_be_value_8(s: Seq<u8>, from: int)
    ensures
        be_value(s, from, 8) == s[from] * 0x100000000000000 + s[from + 1] * 0x1000000000000 + s[from + 2]
            * 0x10000000000 + s[from + 3] * 0x100000000 + s[from + 4] * 0x1000000 + s[from + 5] * 0x10000
            + s[from + 6] * 0x100 + s[from + 7],
{
    reveal_with_fuel(be_value, 9);
}

proof fn lemma_be16_value(v: u16)
    ensures
        be16(v)[0] * 256 + be16(v)[1] == v,
{
    let hi = (v >> 8) as u8;
    let lo = v as u8;
    assert((hi as u16) * 256 + (lo as u16) == v) by (bit_vector)
        requires
            hi == (v >> 8) as u8,
            lo == v as u8,
    ;
}

proof fn lemma_be64_value(v: u64)
    ensures
        be64(v)[0] * 0x100000000000000 + be64(v)[1] * 0x1000000000000 + be64(v)[2] * 0x10000000000 + be64(v)[3]
            * 0x100000000 + be64(v)[4] * 0x1000000 + be64(v)[5] * 0x10000 + be64(v)[6] * 0x100 + be64(v)[7] == v,
{
    let b0 = (v >> 56) as u8;
    let b1 = (v >> 48) as u8;
    let b2 = (v >> 40) as u8;
    let b3 = (v >> 32) as u8;
    let b4 = (v >> 24) as u8;
    let b5 = (v >> 16) as u8;
    let b6 = (v >> 8) as u8;
    let b7 = v as u8;
    assert((b0 as u64) * 0x100000000000000 + (b1 as u64) * 0x1000000000000 + (b2 as u64) * 0x10000000000
        + (b3 as u64) * 0x100000000 + (b4 as u64) * 0x1000000 + (b5 as u64) * 0x10000 + (b6 as u64) * 0x100
        + (b7 as u64) == v) by (bit_vector)
        requires
            b0 == (v >> 56) as u8,
            b1 == (v >> 48) as u8,
            b2 == (v >> 40) as u8,
            b3 == (v >> 32) as u8,
            b4 == (v >> 24) as u8,
            b5 == (v >> 16) as u8,
            b6 == (v >> 8) as u8,
            b7 == v as u8,
    ;
}

proof fn lemma_read_be16_value(s: Seq<u8>, i: int)
    requires
        0 <= i,
        i + 2 <= s.len(),
    ensures
        read_be16(s, i) == s[i] * 256 + s[i + 1],
{
    let a = s[i];
    let b = s[i + 1];
    assert(((a as u16) << 8) | (b as u16) == (a as u16) * 256 + (b as u16)) by (bit_vector);
}

proof fn lemma_read_be64_value(s: Seq<u8>, i: int)
    requires
        0 <= i,
        i + 8 <= s.len(),
    ensures
        read_be64(s, i) == s[i] * 0x100000000000000 + s[i + 1] * 0x1000000000000 + s[i + 2] * 0x10000000000
            + s[i + 3] * 0x100000000 + s[i + 4] * 0x1000000 + s[i + 5] * 0x10000 + s[i + 6] * 0x100 + s[i + 7],
{
    let (b0, b1, b2, b3) = (s[i], s[i + 1], s[i + 2], s[i + 3]);
    let (b4, b5, b6, b7) = (s[i + 4], s[i + 5], s[i + 6], s[i + 7]);
    assert(((b0 as u64) << 56) | ((b1 as u64) << 48) | ((b2 as u64) << 40) | ((b3 as u64) << 32) | ((b4 as u64)
        << 24) | ((b5 as u64) << 16) | ((b6 as u64) << 8) | (b7 as u64) == (b0 as u64) * 0x100000000000000
        + (b1 as u64) * 0x1000000000000 + (b2 as u64) * 0x10000000000 + (b3 as u64) * 0x100000000 + (b4 as u64)
        * 0x1000000 + (b5 as u64) * 0x10000 + (b6 as u64) * 0x100 + (b7 as u64)) by (bit_vector);
}

/// The encoding of a header is 28 bytes laid out at fixed offsets, each
/// field most significant byte first: "PPRS", then the major version at
/// bytes 4..6, the minor version at 6..8, the kind's code at 8..10, the
/// flags at 10..12, the sequence number at 12..20 and the payload length at
/// 20..28.
pub proof fn lemma_header_layout(h: StreamHeader)
    ensures
        header_bytes(h).len() == 28,
        header_bytes(h).subrange(0, 4) == seq![0x50u8, 0x50u8, 0x52u8, 0x53u8],
        be_value(header_bytes(h), 4, 2) == h.major,
        be_value(header_bytes(h), 6, 2) == h.minor,
        be_value(header_bytes(h), 8, 2) == kind_code(h.kind),
        be_value(header_bytes(h), 10, 2) == h.flags,
        be_value(header_bytes(h), 12, 8) == h.sequence,
        be_value(header_bytes(h), 20, 8) == h.payload_len,
{
    let s = header_bytes(h);
    assert(s.subrange(0, 4) =~= seq![0x50u8, 0x50u8, 0x52u8, 0x53u8]);
    lemma_be_value_2(s, 4);
    lemma_be_value_2(s, 6);
    lemma_be_value_2(s, 8);
    lemma_be_value_2(s, 10);
    lemma_be_value_8(s, 12);
    lemma_be_value_8(s, 20);
    lemma_be16_value(h.major);
    lemma_be16_value(h.minor);
    lemma_be16_value(kind_code(h.kind));
    lemma_be16_value(h.flags);
    lemma_be64_value(h.sequence);
    lemma_be64_value(h.payload_len);
}

/// A header decodes only from 28 bytes starting with "PPRS", and each field
/// is read from its fixed offset, most significant byte first (see
/// `lemma_header_layout`).
pub proof fn lemma_header_decode_layout(s: Seq<u8>)
    ensures
        decode_header(s) matches Ok(h) ==> {
            &&& s.len() == 28
            &&& s.subrange(0, 4) == seq![0x50u8, 0x50u8, 0x52u8, 0x53u8]
            &&& be_value(s, 4, 2) == h.major
            &&& be_value(s, 6, 2) == h.minor
            &&& be_value(s, 8, 2) == kind_code(h.kind)
            &&& be_value(s, 10, 2) == h.flags
            &&& be_value(s, 12, 8) == h.sequence
            &&& be_value(s, 20, 8) == h.payload_len
        },
{
    if s.len() == 28 {
        lemma_be_value_2(s, 4);
        lemma_be_value_2(s, 6);
        lemma_be_value_2(s, 8);
        lemma_be_value_2(s, 10);
        lemma_be_value_8(s, 12);
        lemma_be_value_8(s, 20);
        lemma_read_be16_value(s, 4);
        lemma_read_be16_value(s, 6);
        lemma_read_be16_value(s, 8);
        lemma_read_be16_value(s, 10);
        lemma_read_be64_value(s, 12);
        lemma_read_be64_value(s, 20);
    }
}

/// The opening message of a live session.
#[derive(Debug, Clone, PartialEq, Eq)]
pub struct SessionHello {
    pub session_id: String,
    pub mode: String,
    pub pid: u32,
    pub process_name: String,
    pub frequency_hz: u32,
}

impl SessionHello {
    pub fn new(session_id: &str, mode: &str, pid: u32, process_name: &str, frequency_hz: u32) -> (r: Self)
        ensures
            r.session_id@ == session_id@,
            r.mode@ == mode@,
            r.pid == pid,
            r.process_name@ == process_name@,
            r.frequency_hz == frequency_hz,
    {
        SessionHello {
            session_id: session_id.to_owned(),
            mode: mode.to_owned(),
            pid,
            process_name: process_name.to_owned(),
            frequency_hz,
        }
    }
}

/// What a session publisher keeps between frames: the last sequence number
/// used, and whether a connection was made since this was last asked.
#[derive(Debug, Clone, Copy, PartialEq, Eq)]
pub struct PublisherState {
    pub sequence: u64,
    pub just_connected: bool,
}

impl PublisherState {
    /// No frame sent, no connection made.
    pub fn new() -> (r: Self)
        ensures
            r.sequence == 0,
            !r.just_connected,
    {
        PublisherState { sequence: 0, just_connected: false }
    }

    /// The header of the next frame: protocol 1.0, no flags, the next
    /// sequence number (saturating at the top), and the payload's length.
    pub fn next_header(&mut self, kind: FrameKind, payload_len: usize) -> (r: StreamHeader)
        ensures
            final(self).sequence == (if old(self).sequence == u64::MAX {
                u64::MAX
            } else {
                (old(self).sequence + 1) as u64
            }),
            final(self).just_connected == old(self).just_connected,
            r == (StreamHeader {
                major: 1,
                minor: 0,
                kind,
                flags: 0,
                sequence: final(self).sequence,
                payload_len: payload_len as u64,
            }),
    {
        self.sequence = self.sequence.saturating_add(1);
        StreamHeader { major: 1, minor: 0, kind, flags: 0, sequence: self.sequence, payload_len: payload_len as u64 }
    }

    /// Notes that a connection was made.
    pub fn mark_connected(&mut self)
        ensures
            final(self).just_connected,
            final(self).sequence == old(self).sequence,
    {
        self.just_connected = true;
    }

    /// Whether a connection was made since the last call; clears it.
    pub fn take_just_connected(&mut self) -> (r: bool)
        ensures
            r == old(self).just_connected,
            !final(self).just_connected,
            final(self).sequence == old(self).sequence,
    {
        let r = self.just_connected;
        self.just_connected = false;
        r
    }
}

} // verus!
