use std::time::{Duration, Instant};
use vstd::prelude::*;
use crate::text::str_eq;

verus! {

/// `std::time::Instant` travels through messages untouched; nothing here reads it.
#[verifier::external_type_specification]
#[verifier::external_body]
pub struct ExInstant(Instant);

/// A number of errors that can occur when parsing midi messages
#[derive(Debug, Clone, PartialEq)]
pub enum MidiError {
    CouldNotParse,
    NotImplemented,
    InvalidPort,
    RingbufferFull,
    ConnectionError(String),
    SendError(String),
}

/// A 14-bit midi pitch bend value, stored as it travels on the wire.
#[derive(Clone, Copy, PartialEq, Debug)]
pub struct PitchBend(pub u16);

impl PitchBend {
    /// Convert the "u14" midi pitch bend to a -8192 -> 8191 range i16
    pub fn as_i16(&self) -> (r: i16)
        requires
            (self.0 as i16) - 8192 >= i16::MIN,
        ensures
            r == (self.0 as i16) - 8192,
    {
        let raw: i16 = self.0 as i16;
        raw - 8192
    }
}

// Prefixes for various functionality
pub const NOTE_ON: u8 = 0x9;
pub const NOTE_OFF: u8 = 0x8;
pub const CONTROL: u8 = 0xB;
pub const PITCH_WHEEL: u8 = 0xE;
pub const CHANNEL_AFTER_TOUCH: u8 = 0xD;
pub const POLYPHONIC_AFTER_TOUCH: u8 = 0xA;

pub const SYSTEM_PREFIX: u8 = 0xF;
pub const START: u8 = 0xFA;
pub const CONTINUE: u8 = 0xFB;
pub const STOP: u8 = 0xFC;
pub const CLOCK: u8 = 0xF8;
pub const SONG_POSITION_POINTER: u8 = 0xF2;

/// Limited subset of midi functionality: channel voice messages and the
/// transport/clock system messages.
#[derive(Debug, Clone, Copy, PartialEq)]
pub enum MidiMessageKind {
    NoteOn { note: u8, velocity: u8 },
    NoteOff { note: u8, velocity: u8 },
    ChannelAftertouch { amount: u8 },
    PolyphonicAftertouch { note: u8, amount: u8 },
    Control { control_number: u8, value: u8 },
    PitchWheel { shift: PitchBend },
    Start,
    Stop,
    Clock,
    Continue,
    SongPositionPointer { value: u16 },
    /// Placeholder used only to fill preallocated storage.
    Dummy,
}

/// A minimal struct wrapping the message kind and targeted channel
#[derive(Debug, Clone, Copy, PartialEq)]
pub struct MidiMessage {
    pub data: MidiMessageKind,
    pub instant: Instant,
    pub channel_idx: u8,
}

/// A fixed three-byte buffer and the number of bytes of it that form the
/// message, so that variable-length messages need no heap allocation.
pub struct EncodedMidi {
    pub data: [u8; 3],
    pub len: usize,
}

/// True for the message kinds that address one of the sixteen channels.
pub open spec fn is_channel_kind(k: MidiMessageKind) -> bool {
    match k {
        MidiMessageKind::NoteOn { .. } | MidiMessageKind::NoteOff { .. }
        | MidiMessageKind::Control { .. } | MidiMessageKind::PolyphonicAftertouch { .. }
        | MidiMessageKind::ChannelAftertouch { .. } | MidiMessageKind::PitchWheel { .. } => true,
        _ => false,
    }
}

/// True for the transport and clock kinds kept in the general store.
pub open spec fn is_system_kind(k: MidiMessageKind) -> bool {
    match k {
        MidiMessageKind::Start | MidiMessageKind::Continue | MidiMessageKind::Clock
        | MidiMessageKind::Stop | MidiMessageKind::SongPositionPointer { .. } => true,
        _ => false,
    }
}

/// Join a 7-bit LSB and a MSB the way the wire format does.
pub open spec fn join_seven_bits(lsb: u8, msb: u8) -> u16 {
    ((msb as u16) << 7u16) | ((lsb as u16) & 0x7Fu16)
}

/// Number of bytes the parser reads for a message starting with `status`.
pub open spec fn required_len(status: u8) -> nat {
    let kind = status >> 4u8;
    if kind == NOTE_ON || kind == NOTE_OFF || kind == CONTROL || kind == PITCH_WHEEL
        || kind == POLYPHONIC_AFTER_TOUCH {
        3
    } else if kind == CHANNEL_AFTER_TOUCH {
        2
    } else if status == SONG_POSITION_POINTER {
        3
    } else {
        1
    }
}

/// A byte string that holds every byte the parser reads from it.
pub open spec fn readable_midi(bytes: Seq<u8>) -> bool {
    bytes.len() > 0 ==> bytes.len() >= required_len(bytes[0])
}

/// What a midi byte string means: the channel index and the message kind.
pub open spec fn spec_parse_midi(bytes: Seq<u8>) -> Result<(u8, MidiMessageKind), MidiError> {
    if bytes.len() == 0 {
        Err(MidiError::CouldNotParse)
    } else {
        let status = bytes[0];
        let kind = status >> 4u8;
        let chan = status & 0x0Fu8;
        if kind == NOTE_ON {
            Ok((chan, MidiMessageKind::NoteOn { note: bytes[1], velocity: bytes[2] }))
        } else if kind == NOTE_OFF {
            Ok((chan, MidiMessageKind::NoteOff { note: bytes[1], velocity: bytes[2] }))
        } else if kind == CONTROL {
            Ok((chan, MidiMessageKind::Control { control_number: bytes[1], value: bytes[2] }))
        } else if kind == PITCH_WHEEL {
            Ok(
                (
                    chan,
                    MidiMessageKind::PitchWheel {
                        shift: PitchBend(join_seven_bits(bytes[1], bytes[2])),
                    },
                ),
            )
        } else if kind == CHANNEL_AFTER_TOUCH {
            Ok((chan, MidiMessageKind::ChannelAftertouch { amount: bytes[1] }))
        } else if kind == POLYPHONIC_AFTER_TOUCH {
            Ok((chan, MidiMessageKind::PolyphonicAftertouch { note: bytes[1], amount: bytes[2] }))
        } else if kind == SYSTEM_PREFIX {
            if status == START {
                Ok((0u8, MidiMessageKind::Start))
            } else if status == CONTINUE {
                Ok((0u8, MidiMessageKind::Continue))
            } else if status == STOP {
                Ok((0u8, MidiMessageKind::Stop))
            } else if status == CLOCK {
                Ok((0u8, MidiMessageKind::Clock))
            } else if status == SONG_POSITION_POINTER {
                Ok(
                    (
                        0u8,
                        MidiMessageKind::SongPositionPointer {
                            value: join_seven_bits(bytes[1], bytes[2]),
                        },
                    ),
                )
            } else {
                Err(MidiError::NotImplemented)
            }
        } else {
            Err(MidiError::NotImplemented)
        }
    }
}

/// Status byte for a channel message of the given prefix.
pub open spec fn status_byte(prefix: u8, chan: u8) -> u8 {
    (prefix << 4u8) | (chan & 0x0Fu8)
}

/// The low seven bits of a 14-bit value.
pub open spec fn low_seven(v: u16) -> u8 {
    (v & 0x7Fu16) as u8
}

/// The high seven bits of a 14-bit value.
pub open spec fn high_seven(v: u16) -> u8 {
    ((v >> 7u16) & 0x7Fu16) as u8
}

/// The three-byte buffer that `encode` fills for a message.
pub open spec fn spec_encode(chan: u8, kind: MidiMessageKind) -> Seq<u8> {
    match kind {
        MidiMessageKind::NoteOn { note, velocity } => seq![
            status_byte(NOTE_ON, chan),
            note,
            velocity,
        ],
        MidiMessageKind::NoteOff { note, velocity } => seq![
            status_byte(NOTE_OFF, chan),
            note,
            velocity,
        ],
        MidiMessageKind::Control { control_number, value } => seq![
            status_byte(CONTROL, chan),
            control_number,
            value,
        ],
        MidiMessageKind::PitchWheel { shift } => seq![
            status_byte(PITCH_WHEEL, chan),
            low_seven(shift.0),
            high_seven(shift.0),
        ],
        MidiMessageKind::ChannelAftertouch { amount } => seq![
            status_byte(CHANNEL_AFTER_TOUCH, chan),
            amount,
            0u8,
        ],
        MidiMessageKind::PolyphonicAftertouch { note, amount } => seq![
            status_byte(POLYPHONIC_AFTER_TOUCH, chan),
            note,
            amount,
        ],
        MidiMessageKind::Start => seq![START, 0u8, 0u8],
        MidiMessageKind::Continue => seq![CONTINUE, 0u8, 0u8],
        MidiMessageKind::Stop => seq![STOP, 0u8, 0u8],
        MidiMessageKind::Clock => seq![CLOCK, 0u8, 0u8],
        MidiMessageKind::SongPositionPointer { value } => seq![
            SONG_POSITION_POINTER,
            low_seven(value),
            high_seven(value),
        ],
        MidiMessageKind::Dummy => seq![0u8, 0u8, 0u8],
    }
}

/// How many bytes of the buffer a message occupies on the wire.
pub open spec fn spec_encoded_len(kind: MidiMessageKind) -> usize {
    match kind {
        MidiMessageKind::ChannelAftertouch { .. } => 2,
        MidiMessageKind::Start | MidiMessageKind::Continue | MidiMessageKind::Stop
        | MidiMessageKind::Clock => 1,
        _ => 3,
    }
}

/// The bytes that go on the wire for a message.
pub open spec fn spec_wire_bytes(chan: u8, kind: MidiMessageKind) -> Seq<u8> {
    spec_encode(chan, kind).take(spec_encoded_len(kind) as int)
}

/// A message the wire format can carry without loss: a real message kind,
/// a channel that fits the status nibble (zero for system messages), and
/// 14-bit values that fit in two 7-bit data bytes.
pub open spec fn is_encodable(chan: u8, kind: MidiMessageKind) -> bool {
    &&& !(kind is Dummy)
    &&& is_channel_kind(kind) ==> chan < 16
    &&& is_system_kind(kind) ==> chan == 0
    &&& kind matches MidiMessageKind::PitchWheel { shift } ==> shift.0 < 0x4000
    &&& kind matches MidiMessageKind::SongPositionPointer { value } ==> value < 0x4000
}

proof fn lemma_status_byte(prefix: u8, chan: u8)
    requires
        prefix < 16,
        chan < 16,
    ensures
        status_byte(prefix, chan) >> 4u8 == prefix,
        status_byte(prefix, chan) & 0x0Fu8 == chan,
{
    assert(((prefix << 4u8) | (chan & 0x0Fu8)) >> 4u8 == prefix) by (bit_vector)
        requires
            prefix < 16,
            chan < 16,
    ;
    assert(((prefix << 4u8) | (chan & 0x0Fu8)) & 0x0Fu8 == chan) by (bit_vector)
        requires
            prefix < 16,
            chan < 16,
    ;
}

proof fn lemma_seven_bit_split(v: u16)
    requires
        v < 0x4000,
    ensures
        join_seven_bits(low_seven(v), high_seven(v)) == v,
        low_seven(v) < 0x80,
        high_seven(v) < 0x80,
{
    assert(((((v >> 7u16) & 0x7Fu16) as u8 as u16) << 7u16) | ((((v & 0x7Fu16) as u8) as u16)
        & 0x7Fu16) == v) by (bit_vector)
        requires
            v < 0x4000,
    ;
    assert(((v & 0x7Fu16) as u8) < 0x80u8) by (bit_vector);
    assert((((v >> 7u16) & 0x7Fu16) as u8) < 0x80u8) by (bit_vector);
}

proof fn lemma_system_status_bytes()
    ensures
        START >> 4u8 == SYSTEM_PREFIX,
        CONTINUE >> 4u8 == SYSTEM_PREFIX,
        STOP >> 4u8 == SYSTEM_PREFIX,
        CLOCK >> 4u8 == SYSTEM_PREFIX,
        SONG_POSITION_POINTER >> 4u8 == SYSTEM_PREFIX,
{
    assert(0xFAu8 >> 4u8 == 0xFu8) by (bit_vector);
    assert(0xFBu8 >> 4u8 == 0xFu8) by (bit_vector);
    assert(0xFCu8 >> 4u8 == 0xFu8) by (bit_vector);
    assert(0xF8u8 >> 4u8 == 0xFu8) by (bit_vector);
    assert(0xF2u8 >> 4u8 == 0xFu8) by (bit_vector);
}

/// Decoding what `encode` puts on the wire gives back the channel and the
/// message kind, for every message the wire format can carry; the wire bytes
/// also hold every byte the parser reads.
pub proof fn lemma_parse_encode_roundtrip(chan: u8, kind: MidiMessageKind)
    requires
        is_encodable(chan, kind),
    ensures
        readable_midi(spec_wire_bytes(chan, kind)),
        spec_parse_midi(spec_wire_bytes(chan, kind)) == Ok::<(u8, MidiMessageKind), MidiError>(
            (chan, kind),
        ),
{
    lemma_system_status_bytes();
    let w = spec_wire_bytes(chan, kind);
    match kind {
        MidiMessageKind::NoteOn { .. } => lemma_status_byte(NOTE_ON, chan),
        MidiMessageKind::NoteOff { .. } => lemma_status_byte(NOTE_OFF, chan),
        MidiMessageKind::Control { .. } => lemma_status_byte(CONTROL, chan),
        MidiMessageKind::PitchWheel { shift } => {
            lemma_status_byte(PITCH_WHEEL, chan);
            lemma_seven_bit_split(shift.0);
        },
        MidiMessageKind::ChannelAftertouch { .. } => lemma_status_byte(CHANNEL_AFTER_TOUCH, chan),
        MidiMessageKind::PolyphonicAftertouch { .. } => lemma_status_byte(
            POLYPHONIC_AFTER_TOUCH,
            chan,
        ),
        MidiMessageKind::SongPositionPointer { value } => lemma_seven_bit_split(value),
        _ => {},
    }
    assert(w.len() == spec_encoded_len(kind));
}


/// A status byte `b` carries message kind `b / 16` and channel `b % 16`.
proof fn lemma_status_nibbles(b: u8)
    ensures
        (b >> 4u8) as int == b as int / 16,
        (b & 0x0Fu8) as int == b as int % 16,
{
    assert((b >> 4u8) == b / 16) by (bit_vector);
    assert((b & 0x0Fu8) == b % 16) by (bit_vector);
}

/// Two 7-bit data bytes joined: the second is the high part.
proof fn lemma_join_value(lsb: u8, msb: u8)
    ensures
        join_seven_bits(lsb, msb) as int == msb as int * 128 + lsb as int % 128,
{
    assert((((msb as u16) << 7u16) | ((lsb as u16) & 0x7Fu16)) == (msb as u16) * 128 + (lsb as u16) % 128)
        by (bit_vector);
}

/// The wire layout of every message: the status byte's high nibble picks
/// the kind and its low nibble the channel, and the data bytes follow in
/// order (note then velocity, controller then value, low then high seven
/// bits of a 14-bit value).
pub proof fn lemma_wire_layout(bytes: Seq<u8>)
    requires
        readable_midi(bytes),
    ensures
        bytes.len() == 0 ==> spec_parse_midi(bytes) == Err::<(u8, MidiMessageKind), MidiError>(MidiError::CouldNotParse),
        bytes.len() > 0 && bytes[0] < 0x80 ==> spec_parse_midi(bytes) == Err::<(u8, MidiMessageKind), MidiError>(MidiError::NotImplemented),
        bytes.len() > 0 && 0x80 <= bytes[0] < 0x90 ==> spec_parse_midi(bytes) == Ok::<(u8, MidiMessageKind), MidiError>(
            ((bytes[0] - 0x80) as u8, MidiMessageKind::NoteOff { note: bytes[1], velocity: bytes[2] })),
        bytes.len() > 0 && 0x90 <= bytes[0] < 0xA0 ==> spec_parse_midi(bytes) == Ok::<(u8, MidiMessageKind), MidiError>(
            ((bytes[0] - 0x90) as u8, MidiMessageKind::NoteOn { note: bytes[1], velocity: bytes[2] })),
        bytes.len() > 0 && 0xA0 <= bytes[0] < 0xB0 ==> spec_parse_midi(bytes) == Ok::<(u8, MidiMessageKind), MidiError>(
            ((bytes[0] - 0xA0) as u8, MidiMessageKind::PolyphonicAftertouch { note: bytes[1], amount: bytes[2] })),
        bytes.len() > 0 && 0xB0 <= bytes[0] < 0xC0 ==> spec_parse_midi(bytes) == Ok::<(u8, MidiMessageKind), MidiError>(
            ((bytes[0] - 0xB0) as u8, MidiMessageKind::Control { control_number: bytes[1], value: bytes[2] })),
        bytes.len() > 0 && 0xC0 <= bytes[0] < 0xD0 ==> spec_parse_midi(bytes) == Err::<(u8, MidiMessageKind), MidiError>(MidiError::NotImplemented),
        bytes.len() > 0 && 0xD0 <= bytes[0] < 0xE0 ==> spec_parse_midi(bytes) == Ok::<(u8, MidiMessageKind), MidiError>(
            ((bytes[0] - 0xD0) as u8, MidiMessageKind::ChannelAftertouch { amount: bytes[1] })),
        bytes.len() > 0 && 0xE0 <= bytes[0] < 0xF0 ==> (spec_parse_midi(bytes) matches Ok((c, MidiMessageKind::PitchWheel { shift }))
            && c == bytes[0] - 0xE0 && shift.0 == bytes[2] * 128 + bytes[1] % 128),
        bytes.len() > 0 && bytes[0] == 0xF2 ==> (spec_parse_midi(bytes) matches Ok((c, MidiMessageKind::SongPositionPointer { value }))
            && c == 0 && value == bytes[2] * 128 + bytes[1] % 128),
        bytes.len() > 0 && bytes[0] == 0xF8 ==> spec_parse_midi(bytes) == Ok::<(u8, MidiMessageKind), MidiError>((0u8, MidiMessageKind::Clock)),
        bytes.len() > 0 && bytes[0] == 0xFA ==> spec_parse_midi(bytes) == Ok::<(u8, MidiMessageKind), MidiError>((0u8, MidiMessageKind::Start)),
        bytes.len() > 0 && bytes[0] == 0xFB ==> spec_parse_midi(bytes) == Ok::<(u8, MidiMessageKind), MidiError>((0u8, MidiMessageKind::Continue)),
        bytes.len() > 0 && bytes[0] == 0xFC ==> spec_parse_midi(bytes) == Ok::<(u8, MidiMessageKind), MidiError>((0u8, MidiMessageKind::Stop)),
        bytes.len() > 0 && bytes[0] >= 0xF0 && bytes[0] != 0xF2 && bytes[0] != 0xF8 && bytes[0] != 0xFA && bytes[0] != 0xFB
            && bytes[0] != 0xFC ==> spec_parse_midi(bytes) == Err::<(u8, MidiMessageKind), MidiError>(MidiError::NotImplemented),
{
    if bytes.len() > 0 {
        lemma_status_nibbles(bytes[0]);
        if bytes.len() >= 3 {
            lemma_join_value(bytes[1], bytes[2]);
        }
    }
}

/// What `encode` writes, byte by byte: the status byte is the kind's high
/// nibble over the channel's low nibble, and the data bytes follow in order.
pub proof fn lemma_encode_layout(chan: u8, kind: MidiMessageKind)
    ensures
        kind matches MidiMessageKind::NoteOff { note, velocity } ==> spec_encode(chan, kind) == seq![(0x80 + chan % 16) as u8, note, velocity],
        kind matches MidiMessageKind::NoteOn { note, velocity } ==> spec_encode(chan, kind) == seq![(0x90 + chan % 16) as u8, note, velocity],
        kind matches MidiMessageKind::PolyphonicAftertouch { note, amount } ==> spec_encode(chan, kind) == seq![(0xA0 + chan % 16) as u8, note, amount],
        kind matches MidiMessageKind::Control { control_number, value } ==> spec_encode(chan, kind) == seq![(0xB0 + chan % 16) as u8, control_number, value],
        kind matches MidiMessageKind::ChannelAftertouch { amount } ==> spec_encode(chan, kind) == seq![(0xD0 + chan % 16) as u8, amount, 0u8],
        kind matches MidiMessageKind::PitchWheel { shift } ==> spec_encode(chan, kind) == seq![(0xE0 + chan % 16) as u8, (shift.0 % 128) as u8, ((shift.0 / 128) % 128) as u8],
        kind matches MidiMessageKind::SongPositionPointer { value } ==> spec_encode(chan, kind) == seq![0xF2u8, (value % 128) as u8, ((value / 128) % 128) as u8],
        kind is Start ==> spec_encode(chan, kind) == seq![0xFAu8, 0u8, 0u8],
        kind is Continue ==> spec_encode(chan, kind) == seq![0xFBu8, 0u8, 0u8],
        kind is Stop ==> spec_encode(chan, kind) == seq![0xFCu8, 0u8, 0u8],
        kind is Clock ==> spec_encode(chan, kind) == seq![0xF8u8, 0u8, 0u8],
{
    assert(status_byte(0x8, chan) == 0x80 + chan % 16) by (bit_vector);
    assert(status_byte(0x9, chan) == 0x90 + chan % 16) by (bit_vector);
    assert(status_byte(0xA, chan) == 0xA0 + chan % 16) by (bit_vector);
    assert(status_byte(0xB, chan) == 0xB0 + chan % 16) by (bit_vector);
    assert(status_byte(0xD, chan) == 0xD0 + chan % 16) by (bit_vector);
    assert(status_byte(0xE, chan) == 0xE0 + chan % 16) by (bit_vector);
    match kind {
        MidiMessageKind::PitchWheel { shift } => {
            let v = shift.0;
            assert(low_seven(v) == (v % 128) as u8) by (bit_vector);
            assert(high_seven(v) == ((v / 128) % 128) as u8) by (bit_vector);
        },
        MidiMessageKind::SongPositionPointer { value } => {
            let v = value;
            assert(low_seven(v) == (v % 128) as u8) by (bit_vector);
            assert(high_seven(v) == ((v / 128) % 128) as u8) by (bit_vector);
        },
        _ => {},
    }
}

/// A byte string of exactly the length the parser reads, whose 14-bit
/// payloads are written as two 7-bit data bytes.
pub open spec fn canonical_midi(bytes: Seq<u8>) -> bool {
    &&& bytes.len() > 0
    &&& bytes.len() == required_len(bytes[0])
    &&& (bytes[0] >> 4u8 == PITCH_WHEEL || bytes[0] == SONG_POSITION_POINTER) ==> (bytes[1]
        < 0x80 && bytes[2] < 0x80)
}

proof fn lemma_status_split(b: u8)
    ensures
        status_byte(b >> 4u8, b & 0x0Fu8) == b,
        b >> 4u8 < 16,
        b & 0x0Fu8 < 16,
{
    assert((((b >> 4u8) << 4u8) | ((b & 0x0Fu8) & 0x0Fu8)) == b) by (bit_vector);
    assert(b >> 4u8 < 16u8) by (bit_vector);
    assert(b & 0x0Fu8 < 16u8) by (bit_vector);
}

proof fn lemma_seven_bit_join(lsb: u8, msb: u8)
    requires
        lsb < 0x80,
        msb < 0x80,
    ensures
        low_seven(join_seven_bits(lsb, msb)) == lsb,
        high_seven(join_seven_bits(lsb, msb)) == msb,
{
    assert(((((msb as u16) << 7u16) | ((lsb as u16) & 0x7Fu16)) & 0x7Fu16) as u8 == lsb)
        by (bit_vector)
        requires
            lsb < 0x80,
            msb < 0x80,
    ;
    assert(((((((msb as u16) << 7u16) | ((lsb as u16) & 0x7Fu16)) >> 7u16) & 0x7Fu16) as u8)
        == msb) by (bit_vector)
        requires
            lsb < 0x80,
            msb < 0x80,
    ;
}

/// Every canonical byte string that parses is exactly what `encode` writes
/// for the message it parses to.
pub proof fn lemma_encode_parse_roundtrip(bytes: Seq<u8>)
    requires
        canonical_midi(bytes),
        spec_parse_midi(bytes) is Ok,
    ensures
        spec_wire_bytes(spec_parse_midi(bytes)->Ok_0.0, spec_parse_midi(bytes)->Ok_0.1) == bytes,
{
    let b = bytes[0];
    lemma_status_split(b);
    lemma_system_status_bytes();
    let (chan, kind) = spec_parse_midi(bytes)->Ok_0;
    if b >> 4u8 == PITCH_WHEEL || b == SONG_POSITION_POINTER {
        lemma_seven_bit_join(bytes[1], bytes[2]);
    }
    assert(spec_wire_bytes(chan, kind) =~= bytes);
}

impl MidiMessage {
    /// Encode this message into its wire bytes.
    pub fn encode(&self) -> (e: EncodedMidi)
        requires
            !(self.data is Dummy),
        ensures
            e.data@ == spec_encode(self.channel_idx, self.data),
            e.len == spec_encoded_len(self.data),
            self.data matches MidiMessageKind::NoteOff { note, velocity } ==> e.data@ == seq![(0x80 + self.channel_idx % 16) as u8, note, velocity] && e.len == 3,
            self.data matches MidiMessageKind::NoteOn { note, velocity } ==> e.data@ == seq![(0x90 + self.channel_idx % 16) as u8, note, velocity] && e.len == 3,
            self.data matches MidiMessageKind::PolyphonicAftertouch { note, amount } ==> e.data@ == seq![(0xA0 + self.channel_idx % 16) as u8, note, amount] && e.len == 3,
            self.data matches MidiMessageKind::Control { control_number, value } ==> e.data@ == seq![(0xB0 + self.channel_idx % 16) as u8, control_number, value] && e.len == 3,
            self.data matches MidiMessageKind::ChannelAftertouch { amount } ==> e.data@ == seq![(0xD0 + self.channel_idx % 16) as u8, amount, 0u8] && e.len == 2,
            self.data matches MidiMessageKind::PitchWheel { shift } ==> e.data@ == seq![(0xE0 + self.channel_idx % 16) as u8, (shift.0 % 128) as u8, ((shift.0 / 128) % 128) as u8] && e.len == 3,
            self.data matches MidiMessageKind::SongPositionPointer { value } ==> e.data@ == seq![0xF2u8, (value % 128) as u8, ((value / 128) % 128) as u8] && e.len == 3,
            self.data matches MidiMessageKind::Start ==> e.data@ == seq![0xFAu8, 0u8, 0u8] && e.len == 1,
            self.data matches MidiMessageKind::Continue ==> e.data@ == seq![0xFBu8, 0u8, 0u8] && e.len == 1,
            self.data matches MidiMessageKind::Stop ==> e.data@ == seq![0xFCu8, 0u8, 0u8] && e.len == 1,
            self.data matches MidiMessageKind::Clock ==> e.data@ == seq![0xF8u8, 0u8, 0u8] && e.len == 1,
    {
        proof {
            lemma_encode_layout(self.channel_idx, self.data);
        }
        let chan = self.channel_idx & 0x0F;
        match self.data {
            MidiMessageKind::NoteOn { note, velocity } => {
                EncodedMidi { data: [(NOTE_ON << 4) | chan, note, velocity], len: 3 }
            },
            MidiMessageKind::NoteOff { note, velocity } => {
                EncodedMidi { data: [(NOTE_OFF << 4) | chan, note, velocity], len: 3 }
            },
            MidiMessageKind::Control { control_number, value } => {
                EncodedMidi { data: [(CONTROL << 4) | chan, control_number, value], len: 3 }
            },
            MidiMessageKind::PitchWheel { shift } => {
                let value = shift.0;
                let lsb = (value & 0x7F) as u8;
                let msb = ((value >> 7) & 0x7F) as u8;
                EncodedMidi { data: [(PITCH_WHEEL << 4) | chan, lsb, msb], len: 3 }
            },
            MidiMessageKind::ChannelAftertouch { amount } => {
                EncodedMidi { data: [(CHANNEL_AFTER_TOUCH << 4) | chan, amount, 0], len: 2 }
            },
            MidiMessageKind::PolyphonicAftertouch { note, amount } => {
                EncodedMidi { data: [(POLYPHONIC_AFTER_TOUCH << 4) | chan, note, amount], len: 3 }
            },
            MidiMessageKind::Start => EncodedMidi { data: [START, 0, 0], len: 1 },
            MidiMessageKind::Continue => EncodedMidi { data: [CONTINUE, 0, 0], len: 1 },
            MidiMessageKind::Stop => EncodedMidi { data: [STOP, 0, 0], len: 1 },
            MidiMessageKind::Clock => EncodedMidi { data: [CLOCK, 0, 0], len: 1 },
            MidiMessageKind::SongPositionPointer { value } => {
                let lsb = (value & 0x7F) as u8;
                let msb = ((value >> 7) & 0x7F) as u8;
                EncodedMidi { data: [SONG_POSITION_POINTER, lsb, msb], len: 3 }
            },
            MidiMessageKind::Dummy => EncodedMidi { data: [0, 0, 0], len: 0 },
        }
    }
}

/// Whether `message` holds every byte `parse_midi` reads from it.
pub fn is_readable_midi(message: &[u8]) -> (r: bool)
    ensures
        r == readable_midi(message@),
{
    if message.len() == 0 {
        return true;
    }
    let status = message[0];
    let kind = status >> 4;
    let needed: usize = if kind == NOTE_ON || kind == NOTE_OFF || kind == CONTROL || kind
        == PITCH_WHEEL || kind == POLYPHONIC_AFTER_TOUCH {
        3
    } else if kind == CHANNEL_AFTER_TOUCH {
        2
    } else if status == SONG_POSITION_POINTER {
        3
    } else {
        1
    };
    message.len() >= needed
}

/// Parse one midi message from raw bytes, stamping it with `instant`.
pub fn parse_midi(message: &[u8], instant: Instant) -> (r: Result<MidiMessage, MidiError>)
    requires
        readable_midi(message@),
    ensures
        match r {
            Ok(m) => spec_parse_midi(message@) == Ok::<(u8, MidiMessageKind), MidiError>(
                (m.channel_idx, m.data),
            ) && m.instant == instant,
            Err(e) => spec_parse_midi(message@) == Err::<(u8, MidiMessageKind), MidiError>(e),
        },
        message@.len() == 0 ==> r == Err::<MidiMessage, MidiError>(MidiError::CouldNotParse),
        message@.len() > 0 && message@[0] < 0x80 ==> r == Err::<MidiMessage, MidiError>(MidiError::NotImplemented),
        message@.len() > 0 && 0x80 <= message@[0] < 0x90 ==> (r matches Ok(m) && m.channel_idx == message@[0] - 0x80 && m.data == (MidiMessageKind::NoteOff { note: message@[1], velocity: message@[2] }) && m.instant == instant),
        message@.len() > 0 && 0x90 <= message@[0] < 0xA0 ==> (r matches Ok(m) && m.channel_idx == message@[0] - 0x90 && m.data == (MidiMessageKind::NoteOn { note: message@[1], velocity: message@[2] }) && m.instant == instant),
        message@.len() > 0 && 0xA0 <= message@[0] < 0xB0 ==> (r matches Ok(m) && m.channel_idx == message@[0] - 0xA0 && m.data == (MidiMessageKind::PolyphonicAftertouch { note: message@[1], amount: message@[2] }) && m.instant == instant),
        message@.len() > 0 && 0xB0 <= message@[0] < 0xC0 ==> (r matches Ok(m) && m.channel_idx == message@[0] - 0xB0 && m.data == (MidiMessageKind::Control { control_number: message@[1], value: message@[2] }) && m.instant == instant),
        message@.len() > 0 && 0xC0 <= message@[0] < 0xD0 ==> r == Err::<MidiMessage, MidiError>(MidiError::NotImplemented),
        message@.len() > 0 && 0xD0 <= message@[0] < 0xE0 ==> (r matches Ok(m) && m.channel_idx == message@[0] - 0xD0 && m.data == (MidiMessageKind::ChannelAftertouch { amount: message@[1] }) && m.instant == instant),
        message@.len() > 0 && 0xE0 <= message@[0] < 0xF0 ==> (r matches Ok(m) && m.channel_idx == message@[0] - 0xE0 && (m.data matches MidiMessageKind::PitchWheel { shift } && shift.0 == message@[2] * 128 + message@[1] % 128) && m.instant == instant),
        message@.len() > 0 && message@[0] == 0xF2 ==> (r matches Ok(m) && m.channel_idx == 0 && (m.data matches MidiMessageKind::SongPositionPointer { value } && value == message@[2] * 128 + message@[1] % 128) && m.instant == instant),
        message@.len() > 0 && message@[0] == 0xF8 ==> (r matches Ok(m) && m.channel_idx == 0 && m.data == MidiMessageKind::Clock && m.instant == instant),
        message@.len() > 0 && message@[0] == 0xFA ==> (r matches Ok(m) && m.channel_idx == 0 && m.data == MidiMessageKind::Start && m.instant == instant),
        message@.len() > 0 && message@[0] == 0xFB ==> (r matches Ok(m) && m.channel_idx == 0 && m.data == MidiMessageKind::Continue && m.instant == instant),
        message@.len() > 0 && message@[0] == 0xFC ==> (r matches Ok(m) && m.channel_idx == 0 && m.data == MidiMessageKind::Stop && m.instant == instant),
        message@.len() > 0 && message@[0] >= 0xF0 && message@[0] != 0xF2 && message@[0] != 0xF8 && message@[0] != 0xFA && message@[0] != 0xFB && message@[0] != 0xFC ==> r == Err::<MidiMessage, MidiError>(MidiError::NotImplemented),
{
    proof {
        lemma_wire_layout(message@);
    }
    if message.len() == 0 {
        return Err(MidiError::CouldNotParse);
    }
    let message_byte = message[0];
    let message_kind = message_byte >> 4;
    let message_channel_index = message_byte & 0x0F;

    if message_kind == NOTE_ON {
        let data = MidiMessageKind::NoteOn { note: message[1], velocity: message[2] };
        Ok(MidiMessage { channel_idx: message_channel_index, instant, data })
    } else if message_kind == NOTE_OFF {
        let data = MidiMessageKind::NoteOff { note: message[1], velocity: message[2] };
        Ok(MidiMessage { channel_idx: message_channel_index, instant, data })
    } else if message_kind == CONTROL {
        let data = MidiMessageKind::Control { control_number: message[1], value: message[2] };
        Ok(MidiMessage { data, instant, channel_idx: message_channel_index })
    } else if message_kind == PITCH_WHEEL {
        let lsb = message[1];
        let msb = message[2];
        let value = ((msb as u16) << 7) | (lsb as u16 & 0x7F);
        let data = MidiMessageKind::PitchWheel { shift: PitchBend(value) };
        Ok(MidiMessage { data, instant, channel_idx: message_channel_index })
    } else if message_kind == CHANNEL_AFTER_TOUCH {
        let data = MidiMessageKind::ChannelAftertouch { amount: message[1] };
        Ok(MidiMessage { data, instant, channel_idx: message_channel_index })
    } else if message_kind == POLYPHONIC_AFTER_TOUCH {
        let data = MidiMessageKind::PolyphonicAftertouch { note: message[1], amount: message[2] };
        Ok(MidiMessage { data, instant, channel_idx: message_channel_index })
    } else if message_kind == SYSTEM_PREFIX {
        let data = if message_byte == START {
            MidiMessageKind::Start
        } else if message_byte == CONTINUE {
            MidiMessageKind::Continue
        } else if message_byte == STOP {
            MidiMessageKind::Stop
        } else if message_byte == CLOCK {
            MidiMessageKind::Clock
        } else if message_byte == SONG_POSITION_POINTER {
            let lsb = message[1];
            let msb = message[2];
            let value = ((msb as u16) << 7) | (lsb as u16 & 0x7F);
            MidiMessageKind::SongPositionPointer { value }
        } else {
            return Err(MidiError::NotImplemented);
        };
        Ok(MidiMessage { data, instant, channel_idx: 0 })
    } else {
        Err(MidiError::NotImplemented)
    }
}

} // verus!

verus! {

/// Number of midi channels.
pub const MIDI_CHANS: usize = 16;

/// The current instant.
#[verifier::external_body]
fn instant_now() -> Instant {
    Instant::now()
}

fn get_dummy_midi() -> (m: MidiMessage)
    ensures
        m.data is Dummy,
        m.channel_idx == 0,
{
    MidiMessage { channel_idx: 0, data: MidiMessageKind::Dummy, instant: instant_now() }
}

fn filled(msg: MidiMessage, n: usize) -> (v: Vec<MidiMessage>)
    ensures
        v@ == Seq::new(n as nat, |_i: int| msg),
{
    let mut v: Vec<MidiMessage> = Vec::new();
    let mut i: usize = 0;
    while i < n
        invariant
            i <= n,
            v@ == Seq::new(i as nat, |_i: int| msg),
        decreases n - i,
    {
        v.push(msg);
        i = i + 1;
        assert(v@ =~= Seq::new(i as nat, |_i: int| msg));
    }
    v
}

/// The MidiStore stores Midi messages in a flat layout: channel `c` owns
/// the slots `c * capacity .. (c + 1) * capacity`, of which the first
/// `count[c]` are live; system messages share one further block of
/// `capacity` slots.
#[derive(Clone)]
pub struct MidiStore {
    channel_messages: Vec<MidiMessage>,
    channel_messages_count: [usize; 16],
    general_messages: Vec<MidiMessage>,
    general_messages_count: usize,
    capacity: usize,
}

/// What `insert` does: a channel message on a channel below 16 is appended
/// to that channel unless it is full, a transport message to the system
/// block unless it is full; otherwise the store is unchanged and the error
/// says why.
pub open spec fn inserted(before: MidiStore, msg: MidiMessage, after: MidiStore, r: Result<(), MidiError>) -> bool {
    &&& after.wf()
    &&& after.capacity() == before.capacity()
    &&& is_channel_kind(msg.data) ==> {
        let c = msg.channel_idx as int;
        if c >= 16 {
            r == Err::<(), MidiError>(MidiError::InvalidPort) && after == before
        } else if before.channel(c).len() >= before.capacity() {
            r == Err::<(), MidiError>(MidiError::RingbufferFull) && after == before
        } else {
            &&& r is Ok
            &&& after.channel(c) == before.channel(c).push(msg)
            &&& forall|d: int|
                0 <= d < 16 && d != c ==> #[trigger] after.channel(d) == before.channel(d)
            &&& after.general() == before.general()
            &&& after.general_slots() == before.general_slots()
        }
    }
    &&& is_system_kind(msg.data) ==> {
        if before.general().len() >= before.capacity() {
            r == Err::<(), MidiError>(MidiError::RingbufferFull) && after == before
        } else {
            &&& r is Ok
            &&& after.general() == before.general().push(msg)
            &&& after.general_slots() == before.general_slots().update(
                before.general().len() as int,
                msg,
            )
            &&& forall|d: int|
                0 <= d < 16 ==> #[trigger] after.channel(d) == before.channel(d)
        }
    }
}

/// What `clear` does: no channel and no system message is left, with the
/// capacity and the system block's slots (the allocation) as they were.
pub open spec fn cleared(before: MidiStore, after: MidiStore) -> bool {
    &&& after.wf()
    &&& after.capacity() == before.capacity()
    &&& forall|c: int| 0 <= c < 16 ==> #[trigger] after.channel(c).len() == 0
    &&& after.general().len() == 0
    &&& after.general_slots() == before.general_slots()
}

/// Clearing a cleared store changes nothing it holds.
pub proof fn lemma_clear_twice(a: MidiStore, b: MidiStore, c: MidiStore)
    requires
        cleared(a, b),
        cleared(b, c),
    ensures
        c.capacity() == b.capacity(),
        c.general() == b.general(),
        c.general_slots() == b.general_slots(),
        forall|d: int| 0 <= d < 16 ==> #[trigger] c.channel(d) == b.channel(d),
{
    assert(c.general() =~= b.general());
    assert forall|d: int| 0 <= d < 16 implies #[trigger] c.channel(d) == b.channel(d) by {
        assert(c.channel(d) =~= b.channel(d));
    }
}

/// A channel holding no messages takes exactly `capacity` messages for it,
/// keeping them in order, and refuses each one after that as full.
pub proof fn lemma_channel_fills(
    stores: Seq<MidiStore>,
    msgs: Seq<MidiMessage>,
    results: Seq<Result<(), MidiError>>,
    c: int,
)
    requires
        0 <= c < 16,
        stores.len() == msgs.len() + 1,
        results.len() == msgs.len(),
        stores[0].channel(c).len() == 0,
        forall|i: int|
            0 <= i < msgs.len() ==> is_channel_kind((#[trigger] msgs[i]).data) && msgs[i].channel_idx
                == c && inserted(stores[i], msgs[i], stores[i + 1], results[i]),
    ensures
        forall|i: int| 0 <= i <= msgs.len() ==> (#[trigger] stores[i]).capacity() == stores[0].capacity(),
        forall|i: int|
            0 <= i < msgs.len() ==> ((#[trigger] results[i]) is Ok <==> i < stores[0].capacity()),
        forall|i: int|
            0 <= i <= msgs.len() ==> (#[trigger] stores[i]).channel(c) == msgs.take(
                if i < stores[0].capacity() {
                    i
                } else {
                    stores[0].capacity() as int
                },
            ),
    decreases msgs.len(),
{
    if msgs.len() > 0 {
        let n = msgs.len() - 1;
        lemma_channel_fills(stores.drop_last(), msgs.drop_last(), results.drop_last(), c);
        let cap = stores[0].capacity() as int;
        assert(stores.drop_last()[0] == stores[0]);
        assert forall|i: int| 0 <= i <= msgs.len() implies (#[trigger] stores[i]).capacity() == cap by {
            if i <= n {
                assert(stores.drop_last()[i] == stores[i]);
            } else {
                assert(stores.drop_last()[n] == stores[n]);
                assert(inserted(stores[n], msgs[n], stores[n + 1], results[n]));
            }
        }
        assert forall|i: int| 0 <= i < msgs.len() implies ((#[trigger] results[i]) is Ok <==> i < cap) by {
            if i < n {
                assert(results.drop_last()[i] == results[i]);
            } else {
                assert(stores.drop_last()[n] == stores[n]);
                assert(msgs[n].channel_idx == c);
                assert(inserted(stores[n], msgs[n], stores[n + 1], results[n]));
            }
        }
        assert forall|i: int| 0 <= i <= msgs.len() implies (#[trigger] stores[i]).channel(c) == msgs.take(
            if i < cap {
                i
            } else {
                cap
            },
        ) by {
            let m = if i < cap {
                i
            } else {
                cap
            };
            if i <= n {
                assert(stores.drop_last()[i] == stores[i]);
                assert(msgs.drop_last().take(m) =~= msgs.take(m));
            } else {
                assert(stores.drop_last()[n] == stores[n]);
                let pm = if n < cap {
                    n
                } else {
                    cap
                };
                assert(msgs.drop_last().take(pm) =~= msgs.take(pm));
                assert(inserted(stores[n], msgs[n], stores[n + 1], results[n]));
                if n < cap {
                    assert(msgs.take(pm).push(msgs[n]) =~= msgs.take(m));
                }
            }
        }
    }
}

/// The system block holding no messages takes exactly `capacity` transport
/// messages, keeping them in order, and refuses each one after that as full.
pub proof fn lemma_general_fills(
    stores: Seq<MidiStore>,
    msgs: Seq<MidiMessage>,
    results: Seq<Result<(), MidiError>>,
)
    requires
        stores.len() == msgs.len() + 1,
        results.len() == msgs.len(),
        stores[0].general().len() == 0,
        forall|i: int|
            0 <= i < msgs.len() ==> is_system_kind((#[trigger] msgs[i]).data) && inserted(
                stores[i],
                msgs[i],
                stores[i + 1],
                results[i],
            ),
    ensures
        forall|i: int| 0 <= i <= msgs.len() ==> (#[trigger] stores[i]).capacity() == stores[0].capacity(),
        forall|i: int|
            0 <= i < msgs.len() ==> ((#[trigger] results[i]) is Ok <==> i < stores[0].capacity()),
        forall|i: int|
            0 <= i <= msgs.len() ==> (#[trigger] stores[i]).general() == msgs.take(
                if i < stores[0].capacity() {
                    i
                } else {
                    stores[0].capacity() as int
                },
            ),
    decreases msgs.len(),
{
    if msgs.len() > 0 {
        let n = msgs.len() - 1;
        lemma_general_fills(stores.drop_last(), msgs.drop_last(), results.drop_last());
        let cap = stores[0].capacity() as int;
        assert(stores.drop_last()[0] == stores[0]);
        assert forall|i: int| 0 <= i <= msgs.len() implies (#[trigger] stores[i]).capacity() == cap by {
            if i <= n {
                assert(stores.drop_last()[i] == stores[i]);
            } else {
                assert(stores.drop_last()[n] == stores[n]);
                assert(inserted(stores[n], msgs[n], stores[n + 1], results[n]));
            }
        }
        assert forall|i: int| 0 <= i < msgs.len() implies ((#[trigger] results[i]) is Ok <==> i < cap) by {
            if i < n {
                assert(results.drop_last()[i] == results[i]);
            } else {
                assert(stores.drop_last()[n] == stores[n]);
                assert(inserted(stores[n], msgs[n], stores[n + 1], results[n]));
            }
        }
        assert forall|i: int| 0 <= i <= msgs.len() implies (#[trigger] stores[i]).general() == msgs.take(
            if i < cap {
                i
            } else {
                cap
            },
        ) by {
            let m = if i < cap {
                i
            } else {
                cap
            };
            if i <= n {
                assert(stores.drop_last()[i] == stores[i]);
                assert(msgs.drop_last().take(m) =~= msgs.take(m));
            } else {
                assert(stores.drop_last()[n] == stores[n]);
                let pm = if n < cap {
                    n
                } else {
                    cap
                };
                assert(msgs.drop_last().take(pm) =~= msgs.take(pm));
                assert(inserted(stores[n], msgs[n], stores[n + 1], results[n]));
                if n < cap {
                    assert(msgs.take(pm).push(msgs[n]) =~= msgs.take(m));
                }
            }
        }
    }
}

impl MidiStore {
    /// The layout invariant every store keeps.
    pub closed spec fn wf(&self) -> bool {
        &&& self.channel_messages@.len() == self.capacity * MIDI_CHANS
        &&& self.general_messages@.len() == self.capacity
        &&& self.general_messages_count <= self.capacity
        &&& forall|c: int| 0 <= c < 16 ==> #[trigger] self.channel_messages_count[c] <= self.capacity
    }

    /// How many messages each channel, and the system block, can hold.
    pub closed spec fn capacity(&self) -> nat {
        self.capacity as nat
    }

    /// The live messages of channel `c`, oldest first.
    pub closed spec fn channel(&self, c: int) -> Seq<MidiMessage> {
        let start = c * self.capacity;
        self.channel_messages@.subrange(start, start + self.channel_messages_count[c])
    }

    /// The live system messages, oldest first.
    pub closed spec fn general(&self) -> Seq<MidiMessage> {
        self.general_messages@.take(self.general_messages_count as int)
    }

    /// Every slot of the system block, live or not.
    pub closed spec fn general_slots(&self) -> Seq<MidiMessage> {
        self.general_messages@
    }

    /// Facts every store keeps.
    pub proof fn lemma_bounds(&self)
        requires
            self.wf(),
        ensures
            self.general_slots().len() == self.capacity(),
            self.general().len() <= self.capacity(),
            self.general() == self.general_slots().take(self.general().len() as int),
            forall|c: int| 0 <= c < 16 ==> #[trigger] self.channel(c).len() <= self.capacity(),
    {
        assert forall|c: int| 0 <= c < 16 implies #[trigger] self.channel(c).len()
            <= self.capacity() by {
            lemma_channel_block(c, self.capacity as int, self.channel_messages_count[c] as int);
        }
    }

    pub fn new(capacity: usize) -> (s: Self)
        requires
            capacity * MIDI_CHANS <= usize::MAX,
        ensures
            s.wf(),
            s.capacity() == capacity,
            forall|c: int| 0 <= c < 16 ==> #[trigger] s.channel(c).len() == 0,
            s.general().len() == 0,
            s.general_slots().len() == capacity,
            forall|i: int|
                0 <= i < capacity ==> (#[trigger] s.general_slots()[i]).data is Dummy
                    && s.general_slots()[i].channel_idx == 0,
    {
        let dummy = get_dummy_midi();
        let s = MidiStore {
            channel_messages: filled(dummy, capacity * MIDI_CHANS),
            channel_messages_count: [0; 16],
            general_messages: filled(dummy, capacity),
            general_messages_count: 0,
            capacity,
        };
        proof {
            assert forall|c: int| 0 <= c < 16 implies #[trigger] s.channel(c).len() == 0 by {
                lemma_channel_block(c, capacity as int, 0);
            }
        }
        s
    }

    /// Clear the messages. We still have the same underlying allocation.
    pub fn clear(&mut self)
        requires
            old(self).wf(),
        ensures
            cleared(*old(self), *final(self)),
    {
        self.channel_messages_count = [0; 16];
        self.general_messages_count = 0;
        proof {
            assert forall|c: int| 0 <= c < 16 implies #[trigger] self.channel(c).len() == 0 by {
                lemma_channel_block(c, self.capacity as int, 0);
            }
        }
    }

    /// Store a message: channel messages go to their channel's block, the
    /// transport messages to the system block.
    pub fn insert(&mut self, msg: MidiMessage) -> (r: Result<(), MidiError>)
        requires
            old(self).wf(),
            !(msg.data is Dummy),
        ensures
            inserted(*old(self), msg, *final(self), r),
    {
        let chan = msg.channel_idx as usize;
        match msg.data {
            MidiMessageKind::NoteOn { .. }
            | MidiMessageKind::NoteOff { .. }
            | MidiMessageKind::Control { .. }
            | MidiMessageKind::PolyphonicAftertouch { .. }
            | MidiMessageKind::ChannelAftertouch { .. }
            | MidiMessageKind::PitchWheel { .. } => {
                if chan >= MIDI_CHANS {
                    return Err(MidiError::InvalidPort);
                }
                let count = self.channel_messages_count[chan];
                let _total = self.channel_messages.len();
                proof {
                    lemma_channel_block(chan as int, self.capacity as int, count as int);
                }
                if count >= self.capacity {
                    return Err(MidiError::RingbufferFull);
                }
                proof {
                    assert forall|d: int| 0 <= d < 16 && d != chan implies 
                        #[trigger] self.channel_messages_count[d] <= self.capacity by {}
                }
                let index = chan * self.capacity + count;
                let ghost old_self = *self;
                self.channel_messages.set(index, msg);
                self.channel_messages_count[chan] = count + 1;
                proof {
                    let cap = self.capacity as int;
                    assert(self.channel(chan as int) =~= old_self.channel(chan as int).push(msg));
                    assert forall|d: int| 0 <= d < 16 && d != chan implies #[trigger] self.channel(d)
                        == old_self.channel(d) by {
                        lemma_channel_block(d, cap, self.channel_messages_count[d] as int);
                        lemma_disjoint_blocks(d, chan as int, cap, self.channel_messages_count[d] as int, count as int);
                        assert(self.channel(d) =~= old_self.channel(d));
                    }
                }
                Ok(())
            },
            MidiMessageKind::Start
            | MidiMessageKind::Continue
            | MidiMessageKind::Clock
            | MidiMessageKind::Stop
            | MidiMessageKind::SongPositionPointer { .. } => {
                let count = self.general_messages_count;
                if count >= self.capacity {
                    return Err(MidiError::RingbufferFull);
                }
                let ghost old_self = *self;
                self.general_messages.set(count, msg);
                self.general_messages_count = count + 1;
                proof {
                    assert(self.general() =~= old_self.general().push(msg));
                    assert forall|d: int| 0 <= d < 16 implies #[trigger] self.channel(d)
                        == old_self.channel(d) by {
                        assert(self.channel(d) =~= old_self.channel(d));
                    }
                }
                Ok(())
            },
            MidiMessageKind::Dummy => Ok(()),
        }
    }

    /// The live messages of one channel.
    pub fn get_channel(&self, chan: usize) -> (r: &[MidiMessage])
        requires
            self.wf(),
            chan < MIDI_CHANS,
        ensures
            r@ == self.channel(chan as int),
    {
        let count = self.channel_messages_count[chan];
        let _total = self.channel_messages.len();
        proof {
            lemma_channel_block(chan as int, self.capacity as int, count as int);
        }
        let start = chan * self.capacity;
        vstd::slice::slice_subrange(self.channel_messages.as_slice(), start, start + count)
    }

    /// Every slot of the system block.
    pub fn get_general(&self) -> (r: &[MidiMessage])
        ensures
            r@ == self.general_slots(),
    {
        self.general_messages.as_slice()
    }
}

proof fn lemma_disjoint_blocks(d: int, c: int, cap: int, count_d: int, count_c: int)
    requires
        0 <= d < 16,
        0 <= c < 16,
        d != c,
        0 <= cap,
        0 <= count_d <= cap,
        0 <= count_c < cap,
    ensures
        c * cap + count_c < d * cap || d * cap + count_d <= c * cap,
{
    if d < c {
        assert(d * cap + cap <= c * cap) by (nonlinear_arith)
            requires d < c, 0 <= cap;
    } else {
        assert(c * cap + cap <= d * cap) by (nonlinear_arith)
            requires c < d, 0 <= cap;
    }
}

proof fn lemma_channel_block(c: int, cap: int, count: int)
    requires
        0 <= c < 16,
        0 <= cap,
        0 <= count <= cap,
    ensures
        0 <= c * cap,
        c * cap + count <= cap * 16,
        c * cap + cap <= cap * 16,
{
    assert(0 <= c * cap) by (nonlinear_arith)
        requires
            0 <= c,
            0 <= cap,
    ;
    assert(c * cap + cap <= cap * 16) by (nonlinear_arith)
        requires
            0 <= c < 16,
            0 <= cap,
    ;
}

} // verus!

verus! {

/// Name for what `Duration::from_micros` returns: the duration of `micros`
/// microseconds.
pub uninterp spec fn micros_duration(micros: u64) -> Duration;

/// Name for what `Instant::checked_add` returns: the instant `d` after `i`,
/// or `None` when the platform clock cannot represent it.
pub uninterp spec fn instant_checked_after(i: Instant, d: Duration) -> Option<Instant>;

/// Name for what `Instant::checked_sub` returns: the instant `d` before `i`,
/// or `None` when the platform clock cannot represent it.
pub uninterp spec fn instant_checked_before(i: Instant, d: Duration) -> Option<Instant>;

/// `std::time::Duration::from_micros`; its result is named `micros_duration`.
#[verifier::external_body]
fn duration_from_micros(micros: u64) -> (r: Duration)
    ensures
        r == micros_duration(micros),
{
    Duration::from_micros(micros)
}

/// `Instant::checked_add`; its result is named `instant_checked_after`.
#[verifier::external_body]
fn instant_checked_add(instant: Instant, d: Duration) -> (r: Option<Instant>)
    ensures
        r == instant_checked_after(instant, d),
{
    instant.checked_add(d)
}

/// `Instant::checked_sub`; its result is named `instant_checked_before`.
#[verifier::external_body]
fn instant_checked_sub(instant: Instant, d: Duration) -> (r: Option<Instant>)
    ensures
        r == instant_checked_before(instant, d),
{
    instant.checked_sub(d)
}

/// A small struct to store the system -> audio offset from midi: the instant
/// at which a reference midi timestamp (in microseconds) was seen.
pub struct MidiOffsetStore {
    sync_point: (Instant, u64),
}

/// Which way, and how far, a midi timestamp lies from the anchor timestamp.
pub open spec fn spec_offset(anchor_micros: u64, midi_micros: u64) -> (bool, u64) {
    if midi_micros >= anchor_micros {
        (true, (midi_micros - anchor_micros) as u64)
    } else {
        (false, (anchor_micros - midi_micros) as u64)
    }
}

/// Where a midi timestamp lands: the anchor moved forward or back by the
/// timestamp's distance from the anchor timestamp; `None` when moving
/// forward leaves the clock's range, the anchor itself when moving back does.
pub open spec fn spec_to_instant(anchor: Instant, anchor_micros: u64, midi_micros: u64) -> Option<Instant> {
    let (forward, distance) = spec_offset(anchor_micros, midi_micros);
    if forward {
        instant_checked_after(anchor, micros_duration(distance))
    } else {
        match instant_checked_before(anchor, micros_duration(distance)) {
            Some(t) => Some(t),
            None => Some(anchor),
        }
    }
}

impl MidiOffsetStore {
    /// The midi timestamp the store is anchored to.
    pub closed spec fn anchor_micros(&self) -> u64 {
        self.sync_point.1
    }

    /// The system instant the store is anchored to.
    pub closed spec fn anchor_instant(&self) -> Instant {
        self.sync_point.0
    }

    /// Note: The time in which this is constructed matters.
    pub fn new(first_midi_micros: u64) -> (s: Self)
        ensures
            s.anchor_micros() == first_midi_micros,
    {
        Self { sync_point: (instant_now(), first_midi_micros) }
    }

    /// Re-anchor at the current instant.
    pub fn update(&mut self, midi_micros: u64)
        ensures
            final(self).anchor_micros() == midi_micros,
    {
        self.sync_point.0 = instant_now();
        self.sync_point.1 = midi_micros;
    }

    /// The instant a midi timestamp maps to, or `None` when moving forward
    /// from the anchor leaves what the platform clock can represent. Moving
    /// back further than the clock can represent gives the anchor.
    pub fn checked_to_instant(&self, midi_micros: u64) -> (r: Option<Instant>)
        ensures
            r == spec_to_instant(self.anchor_instant(), self.anchor_micros(), midi_micros),
    {
        let (anchor_inst, anchor_micros) = self.sync_point;
        let (forward, distance) = offset(anchor_micros, midi_micros);
        if forward {
            instant_checked_add(anchor_inst, duration_from_micros(distance))
        } else {
            match instant_checked_sub(anchor_inst, duration_from_micros(distance)) {
                Some(i) => Some(i),
                None => Some(anchor_inst),
            }
        }
    }

    /// Get the instant value from the midi message: the anchor instant moved
    /// by the distance between the message's timestamp and the anchor's.
    /// Moving back further than the clock can represent gives the anchor.
    pub fn to_instant(&self, midi_micros: u64) -> (r: Instant)
        requires
            spec_to_instant(self.anchor_instant(), self.anchor_micros(), midi_micros) is Some,
        ensures
            Some(r) == spec_to_instant(self.anchor_instant(), self.anchor_micros(), midi_micros),
    {
        match self.checked_to_instant(midi_micros) {
            Some(i) => i,
            None => self.sync_point.0,
        }
    }
}

fn offset(anchor_micros: u64, midi_micros: u64) -> (r: (bool, u64))
    ensures
        r == spec_offset(anchor_micros, midi_micros),
{
    if midi_micros >= anchor_micros {
        (true, midi_micros - anchor_micros)
    } else {
        (false, anchor_micros - midi_micros)
    }
}

/// Which system midi port to open.
#[derive(Default, Clone, PartialEq)]
pub enum MidiPortKind {
    #[default]
    Default,
    Index(usize),
    Named(&'static str),
}

impl MidiPortKind {
    /// Pick a port index out of the names of the available ports: the first
    /// port, a given index, or the first port carrying the given name.
    pub fn select_port(&self, port_names: &[String]) -> (r: Result<usize, MidiError>)
        ensures
            match *self {
                MidiPortKind::Default => r == Ok::<usize, MidiError>(0),
                MidiPortKind::Index(i) => r == Ok::<usize, MidiError>(i),
                MidiPortKind::Named(name) => match r {
                    Ok(k) => k < port_names@.len() && port_names@[k as int]@ == name@ && forall|
                        j: int,
                    | 0 <= j < k ==> (#[trigger] port_names@[j])@ != name@,
                    Err(e) => e == MidiError::InvalidPort && forall|j: int|
                        0 <= j < port_names@.len() ==> (#[trigger] port_names@[j])@ != name@,
                },
            },
    {
        match self {
            MidiPortKind::Default => Ok(0),
            MidiPortKind::Index(i) => Ok(*i),
            MidiPortKind::Named(name) => {
                let mut k: usize = 0;
                while k < port_names.len()
                    invariant
                        *self == MidiPortKind::Named(*name),
                        k <= port_names@.len(),
                        forall|j: int| 0 <= j < k ==> (#[trigger] port_names@[j])@ != name@,
                    decreases port_names@.len() - k,
                {
                    if str_eq(port_names[k].as_str(), name) {
                        return Ok(k);
                    }
                    k = k + 1;
                }
                Err(MidiError::InvalidPort)
            },
        }
    }
}

} // verus!
