use vstd::prelude::*;
use vstd::slice::{slice_subrange, slice_to_vec};

use crate::preset::{Preset, PRESET_LEN};
use crate::preset::lemma_bytes_injective;
use crate::transcode::{
    canonical, lemma_canonical_round_trip, lemma_round_trip, lemma_short_tail, pack, pack_payload,
    unpack, unpack_payload,
};

verus! {

/// First byte of every System Exclusive message.
pub const SYSEX_START: u8 = 0xf0;

/// Last byte of every System Exclusive message.
pub const SYSEX_END: u8 = 0xf7;

/// Command byte sent with a full bank dump.
pub const DUMP_COMMAND: u8 = 0x0f;

/// Bytes before the wire payload: start, manufacturer id, channel, device id,
/// command.
pub const HEADER_LEN: usize = 7;

/// Presets in a bank.
pub const PRESET_COUNT: usize = 100;

/// Per-output channel assignments in a bank.
pub const CHANNEL_COUNT: usize = 10;

/// Offset of the channel assignments in the 8-bit payload.
pub const CHANNELS_OFFSET: usize = 0x7e0;

/// Smallest 8-bit payload that holds every field of a bank.
pub const PAYLOAD_LEN: usize = 0x7ea;

/// Why a received message was refused.
#[derive(Debug, Clone, Copy, PartialEq, Eq, Structural)]
pub enum MidiError {
    InvalidSysExStart,
    InvalidSysExEnd,
    InvalidDataLength,
}

/// A bank dump: framing fields, the presets, the channel assignments, and the
/// message it was decoded from, if any.
#[derive(Debug, Clone, PartialEq)]
pub struct SysExMessage {
    pub manufacturer_id: [u8; 3],
    pub global_channel: u8,
    pub device_id: u8,
    pub presets: [Preset; 100],
    pub global_channels: [u8; 10],
    pub original_data: Option<Vec<u8>>,
}

/// The wire payload of a received message: what lies between the command
/// byte and the end byte.
pub open spec fn wire_payload(d: Seq<u8>) -> Seq<u8> {
    if d.len() >= HEADER_LEN + 1 {
        d.subrange(HEADER_LEN as int, d.len() - 1)
    } else {
        Seq::empty()
    }
}

/// The 8-bit payload of a received message.
pub open spec fn received_payload(d: Seq<u8>) -> Seq<u8> {
    unpack(wire_payload(d))
}

/// The 8-bit payload that encoding starts from: that of the message the bank
/// was decoded from, where it has the fixed size, else zeros.
pub open spec fn base_payload(original: Option<Vec<u8>>) -> Seq<u8> {
    match original {
        Some(d) => if received_payload(d@).len() == PAYLOAD_LEN {
            received_payload(d@)
        } else {
            Seq::new(PAYLOAD_LEN as nat, |i: int| 0u8)
        },
        None => Seq::new(PAYLOAD_LEN as nat, |i: int| 0u8),
    }
}

/// The error that decoding `d` ends in, if any, checked in order.
pub open spec fn decode_error(d: Seq<u8>) -> Option<MidiError> {
    if d.len() < 6 {
        Some(MidiError::InvalidDataLength)
    } else if d[0] != SYSEX_START {
        Some(MidiError::InvalidSysExStart)
    } else if d.last() != SYSEX_END {
        Some(MidiError::InvalidSysExEnd)
    } else if received_payload(d).len() < PAYLOAD_LEN {
        Some(MidiError::InvalidDataLength)
    } else {
        None
    }
}

/// The sixteen payload bytes of slot `s`.
pub open spec fn slot_bytes(p: Seq<u8>, s: int) -> Seq<u8> {
    p.subrange(16 * s, 16 * s + 16)
}

/// The channel assignments in a payload.
pub open spec fn channel_bytes(p: Seq<u8>) -> Seq<u8> {
    p.subrange(CHANNELS_OFFSET as int, PAYLOAD_LEN as int)
}

impl SysExMessage {
    /// The bank's fields as they stand in a payload laid over `base`.
    pub open spec fn lay_over(self, base: Seq<u8>) -> Seq<u8> {
        Seq::new(
            base.len(),
            |i: int|
                if i < PRESET_COUNT * PRESET_LEN {
                    self.presets@[i / 16].bytes()[i % 16]
                } else if CHANNELS_OFFSET <= i < PAYLOAD_LEN {
                    self.global_channels@[i - CHANNELS_OFFSET]
                } else {
                    base[i]
                },
        )
    }

    /// The 8-bit payload that this bank encodes to.
    pub open spec fn payload(self) -> Seq<u8> {
        self.lay_over(base_payload(self.original_data))
    }

    /// The framing bytes before the payload.
    pub open spec fn header(self) -> Seq<u8> {
        seq![
            SYSEX_START,
            self.manufacturer_id[0],
            self.manufacturer_id[1],
            self.manufacturer_id[2],
            self.global_channel,
            self.device_id,
            DUMP_COMMAND,
        ]
    }

    /// The message that this bank encodes to.
    pub open spec fn wire(self) -> Seq<u8> {
        self.header() + pack(self.payload()) + seq![SYSEX_END]
    }

    /// `self` holds what the accepted message `d` carries.
    pub open spec fn decoded_from(self, d: Seq<u8>) -> bool {
        let p = received_payload(d);
        &&& self.manufacturer_id@ == d.subrange(1, 4)
        &&& self.global_channel == d[4]
        &&& self.device_id == d[5]
        &&& forall|s: int|
            0 <= s < PRESET_COUNT ==> #[trigger] self.presets@[s].bytes() == slot_bytes(p, s)
        &&& self.global_channels@ == channel_bytes(p)
        &&& self.original_data matches Some(o) && o@ == d
    }
}

/// Zeros, `n` of them.
fn zeros(n: usize) -> (r: Vec<u8>)
    ensures
        r@ == Seq::new(n as nat, |i: int| 0u8),
{
    let mut r: Vec<u8> = Vec::new();
    let mut i: usize = 0;
    while i < n
        invariant
            i <= n,
            r@ == Seq::new(i as nat, |k: int| 0u8),
        decreases n - i,
    {
        r.push(0);
        i = i + 1;
        assert(r@ =~= Seq::new(i as nat, |k: int| 0u8));
    }
    r
}

/// The 8-bit payload of a received message.
fn payload_of(data: &[u8]) -> (r: Vec<u8>)
    ensures
        r@ == received_payload(data@),
{
    if data.len() >= HEADER_LEN + 1 {
        unpack_payload(slice_subrange(data, HEADER_LEN, data.len() - 1))
    } else {
        assert(wire_payload(data@) =~= Seq::<u8>::empty());
        unpack_payload(slice_subrange(data, 0, 0))
    }
}

/// The payload that encoding starts from.
fn base_of(original: &Option<Vec<u8>>) -> (r: Vec<u8>)
    ensures
        r@ == base_payload(*original),
{
    if let Some(d) = original {
        let p = payload_of(d.as_slice());
        if p.len() == PAYLOAD_LEN {
            return p;
        }
    }
    zeros(PAYLOAD_LEN)
}

impl SysExMessage {
    /// The message that carries this bank: header, the 7-bit wire form of the
    /// payload, end byte.
    pub fn encode(&self) -> (r: Vec<u8>)
        ensures
            r@ == self.wire(),
    {
        let mut encoded: Vec<u8> = Vec::new();
        encoded.push(SYSEX_START);
        encoded.push(self.manufacturer_id[0]);
        encoded.push(self.manufacturer_id[1]);
        encoded.push(self.manufacturer_id[2]);
        encoded.push(self.global_channel);
        encoded.push(self.device_id);
        encoded.push(DUMP_COMMAND);
        assert(encoded@ =~= self.header());

        let mut payload = base_of(&self.original_data);
        let ghost base = payload@;
        let mut slot: usize = 0;
        while slot < PRESET_COUNT
            invariant
                slot <= PRESET_COUNT,
                base.len() >= PAYLOAD_LEN,
                payload@.len() == base.len(),
                forall|i: int|
                    0 <= i < 16 * slot ==> #[trigger] payload@[i] == self.presets@[i / 16].bytes()[i
                        % 16],
                forall|i: int| 16 * slot <= i < base.len() ==> #[trigger] payload@[i] == base[i],
            decreases PRESET_COUNT - slot,
        {
            let bytes = self.presets[slot].to_bytes();
            let mut j: usize = 0;
            while j < PRESET_LEN
                invariant
                    slot < PRESET_COUNT,
                    j <= PRESET_LEN,
                    bytes@ == self.presets@[slot as int].bytes(),
                    base.len() >= PAYLOAD_LEN,
                    payload@.len() == base.len(),
                    forall|i: int|
                        0 <= i < 16 * slot + j ==> #[trigger] payload@[i] == self.presets@[i
                            / 16].bytes()[i % 16],
                    forall|i: int| 16 * slot + j <= i < base.len() ==> #[trigger] payload@[i] == base[i],
                decreases PRESET_LEN - j,
            {
                let at: usize = slot * 16 + j;
                payload.set(at, bytes[j]);
                assert((at as int) / 16 == slot as int && (at as int) % 16 == j as int) by (nonlinear_arith)
                    requires
                        at == slot * 16 + j,
                        j < 16,
                ;
                j = j + 1;
            }
            slot = slot + 1;
        }

        let mut c: usize = 0;
        while c < CHANNEL_COUNT
            invariant
                c <= CHANNEL_COUNT,
                base.len() >= PAYLOAD_LEN,
                payload@.len() == base.len(),
                forall|i: int|
                    0 <= i < 16 * PRESET_COUNT ==> #[trigger] payload@[i] == self.presets@[i
                        / 16].bytes()[i % 16],
                forall|i: int|
                    CHANNELS_OFFSET <= i < CHANNELS_OFFSET + c ==> #[trigger] payload@[i]
                        == self.global_channels@[i - CHANNELS_OFFSET],
                forall|i: int|
                    16 * PRESET_COUNT <= i < base.len() && !(CHANNELS_OFFSET <= i
                        < CHANNELS_OFFSET + c) ==> #[trigger] payload@[i] == base[i],
            decreases CHANNEL_COUNT - c,
        {
            payload.set(CHANNELS_OFFSET + c, self.global_channels[c]);
            c = c + 1;
        }
        assert(payload@ =~= self.lay_over(base));

        let packed = pack_payload(payload.as_slice());
        encoded.extend_from_slice(packed.as_slice());
        encoded.push(SYSEX_END);
        assert(encoded@ =~= self.wire());
        encoded
    }
}

impl SysExMessage {
    /// Reads a bank from a received message. It is refused, in this order,
    /// when shorter than six bytes, when it does not start with the start
    /// byte, when it does not end with the end byte, and when its payload is
    /// too short to hold every field of a bank.
    pub fn decode(data: &[u8]) -> (r: Result<Self, MidiError>)
        ensures
            match r {
                Ok(m) => decode_error(data@) is None && m.decoded_from(data@),
                Err(e) => decode_error(data@) == Some(e),
            },
    {
        if data.len() < 6 {
            return Err(MidiError::InvalidDataLength);
        }
        if data[0] != SYSEX_START {
            return Err(MidiError::InvalidSysExStart);
        }
        if data[data.len() - 1] != SYSEX_END {
            return Err(MidiError::InvalidSysExEnd);
        }
        let manufacturer_id: [u8; 3] = [data[1], data[2], data[3]];
        let global_channel = data[4];
        let device_id = data[5];

        let fixed = payload_of(data);
        if fixed.len() < PAYLOAD_LEN {
            return Err(MidiError::InvalidDataLength);
        }

        let mut presets: [Preset; 100] = [Preset::new(); 100];
        let mut slot: usize = 0;
        while slot < PRESET_COUNT
            invariant
                slot <= PRESET_COUNT,
                fixed@ == received_payload(data@),
                fixed@.len() >= PAYLOAD_LEN,
                forall|s: int|
                    0 <= s < slot ==> #[trigger] presets@[s].bytes() == slot_bytes(fixed@, s),
            decreases PRESET_COUNT - slot,
        {
            let chunk = slice_subrange(fixed.as_slice(), slot * PRESET_LEN, slot * PRESET_LEN + PRESET_LEN);
            presets[slot] = Preset::from_bytes(chunk);
            assert(chunk@.subrange(0, 16) =~= slot_bytes(fixed@, slot as int));
            slot = slot + 1;
        }

        let mut global_channels: [u8; 10] = [0; 10];
        let mut c: usize = 0;
        while c < CHANNEL_COUNT
            invariant
                c <= CHANNEL_COUNT,
                fixed@.len() >= PAYLOAD_LEN,
                forall|i: int| 0 <= i < c ==> #[trigger] global_channels@[i] == fixed@[CHANNELS_OFFSET + i],
            decreases CHANNEL_COUNT - c,
        {
            global_channels[c] = fixed[CHANNELS_OFFSET + c];
            c = c + 1;
        }
        assert(global_channels@ =~= channel_bytes(fixed@));
        assert(manufacturer_id@ =~= data@.subrange(1, 4));

        Ok(SysExMessage {
            manufacturer_id,
            global_channel,
            device_id,
            presets,
            global_channels,
            original_data: Some(slice_to_vec(data)),
        })
    }
}

impl Default for SysExMessage {
    /// A bank with the device's usual framing fields, every preset zero and
    /// every channel assignment zero, decoded from nothing.
    fn default() -> (r: Self)
        ensures
            r.manufacturer_id@ == seq![0x00u8, 0x20u8, 0x32u8],
            r.global_channel == 0,
            r.device_id == 0x0c,
            forall|s: int| 0 <= s < PRESET_COUNT ==> #[trigger] r.presets@[s].bytes() == Seq::new(16, |i: int| 0u8),
            r.global_channels@ == Seq::new(10, |i: int| 0u8),
            r.original_data is None,
    {
        let r = SysExMessage {
            manufacturer_id: [0x00, 0x20, 0x32],
            global_channel: 0x00,
            device_id: 0x0c,
            presets: [Preset::new(); 100],
            global_channels: [0; 10],
            original_data: None,
        };
        assert(r.manufacturer_id@ =~= seq![0x00u8, 0x20u8, 0x32u8]);
        assert(r.global_channels@ =~= Seq::new(10, |i: int| 0u8));
        r
    }
}

proof fn lemma_base_len(original: Option<Vec<u8>>)
    ensures
        base_payload(original).len() >= PAYLOAD_LEN,
{
}

proof fn lemma_wire_payload(m: SysExMessage)
    ensures
        m.wire().len() >= HEADER_LEN + 1,
        wire_payload(m.wire()) == pack(m.payload()),
        m.wire()[0] == SYSEX_START,
        m.wire().last() == SYSEX_END,
        m.wire().subrange(0, HEADER_LEN as int) == m.header(),
{
    let w = m.wire();
    assert(w.subrange(HEADER_LEN as int, w.len() - 1) =~= pack(m.payload()));
    assert(w.subrange(0, HEADER_LEN as int) =~= m.header());
}

/// Decoding the message that a bank encodes to is accepted and gives back
/// the bank's presets, channel assignments and framing fields.
pub proof fn lemma_decode_encode(m: SysExMessage, back: SysExMessage)
    requires
        back.decoded_from(m.wire()),
    ensures
        decode_error(m.wire()) is None,
        back.presets@ == m.presets@,
        back.global_channels@ == m.global_channels@,
        back.manufacturer_id@ == m.manufacturer_id@,
        back.global_channel == m.global_channel,
        back.device_id == m.device_id,
{
    let w = m.wire();
    let p = m.payload();
    lemma_wire_payload(m);
    lemma_round_trip(p);
    lemma_base_len(m.original_data);
    assert(received_payload(w) == p);
    assert forall|s: int| 0 <= s < PRESET_COUNT implies back.presets@[s] == m.presets@[s] by {
        assert forall|k: int| 0 <= k < 16 implies #[trigger] slot_bytes(p, s)[k]
            == m.presets@[s].bytes()[k] by {
            assert((16 * s + k) / 16 == s && (16 * s + k) % 16 == k) by (nonlinear_arith)
                requires
                    0 <= k < 16,
            ;
        }
        assert(slot_bytes(p, s) =~= m.presets@[s].bytes());
        assert(back.presets@[s].bytes() == slot_bytes(p, s));
        lemma_bytes_injective(back.presets@[s], m.presets@[s]);
    }
    assert(back.presets@ =~= m.presets@);
    assert(channel_bytes(p) =~= m.global_channels@);
    assert(back.manufacturer_id@ =~= m.manufacturer_id@);
}

/// A message is refused for its length when shorter than six bytes; else
/// for its start byte when that is wrong; else for its end byte when that is
/// wrong.
pub proof fn lemma_framing(d: Seq<u8>)
    ensures
        d.len() < 6 ==> decode_error(d) == Some(MidiError::InvalidDataLength),
        d.len() >= 6 && d[0] != SYSEX_START ==> decode_error(d) == Some(
            MidiError::InvalidSysExStart,
        ),
        d.len() >= 6 && d[0] == SYSEX_START && d.last() != SYSEX_END ==> decode_error(d) == Some(
            MidiError::InvalidSysExEnd,
        ),
{
}

/// Re-encoding a bank decoded from a captured dump gives the capture back,
/// byte for byte, where the capture carries the dump command and a payload of
/// the fixed size in the packed form that a device sends.
pub proof fn lemma_encode_decoded(c: Seq<u8>, m: SysExMessage)
    requires
        decode_error(c) is None,
        m.decoded_from(c),
        c[6] == DUMP_COMMAND,
        received_payload(c).len() == PAYLOAD_LEN,
        canonical(wire_payload(c)),
    ensures
        m.wire() == c,
{
    let p = received_payload(c);
    lemma_canonical_round_trip(wire_payload(c));
    assert(wire_payload(c).len() > 0);
    assert(base_payload(m.original_data) == p);
    assert forall|i: int| 0 <= i < p.len() implies #[trigger] m.payload()[i] == p[i] by {
        if i < PRESET_COUNT * PRESET_LEN {
            let s = i / 16;
            let k = i % 16;
            assert(0 <= s < PRESET_COUNT && 0 <= k < 16 && i == 16 * s + k) by (nonlinear_arith)
                requires
                    0 <= i < 1600,
                    s == i / 16,
                    k == i % 16,
            ;
            assert(m.presets@[s].bytes() == slot_bytes(p, s));
            assert(slot_bytes(p, s)[k] == p[i]);
        } else if CHANNELS_OFFSET <= i < PAYLOAD_LEN {
            assert(channel_bytes(p)[i - CHANNELS_OFFSET] == p[i]);
        }
    }
    assert(m.payload() =~= p);
    assert(m.header() =~= c.subrange(0, HEADER_LEN as int));
    assert(c =~= c.subrange(0, HEADER_LEN as int) + wire_payload(c) + seq![SYSEX_END]);
}

/// Every bank encodes to a message of the same length: seven header bytes,
/// the fixed payload in full groups and one short group, and the end byte.
pub proof fn lemma_wire_len(m: SysExMessage)
    ensures
        base_payload(m.original_data).len() == PAYLOAD_LEN,
        m.wire().len() == 2324,
{
    lemma_short_tail(m.payload());
}

} // verus!
