use sysex_bank::sysex::{MidiError, SysExMessage, DUMP_COMMAND, PAYLOAD_LEN};
use sysex_bank::transcode::{pack_payload, unpack_payload};
use sysex_bank::Preset;

fn sample_preset() -> Preset {
    let mut p = Preset::new();
    p.program_changes = [1, 2, 3, 4, 5];
    p.control_changes = [(10, 20), (30, 40)];
    p.expression_pedal_a = (1, 2, 3);
    p.expression_pedal_b = (4, 5, 6);
    p.note = 7;
    p
}

fn sample_bank() -> SysExMessage {
    let mut m = SysExMessage::default();
    m.manufacturer_id = [0x00, 0x21, 0x33];
    m.global_channel = 3;
    m.device_id = 0x11;
    for (i, preset) in m.presets.iter_mut().enumerate() {
        let v = i as u8;
        preset.program_changes = [v, v.wrapping_add(1), 127 - v, 0, 0x7f];
        preset.control_changes = [(v % 7, 64), (0x7f, v)];
        preset.expression_pedal_a = (0, 127, v);
        preset.expression_pedal_b = (v, 1, 2);
        preset.note = 127 - v;
    }
    for (i, c) in m.global_channels.iter_mut().enumerate() {
        *c = 15 - i as u8;
    }
    m
}

/// A device dump whose 8-bit payload is `payload`.
fn capture(payload: &[u8]) -> Vec<u8> {
    let mut c = vec![0xf0, 0x00, 0x20, 0x32, 0x05, 0x0c, DUMP_COMMAND];
    c.extend_from_slice(&pack_payload(payload));
    c.push(0xf7);
    c
}

#[test]
fn preset_new_is_zero() {
    assert_eq!(Preset::new().to_bytes(), [0u8; 16]);
}

#[test]
fn preset_byte_layout() {
    let p = sample_preset();
    let bytes = p.to_bytes();
    assert_eq!(bytes, [1, 2, 3, 4, 5, 10, 20, 30, 40, 1, 2, 3, 4, 5, 6, 7]);
    assert_eq!(Preset::from_bytes(&bytes), p);
}

#[test]
fn preset_from_longer_slice_reads_first_sixteen() {
    let bytes: Vec<u8> = (0u8..20).collect();
    let p = Preset::from_bytes(&bytes);
    assert_eq!(p.program_changes, [0, 1, 2, 3, 4]);
    assert_eq!(p.control_changes, [(5, 6), (7, 8)]);
    assert_eq!(p.expression_pedal_a, (9, 10, 11));
    assert_eq!(p.expression_pedal_b, (12, 13, 14));
    assert_eq!(p.note, 15);
}

#[test]
fn preset_keeps_out_of_range_bytes() {
    let bytes = [0xffu8; 16];
    assert_eq!(Preset::from_bytes(&bytes).to_bytes(), bytes);
}

#[test]
fn bit_packing_of_one_chunk() {
    let chunk = [0x80u8, 0x01, 0xff, 0x00, 0x7f, 0x81, 0x02];
    let wire = pack_payload(&chunk);
    assert_eq!(wire, vec![0x00, 0x01, 0x7f, 0x00, 0x7f, 0x01, 0x02, 0x25]);
    assert_eq!(unpack_payload(&wire), chunk.to_vec());
}

#[test]
fn short_trailing_group() {
    let payload = [0x10u8, 0x20, 0x30, 0x40, 0x50, 0x60, 0x70, 0x80, 0x05, 0x90];
    let wire = pack_payload(&payload);
    assert_eq!(
        wire,
        vec![0x10, 0x20, 0x30, 0x40, 0x50, 0x60, 0x70, 0x00, 0x00, 0x05, 0x10, 0x05]
    );
    assert_eq!(unpack_payload(&wire), payload.to_vec());
}

#[test]
fn empty_payload_packs_to_nothing() {
    assert!(pack_payload(&[]).is_empty());
    assert!(unpack_payload(&[]).is_empty());
}

#[test]
fn default_bank() {
    let m = SysExMessage::default();
    assert_eq!(m.manufacturer_id, [0x00, 0x20, 0x32]);
    assert_eq!(m.global_channel, 0);
    assert_eq!(m.device_id, 0x0c);
    assert!(m.presets.iter().all(|p| *p == Preset::new()));
    assert_eq!(m.global_channels, [0; 10]);
    assert!(m.original_data.is_none());
}

#[test]
fn encode_layout() {
    let m = sample_bank();
    let e = m.encode();
    // 0x7ea payload bytes: 289 full groups and a short group of 3 data bytes.
    assert_eq!(e.len(), 7 + 289 * 8 + 4 + 1);
    assert_eq!(&e[..7], &[0xf0, 0x00, 0x21, 0x33, 3, 0x11, DUMP_COMMAND]);
    assert_eq!(*e.last().unwrap(), 0xf7);
    assert!(e[1..e.len() - 1].iter().all(|b| *b < 0x80));
    let payload = unpack_payload(&e[7..e.len() - 1]);
    assert_eq!(payload.len(), PAYLOAD_LEN);
    assert_eq!(&payload[16..32], &m.presets[1].to_bytes());
    assert_eq!(&payload[0x7e0..0x7ea], &m.global_channels);
    assert!(payload[1600..0x7e0].iter().all(|b| *b == 0));
}

#[test]
fn round_trip() {
    let m = sample_bank();
    let back = SysExMessage::decode(&m.encode()).unwrap();
    assert_eq!(back.presets, m.presets);
    assert_eq!(back.global_channels, m.global_channels);
    assert_eq!(back.manufacturer_id, m.manufacturer_id);
    assert_eq!(back.global_channel, m.global_channel);
    assert_eq!(back.device_id, m.device_id);
    assert_eq!(back.original_data, Some(m.encode()));
}

#[test]
fn round_trip_of_eight_bit_values() {
    let mut m = sample_bank();
    m.presets[99].note = 0xff;
    m.presets[0].program_changes[0] = 0x80;
    m.global_channels[9] = 0xc3;
    let back = SysExMessage::decode(&m.encode()).unwrap();
    assert_eq!(back.presets, m.presets);
    assert_eq!(back.global_channels, m.global_channels);
}

#[test]
fn decode_rejects_short_buffer() {
    assert!(matches!(SysExMessage::decode(&[]), Err(MidiError::InvalidDataLength)));
    assert!(matches!(
        SysExMessage::decode(&[0x00, 0x01, 0x02, 0x03, 0x04]),
        Err(MidiError::InvalidDataLength)
    ));
}

#[test]
fn decode_rejects_bad_start() {
    let mut e = sample_bank().encode();
    e[0] = 0xf1;
    assert!(matches!(SysExMessage::decode(&e), Err(MidiError::InvalidSysExStart)));
    assert!(matches!(
        SysExMessage::decode(&[0x00, 0, 0, 0, 0, 0xf7]),
        Err(MidiError::InvalidSysExStart)
    ));
}

#[test]
fn decode_rejects_bad_end() {
    let mut e = sample_bank().encode();
    let last = e.len() - 1;
    e[last] = 0x00;
    assert!(matches!(SysExMessage::decode(&e), Err(MidiError::InvalidSysExEnd)));
}

#[test]
fn decode_rejects_payload_too_short() {
    assert!(matches!(
        SysExMessage::decode(&[0xf0, 0, 0x20, 0x32, 0, 0xf7]),
        Err(MidiError::InvalidDataLength)
    ));
    let c = capture(&[0u8; PAYLOAD_LEN - 1]);
    assert!(matches!(SysExMessage::decode(&c), Err(MidiError::InvalidDataLength)));
}

#[test]
fn decode_reads_fields() {
    let mut payload = vec![0u8; 290 * 7];
    payload[..16].copy_from_slice(&sample_preset().to_bytes());
    payload[0x7e0] = 9;
    payload[0x7e9] = 0x81;
    let c = capture(&payload);
    let m = SysExMessage::decode(&c).unwrap();
    assert_eq!(m.manufacturer_id, [0x00, 0x20, 0x32]);
    assert_eq!(m.global_channel, 5);
    assert_eq!(m.device_id, 0x0c);
    assert_eq!(m.presets[0], sample_preset());
    assert_eq!(m.presets[1], Preset::new());
    assert_eq!(m.global_channels, [9, 0, 0, 0, 0, 0, 0, 0, 0, 0x81]);
    assert_eq!(m.original_data, Some(c));
}

#[test]
fn encode_of_decoded_capture_is_identical() {
    let payload: Vec<u8> = (0..PAYLOAD_LEN).map(|i| (i * 37 % 256) as u8).collect();
    let c = capture(&payload);
    assert_eq!(c.len(), 2324);
    let m = SysExMessage::decode(&c).unwrap();
    assert_eq!(m.encode(), c);
}

#[test]
fn encode_keeps_bytes_outside_the_bank_fields() {
    let payload: Vec<u8> = (0..PAYLOAD_LEN).map(|i| (i % 251) as u8).collect();
    let mut m = SysExMessage::decode(&capture(&payload)).unwrap();
    m.presets[3].note = 99;
    m.global_channels[2] = 4;
    let e = m.encode();
    let out = unpack_payload(&e[7..e.len() - 1]);
    assert_eq!(out.len(), payload.len());
    assert_eq!(out[3 * 16 + 15], 99);
    assert_eq!(out[0x7e2], 4);
    assert_eq!(&out[1600..0x7e0], &payload[1600..0x7e0]);
}

#[test]
fn encode_ignores_original_of_other_payload_size() {
    let payload: Vec<u8> = (0..PAYLOAD_LEN + 1).map(|i| (i % 251) as u8).collect();
    let mut m = sample_bank();
    let decoded = SysExMessage::decode(&capture(&payload)).unwrap();
    m.original_data = decoded.original_data;
    let e = m.encode();
    assert_eq!(e.len(), 2324);
    let mut fresh = sample_bank();
    fresh.original_data = None;
    assert_eq!(e, fresh.encode());
}

#[test]
fn encode_ignores_original_too_short_for_the_bank() {
    let mut m = sample_bank();
    m.original_data = Some(vec![0xf0, 0x01, 0x02, 0xf7]);
    let mut fresh = sample_bank();
    fresh.original_data = None;
    assert_eq!(m.encode(), fresh.encode());
}
