use legato::midi::{
    is_readable_midi, parse_midi, MidiError, MidiMessage, MidiMessageKind, MidiOffsetStore, MidiPortKind, MidiStore, PitchBend,
};
use std::time::Duration;
use std::time::Instant;

/// Small helper to just encode, re-encode, and assert that they are the same
fn assert_can_reconstruct(msg: MidiMessage) {
    let encoded = msg.encode();
    let decoded = parse_midi(&encoded.data[..encoded.len as usize], Instant::now())
        .expect("Failed to decode message!");
    assert_eq!(msg.data, decoded.data);
    assert_eq!(msg.channel_idx, decoded.channel_idx);
}

#[test]
fn test_note_on_off() {
    for channel in 0..16 {
        let note_on = MidiMessage {
            channel_idx: channel,
            instant: Instant::now(),
            data: MidiMessageKind::NoteOn { note: 60, velocity: 100 },
        };
        assert_can_reconstruct(note_on);

        let note_off = MidiMessage {
            channel_idx: channel,
            instant: Instant::now(),
            data: MidiMessageKind::NoteOff { note: 60, velocity: 50 },
        };
        assert_can_reconstruct(note_off);
    }
}

#[test]
fn test_control_change() {
    for channel in 0..16 {
        let msg = MidiMessage {
            channel_idx: channel,
            instant: Instant::now(),
            data: MidiMessageKind::Control { control_number: 10, value: 127 },
        };
        assert_can_reconstruct(msg);
    }
}

#[test]
fn test_pitch_wheel() {
    for channel in 0..16 {
        let msg = MidiMessage {
            channel_idx: channel,
            instant: Instant::now(),
            data: MidiMessageKind::PitchWheel { shift: PitchBend(8192) },
        };
        assert_can_reconstruct(msg);

        let msg_low = MidiMessage {
            channel_idx: channel,
            instant: Instant::now(),
            data: MidiMessageKind::PitchWheel { shift: PitchBend(0) },
        };
        assert_can_reconstruct(msg_low);

        let msg_high = MidiMessage {
            channel_idx: channel,
            instant: Instant::now(),
            data: MidiMessageKind::PitchWheel { shift: PitchBend(16383) },
        };
        assert_can_reconstruct(msg_high);
    }
}

#[test]
fn test_aftertouch() {
    for channel in 0..16 {
        let channel_at = MidiMessage {
            channel_idx: channel,
            instant: Instant::now(),
            data: MidiMessageKind::ChannelAftertouch { amount: 64 },
        };
        assert_can_reconstruct(channel_at);

        let poly_at = MidiMessage {
            channel_idx: channel,
            instant: Instant::now(),
            data: MidiMessageKind::PolyphonicAftertouch { note: 60, amount: 127 },
        };
        assert_can_reconstruct(poly_at);
    }
}

#[test]
fn test_system_messages() {
    let start = MidiMessage { channel_idx: 0, instant: Instant::now(), data: MidiMessageKind::Start };
    assert_can_reconstruct(start);

    let continue_msg =
        MidiMessage { channel_idx: 0, instant: Instant::now(), data: MidiMessageKind::Continue };
    assert_can_reconstruct(continue_msg);

    let stop = MidiMessage { channel_idx: 0, instant: Instant::now(), data: MidiMessageKind::Stop };
    assert_can_reconstruct(stop);

    let clock = MidiMessage { channel_idx: 0, instant: Instant::now(), data: MidiMessageKind::Clock };
    assert_can_reconstruct(clock);

    let spp = MidiMessage {
        channel_idx: 0,
        instant: Instant::now(),
        data: MidiMessageKind::SongPositionPointer { value: 0x1234 },
    };
    assert_can_reconstruct(spp);
}

#[test]
fn test_invalid_parse() {
    let empty: &[u8] = &[];
    assert!(parse_midi(empty, Instant::now()).is_err());

    let unknown: &[u8] = &[0xFF];
    assert!(matches!(parse_midi(unknown, Instant::now()), Err(MidiError::NotImplemented)));
}

#[test]
fn encode_writes_exact_wire_bytes() {
    let msg = MidiMessage {
        channel_idx: 3,
        instant: Instant::now(),
        data: MidiMessageKind::PitchWheel { shift: PitchBend(0x2345) },
    };
    let e = msg.encode();
    assert_eq!(e.len, 3);
    assert_eq!(e.data, [0xE3, 0x45, 0x46]);

    let at = MidiMessage {
        channel_idx: 15,
        instant: Instant::now(),
        data: MidiMessageKind::ChannelAftertouch { amount: 9 },
    };
    let e = at.encode();
    assert_eq!(e.len, 2);
    assert_eq!(e.data, [0xDF, 9, 0]);

    let clock = MidiMessage { channel_idx: 0, instant: Instant::now(), data: MidiMessageKind::Clock };
    let e = clock.encode();
    assert_eq!((e.len, e.data[0]), (1, 0xF8));
}

#[test]
fn parse_keeps_the_given_instant_and_reads_channel() {
    let now = Instant::now();
    let m = parse_midi(&[0x95, 60, 100], now).unwrap();
    assert_eq!(m.instant, now);
    assert_eq!(m.channel_idx, 5);
    assert_eq!(m.data, MidiMessageKind::NoteOn { note: 60, velocity: 100 });

    let spp = parse_midi(&[0xF2, 0x7F, 0x01], now).unwrap();
    assert_eq!(spp.data, MidiMessageKind::SongPositionPointer { value: 0xFF });
    assert_eq!(spp.channel_idx, 0);

    assert_eq!(parse_midi(&[0xF1], now), Err(MidiError::NotImplemented));
    assert_eq!(parse_midi(&[0x70], now), Err(MidiError::NotImplemented));
}

#[test]
fn canonical_bytes_survive_parse_then_encode() {
    let bytes = [0xB2u8, 7, 99];
    let m = parse_midi(&bytes, Instant::now()).unwrap();
    let e = m.encode();
    assert_eq!(&e.data[..e.len], &bytes[..]);
}

#[test]
fn pitch_bend_centres_on_zero() {
    assert_eq!(PitchBend(8192).as_i16(), 0);
    assert_eq!(PitchBend(0).as_i16(), -8192);
    assert_eq!(PitchBend(16383).as_i16(), 8191);
}

fn note(chan: u8, n: u8) -> MidiMessage {
    MidiMessage {
        channel_idx: chan,
        instant: Instant::now(),
        data: MidiMessageKind::NoteOn { note: n, velocity: 1 },
    }
}

#[test]
fn store_keeps_channels_apart_and_fills_up() {
    let mut store = MidiStore::new(2);
    assert_eq!(store.get_channel(4).len(), 0);
    assert_eq!(store.insert(note(4, 60)), Ok(()));
    assert_eq!(store.insert(note(4, 61)), Ok(()));
    assert_eq!(store.insert(note(4, 62)), Err(MidiError::RingbufferFull));
    assert_eq!(store.insert(note(16, 62)), Err(MidiError::InvalidPort));
    assert_eq!(store.insert(note(5, 70)), Ok(()));
    let c4: Vec<MidiMessageKind> = store.get_channel(4).iter().map(|m| m.data).collect();
    assert_eq!(
        c4,
        vec![
            MidiMessageKind::NoteOn { note: 60, velocity: 1 },
            MidiMessageKind::NoteOn { note: 61, velocity: 1 }
        ]
    );
    assert_eq!(store.get_channel(5).len(), 1);
    assert_eq!(store.get_channel(0).len(), 0);

    let clock = MidiMessage { channel_idx: 0, instant: Instant::now(), data: MidiMessageKind::Clock };
    assert_eq!(store.insert(clock), Ok(()));
    assert_eq!(store.get_general().len(), 2);
    assert_eq!(store.get_general()[0].data, MidiMessageKind::Clock);
    assert_eq!(store.get_general()[1].data, MidiMessageKind::Dummy);

    store.clear();
    assert_eq!(store.get_channel(4).len(), 0);
    assert_eq!(store.insert(note(4, 63)), Ok(()));
    assert_eq!(store.get_channel(4)[0].data, MidiMessageKind::NoteOn { note: 63, velocity: 1 });
}

#[test]
fn port_selection_by_default_index_and_name() {
    let names = vec!["Midi Through".to_string(), "Keystep".to_string(), "Keystep".to_string()];
    assert_eq!(MidiPortKind::Default.select_port(&names), Ok(0));
    assert_eq!(MidiPortKind::Index(2).select_port(&names), Ok(2));
    assert_eq!(MidiPortKind::Named("Keystep").select_port(&names), Ok(1));
    assert_eq!(MidiPortKind::Named("Launchpad").select_port(&names), Err(MidiError::InvalidPort));
    assert_eq!(MidiPortKind::Named("Keystep").select_port(&[]), Err(MidiError::InvalidPort));
}

#[test]
fn offset_store_maps_midi_time_onto_the_clock() {
    let before = Instant::now();
    let store = MidiOffsetStore::new(1_000_000);
    let after = Instant::now();
    let anchor = store.to_instant(1_000_000);
    assert!(before <= anchor && anchor <= after);
    assert_eq!(store.to_instant(1_250_000), anchor + Duration::from_micros(250_000));
    assert_eq!(store.to_instant(999_000), anchor - Duration::from_micros(1_000));
    assert_eq!(store.checked_to_instant(1_250_000), Some(anchor + Duration::from_micros(250_000)));
    assert_eq!(store.checked_to_instant(1_000_000), Some(anchor));
    assert_eq!(store.checked_to_instant(u64::MAX).is_some(), anchor.checked_add(Duration::from_micros(u64::MAX - 1_000_000)).is_some());
    let mut store = store;
    store.update(5);
    let re = store.to_instant(5);
    assert!(re >= anchor);
    assert_eq!(store.to_instant(7), re + Duration::from_micros(2));
}

#[test]
fn readable_messages_hold_every_byte_the_parser_reads() {
    assert!(is_readable_midi(&[]));
    assert!(is_readable_midi(&[0x90, 60, 100]));
    assert!(!is_readable_midi(&[0x90, 60]));
    assert!(is_readable_midi(&[0xD0, 5]));
    assert!(!is_readable_midi(&[0xD0]));
    assert!(!is_readable_midi(&[0xF2, 1]));
    assert!(is_readable_midi(&[0xF8]));
}
