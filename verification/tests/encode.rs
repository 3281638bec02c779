use ir_remote::duration::Duration;
use ir_remote::ir_signal::{
    Event, IrPacket, IrSignal, RemoteType, Repeat, FIRST_HIGH_GENERIC_NANOS,
    FIRST_HIGH_SAMSUNG_NANOS, FIRST_LOW_NANOS, HIGH_NANOS, LOW_0_NANOS, LOW_1_NANOS,
};
use ir_remote::{Level, Remote};

fn mark(nanos: u64) -> Event {
    Event { is_on: true, duration: Duration::from_nanos(nanos) }
}

fn space(nanos: u64) -> Event {
    Event { is_on: false, duration: Duration::from_nanos(nanos) }
}

/// The events of a packet built by hand from its 32-bit word.
fn events_of_word(first_high: u64, word: u32) -> Vec<Event> {
    let mut events = vec![mark(first_high), space(FIRST_LOW_NANOS)];
    for index in 0..32 {
        events.push(mark(HIGH_NANOS));
        let bit = (word >> (31 - index)) & 1 == 1;
        events.push(space(if bit { LOW_1_NANOS } else { LOW_0_NANOS }));
    }
    events.push(mark(HIGH_NANOS));
    events
}

#[test]
fn timing_constants_in_nanoseconds() {
    assert_eq!(FIRST_HIGH_GENERIC_NANOS, 9_108_749);
    assert_eq!(FIRST_HIGH_SAMSUNG_NANOS, 4_413_791);
    assert_eq!(FIRST_LOW_NANOS, 4_424_661);
    assert_eq!(HIGH_NANOS, 627_288);
    assert_eq!(LOW_0_NANOS, 503_018);
    assert_eq!(LOW_1_NANOS, 1_632_658);
}

#[test]
fn encode_brightness_up_of_generic_remote() {
    let packet = IrPacket { remote_type: RemoteType::Generic, receiver_id: 0x00FF, button: 0x90 };
    let events = packet.encode();
    assert_eq!(events.len(), 67);
    assert_eq!(events[0], mark(9_108_749));
    assert_eq!(events[1], space(4_424_661));
    let word: u32 = 0x00FF_906F;
    for index in 0..32usize {
        assert_eq!(events[2 + 2 * index], mark(627_288));
        let bit = (word >> (31 - index)) & 1 == 1;
        let expected = if bit { 1_632_658 } else { 503_018 };
        assert_eq!(events[3 + 2 * index], space(expected));
    }
    assert_eq!(events[66], mark(627_288));
    assert_eq!(events, events_of_word(9_108_749, 0x00FF_906F));
    assert_eq!(IrSignal::decode(&events), Ok(IrSignal { packet, repeat: None }));
}

#[test]
fn encode_first_bits_are_most_significant() {
    let packet = IrPacket { remote_type: RemoteType::Generic, receiver_id: 0x8001, button: 0x80 };
    let events = packet.encode();
    assert_eq!(events[3], space(LOW_1_NANOS));
    assert_eq!(events[5], space(LOW_0_NANOS));
    assert_eq!(events[3 + 2 * 15], space(LOW_1_NANOS));
    assert_eq!(events[3 + 2 * 16], space(LOW_1_NANOS));
    assert_eq!(events[3 + 2 * 17], space(LOW_0_NANOS));
    assert_eq!(events[3 + 2 * 24], space(LOW_0_NANOS));
    assert_eq!(events[3 + 2 * 25], space(LOW_1_NANOS));
    assert_eq!(events, events_of_word(FIRST_HIGH_GENERIC_NANOS, 0x8001_807F));
}

#[test]
fn encode_samsung_uses_its_own_header() {
    let packet = IrPacket { remote_type: RemoteType::Samsung, receiver_id: 0xE0E0, button: 0x67 };
    assert_eq!(packet.encode(), events_of_word(FIRST_HIGH_SAMSUNG_NANOS, 0xE0E0_6798));
}

#[test]
fn encode_signal_without_repeat_is_the_packet() {
    let packet = IrPacket { remote_type: RemoteType::Generic, receiver_id: 0x00FF, button: 0xB8 };
    let signal = IrSignal { packet, repeat: None };
    assert_eq!(signal.encode(), packet.encode());
}

#[test]
fn encode_signal_with_zero_or_one_times_is_the_packet() {
    let packet = IrPacket { remote_type: RemoteType::Generic, receiver_id: 0x00FF, button: 0xB8 };
    for times in [0usize, 1] {
        let signal = IrSignal {
            packet,
            repeat: Some(Repeat { times, duration_between: Duration::from_nanos(1_000) }),
        };
        let events = signal.encode();
        assert_eq!(events, packet.encode());
        assert_eq!(IrSignal::decode(&events), Ok(IrSignal { packet, repeat: None }));
    }
}

#[test]
fn encode_signal_with_repeat_puts_gap_before_each_copy() {
    let packet = IrPacket { remote_type: RemoteType::Generic, receiver_id: 0xA55A, button: 0x38 };
    let signal = IrSignal {
        packet,
        repeat: Some(Repeat { times: 3, duration_between: Duration::from_nanos(27_116_677) }),
    };
    let events = signal.encode();
    let once = packet.encode();
    let mut expected = once.clone();
    for _ in 0..2 {
        expected.push(space(27_116_677));
        expected.extend(once.iter().copied());
    }
    assert_eq!(events.len(), 67 + 2 * 68);
    assert_eq!(events, expected);
}

#[test]
fn remote_encode_gives_line_levels_of_generic_packet() {
    let remote = Remote { id: [0x00, 0xFF] };
    let events = remote.encode(0x90);
    let pulses =
        IrPacket { remote_type: RemoteType::Generic, receiver_id: 0x00FF, button: 0x90 }.encode();
    assert_eq!(events.len(), 67);
    for (event, pulse) in events.iter().zip(pulses.iter()) {
        let level = if pulse.is_on { Level::High } else { Level::Low };
        assert_eq!(event.level, level);
        assert_eq!(event.duration, pulse.duration);
    }
    assert_eq!(events[0].level, Level::High);
    assert_eq!(events[0].duration, Duration::from_nanos(9_108_749));
    assert_eq!(events[1].level, Level::Low);
    assert_eq!(events[1].duration, Duration::from_nanos(4_424_661));
}

#[test]
fn remote_encode_takes_first_id_byte_as_high_byte() {
    let remote = Remote { id: [0xA5, 0x5A] };
    let events = remote.encode(0x12);
    let pulses = events_of_word(FIRST_HIGH_GENERIC_NANOS, 0xA55A_12ED);
    assert_eq!(events.len(), pulses.len());
    for (event, pulse) in events.iter().zip(pulses.iter()) {
        assert_eq!(event.level == Level::High, pulse.is_on);
        assert_eq!(event.duration, pulse.duration);
    }
}

#[test]
fn line_event_of_pulse() {
    let high = ir_remote::Event::from(mark(627_288));
    let duration = Duration::from_nanos(627_288);
    assert_eq!(high, ir_remote::Event { level: Level::High, duration });
    let low = ir_remote::Event::from(space(503_018));
    let duration = Duration::from_nanos(503_018);
    assert_eq!(low, ir_remote::Event { level: Level::Low, duration });
}
