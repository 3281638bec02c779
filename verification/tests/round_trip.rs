use ir_remote::duration::Duration;
use ir_remote::ir_signal::{IrPacket, IrSignal, RemoteType, Repeat};

fn packet(remote_type: RemoteType, receiver_id: u16, button: u8) -> IrPacket {
    IrPacket { remote_type, receiver_id, button }
}

#[test]
fn packet_round_trip_generic() {
    let sent = packet(RemoteType::Generic, 0x00FF, 0x90);
    let events = sent.encode();
    assert_eq!(events.len(), 67);
    let decoded = IrSignal::decode(&events);
    assert_eq!(decoded, Ok(IrSignal { packet: sent, repeat: None }));
}

#[test]
fn packet_round_trip_samsung() {
    let sent = packet(RemoteType::Samsung, 0xE0E0, 0x67);
    let decoded = IrSignal::decode(&sent.encode());
    assert_eq!(decoded, Ok(IrSignal { packet: sent, repeat: None }));
}

#[test]
fn packet_round_trip_extreme_values() {
    for remote_type in [RemoteType::Generic, RemoteType::Samsung] {
        for receiver_id in [0x0000u16, 0x0001, 0x8000, 0xA55A, 0xFFFF] {
            for button in [0x00u8, 0x01, 0x7F, 0x80, 0xFF] {
                let sent = packet(remote_type, receiver_id, button);
                let decoded = IrSignal::decode(&sent.encode());
                assert_eq!(decoded, Ok(IrSignal { packet: sent, repeat: None }));
            }
        }
    }
}

#[test]
fn packet_decode_returns_position_after_packet() {
    let sent = packet(RemoteType::Generic, 0x1234, 0x56);
    let events = sent.encode();
    assert_eq!(IrPacket::decode(&events, 0), Ok((sent, 67)));
}

#[test]
fn signal_round_trip_with_repeat() {
    for times in [2usize, 3, 5] {
        let sent = IrSignal {
            packet: packet(RemoteType::Generic, 0xA55A, 0x38),
            repeat: Some(Repeat { times, duration_between: Duration::from_nanos(27_116_677) }),
        };
        let events = sent.encode();
        assert_eq!(events.len(), 68 * times - 1);
        assert_eq!(IrSignal::decode(&events), Ok(sent));
    }
}
