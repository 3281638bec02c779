use ir_remote::are_all_equal::AreAllEqual;
use ir_remote::duration::Duration;
use ir_remote::ir_signal::{IrPacket, IrPacketDebug, RemoteType};

fn generic(receiver_id: u16, button: u8) -> IrPacket {
    IrPacket { remote_type: RemoteType::Generic, receiver_id, button }
}

#[test]
fn duration_keeps_its_nanoseconds() {
    assert_eq!(Duration::from_nanos(0).as_nanos(), 0);
    assert_eq!(Duration::from_nanos(627_288).as_nanos(), 627_288);
    assert_eq!(Duration::from_nanos(u64::MAX).as_nanos(), u64::MAX);
    assert_eq!(Duration::from_nanos(7), Duration { nanos: 7 });
}

#[test]
fn no_packets_are_all_equal() {
    let packets: Vec<IrPacket> = vec![];
    assert!(packets.as_slice().are_all_equal());
}

#[test]
fn one_packet_is_all_equal() {
    let packets = vec![generic(1, 2)];
    assert!(packets.as_slice().are_all_equal());
}

#[test]
fn same_packets_are_all_equal() {
    let packets = vec![generic(1, 2), generic(1, 2), generic(1, 2)];
    assert!(packets.as_slice().are_all_equal());
}

#[test]
fn one_different_packet_is_found() {
    assert!(!vec![generic(1, 2), generic(1, 3)].as_slice().are_all_equal());
    assert!(!vec![generic(1, 2), generic(1, 2), generic(2, 2)].as_slice().are_all_equal());
    assert!(!vec![generic(9, 2), generic(1, 2), generic(1, 2)].as_slice().are_all_equal());
    let samsung = IrPacket { remote_type: RemoteType::Samsung, receiver_id: 1, button: 2 };
    assert!(!vec![generic(1, 2), samsung].as_slice().are_all_equal());
}

#[test]
fn packet_debug_writes_hexadecimal() {
    let debug = IrPacketDebug::from(&generic(0x00FF, 0x90));
    assert_eq!(debug.remote_type, RemoteType::Generic);
    assert_eq!(debug.receiver_id, "0x00FF");
    assert_eq!(debug.button, "0x90");
}

#[test]
fn packet_debug_pads_and_uses_upper_case() {
    let debug = IrPacketDebug::from(&generic(0x0000, 0x00));
    assert_eq!(debug.receiver_id, "0x0000");
    assert_eq!(debug.button, "0x00");
    let debug = IrPacketDebug::from(&generic(0xABCD, 0xEF));
    assert_eq!(debug.receiver_id, "0xABCD");
    assert_eq!(debug.button, "0xEF");
    let debug = IrPacketDebug::from(&generic(0x1A2B, 0x0C));
    assert_eq!(debug.receiver_id, "0x1A2B");
    assert_eq!(debug.button, "0x0C");
}

#[test]
fn packet_debug_agrees_with_the_formatter() {
    for (receiver_id, button) in [(0u16, 0u8), (0x00FF, 0x90), (0xFFFF, 0xFF), (0x0123, 0x45)] {
        let debug = IrPacketDebug::from(&generic(receiver_id, button));
        assert_eq!(debug.receiver_id, format!("{:#06X}", receiver_id));
        assert_eq!(debug.button, format!("{:#04X}", button));
    }
}

#[test]
fn integers_are_all_equal() {
    assert!([7u8, 7, 7, 7].as_slice().are_all_equal());
    assert!(![7u8, 7, 8, 7].as_slice().are_all_equal());
    assert!(![1u32, 2].as_slice().are_all_equal());
    let none: [u64; 0] = [];
    assert!(none.as_slice().are_all_equal());
}

#[test]
fn strings_are_all_equal() {
    let same = vec![String::from("on"), String::from("on")];
    assert!(same.as_slice().are_all_equal());
    let different = vec![String::from("on"), String::from("off")];
    assert!(!different.as_slice().are_all_equal());
}

#[test]
fn packets_compare_by_all_three_fields() {
    let base = generic(0x00FF, 0x90);
    assert_eq!(base, generic(0x00FF, 0x90));
    assert_ne!(base, generic(0x00FE, 0x90));
    assert_ne!(base, generic(0x00FF, 0x91));
    assert_ne!(base, IrPacket { remote_type: RemoteType::Samsung, ..base });
}
