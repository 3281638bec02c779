//! What encoding and decoding have to do with each other: decoding gives
//! back what was encoded, and damaged streams are refused for the right
//! reason.

use super::decode::{
    finish, frame_packet, read_bits, read_first_high, read_first_low, read_high, read_low,
    read_packet, read_repeats, read_signal, DecodeFailure,
};
use super::encode::{
    bit_space, bits_events, frame_events, lemma_bits_events_len, mark, repeated, space,
    PACKET_EVENTS,
};
use super::frame::{lemma_field_value_of_bits, with_field, FRAME_BITS};
use super::{
    lemma_first_high_unambiguous, Event, IrPacket, IrSignal, RemoteType, Repeat, FIRST_LOW_NANOS,
    HIGH_NANOS,
};
use crate::are_all_equal::all_equal;
use crate::duration::Duration;
use vstd::arithmetic::div_mod::lemma_small_mod;
use vstd::arithmetic::power2::{lemma2_to64, pow2};
use vstd::prelude::*;

verus! {

/// Whether `events` hold the run `expected` from position `at` on.
pub open spec fn carries(events: Seq<Event>, at: int, expected: Seq<Event>) -> bool {
    &&& 0 <= at
    &&& at + expected.len() <= events.len()
    &&& forall|i: int| 0 <= i < expected.len() ==> events[at + i] == #[trigger] expected[i]
}

/// Where the mark and the space of bit `k` stand among the events of a run
/// of bits.
pub proof fn lemma_bits_events_at(bits: Seq<bool>, k: int)
    requires
        0 <= k < bits.len(),
    ensures
        bits_events(bits).len() == 2 * bits.len(),
        bits_events(bits)[2 * k] == mark(HIGH_NANOS),
        bits_events(bits)[2 * k + 1] == bit_space(bits[k]),
    decreases bits.len(),
{
    lemma_bits_events_len(bits.drop_last());
    if k < bits.len() - 1 {
        lemma_bits_events_at(bits.drop_last(), k);
    }
}

/// The header of a packet and its closing mark.
pub proof fn lemma_frame_events_ends(remote_type: RemoteType, bits: Seq<bool>)
    requires
        bits.len() == FRAME_BITS,
    ensures
        frame_events(remote_type, bits).len() == PACKET_EVENTS,
        frame_events(remote_type, bits)[0] == (Event {
            is_on: true,
            duration: remote_type.first_high(),
        }),
        frame_events(remote_type, bits)[1] == space(FIRST_LOW_NANOS),
        frame_events(remote_type, bits)[66] == mark(HIGH_NANOS),
{
    lemma_bits_events_len(bits);
}

/// Where the mark and the space of bit `k` stand in a packet.
pub proof fn lemma_frame_events_at(remote_type: RemoteType, bits: Seq<bool>, k: int)
    requires
        bits.len() == FRAME_BITS,
        0 <= k < FRAME_BITS,
    ensures
        frame_events(remote_type, bits)[2 + 2 * k] == mark(HIGH_NANOS),
        frame_events(remote_type, bits)[3 + 2 * k] == bit_space(bits[k]),
{
    lemma_bits_events_at(bits, k);
    let events = frame_events(remote_type, bits);
    assert(events[2 + 2 * k] == bits_events(bits)[2 * k]);
    assert(events[3 + 2 * k] == bits_events(bits)[2 * k + 1]);
}

/// Reading the data bits of a packet that is there gives its bits.
proof fn lemma_read_bits_of_frame(
    events: Seq<Event>,
    at: int,
    remote_type: RemoteType,
    bits: Seq<bool>,
    count: nat,
)
    requires
        bits.len() == FRAME_BITS,
        count <= FRAME_BITS,
        carries(events, at, frame_events(remote_type, bits).take(PACKET_EVENTS - 1)),
    ensures
        read_bits(events, at + 2, count) == Ok::<Seq<bool>, DecodeFailure>(bits.take(count as int)),
    decreases count,
{
    lemma_frame_events_ends(remote_type, bits);
    let expected = frame_events(remote_type, bits).take(PACKET_EVENTS - 1);
    if count == 0 {
        assert(bits.take(0) == Seq::<bool>::empty());
    } else {
        let k = count - 1;
        lemma_read_bits_of_frame(events, at, remote_type, bits, k as nat);
        lemma_frame_events_at(remote_type, bits, k);
        assert(events[at + (2 + 2 * k)] == expected[2 + 2 * k]);
        assert(events[at + (3 + 2 * k)] == expected[3 + 2 * k]);
        assert(expected[3 + 2 * k] == bit_space(bits[k]));
        assert(read_high(events, at + 2 + 2 * k) == Ok::<(), DecodeFailure>(()));
        assert(read_low(events, at + 2 + 2 * k + 1) == Ok::<bool, DecodeFailure>(bits[k]));
        assert(bits.take(count as int) == bits.take(k).push(bits[k]));
    }
}

/// A packet that is there is read as what its data bits spell.
pub proof fn lemma_read_frame(events: Seq<Event>, at: int, remote_type: RemoteType, bits: Seq<bool>)
    requires
        bits.len() == FRAME_BITS,
        carries(events, at, frame_events(remote_type, bits)),
    ensures
        read_packet(events, at) == frame_packet(remote_type, bits),
{
    lemma_frame_events_ends(remote_type, bits);
    lemma_first_high_unambiguous(remote_type.first_high(), remote_type);
    let expected = frame_events(remote_type, bits);
    assert(events[at + 0] == expected[0]);
    assert(events[at + 1] == expected[1]);
    assert(events[at + 66] == expected[66]);
    assert(carries(events, at, expected.take(PACKET_EVENTS - 1))) by {
        assert forall|i: int| 0 <= i < PACKET_EVENTS - 1 implies events[at + i]
            == #[trigger] expected.take(PACKET_EVENTS - 1)[i] by {
            assert(events[at + i] == expected[i]);
        }
    }
    lemma_read_bits_of_frame(events, at, remote_type, bits, FRAME_BITS as nat);
    assert(bits.take(FRAME_BITS as int) == bits);
    assert(read_first_high(events, at) == Ok::<RemoteType, DecodeFailure>(remote_type));
    assert(read_first_low(events, at + 1) == Ok::<(), DecodeFailure>(()));
    assert(read_high(events, at + 2 + 2 * FRAME_BITS) == Ok::<(), DecodeFailure>(()));
}

/// The data bits of a packet spell the packet.
pub proof fn lemma_frame_spells_packet(packet: IrPacket)
    ensures
        frame_packet(packet.remote_type, packet.frame()) == Ok::<IrPacket, DecodeFailure>(packet),
{
    let bits = packet.frame();
    lemma2_to64();
    lemma_field_value_of_bits(bits, 0, 16, packet.receiver_id as nat);
    lemma_field_value_of_bits(bits, 16, 24, packet.button as nat);
    lemma_field_value_of_bits(bits, 24, 32, (!packet.button) as nat);
    lemma_small_mod(packet.receiver_id as nat, pow2(16));
    lemma_small_mod(packet.button as nat, pow2(8));
    lemma_small_mod((!packet.button) as nat, pow2(8));
}

/// Decoding the events of a packet gives the packet back.
pub proof fn lemma_packet_round_trip(packet: IrPacket)
    ensures
        read_packet(packet.events(), 0) == Ok::<IrPacket, DecodeFailure>(packet),
        read_signal(packet.events()) == Ok::<IrSignal, DecodeFailure>(
            IrSignal { packet, repeat: None },
        ),
{
    lemma_frame_events_ends(packet.remote_type, packet.frame());
    lemma_read_frame(packet.events(), 0, packet.remote_type, packet.frame());
    lemma_frame_spells_packet(packet);
    assert(all_equal(seq![packet]));
}

/// Where the sendings and the gaps stand in a repeated packet: sending `c`
/// begins at event `68 * c`, and a gap follows each sending but the last.
pub proof fn lemma_repeated_at(packet: Seq<Event>, gap: Event, copies: nat, c: int)
    requires
        packet.len() == PACKET_EVENTS,
        0 <= c < copies,
    ensures
        repeated(packet, gap, copies).len() == 68 * copies - 1,
        carries(repeated(packet, gap, copies), 68 * c, packet),
        c < copies - 1 ==> repeated(packet, gap, copies)[68 * c + 67] == gap,
    decreases copies,
{
    let events = repeated(packet, gap, copies);
    if copies <= 1 {
        assert forall|i: int| 0 <= i < packet.len() implies events[68 * c + i]
            == #[trigger] packet[i] by {}
    } else {
        let shorter = repeated(packet, gap, (copies - 1) as nat);
        lemma_repeated_at(packet, gap, (copies - 1) as nat, 0);
        assert(events == shorter + seq![gap] + packet);
        if c < copies - 1 {
            lemma_repeated_at(packet, gap, (copies - 1) as nat, c);
            assert forall|i: int| 0 <= i < packet.len() implies events[68 * c + i]
                == #[trigger] packet[i] by {
                assert(events[68 * c + i] == shorter[68 * c + i]);
            }
            if c < copies - 2 {
                assert(events[68 * c + 67] == shorter[68 * c + 67]);
            }
        } else {
            assert forall|i: int| 0 <= i < packet.len() implies events[68 * c + i]
                == #[trigger] packet[i] by {}
        }
    }
}

/// A gap and a packet that are there are read as the next sending.
pub proof fn lemma_read_next_sending(
    events: Seq<Event>,
    at: int,
    packet: IrPacket,
    packets: Seq<IrPacket>,
    gaps: Seq<Duration>,
)
    requires
        0 <= at < events.len(),
        !events[at].is_on,
        carries(events, at + 1, packet.events()),
    ensures
        read_repeats(events, at, packets, gaps) == read_repeats(
            events,
            at + 68,
            packets.push(packet),
            gaps.push(events[at].duration),
        ),
{
    lemma_frame_events_ends(packet.remote_type, packet.frame());
    lemma_read_frame(events, at + 1, packet.remote_type, packet.frame());
    lemma_frame_spells_packet(packet);
}

/// Reading on after `done` sendings of a packet that is sent `times` times
/// gives the signal that was sent.
proof fn lemma_read_sendings(packet: IrPacket, pause: Duration, times: usize, done: nat)
    requires
        times >= 2,
        1 <= done <= times,
    ensures
        read_repeats(
            repeated(packet.events(), Event { is_on: false, duration: pause }, times as nat),
            68 * done - 1,
            Seq::new(done, |i: int| packet),
            Seq::new((done - 1) as nat, |i: int| pause),
        ) == Ok::<IrSignal, DecodeFailure>(
            IrSignal { packet, repeat: Some(Repeat { times, duration_between: pause }) },
        ),
    decreases times - done,
{
    let gap = Event { is_on: false, duration: pause };
    let events = repeated(packet.events(), gap, times as nat);
    let packets = Seq::new(done, |i: int| packet);
    let gaps = Seq::new((done - 1) as nat, |i: int| pause);
    lemma_frame_events_ends(packet.remote_type, packet.frame());
    lemma_repeated_at(packet.events(), gap, times as nat, done - 1);
    if done == times {
        assert(all_equal(packets));
        assert(finish(packets, gaps) == Ok::<IrSignal, DecodeFailure>(
            IrSignal { packet, repeat: Some(Repeat { times, duration_between: pause }) },
        ));
    } else {
        lemma_repeated_at(packet.events(), gap, times as nat, done as int);
        assert(events[68 * done - 1] == gap);
        lemma_read_next_sending(events, 68 * done - 1, packet, packets, gaps);
        assert(packets.push(packet) == Seq::new(done + 1, |i: int| packet));
        assert(gaps.push(pause) == Seq::new(done, |i: int| pause));
        lemma_read_sendings(packet, pause, times, done + 1);
    }
}

/// Decoding the events of a signal gives the signal back, where the signal
/// is sent once without a repeat or is repeated with two or more sendings in
/// all.
pub proof fn lemma_signal_round_trip(signal: IrSignal)
    requires
        signal.repeat matches Some(repeat) ==> repeat.times >= 2,
    ensures
        read_signal(signal.events()) == Ok::<IrSignal, DecodeFailure>(signal),
{
    match signal.repeat {
        None => {
            lemma_packet_round_trip(signal.packet);
        },
        Some(repeat) => {
            let gap = Event { is_on: false, duration: repeat.duration_between };
            let packet = signal.packet;
            lemma_frame_events_ends(packet.remote_type, packet.frame());
            lemma_repeated_at(packet.events(), gap, repeat.times as nat, 0);
            lemma_read_frame(signal.events(), 0, packet.remote_type, packet.frame());
            lemma_frame_spells_packet(packet);
            assert(seq![packet] == Seq::new(1, |i: int| packet));
            assert(Seq::<Duration>::empty() == Seq::new(0, |i: int| repeat.duration_between));
            lemma_read_sendings(packet, repeat.duration_between, repeat.times, 1);
        },
    }
}

/// A stream whose last byte is not the complement of the button byte, and
/// which is a well-formed packet otherwise, is refused for its last byte.
pub proof fn lemma_bad_last_byte_is_refused(packet: IrPacket, last_byte: u8)
    requires
        last_byte != !packet.button,
    ensures
        read_signal(
            frame_events(packet.remote_type, with_field(packet.frame(), 24, 32, last_byte as nat)),
        ) == Err::<IrSignal, DecodeFailure>(DecodeFailure::LastByteBad),
{
    let bits = with_field(packet.frame(), 24, 32, last_byte as nat);
    let events = frame_events(packet.remote_type, bits);
    lemma_frame_events_ends(packet.remote_type, bits);
    lemma_read_frame(events, 0, packet.remote_type, bits);
    lemma2_to64();
    lemma_field_value_of_bits(bits, 16, 24, packet.button as nat);
    lemma_field_value_of_bits(bits, 24, 32, last_byte as nat);
    lemma_small_mod(packet.button as nat, pow2(8));
    lemma_small_mod(last_byte as nat, pow2(8));
}

/// Two different packets with a gap between them are refused as a signal,
/// and the failure names both of them in their order.
pub proof fn lemma_different_packets_are_refused(first: IrPacket, second: IrPacket, pause: Duration)
    requires
        first != second,
    ensures
        read_signal(
            first.events() + seq![Event { is_on: false, duration: pause }] + second.events(),
        ) == Err::<IrSignal, DecodeFailure>(
            DecodeFailure::MultipleDifferentPackets(seq![first, second]),
        ),
{
    let gap = Event { is_on: false, duration: pause };
    let events = first.events() + seq![gap] + second.events();
    lemma_frame_events_ends(first.remote_type, first.frame());
    lemma_frame_events_ends(second.remote_type, second.frame());
    assert(carries(events, 0, first.events())) by {
        assert forall|i: int| 0 <= i < first.events().len() implies events[0 + i]
            == #[trigger] first.events()[i] by {}
    }
    assert(carries(events, 68, second.events())) by {
        assert forall|i: int| 0 <= i < second.events().len() implies events[68 + i]
            == #[trigger] second.events()[i] by {}
    }
    lemma_read_frame(events, 0, first.remote_type, first.frame());
    lemma_read_frame(events, 68, second.remote_type, second.frame());
    lemma_frame_spells_packet(first);
    lemma_frame_spells_packet(second);
    let packets = seq![first].push(second);
    let gaps = Seq::<Duration>::empty().push(pause);
    assert(events[67] == gap);
    assert(packets == seq![first, second]);
    assert(!all_equal(packets)) by {
        assert(packets[0] != packets[1]);
    }
    assert(read_repeats(events, 135, packets, gaps) == finish(packets, gaps));
    assert(read_repeats(events, 67, seq![first], Seq::empty()) == read_repeats(
        events,
        135,
        packets,
        gaps,
    ));
}

/// A packet whose closing mark is missing is refused as too short.
pub proof fn lemma_truncated_packet_is_refused(packet: IrPacket)
    ensures
        read_signal(packet.events().drop_last()) == Err::<IrSignal, DecodeFailure>(
            DecodeFailure::LengthBad,
        ),
{
    let whole = packet.events();
    let events = whole.drop_last();
    lemma_frame_events_ends(packet.remote_type, packet.frame());
    lemma_first_high_unambiguous(packet.remote_type.first_high(), packet.remote_type);
    assert(events == whole.take(PACKET_EVENTS - 1));
    assert(carries(events, 0, whole.take(PACKET_EVENTS - 1))) by {
        assert forall|i: int| 0 <= i < PACKET_EVENTS - 1 implies events[0 + i]
            == #[trigger] whole.take(PACKET_EVENTS - 1)[i] by {}
    }
    lemma_read_bits_of_frame(events, 0, packet.remote_type, packet.frame(), FRAME_BITS as nat);
    assert(events[0] == whole[0]);
    assert(events[1] == whole[1]);
    assert(read_first_high(events, 0) == Ok::<RemoteType, DecodeFailure>(packet.remote_type));
    assert(read_first_low(events, 1) == Ok::<(), DecodeFailure>(()));
    assert(read_high(events, 66) == Err::<(), DecodeFailure>(DecodeFailure::LengthBad));
}

} // verus!
