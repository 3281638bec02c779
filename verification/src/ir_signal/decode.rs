//! From measured pulses back to the logical signal.
//!
//! The events are read strictly from front to back, and the reading stops
//! at the first event that does not fit.

use super::encode::PACKET_EVENTS;
use super::frame::{field_value, frame_bits, lemma_field_value_bound, Frame, FRAME_BITS};
use super::{
    matches_timing, Event, IrPacket, IrSignal, RemoteType, Repeat, ACCEPTABLE_ERROR_PERCENT,
    FIRST_LOW_NANOS, HIGH_NANOS, LOW_0_NANOS, LOW_1_NANOS,
};
use crate::are_all_equal::{all_equal, lemma_neighbours_equal_is_all_equal, AreAllEqual};
use crate::duration::Duration;
use crate::is_around::IsAround;
use vstd::arithmetic::power2::lemma2_to64;
use vstd::prelude::*;

verus! {

/// Why a run of events is not a signal.
#[derive(Debug, PartialEq, Eq)]
pub enum DecodeError {
    /// There is no event where a packet has to begin.
    FirstHighMissing,
    /// The events end inside a packet.
    LengthBad,
    /// The opening event is a space, or a mark of no known family.
    FirstHighBad,
    /// The event after the opening mark is a mark, or a space of the wrong
    /// length.
    FirstLowBad,
    /// There is a space where a mark has to be.
    HighNotHigh,
    /// A mark has the wrong length, which is given.
    HighBad(Duration),
    /// There is a mark where the space of a data bit has to be.
    LowNotLow,
    /// The space of a data bit is neither that of a `0` nor that of a `1`;
    /// its length is given.
    LowBad(Duration),
    /// The receiver id is not valid. No stream is refused for this reason:
    /// every sixteen bits are a receiver id.
    IdBad,
    /// The last byte is not the complement of the button byte.
    LastByteBad,
    /// There is a mark, which is given, where the gap between two packets
    /// has to be.
    SpaceNotLow(Event),
    /// The packets of the signal, which are given, are not all the same.
    MultipleDifferentPackets(Vec<IrPacket>),
}

/// The mathematical value of a [`DecodeError`].
pub enum DecodeFailure {
    FirstHighMissing,
    LengthBad,
    FirstHighBad,
    FirstLowBad,
    HighNotHigh,
    HighBad(Duration),
    LowNotLow,
    LowBad(Duration),
    IdBad,
    LastByteBad,
    SpaceNotLow(Event),
    MultipleDifferentPackets(Seq<IrPacket>),
}

impl View for DecodeError {
    type V = DecodeFailure;

    open spec fn view(&self) -> DecodeFailure {
        match self {
            DecodeError::FirstHighMissing => DecodeFailure::FirstHighMissing,
            DecodeError::LengthBad => DecodeFailure::LengthBad,
            DecodeError::FirstHighBad => DecodeFailure::FirstHighBad,
            DecodeError::FirstLowBad => DecodeFailure::FirstLowBad,
            DecodeError::HighNotHigh => DecodeFailure::HighNotHigh,
            DecodeError::HighBad(duration) => DecodeFailure::HighBad(*duration),
            DecodeError::LowNotLow => DecodeFailure::LowNotLow,
            DecodeError::LowBad(duration) => DecodeFailure::LowBad(*duration),
            DecodeError::IdBad => DecodeFailure::IdBad,
            DecodeError::LastByteBad => DecodeFailure::LastByteBad,
            DecodeError::SpaceNotLow(event) => DecodeFailure::SpaceNotLow(*event),
            DecodeError::MultipleDifferentPackets(packets) => {
                DecodeFailure::MultipleDifferentPackets(packets@)
            },
        }
    }
}

/// The mathematical value of what a decoding step returns.
pub open spec fn outcome<T>(result: Result<T, DecodeError>) -> Result<T, DecodeFailure> {
    match result {
        Ok(value) => Ok(value),
        Err(error) => Err(error@),
    }
}

/// The family of the packet that begins at `at`, read from its opening mark.
pub open spec fn read_first_high(events: Seq<Event>, at: int) -> Result<RemoteType, DecodeFailure> {
    if at >= events.len() {
        Err(DecodeFailure::FirstHighMissing)
    } else if !events[at].is_on {
        Err(DecodeFailure::FirstHighBad)
    } else {
        match RemoteType::of_first_high(events[at].duration) {
            Some(remote_type) => Ok(remote_type),
            None => Err(DecodeFailure::FirstHighBad),
        }
    }
}

/// The opening space, expected at `at`.
pub open spec fn read_first_low(events: Seq<Event>, at: int) -> Result<(), DecodeFailure> {
    if at >= events.len() {
        Err(DecodeFailure::LengthBad)
    } else if events[at].is_on || !matches_timing(events[at].duration, FIRST_LOW_NANOS) {
        Err(DecodeFailure::FirstLowBad)
    } else {
        Ok(())
    }
}

/// A mark of the common length, expected at `at`.
pub open spec fn read_high(events: Seq<Event>, at: int) -> Result<(), DecodeFailure> {
    if at >= events.len() {
        Err(DecodeFailure::LengthBad)
    } else if !events[at].is_on {
        Err(DecodeFailure::HighNotHigh)
    } else if !matches_timing(events[at].duration, HIGH_NANOS) {
        Err(DecodeFailure::HighBad(events[at].duration))
    } else {
        Ok(())
    }
}

/// The data bit that the space at `at` carries: the length of a `0` is tried
/// before that of a `1`.
pub open spec fn read_low(events: Seq<Event>, at: int) -> Result<bool, DecodeFailure> {
    if at >= events.len() {
        Err(DecodeFailure::LengthBad)
    } else if events[at].is_on {
        Err(DecodeFailure::LowNotLow)
    } else if matches_timing(events[at].duration, LOW_0_NANOS) {
        Ok(false)
    } else if matches_timing(events[at].duration, LOW_1_NANOS) {
        Ok(true)
    } else {
        Err(DecodeFailure::LowBad(events[at].duration))
    }
}

/// The first `count` data bits of a packet whose bits begin at `at`, each
/// read from a mark and the space after it.
pub open spec fn read_bits(events: Seq<Event>, at: int, count: nat) -> Result<
    Seq<bool>,
    DecodeFailure,
>
    decreases count,
{
    if count == 0 {
        Ok(Seq::empty())
    } else {
        match read_bits(events, at, (count - 1) as nat) {
            Err(failure) => Err(failure),
            Ok(bits) => match read_high(events, at + 2 * (count - 1)) {
                Err(failure) => Err(failure),
                Ok(_) => match read_low(events, at + 2 * (count - 1) + 1) {
                    Err(failure) => Err(failure),
                    Ok(bit) => Ok(bits.push(bit)),
                },
            },
        }
    }
}

/// The packet of the family `remote_type` that the data bits `bits` spell:
/// the receiver id in the first sixteen bits, the button in the next eight,
/// and in the last eight a byte that must be the complement of the button.
pub open spec fn frame_packet(remote_type: RemoteType, bits: Seq<bool>) -> Result<
    IrPacket,
    DecodeFailure,
> {
    let button = field_value(bits, 16, 24) as u8;
    let last_byte = field_value(bits, 24, 32) as u8;
    if last_byte != !button {
        Err(DecodeFailure::LastByteBad)
    } else {
        Ok(IrPacket { remote_type, receiver_id: field_value(bits, 0, 16) as u16, button })
    }
}

/// The packet that begins at `at`: its header, its data bits, the closing
/// mark, and then the test of the last byte. It takes up the events from
/// `at` up to `at + PACKET_EVENTS`.
pub open spec fn read_packet(events: Seq<Event>, at: int) -> Result<IrPacket, DecodeFailure> {
    match read_first_high(events, at) {
        Err(failure) => Err(failure),
        Ok(remote_type) => match read_first_low(events, at + 1) {
            Err(failure) => Err(failure),
            Ok(_) => match read_bits(events, at + 2, FRAME_BITS as nat) {
                Err(failure) => Err(failure),
                Ok(bits) => match read_high(events, at + 2 + 2 * FRAME_BITS) {
                    Err(failure) => Err(failure),
                    Ok(_) => frame_packet(remote_type, bits),
                },
            },
        },
    }
}

/// The signal that the packets read so far and the gaps between them make,
/// once the events have come to their end: the packets must all be the same,
/// the number of sendings is the number of packets, and the pause is the
/// first gap, whatever the later ones are.
pub open spec fn finish(packets: Seq<IrPacket>, gaps: Seq<Duration>) -> Result<
    IrSignal,
    DecodeFailure,
> {
    if !all_equal(packets) {
        Err(DecodeFailure::MultipleDifferentPackets(packets))
    } else {
        Ok(
            IrSignal {
                packet: packets[0],
                repeat: if gaps.len() == 0 {
                    None
                } else {
                    Some(Repeat { times: packets.len() as usize, duration_between: gaps[0] })
                },
            },
        )
    }
}

/// The signal read from the events from `at` on, where `packets` and `gaps`
/// have been read before `at`: as long as events remain, a gap and a further
/// packet are read.
pub open spec fn read_repeats(
    events: Seq<Event>,
    at: int,
    packets: Seq<IrPacket>,
    gaps: Seq<Duration>,
) -> Result<IrSignal, DecodeFailure>
    decreases events.len() - at,
{
    if at >= events.len() {
        finish(packets, gaps)
    } else if events[at].is_on {
        Err(DecodeFailure::SpaceNotLow(events[at]))
    } else {
        match read_packet(events, at + 1) {
            Err(failure) => Err(failure),
            Ok(packet) => read_repeats(
                events,
                at + 1 + PACKET_EVENTS,
                packets.push(packet),
                gaps.push(events[at].duration),
            ),
        }
    }
}

/// The signal that `events` carry from their first to their last event.
pub open spec fn read_signal(events: Seq<Event>) -> Result<IrSignal, DecodeFailure> {
    match read_packet(events, 0) {
        Err(failure) => Err(failure),
        Ok(packet) => read_repeats(events, PACKET_EVENTS as int, seq![packet], Seq::empty()),
    }
}

/// Takes the mark of the common length at `at`.
fn consume_high(events: &[Event], at: usize) -> (result: Result<(), DecodeError>)
    ensures
        outcome(result) == read_high(events@, at as int),
{
    if at >= events.len() {
        return Err(DecodeError::LengthBad);
    }
    let high = events[at];
    if !high.is_on {
        return Err(DecodeError::HighNotHigh);
    }
    if !high.duration.is_around(Duration::from_nanos(HIGH_NANOS), ACCEPTABLE_ERROR_PERCENT) {
        return Err(DecodeError::HighBad(high.duration));
    }
    Ok(())
}

/// Takes the space at `at` and tells which data bit it carries.
fn consume_low(events: &[Event], at: usize) -> (result: Result<bool, DecodeError>)
    ensures
        outcome(result) == read_low(events@, at as int),
{
    if at >= events.len() {
        return Err(DecodeError::LengthBad);
    }
    let low = events[at];
    if low.is_on {
        return Err(DecodeError::LowNotLow);
    }
    if low.duration.is_around(Duration::from_nanos(LOW_0_NANOS), ACCEPTABLE_ERROR_PERCENT) {
        Ok(false)
    } else if low.duration.is_around(Duration::from_nanos(LOW_1_NANOS), ACCEPTABLE_ERROR_PERCENT) {
        Ok(true)
    } else {
        Err(DecodeError::LowBad(low.duration))
    }
}

impl IrPacket {
    /// Decodes the packet that begins at `start` and returns it with the
    /// position just past its last event.
    #[verifier::loop_isolation(false)]
    pub fn decode(events: &[Event], start: usize) -> (result: Result<
        (IrPacket, usize),
        DecodeError,
    >)
        ensures
            match result {
                Ok((packet, end)) => read_packet(events@, start as int) == Ok::<
                    IrPacket,
                    DecodeFailure,
                >(packet) && end == start + PACKET_EVENTS && end <= events@.len(),
                Err(error) => read_packet(events@, start as int) == Err::<IrPacket, DecodeFailure>(
                    error@,
                ),
            },
    {
        // Check for first two special events
        if start >= events.len() {
            return Err(DecodeError::FirstHighMissing);
        }
        let first_high = events[start];
        if !first_high.is_on {
            return Err(DecodeError::FirstHighBad);
        }
        let remote_type = match RemoteType::decode_first_high(first_high.duration) {
            Some(remote_type) => remote_type,
            None => {
                return Err(DecodeError::FirstHighBad);
            },
        };
        let mut at = start + 1;
        if at >= events.len() {
            return Err(DecodeError::LengthBad);
        }
        let first_low = events[at];
        if first_low.is_on {
            return Err(DecodeError::FirstLowBad);
        }
        if !first_low.duration.is_around(
            Duration::from_nanos(FIRST_LOW_NANOS),
            ACCEPTABLE_ERROR_PERCENT,
        ) {
            return Err(DecodeError::FirstLowBad);
        }
        at += 1;

        // Get actual bits
        let mut frame = Frame::zeroed();
        assert(frame_bits(frame).take(0) == Seq::<bool>::empty());
        for i in 0..FRAME_BITS
            invariant
                at == start + 2 + 2 * i,
                at <= events@.len(),
                frame_bits(frame).len() == FRAME_BITS,
                read_bits(events@, start + 2, i as nat) == Ok::<Seq<bool>, DecodeFailure>(
                    frame_bits(frame).take(i as int),
                ),
        {
            match consume_high(events, at) {
                Ok(_) => {},
                Err(error) => {
                    proof {
                        lemma_read_bits_stops(
                            events@,
                            start + 2,
                            (i + 1) as nat,
                            FRAME_BITS as nat,
                        );
                    }
                    return Err(error);
                },
            }
            at += 1;
            let bit = match consume_low(events, at) {
                Ok(bit) => bit,
                Err(error) => {
                    proof {
                        lemma_read_bits_stops(
                            events@,
                            start + 2,
                            (i + 1) as nat,
                            FRAME_BITS as nat,
                        );
                    }
                    return Err(error);
                },
            };
            at += 1;
            let ghost before = frame_bits(frame);
            frame.set(i, bit);
            assert(frame_bits(frame).take(i + 1) == before.take(i as int).push(bit));
        }
        assert(frame_bits(frame).take(FRAME_BITS as int) == frame_bits(frame));
        // Always one last high
        match consume_high(events, at) {
            Ok(_) => {},
            Err(error) => {
                return Err(error);
            },
        }
        at += 1;

        // Make sure 4th byte is 3rd byte inverted
        proof {
            lemma2_to64();
            lemma_field_value_bound(frame_bits(frame), 0, 16);
            lemma_field_value_bound(frame_bits(frame), 16, 24);
            lemma_field_value_bound(frame_bits(frame), 24, 32);
        }
        let receiver_id = frame.load(0, 16);
        let button = frame.load(16, 24) as u8;
        let last_byte = frame.load(24, 32) as u8;
        if last_byte != !button {
            return Err(DecodeError::LastByteBad);
        }
        Ok((IrPacket { remote_type, receiver_id, button }, at))
    }
}

/// Once the data bits cannot be read up to some count, they cannot be read
/// up to a larger one, and the failure is the same.
pub proof fn lemma_read_bits_stops(events: Seq<Event>, at: int, count: nat, more: nat)
    requires
        count <= more,
        read_bits(events, at, count) is Err,
    ensures
        read_bits(events, at, more) == read_bits(events, at, count),
    decreases more,
{
    if count < more {
        lemma_read_bits_stops(events, at, count, (more - 1) as nat);
    }
}

impl IrSignal {
    /// Decodes a signal from the whole of `events`: one packet, or several
    /// sendings of the same packet with a gap before each repetition.
    pub fn decode(events: &[Event]) -> (result: Result<IrSignal, DecodeError>)
        ensures
            outcome(result) == read_signal(events@),
    {
        let (first, end) = match IrPacket::decode(events, 0) {
            Ok(decoded) => decoded,
            Err(error) => {
                return Err(error);
            },
        };
        let mut at = end;
        let mut packets: Vec<IrPacket> = Vec::new();
        packets.push(first);
        let mut spaces: Vec<Duration> = Vec::new();
        while at < events.len()
            invariant
                at <= events@.len(),
                packets@.len() == spaces@.len() + 1,
                read_signal(events@) == read_repeats(events@, at as int, packets@, spaces@),
            decreases events@.len() - at,
        {
            let event = events[at];
            if event.is_on {
                return Err(DecodeError::SpaceNotLow(event));
            }
            spaces.push(event.duration);
            let (packet, end) = match IrPacket::decode(events, at + 1) {
                Ok(decoded) => decoded,
                Err(error) => {
                    return Err(error);
                },
            };
            packets.push(packet);
            at = end;
        }
        // Verify packets are all identical
        proof {
            lemma_neighbours_equal_is_all_equal(packets@);
        }
        if !packets.as_slice().are_all_equal() {
            return Err(DecodeError::MultipleDifferentPackets(packets));
        }
        Ok(
            IrSignal {
                packet: packets[0],
                repeat: if spaces.len() == 0 {
                    None
                } else {
                    Some(Repeat { times: packets.len(), duration_between: spaces[0] })
                },
            },
        )
    }
}

} // verus!
