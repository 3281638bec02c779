//! From a logical signal to the pulses that carry it.

use super::frame::{bit_at, Frame, FRAME_BITS};
use super::{
    Event, IrPacket, IrSignal, RemoteType, FIRST_LOW_NANOS, HIGH_NANOS, LOW_0_NANOS, LOW_1_NANOS,
};
use crate::duration::Duration;
use vstd::prelude::*;

verus! {

/// Number of events in one packet: the opening mark and space, a mark and a
/// space for each data bit, and the closing mark.
pub const PACKET_EVENTS: usize = 67;

/// A mark of `nanos` nanoseconds.
pub open spec fn mark(nanos: u64) -> Event {
    Event { is_on: true, duration: Duration { nanos } }
}

/// A space of `nanos` nanoseconds.
pub open spec fn space(nanos: u64) -> Event {
    Event { is_on: false, duration: Duration { nanos } }
}

/// The space that tells a `1` from a `0`.
pub open spec fn bit_space(bit: bool) -> Event {
    space(if bit { LOW_1_NANOS } else { LOW_0_NANOS })
}

/// The mark and the space that carry one data bit.
pub open spec fn bit_events(bit: bool) -> Seq<Event> {
    seq![mark(HIGH_NANOS), bit_space(bit)]
}

/// The events that carry `bits`, one bit after the other.
pub open spec fn bits_events(bits: Seq<bool>) -> Seq<Event>
    decreases bits.len(),
{
    if bits.len() == 0 {
        Seq::empty()
    } else {
        bits_events(bits.drop_last()) + bit_events(bits.last())
    }
}

/// The opening mark and space of a packet of the family `remote_type`.
pub open spec fn header_events(remote_type: RemoteType) -> Seq<Event> {
    seq![Event { is_on: true, duration: remote_type.first_high() }, space(FIRST_LOW_NANOS)]
}

/// The events of a packet of the family `remote_type` whose data bits are
/// `bits`: the header, the bits, and the closing mark.
pub open spec fn frame_events(remote_type: RemoteType, bits: Seq<bool>) -> Seq<Event> {
    header_events(remote_type) + bits_events(bits) + seq![mark(HIGH_NANOS)]
}

/// `copies` sendings of `packet`, with `gap` between each two of them; never
/// fewer than one sending.
pub open spec fn repeated(packet: Seq<Event>, gap: Event, copies: nat) -> Seq<Event>
    decreases copies,
{
    if copies <= 1 {
        packet
    } else {
        repeated(packet, gap, (copies - 1) as nat) + seq![gap] + packet
    }
}

/// Each bit takes two events.
pub proof fn lemma_bits_events_len(bits: Seq<bool>)
    ensures
        bits_events(bits).len() == 2 * bits.len(),
    decreases bits.len(),
{
    if bits.len() > 0 {
        lemma_bits_events_len(bits.drop_last());
    }
}

/// Every repetition begins with the packet itself, and each further sending
/// adds the gap and the packet to its length.
pub proof fn lemma_repeated_begins_with_packet(packet: Seq<Event>, gap: Event, copies: nat)
    ensures
        copies <= 1 ==> repeated(packet, gap, copies).len() == packet.len(),
        copies >= 1 ==> repeated(packet, gap, copies).len() == copies * (packet.len() + 1) - 1,
        repeated(packet, gap, copies).take(packet.len() as int) == packet,
    decreases copies,
{
    if copies > 1 {
        lemma_repeated_begins_with_packet(packet, gap, (copies - 1) as nat);
        let shorter = repeated(packet, gap, (copies - 1) as nat);
        assert(shorter.take(packet.len() as int) == packet);
        assert((shorter + seq![gap] + packet).take(packet.len() as int) =~= shorter.take(
            packet.len() as int,
        ));
        assert(copies * (packet.len() + 1) == (copies - 1) * (packet.len() + 1) + (packet.len()
            + 1)) by (nonlinear_arith);
    } else {
        assert(packet.take(packet.len() as int) =~= packet);
        assert(copies == 1 ==> copies * (packet.len() + 1) == packet.len() + 1) by (
            nonlinear_arith
        );
    }
}

impl IrPacket {
    /// The data bits of the packet in the order of transmission: the
    /// receiver id, the button, and the complement of the button, each with
    /// its most significant bit first.
    pub open spec fn frame(self) -> Seq<bool> {
        Seq::new(
            FRAME_BITS as nat,
            |i: int|
                if i < 16 {
                    bit_at(self.receiver_id as nat, (15 - i) as nat)
                } else if i < 24 {
                    bit_at(self.button as nat, (23 - i) as nat)
                } else {
                    bit_at((!self.button) as nat, (31 - i) as nat)
                },
        )
    }

    /// The events that carry the packet.
    pub open spec fn events(self) -> Seq<Event> {
        frame_events(self.remote_type, self.frame())
    }

    /// Encodes the packet as the events that carry it, 67 in all.
    pub fn encode(&self) -> (events: Vec<Event>)
        ensures
            events@ == self.events(),
            events@.len() == PACKET_EVENTS,
    {
        let first_high_duration = self.remote_type.get_first_high_duration();
        let first_low_duration = Duration::from_nanos(FIRST_LOW_NANOS);

        let high_duration = Duration::from_nanos(HIGH_NANOS);
        let low_0_duration = Duration::from_nanos(LOW_0_NANOS);
        let low_1_duration = Duration::from_nanos(LOW_1_NANOS);

        let mut events: Vec<Event> = Vec::new();
        events.push(Event { is_on: true, duration: first_high_duration });
        events.push(Event { is_on: false, duration: first_low_duration });
        assert(events@ == header_events(self.remote_type));

        let mut frame = Frame::zeroed();
        frame.store(0, 16, self.receiver_id);
        frame.store(16, 24, self.button as u16);
        frame.store(24, 32, (!self.button) as u16);
        let bits = frame.into_bits();
        assert(bits@ == self.frame());

        for i in 0..bits.len()
            invariant
                events@ == header_events(self.remote_type) + bits_events(bits@.take(i as int)),
                high_duration == (Duration { nanos: HIGH_NANOS }),
                low_0_duration == (Duration { nanos: LOW_0_NANOS }),
                low_1_duration == (Duration { nanos: LOW_1_NANOS }),
        {
            let bit = bits[i];
            events.push(Event { is_on: true, duration: high_duration });
            events.push(
                Event {
                    is_on: false,
                    duration: match bit {
                        true => low_1_duration,
                        false => low_0_duration,
                    },
                },
            );
            proof {
                let next = bits@.take(i + 1);
                assert(next.drop_last() == bits@.take(i as int));
                assert(next.last() == bit);
            }
        }
        events.push(Event { is_on: true, duration: high_duration });
        assert(bits@.take(bits.len() as int) == bits@);
        proof {
            lemma_bits_events_len(bits@);
        }
        events
    }
}

impl IrSignal {
    /// The events that carry the signal: the packet, sent `times` times in
    /// all with a space of `duration_between` before each repetition, or
    /// once where there is no repeat.
    pub open spec fn events(self) -> Seq<Event> {
        match self.repeat {
            None => self.packet.events(),
            Some(repeat) => repeated(
                self.packet.events(),
                Event { is_on: false, duration: repeat.duration_between },
                repeat.times as nat,
            ),
        }
    }

    /// Encodes the signal as the events that carry it.
    pub fn encode(&self) -> (events: Vec<Event>)
        ensures
            events@ == self.events(),
    {
        let mut events = self.packet.encode();
        if let Some(repeat) = self.repeat {
            let packet_size = events.len();
            let times_left = if repeat.times == 0 {
                0
            } else {
                repeat.times - 1
            };
            let gap = Event { is_on: false, duration: repeat.duration_between };
            for sent in 0..times_left
                invariant
                    packet_size == self.packet.events().len(),
                    times_left < repeat.times || times_left == 0,
                    events@ == repeated(self.packet.events(), gap, (sent + 1) as nat),
            {
                events.push(gap);
                let ghost before = events@;
                proof {
                    lemma_repeated_begins_with_packet(
                        self.packet.events(),
                        gap,
                        (sent + 1) as nat,
                    );
                }
                for j in 0..packet_size
                    invariant
                        packet_size == self.packet.events().len(),
                        before.len() >= packet_size,
                        before.take(packet_size as int) == self.packet.events(),
                        events@ == before + self.packet.events().take(j as int),
                {
                    let event = events[j];
                    events.push(event);
                }
                assert(self.packet.events().take(packet_size as int) == self.packet.events());
            }
        }
        events
    }
}

} // verus!
