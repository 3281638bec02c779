//! Codec for infrared remote-control signals.
//!
//! A signal on the wire is a run of timed on/off pulses. This crate turns a
//! logical signal (receiver id, button code, optional repeat) into such a run
//! and back, and proves that the two directions agree.

use crate::duration::Duration;
use crate::ir_signal::encode::{bits_events, header_events, lemma_bits_events_len, PACKET_EVENTS};
use crate::ir_signal::frame::{lemma_bit_at_joined, lemma_bit_at_of_byte};
use crate::ir_signal::{
    IrPacket, RemoteType, FIRST_HIGH_GENERIC_NANOS, FIRST_LOW_NANOS, HIGH_NANOS, LOW_0_NANOS,
    LOW_1_NANOS,
};
use vstd::arithmetic::power2::lemma2_to64;
use vstd::prelude::*;

pub mod are_all_equal;
pub mod capture;
pub mod duration;
pub mod ir_signal;
pub mod is_around;

verus! {

/// The state of the output line.
#[derive(Debug, Clone, Copy, PartialEq, Eq, Structural)]
pub enum Level {
    Low,
    High,
}

/// One pulse, as the output line sees it: the line is held at `level` for
/// `duration`.
#[derive(Debug, Clone, Copy, PartialEq, Eq, Structural)]
pub struct Event {
    pub level: Level,
    pub duration: Duration,
}

impl Event {
    /// The pulse of the codec as the output line sees it: a mark holds the
    /// line high, a space holds it low.
    pub open spec fn of_pulse(pulse: ir_signal::Event) -> Event {
        Event {
            level: if pulse.is_on {
                Level::High
            } else {
                Level::Low
            },
            duration: pulse.duration,
        }
    }

    /// The pulses of the codec, each as the output line sees it.
    pub open spec fn of_pulses(pulses: Seq<ir_signal::Event>) -> Seq<Event> {
        Seq::new(pulses.len(), |i: int| Event::of_pulse(pulses[i]))
    }
}

impl vstd::std_specs::convert::FromSpecImpl<ir_signal::Event> for Event {
    open spec fn obeys_from_spec() -> bool {
        true
    }

    open spec fn from_spec(pulse: ir_signal::Event) -> Self {
        Event::of_pulse(pulse)
    }
}

impl From<ir_signal::Event> for Event {
    /// The pulse as the output line sees it.
    fn from(pulse: ir_signal::Event) -> (event: Self) {
        Event {
            level: if pulse.is_on {
                Level::High
            } else {
                Level::Low
            },
            duration: pulse.duration,
        }
    }
}

/// A generic remote, known by the two bytes of its receiver id.
pub struct Remote {
    pub id: [u8; 2],
}

impl Remote {
    /// The packet that this remote sends for the button `data`: the first
    /// byte of the id is the high byte of the receiver id.
    pub open spec fn packet(&self, data: u8) -> IrPacket {
        IrPacket {
            remote_type: RemoteType::Generic,
            receiver_id: (self.id[0] * 256 + self.id[1]) as u16,
            button: data,
        }
    }

    /// Encodes the button `data` as line levels: the events of the packet
    /// that this remote sends for it, 67 in all.
    pub fn encode(&self, data: u8) -> (events: Vec<Event>)
        ensures
            events@ == Event::of_pulses(self.packet(data).events()),
            events@.len() == PACKET_EVENTS,
    {
        let first_high_duration = Duration::from_nanos(FIRST_HIGH_GENERIC_NANOS);
        let first_low_duration = Duration::from_nanos(FIRST_LOW_NANOS);

        let high_duration = Duration::from_nanos(HIGH_NANOS);
        let low_0_duration = Duration::from_nanos(LOW_0_NANOS);
        let low_1_duration = Duration::from_nanos(LOW_1_NANOS);

        let mut events: Vec<Event> = Vec::new();
        events.push(Event { level: Level::High, duration: first_high_duration });
        events.push(Event { level: Level::Low, duration: first_low_duration });

        let ghost packet = self.packet(data);
        let ghost frame = packet.frame();
        let ghost header = header_events(RemoteType::Generic);
        assert(events@ == Event::of_pulses(header + bits_events(frame.take(0))));

        let bytes = [self.id[0], self.id[1], data, !data];
        for b in 0..4
            invariant
                packet == self.packet(data),
                frame == packet.frame(),
                header == header_events(RemoteType::Generic),
                bytes[0] == self.id[0],
                bytes[1] == self.id[1],
                bytes[2] == data,
                bytes[3] == !data,
                events@ == Event::of_pulses(header + bits_events(frame.take(8 * b))),
                high_duration == (Duration { nanos: HIGH_NANOS }),
                low_0_duration == (Duration { nanos: LOW_0_NANOS }),
                low_1_duration == (Duration { nanos: LOW_1_NANOS }),
        {
            let byte = bytes[b];
            for i in 0..8
                invariant
                    b < 4,
                    byte == bytes[b as int],
                    packet == self.packet(data),
                    frame == packet.frame(),
                    header == header_events(RemoteType::Generic),
                    bytes[0] == self.id[0],
                    bytes[1] == self.id[1],
                    bytes[2] == data,
                    bytes[3] == !data,
                    events@ == Event::of_pulses(header + bits_events(frame.take(8 * b + i))),
                    high_duration == (Duration { nanos: HIGH_NANOS }),
                    low_0_duration == (Duration { nanos: LOW_0_NANOS }),
                    low_1_duration == (Duration { nanos: LOW_1_NANOS }),
            {
                let place: u8 = 7 - i as u8;
                let bit = byte & (1u8 << place) != 0;
                proof {
                    lemma2_to64();
                    lemma_bit_at_of_byte(byte, place);
                    lemma_bit_at_joined(self.id[0] as nat, self.id[1] as nat, 8, (15 - i) as nat);
                    lemma_bit_at_joined(self.id[0] as nat, self.id[1] as nat, 8, (7 - i) as nat);
                    assert(bit == frame[8 * b + i]);
                    let next = frame.take(8 * b + i + 1);
                    assert(next.drop_last() == frame.take(8 * b + i));
                    assert(next.last() == bit);
                }
                events.push(Event { level: Level::High, duration: high_duration });
                events.push(
                    Event {
                        level: Level::Low,
                        duration: match bit {
                            true => low_1_duration,
                            false => low_0_duration,
                        },
                    },
                );
            }
        }
        events.push(Event { level: Level::High, duration: high_duration });
        assert(frame.take(32) == frame);
        proof {
            lemma_bits_events_len(frame);
        }
        events
    }
}

} // verus!
