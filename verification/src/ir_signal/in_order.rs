//! Decoding reads the events in the order of their arrival and never looks
//! ahead: what it has made of the events so far does not depend on the
//! events that follow, unless it has come to the end of them.

use super::decode::{
    read_bits, read_first_high, read_first_low, read_high, read_low, read_packet, read_repeats,
    read_signal, DecodeFailure,
};
use super::encode::PACKET_EVENTS;
use super::frame::FRAME_BITS;
use super::{Event, IrPacket};
use crate::duration::Duration;
use vstd::prelude::*;

verus! {

/// Whether a reading step failed for want of an event.
pub open spec fn ran_out<T>(result: Result<T, DecodeFailure>) -> bool {
    result matches Err(failure) && (failure is LengthBad || failure is FirstHighMissing)
}

/// Reading data bits, unless it runs out of events, gives the same whatever
/// follows the events.
proof fn lemma_read_bits_in_order(events: Seq<Event>, more: Seq<Event>, at: int, count: nat)
    requires
        0 <= at,
        !ran_out(read_bits(events, at, count)),
    ensures
        read_bits(events + more, at, count) == read_bits(events, at, count),
    decreases count,
{
    if count > 0 {
        let before = (count - 1) as nat;
        let high = at + 2 * (count - 1);
        if read_bits(events, at, before) is Ok {
            lemma_read_bits_in_order(events, more, at, before);
            if read_high(events, high) is Ok {
                assert((events + more)[high] == events[high]);
                assert(!ran_out(read_low(events, high + 1)));
                assert((events + more)[high + 1] == events[high + 1]);
            } else {
                assert(!ran_out(read_high(events, high)));
                assert((events + more)[high] == events[high]);
            }
        } else {
            lemma_read_bits_in_order(events, more, at, before);
        }
    }
}

/// Reading a packet, unless it runs out of events, gives the same whatever
/// follows the events; and a packet that is read lies within the events.
pub proof fn lemma_read_packet_in_order(events: Seq<Event>, more: Seq<Event>, at: int)
    requires
        0 <= at,
        !ran_out(read_packet(events, at)),
    ensures
        read_packet(events + more, at) == read_packet(events, at),
        read_packet(events, at) is Ok ==> at + PACKET_EVENTS <= events.len(),
{
    let longer = events + more;
    assert(!ran_out(read_first_high(events, at)));
    assert(longer[at] == events[at]);
    if read_first_high(events, at) is Ok {
        assert(!ran_out(read_first_low(events, at + 1)));
        assert(longer[at + 1] == events[at + 1]);
        if read_first_low(events, at + 1) is Ok {
            lemma_read_bits_in_order(events, more, at + 2, FRAME_BITS as nat);
            if read_bits(events, at + 2, FRAME_BITS as nat) is Ok {
                let last = at + 2 + 2 * FRAME_BITS;
                assert(!ran_out(read_high(events, last)));
                assert(longer[last] == events[last]);
            }
        }
    }
}

/// Reading the repetitions of a packet, once it has refused the events for
/// an event that is there, refuses them for the same reason whatever
/// follows.
proof fn lemma_read_repeats_in_order(
    events: Seq<Event>,
    more: Seq<Event>,
    at: int,
    packets: Seq<IrPacket>,
    gaps: Seq<Duration>,
)
    requires
        0 <= at,
        read_repeats(events, at, packets, gaps) is Err,
        !ran_out(read_repeats(events, at, packets, gaps)),
        !(read_repeats(events, at, packets, gaps) matches Err(failure)
            && failure is MultipleDifferentPackets),
    ensures
        read_repeats(events + more, at, packets, gaps) == read_repeats(events, at, packets, gaps),
    decreases events.len() - at,
{
    let longer = events + more;
    if at < events.len() {
        assert(longer[at] == events[at]);
        if !events[at].is_on {
            lemma_read_packet_in_order(events, more, at + 1);
            if let Ok(packet) = read_packet(events, at + 1) {
                lemma_read_repeats_in_order(
                    events,
                    more,
                    at + 1 + PACKET_EVENTS,
                    packets.push(packet),
                    gaps.push(events[at].duration),
                );
            }
        }
    }
}

/// A run of events that is refused for an event that is there (and not for
/// their end, nor for the packets that differ when the end is reached) is
/// refused for the same reason whatever events follow it.
pub proof fn lemma_refusal_stands(events: Seq<Event>, more: Seq<Event>)
    requires
        read_signal(events) is Err,
        !ran_out(read_signal(events)),
        !(read_signal(events) matches Err(failure) && failure is MultipleDifferentPackets),
    ensures
        read_signal(events + more) == read_signal(events),
{
    lemma_read_packet_in_order(events, more, 0);
    if let Ok(packet) = read_packet(events, 0) {
        lemma_read_repeats_in_order(
            events,
            more,
            PACKET_EVENTS as int,
            seq![packet],
            Seq::empty(),
        );
    }
}

} // verus!
