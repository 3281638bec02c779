//! The logical model of a remote-control signal and its pulse timings.

use crate::duration::Duration;
use crate::is_around::IsAround;
use vstd::prelude::*;
use vstd::std_specs::cmp::PartialEqSpecImpl;

pub mod decode;
pub mod encode;
pub mod frame;
pub mod in_order;
pub mod round_trip;

verus! {

/// Length of the mark that opens a packet of a generic remote.
pub const FIRST_HIGH_GENERIC_NANOS: u64 = 9_108_749;

/// Length of the mark that opens a packet of a Samsung remote.
pub const FIRST_HIGH_SAMSUNG_NANOS: u64 = 4_413_791;

/// Length of the space that follows the opening mark.
pub const FIRST_LOW_NANOS: u64 = 4_424_661;

/// Length of the mark that precedes every data bit and closes the packet.
pub const HIGH_NANOS: u64 = 627_288;

/// Length of the space that encodes a `0` bit.
pub const LOW_0_NANOS: u64 = 503_018;

/// Length of the space that encodes a `1` bit.
pub const LOW_1_NANOS: u64 = 1_632_658;

/// Error margin, in percent, within which a measured pulse matches a nominal
/// timing.
pub const ACCEPTABLE_ERROR_PERCENT: u32 = 20;

/// One pulse: the line is on (a mark) or off (a space) for `duration`.
#[derive(Debug, Clone, Copy, PartialEq, Eq, Structural)]
pub struct Event {
    pub is_on: bool,
    pub duration: Duration,
}

/// The family of remotes, told apart by the length of the opening mark.
#[derive(Debug, Clone, Copy, PartialEq, Eq, Structural)]
pub enum RemoteType {
    Generic,
    Samsung,
}

/// Whether `duration` matches the nominal timing of `nanos` nanoseconds.
pub open spec fn matches_timing(duration: Duration, nanos: u64) -> bool {
    duration.around(Duration { nanos }, ACCEPTABLE_ERROR_PERCENT)
}

impl RemoteType {
    /// The nominal length of the opening mark of this family.
    pub open spec fn first_high(self) -> Duration {
        match self {
            RemoteType::Generic => Duration { nanos: FIRST_HIGH_GENERIC_NANOS },
            RemoteType::Samsung => Duration { nanos: FIRST_HIGH_SAMSUNG_NANOS },
        }
    }

    /// The family whose opening mark `duration` matches: the families are
    /// tried in the order of their declaration and the first match wins.
    pub open spec fn of_first_high(duration: Duration) -> Option<RemoteType> {
        if matches_timing(duration, FIRST_HIGH_GENERIC_NANOS) {
            Some(RemoteType::Generic)
        } else if matches_timing(duration, FIRST_HIGH_SAMSUNG_NANOS) {
            Some(RemoteType::Samsung)
        } else {
            None
        }
    }

    /// Classifies the opening mark of a packet by its length.
    pub fn decode_first_high(duration: Duration) -> (remote_type: Option<RemoteType>)
        ensures
            remote_type == RemoteType::of_first_high(duration),
    {
        if duration.is_around(
            Duration::from_nanos(FIRST_HIGH_GENERIC_NANOS),
            ACCEPTABLE_ERROR_PERCENT,
        ) {
            Some(RemoteType::Generic)
        } else if duration.is_around(
            Duration::from_nanos(FIRST_HIGH_SAMSUNG_NANOS),
            ACCEPTABLE_ERROR_PERCENT,
        ) {
            Some(RemoteType::Samsung)
        } else {
            None
        }
    }

    /// The length of the opening mark that this family sends.
    pub fn get_first_high_duration(&self) -> (duration: Duration)
        ensures
            duration == self.first_high(),
    {
        match self {
            RemoteType::Generic => Duration::from_nanos(FIRST_HIGH_GENERIC_NANOS),
            RemoteType::Samsung => Duration::from_nanos(FIRST_HIGH_SAMSUNG_NANOS),
        }
    }
}

/// The tolerance windows of the two families do not overlap, so an opening
/// mark matches at most one of them, and each nominal length is classified as
/// its own family.
pub proof fn lemma_first_high_unambiguous(duration: Duration, remote_type: RemoteType)
    ensures
        !(matches_timing(duration, FIRST_HIGH_GENERIC_NANOS) && matches_timing(
            duration,
            FIRST_HIGH_SAMSUNG_NANOS,
        )),
        RemoteType::of_first_high(remote_type.first_high()) == Some(remote_type),
{
}

/// How often a packet is sent in all, and the pause between two sendings.
#[derive(Debug, Clone, Copy, PartialEq, Eq, Structural)]
pub struct Repeat {
    /// Total number of times to send the message
    pub times: usize,
    pub duration_between: Duration,
}

/// The payload of one transmission. Two packets are equal where all three
/// fields are.
#[derive(Debug, Clone, Copy, Eq)]
pub struct IrPacket {
    pub remote_type: RemoteType,
    pub receiver_id: u16,
    pub button: u8,
}

impl PartialEq for IrPacket {
    fn eq(&self, other: &Self) -> (equal: bool) {
        self.remote_type == other.remote_type && self.receiver_id == other.receiver_id
            && self.button == other.button
    }
}

impl PartialEqSpecImpl for IrPacket {
    open spec fn obeys_eq_spec() -> bool {
        true
    }

    open spec fn eq_spec(&self, other: &Self) -> bool {
        self.remote_type == other.remote_type && self.receiver_id == other.receiver_id
            && self.button == other.button
    }
}

/// A packet together with the way it is repeated; no `repeat` means that the
/// packet is sent once.
#[derive(Debug, Clone, Copy, PartialEq, Eq)]
pub struct IrSignal {
    pub packet: IrPacket,
    pub repeat: Option<Repeat>,
}

/// A packet with its numbers written out in hexadecimal, for display.
#[derive(Debug)]
pub struct IrPacketDebug {
    pub remote_type: RemoteType,
    pub receiver_id: String,
    pub button: String,
}

/// The upper-case hexadecimal digit of a number below sixteen.
pub open spec fn hex_digit(value: nat) -> char {
    let digits = seq!['0', '1', '2', '3', '4', '5', '6', '7', '8', '9', 'A', 'B', 'C', 'D', 'E', 'F'];
    digits[value as int]
}

/// The last `digits` hexadecimal digits of `value`, padded with zeros.
pub open spec fn hex_digits(value: nat, digits: nat) -> Seq<char>
    decreases digits,
{
    if digits == 0 {
        Seq::empty()
    } else {
        hex_digits(value / 16, (digits - 1) as nat).push(hex_digit(value % 16))
    }
}

/// `value` in hexadecimal with `digits` digits after the prefix `0x`.
pub open spec fn hex_text(value: nat, digits: nat) -> Seq<char> {
    seq!['0', 'x'] + hex_digits(value, digits)
}

/// The digit of a number below sixteen, as text.
fn hex_digit_text(value: u16) -> (text: &'static str)
    requires
        value < 16,
    ensures
        text@ == seq![hex_digit(value as nat)],
{
    proof {
        reveal_strlit("0");
        reveal_strlit("1");
        reveal_strlit("2");
        reveal_strlit("3");
        reveal_strlit("4");
        reveal_strlit("5");
        reveal_strlit("6");
        reveal_strlit("7");
        reveal_strlit("8");
        reveal_strlit("9");
        reveal_strlit("A");
        reveal_strlit("B");
        reveal_strlit("C");
        reveal_strlit("D");
        reveal_strlit("E");
        reveal_strlit("F");
    }
    let text = match value {
        0 => "0",
        1 => "1",
        2 => "2",
        3 => "3",
        4 => "4",
        5 => "5",
        6 => "6",
        7 => "7",
        8 => "8",
        9 => "9",
        10 => "A",
        11 => "B",
        12 => "C",
        13 => "D",
        14 => "E",
        _ => "F",
    };
    assert(text@ =~= seq![hex_digit(value as nat)]);
    text
}

/// Appends the last `digits` hexadecimal digits of `value` to `text`.
fn append_hex_digits(text: &mut String, value: u16, digits: u8)
    ensures
        final(text)@ == old(text)@ + hex_digits(value as nat, digits as nat),
    decreases digits,
{
    if digits > 0 {
        append_hex_digits(text, value / 16, digits - 1);
        text.append(hex_digit_text(value % 16));
    }
}

/// Writes `value` in hexadecimal with `digits` digits after the prefix `0x`.
fn to_hex(value: u16, digits: u8) -> (text: String)
    ensures
        text@ == hex_text(value as nat, digits as nat),
{
    let mut text = String::from_str("0x");
    proof {
        reveal_strlit("0x");
    }
    assert(text@ == seq!['0', 'x']);
    append_hex_digits(&mut text, value, digits);
    text
}

/// What the conversion gives is stated by the `ensures` of `from`, over the
/// views of the strings: ghost code cannot build a `String`, so `from_spec`
/// has nothing to say.
impl vstd::std_specs::convert::FromSpecImpl<&IrPacket> for IrPacketDebug {
    open spec fn obeys_from_spec() -> bool {
        false
    }

    open spec fn from_spec(value: &IrPacket) -> Self {
        arbitrary()
    }
}

impl From<&IrPacket> for IrPacketDebug {
    /// The receiver id is written with four digits, the button with two.
    fn from(value: &IrPacket) -> (debug: Self)
        ensures
            debug.remote_type == value.remote_type,
            debug.receiver_id@ == hex_text(value.receiver_id as nat, 4),
            debug.button@ == hex_text(value.button as nat, 2),
    {
        Self {
            remote_type: value.remote_type,
            receiver_id: to_hex(value.receiver_id, 4),
            button: to_hex(value.button as u16, 2),
        }
    }
}

} // verus!
