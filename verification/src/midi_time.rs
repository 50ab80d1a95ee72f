//! MIDI input and its timing: parsing what the device sends and counting its
//! timestamps from the first one, placing a device timestamp on the session clock,
//! and turning a session time into a sample offset within the block being
//! processed.  Session times are in nanoseconds.

use vstd::prelude::*;
use crate::node::GraphConnection;

verus! {

/// Nanoseconds per second.
pub const NANOS_PER_SECOND: u128 = 1_000_000_000u128;

/// Nanoseconds per microsecond.
pub const NANOS_PER_MICRO: u128 = 1_000u128;

/// The largest time a `std::time::Duration` holds, in nanoseconds.
pub const MAX_DURATION_NANOS: u128 = 18_446_744_073_709_551_615_999_999_999u128;

/// What `wmidi` makes of the bytes of one MIDI message from the device: the
/// message parsed by `MidiMessage::try_from`, kept only where
/// `drop_unowned_sysex` keeps it (a system-exclusive message that borrows the
/// device's buffer is dropped), and written back as bytes by
/// `copy_to_slice`; `None` where either step gives nothing.
pub uninterp spec fn midi_owned_message(data: Seq<u8>) -> Option<Seq<u8>>;

/// Calls `wmidi::MidiMessage::try_from` on the bytes, then
/// `drop_unowned_sysex`, and hands the message back as its bytes
/// (`bytes_size`, `copy_to_slice` into a buffer of that size, which cannot
/// fail).  The result is named, not stated: the parse covers every MIDI
/// message kind.
#[verifier::external_body]
fn parse_owned_midi(data: &[u8]) -> (m: Option<Vec<u8>>)
    ensures
        m is None <==> midi_owned_message(data@) is None,
        m matches Some(b) ==> midi_owned_message(data@) == Some(b@),
{
    let message = wmidi::MidiMessage::try_from(data).ok()?.drop_unowned_sysex()?;
    let mut bytes = vec![0u8; message.bytes_size()];
    message.copy_to_slice(&mut bytes).ok()?;
    Some(bytes)
}

/// Receives one message from the MIDI device: the first timestamp seen is
/// remembered in `first`, and a message that parses comes back with its
/// timestamp counted from that first one; one that does not parse is
/// dropped.  Device timestamps never go backwards.
pub fn receive_event(first: &mut Option<u64>, timestamp: u64, data: &[u8]) -> (ev: Option<(u64, Vec<u8>)>)
    requires
        *old(first) matches Some(f) ==> f <= timestamp,
    ensures
        *final(first) == match *old(first) {
            Some(f) => Some(f),
            None => Some(timestamp),
        },
        match midi_owned_message(data@) {
            None => ev is None,
            Some(bytes) => ev matches Some((t, b)) && b@ == bytes && t == timestamp - final(first).unwrap(),
        },
{
    let first_timestamp = match *first {
        Some(f) => f,
        None => {
            *first = Some(timestamp);
            timestamp
        },
    };
    match parse_owned_midi(data) {
        Some(bytes) => Some((timestamp - first_timestamp, bytes)),
        None => None,
    }
}

/// Places device timestamps (microseconds from an arbitrary start, never
/// decreasing) on the session clock: the first event seen is taken to have
/// happened at the session time it was received.
pub struct MidiClock {
    pub first_event_timestamp: Option<(u64, u128)>,
}

/// The session time of an event stamped `event` when the first event was
/// stamped `first_event` and received at session time `first_session`; never
/// earlier than `now`.
pub open spec fn session_time_of(first_event: u64, first_session: u128, event: u64, now: u128) -> int {
    let t = first_session + (event - first_event) * NANOS_PER_MICRO;
    if t < now {
        now as int
    } else {
        t
    }
}

impl MidiClock {
    pub fn new() -> (c: Self)
        ensures
            c.first_event_timestamp is None,
    {
        MidiClock { first_event_timestamp: None }
    }

    /// The session time of an event stamped `event_timestamp`, received while
    /// processing the block that starts at session time `now`.
    pub fn session_time(&mut self, event_timestamp: u64, now: u128) -> (t: u128)
        requires
            now <= MAX_DURATION_NANOS,
            old(self).first_event_timestamp matches Some((first, start)) ==> {
                &&& first <= event_timestamp
                &&& start + (event_timestamp - first) * NANOS_PER_MICRO <= MAX_DURATION_NANOS
            },
        ensures
            final(self).first_event_timestamp == match old(self).first_event_timestamp {
                Some(f) => Some(f),
                None => Some((event_timestamp, now)),
            },
            ({
                let (first, start) = final(self).first_event_timestamp.unwrap();
                t == session_time_of(first, start, event_timestamp, now)
            }),
    {
        let (first, start) = match self.first_event_timestamp {
            Some(f) => f,
            None => {
                self.first_event_timestamp = Some((event_timestamp, now));
                (event_timestamp, now)
            },
        };
        let since = (event_timestamp - first) as u128;
        let t = start + since * NANOS_PER_MICRO;
        if t < now {
            now
        } else {
            t
        }
    }
}

/// The offset, in samples at `sample_rate`, of an event at session time
/// `event` within the block that starts at `now`: the product saturates at
/// the largest `u128`, and the division rounds down.
pub open spec fn sample_offset_of(sample_rate: u32, event: u128, now: u128) -> int {
    let product = sample_rate * (event - now);
    let saturated = if product > u128::MAX { u128::MAX as int } else { product };
    saturated / NANOS_PER_SECOND as int
}

/// The sample offset of an event within the block being processed.
pub fn sample_offset(sample_rate: u32, event: u128, now: u128) -> (offset: u32)
    requires
        event >= now,
        sample_offset_of(sample_rate, event, now) <= u32::MAX,
    ensures
        offset == sample_offset_of(sample_rate, event, now),
{
    let diff = event - now;
    let product = match (sample_rate as u128).checked_mul(diff) {
        Some(p) => p,
        None => u128::MAX,
    };
    let samples = product / NANOS_PER_SECOND;
    samples as u32
}

/// Where a plugin's events come from: the one event connection of its node,
/// if it has one.
pub fn event_source(connections: &Vec<GraphConnection>) -> (source: Option<(usize, u16)>)
    requires
        connections@.len() <= 1,
    ensures
        connections@.len() == 0 ==> source is None,
        connections@.len() == 1 ==> source == Some((connections@[0].src, connections@[0].src_channel)),
{
    if connections.len() == 0 {
        None
    } else {
        Some((connections[0].src, connections[0].src_channel))
    }
}

} // verus!
