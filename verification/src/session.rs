//! The decisions of the pinging client, one ping at a time: what to send,
//! and what to record and do once the reply, or its absence, is known.

use vstd::prelude::*;
use crate::wire::{SockAddr, AddrParseError, decode_addr, parse_socket_addr};
use crate::stats::{Sample, SampleView, Stats, window_push};

verus! {

/// The request byte of a ping: 1 asks the server to echo the client's own
/// address, which the client does until it has located itself; 0 otherwise.
pub fn ping_command(client_located: bool) -> (r: u8)
    ensures
        r == (if client_located { 0u8 } else { 1u8 }),
{
    if client_located {
        0
    } else {
        1
    }
}

/// What came of one ping.
pub enum PingOutcome {
    /// A datagram arrived: its bytes, whether it came from the pinged server,
    /// and the time since the ping was sent, in nanoseconds.
    Reply { data: Vec<u8>, from_server: bool, rtt_nanos: u64 },
    /// Receiving failed, or no reply came before the timeout.
    NoReply,
}

/// What the client does next, beside recording the ping.
pub enum PingAction {
    /// Nothing more.
    Nothing,
    /// Look up where the client is, from the address the server saw.
    LocateClient(SockAddr),
    /// Report an echoed address that could not be read.
    BadAddress(AddrParseError),
}

/// The round-trip time a ping is recorded with: the elapsed time of a reply
/// from the server, none otherwise.
pub open spec fn outcome_latency(o: &PingOutcome) -> Option<u64> {
    match o {
        PingOutcome::Reply { from_server, rtt_nanos, .. } => if *from_server {
            Some(*rtt_nanos)
        } else {
            None
        },
        PingOutcome::NoReply => None,
    }
}

/// Whether an outcome is a reply from the server that carries an echoed
/// address (its first byte is 1).
pub open spec fn carries_address(o: &PingOutcome) -> bool {
    match o {
        PingOutcome::Reply { data, from_server, .. } => *from_server && data@.len() > 0 && data@[0] == 1,
        PingOutcome::NoReply => false,
    }
}

/// The echoed address bytes of an outcome: a reply's bytes after the first.
pub open spec fn echoed_bytes(o: &PingOutcome) -> Seq<u8> {
    match o {
        PingOutcome::Reply { data, .. } => data@.drop_first(),
        PingOutcome::NoReply => seq![],
    }
}

/// The sample recorded for a ping: its send time with the outcome's
/// round-trip time.
pub open spec fn recorded_sample(sent: SampleView, o: &PingOutcome) -> SampleView {
    SampleView { secs: sent.secs, nanos: sent.nanos, latency_nanos: outcome_latency(o) }
}

impl Stats {
    /// Handles the outcome of the ping sent at `sent`'s send time: records it
    /// with its round-trip time (none unless the server answered), and when
    /// the server echoed the client's address, asks to locate the client by
    /// it or reports that it could not be read. A one-byte reply that asks
    /// for an address carries none to read.
    pub fn on_ping_outcome(&mut self, sent: Sample, outcome: &PingOutcome) -> (r: PingAction)
        requires
            old(self)@.total_sent < usize::MAX,
            !(carries_address(outcome) && echoed_bytes(outcome).len() == 0),
        ensures
            ({
                let o = old(self)@;
                exists|s: Sample| s@ == recorded_sample(sent@, outcome) && #[trigger] window_push(
                    o.entries,
                    o.max_entries,
                    s,
                ) == final(self)@.entries
            }),
            final(self)@.target == old(self)@.target,
            final(self)@.max_entries == old(self)@.max_entries,
            final(self)@.total_sent == old(self)@.total_sent + 1,
            carries_address(outcome) ==> match r {
                PingAction::LocateClient(a) => decode_addr(echoed_bytes(outcome)) == Some(a@),
                PingAction::BadAddress(_) => decode_addr(echoed_bytes(outcome)) is None,
                PingAction::Nothing => false,
            },
            !carries_address(outcome) ==> r is Nothing,
    {
        let (latency, action) = match outcome {
            PingOutcome::Reply { data, from_server, rtt_nanos } => {
                if *from_server {
                    let action = if data.len() > 0 && data[0] == 1 {
                        let echoed = vstd::slice::slice_subrange(data.as_slice(), 1, data.len());
                        assert(echoed@ =~= echoed_bytes(outcome));
                        match parse_socket_addr(echoed) {
                            Ok(a) => PingAction::LocateClient(a),
                            Err(e) => PingAction::BadAddress(e),
                        }
                    } else {
                        PingAction::Nothing
                    };
                    (Some(*rtt_nanos), action)
                } else {
                    (None, PingAction::Nothing)
                }
            },
            PingOutcome::NoReply => (None, PingAction::Nothing),
        };
        let s = sent.with_latency(latency);
        self.record(s);
        action
    }
}

} // verus!
