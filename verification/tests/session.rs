use omni_ping::session::{ping_command, PingAction, PingOutcome};
use omni_ping::stats::{Sample, Stats};
use omni_ping::wire::{AddrParseError, SockAddr};

const T0: i64 = 1_700_000_000;

#[test]
fn client_asks_for_its_address_until_located() {
    assert_eq!(ping_command(false), 1);
    assert_eq!(ping_command(true), 0);
}

#[test]
fn echoed_address_is_recorded_and_located() {
    let mut st = Stats::new("srv", 10);
    let sent = Sample::new(T0, 0, None).unwrap();
    let outcome = PingOutcome::Reply {
        data: vec![1, 0, 198, 51, 100, 7, 0x13, 0x88],
        from_server: true,
        rtt_nanos: 12_345,
    };
    match st.on_ping_outcome(sent, &outcome) {
        PingAction::LocateClient(a) => assert_eq!(a, SockAddr::V4([198, 51, 100, 7], 5000)),
        _ => panic!("expected the echoed address"),
    }
    assert_eq!(st.total_sent(), 1);
    assert_eq!(st.samples()[0].latency_nanos(), Some(12_345));
}

#[test]
fn unreadable_echo_is_reported_and_ping_still_recorded() {
    let mut st = Stats::new("srv", 10);
    let sent = Sample::new(T0, 0, None).unwrap();
    let outcome = PingOutcome::Reply { data: vec![1, 9, 9], from_server: true, rtt_nanos: 5 };
    match st.on_ping_outcome(sent, &outcome) {
        PingAction::BadAddress(e) => assert_eq!(e, AddrParseError::InvalidSocketAddrBytes),
        _ => panic!("expected a bad address"),
    }
    assert_eq!(st.samples()[0].latency_nanos(), Some(5));
}

#[test]
fn plain_pong_is_recorded_with_its_round_trip() {
    let mut st = Stats::new("srv", 10);
    let sent = Sample::new(T0, 0, None).unwrap();
    let outcome = PingOutcome::Reply { data: vec![0, 1], from_server: true, rtt_nanos: 99 };
    assert!(matches!(st.on_ping_outcome(sent, &outcome), PingAction::Nothing));
    assert_eq!(st.samples()[0].latency_nanos(), Some(99));
}

#[test]
fn foreign_datagram_and_timeout_count_as_lost() {
    let mut st = Stats::new("srv", 10);
    let sent = Sample::new(T0, 0, Some(1)).unwrap();
    let outcome = PingOutcome::Reply { data: vec![1, 0, 1, 2, 3, 4, 0, 1], from_server: false, rtt_nanos: 99 };
    assert!(matches!(st.on_ping_outcome(sent, &outcome), PingAction::Nothing));
    assert!(matches!(st.on_ping_outcome(sent, &PingOutcome::NoReply), PingAction::Nothing));
    assert_eq!(st.samples()[0].latency_nanos(), None);
    assert_eq!(st.samples()[1].latency_nanos(), None);
    assert_eq!(st.total_sent(), 2);
}
