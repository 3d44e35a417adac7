//! The exit's side of a tunnel.

use spora_core::addr::{parse_addr, IpAddr, SocketAddr};
use spora_core::server::{
    admits, is_local_address, teardown, DatagramStep, DriverAsk, Ingress, NatEntry, OutPoll,
    RecvPoll, SinkPoll, StackDriver, TunnelTask, UdpNat, MAX_UDP_NAT_ENTRIES, UDP_NAT_TIMEOUT,
};

fn sa(s: &str) -> SocketAddr {
    parse_addr(&s.chars().collect::<Vec<char>>()).unwrap()
}

fn entry(port: u16, at: u64) -> NatEntry {
    NatEntry {
        local: sa("127.0.0.1:1000"),
        remote: sa(&format!("10.0.0.1:{port}")),
        socket: port as u64,
        last_activity: at,
    }
}

fn holds(t: &UdpNat, port: u16) -> bool {
    t.contains(sa("127.0.0.1:1000"), sa(&format!("10.0.0.1:{port}")))
}

#[test]
fn udp_nat_table_evicts_least_recently_active_at_cap() {
    let mut entries = UdpNat::new();
    assert_eq!(entries.insert_bounded(entry(10, 0), 3), None);
    assert_eq!(entries.insert_bounded(entry(11, 1000), 3), None);
    assert_eq!(entries.insert_bounded(entry(12, 2000), 3), None);
    assert_eq!(entries.len(), 3);

    // A distinct new tuple at the cap evicts the oldest, not a live one.
    assert_eq!(entries.insert_bounded(entry(13, 3000), 3), Some(10));
    assert_eq!(entries.len(), 3, "table stays bounded");
    assert!(!holds(&entries, 10), "least-recently-active evicted");
    assert!(holds(&entries, 13), "new flow inserted");
    assert!(holds(&entries, 11) && holds(&entries, 12));

    // Refreshing an existing key never evicts.
    entries.insert_bounded(entry(11, 4000), 3);
    assert_eq!(entries.len(), 3);
    assert!(holds(&entries, 11) && holds(&entries, 12) && holds(&entries, 13));
}

#[test]
fn idle_flows_are_swept_and_live_ones_stay() {
    let mut t = UdpNat::new();
    t.insert_bounded(entry(10, 0), MAX_UDP_NAT_ENTRIES);
    t.insert_bounded(entry(11, 5), MAX_UDP_NAT_ENTRIES);
    assert_eq!(t.sweep(UDP_NAT_TIMEOUT), Vec::<u64>::new());
    assert_eq!(t.sweep(UDP_NAT_TIMEOUT + 1), vec![10]);
    assert!(holds(&t, 11));
}

#[test]
fn a_datagram_that_cannot_be_read_is_passed_over() {
    let mut t = UdpNat::new();
    let (local, remote) = (sa("10.0.0.2:40000"), sa("93.184.216.34:53"));
    assert_eq!(t.on_datagram(None, true, 0), DatagramStep::Skip);
    assert_eq!(t.on_datagram(Some((local, remote)), true, 0), DatagramStep::Open);
    t.insert_bounded(NatEntry { local, remote, socket: 9, last_activity: 0 }, MAX_UDP_NAT_ENTRIES);
    assert_eq!(t.on_datagram(None, true, 1), DatagramStep::Skip);
    assert_eq!(t.on_datagram(Some((local, remote)), true, 20_000), DatagramStep::Send(9));
    // The datagram counts as activity.
    assert_eq!(t.sweep(40_000), Vec::<u64>::new());
    let lan = sa("192.168.1.1:53");
    assert_eq!(t.on_datagram(Some((local, lan)), true, 0), DatagramStep::Blocked);
    assert_eq!(t.on_datagram(Some((local, lan)), false, 0), DatagramStep::Open);
}

#[test]
fn private_destinations_are_told_apart() {
    for s in [
        "10.1.2.3:1",
        "172.16.0.1:1",
        "172.31.255.255:1",
        "192.168.0.1:1",
        "127.0.0.1:1",
        "169.254.1.1:1",
        "100.64.0.1:1",
        "[::1]:1",
        "[fe80::1]:1",
        "[fd00::1]:1",
        "[::ffff:10.0.0.1]:1",
    ] {
        assert!(is_local_address(sa(s).ip), "should be local: {s}");
        assert!(!admits(sa(s), true));
        assert!(admits(sa(s), false));
    }
    for s in ["8.8.8.8:1", "172.32.0.1:1", "100.128.0.1:1", "[2001:db8::1]:1", "[::ffff:8.8.8.8]:1"] {
        assert!(!is_local_address(sa(s).ip), "should be public: {s}");
        assert!(admits(sa(s), true));
    }
    assert!(is_local_address(IpAddr::V4([0, 0, 0, 0])));
}

#[test]
fn the_driver_moves_a_packet_each_way() {
    let mut d = StackDriver::new();
    assert_eq!(d.drained(OutPoll::Packet { queued: true }), DriverAsk::PollNext);
    assert_eq!(d.drained(OutPoll::Packet { queued: false }), DriverAsk::PollNext);
    assert_eq!(d.drained(OutPoll::Pending), DriverAsk::PollFlush);
    assert_eq!(d.flushed(SinkPoll::Done), DriverAsk::Take);
    assert_eq!(d.taken(None), DriverAsk::PollRecv);
    assert_eq!(d.received(RecvPoll::Arrived(vec![1, 2])), DriverAsk::Park { wake: true });
    assert!(d.holds_packet());
    assert_eq!(d.drained(OutPoll::Pending), DriverAsk::PollFlush);
    assert_eq!(d.flushed(SinkPoll::Done), DriverAsk::PollReady);
    assert_eq!(d.ready(SinkPoll::Pending), DriverAsk::Park { wake: false });
    assert_eq!(d.ready(SinkPoll::Done), DriverAsk::Send(vec![1, 2]));
    assert!(!d.holds_packet());
    let s = d.stats();
    assert_eq!((s.egress_produced, s.egress_dropped), (2, 1));
    assert_eq!((s.ingress_delivered, s.ready_pending), (1, 1));
    assert_eq!(d.flushed(SinkPoll::Failed), DriverAsk::Stop);
    assert_eq!(d.drained(OutPoll::Ended), DriverAsk::Stop);
    assert_eq!(d.drained(OutPoll::Failed), DriverAsk::PollNext);
}

#[test]
fn packets_that_come_are_counted_and_kept_in_order() {
    let mut i = Ingress::new();
    assert_eq!(i.on_packet(vec![0x45, 0], 0), vec![vec![0x45, 0]]);
    assert_eq!(i.on_packet(vec![0x45, 1], 0), vec![vec![0x45, 1]]);
    assert_eq!(i.count, 2);
}

#[test]
fn a_tunnel_is_torn_down_whole() {
    assert_eq!(
        teardown(true, true),
        vec![
            TunnelTask::Driver,
            TunnelTask::Flows,
            TunnelTask::Tcp,
            TunnelTask::Udp,
            TunnelTask::Runner
        ]
    );
    assert_eq!(teardown(false, false), vec![TunnelTask::Flows, TunnelTask::Tcp, TunnelTask::Udp]);
}
