//! Records: vocabulary, recorder, reading back.

use spora_core::calendar::{utc_stamp, utc_timestamp};
use spora_core::fault::Fault;
use spora_core::record::{
    new_id, record_id, Build, Context, EndpointRef, Entry, Open, Record, RecordConfig, Recorder,
    SampleInput, Step, FORMAT_VERSION,
};
use spora_core::vocab::{
    Carrier, MtuSource, Outcome, PathKind, Reason, Role, RttSource, StepKind, StepOutcome,
};

fn build() -> Build {
    Build {
        version: "0".to_string(),
        commit: None,
        dirty: false,
        target: "x".to_string(),
        profile: "debug".to_string(),
    }
}

fn started(cfg: &RecordConfig, role: Role, key: Option<&[u8]>, upgrade: bool) -> (Recorder, Entry) {
    Recorder::start(cfg, new_id(), 0, build(), role, key, vec![], upgrade)
}

fn in_memory() -> Recorder {
    started(&RecordConfig::in_memory(), Role::Client, None, true).0
}

fn unique(mut codes: Vec<&str>) {
    let before = codes.len();
    codes.sort_unstable();
    codes.dedup();
    assert_eq!(before, codes.len(), "duplicate wire code");
}

#[test]
fn codes_are_unique_within_each_vocabulary() {
    unique(Reason::all().iter().map(|v| v.as_str()).collect());
    unique(StepKind::all().iter().map(|v| v.as_str()).collect());
    unique(StepOutcome::all().iter().map(|v| v.as_str()).collect());
    unique(Outcome::all().iter().map(|v| v.as_str()).collect());
    unique(Carrier::all().iter().map(|v| v.as_str()).collect());
    unique(PathKind::all().iter().map(|v| v.as_str()).collect());
    unique(Role::all().iter().map(|v| v.as_str()).collect());
    unique(RttSource::all().iter().map(|v| v.as_str()).collect());
    unique(MtuSource::all().iter().map(|v| v.as_str()).collect());
}

#[test]
fn every_code_round_trips() {
    for r in Reason::all() {
        assert_eq!(Reason::from_code(r.as_str()), Some(r));
    }
    for k in StepKind::all() {
        assert_eq!(StepKind::from_code(k.as_str()), Some(k));
    }
}

#[test]
fn unknown_codes_degrade_instead_of_failing() {
    assert_eq!(StepKind::read("time_travel"), StepKind::Unknown);
    assert_eq!(Reason::read("gravity"), Reason::Unknown);
}

#[test]
fn an_opening_names_key_and_endpoints() {
    let (rec, entry) = Recorder::start(
        &RecordConfig::in_memory().with_label("home").with_correlation_id("c-1"),
        new_id(),
        7,
        build(),
        Role::Client,
        Some(&[0xab, 0xcd]),
        vec![EndpointRef {
            host: "relay.example".into(),
            port: 443,
            carrier: Carrier::Quic,
            path: PathKind::Relay,
            addr: Some("192.0.2.1:443".into()),
        }],
        true,
    );
    let snapshot = rec.snapshot(0).expect("enabled");
    assert_eq!(snapshot.open.v, FORMAT_VERSION);
    assert_eq!(snapshot.open.routing_key.as_deref(), Some("abcd"));
    assert_eq!(snapshot.open.endpoints.len(), 1);
    assert_eq!(snapshot.open.label.as_deref(), Some("home"));
    assert_eq!(snapshot.open.correlation_id.as_deref(), Some("c-1"));
    assert_eq!(entry, Entry::Open(snapshot.open));
}

#[test]
fn a_dropped_step_records_that_nobody_concluded_it() {
    let mut rec = in_memory();
    let h = rec.step(StepKind::Punch, Context::none(), 1).via("192.0.2.9:1234");
    rec.abandon(h, 2);
    let snap = rec.snapshot(3).unwrap();
    assert_eq!(snap.steps.len(), 1);
    assert_eq!(snap.steps[0].outcome, StepOutcome::Abandoned);
    assert_eq!(snap.steps[0].reason, None);
    assert_eq!(snap.steps[0].via.as_deref(), Some("192.0.2.9:1234"));
}

#[test]
fn the_closing_summary_is_folded_from_the_steps() {
    let mut rec = in_memory();
    let c = Context::none();
    let h = rec.step(StepKind::RelayDial, c, 1).via("192.0.2.1:443").carrier(Carrier::Quic);
    rec.fail_with(h, &Fault::new(Reason::NoResponse, "nothing came back"), 4);
    let h = rec.mark(StepKind::SessionUp, c, 5).path(PathKind::Relay);
    rec.ok(h, 5);
    let h = rec.mark(StepKind::PathSwap, c, 6).path(PathKind::DirectPunched);
    rec.ok(h, 6);
    let h = rec.mark(StepKind::Reconnect, c, 7);
    rec.ok(h, 7);
    let h = rec.mark(StepKind::SessionUp, c, 8);
    rec.ok(h, 8);
    rec.close(Outcome::Connected, None, None, 9, 1000);

    let snap = rec.snapshot(9).unwrap();
    let close = snap.close.as_ref().expect("closed");
    assert_eq!(close.sessions, 2);
    assert_eq!(close.reconnects, 1);
    assert!(close.first_connect_ms.is_some());
    assert!(close.direct_ms.is_some());
    assert!(!snap.truncated);
    assert_eq!(snap.first_failure().map(|s| s.kind), Some(StepKind::RelayDial));
    assert_eq!(snap.failure_reasons(), vec![Reason::NoResponse]);
    assert_eq!(snap.steps_of(StepKind::SessionUp).len(), 2);
    assert_eq!(snap.steps[0].dur_ms, Some(3));
}

#[test]
fn closing_is_idempotent() {
    let mut rec = in_memory();
    rec.close(Outcome::NeverConnected, Some(Reason::NoResponse), None, 1, 1);
    assert_eq!(rec.close(Outcome::Connected, None, None, 2, 2), None);
    let snap = rec.snapshot(3).unwrap();
    assert_eq!(snap.close.unwrap().outcome, Outcome::NeverConnected);
}

#[test]
fn a_written_record_reads_back_the_same() {
    let cfg = RecordConfig::in_dir("records");
    let mut written = Vec::new();
    let (mut rec, first) = started(&cfg, Role::Exit, Some(&[1, 2, 3]), false);
    written.push(first);
    let c = Context::none();
    let h = rec.mark(StepKind::ListenerBind, c, 1).local("0.0.0.0:41234");
    written.extend(rec.ok(h, 1));
    let h = rec.step(StepKind::Register, c, 2).via("192.0.2.1:443");
    written.extend(rec.fail(h, Reason::NoResponse, "no ack", 3));
    written.extend(rec.sample(
        SampleInput {
            path: PathKind::Relay,
            carrier: Carrier::Quic,
            rtt_us: Some(42_000),
            rtt_src: Some(RttSource::Quic),
            tx_bytes: 1000,
            rx_bytes: 2000,
            tx_pkts: 10,
            rx_pkts: 20,
            ..Default::default()
        },
        c,
        4,
    ));
    written.extend(rec.close(Outcome::ClosedLocally, None, None, 5, 5));
    let snapshot = rec.snapshot(5).unwrap();

    let read = Record::read_stream(written);
    assert_eq!(read.len(), 1, "one record file");
    let from_disk = &read[0];
    assert_eq!(from_disk.open.id, snapshot.open.id);
    assert_eq!(from_disk.steps.len(), snapshot.steps.len());
    assert_eq!(from_disk.samples.len(), 1);
    assert_eq!(from_disk.samples[0].rtt_us, Some(42_000));
    assert!(!from_disk.truncated);
    assert_eq!(from_disk.open.role, Role::Exit);
    assert_eq!(*from_disk, snapshot);
}

#[test]
fn a_stream_without_a_close_is_truncated() {
    let open = Entry::Open(Open {
        v: 1,
        id: "deadbeef".to_string(),
        role: Role::Client,
        at_unix_ms: 0,
        build: build(),
        routing_key: None,
        endpoints: vec![],
        upgrade_enabled: true,
        label: None,
        correlation_id: None,
    });
    let step = Entry::Step(Step {
        id: "deadbeef".to_string(),
        at_ms: 5,
        seq: 0,
        kind: StepKind::RelayDial,
        outcome: StepOutcome::Failed,
        reason: Some(Reason::NoResponse),
        dur_ms: None,
        session: None,
        cycle: None,
        carrier: None,
        path: None,
        via: None,
        local: None,
        peer: None,
        detail: None,
    });
    let torn = None;
    let recs = Record::read_lines(vec![Some(open), Some(step), torn]);
    assert_eq!(recs.len(), 1);
    assert!(recs[0].truncated);
    assert_eq!(recs[0].outcome(), Outcome::Unknown);
    assert_eq!(recs[0].failure_reasons(), vec![Reason::NoResponse]);
}

#[test]
fn dropping_the_last_handle_writes_an_ending() {
    let mut rec = in_memory();
    let h = rec.mark(StepKind::SessionUp, Context::none(), 1);
    rec.ok(h, 1);
    let close = match rec.end_unclosed(2, 2) {
        Some(Entry::Close(c)) => c,
        _ => panic!("an ending was written"),
    };
    assert_eq!(close.outcome, Outcome::Lost);
    assert_eq!(close.sessions, 1);
    assert!(close.detail.as_deref().unwrap_or("").contains("dropped"));
}

#[test]
fn disabled_recording_costs_nothing_and_says_nothing() {
    let mut rec = Recorder::disabled();
    assert!(!rec.is_enabled());
    let h = rec.step(StepKind::RelayDial, Context::none(), 0);
    assert_eq!(rec.ok(h, 0), None);
    let h = rec.mark(StepKind::Accept, Context::none().for_session(1), 0);
    assert_eq!(rec.ok(h, 0), None);
    assert_eq!(rec.close(Outcome::Connected, None, None, 0, 0), None);
    assert!(rec.snapshot(0).is_none());
}

#[test]
fn utc_stamps_are_sortable_and_correct() {
    assert_eq!(utc_stamp(0), "19700101T000000Z");
    assert_eq!(utc_stamp(1_755_000_000_000), "20250812T120000Z");
    assert!(utc_stamp(1_755_000_000_000) < utc_stamp(1_760_000_000_000));
}

#[test]
fn a_timestamp_of_a_leap_day() {
    assert_eq!(utc_timestamp(951_782_400_000), "2000-02-29 00:00:00Z");
}

#[test]
fn a_step_is_concluded_from_its_result() {
    let mut rec = in_memory();
    let c = Context::none().for_cycle(3);
    let h = rec.step(StepKind::Stun, c, 1);
    rec.result(h, &Ok::<u8, Fault>(1), 2);
    let h = rec.step(StepKind::Punch, c, 3);
    rec.result::<u8>(h, &Err(Fault::new(Reason::PunchTimeout, "late")), 9);
    let snap = rec.snapshot(9).unwrap();
    assert_eq!(snap.steps[0].outcome, StepOutcome::Succeeded);
    assert_eq!(snap.steps[1].outcome, StepOutcome::Failed);
    assert_eq!(snap.steps[1].reason, Some(Reason::PunchTimeout));
    assert_eq!(snap.steps[1].detail.as_deref(), Some("late"));
    assert_eq!(snap.steps[1].cycle, Some(3));
}

#[test]
fn skipped_and_begun_steps_show() {
    let mut rec = in_memory();
    let c = Context::none();
    let h = rec.mark(StepKind::PathSwap, c, 1);
    rec.skip(h, Reason::UpgradeDisabled, "no direct upgrade attempted", 1);
    let (h, begun) = rec.step_now(StepKind::Stun, c, 2);
    assert!(matches!(begun, Some(Entry::Step(_))));
    rec.ok(h, 5);
    let snap = rec.snapshot(6).unwrap();
    assert_eq!(snap.steps.len(), 2, "a begun step is replaced by its conclusion");
    assert_eq!(snap.steps[0].outcome, StepOutcome::Skipped);
    assert_eq!(snap.steps[1].outcome, StepOutcome::Succeeded);
    assert_eq!(snap.steps[1].at_ms, 2);
}

#[test]
fn rates_come_from_two_samples() {
    let mut rec = in_memory();
    let c = Context::none();
    let one = SampleInput { tx_bytes: 1000, rx_bytes: 0, ..Default::default() };
    let two = SampleInput { tx_bytes: 3000, rx_bytes: 500, ..Default::default() };
    rec.sample(one, c, 1000);
    rec.sample(two, c, 2000);
    let snap = rec.snapshot(2000).unwrap();
    assert_eq!(snap.samples[0].tx_bps, None);
    assert_eq!(snap.samples[1].tx_bps, Some(16_000));
    assert_eq!(snap.samples[1].rx_bps, Some(4_000));
}

#[test]
fn a_counter_may_be_large_but_not_grow_past_a_rate() {
    let mut rec = in_memory();
    let c = Context::none();
    let large = SampleInput { tx_bytes: u64::MAX, ..Default::default() };
    let small = SampleInput::default();
    assert!(rec.can_sample(&large, 1000));
    rec.sample(small, c, 1000);
    assert!(rec.can_sample(&large, 1000));
    assert!(!rec.can_sample(&large, 2000));
    assert!(Recorder::disabled().can_sample(&large, 2000));
}

#[test]
fn a_shutdown_says_how_the_run_stood() {
    let mut never = in_memory();
    never.close_shutdown(Some(Reason::LocalShutdown), 1, 1);
    assert_eq!(never.snapshot(1).unwrap().close.unwrap().outcome, Outcome::NeverConnected);
    let mut up = in_memory();
    let h = up.mark(StepKind::SessionUp, Context::none(), 1);
    up.ok(h, 1);
    up.close_shutdown(Some(Reason::LocalShutdown), 11, 11);
    let close = up.snapshot(11).unwrap().close.unwrap();
    assert_eq!(close.outcome, Outcome::ClosedLocally);
    assert_eq!(close.connected_ms, 10);
}

#[test]
fn identifiers_are_sixteen_hexadecimal_digits() {
    assert_eq!(record_id(0xab), "00000000000000ab");
    assert_eq!(record_id(u64::MAX), "ffffffffffffffff");
    let id = new_id();
    assert_eq!(id.len(), 16);
    assert!(id.chars().all(|c| c.is_ascii_hexdigit()));
    assert_ne!(new_id(), id);
}

fn opening(id: &str) -> Entry {
    Entry::Open(Open {
        v: 1,
        id: id.to_string(),
        role: Role::Client,
        at_unix_ms: 0,
        build: build(),
        routing_key: None,
        endpoints: vec![],
        upgrade_enabled: true,
        label: None,
        correlation_id: None,
    })
}

fn step(seq: u64, outcome: StepOutcome) -> Entry {
    Entry::Step(Step {
        id: "r".to_string(),
        at_ms: 5,
        seq,
        kind: StepKind::RelayDial,
        outcome,
        reason: None,
        dur_ms: None,
        session: None,
        cycle: None,
        carrier: None,
        path: None,
        via: None,
        local: None,
        peer: None,
        detail: None,
    })
}

#[test]
fn each_opening_has_the_entries_up_to_the_next() {
    let stray = step(9, StepOutcome::Failed);
    let lines = vec![
        Some(stray),
        Some(opening("one")),
        Some(step(0, StepOutcome::Started)),
        None,
        Some(step(1, StepOutcome::Started)),
        Some(step(0, StepOutcome::Failed)),
        Some(opening("two")),
        Some(step(0, StepOutcome::Succeeded)),
    ];
    let recs = Record::read_lines(lines.clone());
    assert_eq!(recs.len(), 2);
    assert_eq!((recs[0].open.id.as_str(), recs[1].open.id.as_str()), ("one", "two"));
    let told = |r: &Record| r.steps.iter().map(|s| (s.seq, s.outcome)).collect::<Vec<_>>();
    assert_eq!(told(&recs[0]), vec![(0, StepOutcome::Failed), (1, StepOutcome::Started)]);
    assert_eq!(told(&recs[1]), vec![(0, StepOutcome::Succeeded)]);
    assert!(recs[0].truncated && recs[1].truncated);
    // A line that cannot be read changes nothing, wherever it stands.
    for at in 0..=lines.len() {
        let mut more = lines.clone();
        more.insert(at, None);
        assert_eq!(Record::read_lines(more), recs);
    }
    assert_eq!(Record::read_stream(lines.into_iter().flatten().collect()), recs);
}

#[test]
fn a_run_that_is_stopped_comes_out_as_it_went() {
    let mut rec = in_memory();
    assert_eq!(rec.outcome_now(), Outcome::NeverConnected);
    let h = rec.mark(StepKind::SessionUp, Context::none(), 1);
    rec.ok(h, 1);
    assert_eq!(rec.outcome_now(), Outcome::ClosedLocally);
    let outcome = rec.outcome_now();
    let h = rec.mark(StepKind::SessionEnd, Context::none(), 2);
    rec.ok(h, 2);
    assert_eq!(rec.outcome_now(), Outcome::Lost);
    match rec.close(outcome, Some(Reason::LocalShutdown), None, 3, 3) {
        Some(Entry::Close(c)) => {
            assert_eq!((c.outcome, c.sessions, c.connected_ms), (Outcome::ClosedLocally, 1, 1))
        }
        _ => panic!("an ending was written"),
    }
    for (steps, outcome) in [
        (vec![StepKind::SessionUp], Outcome::ClosedLocally),
        (vec![StepKind::SessionUp, StepKind::Reconnect], Outcome::Lost),
        (vec![StepKind::SessionUp, StepKind::Reconnect, StepKind::SessionUp], Outcome::ClosedLocally),
        (vec![StepKind::RelayDial], Outcome::NeverConnected),
    ] {
        let mut rec = in_memory();
        for kind in steps {
            let h = rec.mark(kind, Context::none(), 1);
            rec.ok(h, 1);
        }
        match rec.close_shutdown(None, 2, 2) {
            Some(Entry::Close(c)) => assert_eq!(c.outcome, outcome),
            _ => panic!("an ending was written"),
        }
    }
}
