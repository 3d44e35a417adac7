//! The connection log, run against a database in memory.

use rusqlite::types::Value as Sql;
use rusqlite::Connection;
use spora_core::addr::{IpAddr, SocketAddr};
use spora_core::connlog::{
    add_hold, check_identity, dropped_after, flush_batch, list_holds, now_ms, open_statements,
    query_flows, query_marks, query_sessions, random_id, remove_hold, retention_cutoff,
    retention_sweep, usable_id, wants_egress, AddrKind, AddrSpan, ConnLogConfig, Ev, FlowGuard,
    FlowQuery, FlowSpan, Handed, Hold, MarkSpan, SessionLog, SessionSpan, Statement, Throttle,
    Value, WriterState, CHANNEL_CAPACITY, RETENTION_SWEEP_INTERVAL, SCHEMA, SELECT_SESSION_ADDRS,
    STOP_MARK, STORED_IDENTITY,
};

fn addr(ip: [u8; 4], port: u16) -> SocketAddr {
    SocketAddr { ip: IpAddr::V4(ip), port, scope: 0 }
}

fn cfg() -> ConnLogConfig {
    let mut cfg = ConnLogConfig::in_dir("log".to_string());
    cfg.flush_interval = 20;
    cfg
}

fn sql(v: &Value) -> Sql {
    match v {
        Value::Int(n) => Sql::Integer(*n),
        Value::Size(n) => Sql::Integer(i64::try_from(*n).unwrap()),
        Value::Flag(b) => Sql::Integer(*b as i64),
        Value::Text(s) => Sql::Text(s.clone()),
        Value::Null => Sql::Null,
    }
}

fn params(s: &Statement) -> Vec<Sql> {
    s.params.iter().map(sql).collect()
}

fn run(db: &Connection, s: &Statement) {
    db.execute(&s.sql, rusqlite::params_from_iter(params(s))).unwrap();
}

fn database() -> Connection {
    let db = Connection::open_in_memory().unwrap();
    db.execute_batch(SCHEMA).unwrap();
    db
}

fn opened(routing_key: &[u8; 20]) -> Connection {
    let db = database();
    let hex = check_identity("log", None, routing_key).unwrap();
    for s in open_statements(&hex, "1.0", 1000) {
        run(&db, &s);
    }
    db
}

fn write(db: &Connection, evs: Vec<Ev>) {
    let egress = vec![None; evs.len()];
    for s in flush_batch(&evs, &egress) {
        run(db, &s);
    }
}

fn count(db: &Connection, sql: &str) -> i64 {
    db.query_row(sql, [], |r| r.get(0)).unwrap()
}

/// Some columns of the flows that a query gives: number, destination port,
/// bytes up and down, whether established, egress address and end reason.
type Flow = (i64, i64, i64, i64, bool, Option<String>, Option<String>);

fn flows(db: &Connection, q: &FlowQuery) -> Vec<Flow> {
    let s = query_flows(q);
    let mut stmt = db.prepare(&s.sql).unwrap();
    let rows = stmt
        .query_map(rusqlite::params_from_iter(params(&s)), |r| {
            Ok((
                r.get(0)?,
                r.get(6)?,
                r.get(9)?,
                r.get(10)?,
                r.get(12)?,
                r.get(11)?,
                r.get(14)?,
            ))
        })
        .unwrap();
    rows.map(|r| r.unwrap()).collect()
}

fn to(ip: [u8; 4]) -> FlowQuery {
    FlowQuery { ip: Some(IpAddr::V4(ip)), ..Default::default() }
}

#[test]
fn session_and_flow_lifecycle_lands_in_db() {
    let db = opened(&[1; 20]);
    let mut evs = Vec::new();
    let (mut session, start) = SessionLog::start(&cfg(), 5, 1000, addr([203, 0, 113, 1], 443));
    evs.push(start);
    evs.extend(session.addr(AddrKind::Reported, addr([198, 51, 100, 7], 6000), 1001));
    evs.extend(session.addr(AddrKind::PunchVerified, addr([198, 51, 100, 7], 6001), 1002));

    let (more, flow) = session.flow_open(
        10,
        6,
        addr([10, 0, 85, 2], 50000),
        addr([93, 184, 216, 34], 443),
        true,
        1003,
    );
    evs.extend(more);
    let mut flow = flow.unwrap();
    evs.extend(flow.established(Some(addr([192, 0, 2, 10], 41000))));
    flow.add_up(1200);
    flow.add_down(48_000);
    evs.extend(flow.close("closed", 0, 1004));
    assert_eq!(flow.close("session_end", 0, 1005), None);

    evs.extend(session.flow_blocked(
        11,
        6,
        addr([10, 0, 85, 2], 50001),
        addr([192, 168, 1, 1], 80),
        1006,
    ));
    evs.extend(session.end("ended", 1007));
    assert!(session.end("dropped", 1008).is_empty());
    write(&db, evs);
    db.execute(STOP_MARK, [1009]).unwrap();

    assert_eq!(count(&db, "SELECT COUNT(*) FROM flows"), 2);
    assert_eq!(count(&db, "SELECT COUNT(*) FROM marks WHERE kind='share_stop'"), 1);
    assert_eq!(count(&db, "SELECT COUNT(*) FROM marks WHERE kind='share_start'"), 1);

    let found = flows(&db, &to([93, 184, 216, 34]));
    assert_eq!(
        found,
        vec![(
            10,
            443,
            1200,
            48_000,
            true,
            Some("192.0.2.10:41000".to_string()),
            Some("closed".to_string())
        )]
    );

    let blocked = flows(&db, &to([192, 168, 1, 1]));
    assert_eq!(blocked.len(), 1);
    assert_eq!(blocked[0].6.as_deref(), Some("blocked"));

    let s = query_sessions(None);
    let mut stmt = db.prepare(&s.sql).unwrap();
    let sessions: Vec<(i64, Option<String>, String)> = stmt
        .query_map([], |r| Ok((r.get(0)?, r.get(3)?, r.get(4)?)))
        .unwrap()
        .map(|r| r.unwrap())
        .collect();
    assert_eq!(sessions, vec![(5, Some("ended".to_string()), "203.0.113.1:443".to_string())]);
    let mut stmt = db.prepare(SELECT_SESSION_ADDRS).unwrap();
    let addrs: Vec<(i64, String, String)> = stmt
        .query_map([5], |r| Ok((r.get(0)?, r.get(1)?, r.get(2)?)))
        .unwrap()
        .map(|r| r.unwrap())
        .collect();
    assert_eq!(
        addrs,
        vec![
            (1001, "reported".to_string(), "198.51.100.7:6000".to_string()),
            (1002, "punch_verified".to_string(), "198.51.100.7:6001".to_string())
        ]
    );
    assert_eq!(
        query_sessions(Some(&vec![4, 5])).sql,
        "SELECT id, start_ms, end_ms, end_reason, relay_addr FROM sessions WHERE id IN (4,5) ORDER BY start_ms"
    );
}

#[test]
fn dropped_flow_guard_closes_with_session_end() {
    let db = opened(&[1; 20]);
    let (mut session, start) = SessionLog::start(&cfg(), 5, 1000, addr([203, 0, 113, 1], 443));
    let (opened, flow) = session.flow_open(
        10,
        17,
        addr([10, 0, 85, 2], 5353),
        addr([8, 8, 8, 8], 53),
        true,
        1001,
    );
    let mut flow = flow.unwrap();
    flow.add_up(64);
    let mut evs = vec![start];
    evs.extend(opened);
    evs.extend(flow.close("session_end", 0, 1002));
    write(&db, evs);
    assert_eq!(
        count(&db, "SELECT COUNT(*) FROM flows WHERE end_reason='session_end' AND bytes_up=64"),
        1
    );
}

#[test]
fn throttle_suppresses_and_summarizes() {
    let db = opened(&[1; 20]);
    let mut cfg = cfg();
    cfg.max_flow_records_per_sec = 1;
    cfg.flow_record_burst = 5;
    let (mut session, start) = SessionLog::start(&cfg, 5, 1000, addr([203, 0, 113, 1], 443));
    let mut evs = vec![start];
    let mut opened = 0;
    for i in 0..50u16 {
        let (more, flow) = session.flow_open(
            100 + i as i64,
            17,
            addr([10, 0, 85, 2], 40000 + i),
            addr([8, 8, 8, 8], 53),
            true,
            1000,
        );
        evs.extend(more);
        if let Some(mut f) = flow {
            opened += 1;
            evs.extend(f.close("closed", 0, 1000));
        }
    }
    assert!(opened <= 6, "burst cap should limit records, got {}", opened);
    assert_eq!(opened, 5);
    evs.extend(session.end("ended", 1001));
    write(&db, evs);

    assert!(count(&db, "SELECT COUNT(*) FROM marks WHERE kind='flow_throttle'") >= 1);
    let s = query_marks(None, None);
    let mut stmt = db.prepare(&s.sql).unwrap();
    let marks: Vec<(String, Option<String>)> = stmt
        .query_map(rusqlite::params_from_iter(params(&s)), |r| Ok((r.get(1)?, r.get(2)?)))
        .unwrap()
        .map(|r| r.unwrap())
        .collect();
    let throttle = marks.iter().find(|m| m.0 == "flow_throttle").unwrap();
    assert!(throttle.1.as_deref().unwrap().contains("\"suppressed\":"));
    assert!(throttle.1.as_deref().unwrap().contains("\"suppressed\":45"));
}

#[test]
fn sessions_only_mode_logs_no_flows() {
    let db = opened(&[1; 20]);
    let mut cfg = cfg();
    cfg.log_destinations = false;
    let (mut session, start) = SessionLog::start(&cfg, 5, 1000, addr([203, 0, 113, 1], 443));
    let (more, flow) = session.flow_open(
        10,
        6,
        addr([10, 0, 85, 2], 50000),
        addr([93, 184, 216, 34], 443),
        true,
        1001,
    );
    assert!(flow.is_none());
    let mut evs = vec![start];
    evs.extend(more);
    evs.extend(session.flow_blocked(
        11,
        6,
        addr([10, 0, 85, 2], 50001),
        addr([192, 168, 1, 1], 80),
        1002,
    ));
    evs.extend(session.end("ended", 1003));
    write(&db, evs);
    assert_eq!(count(&db, "SELECT COUNT(*) FROM sessions"), 1);
    assert_eq!(count(&db, "SELECT COUNT(*) FROM flows"), 0);
}

fn rows<T>(db: &Connection, sql: &str, read: impl Fn(&rusqlite::Row) -> rusqlite::Result<T>) -> Vec<T> {
    let mut stmt = db.prepare(sql).unwrap();
    let found = stmt.query_map([], |r| read(r)).unwrap();
    found.map(|r| r.unwrap()).collect()
}

/// Deletes what is older than the cutoff and not held.
fn sweep(db: &Connection, cutoff: i64) {
    let flows = rows(db, "SELECT id, session_id, first_ms, last_ms FROM flows", |r| {
        Ok(FlowSpan {
            id: r.get(0)?,
            session_id: r.get(1)?,
            first_ms: r.get(2)?,
            last_ms: r.get(3)?,
        })
    });
    let sessions = rows(db, "SELECT id, start_ms, end_ms FROM sessions", |r| {
        Ok(SessionSpan { id: r.get(0)?, start_ms: r.get(1)?, end_ms: r.get(2)? })
    });
    let addrs = rows(db, "SELECT rowid, session_id FROM session_addrs", |r| {
        Ok(AddrSpan { id: r.get(0)?, session_id: r.get(1)? })
    });
    let marks = rows(db, "SELECT seq, ts_ms FROM marks", |r| {
        Ok(MarkSpan { id: r.get(0)?, ts_ms: r.get(1)? })
    });
    let holds = rows(db, &list_holds().sql, |r| {
        Ok(Hold { from_ms: r.get(1)?, to_ms: r.get(2)? })
    });
    let plan = retention_sweep(&flows, &sessions, &addrs, &marks, &holds, cutoff);
    for (ids, sql) in [
        (&plan.flows, "DELETE FROM flows WHERE id=?1"),
        (&plan.sessions, "DELETE FROM sessions WHERE id=?1"),
        (&plan.addrs, "DELETE FROM session_addrs WHERE rowid=?1"),
        (&plan.marks, "DELETE FROM marks WHERE seq=?1"),
    ] {
        for id in ids {
            db.execute(sql, [id]).unwrap();
        }
    }
}

#[test]
fn retention_sweep_respects_holds() {
    let db = opened(&[1; 20]);
    let now = 1_760_000_000_000i64;
    let old = now - 200 * 24 * 3600 * 1000;
    db.execute(
        "INSERT INTO sessions(id, start_ms, end_ms, relay_addr) VALUES (1, ?1, ?1, 'r'), (2, ?2, ?2, 'r')",
        [old, old - 1000],
    )
    .unwrap();
    db.execute(
        "INSERT INTO flows(id, session_id, proto, src_ip, src_port, dst_ip, dst_port, first_ms, last_ms)
         VALUES (10, 1, 6, 's', 1, 'held.example', 443, ?1, ?1),
                (11, 2, 6, 's', 1, 'expired.example', 443, ?2, ?2)",
        [old, old - 1000],
    )
    .unwrap();
    run(&db, &add_hold(old - 10, old + 10, Some("preservation request"), now));

    sweep(&db, retention_cutoff(now, 90 * 24 * 3600 * 1000));

    let remaining: Vec<String> = rows(&db, "SELECT dst_ip FROM flows ORDER BY id", |r| r.get(0));
    assert_eq!(remaining, vec!["held.example".to_string()]);
    let session_ids: Vec<i64> = rows(&db, "SELECT id FROM sessions ORDER BY id", |r| r.get(0));
    assert_eq!(session_ids, vec![1]);

    run(&db, &remove_hold(1));
    sweep(&db, retention_cutoff(now, 90 * 24 * 3600 * 1000));
    assert_eq!(count(&db, "SELECT COUNT(*) FROM flows"), 0);
    assert_eq!(count(&db, "SELECT COUNT(*) FROM sessions"), 0);
}

#[test]
fn a_flow_that_never_closed_stays_with_its_young_session() {
    let flows = vec![
        FlowSpan { id: 1, session_id: 1, first_ms: 10, last_ms: None },
        FlowSpan { id: 2, session_id: 2, first_ms: 10, last_ms: None },
    ];
    let sessions = vec![
        SessionSpan { id: 1, start_ms: 5, end_ms: Some(500) },
        SessionSpan { id: 2, start_ms: 5, end_ms: Some(20) },
    ];
    let none = (Vec::new(), Vec::new());
    let plan = retention_sweep(&flows, &sessions, &Vec::new(), &none.0, &none.1, 100);
    assert_eq!(plan.flows, vec![2]);
    assert_eq!(plan.sessions, vec![2]);
}

#[test]
fn rejects_db_of_a_different_identity() {
    let db = opened(&[0xaa; 20]);
    let stored: String = db.query_row(STORED_IDENTITY, [], |r| r.get(0)).unwrap();
    assert!(check_identity("log", Some(&stored), &[0xaa; 20]).is_ok());
    let err = match check_identity("log", Some(&stored), &[0xbb; 20]) {
        Ok(_) => panic!("opening another identity's log must fail"),
        Err(e) => e,
    };
    assert!(err.contains("belongs to identity"), "{}", err);
    assert_eq!(
        err,
        "connlog: log belongs to identity aaaaaaaa, not bbbbbbbb — use a per-identity directory"
    );
}

#[test]
fn flow_query_overlap_semantics() {
    let db = opened(&[1; 20]);
    db.execute(
        "INSERT INTO flows(id, session_id, proto, src_ip, src_port, dst_ip, dst_port, first_ms, last_ms)
         VALUES (1, 1, 6, 's', 1, '1.2.3.4', 443, 1000, 2000),
                (2, 1, 6, 's', 1, '1.2.3.4', 443, 5000, NULL),
                (3, 1, 6, 's', 1, '1.2.3.4', 443, 9000, 9500)",
        [],
    )
    .unwrap();
    let q = FlowQuery { from_ms: Some(1500), to_ms: Some(6000), ..to([1, 2, 3, 4]) };
    let ids: Vec<i64> = rows_of(&db, &q);
    assert_eq!(ids, vec![1, 2]);
    assert_eq!(rows_of(&db, &FlowQuery { port: Some(444), ..Default::default() }), vec![]);
    assert_eq!(rows_of(&db, &FlowQuery { session: Some(1), ..Default::default() }), vec![1, 2, 3]);
}

fn rows_of(db: &Connection, q: &FlowQuery) -> Vec<i64> {
    let s = query_flows(q);
    let mut stmt = db.prepare(&s.sql).unwrap();
    let found = stmt.query_map(rusqlite::params_from_iter(params(&s)), |r| r.get(0)).unwrap();
    found.map(|r| r.unwrap()).collect()
}

#[test]
fn throttle_token_bucket_refills() {
    let mut t = Throttle::new(10, 10);
    let t0 = 1_000_000i64;
    for i in 0..10 {
        assert!(t.allow(t0 + i).0, "burst allows first 10");
    }
    assert!(!t.allow(t0 + 11).0, "bucket empty");
    assert!(!t.allow(t0 + 12).0);
    let (ok, summary) = t.allow(t0 + 512);
    assert!(ok);
    let (from, to, count) = summary.expect("summary of the finished window");
    assert_eq!(count, 2);
    assert!(from <= to);
    assert_eq!((from, to), (t0 + 11, t0 + 12));
}

#[test]
fn addresses_are_logged_once_and_not_too_many() {
    let (mut session, _) = SessionLog::start(&cfg(), 5, 0, addr([203, 0, 113, 1], 443));
    let a = addr([198, 51, 100, 7], 1);
    assert!(session.addr(AddrKind::Verified, a, 1).is_some());
    assert_eq!(session.addr(AddrKind::Verified, a, 2), None);
    assert!(session.addr(AddrKind::SharerPublic, a, 2).is_some());
    for p in 2..100 {
        session.addr(AddrKind::Reported, addr([198, 51, 100, 7], p), 3);
    }
    assert_eq!(session.seen.len(), 64);
}

#[test]
fn an_unconfirmed_flow_asks_for_its_egress() {
    let (mut session, _) = SessionLog::start(&cfg(), 5, 0, addr([203, 0, 113, 1], 443));
    let (src, dst) = (addr([10, 0, 85, 2], 1), addr([93, 184, 216, 34], 443));
    let (evs, _) = session.flow_open(10, 6, src, dst, false, 1);
    assert_eq!(wants_egress(&evs[0]), Some((6, src, dst)));
    let db = opened(&[1; 20]);
    let out = addr([192, 0, 2, 10], 41000);
    for s in flush_batch(&evs, &vec![Some(out)]) {
        run(&db, &s);
    }
    assert_eq!(flows(&db, &to([93, 184, 216, 34]))[0].5.as_deref(), Some("192.0.2.10:41000"));
}

#[test]
fn the_writer_marks_gaps_and_jumps() {
    let mut w = WriterState::new(1_000_000, 0);
    let (marks, sweep) = w.housekeeping(1_001_000, 1000, 0);
    assert!(marks.is_empty());
    assert!(sweep);
    let (marks, sweep) = w.housekeeping(1_012_000, 2000, 3);
    assert_eq!(marks.len(), 2);
    assert!(matches!(&marks[0], Ev::Mark { kind, .. } if *kind == "clock_jump"));
    assert!(matches!(&marks[1], Ev::Mark { kind, .. } if *kind == "log_gap"));
    assert!(!sweep);
    let later = 1000 + RETENTION_SWEEP_INTERVAL;
    let (_, sweep) = w.housekeeping(1_010_000 + later as i64, later, 3);
    assert!(sweep);
}

#[test]
fn a_failed_write_is_kept_until_there_is_no_room() {
    let mut w = WriterState::new(0, 0);
    let o = w.flushed(false, 10, 5);
    assert!(!o.clear && o.report && o.dropped == 0);
    let o = w.flushed(false, CHANNEL_CAPACITY, 6);
    assert!(o.clear && !o.report);
    assert_eq!(o.dropped, CHANNEL_CAPACITY as u64);
    let o = w.flushed(true, 1, 7);
    assert!(o.clear && o.mark.is_some());
    assert!(w.flushed(true, 1, 8).mark.is_none());
    assert_eq!(dropped_after(4, Handed::Taken), 4);
    assert_eq!(dropped_after(4, Handed::Full), 5);
    assert_eq!(dropped_after(u64::MAX, Handed::Gone), 0);
}

#[test]
fn numbers_of_records_are_positive() {
    assert_eq!(usable_id(0), None);
    assert_eq!(usable_id(1), None);
    assert_eq!(usable_id(u64::MAX), Some(i64::MAX));
    if let (Some(a), Some(b)) = (random_id(), random_id()) {
        assert!(a > 0 && b > 0);
        assert_ne!(a, b);
    }
    assert_eq!(now_ms(Some(7)), 7);
    assert_eq!(now_ms(None), 0);
}

#[test]
fn a_flow_counts_both_ways() {
    let mut f = FlowGuard { id: 1, up: u64::MAX, down: 0, established: false, closed: false };
    f.add_up(2);
    f.add_down(3);
    assert_eq!((f.up, f.down), (1, 3));
    assert!(f.established(None).is_some());
    assert!(f.established(None).is_none());
    match f.close("idle", 30, 100) {
        Some(Ev::FlowClose { last_ms, established, .. }) => {
            assert_eq!(last_ms, 70);
            assert!(established);
        }
        other => panic!("got {other:?}"),
    }
}

#[test]
fn holds_are_listed() {
    let db = opened(&[1; 20]);
    run(&db, &add_hold(1, 2, None, 9));
    run(&db, &add_hold(3, 4, Some("n"), 9));
    let held = rows(&db, &list_holds().sql, |r| {
        Ok((r.get::<_, i64>(0)?, r.get::<_, i64>(1)?, r.get::<_, i64>(2)?, r.get::<_, Option<String>>(3)?))
    });
    assert_eq!(held, vec![(1, 1, 2, None), (2, 3, 4, Some("n".to_string()))]);
}

#[test]
fn the_marks_add_up_to_what_was_dropped() {
    let mut w = WriterState::new(0, 0);
    let mut told: Vec<String> = Vec::new();
    for (round, dropped) in [2u64, 2, 7, 12].into_iter().enumerate() {
        let (marks, _) = w.housekeeping(round as i64, round as u64, dropped);
        for m in marks {
            if let Ev::Mark { detail, .. } = m {
                told.push(detail);
            }
        }
    }
    assert_eq!(
        told,
        vec![
            "{\"reason\":\"channel_full\",\"dropped\":2}",
            "{\"reason\":\"channel_full\",\"dropped\":5}",
            "{\"reason\":\"channel_full\",\"dropped\":5}",
        ]
    );
    assert_eq!(w.dropped_seen, 12);
}

#[test]
fn a_foreign_identity_is_shown_by_its_first_bytes() {
    let own = "0101010101010101010101010101010101010101";
    let err = check_identity("log", Some("\u{e9}\u{e9}\u{e9}\u{e9}\u{e9}"), &[1; 20]).unwrap_err();
    assert!(err.contains(" belongs to identity \u{e9}\u{e9}\u{e9}\u{e9}, not 01010101 "), "{err}");
    let err = check_identity("log", Some("short"), &[1; 20]).unwrap_err();
    assert!(err.contains(" belongs to identity short, not "), "{err}");
    assert_eq!(check_identity("log", Some(own), &[1; 20]).unwrap(), own);
}

#[test]
fn a_limit_of_nothing_counts_as_one() {
    let mut c = cfg();
    c.max_flow_records_per_sec = 0;
    c.flow_record_burst = 0;
    let (log, _) = SessionLog::start(&c, 1, 2, addr([192, 0, 2, 1], 443));
    assert_eq!(log.throttle, Throttle::new(0, 0));
    assert_eq!(log.throttle, Throttle::new(1, 1));
    assert_eq!((log.throttle.rate_per_sec, log.throttle.burst), (1, 1));
    assert_eq!(log.throttle.milli_tokens, 1000);
}
