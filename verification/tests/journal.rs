//! Record files: what is written, what is left out, and what goes.

use spora_core::journal::{file_name, list_files, sweep, Fate, Sent, Sink, Writer};
use spora_core::text::{dec_text, duration_text, parse_number, signed_text, split_chars, trim};
use spora_core::vocab::Role;

#[test]
fn samples_are_cut_past_the_size_limit() {
    let mut w = Writer::new(0, 100);
    assert_eq!(w.next(true), Fate::Written { gap: None });
    w.wrote(100);
    assert_eq!(w.next(true), Fate::Cut);
    assert_eq!(w.next(true), Fate::Cut);
    assert_eq!(w.next(false), Fate::Written { gap: Some(2) });
    assert_eq!(w.next(false), Fate::Written { gap: None });
}

#[test]
fn dropped_entries_become_a_gap() {
    let mut s = Sink::new();
    assert_eq!(s.pending(), None);
    assert!(!s.entry_sent(Sent::Full));
    assert!(s.entry_sent(Sent::Disconnected));
    assert!(!s.entry_sent(Sent::Disconnected));
    assert_eq!(s.pending(), Some(3));
    s.gap_sent(Sent::Full);
    assert_eq!(s.pending(), Some(3));
    s.gap_sent(Sent::Accepted);
    assert_eq!(s.pending(), None);
}

#[test]
fn old_files_go() {
    let times = vec![30, 10, 20];
    assert_eq!(sweep(&times, 2, 1000, 30), vec![false, true, false]);
    assert_eq!(sweep(&times, 3, 15, 30), vec![false, true, false]);
    assert_eq!(sweep(&times, 3, 1000, 30), vec![false, false, false]);
    assert_eq!(list_files(&times), vec![0, 2, 1]);
}

#[test]
fn a_file_is_named_by_time_end_and_identifier() {
    assert_eq!(
        file_name(1_755_000_000_000, Role::Client, "0123456789abcdef"),
        "20250812T120000Z-client-01234567.jsonl"
    );
    assert_eq!(
        file_name(1_755_000_000_000, Role::Exit, "\u{e9}\u{e9}\u{e9}\u{e9}\u{e9}"),
        "20250812T120000Z-exit-\u{e9}\u{e9}\u{e9}\u{e9}.jsonl"
    );
    assert_eq!(file_name(1_755_000_000_000, Role::Exit, "ab"), "20250812T120000Z-exit-ab.jsonl");
}

#[test]
fn texts_are_read_and_written() {
    assert_eq!(dec_text(u64::MAX), u64::MAX.to_string());
    assert_eq!(signed_text(i64::MIN), i64::MIN.to_string());
    for ms in [0u64, 1, 300, 999, 1000, 1500, 1050, 1001, 30_000] {
        let d = core::time::Duration::from_millis(ms);
        assert_eq!(duration_text(ms), format!("{d:?}"));
    }
    let chars = |s: &str| s.chars().collect::<Vec<char>>();
    assert_eq!(parse_number(&chars("255"), 10, 255), Some(255));
    assert_eq!(parse_number(&chars("256"), 10, 255), None);
    assert_eq!(parse_number(&chars(""), 10, 255), None);
    assert_eq!(trim(&chars(" \ta b\n")), chars("a b"));
    assert_eq!(split_chars(&chars("a,,b"), ','), vec![chars("a"), chars(""), chars("b")]);
}

#[test]
fn every_loss_of_the_queue_is_told() {
    let mut s = Sink::new();
    let (mut lost, mut told): (u64, u64) = (0, 0);
    let ends = [Sent::Full, Sent::Full, Sent::Accepted, Sent::Full, Sent::Accepted, Sent::Accepted];
    for (i, end) in ends.iter().enumerate() {
        if let Some(n) = s.pending() {
            let gap = if i == 1 { Sent::Full } else { Sent::Accepted };
            s.gap_sent(gap);
            if gap == Sent::Accepted {
                told += n;
            }
        }
        s.entry_sent(*end);
        if *end != Sent::Accepted {
            lost += 1;
        }
        assert_eq!(lost, told + s.pending().unwrap_or(0));
    }
    assert_eq!((lost, told), (3, 3));
}

#[test]
fn no_more_files_stay_than_are_kept() {
    let times = vec![5, 9, 5, 1, 7, 9];
    let gone = sweep(&times, 3, 1000, 10);
    assert_eq!(gone, vec![true, false, true, true, false, false]);
    assert_eq!(sweep(&times, 0, 1000, 10), vec![true; 6]);
}
