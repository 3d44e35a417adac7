//! What the entries of a stream come to: the records that they fold into, and
//! how the run that they tell of came out.

use vstd::prelude::*;
use crate::record;
use crate::record::{Entry, Open, RecordParts, RecorderParts, Step};
use crate::vocab::{Outcome, StepKind, StepOutcome};

verus! {

/// A record of which only the opening is there.
pub open spec fn opened(o: Open) -> RecordParts {
    RecordParts {
        open: o@,
        steps: Seq::empty(),
        samples: Seq::empty(),
        gaps: Seq::empty(),
        close: None,
        truncated: true,
    }
}

/// A record after more entries of its stream.
pub open spec fn filled(r: RecordParts, own: Seq<Entry>) -> RecordParts
    decreases own.len(),
{
    if own.len() == 0 {
        r
    } else {
        record::with_entry(filled(r, own.drop_last()), own.last())
    }
}

/// Whether there is no opening among entries.
pub open spec fn no_opening(es: Seq<Entry>) -> bool {
    forall|i: int| 0 <= i < es.len() ==> !((#[trigger] es[i]) is Open)
}

/// How many openings there are among entries.
pub open spec fn openings(es: Seq<Entry>) -> nat
    decreases es.len(),
{
    if es.len() == 0 {
        0
    } else {
        openings(es.drop_last()) + if es.last() is Open {
            1nat
        } else {
            0nat
        }
    }
}

/// There is one record for each opening.
pub proof fn one_record_for_each_opening(es: Seq<Entry>)
    ensures
        record::folded(es).len() == openings(es),
    decreases es.len(),
{
    if es.len() > 0 {
        one_record_for_each_opening(es.drop_last());
    }
}

/// What comes before the first opening is skipped.
pub proof fn nothing_before_the_first_opening(es: Seq<Entry>)
    requires
        no_opening(es),
    ensures
        record::folded(es).len() == 0,
    decreases es.len(),
{
    if es.len() > 0 {
        let before = es.drop_last();
        assert forall|i: int| 0 <= i < before.len() implies !((#[trigger] before[i]) is Open) by {
            assert(es[i] == before[i]);
        }
        assert(es[es.len() - 1] == es.last());
        nothing_before_the_first_opening(before);
    }
}

proof fn lemma_own(before: Seq<Entry>, o: Open, own: Seq<Entry>)
    requires
        no_opening(own),
    ensures
        record::folded(before.push(Entry::Open(o)) + own) == record::folded(before).push(
            filled(opened(o), own),
        ),
    decreases own.len(),
{
    let start = before.push(Entry::Open(o));
    let all = start + own;
    if own.len() == 0 {
        assert(all =~= start);
        assert(start.drop_last() =~= before);
        assert(record::folded(all) =~= record::folded(before).push(opened(o)));
    } else {
        let less = own.drop_last();
        assert forall|i: int| 0 <= i < less.len() implies !((#[trigger] less[i]) is Open) by {
            assert(own[i] == less[i]);
        }
        assert(own[own.len() - 1] == own.last());
        lemma_own(before, o, less);
        assert(all.drop_last() =~= start + less);
        assert(all.last() == own.last());
        assert(record::folded(all) =~= record::folded(before).push(filled(opened(o), own)));
    }
}

proof fn lemma_later(before: Seq<Entry>, after: Seq<Entry>)
    requires
        after.len() > 0 ==> after[0] is Open,
    ensures
        record::folded(before + after).len() >= record::folded(before).len(),
        record::folded(before + after).take(record::folded(before).len() as int) == record::folded(
            before,
        ),
        after.len() > 0 ==> record::folded(before + after).len() > record::folded(before).len(),
    decreases after.len(),
{
    let n = record::folded(before).len() as int;
    let all = before + after;
    if after.len() == 0 {
        assert(all =~= before);
        assert(record::folded(before).take(n) =~= record::folded(before));
    } else {
        let less = after.drop_last();
        assert(all.drop_last() =~= before + less);
        if less.len() > 0 {
            assert(less[0] == after[0]);
        }
        lemma_later(before, less);
        let so_far = record::folded(before + less);
        assert forall|i: int| 0 <= i < n implies record::folded(all)[i] == so_far[i] by {
        }
        assert(record::folded(all).take(n) =~= so_far.take(n));
    }
}

/// Each opening has its record, in the order of the openings: it holds the
/// entries from the opening to the next one, whatever else the stream holds.
pub proof fn record_holds_its_own_entries(
    before: Seq<Entry>,
    o: Open,
    own: Seq<Entry>,
    after: Seq<Entry>,
)
    requires
        no_opening(own),
        after.len() > 0 ==> after[0] is Open,
    ensures
        ({
            let all = record::folded(before.push(Entry::Open(o)) + own + after);
            let n = openings(before) as int;
            n < all.len() && all[n] == filled(opened(o), own) && all.take(n) == record::folded(
                before,
            )
        }),
{
    let first = before.push(Entry::Open(o)) + own;
    let all = record::folded(first + after);
    one_record_for_each_opening(before);
    lemma_own(before, o, own);
    lemma_later(first, after);
    let n = openings(before) as int;
    assert(all.take(n + 1)[n] == all[n]);
    assert(all.take(n) =~= all.take(n + 1).take(n));
    assert(record::folded(before).push(filled(opened(o), own)).take(n) =~= record::folded(before));
}

/// A record is truncated if and only if no ending came.
pub proof fn truncated_without_an_ending(o: Open, own: Seq<Entry>)
    ensures
        filled(opened(o), own).truncated <==> forall|i: int|
            0 <= i < own.len() ==> !((#[trigger] own[i]) is Close),
        filled(opened(o), own).truncated <==> filled(opened(o), own).close is None,
        filled(opened(o), own).open == o@,
    decreases own.len(),
{
    if own.len() > 0 {
        let less = own.drop_last();
        truncated_without_an_ending(o, less);
        assert(own[own.len() - 1] == own.last());
        assert forall|i: int| 0 <= i < less.len() implies own[i] == less[i] by {
        }
        if !(own.last() is Close) {
            if filled(opened(o), less).truncated {
                assert forall|i: int| 0 <= i < own.len() implies !((#[trigger] own[i]) is Close) by {
                    if i < less.len() {
                        assert(!(less[i] is Close));
                    }
                }
            } else {
                let i = choose|i: int| 0 <= i < less.len() && (#[trigger] less[i]) is Close;
                assert(own[i] is Close);
            }
        }
    }
}

/// Whether an entry is a step with a sequence number.
pub open spec fn is_step(e: Entry, seq: u64) -> bool {
    e matches Entry::Step(s) && s.seq == seq
}

/// The place of the first step with a sequence number, or the length.
pub open spec fn first_step(es: Seq<Entry>, seq: u64) -> int
    decreases es.len(),
{
    if es.len() == 0 {
        0
    } else {
        let before = first_step(es.drop_last(), seq);
        if before < es.len() - 1 || is_step(es.last(), seq) {
            before
        } else {
            es.len() as int
        }
    }
}

/// Whether an entry is a step, and the last one with its sequence number.
pub open spec fn last_word(es: Seq<Entry>, k: int, s: Step) -> bool {
    &&& 0 <= k < es.len()
    &&& es[k] == Entry::Step(s)
    &&& forall|m: int| k < m < es.len() ==> !is_step(#[trigger] es[m], s.seq)
}

/// Whether a step is the last word on its sequence number.
pub open spec fn told_last(es: Seq<Entry>, s: Step) -> bool {
    exists|k: int| #[trigger] last_word(es, k, s)
}

proof fn lemma_first_step(es: Seq<Entry>, seq: u64)
    ensures
        0 <= first_step(es, seq) <= es.len(),
        first_step(es, seq) < es.len() ==> is_step(es[first_step(es, seq)], seq),
        forall|i: int| 0 <= i < first_step(es, seq) ==> !is_step(#[trigger] es[i], seq),
    decreases es.len(),
{
    if es.len() > 0 {
        let less = es.drop_last();
        lemma_first_step(less, seq);
        let at = first_step(es, seq);
        assert forall|i: int| 0 <= i < at implies !is_step(#[trigger] es[i], seq) by {
            if i < less.len() {
                assert(less[i] == es[i]);
            } else {
                assert(es[i] == es.last());
            }
        }
        if at < less.len() {
            assert(less[at] == es[at]);
        }
    }
}

/// A record has each step once: where it was first told, and as it was told
/// last.
pub proof fn each_step_once(o: Open, own: Seq<Entry>)
    ensures
        ({
            let steps = filled(opened(o), own).steps;
            &&& forall|i: int, j: int|
                0 <= i < j < steps.len() ==> first_step(own, (#[trigger] steps[i]).seq)
                    < first_step(own, (#[trigger] steps[j]).seq) && steps[i].seq != steps[j].seq
            &&& forall|i: int|
                0 <= i < steps.len() ==> told_last(own, #[trigger] steps[i])
            &&& forall|k: int, seq: u64|
                0 <= k < own.len() && #[trigger] is_step(own[k], seq) ==> exists|i: int|
                    0 <= i < steps.len() && (#[trigger] steps[i]).seq == seq
        }),
    decreases own.len(),
{
    let steps = filled(opened(o), own).steps;
    if own.len() > 0 {
        let less = own.drop_last();
        let e = own.last();
        let before = filled(opened(o), less).steps;
        each_step_once(o, less);
        assert(own[own.len() - 1] == e);
        assert forall|seq: u64| first_step(less, seq) < less.len() implies #[trigger] first_step(
            own,
            seq,
        ) == first_step(less, seq) by {
        }
        assert forall|i: int| 0 <= i < before.len() implies first_step(
            less,
            (#[trigger] before[i]).seq,
        ) < less.len() by {
            assert(told_last(less, before[i]));
            let k = choose|k: int| last_word(less, k, before[i]);
            lemma_first_step(less, before[i].seq);
            assert(is_step(less[k], before[i].seq));
        }
        match e {
            Entry::Step(s) => {
                record::lemma_last_with(before, s.seq);
                lemma_first_step(less, s.seq);
                let at = record::last_with(before, s.seq);
                if at < 0 {
                    assert(first_step(less, s.seq) == less.len()) by {
                        let f = first_step(less, s.seq);
                        if f < less.len() {
                            assert(is_step(less[f], s.seq));
                        }
                    }
                    assert(first_step(own, s.seq) == less.len());
                }
                assert forall|i: int, j: int| 0 <= i < j < steps.len() implies first_step(
                    own,
                    (#[trigger] steps[i]).seq,
                ) < first_step(own, (#[trigger] steps[j]).seq) && steps[i].seq != steps[j].seq by {
                    if j < before.len() {
                        assert(before[i].seq == steps[i].seq && before[j].seq == steps[j].seq);
                    } else {
                        assert(before[i].seq == steps[i].seq);
                    }
                }
                assert forall|i: int| 0 <= i < steps.len() implies told_last(
                    own,
                    #[trigger] steps[i],
                ) by {
                    if steps[i].seq == s.seq {
                        if at >= 0 && i != at {
                            if i < at {
                                assert(before[i].seq != before[at].seq);
                            } else {
                                assert(before[at].seq != before[i].seq);
                            }
                        }
                        assert(steps[i] == s);
                        assert(last_word(own, own.len() - 1, s));
                    } else {
                        assert(steps[i] == before[i]);
                        assert(told_last(less, before[i]));
                        let k = choose|k: int| last_word(less, k, before[i]);
                        assert(less[k] == own[k]);
                        assert forall|m: int| k < m < own.len() implies !is_step(
                            #[trigger] own[m],
                            before[i].seq,
                        ) by {
                            if m < less.len() {
                                assert(less[m] == own[m]);
                            }
                        }
                        assert(last_word(own, k, steps[i]));
                    }
                }
                assert forall|k: int, seq: u64|
                    0 <= k < own.len() && #[trigger] is_step(own[k], seq) implies exists|i: int|
                    0 <= i < steps.len() && (#[trigger] steps[i]).seq == seq by {
                    if k < less.len() {
                        assert(is_step(less[k], seq));
                        let i = choose|i: int|
                            0 <= i < before.len() && (#[trigger] before[i]).seq == seq;
                        assert(steps[i].seq == seq);
                    } else if at >= 0 {
                        assert(steps[at].seq == seq);
                    } else {
                        assert(steps[before.len() as int].seq == seq);
                    }
                }
            },
            _ => {
                assert(steps == before);
                assert forall|i: int, j: int| 0 <= i < j < steps.len() implies first_step(
                    own,
                    (#[trigger] steps[i]).seq,
                ) < first_step(own, (#[trigger] steps[j]).seq) && steps[i].seq != steps[j].seq by {
                    assert(before[i].seq == steps[i].seq && before[j].seq == steps[j].seq);
                }
                assert forall|i: int| 0 <= i < steps.len() implies told_last(
                    own,
                    #[trigger] steps[i],
                ) by {
                    assert(told_last(less, before[i]));
                    let k = choose|k: int| last_word(less, k, before[i]);
                    assert(less[k] == own[k]);
                    assert forall|m: int| k < m < own.len() implies !is_step(
                        #[trigger] own[m],
                        before[i].seq,
                    ) by {
                        if m < less.len() {
                            assert(less[m] == own[m]);
                        }
                    }
                    assert(last_word(own, k, steps[i]));
                }
                assert forall|k: int, seq: u64|
                    0 <= k < own.len() && #[trigger] is_step(own[k], seq) implies exists|i: int|
                    0 <= i < steps.len() && (#[trigger] steps[i]).seq == seq by {
                    assert(is_step(less[k], seq));
                    let i = choose|i: int| 0 <= i < before.len() && (#[trigger] before[i]).seq == seq;
                    assert(steps[i].seq == seq);
                }
            },
        }
    }
}

/// A line that holds no entry changes nothing, wherever it stands.
pub proof fn unreadable_line_changes_nothing(lines: Seq<Option<Entry>>, at: int)
    requires
        0 <= at <= lines.len(),
    ensures
        record::readable(lines.insert(at, None)) == record::readable(lines),
        record::folded(record::readable(lines.insert(at, None))) == record::folded(
            record::readable(lines),
        ),
    decreases lines.len(),
{
    let more = lines.insert(at, None);
    if at == lines.len() {
        assert(more.drop_last() =~= lines);
    } else {
        assert(more.drop_last() =~= lines.drop_last().insert(at, None));
        assert(more.last() == lines.last());
        unreadable_line_changes_nothing(lines.drop_last(), at);
    }
}

/// Whether an entry tells that a tunnel that is up is up no more.
pub open spec fn went_down(e: Entry) -> bool {
    match e {
        Entry::Step(s) => s.outcome != StepOutcome::Started && (s.kind == StepKind::SessionEnd
            || s.kind == StepKind::Reconnect),
        Entry::Close(_) => true,
        _ => false,
    }
}

/// Whether a tunnel came up and has not gone down since.
pub open spec fn is_up(log: Seq<Entry>) -> bool {
    exists|i: int|
        0 <= i < log.len() && record::came_up(#[trigger] log[i]) && forall|j: int|
            i < j < log.len() ==> !went_down(#[trigger] log[j])
}

/// Whether a tunnel ever came up.
pub open spec fn was_up(log: Seq<Entry>) -> bool {
    exists|i: int| 0 <= i < log.len() && record::came_up(#[trigger] log[i])
}

proof fn lemma_up(log: Seq<Entry>)
    ensures
        record::summary_of(log).up_since_ms is Some <==> is_up(log),
        record::times_up(log) > 0 <==> was_up(log),
    decreases log.len(),
{
    if log.len() > 0 {
        let less = log.drop_last();
        let e = log.last();
        lemma_up(less);
        assert(log[log.len() - 1] == e);
        assert forall|i: int| 0 <= i < less.len() implies less[i] == log[i] by {
        }
        if record::came_up(e) {
            assert(is_up(log));
            assert(was_up(log));
        } else {
            if was_up(less) {
                let i = choose|i: int| 0 <= i < less.len() && record::came_up(#[trigger] less[i]);
                assert(record::came_up(log[i]));
            }
            if was_up(log) {
                let i = choose|i: int| 0 <= i < log.len() && record::came_up(#[trigger] log[i]);
                assert(record::came_up(less[i]));
            }
            if is_up(log) {
                let i = choose|i: int|
                    0 <= i < log.len() && record::came_up(#[trigger] log[i]) && forall|j: int|
                        i < j < log.len() ==> !went_down(#[trigger] log[j]);
                assert(!went_down(log[log.len() - 1]));
                assert(record::came_up(less[i]));
                assert forall|j: int| i < j < less.len() implies !went_down(#[trigger] less[j]) by {
                    assert(!went_down(log[j]));
                }
                assert(is_up(less));
            }
            if is_up(less) && !went_down(e) {
                let i = choose|i: int|
                    0 <= i < less.len() && record::came_up(#[trigger] less[i]) && forall|j: int|
                        i < j < less.len() ==> !went_down(#[trigger] less[j]);
                assert(record::came_up(log[i]));
                assert forall|j: int| i < j < log.len() implies !went_down(#[trigger] log[j]) by {
                    if j < less.len() {
                        assert(!went_down(less[j]));
                    }
                }
                assert(is_up(log));
            }
        }
    }
}

/// A run that ends in the ordinary way comes out as what happened in it: closed
/// by us if a tunnel came up and has not gone down since, lost if one came up
/// and went, and never connected if none came up.
pub proof fn shutdown_tells_what_happened(r: RecorderParts)
    requires
        record::recorder_ok(r),
        r.enabled,
    ensures
        record::shutdown_outcome(r.summary) == if is_up(r.log) {
            Outcome::ClosedLocally
        } else if was_up(r.log) {
            Outcome::Lost
        } else {
            Outcome::NeverConnected
        },
{
    lemma_up(r.log);
}

proof fn lemma_stays_up(before: Seq<Entry>, mid: Seq<Entry>)
    requires
        forall|j: int| 0 <= j < mid.len() ==> !went_down(#[trigger] mid[j]),
        record::summary_of(before).up_since_ms is Some,
    ensures
        record::summary_of(before + mid).up_since_ms == record::summary_of(before).up_since_ms,
        record::summary_of(before + mid).connected_ms == record::summary_of(before).connected_ms,
    decreases mid.len(),
{
    let log = before + mid;
    if mid.len() > 0 {
        let less = mid.drop_last();
        assert forall|j: int| 0 <= j < less.len() implies !went_down(#[trigger] less[j]) by {
            assert(less[j] == mid[j]);
        }
        lemma_stays_up(before, less);
        assert(log.drop_last() =~= before + less);
        assert(!went_down(mid[mid.len() - 1]));
    } else {
        assert(log =~= before);
    }
}

/// The time that a tunnel was up counts from when it came up to when it went
/// down, whatever is recorded in between.
pub proof fn time_connected_is_counted(
    before: Seq<Entry>,
    up: Entry,
    mid: Seq<Entry>,
    down: Entry,
)
    requires
        !is_up(before),
        record::came_up(up),
        forall|j: int| 0 <= j < mid.len() ==> !went_down(#[trigger] mid[j]),
        went_down(down),
        up.time() <= down.time(),
        record::summary_of(before).connected_ms + (down.time() - up.time()) <= u64::MAX,
    ensures
        ({
            let log = (before.push(up) + mid).push(down);
            &&& record::summary_of(log).connected_ms == record::summary_of(before).connected_ms + (
            down.time() - up.time())
            &&& !is_up(log)
            &&& is_up(before.push(up) + mid)
        }),
{
    let risen = before.push(up);
    let log = (risen + mid).push(down);
    lemma_up(before);
    lemma_up(log);
    lemma_up(risen + mid);
    assert(risen.drop_last() =~= before);
    assert(record::summary_of(risen).up_since_ms == Some(up.time()));
    lemma_stays_up(risen, mid);
    assert(log.drop_last() =~= risen + mid);
}

/// A record that nobody closed tells that the connection was lost, where there
/// ever was one, and else that there never was.
pub proof fn unclosed_runs_tell_whether_they_connected(r: RecorderParts)
    requires
        record::recorder_ok(r),
        r.enabled,
    ensures
        record::unclosed_outcome(r.summary) == if was_up(r.log) {
            Outcome::Lost
        } else {
            Outcome::NeverConnected
        },
{
    lemma_up(r.log);
}

} // verus!
