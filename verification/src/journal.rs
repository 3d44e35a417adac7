//! Writing records out: what goes into a record file, which files are kept,
//! and in which order they are read.

use vstd::prelude::*;
use vstd::set_lib::*;
use vstd::string::*;
use crate::calendar;
use crate::text;
use crate::vocab::Role;

verus! {

/// What becomes of an entry.
#[derive(Debug, Clone, Copy, PartialEq, Eq)]
pub enum Fate {
    /// It is left out, because the file is large enough.
    Cut,
    /// It is written, after a gap of so many entries if there was one.
    Written { gap: Option<u64> },
}

/// The state of a record file: its size, how many entries were cut since the
/// last gap was written, and the size from which samples are cut.
#[derive(Debug, Clone, Copy, PartialEq, Eq)]
pub struct Writer {
    pub written: u64,
    pub cut: u64,
    pub max_bytes: u64,
}

impl Writer {
    /// A file that has `written` bytes.
    pub fn new(written: u64, max_bytes: u64) -> (w: Writer)
        ensures
            w == (Writer { written, cut: 0, max_bytes }),
    {
        Writer { written, cut: 0, max_bytes }
    }

    /// Decides what becomes of the next entry. Past the size limit samples are
    /// cut; everything else is always written, and a cut shows as a gap before
    /// the next entry that is no sample. No cut goes uncounted: what is still
    /// to be told of plus the gap that is told is what there was, plus this
    /// entry if it is cut.
    pub fn next(&mut self, is_sample: bool) -> (f: Fate)
        requires
            old(self).cut < u64::MAX,
        ensures
            f is Cut <==> is_sample && old(self).written >= old(self).max_bytes,
            f matches Fate::Written { gap } ==> gap == if !is_sample && old(self).cut > 0 {
                Some(old(self).cut)
            } else {
                None
            },
            *final(self) == (Writer {
                cut: if f is Cut {
                    (old(self).cut + 1) as u64
                } else if is_sample {
                    old(self).cut
                } else {
                    0
                },
                ..*old(self)
            }),
            final(self).cut + (match f {
                Fate::Written { gap: Some(n) } => n as int,
                _ => 0,
            }) == old(self).cut + if f is Cut {
                1int
            } else {
                0
            },
    {
        if self.written >= self.max_bytes && is_sample {
            self.cut = self.cut + 1;
            return Fate::Cut;
        }
        if self.cut > 0 && !is_sample {
            let n: u64 = self.cut;
            self.cut = 0;
            return Fate::Written { gap: Some(n) };
        }
        Fate::Written { gap: None }
    }

    /// Counts a line of `len` bytes and its newline.
    pub fn wrote(&mut self, len: u64)
        requires
            old(self).written + len < u64::MAX,
        ensures
            *final(self) == (Writer {
                written: (old(self).written + len + 1) as u64,
                ..*old(self)
            }),
    {
        self.written = self.written + len + 1;
    }
}

/// How handing an entry to the writer's queue came out.
#[derive(Debug, Clone, Copy, PartialEq, Eq)]
pub enum Sent {
    Accepted,
    Full,
    Disconnected,
}

/// The side of the queue that entries are handed to: how many were dropped
/// since the last gap got through, and whether the loss of the writer has been
/// reported.
#[derive(Debug, Clone, Copy, PartialEq, Eq)]
pub struct Sink {
    pub dropped: u64,
    pub complained: bool,
}

/// A queue after its pending gap was handed over with this result.
pub open spec fn gap_handed(s: Sink, r: Sent) -> Sink {
    Sink {
        dropped: if r is Accepted {
            0
        } else {
            s.dropped
        },
        ..s
    }
}

/// A queue after an entry was handed over with this result.
pub open spec fn entry_handed(s: Sink, r: Sent) -> Sink {
    Sink {
        dropped: if r is Accepted {
            s.dropped
        } else {
            (s.dropped + 1) as u64
        },
        complained: s.complained || r is Disconnected,
    }
}

impl Sink {
    /// A queue that has lost nothing.
    pub fn new() -> (s: Sink)
        ensures
            s == (Sink { dropped: 0, complained: false }),
    {
        Sink { dropped: 0, complained: false }
    }

    /// The gap to hand over before the next entry.
    pub fn pending(&self) -> (g: Option<u64>)
        ensures
            g == if self.dropped > 0 {
                Some(self.dropped)
            } else {
                None
            },
    {
        if self.dropped > 0 {
            Some(self.dropped)
        } else {
            None
        }
    }

    /// The pending gap was handed over, with this result.
    pub fn gap_sent(&mut self, r: Sent)
        ensures
            *final(self) == gap_handed(*old(self), r),
    {
        match r {
            Sent::Accepted => {
                self.dropped = 0;
            },
            _ => {},
        }
    }

    /// An entry was handed over, with this result. Returns whether to report
    /// that the writer is gone, which happens once.
    pub fn entry_sent(&mut self, r: Sent) -> (complain: bool)
        requires
            old(self).dropped < u64::MAX,
        ensures
            complain == (r is Disconnected && !old(self).complained),
            *final(self) == entry_handed(*old(self), r),
    {
        match r {
            Sent::Accepted => false,
            Sent::Full => {
                self.dropped = self.dropped + 1;
                false
            },
            Sent::Disconnected => {
                self.dropped = self.dropped + 1;
                let first: bool = !self.complained;
                self.complained = true;
                first
            },
        }
    }
}

/// A queue, how many entries it has lost, and how many of them gaps have told
/// of.
pub struct SinkRun {
    pub sink: Sink,
    pub lost: nat,
    pub told: nat,
}

/// A queue after one more entry: the pending gap is handed over first, where
/// there is one, with the first result, and then the entry with the second.
pub open spec fn sent_one(run: SinkRun, gap: Sent, entry: Sent) -> SinkRun {
    let tells = run.sink.dropped > 0;
    let between = if tells {
        gap_handed(run.sink, gap)
    } else {
        run.sink
    };
    SinkRun {
        sink: entry_handed(between, entry),
        lost: run.lost + if entry is Accepted {
            0nat
        } else {
            1
        },
        told: run.told + if tells && gap is Accepted {
            run.sink.dropped as nat
        } else {
            0
        },
    }
}

/// Every entry that the queue has lost is told of, in a gap that got through or
/// in the one that is pending; and once a gap and an entry get through, all of
/// them have been.
pub proof fn losses_are_told(run: SinkRun, gap: Sent, entry: Sent)
    requires
        run.lost == run.told + run.sink.dropped,
        run.sink.dropped < u64::MAX,
    ensures
        ({
            let next = sent_one(run, gap, entry);
            &&& next.lost == next.told + next.sink.dropped
            &&& gap is Accepted && entry is Accepted ==> next.lost == next.told
        }),
{
}

/// How many of the first `n` files are older than file `i`; of two of the same
/// age the one listed first counts as older.
pub open spec fn older_among(times: Seq<u64>, i: int, n: int) -> nat
    decreases n,
{
    if n <= 0 {
        0
    } else {
        older_among(times, i, n - 1) + if times[n - 1] < times[i] || (times[n - 1] == times[i] && n
            - 1 < i) {
            1nat
        } else {
            0
        }
    }
}

/// Whether file `i` goes: it is one of the oldest beyond the number to keep,
/// or past the age limit.
pub open spec fn goes(times: Seq<u64>, i: int, keep: nat, max_age: u64, now: u64) -> bool {
    ||| older_among(times, i, times.len() as int) + keep < times.len()
    ||| now >= times[i] && now - times[i] > max_age
}

/// Decides which record files to delete, from their modification times.
pub fn sweep(times: &Vec<u64>, keep: usize, max_age: u64, now: u64) -> (gone: Vec<bool>)
    ensures
        gone.len() == times.len(),
        forall|i: int|
            0 <= i < times.len() ==> gone@[i] == goes(times@, i, keep as nat, max_age, now),
{
    let n: usize = times.len();
    let excess: usize = if n > keep {
        n - keep
    } else {
        0
    };
    let mut gone: Vec<bool> = Vec::new();
    let mut i: usize = 0;
    while i < n
        invariant
            i <= n,
            n == times.len(),
            excess == if n > keep {
                n - keep
            } else {
                0
            },
            gone.len() == i,
            forall|k: int| 0 <= k < i ==> gone@[k] == goes(times@, k, keep as nat, max_age, now),
        decreases n - i,
    {
        let mut older: usize = 0;
        let mut j: usize = 0;
        while j < n
            invariant
                j <= n,
                i < n,
                n == times.len(),
                older <= j,
                older == older_among(times@, i as int, j as int),
            decreases n - j,
        {
            if times[j] < times[i] || (times[j] == times[i] && j < i) {
                older = older + 1;
            }
            j = j + 1;
        }
        let too_old: bool = now >= times[i] && now - times[i] > max_age;
        gone.push(older < excess || too_old);
        i = i + 1;
    }
    gone
}

/// Whether file `i` counts as older than file `j`.
pub open spec fn is_older(times: Seq<u64>, i: int, j: int) -> bool {
    times[i] < times[j] || (times[i] == times[j] && i < j)
}

/// The files that stay.
pub open spec fn staying(times: Seq<u64>, keep: nat, max_age: u64, now: u64) -> Set<int> {
    Set::new(|i: int| 0 <= i < times.len() && !goes(times, i, keep, max_age, now))
}

proof fn older_has_fewer_older(times: Seq<u64>, i: int, j: int, n: int)
    requires
        0 <= i < times.len(),
        0 <= j < times.len(),
        0 <= n <= times.len(),
        is_older(times, i, j),
    ensures
        older_among(times, i, n) + (if i < n {
            1nat
        } else {
            0
        }) <= older_among(times, j, n),
    decreases n,
{
    if n > 0 {
        older_has_fewer_older(times, i, j, n - 1);
    }
}

proof fn not_older_than_itself(times: Seq<u64>, i: int, n: int)
    requires
        0 <= i < times.len(),
        0 <= n <= times.len(),
    ensures
        older_among(times, i, n) + (if i < n {
            1nat
        } else {
            0
        }) <= n,
    decreases n,
{
    if n > 0 {
        not_older_than_itself(times, i, n - 1);
    }
}

/// No more than `keep` files stay, and the oldest go first: where a file goes,
/// every older one does.
pub proof fn the_newest_stay(times: Seq<u64>, keep: nat, max_age: u64, now: u64)
    ensures
        staying(times, keep, max_age, now).finite(),
        staying(times, keep, max_age, now).len() <= keep,
        forall|i: int, j: int|
            0 <= i < times.len() && 0 <= j < times.len() && #[trigger] is_older(times, i, j)
                && goes(times, j, keep, max_age, now) ==> goes(times, i, keep, max_age, now),
{
    let n = times.len() as int;
    let stay = staying(times, keep, max_age, now);
    let rank = |i: int| older_among(times, i, n) as int;
    let low = if keep < n {
        n - keep
    } else {
        0
    };
    lemma_int_range(0, n);
    lemma_int_range(low, n);
    assert(stay.subset_of(set_int_range(0, n)));
    lemma_len_subset(stay, set_int_range(0, n));
    assert forall|i: int, j: int|
        stay.contains(i) && stay.contains(j) && #[trigger] rank(i) == #[trigger] rank(j) implies i
        == j by {
        if i != j {
            if is_older(times, i, j) {
                older_has_fewer_older(times, i, j, n);
            } else {
                older_has_fewer_older(times, j, i, n);
            }
        }
    }
    let ranks = stay.map(rank);
    lemma_map_size(stay, ranks, rank);
    assert forall|r: int| ranks.contains(r) implies set_int_range(low, n).contains(r) by {
        let i = choose|i: int| stay.contains(i) && rank(i) == r;
        not_older_than_itself(times, i, n);
    }
    lemma_len_subset(ranks, set_int_range(low, n));
    assert forall|i: int, j: int|
        0 <= i < times.len() && 0 <= j < times.len() && #[trigger] is_older(times, i, j) && goes(
            times,
            j,
            keep,
            max_age,
            now,
        ) implies goes(times, i, keep, max_age, now) by {
        older_has_fewer_older(times, i, j, n);
    }
}

/// The place in a list of files, newest first, before the first one that is
/// older than time `t`.
pub open spec fn slot(times: Seq<u64>, order: Seq<int>, t: u64, from: int) -> int
    decreases order.len() - from,
{
    if from >= order.len() {
        order.len() as int
    } else if times[order[from]] < t {
        from
    } else {
        slot(times, order, t, from + 1)
    }
}

/// The first `n` files, newest first; those of the same age stay in the order
/// in which they are listed.
pub open spec fn newest_first(times: Seq<u64>, n: int) -> Seq<int>
    decreases n,
{
    if n <= 0 {
        Seq::empty()
    } else {
        let before = newest_first(times, n - 1);
        before.insert(slot(times, before, times[n - 1], 0), n - 1)
    }
}

/// Places as integers.
pub open spec fn places(v: Seq<usize>) -> Seq<int> {
    Seq::new(v.len(), |i: int| v[i] as int)
}

proof fn lemma_slot(times: Seq<u64>, order: Seq<int>, t: u64, from: int)
    requires
        0 <= from <= order.len(),
    ensures
        from <= slot(times, order, t, from) <= order.len(),
        forall|k: int| from <= k < slot(times, order, t, from) ==> times[#[trigger] order[k]] >= t,
        slot(times, order, t, from) < order.len() ==> times[order[slot(times, order, t, from)]] < t,
    decreases order.len() - from,
{
    if from < order.len() && times[order[from]] >= t {
        lemma_slot(times, order, t, from + 1);
    }
}

/// Listing files newest first gives every file once, each at least as new as
/// those after it.
pub proof fn newest_first_is_sorted(times: Seq<u64>, n: int)
    requires
        0 <= n <= times.len(),
    ensures
        newest_first(times, n).len() == n,
        forall|i: int| 0 <= i < n ==> newest_first(times, n).contains(i),
        forall|k: int| 0 <= k < n ==> 0 <= #[trigger] newest_first(times, n)[k] < n,
        forall|j: int, k: int|
            0 <= j < k < n ==> times[#[trigger] newest_first(times, n)[j]] >= times[
                #[trigger] newest_first(times, n)[k]],
    decreases n,
{
    if n > 0 {
        newest_first_is_sorted(times, n - 1);
        let before = newest_first(times, n - 1);
        let t = times[n - 1];
        let at = slot(times, before, t, 0);
        lemma_slot(times, before, t, 0);
        let after = newest_first(times, n);
        assert forall|i: int| 0 <= i < n implies after.contains(i) by {
            if i == n - 1 {
                assert(after[at] == i);
            } else {
                assert(before.contains(i));
                let k = choose|k: int| 0 <= k < before.len() && before[k] == i;
                assert(after[if k < at {
                    k
                } else {
                    k + 1
                }] == i);
            }
        }
        assert forall|k: int| 0 <= k < n implies 0 <= #[trigger] after[k] < n by {
            if k < at {
                assert(after[k] == before[k]);
            } else if k > at {
                assert(after[k] == before[k - 1]);
            }
        }
        assert forall|j: int, k: int| 0 <= j < k < n implies times[#[trigger] after[j]]
            >= times[#[trigger] after[k]] by {
            let j0 = if j < at {
                j
            } else {
                j - 1
            };
            let k0 = if k < at {
                k
            } else {
                k - 1
            };
            if j == at {
                assert(after[k] == before[k0]);
                if k0 > at {
                    assert(times[before[at]] >= times[before[k0]]);
                }
            } else if k == at {
                assert(after[j] == before[j0]);
            } else {
                assert(after[j] == before[j0] && after[k] == before[k0]);
                assert(times[before[j0]] >= times[before[k0]]);
            }
        }
    }
}

/// The order in which to read record files: newest first, from their
/// modification times.
pub fn list_files(times: &Vec<u64>) -> (order: Vec<usize>)
    ensures
        places(order@) == newest_first(times@, times@.len() as int),
{
    let mut order: Vec<usize> = Vec::new();
    let mut i: usize = 0;
    assert(places(order@) =~= newest_first(times@, 0));
    while i < times.len()
        invariant
            i <= times.len(),
            places(order@) == newest_first(times@, i as int),
        decreases times.len() - i,
    {
        let ghost before = places(order@);
        proof {
            newest_first_is_sorted(times@, i as int);
            assert forall|k: int| 0 <= k < order@.len() implies order@[k] < times@.len() by {
                assert(before[k] == order@[k] as int);
            }
        }
        let mut at: usize = 0;
        while at < order.len() && times[order[at]] >= times[i]
            invariant
                i < times.len(),
                at <= order.len(),
                before == places(order@),
                forall|k: int| 0 <= k < order@.len() ==> order@[k] < times@.len(),
                slot(times@, before, times@[i as int], 0) == slot(
                    times@,
                    before,
                    times@[i as int],
                    at as int,
                ),
            decreases order.len() - at,
        {
            at = at + 1;
        }
        order.insert(at, i);
        assert(places(order@) =~= before.insert(at as int, i as int));
        i = i + 1;
    }
    order
}

/// The name of a record file: when it was opened, by which end, and the first
/// eight bytes of the record's identifier.
pub fn file_name(at_unix_ms: u64, role: Role, id: &str) -> (s: String)
    requires
        text::cut_fits(id@, 8),
    ensures
        exists|c: calendar::Civil|
            calendar::is_civil_of(c, at_unix_ms as nat) && s@ == #[trigger] calendar::stamp_text(c)
                + seq!['-'] + role.code() + seq!['-'] + text::first_bytes(id@, 8) + ".jsonl"@,
{
    let stamp = calendar::utc_stamp(at_unix_ms);
    let ghost c = choose|c: calendar::Civil|
        calendar::is_civil_of(c, at_unix_ms as nat) && stamp@ == #[trigger] calendar::stamp_text(c);
    let short = text::first_bytes_of(id, 8);
    let mut s = stamp.clone();
    s.push('-');
    s.append(role.as_str());
    s.push('-');
    s.append(short.as_str());
    s.append(".jsonl");
    assert(s@ =~= calendar::stamp_text(c) + seq!['-'] + role.code() + seq!['-']
        + text::first_bytes(id@, 8) + ".jsonl"@);
    s
}

/// The files that are newer than a file; of equally old ones those listed later
/// are.
pub open spec fn newer_than(times: Seq<u64>, i: int) -> Set<int> {
    Set::new(|j: int| 0 <= j < times.len() && is_older(times, i, j))
}

proof fn lemma_older_and_newer(times: Seq<u64>, i: int, n: int)
    requires
        0 <= i < times.len(),
        0 <= n <= times.len(),
    ensures
        ({
            let newer = Set::new(|j: int| 0 <= j < n && is_older(times, i, j));
            &&& newer.finite()
            &&& older_among(times, i, n) + newer.len() + (if i < n {
                1nat
            } else {
                0
            }) == n
        }),
    decreases n,
{
    let newer = Set::new(|j: int| 0 <= j < n && is_older(times, i, j));
    if n > 0 {
        lemma_older_and_newer(times, i, n - 1);
        let before = Set::new(|j: int| 0 <= j < n - 1 && is_older(times, i, j));
        if is_older(times, i, n - 1) {
            assert(newer =~= before.insert(n - 1));
            assert(!before.contains(n - 1));
        } else {
            assert(newer =~= before);
        }
    } else {
        assert(newer =~= Set::empty());
    }
}

/// A file is deleted exactly if as many newer ones are there as are kept, or if
/// it is older than files may become.
pub proof fn files_go_when_newer_ones_fill_the_place(
    times: Seq<u64>,
    i: int,
    keep: nat,
    max_age: u64,
    now: u64,
)
    requires
        0 <= i < times.len(),
    ensures
        goes(times, i, keep, max_age, now) <==> newer_than(times, i).len() >= keep || now > times[i]
            + max_age,
{
    let n = times.len() as int;
    lemma_older_and_newer(times, i, n);
    assert(newer_than(times, i) =~= Set::new(|j: int| 0 <= j < n && is_older(times, i, j)));
}

/// Of equally old files, those listed first stay first.
pub proof fn equally_old_files_keep_their_order(times: Seq<u64>, n: int)
    requires
        0 <= n <= times.len(),
    ensures
        forall|j: int, k: int|
            0 <= j < k < n && times[#[trigger] newest_first(times, n)[j]] == times[
                #[trigger] newest_first(times, n)[k]] ==> newest_first(times, n)[j] < newest_first(
                times,
                n,
            )[k],
    decreases n,
{
    if n > 0 {
        newest_first_is_sorted(times, n - 1);
        equally_old_files_keep_their_order(times, n - 1);
        let before = newest_first(times, n - 1);
        let t = times[n - 1];
        let at = slot(times, before, t, 0);
        lemma_slot(times, before, t, 0);
        let after = newest_first(times, n);
        assert forall|j: int, k: int|
            0 <= j < k < n && times[#[trigger] after[j]] == times[#[trigger] after[k]] implies after[j]
            < after[k] by {
            let j0 = if j < at {
                j
            } else {
                j - 1
            };
            let k0 = if k < at {
                k
            } else {
                k - 1
            };
            if j == at {
                assert(after[k] == before[k0]);
                assert(times[before[at]] < t);
                if k0 > at {
                    assert(times[before[at]] >= times[before[k0]]);
                }
            } else if k == at {
                assert(after[j] == before[j0]);
            } else {
                assert(after[j] == before[j0] && after[k] == before[k0]);
                assert(times[before[j0]] == times[before[k0]]);
            }
        }
    }
}

} // verus!
