//! The record of one run: what was attempted, how each thing came out, what
//! was measured, and how the run ended.
//!
//! A [`Recorder`] keeps the record in memory and hands back every entry for
//! whoever writes it out. Reading the written entries back with
//! [`read_stream`] gives the record that the recorder holds.

use vstd::prelude::*;
use vstd::string::*;
use vstd::utf8::*;
use crate::bytes;
use crate::fault::Fault;
use crate::outside;
use crate::text;
use crate::vocab::{
    Carrier, MtuSource, Outcome, PathKind, Reason, Role, RttSource, StepKind, StepOutcome,
};

verus! {

/// Bumped when the meaning of existing fields changes.
pub const FORMAT_VERSION: u32 = 1;

/// What a build is.
#[derive(Debug, PartialEq, Eq)]
pub struct Build {
    pub version: String,
    pub commit: Option<String>,
    pub dirty: bool,
    pub target: String,
    pub profile: String,
}

/// An endpoint as configured, and its address once that is known.
#[derive(Debug, PartialEq, Eq)]
pub struct EndpointRef {
    pub host: String,
    pub port: u16,
    pub carrier: Carrier,
    pub path: PathKind,
    pub addr: Option<String>,
}

/// Opens a record: what is true of the whole run.
#[derive(Debug, PartialEq, Eq)]
pub struct Open {
    pub v: u32,
    pub id: String,
    pub role: Role,
    pub at_unix_ms: u64,
    pub build: Build,
    pub routing_key: Option<String>,
    pub endpoints: Vec<EndpointRef>,
    pub upgrade_enabled: bool,
    pub label: Option<String>,
    pub correlation_id: Option<String>,
}

/// One thing that was attempted, and how it came out.
#[derive(Debug, PartialEq, Eq)]
pub struct Step {
    pub id: String,
    pub at_ms: u64,
    pub seq: u64,
    pub kind: StepKind,
    pub outcome: StepOutcome,
    pub reason: Option<Reason>,
    pub dur_ms: Option<u64>,
    pub session: Option<u32>,
    pub cycle: Option<u32>,
    pub carrier: Option<Carrier>,
    pub path: Option<PathKind>,
    pub via: Option<String>,
    pub local: Option<String>,
    pub peer: Option<String>,
    pub detail: Option<String>,
}

/// A measurement taken while the tunnel was up.
#[derive(Debug, PartialEq, Eq)]
pub struct Sample {
    pub id: String,
    pub at_ms: u64,
    pub path: PathKind,
    pub carrier: Carrier,
    pub session: Option<u32>,
    pub cycle: Option<u32>,
    /// The round trip in microseconds.
    pub rtt_us: Option<u64>,
    pub rtt_src: Option<RttSource>,
    pub tx_bytes: u64,
    pub rx_bytes: u64,
    pub tx_pkts: u64,
    pub rx_pkts: u64,
    pub tx_bps: Option<u64>,
    pub rx_bps: Option<u64>,
    pub lost_pkts: Option<u64>,
    pub cwnd: Option<u64>,
    pub mtu: Option<u16>,
    pub mtu_src: Option<MtuSource>,
    pub probes_sent: Option<u64>,
    pub probes_lost: Option<u64>,
}

/// Entries that were dropped.
#[derive(Debug, PartialEq, Eq)]
pub struct Gap {
    pub id: String,
    pub at_ms: u64,
    pub dropped: u64,
}

/// Closes a record: how the run ended, and its summary.
#[derive(Debug, PartialEq, Eq)]
pub struct Close {
    pub id: String,
    pub at_ms: u64,
    pub at_unix_ms: u64,
    pub outcome: Outcome,
    pub reason: Option<Reason>,
    pub detail: Option<String>,
    pub sessions: u32,
    pub reconnects: u32,
    pub first_connect_ms: Option<u64>,
    pub direct_ms: Option<u64>,
    pub connected_ms: u64,
    pub tx_bytes: u64,
    pub rx_bytes: u64,
}

/// One line of a record stream.
#[derive(Debug, Clone, PartialEq, Eq)]
pub enum Entry {
    Open(Open),
    Step(Step),
    Sample(Sample),
    Gap(Gap),
    Close(Close),
}

/// A whole record.
#[derive(Debug, Clone, PartialEq, Eq)]
pub struct Record {
    pub open: Open,
    pub steps: Vec<Step>,
    pub samples: Vec<Sample>,
    pub gaps: Vec<Gap>,
    pub close: Option<Close>,
    pub truncated: bool,
}

/// What an opening holds.
#[verifier::ext_equal]
pub struct Opening {
    pub v: u32,
    pub id: String,
    pub role: Role,
    pub at_unix_ms: u64,
    pub build: Build,
    pub routing_key: Option<String>,
    pub endpoints: Seq<EndpointRef>,
    pub upgrade_enabled: bool,
    pub label: Option<String>,
    pub correlation_id: Option<String>,
}

impl Open {
    pub open spec fn view(&self) -> Opening {
        Opening {
            v: self.v,
            id: self.id,
            role: self.role,
            at_unix_ms: self.at_unix_ms,
            build: self.build,
            routing_key: self.routing_key,
            endpoints: self.endpoints@,
            upgrade_enabled: self.upgrade_enabled,
            label: self.label,
            correlation_id: self.correlation_id,
        }
    }
}

/// What a record holds.
#[verifier::ext_equal]
pub struct RecordParts {
    pub open: Opening,
    pub steps: Seq<Step>,
    pub samples: Seq<Sample>,
    pub gaps: Seq<Gap>,
    pub close: Option<Close>,
    pub truncated: bool,
}

impl Record {
    pub open spec fn view(&self) -> RecordParts {
        RecordParts {
            open: self.open@,
            steps: self.steps@,
            samples: self.samples@,
            gaps: self.gaps@,
            close: self.close,
            truncated: self.truncated,
        }
    }
}

/// A copy of an optional text.
pub fn copy_opt(s: &Option<String>) -> (r: Option<String>)
    ensures
        r == *s,
{
    match s {
        Some(t) => Some(t.clone()),
        None => None,
    }
}

impl Clone for Build {
    fn clone(&self) -> (r: Build)
        ensures
            r == *self,
    {
        Build {
            version: self.version.clone(),
            commit: copy_opt(&self.commit),
            dirty: self.dirty,
            target: self.target.clone(),
            profile: self.profile.clone(),
        }
    }
}

impl Clone for EndpointRef {
    fn clone(&self) -> (r: EndpointRef)
        ensures
            r == *self,
    {
        EndpointRef {
            host: self.host.clone(),
            port: self.port,
            carrier: self.carrier,
            path: self.path,
            addr: copy_opt(&self.addr),
        }
    }
}

impl Clone for Open {
    fn clone(&self) -> (r: Open)
        ensures
            r@ == self@,
    {
        let mut endpoints: Vec<EndpointRef> = Vec::new();
        let mut i: usize = 0;
        while i < self.endpoints.len()
            invariant
                i <= self.endpoints.len(),
                endpoints@ == self.endpoints@.take(i as int),
            decreases self.endpoints.len() - i,
        {
            endpoints.push(self.endpoints[i].clone());
            i = i + 1;
        }
        assert(endpoints@ =~= self.endpoints@);
        Open {
            v: self.v,
            id: self.id.clone(),
            role: self.role,
            at_unix_ms: self.at_unix_ms,
            build: self.build.clone(),
            routing_key: copy_opt(&self.routing_key),
            endpoints,
            upgrade_enabled: self.upgrade_enabled,
            label: copy_opt(&self.label),
            correlation_id: copy_opt(&self.correlation_id),
        }
    }
}

impl Clone for Step {
    fn clone(&self) -> (r: Step)
        ensures
            r == *self,
    {
        Step {
            id: self.id.clone(),
            at_ms: self.at_ms,
            seq: self.seq,
            kind: self.kind,
            outcome: self.outcome,
            reason: self.reason,
            dur_ms: self.dur_ms,
            session: self.session,
            cycle: self.cycle,
            carrier: self.carrier,
            path: self.path,
            via: copy_opt(&self.via),
            local: copy_opt(&self.local),
            peer: copy_opt(&self.peer),
            detail: copy_opt(&self.detail),
        }
    }
}

impl Clone for Sample {
    fn clone(&self) -> (r: Sample)
        ensures
            r == *self,
    {
        Sample {
            id: self.id.clone(),
            at_ms: self.at_ms,
            path: self.path,
            carrier: self.carrier,
            session: self.session,
            cycle: self.cycle,
            rtt_us: self.rtt_us,
            rtt_src: self.rtt_src,
            tx_bytes: self.tx_bytes,
            rx_bytes: self.rx_bytes,
            tx_pkts: self.tx_pkts,
            rx_pkts: self.rx_pkts,
            tx_bps: self.tx_bps,
            rx_bps: self.rx_bps,
            lost_pkts: self.lost_pkts,
            cwnd: self.cwnd,
            mtu: self.mtu,
            mtu_src: self.mtu_src,
            probes_sent: self.probes_sent,
            probes_lost: self.probes_lost,
        }
    }
}

impl Clone for Gap {
    fn clone(&self) -> (r: Gap)
        ensures
            r == *self,
    {
        Gap { id: self.id.clone(), at_ms: self.at_ms, dropped: self.dropped }
    }
}

impl Clone for Close {
    fn clone(&self) -> (r: Close)
        ensures
            r == *self,
    {
        Close {
            id: self.id.clone(),
            at_ms: self.at_ms,
            at_unix_ms: self.at_unix_ms,
            outcome: self.outcome,
            reason: self.reason,
            detail: copy_opt(&self.detail),
            sessions: self.sessions,
            reconnects: self.reconnects,
            first_connect_ms: self.first_connect_ms,
            direct_ms: self.direct_ms,
            connected_ms: self.connected_ms,
            tx_bytes: self.tx_bytes,
            rx_bytes: self.rx_bytes,
        }
    }
}

impl Entry {
    /// When an entry was made, in milliseconds since the record opened.
    pub open spec fn time(&self) -> u64 {
        match self {
            Entry::Open(_) => 0,
            Entry::Step(s) => s.at_ms,
            Entry::Sample(s) => s.at_ms,
            Entry::Gap(g) => g.at_ms,
            Entry::Close(c) => c.at_ms,
        }
    }

    /// When an entry was made, in milliseconds since the record opened.
    pub fn at_ms(&self) -> (t: u64)
        ensures
            t == self.time(),
    {
        match self {
            Entry::Open(_) => 0,
            Entry::Step(s) => s.at_ms,
            Entry::Sample(s) => s.at_ms,
            Entry::Gap(g) => g.at_ms,
            Entry::Close(c) => c.at_ms,
        }
    }
}

/// The place of the last step with a sequence number, or `-1`.
pub open spec fn last_with(steps: Seq<Step>, seq: u64) -> int
    decreases steps.len(),
{
    if steps.len() == 0 {
        -1
    } else if steps.last().seq == seq {
        steps.len() - 1
    } else {
        last_with(steps.drop_last(), seq)
    }
}

/// The steps with one more. A step with a sequence number that is there
/// already takes the place of the last one that has it.
pub open spec fn with_step(steps: Seq<Step>, s: Step) -> Seq<Step> {
    let at = last_with(steps, s.seq);
    if at >= 0 {
        steps.update(at, s)
    } else {
        steps.push(s)
    }
}

/// A record after one more entry of its stream.
pub open spec fn with_entry(r: RecordParts, e: Entry) -> RecordParts {
    match e {
        Entry::Open(_) => r,
        Entry::Step(s) => RecordParts { steps: with_step(r.steps, s), ..r },
        Entry::Sample(s) => RecordParts { samples: r.samples.push(s), ..r },
        Entry::Gap(g) => RecordParts { gaps: r.gaps.push(g), ..r },
        Entry::Close(c) => RecordParts { close: Some(c), truncated: false, ..r },
    }
}

/// The records of an entry stream. An opening starts a record; what comes
/// before the first one is skipped.
pub open spec fn folded(entries: Seq<Entry>) -> Seq<RecordParts>
    decreases entries.len(),
{
    if entries.len() == 0 {
        Seq::empty()
    } else {
        let before = folded(entries.drop_last());
        match entries.last() {
            Entry::Open(o) => before.push(
                RecordParts {
                    open: o@,
                    steps: Seq::empty(),
                    samples: Seq::empty(),
                    gaps: Seq::empty(),
                    close: None,
                    truncated: true,
                },
            ),
            e => if before.len() == 0 {
                before
            } else {
                before.update(before.len() - 1, with_entry(before.last(), e))
            },
        }
    }
}

/// The entries of a stream of lines, without those that hold none.
pub open spec fn readable(lines: Seq<Option<Entry>>) -> Seq<Entry>
    decreases lines.len(),
{
    if lines.len() == 0 {
        Seq::empty()
    } else {
        let before = readable(lines.drop_last());
        match lines.last() {
            Some(e) => before.push(e),
            None => before,
        }
    }
}

/// The records of a vector.
pub open spec fn records(v: Seq<Record>) -> Seq<RecordParts> {
    Seq::new(v.len(), |i: int| v[i]@)
}

fn find_seq(steps: &Vec<Step>, seq: u64) -> (at: Option<usize>)
    ensures
        match at {
            Some(i) => i < steps.len() && last_with(steps@, seq) == i,
            None => last_with(steps@, seq) == -1,
        },
{
    let mut end: usize = steps.len();
    assert(steps@.take(end as int) =~= steps@);
    while end > 0
        invariant
            end <= steps.len(),
            last_with(steps@, seq) == last_with(steps@.take(end as int), seq),
        decreases end,
    {
        assert(steps@.take(end as int).drop_last() =~= steps@.take(end - 1));
        if steps[end - 1].seq == seq {
            return Some(end - 1);
        }
        end = end - 1;
    }
    None
}

impl Record {
    fn take_in(&mut self, e: Entry)
        requires
            !(e is Open),
        ensures
            final(self)@ == with_entry(old(self)@, e),
    {
        match e {
            Entry::Open(_) => {},
            Entry::Step(s) => match find_seq(&self.steps, s.seq) {
                Some(i) => self.steps.set(i, s),
                None => self.steps.push(s),
            },
            Entry::Sample(s) => self.samples.push(s),
            Entry::Gap(g) => self.gaps.push(g),
            Entry::Close(c) => {
                self.close = Some(c);
                self.truncated = false;
            },
        }
    }

    /// Folds a stream of lines back into records. A line that holds no entry,
    /// such as a last one that was torn, is skipped.
    pub fn read_lines(lines: Vec<Option<Entry>>) -> (out: Vec<Record>)
        ensures
            records(out@) == folded(readable(lines@)),
    {
        let ghost all = lines@;
        let mut rest = lines;
        let mut entries: Vec<Entry> = Vec::new();
        let ghost mut n: int = 0;
        assert(all.take(0) =~= Seq::<Option<Entry>>::empty());
        assert(all.skip(0) =~= all);
        while rest.len() > 0
            invariant
                0 <= n <= all.len(),
                rest@ == all.skip(n),
                entries@ == readable(all.take(n)),
            decreases rest.len(),
        {
            let line = rest.remove(0);
            assert(rest@ =~= all.skip(n + 1));
            assert(line == all[n]);
            assert(all.take(n + 1).drop_last() =~= all.take(n));
            match line {
                Some(e) => entries.push(e),
                None => {},
            }
            proof {
                n = n + 1;
            }
        }
        assert(all.take(n) =~= all);
        Record::read_stream(entries)
    }

    /// Folds an entry stream back into records.
    pub fn read_stream(entries: Vec<Entry>) -> (out: Vec<Record>)
        ensures
            records(out@) == folded(entries@),
    {
        let mut out: Vec<Record> = Vec::new();
        let ghost all = entries@;
        let mut rest = entries;
        let ghost mut n: int = 0;
        assert(records(out@) =~= Seq::<RecordParts>::empty());
        assert(all.take(0) =~= Seq::<Entry>::empty());
        assert(all.skip(0) =~= all);
        while rest.len() > 0
            invariant
                0 <= n <= all.len(),
                rest@ == all.skip(n),
                records(out@) == folded(all.take(n)),
            decreases rest.len(),
        {
            let e = rest.remove(0);
            assert(rest@ =~= all.skip(n + 1));
            assert(e == all[n]);
            assert(all.take(n + 1).drop_last() =~= all.take(n));
            let ghost before = records(out@);
            match e {
                Entry::Open(open) => {
                    let r = Record {
                        open,
                        steps: Vec::new(),
                        samples: Vec::new(),
                        gaps: Vec::new(),
                        close: None,
                        truncated: true,
                    };
                    assert(r@.steps =~= Seq::<Step>::empty());
                    let ghost rv = r@;
                    out.push(r);
                    assert(records(out@) =~= before.push(rv));
                },
                other => {
                    let k: usize = out.len();
                    if k > 0 {
                        match out.pop() {
                            Some(mut r) => {
                                let ghost rv = r@;
                                assert(rv == before.last());
                                r.take_in(other);
                                out.push(r);
                                assert(records(out@) =~= before.update(
                                    before.len() - 1,
                                    with_entry(rv, other),
                                ));
                            },
                            None => {},
                        }
                    }
                },
            }
            proof {
                n = n + 1;
            }
        }
        assert(all.take(n) =~= all);
        out
    }

    /// How the run ended, which is unknown for a record without an ending.
    pub fn outcome(&self) -> (o: Outcome)
        ensures
            o == match self.close {
                Some(c) => c.outcome,
                None => Outcome::Unknown,
            },
    {
        match &self.close {
            Some(c) => c.outcome,
            None => Outcome::Unknown,
        }
    }
}

/// The place of the first failed step at or after `from`, or the length.
pub open spec fn first_failed(steps: Seq<Step>, from: int) -> int
    decreases steps.len() - from,
{
    if from >= steps.len() {
        steps.len() as int
    } else if steps[from].outcome == StepOutcome::Failed {
        from
    } else {
        first_failed(steps, from + 1)
    }
}

/// The distinct reasons of the failed steps, in the order first seen.
pub open spec fn reasons_of(steps: Seq<Step>) -> Seq<Reason>
    decreases steps.len(),
{
    if steps.len() == 0 {
        Seq::empty()
    } else {
        let before = reasons_of(steps.drop_last());
        let s = steps.last();
        if s.outcome == StepOutcome::Failed && s.reason is Some && !before.contains(s.reason->0) {
            before.push(s.reason->0)
        } else {
            before
        }
    }
}

/// The steps of one kind, oldest first.
pub open spec fn steps_of_kind(steps: Seq<Step>, kind: StepKind) -> Seq<Step> {
    steps.filter(|s: Step| s.kind == kind)
}

fn has_reason(v: &Vec<Reason>, r: Reason) -> (b: bool)
    ensures
        b == v@.contains(r),
{
    let mut i: usize = 0;
    while i < v.len()
        invariant
            i <= v.len(),
            forall|j: int| 0 <= j < i ==> v@[j] != r,
        decreases v.len() - i,
    {
        if v[i] == r {
            assert(v@[i as int] == r);
            return true;
        }
        i = i + 1;
    }
    false
}

impl Record {
    /// The first step that failed.
    pub fn first_failure(&self) -> (r: Option<&Step>)
        ensures
            match r {
                Some(s) => first_failed(self.steps@, 0) < self.steps@.len() && *s
                    == self.steps@[first_failed(self.steps@, 0)],
                None => first_failed(self.steps@, 0) == self.steps@.len(),
            },
    {
        let mut i: usize = 0;
        while i < self.steps.len()
            invariant
                i <= self.steps.len(),
                first_failed(self.steps@, 0) == first_failed(self.steps@, i as int),
            decreases self.steps.len() - i,
        {
            if self.steps[i].outcome == StepOutcome::Failed {
                return Some(&self.steps[i]);
            }
            i = i + 1;
        }
        None
    }

    /// Every distinct failure reason, in the order first seen.
    pub fn failure_reasons(&self) -> (out: Vec<Reason>)
        ensures
            out@ == reasons_of(self.steps@),
    {
        let mut out: Vec<Reason> = Vec::new();
        let mut i: usize = 0;
        while i < self.steps.len()
            invariant
                i <= self.steps.len(),
                out@ == reasons_of(self.steps@.take(i as int)),
            decreases self.steps.len() - i,
        {
            assert(self.steps@.take(i + 1).drop_last() =~= self.steps@.take(i as int));
            if self.steps[i].outcome == StepOutcome::Failed {
                if let Some(r) = self.steps[i].reason {
                    if !has_reason(&out, r) {
                        out.push(r);
                    }
                }
            }
            i = i + 1;
        }
        assert(self.steps@.take(i as int) =~= self.steps@);
        out
    }

    /// The steps of one kind, oldest first.
    pub fn steps_of(&self, kind: StepKind) -> (out: Vec<Step>)
        ensures
            out@ == steps_of_kind(self.steps@, kind),
    {
        let mut out: Vec<Step> = Vec::new();
        let ghost pred = |s: Step| s.kind == kind;
        let mut i: usize = 0;
        reveal(Seq::filter);
        while i < self.steps.len()
            invariant
                i <= self.steps.len(),
                pred == (|s: Step| s.kind == kind),
                out@ == self.steps@.take(i as int).filter(pred),
            decreases self.steps.len() - i,
        {
            reveal(Seq::filter);
            assert(self.steps@.take(i + 1).drop_last() =~= self.steps@.take(i as int));
            if self.steps[i].kind == kind {
                out.push(self.steps[i].clone());
            }
            i = i + 1;
        }
        assert(self.steps@.take(i as int) =~= self.steps@);
        out
    }
}

/// The running figures that a record closes with.
#[derive(Debug, Clone, Copy, PartialEq, Eq)]
pub struct Summary {
    /// How many times a usable tunnel came up.
    pub sessions: u32,
    /// How many times the tunnel was dialled again.
    pub reconnects: u32,
    /// When the first tunnel came up.
    pub first_connect_ms: Option<u64>,
    /// When traffic first moved to a direct path.
    pub direct_ms: Option<u64>,
    /// How long tunnels were up, up to the one that is up now.
    pub connected_ms: u64,
    /// Since when a tunnel is up, if one is.
    pub up_since_ms: Option<u64>,
}

/// The summary when nothing has happened.
pub open spec fn nothing_yet() -> Summary {
    Summary {
        sessions: 0,
        reconnects: 0,
        first_connect_ms: None,
        direct_ms: None,
        connected_ms: 0,
        up_since_ms: None,
    }
}

/// `a - b`, or zero where that would be less.
pub open spec fn minus(a: u64, b: u64) -> nat {
    if a >= b {
        (a - b) as nat
    } else {
        0
    }
}

/// The summary when the tunnel that is up, if one is, goes down at `at`.
pub open spec fn gone_down(s: Summary, at: u64) -> Summary {
    match s.up_since_ms {
        Some(up) => Summary {
            connected_ms: (s.connected_ms + minus(at, up)) as u64,
            up_since_ms: None,
            ..s
        },
        None => s,
    }
}

/// The summary after a step that has come to a conclusion.
pub open spec fn accounted(s: Summary, step: Step) -> Summary {
    if step.kind == StepKind::SessionUp && step.outcome == StepOutcome::Succeeded {
        Summary {
            sessions: (s.sessions + 1) as u32,
            first_connect_ms: if s.first_connect_ms is Some {
                s.first_connect_ms
            } else {
                Some(step.at_ms)
            },
            up_since_ms: if s.up_since_ms is Some {
                s.up_since_ms
            } else {
                Some(step.at_ms)
            },
            ..s
        }
    } else if step.kind == StepKind::SessionEnd {
        gone_down(s, step.at_ms)
    } else if step.kind == StepKind::Reconnect {
        gone_down(Summary { reconnects: (s.reconnects + 1) as u32, ..s }, step.at_ms)
    } else if step.kind == StepKind::PathSwap && step.outcome == StepOutcome::Succeeded {
        Summary {
            direct_ms: if s.direct_ms is Some {
                s.direct_ms
            } else {
                Some(step.at_ms)
            },
            ..s
        }
    } else {
        s
    }
}

impl Summary {
    /// Whether the figures can take a step at `at` without overflow.
    pub open spec fn room(&self, at: u64) -> bool {
        self.sessions < u32::MAX && self.reconnects < u32::MAX && self.connected_ms + at <= u64::MAX
    }

    fn go_down(&mut self, at: u64)
        requires
            old(self).connected_ms + at <= u64::MAX,
        ensures
            *final(self) == gone_down(*old(self), at),
    {
        if let Some(up) = self.up_since_ms {
            self.connected_ms = self.connected_ms + if at >= up {
                at - up
            } else {
                0
            };
            self.up_since_ms = None;
        }
    }

    fn account(&mut self, step: &Step)
        requires
            old(self).room(step.at_ms),
        ensures
            *final(self) == accounted(*old(self), *step),
    {
        if step.kind == StepKind::SessionUp && step.outcome == StepOutcome::Succeeded {
            self.sessions = self.sessions + 1;
            if self.first_connect_ms.is_none() {
                self.first_connect_ms = Some(step.at_ms);
            }
            if self.up_since_ms.is_none() {
                self.up_since_ms = Some(step.at_ms);
            }
        } else if step.kind == StepKind::SessionEnd {
            self.go_down(step.at_ms);
        } else if step.kind == StepKind::Reconnect {
            self.reconnects = self.reconnects + 1;
            self.go_down(step.at_ms);
        } else if step.kind == StepKind::PathSwap && step.outcome == StepOutcome::Succeeded {
            if self.direct_ms.is_none() {
                self.direct_ms = Some(step.at_ms);
            }
        }
    }
}

/// What a quality sample is made of.
#[derive(Debug, Clone, Copy, PartialEq, Eq)]
pub struct SampleInput {
    pub path: PathKind,
    pub carrier: Carrier,
    pub rtt_us: Option<u64>,
    pub rtt_src: Option<RttSource>,
    pub tx_bytes: u64,
    pub rx_bytes: u64,
    pub tx_pkts: u64,
    pub rx_pkts: u64,
    pub lost_pkts: Option<u64>,
    pub cwnd: Option<u64>,
    pub mtu: Option<u16>,
    pub mtu_src: Option<MtuSource>,
    pub probes_sent: Option<u64>,
    pub probes_lost: Option<u64>,
}

impl Default for SampleInput {
    /// Everything unknown.
    fn default() -> (s: SampleInput)
        ensures
            s == (SampleInput {
                path: PathKind::Unknown,
                carrier: Carrier::Unknown,
                rtt_us: None,
                rtt_src: None,
                tx_bytes: 0,
                rx_bytes: 0,
                tx_pkts: 0,
                rx_pkts: 0,
                lost_pkts: None,
                cwnd: None,
                mtu: None,
                mtu_src: None,
                probes_sent: None,
                probes_lost: None,
            }),
    {
        SampleInput {
            path: PathKind::Unknown,
            carrier: Carrier::Unknown,
            rtt_us: None,
            rtt_src: None,
            tx_bytes: 0,
            rx_bytes: 0,
            tx_pkts: 0,
            rx_pkts: 0,
            lost_pkts: None,
            cwnd: None,
            mtu: None,
            mtu_src: None,
            probes_sent: None,
            probes_lost: None,
        }
    }
}

/// What the entries of a handle are tagged with: the accepted session on the
/// exit's side, the dial cycle on the client's.
#[derive(Debug, Clone, Copy, PartialEq, Eq)]
pub struct Context {
    pub session: Option<u32>,
    pub cycle: Option<u32>,
}

impl Context {
    /// No tags.
    pub fn none() -> (c: Context)
        ensures
            c == (Context { session: None, cycle: None }),
    {
        Context { session: None, cycle: None }
    }

    /// The same with an exit-side session number.
    pub fn for_session(self, session: u32) -> (c: Context)
        ensures
            c == (Context { session: Some(session), cycle: self.cycle }),
    {
        Context { session: Some(session), cycle: self.cycle }
    }

    /// The same with a client-side dial cycle.
    pub fn for_cycle(self, cycle: u32) -> (c: Context)
        ensures
            c == (Context { session: self.session, cycle: Some(cycle) }),
    {
        Context { session: self.session, cycle: Some(cycle) }
    }
}

/// A step in progress.
pub struct StepHandle {
    pub kind: StepKind,
    pub seq: u64,
    pub start_ms: u64,
    pub timed: bool,
    pub context: Context,
    pub carrier: Option<Carrier>,
    pub path: Option<PathKind>,
    pub via: Option<String>,
    pub local: Option<String>,
    pub peer: Option<String>,
    pub detail: Option<String>,
}

impl StepHandle {
    /// What the step reaches through or aims at.
    pub fn via(self, via: &str) -> (h: StepHandle)
        ensures
            h.via is Some && h.via->0@ == via@,
            h == (StepHandle { via: h.via, ..self }),
    {
        let mut h = self;
        h.via = Some(String::from_str(via));
        h
    }

    pub fn local(self, addr: &str) -> (h: StepHandle)
        ensures
            h.local is Some && h.local->0@ == addr@,
            h == (StepHandle { local: h.local, ..self }),
    {
        let mut h = self;
        h.local = Some(String::from_str(addr));
        h
    }

    pub fn peer(self, addr: &str) -> (h: StepHandle)
        ensures
            h.peer is Some && h.peer->0@ == addr@,
            h == (StepHandle { peer: h.peer, ..self }),
    {
        let mut h = self;
        h.peer = Some(String::from_str(addr));
        h
    }

    pub fn carrier(self, carrier: Carrier) -> (h: StepHandle)
        ensures
            h == (StepHandle { carrier: Some(carrier), ..self }),
    {
        let mut h = self;
        h.carrier = Some(carrier);
        h
    }

    pub fn path(self, path: PathKind) -> (h: StepHandle)
        ensures
            h == (StepHandle { path: Some(path), ..self }),
    {
        let mut h = self;
        h.path = Some(path);
        h
    }

    /// A detail for a human reader.
    pub fn detail(self, detail: &str) -> (h: StepHandle)
        ensures
            h.detail is Some && h.detail->0@ == detail@,
            h == (StepHandle { detail: h.detail, ..self }),
    {
        let mut h = self;
        h.detail = Some(String::from_str(detail));
        h
    }
}

/// The entry of a step with this outcome at `now`. A timed step is stamped
/// with its start and has a duration; another is stamped with now. A detail
/// that comes with the outcome takes the place of an earlier one.
pub open spec fn step_entry(
    id: String,
    h: StepHandle,
    outcome: StepOutcome,
    reason: Option<Reason>,
    detail: Option<String>,
    now: u64,
) -> Step {
    Step {
        id,
        at_ms: if h.timed {
            h.start_ms
        } else {
            now
        },
        seq: h.seq,
        kind: h.kind,
        outcome,
        reason,
        dur_ms: if h.timed {
            Some(minus(now, h.start_ms) as u64)
        } else {
            None
        },
        session: h.context.session,
        cycle: h.context.cycle,
        carrier: h.carrier,
        path: h.path,
        via: h.via,
        local: h.local,
        peer: h.peer,
        detail: if detail is Some {
            detail
        } else {
            h.detail
        },
    }
}

fn make_step(
    id: &String,
    h: &StepHandle,
    outcome: StepOutcome,
    reason: Option<Reason>,
    detail: Option<String>,
    now: u64,
) -> (s: Step)
    ensures
        s == step_entry(*id, *h, outcome, reason, detail, now),
{
    let dur_ms: Option<u64> = if h.timed {
        if now >= h.start_ms {
            Some(now - h.start_ms)
        } else {
            Some(0)
        }
    } else {
        None
    };
    let detail = match detail {
        Some(d) => Some(d),
        None => copy_opt(&h.detail),
    };
    Step {
        id: id.clone(),
        at_ms: if h.timed {
            h.start_ms
        } else {
            now
        },
        seq: h.seq,
        kind: h.kind,
        outcome,
        reason,
        dur_ms,
        session: h.context.session,
        cycle: h.context.cycle,
        carrier: h.carrier,
        path: h.path,
        via: copy_opt(&h.via),
        local: copy_opt(&h.local),
        peer: copy_opt(&h.peer),
        detail,
    }
}

/// How a process records.
#[derive(Debug, Clone, PartialEq, Eq)]
pub struct RecordConfig {
    /// The directory for record files; none keeps the record in memory.
    pub dir: Option<String>,
    /// How often to sample while a tunnel is up, in milliseconds; zero never.
    pub sample_interval: u64,
    /// How many record files to keep.
    pub keep_files: usize,
    /// How old a record file may get, in milliseconds.
    pub max_age: u64,
    /// From which size on a record file takes no more samples, in bytes.
    pub max_file_bytes: u64,
    /// How many steps, and how many samples, are kept in memory.
    pub max_entries: usize,
    pub label: Option<String>,
    pub correlation_id: Option<String>,
}

impl Default for RecordConfig {
    fn default() -> (c: RecordConfig)
        ensures
            c == (RecordConfig {
                dir: None,
                sample_interval: 30_000,
                keep_files: 100,
                max_age: 2_592_000_000,
                max_file_bytes: 33_554_432,
                max_entries: 4096,
                label: None,
                correlation_id: None,
            }),
    {
        RecordConfig {
            dir: None,
            sample_interval: 30_000,
            keep_files: 100,
            max_age: 2_592_000_000,
            max_file_bytes: 33_554_432,
            max_entries: 4096,
            label: None,
            correlation_id: None,
        }
    }
}

impl RecordConfig {
    /// Appends records to files in `dir`.
    pub fn in_dir(dir: &str) -> (c: RecordConfig)
        ensures
            c.dir is Some && c.dir->0@ == dir@,
            c.sample_interval == 30_000 && c.keep_files == 100 && c.max_age == 2_592_000_000
                && c.max_file_bytes == 33_554_432 && c.max_entries == 4096 && c.label is None
                && c.correlation_id is None,
    {
        let mut c = RecordConfig::default();
        c.dir = Some(String::from_str(dir));
        c
    }

    /// Keeps the record in memory.
    pub fn in_memory() -> (c: RecordConfig)
        ensures
            c.dir is None,
            c.sample_interval == 30_000 && c.keep_files == 100 && c.max_age == 2_592_000_000
                && c.max_file_bytes == 33_554_432 && c.max_entries == 4096 && c.label is None
                && c.correlation_id is None,
    {
        RecordConfig::default()
    }

    pub fn with_label(self, label: &str) -> (c: RecordConfig)
        ensures
            c.label is Some && c.label->0@ == label@,
            c == (RecordConfig { label: c.label, ..self }),
    {
        let mut c = self;
        c.label = Some(String::from_str(label));
        c
    }

    pub fn with_correlation_id(self, id: &str) -> (c: RecordConfig)
        ensures
            c.correlation_id is Some && c.correlation_id->0@ == id@,
            c == (RecordConfig { correlation_id: c.correlation_id, ..self }),
    {
        let mut c = self;
        c.correlation_id = Some(String::from_str(id));
        c
    }
}

/// What a recorder holds. `log` is every entry that it has handed back.
#[verifier::ext_equal]
pub struct RecorderParts {
    pub enabled: bool,
    pub id: String,
    pub open: Opening,
    pub steps: Seq<Step>,
    pub samples: Seq<Sample>,
    pub close: Option<Close>,
    pub dropped: u64,
    pub last_sample: Option<(u64, u64, u64)>,
    pub summary: Summary,
    pub tx_bytes: u64,
    pub rx_bytes: u64,
    pub next_seq: u64,
    pub max_entries: usize,
    pub sample_interval: u64,
    pub log: Seq<Entry>,
}

/// The record that a recorder stands for.
pub open spec fn record_of(r: RecorderParts) -> RecordParts {
    RecordParts {
        open: r.open,
        steps: r.steps,
        samples: r.samples,
        gaps: Seq::empty(),
        close: r.close,
        truncated: r.close is None,
    }
}

/// The summary that an entry stream leads to. A step counts once, when it is
/// concluded; the ending takes down a tunnel that is up.
pub open spec fn summary_of(log: Seq<Entry>) -> Summary
    decreases log.len(),
{
    if log.len() == 0 {
        nothing_yet()
    } else {
        let before = summary_of(log.drop_last());
        match log.last() {
            Entry::Step(s) => if s.outcome == StepOutcome::Started {
                before
            } else {
                accounted(before, s)
            },
            Entry::Close(c) => gone_down(before, c.at_ms),
            _ => before,
        }
    }
}

/// Whether an entry tells that a tunnel came up.
pub open spec fn came_up(e: Entry) -> bool {
    e matches Entry::Step(s) && s.kind == StepKind::SessionUp && s.outcome
        == StepOutcome::Succeeded
}

/// How many times the entries tell that a tunnel came up.
pub open spec fn times_up(log: Seq<Entry>) -> nat
    decreases log.len(),
{
    if log.len() == 0 {
        0
    } else {
        times_up(log.drop_last()) + if came_up(log.last()) {
            1nat
        } else {
            0nat
        }
    }
}

/// What every recorder keeps. As long as nothing has been left out for want of
/// memory, the entries it has handed back fold into the record it holds, and
/// its summary is what they lead to in any case; its sessions are counted in
/// full.
pub open spec fn recorder_ok(r: RecorderParts) -> bool {
    r.enabled ==> {
        &&& r.max_entries >= 64
        &&& forall|i: int| 0 <= i < r.steps.len() ==> (#[trigger] r.steps[i]).seq < r.next_seq
        &&& r.dropped == 0 ==> folded(r.log) == seq![record_of(r)]
        &&& r.summary == summary_of(r.log)
        &&& r.summary.sessions == times_up(r.log)
    }
}

/// A recorder that has just been started, with the entry that opens its record.
/// It keeps as many entries in memory as it is told to, but never fewer than 64.
pub open spec fn started(cfg: RecordConfig, id: String, open: Opening, first: Entry) -> RecorderParts {
    RecorderParts {
        enabled: true,
        id,
        open,
        steps: Seq::empty(),
        samples: Seq::empty(),
        close: None,
        dropped: 0,
        last_sample: None,
        summary: nothing_yet(),
        tx_bytes: 0,
        rx_bytes: 0,
        next_seq: 0,
        max_entries: if cfg.max_entries > 64 {
            cfg.max_entries
        } else {
            64
        },
        sample_interval: cfg.sample_interval,
        log: seq![first],
    }
}

/// Whether a recorder is off, and holds nothing.
pub open spec fn records_nothing(r: RecorderParts) -> bool {
    &&& !r.enabled
    &&& r.steps.len() == 0
    &&& r.samples.len() == 0
    &&& r.close is None
    &&& r.dropped == 0
    &&& r.summary == nothing_yet()
    &&& r.sample_interval == 0
    &&& r.log.len() == 0
}

/// A recorder after a step's conclusion.
pub open spec fn concluded(r: RecorderParts, s: Step) -> RecorderParts {
    let at = last_with(r.steps, s.seq);
    let full = at < 0 && r.steps.len() >= r.max_entries;
    RecorderParts {
        summary: accounted(r.summary, s),
        steps: if full {
            r.steps
        } else {
            with_step(r.steps, s)
        },
        dropped: if full {
            (r.dropped + 1) as u64
        } else {
            r.dropped
        },
        log: r.log.push(Entry::Step(s)),
        ..r
    }
}

/// A recorder after a step has been written out as started.
pub open spec fn begun(r: RecorderParts, s: Step) -> RecorderParts {
    let full = r.steps.len() >= r.max_entries;
    RecorderParts {
        steps: if full {
            r.steps
        } else {
            r.steps.push(s)
        },
        dropped: if full {
            (r.dropped + 1) as u64
        } else {
            r.dropped
        },
        log: r.log.push(Entry::Step(s)),
        ..r
    }
}

/// The rate in bits per second between two byte counts `dt` milliseconds apart.
pub open spec fn rate(now: u64, before: u64, dt: nat) -> u64 {
    (minus(now, before) * 8000 / dt) as u64
}

/// The rates since the last sample, if time has passed since.
pub open spec fn rates(last: Option<(u64, u64, u64)>, s: SampleInput, now: u64) -> Option<
    (u64, u64),
> {
    match last {
        None => None,
        Some((at, tx, rx)) => if now > at {
            Some((rate(s.tx_bytes, tx, minus(now, at)), rate(s.rx_bytes, rx, minus(now, at))))
        } else {
            None
        },
    }
}

/// Whether the rates since the last sample can be counted.
pub open spec fn rates_fit(last: Option<(u64, u64, u64)>, s: SampleInput, now: u64) -> bool {
    match last {
        None => true,
        Some((at, tx, rx)) => now > at ==> s.tx_bytes - tx <= 2_305_843_009_213_693 && s.rx_bytes
            - rx <= 2_305_843_009_213_693,
    }
}

/// The entry of a sample at `now`.
pub open spec fn sample_entry(
    id: String,
    s: SampleInput,
    c: Context,
    bps: Option<(u64, u64)>,
    now: u64,
) -> Sample {
    Sample {
        id,
        at_ms: now,
        path: s.path,
        carrier: s.carrier,
        session: c.session,
        cycle: c.cycle,
        rtt_us: s.rtt_us,
        rtt_src: s.rtt_src,
        tx_bytes: s.tx_bytes,
        rx_bytes: s.rx_bytes,
        tx_pkts: s.tx_pkts,
        rx_pkts: s.rx_pkts,
        tx_bps: match bps {
            Some(x) => Some(x.0),
            None => None,
        },
        rx_bps: match bps {
            Some(x) => Some(x.1),
            None => None,
        },
        lost_pkts: s.lost_pkts,
        cwnd: s.cwnd,
        mtu: s.mtu,
        mtu_src: s.mtu_src,
        probes_sent: s.probes_sent,
        probes_lost: s.probes_lost,
    }
}

/// A recorder after a sample. The oldest sample makes room for it.
pub open spec fn sampled(r: RecorderParts, s: Sample) -> RecorderParts {
    let full = r.samples.len() >= r.max_entries;
    RecorderParts {
        samples: if full {
            r.samples.skip(1).push(s)
        } else {
            r.samples.push(s)
        },
        dropped: if full {
            (r.dropped + 1) as u64
        } else {
            r.dropped
        },
        tx_bytes: s.tx_bytes,
        rx_bytes: s.rx_bytes,
        last_sample: Some((s.at_ms, s.tx_bytes, s.rx_bytes)),
        log: r.log.push(Entry::Sample(s)),
        ..r
    }
}

/// The ending of a record at `now`.
pub open spec fn closing(
    r: RecorderParts,
    outcome: Outcome,
    reason: Option<Reason>,
    detail: Option<String>,
    now: u64,
    unix_ms: u64,
) -> Close {
    let s = gone_down(r.summary, now);
    Close {
        id: r.id,
        at_ms: now,
        at_unix_ms: unix_ms,
        outcome,
        reason,
        detail,
        sessions: s.sessions,
        reconnects: s.reconnects,
        first_connect_ms: s.first_connect_ms,
        direct_ms: s.direct_ms,
        connected_ms: s.connected_ms,
        tx_bytes: r.tx_bytes,
        rx_bytes: r.rx_bytes,
    }
}

/// A recorder after its ending has been written.
pub open spec fn ended(r: RecorderParts, c: Close) -> RecorderParts {
    RecorderParts {
        summary: gone_down(r.summary, c.at_ms),
        close: Some(c),
        log: r.log.push(Entry::Close(c)),
        ..r
    }
}

/// How a run that ends in the ordinary way came out: a tunnel that is up is
/// closed by us, one that came and went is lost, and without one nothing ever
/// connected.
pub open spec fn shutdown_outcome(s: Summary) -> Outcome {
    if s.up_since_ms is Some {
        Outcome::ClosedLocally
    } else if s.sessions > 0 {
        Outcome::Lost
    } else {
        Outcome::NeverConnected
    }
}

/// How a run that nobody closed came out.
pub open spec fn unclosed_outcome(s: Summary) -> Outcome {
    if s.sessions > 0 {
        Outcome::Lost
    } else {
        Outcome::NeverConnected
    }
}

/// Keeps the record of one run.
pub struct Recorder {
    enabled: bool,
    id: String,
    open: Open,
    steps: Vec<Step>,
    samples: Vec<Sample>,
    close: Option<Close>,
    dropped: u64,
    last_sample: Option<(u64, u64, u64)>,
    summary: Summary,
    tx_bytes: u64,
    rx_bytes: u64,
    next_seq: u64,
    max_entries: usize,
    sample_interval: u64,
    log: Ghost<Seq<Entry>>,
}

impl Recorder {
    pub closed spec fn view(&self) -> RecorderParts {
        RecorderParts {
            enabled: self.enabled,
            id: self.id,
            open: self.open@,
            steps: self.steps@,
            samples: self.samples@,
            close: self.close,
            dropped: self.dropped,
            last_sample: self.last_sample,
            summary: self.summary,
            tx_bytes: self.tx_bytes,
            rx_bytes: self.rx_bytes,
            next_seq: self.next_seq,
            max_entries: self.max_entries,
            sample_interval: self.sample_interval,
            log: self.log@,
        }
    }

    /// Whether the counters can take another entry at `now`.
    pub open spec fn room(&self, now: u64) -> bool {
        self@.summary.room(now) && self@.dropped < u64::MAX && self@.next_seq < u64::MAX
    }

    /// Whether the counters can take another entry at `now`.
    pub fn has_room(&self, now: u64) -> (r: bool)
        ensures
            r == self.room(now),
    {
        self.summary.sessions < u32::MAX && self.summary.reconnects < u32::MAX
            && self.summary.connected_ms <= u64::MAX - now && self.dropped < u64::MAX
            && self.next_seq < u64::MAX
    }
}

proof fn lemma_fold_step(r: RecorderParts, s: Step)
    requires
        recorder_ok(r),
        r.enabled,
        r.summary.sessions < u32::MAX,
    ensures
        summary_of(r.log.push(Entry::Step(s))).sessions == times_up(r.log.push(Entry::Step(s))),
        r.dropped == 0 ==> folded(r.log.push(Entry::Step(s))) == seq![
            RecordParts { steps: with_step(r.steps, s), ..record_of(r) },
        ],
        summary_of(r.log.push(Entry::Step(s))) == if s.outcome == StepOutcome::Started {
            r.summary
        } else {
            accounted(r.summary, s)
        },
{
    let log = r.log.push(Entry::Step(s));
    assert(log.drop_last() =~= r.log);
    if r.dropped == 0 {
        assert(folded(log) =~= seq![
            RecordParts { steps: with_step(r.steps, s), ..record_of(r) },
        ]);
    }
}

pub(crate) proof fn lemma_last_with(steps: Seq<Step>, seq: u64)
    ensures
        -1 <= last_with(steps, seq) < steps.len(),
        last_with(steps, seq) >= 0 ==> steps[last_with(steps, seq)].seq == seq,
        last_with(steps, seq) == -1 ==> forall|i: int|
            0 <= i < steps.len() ==> (#[trigger] steps[i]).seq != seq,
    decreases steps.len(),
{
    if steps.len() > 0 && steps.last().seq != seq {
        lemma_last_with(steps.drop_last(), seq);
        let at = last_with(steps, seq);
        if at >= 0 {
            assert(steps.drop_last()[at] == steps[at]);
        } else {
            assert forall|i: int| 0 <= i < steps.len() implies (#[trigger] steps[i]).seq != seq by {
                if i < steps.len() - 1 {
                    assert(steps.drop_last()[i] == steps[i]);
                }
            }
        }
    }
}

impl Recorder {
    /// A recorder that records nothing.
    pub fn disabled() -> (r: Recorder)
        ensures
            recorder_ok(r@),
            records_nothing(r@),
    {
        Recorder {
            enabled: false,
            id: String::new(),
            open: Open {
                v: FORMAT_VERSION,
                id: String::new(),
                role: Role::Client,
                at_unix_ms: 0,
                build: Build {
                    version: String::new(),
                    commit: None,
                    dirty: false,
                    target: String::new(),
                    profile: String::new(),
                },
                routing_key: None,
                endpoints: Vec::new(),
                upgrade_enabled: false,
                label: None,
                correlation_id: None,
            },
            steps: Vec::new(),
            samples: Vec::new(),
            close: None,
            dropped: 0,
            last_sample: None,
            summary: Summary {
                sessions: 0,
                reconnects: 0,
                first_connect_ms: None,
                direct_ms: None,
                connected_ms: 0,
                up_since_ms: None,
            },
            tx_bytes: 0,
            rx_bytes: 0,
            next_seq: 0,
            max_entries: 0,
            sample_interval: 0,
            log: Ghost(Seq::empty()),
        }
    }

    pub fn is_enabled(&self) -> (r: bool)
        ensures
            r == self@.enabled,
    {
        self.enabled
    }

    /// Opens the record of one run, and returns the entry that opens it.
    pub fn start(
        cfg: &RecordConfig,
        id: String,
        at_unix_ms: u64,
        build: Build,
        role: Role,
        routing_key: Option<&[u8]>,
        endpoints: Vec<EndpointRef>,
        upgrade_enabled: bool,
    ) -> (r: (Recorder, Entry))
        ensures
            recorder_ok(r.0@),
            r.0@.enabled,
            r.1 is Open && r.1->Open_0@ == r.0@.open,
            r.0@.open.v == FORMAT_VERSION,
            r.0@.open.id == id && r.0@.id == id,
            r.0@.open.role == role,
            r.0@.open.at_unix_ms == at_unix_ms,
            r.0@.open.build == build,
            match routing_key {
                Some(k) => r.0@.open.routing_key is Some && r.0@.open.routing_key->0@ == hex_text(k@),
                None => r.0@.open.routing_key is None,
            },
            r.0@.open.endpoints == endpoints@,
            r.0@.open.upgrade_enabled == upgrade_enabled,
            r.0@.open.label == cfg.label,
            r.0@.open.correlation_id == cfg.correlation_id,
            r.0@ == started(*cfg, id, r.0@.open, r.1),
    {
        let open = Open {
            v: FORMAT_VERSION,
            id: id.clone(),
            role,
            at_unix_ms,
            build,
            routing_key: match routing_key {
                Some(k) => Some(hex(k)),
                None => None,
            },
            endpoints,
            upgrade_enabled,
            label: copy_opt(&cfg.label),
            correlation_id: copy_opt(&cfg.correlation_id),
        };
        let entry = Entry::Open(open.clone());
        let ghost first = seq![entry];
        let rec = Recorder {
            enabled: true,
            id,
            open,
            steps: Vec::new(),
            samples: Vec::new(),
            close: None,
            dropped: 0,
            last_sample: None,
            summary: Summary {
                sessions: 0,
                reconnects: 0,
                first_connect_ms: None,
                direct_ms: None,
                connected_ms: 0,
                up_since_ms: None,
            },
            tx_bytes: 0,
            rx_bytes: 0,
            next_seq: 0,
            max_entries: if cfg.max_entries > 64 {
                cfg.max_entries
            } else {
                64
            },
            sample_interval: cfg.sample_interval,
            log: Ghost(first),
        };
        proof {
            let log = first;
            assert(log.drop_last() =~= Seq::<Entry>::empty());
            assert(folded(log.drop_last()) =~= Seq::<RecordParts>::empty());
            assert(folded(log) =~= seq![record_of(rec@)]);
            assert(summary_of(log.drop_last()) == nothing_yet());
            assert(times_up(log.drop_last()) == 0);
        }
        (rec, entry)
    }

    /// The identifier of the record.
    pub fn id(&self) -> (r: Option<&str>)
        ensures
            match r {
                Some(s) => self@.enabled && s@ == self@.id@,
                None => !self@.enabled,
            },
    {
        if self.enabled {
            Some(self.id.as_str())
        } else {
            None
        }
    }

    /// How often to sample, in milliseconds; zero never.
    pub fn sample_interval(&self) -> (r: u64)
        ensures
            r == if self@.enabled {
                self@.sample_interval
            } else {
                0
            },
    {
        if self.enabled {
            self.sample_interval
        } else {
            0
        }
    }

    /// Begins a step that takes time.
    pub fn step(&mut self, kind: StepKind, context: Context, now: u64) -> (h: StepHandle)
        requires
            recorder_ok(old(self)@),
            old(self).room(now),
        ensures
            recorder_ok(final(self)@),
            h == (StepHandle {
                kind,
                seq: old(self)@.next_seq,
                start_ms: now,
                timed: true,
                context,
                carrier: None,
                path: None,
                via: None,
                local: None,
                peer: None,
                detail: None,
            }),
            final(self)@ == if old(self)@.enabled {
                RecorderParts { next_seq: (old(self)@.next_seq + 1) as u64, ..old(self)@ }
            } else {
                old(self)@
            },
    {
        let seq: u64 = self.next_seq;
        if self.enabled {
            self.next_seq = seq + 1;
            assert(record_of(self@) == record_of(old(self)@));
        }
        StepHandle {
            kind,
            seq,
            start_ms: now,
            timed: true,
            context,
            carrier: None,
            path: None,
            via: None,
            local: None,
            peer: None,
            detail: None,
        }
    }

    /// Begins something instantaneous.
    pub fn mark(&mut self, kind: StepKind, context: Context, now: u64) -> (h: StepHandle)
        requires
            recorder_ok(old(self)@),
            old(self).room(now),
        ensures
            recorder_ok(final(self)@),
            h == (StepHandle {
                kind,
                seq: old(self)@.next_seq,
                start_ms: now,
                timed: false,
                context,
                carrier: None,
                path: None,
                via: None,
                local: None,
                peer: None,
                detail: None,
            }),
            final(self)@ == if old(self)@.enabled {
                RecorderParts { next_seq: (old(self)@.next_seq + 1) as u64, ..old(self)@ }
            } else {
                old(self)@
            },
    {
        let mut h = self.step(kind, context, now);
        h.timed = false;
        h
    }

    /// Begins a step and writes it out as started, so that a record which
    /// stops here shows what was in flight.
    pub fn step_now(&mut self, kind: StepKind, context: Context, now: u64) -> (r: (
        StepHandle,
        Option<Entry>,
    ))
        requires
            recorder_ok(old(self)@),
            old(self).room(now),
        ensures
            recorder_ok(final(self)@),
            r.0 == (StepHandle {
                kind,
                seq: old(self)@.next_seq,
                start_ms: now,
                timed: true,
                context,
                carrier: None,
                path: None,
                via: None,
                local: None,
                peer: None,
                detail: None,
            }),
            ({
                let s = step_entry(old(self)@.id, r.0, StepOutcome::Started, None, None, now);
                if old(self)@.enabled {
                    &&& r.1 == Some(Entry::Step(s))
                    &&& final(self)@ == begun(
                        RecorderParts { next_seq: (old(self)@.next_seq + 1) as u64, ..old(self)@ },
                        s,
                    )
                } else {
                    r.1 is None && final(self)@ == old(self)@
                }
            }),
    {
        let h = self.step(kind, context, now);
        if !self.enabled {
            return (h, None);
        }
        let ghost mid = self@;
        let s = make_step(&self.id, &h, StepOutcome::Started, None, None, now);
        proof {
            lemma_last_with(mid.steps, s.seq);
            lemma_fold_step(mid, s);
        }
        if self.steps.len() < self.max_entries {
            self.steps.push(s.clone());
        } else {
            self.dropped = self.dropped + 1;
        }
        self.log = Ghost(mid.log.push(Entry::Step(s)));
        assert(self@ == begun(mid, s));
        proof {
            if self@.dropped == 0 {
                assert(record_of(self@) =~= (RecordParts {
                    steps: with_step(mid.steps, s),
                    ..record_of(mid)
                }));
            }
        }
        (h, Some(Entry::Step(s)))
    }

    /// Concludes a step and returns the entry to write out.
    pub fn conclude(
        &mut self,
        h: StepHandle,
        outcome: StepOutcome,
        reason: Option<Reason>,
        detail: Option<String>,
        now: u64,
    ) -> (r: Option<Entry>)
        requires
            recorder_ok(old(self)@),
            old(self).room(now),
            h.start_ms <= now,
            old(self)@.enabled ==> h.seq < old(self)@.next_seq,
            outcome != StepOutcome::Started,
        ensures
            recorder_ok(final(self)@),
            ({
                let s = step_entry(old(self)@.id, h, outcome, reason, detail, now);
                if old(self)@.enabled {
                    r == Some(Entry::Step(s)) && final(self)@ == concluded(old(self)@, s)
                } else {
                    r is None && final(self)@ == old(self)@
                }
            }),
    {
        if !self.enabled {
            return None;
        }
        let ghost before = self@;
        let s = make_step(&self.id, &h, outcome, reason, detail, now);
        proof {
            lemma_last_with(before.steps, s.seq);
            lemma_fold_step(before, s);
        }
        self.summary.account(&s);
        match find_seq(&self.steps, s.seq) {
            Some(i) => self.steps.set(i, s.clone()),
            None => {
                if self.steps.len() < self.max_entries {
                    self.steps.push(s.clone());
                } else {
                    self.dropped = self.dropped + 1;
                }
            },
        }
        self.log = Ghost(before.log.push(Entry::Step(s)));
        assert(self@ =~= concluded(before, s));
        proof {
            if self@.dropped == 0 {
                assert(record_of(self@) =~= (RecordParts {
                    steps: with_step(before.steps, s),
                    ..record_of(before)
                }));
            }
        }
        Some(Entry::Step(s))
    }
}

/// Bytes in lower-case hexadecimal, two digits each.
pub open spec fn hex_text(b: Seq<u8>) -> Seq<char> {
    Seq::new(
        2 * b.len(),
        |i: int|
            if i % 2 == 0 {
                text::digit_char((b[i / 2] / 16) as nat)
            } else {
                text::digit_char((b[i / 2] % 16) as nat)
            },
    )
}

/// Bytes in lower-case hexadecimal.
pub fn hex(b: &[u8]) -> (s: String)
    ensures
        s@ == hex_text(b@),
{
    let mut s = String::new();
    let mut i: usize = 0;
    while i < b.len()
        invariant
            i <= b.len(),
            s@ == hex_text(b@.take(i as int)),
        decreases b.len() - i,
    {
        let ghost before = s@;
        s.push(text::digit(b[i] / 16));
        s.push(text::digit(b[i] % 16));
        assert(s@ =~= hex_text(b@.take(i + 1)));
        i = i + 1;
    }
    assert(b@.take(i as int) =~= b@);
    s
}

/// Hexadecimal digits are ASCII characters.
pub proof fn hex_is_ascii(b: Seq<u8>)
    ensures
        is_ascii_chars(hex_text(b)),
{
}

/// Whether a step's conclusion takes a recorder from one state to the next and
/// returns its entry.
pub open spec fn step_concludes(
    before: RecorderParts,
    after: RecorderParts,
    r: Option<Entry>,
    h: StepHandle,
    outcome: StepOutcome,
    reason: Option<Reason>,
    detail: Option<String>,
    now: u64,
) -> bool {
    let s = step_entry(before.id, h, outcome, reason, detail, now);
    r == Some(Entry::Step(s)) && after == concluded(before, s)
}

impl Recorder {
    /// Concludes a step that did what it set out to do.
    pub fn ok(&mut self, h: StepHandle, now: u64) -> (r: Option<Entry>)
        requires
            recorder_ok(old(self)@),
            old(self).room(now),
            h.start_ms <= now,
            old(self)@.enabled ==> h.seq < old(self)@.next_seq,
        ensures
            recorder_ok(final(self)@),
            !old(self)@.enabled ==> r is None && final(self)@ == old(self)@,
            old(self)@.enabled ==> step_concludes(
                old(self)@,
                final(self)@,
                r,
                h,
                StepOutcome::Succeeded,
                None,
                None,
                now,
            ),
    {
        self.conclude(h, StepOutcome::Succeeded, None, None, now)
    }

    /// Concludes a step that failed.
    pub fn fail(&mut self, h: StepHandle, reason: Reason, detail: &str, now: u64) -> (r: Option<Entry>)
        requires
            recorder_ok(old(self)@),
            old(self).room(now),
            h.start_ms <= now,
            old(self)@.enabled ==> h.seq < old(self)@.next_seq,
        ensures
            recorder_ok(final(self)@),
            !old(self)@.enabled ==> r is None && final(self)@ == old(self)@,
            old(self)@.enabled ==> exists|d: Option<String>| #[trigger]
                step_concludes(
                    old(self)@,
                    final(self)@,
                    r,
                    h,
                    StepOutcome::Failed,
                    Some(reason),
                    d,
                    now,
                ) && d is Some && d->0@ == detail@,
    {
        let d: Option<String> = Some(String::from_str(detail));
        let ghost start = self@;
        let r = self.conclude(h, StepOutcome::Failed, Some(reason), d, now);
        assert(start.enabled ==> step_concludes(
            start,
            self@,
            r,
            h,
            StepOutcome::Failed,
            Some(reason),
            d,
            now,
        ));
        r
    }

    /// Concludes a step that failed, from an error that knows its code.
    pub fn fail_with(&mut self, h: StepHandle, f: &Fault, now: u64) -> (r: Option<Entry>)
        requires
            recorder_ok(old(self)@),
            old(self).room(now),
            h.start_ms <= now,
            old(self)@.enabled ==> h.seq < old(self)@.next_seq,
        ensures
            recorder_ok(final(self)@),
            !old(self)@.enabled ==> r is None && final(self)@ == old(self)@,
            old(self)@.enabled ==> step_concludes(
                old(self)@,
                final(self)@,
                r,
                h,
                StepOutcome::Failed,
                Some(f.reason),
                Some(f.detail),
                now,
            ),
    {
        self.conclude(h, StepOutcome::Failed, Some(f.reason), Some(f.detail.clone()), now)
    }

    /// Concludes a step from how it came out.
    pub fn result<T>(&mut self, h: StepHandle, result: &Result<T, Fault>, now: u64) -> (r: Option<
        Entry,
    >)
        requires
            recorder_ok(old(self)@),
            old(self).room(now),
            h.start_ms <= now,
            old(self)@.enabled ==> h.seq < old(self)@.next_seq,
        ensures
            recorder_ok(final(self)@),
            !old(self)@.enabled ==> r is None && final(self)@ == old(self)@,
            old(self)@.enabled ==> match result {
                Ok(_) => step_concludes(
                    old(self)@,
                    final(self)@,
                    r,
                    h,
                    StepOutcome::Succeeded,
                    None,
                    None,
                    now,
                ),
                Err(f) => step_concludes(
                    old(self)@,
                    final(self)@,
                    r,
                    h,
                    StepOutcome::Failed,
                    Some(f.reason),
                    Some(f.detail),
                    now,
                ),
            },
    {
        match result {
            Ok(_) => self.ok(h, now),
            Err(f) => self.fail_with(h, f, now),
        }
    }

    /// Concludes a step that was deliberately not attempted.
    pub fn skip(&mut self, h: StepHandle, reason: Reason, detail: &str, now: u64) -> (r: Option<Entry>)
        requires
            recorder_ok(old(self)@),
            old(self).room(now),
            h.start_ms <= now,
            old(self)@.enabled ==> h.seq < old(self)@.next_seq,
        ensures
            recorder_ok(final(self)@),
            !old(self)@.enabled ==> r is None && final(self)@ == old(self)@,
            old(self)@.enabled ==> exists|d: Option<String>| #[trigger]
                step_concludes(
                    old(self)@,
                    final(self)@,
                    r,
                    h,
                    StepOutcome::Skipped,
                    Some(reason),
                    d,
                    now,
                ) && d is Some && d->0@ == detail@,
    {
        let d: Option<String> = Some(String::from_str(detail));
        let ghost start = self@;
        let r = self.conclude(h, StepOutcome::Skipped, Some(reason), d, now);
        assert(start.enabled ==> step_concludes(
            start,
            self@,
            r,
            h,
            StepOutcome::Skipped,
            Some(reason),
            d,
            now,
        ));
        r
    }

    /// Concludes a step that nobody concluded.
    pub fn abandon(&mut self, h: StepHandle, now: u64) -> (r: Option<Entry>)
        requires
            recorder_ok(old(self)@),
            old(self).room(now),
            h.start_ms <= now,
            old(self)@.enabled ==> h.seq < old(self)@.next_seq,
        ensures
            recorder_ok(final(self)@),
            !old(self)@.enabled ==> r is None && final(self)@ == old(self)@,
            old(self)@.enabled ==> step_concludes(
                old(self)@,
                final(self)@,
                r,
                h,
                StepOutcome::Abandoned,
                None,
                None,
                now,
            ),
    {
        self.conclude(h, StepOutcome::Abandoned, None, None, now)
    }

    /// Whether a quality sample can be taken: its counters have not grown by
    /// more than a rate can hold.
    pub fn can_sample(&self, s: &SampleInput, now: u64) -> (r: bool)
        ensures
            r == (self@.enabled ==> rates_fit(self@.last_sample, *s, now)),
    {
        if !self.enabled {
            return true;
        }
        match self.last_sample {
            None => true,
            Some((at, tx, rx)) => now <= at || ((s.tx_bytes <= tx || s.tx_bytes - tx
                <= 2_305_843_009_213_693) && (s.rx_bytes <= rx || s.rx_bytes - rx
                <= 2_305_843_009_213_693)),
        }
    }

    /// Takes a quality sample and returns the entry to write out.
    pub fn sample(&mut self, s: SampleInput, context: Context, now: u64) -> (r: Option<Entry>)
        requires
            recorder_ok(old(self)@),
            old(self).room(now),
            old(self)@.enabled ==> rates_fit(old(self)@.last_sample, s, now),
        ensures
            recorder_ok(final(self)@),
            ({
                let e = sample_entry(
                    old(self)@.id,
                    s,
                    context,
                    rates(old(self)@.last_sample, s, now),
                    now,
                );
                if old(self)@.enabled {
                    r == Some(Entry::Sample(e)) && final(self)@ == sampled(old(self)@, e)
                } else {
                    r is None && final(self)@ == old(self)@
                }
            }),
    {
        if !self.enabled {
            return None;
        }
        let ghost before = self@;
        let bps: Option<(u64, u64)> = match self.last_sample {
            None => None,
            Some((at, tx, rx)) => if now > at {
                let dt: u64 = now - at;
                let dtx: u64 = if s.tx_bytes >= tx {
                    s.tx_bytes - tx
                } else {
                    0
                };
                let drx: u64 = if s.rx_bytes >= rx {
                    s.rx_bytes - rx
                } else {
                    0
                };
                proof {
                    lemma_rate_fits(dtx, dt);
                    lemma_rate_fits(drx, dt);
                }
                Some((dtx * 8000 / dt, drx * 8000 / dt))
            } else {
                None
            },
        };
        assert(bps == rates(before.last_sample, s, now));
        let e = Sample {
            id: self.id.clone(),
            at_ms: now,
            path: s.path,
            carrier: s.carrier,
            session: context.session,
            cycle: context.cycle,
            rtt_us: s.rtt_us,
            rtt_src: s.rtt_src,
            tx_bytes: s.tx_bytes,
            rx_bytes: s.rx_bytes,
            tx_pkts: s.tx_pkts,
            rx_pkts: s.rx_pkts,
            tx_bps: match bps {
                Some(x) => Some(x.0),
                None => None,
            },
            rx_bps: match bps {
                Some(x) => Some(x.1),
                None => None,
            },
            lost_pkts: s.lost_pkts,
            cwnd: s.cwnd,
            mtu: s.mtu,
            mtu_src: s.mtu_src,
            probes_sent: s.probes_sent,
            probes_lost: s.probes_lost,
        };
        self.tx_bytes = s.tx_bytes;
        self.rx_bytes = s.rx_bytes;
        self.last_sample = Some((now, s.tx_bytes, s.rx_bytes));
        if self.samples.len() >= self.max_entries {
            let _oldest = self.samples.remove(0);
            self.dropped = self.dropped + 1;
            assert(self.samples@ =~= before.samples.skip(1));
        }
        self.samples.push(e.clone());
        self.log = Ghost(before.log.push(Entry::Sample(e)));
        assert(self@ =~= sampled(before, e));
        proof {
            let log = self@.log;
            assert(log.drop_last() =~= before.log);
            if self@.dropped == 0 {
                assert(folded(log) =~= seq![record_of(self@)]);
            }
        }
        Some(Entry::Sample(e))
    }

    /// Closes the record. The first call wins; later ones do nothing.
    pub fn close(
        &mut self,
        outcome: Outcome,
        reason: Option<Reason>,
        detail: Option<String>,
        now: u64,
        unix_ms: u64,
    ) -> (r: Option<Entry>)
        requires
            recorder_ok(old(self)@),
            old(self).room(now),
        ensures
            recorder_ok(final(self)@),
            ({
                let c = closing(old(self)@, outcome, reason, detail, now, unix_ms);
                if old(self)@.enabled && old(self)@.close is None {
                    r == Some(Entry::Close(c)) && final(self)@ == ended(old(self)@, c)
                } else {
                    r is None && final(self)@ == old(self)@
                }
            }),
    {
        if !self.enabled || self.close.is_some() {
            return None;
        }
        let ghost before = self@;
        self.summary.go_down(now);
        let c = Close {
            id: self.id.clone(),
            at_ms: now,
            at_unix_ms: unix_ms,
            outcome,
            reason,
            detail,
            sessions: self.summary.sessions,
            reconnects: self.summary.reconnects,
            first_connect_ms: self.summary.first_connect_ms,
            direct_ms: self.summary.direct_ms,
            connected_ms: self.summary.connected_ms,
            tx_bytes: self.tx_bytes,
            rx_bytes: self.rx_bytes,
        };
        self.close = Some(c.clone());
        self.log = Ghost(before.log.push(Entry::Close(c)));
        assert(self@ =~= ended(before, c));
        proof {
            let log = self@.log;
            assert(log.drop_last() =~= before.log);
            if self@.dropped == 0 {
                assert(folded(log) =~= seq![record_of(self@)]);
            }
        }
        Some(Entry::Close(c))
    }

    /// Closes the record of a run that ends in the ordinary way.
    pub fn close_shutdown(&mut self, reason: Option<Reason>, now: u64, unix_ms: u64) -> (r: Option<
        Entry,
    >)
        requires
            recorder_ok(old(self)@),
            old(self).room(now),
        ensures
            recorder_ok(final(self)@),
            ({
                let c = closing(
                    old(self)@,
                    shutdown_outcome(old(self)@.summary),
                    reason,
                    None,
                    now,
                    unix_ms,
                );
                if old(self)@.enabled && old(self)@.close is None {
                    r == Some(Entry::Close(c)) && final(self)@ == ended(old(self)@, c)
                } else {
                    r is None && final(self)@ == old(self)@
                }
            }),
    {
        let outcome = self.outcome_now();
        self.close(outcome, reason, None, now, unix_ms)
    }

    /// How the run comes out if it ends in the ordinary way now. One who ends
    /// it asks before recording that the tunnel is taken down.
    pub fn outcome_now(&self) -> (o: Outcome)
        ensures
            o == shutdown_outcome(self@.summary),
    {
        if self.summary.up_since_ms.is_some() {
            Outcome::ClosedLocally
        } else if self.summary.sessions > 0 {
            Outcome::Lost
        } else {
            Outcome::NeverConnected
        }
    }

    /// Closes a record that nobody closed and that nobody holds any more. Its
    /// outcome is inferred, and the detail says so.
    pub fn end_unclosed(&mut self, now: u64, unix_ms: u64) -> (r: Option<Entry>)
        requires
            recorder_ok(old(self)@),
            old(self).room(now),
        ensures
            recorder_ok(final(self)@),
            if old(self)@.enabled && old(self)@.close is None {
                exists|d: String|
                    d@ == "no explicit ending: the recorder was dropped"@ && ({
                        let c = #[trigger] closing(
                            old(self)@,
                            unclosed_outcome(old(self)@.summary),
                            None,
                            Some(d),
                            now,
                            unix_ms,
                        );
                        r == Some(Entry::Close(c)) && final(self)@ == ended(old(self)@, c)
                    })
            } else {
                r is None && final(self)@ == old(self)@
            },
    {
        let outcome = if self.summary.sessions > 0 {
            Outcome::Lost
        } else {
            Outcome::NeverConnected
        };
        let detail = String::from_str("no explicit ending: the recorder was dropped");
        self.close(outcome, None, Some(detail), now, unix_ms)
    }

    /// Whether a usable tunnel has existed at any point.
    pub fn has_connected(&self) -> (r: bool)
        ensures
            r == (self@.enabled && self@.summary.sessions > 0),
    {
        self.enabled && self.summary.sessions > 0
    }

    /// The record as it stands. What was left out for want of memory shows as
    /// a gap.
    pub fn snapshot(&self, now: u64) -> (r: Option<Record>)
        requires
            recorder_ok(self@),
        ensures
            match r {
                None => !self@.enabled,
                Some(rec) => {
                    &&& self@.enabled
                    &&& rec@ == (RecordParts { gaps: rec@.gaps, ..record_of(self@) })
                    &&& rec@.gaps == if self@.dropped > 0 {
                        seq![Gap { id: self@.id, at_ms: now, dropped: self@.dropped }]
                    } else {
                        Seq::empty()
                    }
                    &&& self@.dropped == 0 ==> folded(self@.log) == seq![rec@]
                },
            },
    {
        if !self.enabled {
            return None;
        }
        let mut gaps: Vec<Gap> = Vec::new();
        if self.dropped > 0 {
            gaps.push(Gap { id: self.id.clone(), at_ms: now, dropped: self.dropped });
        }
        let mut steps: Vec<Step> = Vec::new();
        let mut i: usize = 0;
        while i < self.steps.len()
            invariant
                i <= self.steps.len(),
                steps@ == self.steps@.take(i as int),
            decreases self.steps.len() - i,
        {
            steps.push(self.steps[i].clone());
            i = i + 1;
        }
        assert(steps@ =~= self.steps@);
        let mut samples: Vec<Sample> = Vec::new();
        let mut j: usize = 0;
        while j < self.samples.len()
            invariant
                j <= self.samples.len(),
                samples@ == self.samples@.take(j as int),
            decreases self.samples.len() - j,
        {
            samples.push(self.samples[j].clone());
            j = j + 1;
        }
        assert(samples@ =~= self.samples@);
        let close = match &self.close {
            Some(c) => Some(c.clone()),
            None => None,
        };
        let rec = Record {
            open: self.open.clone(),
            steps,
            samples,
            gaps,
            close,
            truncated: self.close.is_none(),
        };
        assert(rec@ =~= (RecordParts { gaps: rec@.gaps, ..record_of(self@) }));
        Some(rec)
    }
}

proof fn lemma_rate_fits(bytes: u64, dt: u64)
    requires
        bytes <= 2_305_843_009_213_693,
        dt > 0,
    ensures
        0 <= bytes * 8000 / dt as int <= bytes * 8000 <= u64::MAX,
{
    assert(bytes * 8000 / dt as int <= bytes * 8000) by (nonlinear_arith)
        requires
            dt > 0,
            bytes >= 0,
    ;
    assert(bytes * 8000 / dt as int >= 0) by (nonlinear_arith)
        requires
            dt > 0,
            bytes >= 0,
    ;
}

/// Reading back everything that a recorder has handed out gives one record,
/// which is the one that the recorder holds, as long as none of it was left
/// out for want of memory.
pub proof fn written_record_reads_back(r: RecorderParts)
    requires
        recorder_ok(r),
        r.enabled,
        r.dropped == 0,
    ensures
        folded(r.log) == seq![record_of(r)],
{
}

/// The figures of an ending are folded from the steps that came before it.
pub proof fn closing_figures_come_from_the_steps(
    r: RecorderParts,
    outcome: Outcome,
    reason: Option<Reason>,
    detail: Option<String>,
    now: u64,
    unix_ms: u64,
)
    requires
        recorder_ok(r),
        r.enabled,
    ensures
        ({
            let c = closing(r, outcome, reason, detail, now, unix_ms);
            let s = gone_down(summary_of(r.log), now);
            &&& c.sessions == s.sessions
            &&& c.reconnects == s.reconnects
            &&& c.first_connect_ms == s.first_connect_ms
            &&& c.direct_ms == s.direct_ms
            &&& c.connected_ms == s.connected_ms
        }),
{
}

/// Sixteen lower-case hexadecimal digits.
pub open spec fn id_text(n: nat) -> Seq<char> {
    let digits = text::numeral(n, 16);
    Seq::new((16 - digits.len()) as nat, |i: int| '0') + digits
}

/// A record identifier made from a number.
pub fn record_id(n: u64) -> (s: String)
    ensures
        s@ == id_text(n as nat),
        s@.len() == 16,
{
    let mut digits = String::new();
    text::push_numeral(&mut digits, n, 16);
    let len: usize = digits.as_str().unicode_len();
    proof {
        assert(sixteen_to(16) == 0x1_0000_0000_0000_0000) by {
            reveal_with_fuel(sixteen_to, 17);
        }
        lemma_hex_len(n as nat, 16);
    }
    let ghost zeros = Seq::new((16 - len) as nat, |i: int| '0');
    let mut s = String::new();
    let mut i: usize = len;
    while i < 16
        invariant
            len <= i <= 16,
            zeros == Seq::new((16 - len) as nat, |i: int| '0'),
            s@ == zeros.take(i - len),
        decreases 16 - i,
    {
        s.push('0');
        i = i + 1;
    }
    assert(zeros.take(16 - len) =~= zeros);
    s.append(digits.as_str());
    s
}

/// The identifier of a new record: sixteen hexadecimal digits drawn at random.
pub fn new_id() -> (s: String)
    ensures
        s@.len() == 16,
        exists|n: u64| s@ == #[trigger] id_text(n as nat),
{
    record_id(outside::random_u64())
}

spec fn sixteen_to(k: nat) -> nat
    decreases k,
{
    if k == 0 {
        1
    } else {
        16 * sixteen_to((k - 1) as nat)
    }
}

proof fn lemma_hex_len(n: nat, k: nat)
    requires
        1 <= k <= 16,
        n < sixteen_to(k),
    ensures
        1 <= text::numeral(n, 16).len() <= k,
    decreases k,
{
    if n >= 16 {
        assert(sixteen_to(0) == 1);
        assert(k > 1);
        lemma_hex_len(n / 16, (k - 1) as nat);
    }
}

/// Whether a step failed for a reason.
pub open spec fn failed_for(s: Step, r: Reason) -> bool {
    s.outcome == StepOutcome::Failed && s.reason == Some(r)
}

/// The reasons of a record are those of its failed steps, all of them and each
/// once, and no others.
pub proof fn every_reason_is_told_once(steps: Seq<Step>, r: Reason)
    ensures
        reasons_of(steps).no_duplicates(),
        reasons_of(steps).contains(r) <==> exists|i: int|
            0 <= i < steps.len() && failed_for(#[trigger] steps[i], r),
    decreases steps.len(),
{
    if steps.len() > 0 {
        let less = steps.drop_last();
        let before = reasons_of(less);
        let all = reasons_of(steps);
        let s = steps.last();
        every_reason_is_told_once(less, r);
        assert(steps[steps.len() - 1] == s);
        assert(forall|i: int| 0 <= i < less.len() ==> less[i] == steps[i]);
        if before.contains(r) {
            let k = before.index_of(r);
            assert(all[k] == r);
            let i = choose|i: int| 0 <= i < less.len() && failed_for(#[trigger] less[i], r);
            assert(failed_for(steps[i], r));
        }
        if failed_for(s, r) && !before.contains(r) {
            assert(all.last() == r);
            assert(all.contains(r));
        }
        if all.contains(r) && !before.contains(r) {
            let k = all.index_of(r);
            if k < before.len() {
                assert(before[k] == r);
            }
            assert(failed_for(steps[steps.len() - 1], r));
        }
        if exists|i: int| 0 <= i < steps.len() && failed_for(#[trigger] steps[i], r) {
            let i = choose|i: int| 0 <= i < steps.len() && failed_for(#[trigger] steps[i], r);
            if i < less.len() {
                assert(failed_for(less[i], r));
            }
        }
    }
}

proof fn lemma_reasons_take(steps: Seq<Step>, n: int)
    requires
        0 <= n <= steps.len(),
    ensures
        reasons_of(steps.take(n)).len() <= reasons_of(steps).len(),
        reasons_of(steps).take(reasons_of(steps.take(n)).len() as int) == reasons_of(
            steps.take(n),
        ),
    decreases steps.len(),
{
    let first = reasons_of(steps.take(n));
    if n < steps.len() {
        lemma_reasons_take(steps.drop_last(), n);
        assert(steps.drop_last().take(n) =~= steps.take(n));
        assert(reasons_of(steps).take(first.len() as int) =~= reasons_of(steps.drop_last()).take(
            first.len() as int,
        ));
    } else {
        assert(steps.take(n) =~= steps);
        assert(reasons_of(steps).take(first.len() as int) =~= first);
    }
}

/// Of two reasons, the one for which a step failed earlier is told first.
pub proof fn reasons_come_in_order(steps: Seq<Step>, i: int, j: int, a: Reason, b: Reason)
    requires
        0 <= i < j < steps.len(),
        failed_for(steps[i], a),
        failed_for(steps[j], b),
        forall|k: int| 0 <= k < j ==> !failed_for(#[trigger] steps[k], b),
    ensures
        exists|m: int, n: int|
            0 <= m < n < reasons_of(steps).len() && #[trigger] reasons_of(steps)[m] == a
                && #[trigger] reasons_of(steps)[n] == b,
{
    let all = reasons_of(steps);
    let head = reasons_of(steps.take(j));
    let upto = reasons_of(steps.take(j + 1));
    lemma_reasons_take(steps, j + 1);
    assert(steps.take(j + 1).drop_last() =~= steps.take(j));
    every_reason_is_told_once(steps.take(j), a);
    every_reason_is_told_once(steps.take(j), b);
    assert(failed_for(steps.take(j)[i], a));
    let m = head.index_of(a);
    let n = head.len() as int;
    assert(!head.contains(b)) by {
        if head.contains(b) {
            let k = choose|k: int|
                0 <= k < steps.take(j).len() && failed_for(#[trigger] steps.take(j)[k], b);
            assert(!failed_for(steps[k], b));
        }
    }
    assert(upto == head.push(b));
    assert(all.take(upto.len() as int)[m] == all[m]);
    assert(all.take(upto.len() as int)[n] == all[n]);
    assert(all[m] == a && all[n] == b);
}

/// The first failure is a failed step, and none before it failed; there is one
/// unless no step failed.
pub proof fn first_failure_is_the_first(steps: Seq<Step>, from: int)
    requires
        0 <= from <= steps.len(),
    ensures
        ({
            let at = first_failed(steps, from);
            &&& from <= at <= steps.len()
            &&& at < steps.len() ==> steps[at].outcome == StepOutcome::Failed
            &&& forall|i: int| from <= i < at ==> (#[trigger] steps[i]).outcome != StepOutcome::Failed
        }),
    decreases steps.len() - from,
{
    if from < steps.len() {
        first_failure_is_the_first(steps, from + 1);
    }
}

/// Of the steps of a record, those of a kind are given exactly if they are of
/// that kind.
pub proof fn steps_are_given_by_kind(steps: Seq<Step>, kind: StepKind, s: Step)
    ensures
        steps_of_kind(steps, kind).contains(s) <==> steps.contains(s) && s.kind == kind,
        steps_of_kind(steps, kind).len() <= steps.len(),
{
    let of_kind = |s: Step| s.kind == kind;
    let some = steps_of_kind(steps, kind);
    steps.lemma_filter_len(of_kind);
    if some.contains(s) {
        steps.lemma_filter_contains_rev(of_kind, s);
        let k = some.index_of(s);
        steps.lemma_filter_pred(of_kind, k);
    }
    if steps.contains(s) && s.kind == kind {
        let i = steps.index_of(s);
        steps.lemma_filter_contains(of_kind, i);
    }
}

/// Whether an entry tells that traffic moved to a direct path.
pub open spec fn went_direct(e: Entry) -> bool {
    e matches Entry::Step(s) && s.kind == StepKind::PathSwap && s.outcome == StepOutcome::Succeeded
}

/// Whether an entry concludes an attempt to connect again.
pub open spec fn connected_again(e: Entry) -> bool {
    e matches Entry::Step(s) && s.kind == StepKind::Reconnect && s.outcome != StepOutcome::Started
}

/// A record tells when a tunnel first came up, and when traffic first moved to
/// a direct path: the time of the first entry that says so, and none where no
/// entry does.
pub proof fn firsts_are_told(log: Seq<Entry>, i: int)
    requires
        0 <= i < log.len(),
    ensures
        came_up(log[i]) && (forall|j: int| 0 <= j < i ==> !came_up(#[trigger] log[j]))
            ==> summary_of(log).first_connect_ms == Some(log[i].time()),
        went_direct(log[i]) && (forall|j: int| 0 <= j < i ==> !went_direct(#[trigger] log[j]))
            ==> summary_of(log).direct_ms == Some(log[i].time()),
        (forall|j: int| 0 <= j < log.len() ==> !came_up(#[trigger] log[j])) ==> summary_of(
            log,
        ).first_connect_ms is None,
        (forall|j: int| 0 <= j < log.len() ==> !went_direct(#[trigger] log[j])) ==> summary_of(
            log,
        ).direct_ms is None,
    decreases log.len(),
{
    let less = log.drop_last();
    assert(forall|j: int| 0 <= j < less.len() ==> less[j] == log[j]);
    if i < log.len() - 1 {
        firsts_are_told(less, i);
        lemma_no_firsts(less);
    } else {
        lemma_no_firsts(less);
    }
    if less.len() > 0 {
        lemma_no_firsts(less);
    }
}

proof fn lemma_no_firsts(log: Seq<Entry>)
    ensures
        (forall|j: int| 0 <= j < log.len() ==> !came_up(#[trigger] log[j])) ==> summary_of(
            log,
        ).first_connect_ms is None,
        (forall|j: int| 0 <= j < log.len() ==> !went_direct(#[trigger] log[j])) ==> summary_of(
            log,
        ).direct_ms is None,
    decreases log.len(),
{
    if log.len() > 0 {
        let less = log.drop_last();
        assert(forall|j: int| 0 <= j < less.len() ==> less[j] == log[j]);
        lemma_no_firsts(less);
    }
}

/// How many entries conclude an attempt to connect again.
pub open spec fn times_again(log: Seq<Entry>) -> nat
    decreases log.len(),
{
    if log.len() == 0 {
        0
    } else {
        times_again(log.drop_last()) + if connected_again(log.last()) {
            1nat
        } else {
            0nat
        }
    }
}

/// Sessions and reconnects are counted: one for each tunnel that came up, one
/// for each attempt to connect again that was concluded.
pub proof fn ups_and_reconnects_are_counted(log: Seq<Entry>)
    ensures
        times_up(log) <= u32::MAX ==> summary_of(log).sessions == times_up(log),
        times_again(log) <= u32::MAX ==> summary_of(log).reconnects == times_again(log),
    decreases log.len(),
{
    if log.len() > 0 {
        ups_and_reconnects_are_counted(log.drop_last());
    }
}

/// A step is stamped with the time it was begun, and its duration leads from
/// there to its conclusion; one that is not timed has the time of its
/// conclusion and no duration. What the handle was told is kept.
pub proof fn steps_tell_their_times(
    id: String,
    h: StepHandle,
    outcome: StepOutcome,
    reason: Option<Reason>,
    detail: Option<String>,
    now: u64,
)
    requires
        h.start_ms <= now,
    ensures
        ({
            let s = step_entry(id, h, outcome, reason, detail, now);
            &&& h.timed ==> s.at_ms == h.start_ms && s.dur_ms is Some && s.at_ms + s.dur_ms->0 == now
            &&& !h.timed ==> s.at_ms == now && s.dur_ms is None
            &&& s.id == id && s.seq == h.seq && s.kind == h.kind
            &&& s.outcome == outcome && s.reason == reason
            &&& s.session == h.context.session && s.cycle == h.context.cycle
            &&& s.carrier == h.carrier && s.path == h.path
            &&& s.via == h.via && s.local == h.local && s.peer == h.peer
            &&& detail is Some ==> s.detail == detail
            &&& detail is None ==> s.detail == h.detail
        }),
{
}

/// A recorder never holds more steps or samples than it may. What does not fit
/// is counted, and is written out all the same: a step is left out of memory
/// while older ones stay, a sample takes the place of the oldest.
pub proof fn memory_is_bounded(r: RecorderParts, step: Step, sample: Sample)
    requires
        recorder_ok(r),
        r.enabled,
        r.steps.len() <= r.max_entries,
        r.samples.len() <= r.max_entries,
        r.dropped < u64::MAX,
    ensures
        ({
            let c = concluded(r, step);
            &&& c.steps.len() <= r.max_entries
            &&& c.log == r.log.push(Entry::Step(step))
            &&& c.samples == r.samples
            &&& c.dropped == r.dropped ==> c.steps.contains(step)
            &&& c.dropped != r.dropped ==> c.dropped == r.dropped + 1 && c.steps == r.steps
            &&& c.dropped != r.dropped <==> r.steps.len() == r.max_entries && forall|i: int|
                0 <= i < r.steps.len() ==> (#[trigger] r.steps[i]).seq != step.seq
        }),
        ({
            let c = sampled(r, sample);
            &&& c.samples.len() <= r.max_entries
            &&& c.log == r.log.push(Entry::Sample(sample))
            &&& c.steps == r.steps
            &&& c.samples.last() == sample
            &&& r.samples.len() < r.max_entries ==> c.samples == r.samples.push(sample) && c.dropped
                == r.dropped
            &&& r.samples.len() == r.max_entries ==> c.samples == r.samples.skip(1).push(sample)
                && c.dropped == r.dropped + 1
            &&& c.tx_bytes == sample.tx_bytes && c.rx_bytes == sample.rx_bytes
        }),
{
    lemma_last_with(r.steps, step.seq);
    let c = concluded(r, step);
    let at = last_with(r.steps, step.seq);
    if at >= 0 {
        assert(c.steps[at] == step);
    } else if r.steps.len() < r.max_entries {
        assert(c.steps.last() == step);
    }
}

/// A step that was written out as begun is there once: its conclusion takes its
/// place, and all other steps stay as they are.
pub proof fn conclusion_replaces_the_begun_step(r: RecorderParts, begun_as: Step, done: Step)
    requires
        recorder_ok(r),
        r.enabled,
        r.steps.len() < r.max_entries,
        begun_as.seq == done.seq,
        begun_as.seq >= r.next_seq,
    ensures
        concluded(begun(r, begun_as), done).steps == r.steps.push(done),
        concluded(begun(r, begun_as), done).dropped == r.dropped,
{
    let b = begun(r, begun_as);
    assert(last_with(b.steps, done.seq) == r.steps.len());
    assert(concluded(b, done).steps =~= r.steps.push(done));
}

/// A rate is in bits per second: over the milliseconds it was taken, it makes
/// up the bytes that were counted, less than one bit per second aside.
pub proof fn rates_are_bits_per_second(
    at: u64,
    tx: u64,
    rx: u64,
    s: SampleInput,
    now: u64,
)
    requires
        at < now,
        rates_fit(Some((at, tx, rx)), s, now),
        tx <= s.tx_bytes,
        rx <= s.rx_bytes,
    ensures
        rates(Some((at, tx, rx)), s, now) matches Some((up, down)) && {
            &&& up * (now - at) <= (s.tx_bytes - tx) * 8 * 1000 < (up + 1) * (now - at)
            &&& down * (now - at) <= (s.rx_bytes - rx) * 8 * 1000 < (down + 1) * (now - at)
        },
        rates(None, s, now) is None,
        rates(Some((now, tx, rx)), s, now) is None,
{
    let dt = (now - at) as u64;
    lemma_rate((s.tx_bytes - tx) as u64, dt);
    lemma_rate((s.rx_bytes - rx) as u64, dt);
}

proof fn lemma_rate(bytes: u64, dt: u64)
    requires
        bytes <= 2_305_843_009_213_693,
        dt > 0,
    ensures
        ({
            let q = bytes * 8000 / dt as int;
            &&& 0 <= q <= u64::MAX
            &&& q * dt <= bytes * 8 * 1000 < (q + 1) * dt
        }),
{
    lemma_rate_fits(bytes, dt);
    let n = bytes * 8000;
    let d = dt as int;
    assert(n / d * d <= n < (n / d + 1) * d) by (nonlinear_arith)
        requires
            d > 0,
            n >= 0,
    ;
}

/// Different numbers make different identifiers, of sixteen digits each, that
/// spell them in hexadecimal.
pub proof fn identifiers_differ(m: u64, n: u64)
    ensures
        id_text(m as nat).len() == 16,
        text::digits_value(id_text(m as nat), 16) == m,
        id_text(m as nat) == id_text(n as nat) ==> m == n,
{
    lemma_id(m);
    lemma_id(n);
}

proof fn lemma_id(n: u64)
    ensures
        id_text(n as nat).len() == 16,
        text::digits_value(id_text(n as nat), 16) == n,
{
    assert(sixteen_to(16) == 0x1_0000_0000_0000_0000) by {
        reveal_with_fuel(sixteen_to, 17);
    }
    lemma_hex_len(n as nat, 16);
    let digits = text::numeral(n as nat, 16);
    text::numeral_reads_back(n as nat, 16);
    lemma_leading_zeros((16 - digits.len()) as nat, digits);
}

proof fn lemma_leading_zeros(k: nat, digits: Seq<char>)
    ensures
        text::digits_value(Seq::new(k, |i: int| '0') + digits, 16) == text::digits_value(digits, 16),
    decreases k + digits.len(),
{
    let zeros = Seq::new(k, |i: int| '0');
    let s = zeros + digits;
    if digits.len() > 0 {
        lemma_leading_zeros(k, digits.drop_last());
        assert(s.drop_last() =~= zeros + digits.drop_last());
    } else if k > 0 {
        lemma_leading_zeros((k - 1) as nat, digits);
        assert(s.drop_last() =~= Seq::new((k - 1) as nat, |i: int| '0') + digits);
    } else {
        assert(s =~= digits);
    }
}

/// Each byte is spelled by two hexadecimal digits, so that different bytes have
/// different texts.
pub proof fn hex_spells_the_bytes(a: Seq<u8>, b: Seq<u8>, i: int)
    ensures
        hex_text(a).len() == 2 * a.len(),
        0 <= i < a.len() ==> text::digits_value(hex_text(a).subrange(2 * i, 2 * i + 2), 16) == a[i],
        hex_text(a) == hex_text(b) ==> a == b,
{
    if 0 <= i < a.len() {
        lemma_hex_byte(a, i);
    }
    if hex_text(a) == hex_text(b) {
        assert(hex_text(b).len() == 2 * b.len());
        assert forall|k: int| 0 <= k < a.len() implies a[k] == b[k] by {
            lemma_hex_byte(a, k);
            lemma_hex_byte(b, k);
        }
        assert(a =~= b);
    }
}

proof fn lemma_hex_byte(a: Seq<u8>, i: int)
    requires
        0 <= i < a.len(),
    ensures
        text::digits_value(hex_text(a).subrange(2 * i, 2 * i + 2), 16) == a[i],
{
    let t = hex_text(a).subrange(2 * i, 2 * i + 2);
    let high = text::digit_char((a[i] / 16) as nat);
    let low = text::digit_char((a[i] % 16) as nat);
    assert(t =~= seq![high, low]);
    assert(t.drop_last() =~= seq![high]);
    assert(seq![high].drop_last() =~= Seq::<char>::empty());
    reveal_with_fuel(text::digits_value, 3);
    assert(text::digit_value(high) == Some((a[i] / 16) as nat));
    assert(text::digit_value(low) == Some((a[i] % 16) as nat));
}

/// A sample holds what was measured, as it was measured, with its time, the
/// context and the rates.
pub proof fn samples_keep_what_was_measured(
    id: String,
    s: SampleInput,
    c: Context,
    bps: Option<(u64, u64)>,
    now: u64,
)
    ensures
        ({
            let e = sample_entry(id, s, c, bps, now);
            &&& e.id == id && e.at_ms == now
            &&& e.session == c.session && e.cycle == c.cycle
            &&& e.path == s.path && e.carrier == s.carrier
            &&& e.rtt_us == s.rtt_us && e.rtt_src == s.rtt_src
            &&& e.tx_bytes == s.tx_bytes && e.rx_bytes == s.rx_bytes
            &&& e.tx_pkts == s.tx_pkts && e.rx_pkts == s.rx_pkts
            &&& e.lost_pkts == s.lost_pkts && e.cwnd == s.cwnd
            &&& e.mtu == s.mtu && e.mtu_src == s.mtu_src
            &&& e.probes_sent == s.probes_sent && e.probes_lost == s.probes_lost
            &&& bps is None ==> e.tx_bps is None && e.rx_bps is None
            &&& bps matches Some((tx, rx)) ==> e.tx_bps == Some(tx) && e.rx_bps == Some(rx)
        }),
{
}

/// A run that starts has written its opening and nothing else, has counted
/// nothing, and keeps as many entries in memory as is asked for, but never fewer
/// than 64.
pub proof fn runs_start_empty(cfg: RecordConfig, id: String, open: Opening, first: Entry)
    ensures
        ({
            let r = started(cfg, id, open, first);
            &&& r.enabled && r.id == id && r.open == open
            &&& r.log == seq![first]
            &&& r.steps.len() == 0 && r.samples.len() == 0 && r.close is None
            &&& r.dropped == 0 && r.last_sample is None
            &&& r.summary.sessions == 0 && r.summary.reconnects == 0
            &&& r.summary.connected_ms == 0 && r.summary.direct_ms is None
            &&& r.summary.up_since_ms is None && r.summary.first_connect_ms is None
            &&& r.max_entries >= 64 && r.max_entries >= cfg.max_entries
            &&& r.max_entries == 64 || r.max_entries == cfg.max_entries
            &&& r.sample_interval == cfg.sample_interval
        }),
{
}

/// Times are told from the opening of a record on, which stands at zero; every
/// other entry tells its own.
pub proof fn times_are_told_from_the_opening(o: Open, s: Step, p: Sample, g: Gap, c: Close)
    ensures
        Entry::Open(o).time() == 0,
        Entry::Step(s).time() == s.at_ms,
        Entry::Sample(p).time() == p.at_ms,
        Entry::Gap(g).time() == g.at_ms,
        Entry::Close(c).time() == c.at_ms,
{
}

} // verus!
