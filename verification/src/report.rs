//! What is to be recorded of a step that was taken.

use vstd::prelude::*;
use vstd::string::*;
use crate::addr::SocketAddr;
use crate::fault::{Fault, FaultView};
use crate::vocab::{Carrier, PathKind, Reason, StepKind};

verus! {

/// How a step ended.
#[derive(Debug, PartialEq, Eq)]
pub enum Ending {
    Done,
    Failed(Fault),
    Skipped(Fault),
    /// It was left without being ended.
    Abandoned,
}

/// How a step ended.
pub enum EndingView {
    Done,
    Failed(FaultView),
    Skipped(FaultView),
    Abandoned,
}

impl Ending {
    pub open spec fn view(&self) -> EndingView {
        match self {
            Ending::Done => EndingView::Done,
            Ending::Failed(f) => EndingView::Failed(f.view()),
            Ending::Skipped(f) => EndingView::Skipped(f.view()),
            Ending::Abandoned => EndingView::Abandoned,
        }
    }
}

/// What is to be recorded of a step.
#[derive(Debug, PartialEq, Eq)]
pub struct StepReport {
    pub kind: StepKind,
    pub via: Option<String>,
    pub local: Option<SocketAddr>,
    pub peer: Option<SocketAddr>,
    pub carrier: Option<Carrier>,
    pub path: Option<PathKind>,
    pub detail: Option<String>,
    pub ending: Ending,
}

/// What is to be recorded of a step.
pub struct ReportView {
    pub kind: StepKind,
    pub via: Option<Seq<char>>,
    pub local: Option<SocketAddr>,
    pub peer: Option<SocketAddr>,
    pub carrier: Option<Carrier>,
    pub path: Option<PathKind>,
    pub detail: Option<Seq<char>>,
    pub ending: EndingView,
}

/// A text, where there is one.
pub open spec fn opt_text(s: Option<String>) -> Option<Seq<char>> {
    match s {
        Some(t) => Some(t@),
        None => None,
    }
}

impl StepReport {
    pub open spec fn view(&self) -> ReportView {
        ReportView {
            kind: self.kind,
            via: opt_text(self.via),
            local: self.local,
            peer: self.peer,
            carrier: self.carrier,
            path: self.path,
            detail: opt_text(self.detail),
            ending: self.ending.view(),
        }
    }
}

/// A step that is done, of which nothing else is known.
pub open spec fn done(kind: StepKind) -> ReportView {
    ReportView {
        kind,
        via: None,
        local: None,
        peer: None,
        carrier: None,
        path: None,
        detail: None,
        ending: EndingView::Done,
    }
}

/// Reports in order.
pub open spec fn reports(v: Seq<StepReport>) -> Seq<ReportView> {
    Seq::new(v.len(), |i: int| v[i].view())
}

impl StepReport {
    /// A step that is done, of which nothing else is known.
    pub fn new(kind: StepKind) -> (r: StepReport)
        ensures
            r.view() == done(kind),
    {
        StepReport {
            kind,
            via: None,
            local: None,
            peer: None,
            carrier: None,
            path: None,
            detail: None,
            ending: Ending::Done,
        }
    }

    /// What the step reaches through.
    pub fn via(self, via: &str) -> (r: StepReport)
        ensures
            r.view() == (ReportView { via: Some(via@), ..self.view() }),
    {
        let mut r = self;
        r.via = Some(String::from_str(via));
        r
    }

    /// The own address.
    pub fn local(self, a: SocketAddr) -> (r: StepReport)
        ensures
            r.view() == (ReportView { local: Some(a), ..self.view() }),
    {
        let mut r = self;
        r.local = Some(a);
        r
    }

    /// The other side's address.
    pub fn peer(self, a: SocketAddr) -> (r: StepReport)
        ensures
            r.view() == (ReportView { peer: Some(a), ..self.view() }),
    {
        let mut r = self;
        r.peer = Some(a);
        r
    }

    pub fn carrier(self, c: Carrier) -> (r: StepReport)
        ensures
            r.view() == (ReportView { carrier: Some(c), ..self.view() }),
    {
        let mut r = self;
        r.carrier = Some(c);
        r
    }

    pub fn path(self, p: PathKind) -> (r: StepReport)
        ensures
            r.view() == (ReportView { path: Some(p), ..self.view() }),
    {
        let mut r = self;
        r.path = Some(p);
        r
    }

    /// What there is to say of the step.
    pub fn detail(self, d: &str) -> (r: StepReport)
        ensures
            r.view() == (ReportView { detail: Some(d@), ..self.view() }),
    {
        let mut r = self;
        r.detail = Some(String::from_str(d));
        r
    }

    /// The step failed.
    pub fn failed(self, f: &Fault) -> (r: StepReport)
        ensures
            r.view() == (ReportView { ending: EndingView::Failed(f.view()), ..self.view() }),
    {
        let mut r = self;
        r.ending = Ending::Failed(f.clone());
        r
    }

    /// The step failed, with this code and these words.
    pub fn fail(self, reason: Reason, detail: &str) -> (r: StepReport)
        ensures
            r.view() == (ReportView {
                ending: EndingView::Failed(FaultView { reason, detail: detail@ }),
                ..self.view()
            }),
    {
        let mut r = self;
        r.ending = Ending::Failed(Fault::new(reason, detail));
        r
    }

    /// The step was left without being ended.
    pub fn abandoned(self) -> (r: StepReport)
        ensures
            r.view() == (ReportView { ending: EndingView::Abandoned, ..self.view() }),
    {
        let mut r = self;
        r.ending = Ending::Abandoned;
        r
    }

    /// The step was not taken.
    pub fn skip(self, reason: Reason, detail: &str) -> (r: StepReport)
        ensures
            r.view() == (ReportView {
                ending: EndingView::Skipped(FaultView { reason, detail: detail@ }),
                ..self.view()
            }),
    {
        let mut r = self;
        r.ending = Ending::Skipped(Fault::new(reason, detail));
        r
    }
}

} // verus!
