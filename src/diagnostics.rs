//! Advisory anomalies noticed while reading dialogue lines or reciting.
use vstd::prelude::*;

verus! {

/// The mathematical form of an [`Anomaly`].
pub ghost enum AnomalyModel {
    BadLineNumber(Seq<char>),
    BadConfigLine(Seq<char>, nat),
    DuplicateLines(usize, Seq<char>, nat),
    OverlappingSpeakers(usize, Seq<Seq<char>>),
    SilentTick(usize),
}

/// A non-fatal irregularity. None of them changes what is recited.
#[derive(Debug, PartialEq, Eq)]
pub enum Anomaly {
    /// A dialogue line whose leading token (held here) is no position.
    BadLineNumber(String),
    /// A configuration line (held here) with this many tokens, not two.
    BadConfigLine(String, usize),
    /// At this tick the named character has this many lines (more than one).
    DuplicateLines(usize, String, usize),
    /// At this tick these distinct characters speak, in configuration order.
    OverlappingSpeakers(usize, Vec<String>),
    /// Nobody speaks at this tick.
    SilentTick(usize),
}

pub open spec fn names_view(v: Seq<String>) -> Seq<Seq<char>> {
    v.map_values(|s: String| s@)
}

impl View for Anomaly {
    type V = AnomalyModel;

    open spec fn view(&self) -> AnomalyModel {
        match self {
            Anomaly::BadLineNumber(t) => AnomalyModel::BadLineNumber(t@),
            Anomaly::BadConfigLine(l, n) => AnomalyModel::BadConfigLine(l@, *n as nat),
            Anomaly::DuplicateLines(t, n, c) => AnomalyModel::DuplicateLines(*t, n@, *c as nat),
            Anomaly::OverlappingSpeakers(t, v) => AnomalyModel::OverlappingSpeakers(
                *t,
                names_view(v@),
            ),
            Anomaly::SilentTick(t) => AnomalyModel::SilentTick(*t),
        }
    }
}

pub open spec fn anomalies_view(v: Seq<Anomaly>) -> Seq<AnomalyModel> {
    v.map_values(|a: Anomaly| a@)
}

} // verus!
