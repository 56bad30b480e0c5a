//! The decisions of the loop that watches the client's memory: when to read
//! it again, how long to pause first, and which new messages to report.
use vstd::prelude::*;

use crate::memory::{loot_positions, message_map, reports_fresh, snapshot_accepts, Snapshot};
use crate::text::string_views;

verus! {

/// What the watcher knows between two reads of memory.
pub enum Watch {
    /// No read has succeeded since the last report: the next read that
    /// succeeds becomes the baseline.
    Baseline,
    /// Reads are compared with this snapshot.
    Watching(Snapshot),
}

/// What to do after a read: report the texts, if any, then pause for each
/// of the durations in turn, then read memory again.
pub struct Step {
    pub watch: Watch,
    pub report: Option<Vec<String>>,
    pub pauses_ms: Vec<u64>,
}

/// The pause between two reads that are compared, in milliseconds.
pub open spec fn poll_ms() -> u64 {
    200
}

/// The pause after a failed read while watching, in milliseconds.
pub open spec fn retry_ms() -> u64 {
    5000
}

/// The snapshot of a copy of memory, as a map of texts by checksum.
pub open spec fn snapshot_of(raw: Seq<u8>) -> Map<u32, Seq<char>> {
    message_map(raw, loot_positions(raw))
}

impl Watch {
    /// The state before the first read, which is made at once.
    pub fn start() -> (w: Watch)
        ensures
            w is Baseline,
    {
        Watch::Baseline
    }

    /// The next state and action after a read of memory: a failed read
    /// leaves the state as it is (retried at once with no baseline, after a
    /// long and a short pause while watching); a successful read becomes
    /// the baseline, or, while watching, is compared with it: new messages
    /// are reported and the baseline dropped, else the watch goes on.
    pub fn step(self, read: Result<Vec<u8>, &str>) -> (s: Step)
        requires
            read matches Ok(m) ==> snapshot_accepts(m@),
        ensures
            match (self, read) {
                (Watch::Baseline, Err(_)) => s.watch is Baseline && s.report is None
                    && s.pauses_ms@ == Seq::<u64>::empty(),
                (Watch::Baseline, Ok(m)) => s.watch matches Watch::Watching(snap) && snap@
                    == snapshot_of(m@) && s.report is None && s.pauses_ms@ == seq![poll_ms()],
                (Watch::Watching(old), Err(_)) => s.watch == Watch::Watching(old) && s.report is None
                    && s.pauses_ms@ == seq![retry_ms(), poll_ms()],
                (Watch::Watching(old), Ok(m)) => if snapshot_of(m@).dom().subset_of(old@.dom()) {
                    s.watch == Watch::Watching(old) && s.report is None && s.pauses_ms@ == seq![
                        poll_ms(),
                    ]
                } else {
                    &&& s.watch is Baseline
                    &&& s.pauses_ms@ == Seq::<u64>::empty()
                    &&& s.report matches Some(texts) && texts@.len() > 0 && reports_fresh(
                        old@,
                        snapshot_of(m@),
                        string_views(texts@),
                    )
                },
            },
    {
        match self {
            Watch::Baseline => match read {
                Err(_) => Step { watch: Watch::Baseline, report: None, pauses_ms: Vec::new() },
                Ok(m) => {
                    let snap = Snapshot::from(m.as_slice());
                    Step { watch: Watch::Watching(snap), report: None, pauses_ms: vec![200] }
                },
            },
            Watch::Watching(old) => match read {
                Err(_) => Step {
                    watch: Watch::Watching(old),
                    report: None,
                    pauses_ms: vec![5000, 200],
                },
                Ok(m) => {
                    let new = Snapshot::from(m.as_slice());
                    let diff = old.diff(&new);
                    if !diff.is_empty() {
                        Step { watch: Watch::Baseline, report: Some(diff.messages), pauses_ms: Vec::new() }
                    } else {
                        Step { watch: Watch::Watching(old), report: None, pauses_ms: vec![200] }
                    }
                },
            },
        }
    }
}

} // verus!
