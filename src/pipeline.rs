//! The rewrite policy: which source entries go into the output container,
//! how each is carried, and how the run ends when a transform fails.
//!
//! Workers may finish in any order; every result goes through one shared
//! `RewriteProgress`, so the counts do not depend on the order of writes.
use crate::restore::{ends_with, has_suffix};
use vstd::prelude::*;

verus! {

/// How one selected entry is carried into the output.
#[derive(Debug, Clone, Copy, PartialEq, Eq, Structural)]
pub enum EntryAction {
    /// Decode and transform the payload.
    Transform,
    /// Copy the payload byte for byte.
    Copy,
}

/// Whether an entry's logical path names a texture of the transformed
/// kind (`*.tex.241106027`).
pub fn is_target_path(path: &str) -> (r: bool)
    ensures
        r == has_suffix(path@, ".tex.241106027"@),
{
    ends_with(path, ".tex.241106027")
}

/// The action for an entry, given whether it is of the target kind.
pub fn entry_action(is_target: bool) -> (r: EntryAction)
    ensures
        r == (if is_target { EntryAction::Transform } else { EntryAction::Copy }),
{
    if is_target {
        EntryAction::Transform
    } else {
        EntryAction::Copy
    }
}

/// The indices of the entries carried over: every entry in full-package
/// mode, else those of the target kind, in source order.
pub open spec fn selection(is_target: Seq<bool>, full_package: bool) -> Seq<usize>
    decreases is_target.len(),
{
    if is_target.len() == 0 {
        Seq::empty()
    } else {
        let init = selection(is_target.drop_last(), full_package);
        if full_package || is_target.last() {
            init.push((is_target.len() - 1) as usize)
        } else {
            init
        }
    }
}

/// Selects the entries to carry over; `is_target[i]` tells whether entry `i`
/// is of the target kind.
pub fn select_entries(is_target: &Vec<bool>, full_package: bool) -> (r: Vec<usize>)
    ensures
        r@ == selection(is_target@, full_package),
{
    let mut out: Vec<usize> = Vec::new();
    let mut i: usize = 0;
    while i < is_target.len()
        invariant
            i <= is_target.len(),
            out@ == selection(is_target@.subrange(0, i as int), full_package),
        decreases is_target.len() - i,
    {
        let ghost pre = is_target@.subrange(0, i + 1);
        assert(pre.drop_last() =~= is_target@.subrange(0, i as int));
        if full_package || is_target[i] {
            out.push(i);
        }
        i += 1;
    }
    assert(is_target@.subrange(0, is_target@.len() as int) =~= is_target@);
    out
}

/// The entry count the output writer is sized for: the selected entries
/// and one slot for the provenance entry, which is written first.
pub fn writer_capacity(selected: usize) -> (r: u64)
    requires
        selected < u64::MAX,
    ensures
        r == selected + 1,
{
    selected as u64 + 1
}

/// What a run produced when every selected entry was written.
#[derive(Debug, Clone, Copy, PartialEq, Eq, Structural)]
pub struct RewriteStats {
    pub entries_written: u64,
    pub bytes_written: u64,
}

/// A run that stopped at a failed transform; the output still holds the
/// entries written before it and is finalized.
#[derive(Debug, Clone, Copy, PartialEq, Eq, Structural)]
pub struct RewriteFailure {
    /// Index of the first entry whose transform failed.
    pub failed_entry: usize,
    pub entries_written: u64,
    pub bytes_written: u64,
}

/// The shared state of one rewrite run.
#[derive(Debug, Clone, Copy, PartialEq, Eq, Structural)]
pub struct RewriteProgress {
    pub entries_written: u64,
    pub bytes_written: u64,
    /// The first failed entry, once a transform has failed.
    pub failed_entry: Option<usize>,
}

pub open spec fn sat_add(a: u64, b: u64) -> u64 {
    if a + b > u64::MAX {
        u64::MAX
    } else {
        (a + b) as u64
    }
}

/// The state after one entry of `bytes` bytes is appended.
pub open spec fn after_write(p: RewriteProgress, bytes: u64) -> RewriteProgress {
    RewriteProgress {
        entries_written: sat_add(p.entries_written, 1),
        bytes_written: sat_add(p.bytes_written, bytes),
        failed_entry: p.failed_entry,
    }
}

/// The state after the transform of `entry` failed; the first failure is
/// kept.
pub open spec fn after_failure(p: RewriteProgress, entry: usize) -> RewriteProgress {
    RewriteProgress {
        entries_written: p.entries_written,
        bytes_written: p.bytes_written,
        failed_entry: match p.failed_entry {
            Some(first) => Some(first),
            None => Some(entry),
        },
    }
}

/// What a run reports once its output is finalized.
pub open spec fn outcome(p: RewriteProgress) -> Result<RewriteStats, RewriteFailure> {
    match p.failed_entry {
        None => Ok(
            RewriteStats { entries_written: p.entries_written, bytes_written: p.bytes_written },
        ),
        Some(i) => Err(
            RewriteFailure {
                failed_entry: i,
                entries_written: p.entries_written,
                bytes_written: p.bytes_written,
            },
        ),
    }
}

/// The state after the worker results `events` arrive in order: each is an
/// entry index with the size written, or `None` when its transform failed.
pub open spec fn run_events(p: RewriteProgress, events: Seq<(usize, Option<u64>)>) -> RewriteProgress
    decreases events.len(),
{
    if events.len() == 0 {
        p
    } else {
        let q = run_events(p, events.drop_last());
        match events.last().1 {
            Some(b) => after_write(q, b),
            None => after_failure(q, events.last().0),
        }
    }
}

/// How many of the results are written entries.
pub open spec fn writes(events: Seq<(usize, Option<u64>)>) -> nat
    decreases events.len(),
{
    if events.len() == 0 {
        0
    } else {
        writes(events.drop_last()) + if events.last().1 is Some {
            1nat
        } else {
            0nat
        }
    }
}

/// The bytes of the written entries, saturating.
pub open spec fn bytes_of(events: Seq<(usize, Option<u64>)>) -> u64
    decreases events.len(),
{
    if events.len() == 0 {
        0
    } else {
        match events.last().1 {
            Some(b) => sat_add(bytes_of(events.drop_last()), b),
            None => bytes_of(events.drop_last()),
        }
    }
}

/// The entry of the first failed result, if any.
pub open spec fn first_failure(events: Seq<(usize, Option<u64>)>) -> Option<usize>
    decreases events.len(),
{
    if events.len() == 0 {
        None
    } else {
        let f = first_failure(events.drop_last());
        if f is Some {
            f
        } else if events.last().1 is None {
            Some(events.last().0)
        } else {
            None
        }
    }
}

proof fn lemma_run_events(events: Seq<(usize, Option<u64>)>)
    requires
        events.len() <= u64::MAX,
    ensures
        writes(events) <= events.len(),
        (first_failure(events) is Some) ==> writes(events) < events.len(),
        run_events(RewriteProgress::spec_new(), events)
            == (RewriteProgress {
            entries_written: writes(events) as u64,
            bytes_written: bytes_of(events),
            failed_entry: first_failure(events),
        }),
    decreases events.len(),
{
    if events.len() > 0 {
        lemma_run_events(events.drop_last());
    }
}

/// A run that meets a failed transform ends in an error naming the first
/// failed entry, and still reports every entry written, before or after the
/// failure was seen, which are fewer than the results; a run without one
/// reports all the entries written.
pub proof fn lemma_partial_output(events: Seq<(usize, Option<u64>)>)
    requires
        events.len() <= u64::MAX,
    ensures
        outcome(run_events(RewriteProgress::spec_new(), events)) == (match first_failure(events) {
            None => Ok::<RewriteStats, RewriteFailure>(
                RewriteStats { entries_written: writes(events) as u64, bytes_written: bytes_of(events) },
            ),
            Some(i) => Err::<RewriteStats, RewriteFailure>(
                RewriteFailure {
                    failed_entry: i,
                    entries_written: writes(events) as u64,
                    bytes_written: bytes_of(events),
                },
            ),
        }),
        first_failure(events) is Some ==> writes(events) < events.len(),
{
    lemma_run_events(events);
}

impl RewriteProgress {
    /// The state of a run that has not started.
    pub open spec fn spec_new() -> RewriteProgress {
        RewriteProgress { entries_written: 0, bytes_written: 0, failed_entry: None }
    }

    /// A run with nothing written and no failure.
    pub fn new() -> (r: Self)
        ensures
            r == RewriteProgress::spec_new(),
    {
        RewriteProgress { entries_written: 0, bytes_written: 0, failed_entry: None }
    }

    /// Whether more entries may be handed to workers: only while no
    /// transform has failed.
    pub fn should_dispatch(&self) -> (r: bool)
        ensures
            r == self.failed_entry is None,
    {
        self.failed_entry.is_none()
    }

    /// Records one entry appended to the output, of `bytes` bytes.
    pub fn record_written(&mut self, bytes: u64)
        ensures
            *final(self) == after_write(*old(self), bytes),
    {
        self.entries_written = self.entries_written.saturating_add(1);
        self.bytes_written = self.bytes_written.saturating_add(bytes);
    }

    /// Records a failed transform; the first failure is kept.
    pub fn record_failure(&mut self, entry: usize)
        ensures
            *final(self) == after_failure(*old(self), entry),
    {
        if self.failed_entry.is_none() {
            self.failed_entry = Some(entry);
        }
    }

    /// The outcome once the output is finalized: the counts, or the first
    /// failure together with what was written before the run stopped.
    pub fn finish(&self) -> (r: Result<RewriteStats, RewriteFailure>)
        ensures
            r == outcome(*self),
    {
        match self.failed_entry {
            None => Ok(
                RewriteStats {
                    entries_written: self.entries_written,
                    bytes_written: self.bytes_written,
                },
            ),
            Some(i) => Err(
                RewriteFailure {
                    failed_entry: i,
                    entries_written: self.entries_written,
                    bytes_written: self.bytes_written,
                },
            ),
        }
    }
}

} // verus!
