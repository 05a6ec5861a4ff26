//! The decisions of an apply, as a step function the front end drives: read the
//! manifest, run the planned operations, fall back to a full rebuild, and write the
//! fresh manifest last.
//!
//! Safety net: a missing or corrupt manifest, or a failure while running the planned
//! operations, leads to a full rebuild (the rom cleared and restored from the vanilla
//! backup, then every desired mod file copied). The fresh manifest is written only once
//! the rom holds the desired state.
use vstd::prelude::*;

use crate::apply::{
    copy_count, delete_count, desired_identities, desired_map, desired_path_count,
    full_rebuild_ops, manifest_from_desired, ops_for_desired, ops_view, planned_ops,
    restore_count, stats_from_ops, ApplyStats, DesiredState, Op, OpView,
};
use crate::manifest::{manifest_map, IdentityView, Manifest};

verus! {

/// Where an apply stands.
pub enum ApplyState {
    /// Waiting for the manifest to be read.
    Planning,
    /// The planned operations are running; these are their statistics.
    Applying(ApplyStats),
    /// The full rebuild is running; these are its statistics.
    Rebuilding(ApplyStats),
    /// The manifest has been handed out for writing.
    Done,
}

/// What the front end reports back.
pub enum ApplyEvent {
    /// The manifest as read, or `None` when it is missing or corrupt.
    ManifestRead(Option<Manifest>),
    /// Whether every planned operation succeeded.
    OpsDone(bool),
    /// The full rebuild finished.
    RebuildDone,
}

/// What the front end does next.
pub enum ApplyAction {
    /// Run these operations against the rom.
    Execute(Vec<Op>),
    /// Clear the rom, restore it from the vanilla backup, then run these operations.
    FullRebuild(Vec<Op>),
    /// Write this manifest; the apply is over, with these statistics.
    WriteManifest(Manifest, ApplyStats),
    /// Nothing: the event does not belong to this state.
    Nothing,
}

/// The operations of a full rebuild: a copy of every desired mod file, in key order.
pub open spec fn full_rebuild_plan(d: DesiredState) -> Seq<OpView> {
    ops_for_desired(
        d.mod_files.key_seq(),
        Map::<Seq<char>, IdentityView>::empty(),
        desired_map(d),
    )
}

/// `s` counts the operations `ops` run for `d`: copies, restores, removals, every
/// other path the rom should hold as unchanged, and whether a full rebuild ran.
pub open spec fn stats_for(s: ApplyStats, ops: Seq<OpView>, d: DesiredState, full: bool) -> bool {
    let touched = copy_count(ops) + restore_count(ops);
    &&& s.copied == copy_count(ops)
    &&& s.restored == restore_count(ops)
    &&& s.removed == delete_count(ops)
    &&& s.unchanged == (if desired_path_count(d) >= touched {
        desired_path_count(d) - touched
    } else {
        0
    })
    &&& s.full_rebuild == full
}

/// `a` asks for the full rebuild of `d`, and `st` is the state that waits for it.
pub open spec fn is_rebuild_step(d: DesiredState, st: ApplyState, a: ApplyAction) -> bool {
    &&& a matches ApplyAction::FullRebuild(ops) && ops_view(ops@) == full_rebuild_plan(d)
    &&& st matches ApplyState::Rebuilding(s) && stats_for(s, full_rebuild_plan(d), d, true)
}

/// `a` writes the manifest of `d` with the statistics `s`, and `st` is the end.
pub open spec fn is_final_step(d: DesiredState, s: ApplyStats, st: ApplyState, a: ApplyAction) -> bool {
    &&& a matches ApplyAction::WriteManifest(m, s2) && manifest_map(m) == desired_identities(d)
        && s2 == s
    &&& st is Done
}

/// The full rebuild of `desired`: its operations and the state that waits for them.
fn rebuild(desired: &DesiredState) -> (r: (ApplyState, ApplyAction))
    requires
        desired_path_count(*desired) <= usize::MAX,
    ensures
        is_rebuild_step(*desired, r.0, r.1),
{
    let ops = full_rebuild_ops(desired);
    let mut stats = stats_from_ops(&ops, desired);
    stats.full_rebuild = true;
    (ApplyState::Rebuilding(stats), ApplyAction::FullRebuild(ops))
}

/// One step of an apply of `desired`: from the state and what the front end reports,
/// the next state and what to do.
/// - A manifest that was read leads to running exactly the operations planned from it.
/// - No manifest, or a failure among those operations, leads to the full rebuild.
/// - Success of either leads to writing the manifest of `desired`, with the statistics
///   of the operations that ran, `full_rebuild` set exactly when the rebuild ran.
/// - Any other event changes nothing.
pub fn next_apply_step(desired: &DesiredState, state: ApplyState, event: ApplyEvent) -> (r: (
    ApplyState,
    ApplyAction,
))
    requires
        desired_path_count(*desired) <= usize::MAX,
    ensures
        match state {
            ApplyState::Planning => match event {
                ApplyEvent::ManifestRead(Some(m)) => {
                    &&& r.1 matches ApplyAction::Execute(ops) && ops_view(ops@) == planned_ops(
                        m,
                        *desired,
                    )
                    &&& r.0 matches ApplyState::Applying(s) && stats_for(
                        s,
                        planned_ops(m, *desired),
                        *desired,
                        false,
                    )
                },
                ApplyEvent::ManifestRead(None) => is_rebuild_step(*desired, r.0, r.1),
                _ => r.0 == state && r.1 is Nothing,
            },
            ApplyState::Applying(s) => match event {
                ApplyEvent::OpsDone(true) => is_final_step(*desired, s, r.0, r.1),
                ApplyEvent::OpsDone(false) => is_rebuild_step(*desired, r.0, r.1),
                _ => r.0 == state && r.1 is Nothing,
            },
            ApplyState::Rebuilding(s) => match event {
                ApplyEvent::RebuildDone => is_final_step(*desired, s, r.0, r.1),
                _ => r.0 == state && r.1 is Nothing,
            },
            ApplyState::Done => r.0 == state && r.1 is Nothing,
        },
{
    match state {
        ApplyState::Planning => match event {
            ApplyEvent::ManifestRead(Some(current)) => {
                let ops = crate::apply::diff(&current, desired);
                let stats = stats_from_ops(&ops, desired);
                (ApplyState::Applying(stats), ApplyAction::Execute(ops))
            },
            ApplyEvent::ManifestRead(None) => rebuild(desired),
            _ => (ApplyState::Planning, ApplyAction::Nothing),
        },
        ApplyState::Applying(stats) => match event {
            ApplyEvent::OpsDone(true) => (
                ApplyState::Done,
                ApplyAction::WriteManifest(manifest_from_desired(desired), stats),
            ),
            ApplyEvent::OpsDone(false) => rebuild(desired),
            _ => (ApplyState::Applying(stats), ApplyAction::Nothing),
        },
        ApplyState::Rebuilding(stats) => match event {
            ApplyEvent::RebuildDone => (
                ApplyState::Done,
                ApplyAction::WriteManifest(manifest_from_desired(desired), stats),
            ),
            _ => (ApplyState::Rebuilding(stats), ApplyAction::Nothing),
        },
        ApplyState::Done => (ApplyState::Done, ApplyAction::Nothing),
    }
}

} // verus!
