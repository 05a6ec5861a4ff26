use stormforge_core::apply::{build_desired_state, diff, manifest_from_desired, ListedFile, ModFolder, ModListing, Op};
use stormforge_core::apply_step::{next_apply_step, ApplyAction, ApplyEvent, ApplyState};
use stormforge_core::manifest::{FileIdentity, Manifest};

fn desired_with_one_mod() -> stormforge_core::apply::DesiredState {
    let vanilla = vec!["data/base.xml".to_string(), "meshes/ship.mesh".to_string()];
    let listing = ModListing {
        name: "ModA".to_string(),
        version: "1.0".to_string(),
        folders: vec![ModFolder {
            name: "Meshes".to_string(),
            path: "/mods/ModA/Meshes".to_string(),
            files: vec![
                ListedFile { rel_path: "ship.mesh".to_string(), size: 13, mtime_ms: 5 },
                ListedFile { rel_path: "boat.mesh".to_string(), size: 7, mtime_ms: 5 },
            ],
        }],
    };
    build_desired_state(&vanilla, &vec![listing])
}

fn op_paths(ops: &[Op]) -> Vec<String> {
    ops.iter()
        .map(|op| match op {
            Op::CopyFromMod { rel_path, .. } => format!("copy {rel_path}"),
            Op::RestoreVanilla { rel_path } => format!("restore {rel_path}"),
            Op::Delete { rel_path } => format!("delete {rel_path}"),
        })
        .collect()
}

#[test]
fn a_read_manifest_runs_the_plan_then_writes_the_manifest() {
    let desired = desired_with_one_mod();
    let current = Manifest::new();
    let planned = diff(&current, &desired);
    let (state, action) = next_apply_step(&desired, ApplyState::Planning, ApplyEvent::ManifestRead(Some(current)));
    let ApplyAction::Execute(ops) = action else { panic!("expected the plan to run") };
    assert_eq!(ops, planned);
    let (state, action) = next_apply_step(&desired, state, ApplyEvent::OpsDone(true));
    assert!(matches!(state, ApplyState::Done));
    let ApplyAction::WriteManifest(manifest, stats) = action else { panic!("expected the manifest to be written") };
    assert_eq!(manifest, manifest_from_desired(&desired));
    assert_eq!((stats.copied, stats.restored, stats.removed, stats.unchanged), (2, 0, 0, 1));
    assert!(!stats.full_rebuild);
}

#[test]
fn re_applying_writes_the_manifest_after_running_nothing() {
    let desired = desired_with_one_mod();
    let current = manifest_from_desired(&desired);
    let (state, action) = next_apply_step(&desired, ApplyState::Planning, ApplyEvent::ManifestRead(Some(current)));
    let ApplyAction::Execute(ops) = action else { panic!("expected the plan to run") };
    assert!(ops.is_empty());
    let (_, action) = next_apply_step(&desired, state, ApplyEvent::OpsDone(true));
    let ApplyAction::WriteManifest(_, stats) = action else { panic!("expected the manifest to be written") };
    assert_eq!((stats.copied, stats.unchanged), (0, 3));
}

#[test]
fn a_missing_manifest_leads_to_a_full_rebuild() {
    let desired = desired_with_one_mod();
    let (state, action) = next_apply_step(&desired, ApplyState::Planning, ApplyEvent::ManifestRead(None));
    let ApplyAction::FullRebuild(ops) = action else { panic!("expected a full rebuild") };
    assert_eq!(op_paths(&ops), vec!["copy meshes/boat.mesh", "copy meshes/ship.mesh"]);
    let (state, action) = next_apply_step(&desired, state, ApplyEvent::RebuildDone);
    assert!(matches!(state, ApplyState::Done));
    let ApplyAction::WriteManifest(manifest, stats) = action else { panic!("expected the manifest to be written") };
    assert_eq!(manifest, manifest_from_desired(&desired));
    assert!(stats.full_rebuild);
    assert_eq!(stats.copied, 2);
}

#[test]
fn failed_operations_lead_to_a_full_rebuild() {
    let desired = desired_with_one_mod();
    let (state, _) = next_apply_step(&desired, ApplyState::Planning, ApplyEvent::ManifestRead(Some(Manifest::new())));
    let (state, action) = next_apply_step(&desired, state, ApplyEvent::OpsDone(false));
    assert!(matches!(action, ApplyAction::FullRebuild(_)));
    assert!(matches!(state, ApplyState::Rebuilding(_)));
    let (_, action) = next_apply_step(&desired, state, ApplyEvent::RebuildDone);
    let ApplyAction::WriteManifest(_, stats) = action else { panic!("expected the manifest to be written") };
    assert!(stats.full_rebuild);
}

#[test]
fn an_event_out_of_turn_changes_nothing() {
    let desired = desired_with_one_mod();
    let (state, action) = next_apply_step(&desired, ApplyState::Planning, ApplyEvent::RebuildDone);
    assert!(matches!(state, ApplyState::Planning));
    assert!(matches!(action, ApplyAction::Nothing));
    let (state, action) = next_apply_step(&desired, ApplyState::Done, ApplyEvent::OpsDone(true));
    assert!(matches!(state, ApplyState::Done));
    assert!(matches!(action, ApplyAction::Nothing));
}

#[derive(Debug, Clone, PartialEq, Eq)]
enum Held {
    Mod(FileIdentity),
    Vanilla,
}

fn rom_after(
    manifest: &Manifest,
    vanilla: &[&str],
    ops: &[Op],
) -> std::collections::BTreeMap<String, Held> {
    let mut rom = std::collections::BTreeMap::new();
    for v in vanilla {
        rom.insert(v.to_string(), Held::Vanilla);
    }
    for i in 0..manifest.files.len() {
        let (path, identity) = manifest.files.get_index(i);
        rom.insert(path.clone(), Held::Mod(identity.clone()));
    }
    for op in ops {
        match op {
            Op::CopyFromMod { rel_path, identity, .. } => {
                rom.insert(rel_path.clone(), Held::Mod(identity.clone()));
            }
            Op::RestoreVanilla { rel_path } => {
                rom.insert(rel_path.clone(), Held::Vanilla);
            }
            Op::Delete { rel_path } => {
                rom.remove(rel_path);
            }
        }
    }
    rom
}

#[test]
fn the_plan_reaches_the_same_rom_in_any_order() {
    let desired = desired_with_one_mod();
    let mut current = Manifest::new();
    let stale = FileIdentity { mod_name: "Old".into(), mod_version: "0".into(), size: 1, mtime_ms: 1 };
    current.files.insert("meshes/ship.mesh".to_string(), stale.clone());
    current.files.insert("data/gone.xml".to_string(), stale);
    let ops = diff(&current, &desired);
    assert!(ops.len() >= 2);
    let vanilla = ["data/base.xml", "meshes/ship.mesh"];
    let target = rom_after(&manifest_from_desired(&desired), &vanilla, &[]);
    let mut reversed = ops.clone();
    reversed.reverse();
    assert_eq!(rom_after(&current, &vanilla, &ops), target);
    assert_eq!(rom_after(&current, &vanilla, &reversed), target);
}

fn record(manifest: &Manifest, ops: &[Op]) -> std::collections::BTreeMap<String, FileIdentity> {
    let mut files = std::collections::BTreeMap::new();
    for i in 0..manifest.files.len() {
        let (path, identity) = manifest.files.get_index(i);
        files.insert(path.clone(), identity.clone());
    }
    for op in ops {
        match op {
            Op::CopyFromMod { rel_path, identity, .. } => {
                files.insert(rel_path.clone(), identity.clone());
            }
            Op::RestoreVanilla { rel_path } | Op::Delete { rel_path } => {
                files.remove(rel_path);
            }
        }
    }
    files
}

#[test]
fn recording_the_plan_in_any_order_gives_the_desired_manifest() {
    let desired = desired_with_one_mod();
    let mut current = Manifest::new();
    let stale = FileIdentity { mod_name: "Old".into(), mod_version: "0".into(), size: 1, mtime_ms: 1 };
    current.files.insert("meshes/ship.mesh".to_string(), stale.clone());
    current.files.insert("data/gone.xml".to_string(), stale.clone());
    current.files.insert("data/base.xml".to_string(), stale);
    let ops = diff(&current, &desired);
    let target = record(&manifest_from_desired(&desired), &[]);
    let mut reversed = ops.clone();
    reversed.reverse();
    assert_eq!(record(&current, &ops), target);
    assert_eq!(record(&current, &reversed), target);
}
