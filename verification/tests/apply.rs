use stormforge_core::apply::{
    build_desired_state, diff, full_rebuild_ops, manifest_from_desired, normalise_top_level, stats_from_ops,
    ListedFile, ModFolder, ModListing, Op,
};
use stormforge_core::manifest::Manifest;

fn listed(rel: &str, size: u64) -> ListedFile {
    ListedFile { rel_path: rel.to_string(), size, mtime_ms: 1_700_000_000_000 }
}

fn folder(mod_dir: &str, name: &str, files: Vec<ListedFile>) -> ModFolder {
    ModFolder { name: name.to_string(), path: format!("{mod_dir}/{name}"), files }
}

fn listing(name: &str, folders: Vec<ModFolder>) -> ModListing {
    ModListing { name: name.to_string(), version: "1.0".to_string(), folders }
}

/// The standard fixture: vanilla backup with two files, ModA overriding one vanilla
/// file (from a capitalised `Meshes` folder), ModB adding a brand-new file.
fn vanilla() -> Vec<String> {
    vec!["data/base.xml".to_string(), "meshes/ship.mesh".to_string()]
}

fn mod_a() -> ModListing {
    listing("ModA", vec![folder("/tmp/mods/ModA", "Meshes", vec![listed("ship.mesh", 13)])])
}

fn mod_b() -> ModListing {
    listing("ModB", vec![folder("/tmp/mods/ModB", "data", vec![listed("extra.xml", 10)])])
}

#[test]
fn desired_state_normalises_folder_case_and_orders_last_writer_wins() {
    // ModA uses capitalised "Meshes"; the desired path must be lowercase.
    let desired = build_desired_state(&vanilla(), &vec![mod_a()]);
    assert!(desired.mod_files.contains_key("meshes/ship.mesh"));
    assert!(desired.vanilla_files.contains_key("meshes/ship.mesh"));
    assert!(desired.vanilla_files.contains_key("data/base.xml"));

    // Last writer wins: a second mod touching the same path overrides the first.
    let mod_c = listing("ModC", vec![folder("/tmp2/ModC", "meshes", vec![listed("ship.mesh", 13)])]);
    let desired = build_desired_state(&vanilla(), &vec![mod_a(), mod_c]);
    assert_eq!(desired.mod_files.get("meshes/ship.mesh").unwrap().identity.mod_name, "ModC");
}

#[test]
fn reapplying_same_state_produces_no_ops() {
    let desired = build_desired_state(&vanilla(), &vec![mod_a(), mod_b()]);
    let manifest = manifest_from_desired(&desired);
    let ops = diff(&manifest, &desired);
    assert!(ops.is_empty(), "same-playlist reapply must plan zero operations, got {ops:?}");
}

#[test]
fn deactivating_mods_restores_vanilla_and_deletes_added_files() {
    // Currently both mods applied…
    let with_mods = build_desired_state(&vanilla(), &vec![mod_a(), mod_b()]);
    let manifest = manifest_from_desired(&with_mods);
    // …now nothing active.
    let empty = build_desired_state(&vanilla(), &vec![]);
    let ops = diff(&manifest, &empty);

    // ModA overwrote a vanilla file -> restore; ModB added a new file -> delete.
    assert!(ops.contains(&Op::RestoreVanilla { rel_path: "meshes/ship.mesh".into() }));
    assert!(ops.iter().any(|op| matches!(op, Op::Delete { rel_path } if rel_path == "data/extra.xml")));
    assert_eq!(ops.len(), 2);
}

#[test]
fn changing_mod_identity_replans_the_copy() {
    let desired = build_desired_state(&vanilla(), &vec![mod_a()]);
    let mut manifest = manifest_from_desired(&desired);
    // Simulate the installed file having come from an older version of the mod.
    let mut old = manifest.files.get("meshes/ship.mesh").unwrap().clone();
    old.mod_version = "0.9".into();
    manifest.files.insert("meshes/ship.mesh".to_string(), old);

    let ops = diff(&manifest, &desired);
    assert_eq!(ops.len(), 1);
    assert!(matches!(&ops[0], Op::CopyFromMod { rel_path, .. } if rel_path == "meshes/ship.mesh"));
}

#[test]
fn desired_sources_and_identities_come_from_the_listing() {
    let desired = build_desired_state(&vanilla(), &vec![mod_a(), mod_b()]);
    let src = desired.mod_files.get("data/extra.xml").unwrap();
    assert_eq!(src.source_path, "/tmp/mods/ModB/data/extra.xml");
    assert_eq!(src.identity.mod_name, "ModB");
    assert_eq!(src.identity.mod_version, "1.0");
    assert_eq!(src.identity.size, 10);
    assert_eq!(src.identity.mtime_ms, 1_700_000_000_000);
    assert_eq!(desired.mod_files.len(), 2);
    assert_eq!(desired.vanilla_files.len(), 2);
}

#[test]
fn non_rom_folders_are_ignored() {
    let m = listing(
        "M",
        vec![
            folder("/m", "Docs", vec![listed("readme.txt", 1)]),
            folder("/m", "AUDIO", vec![listed("sub/a.ogg", 2)]),
        ],
    );
    let desired = build_desired_state(&vec![], &vec![m]);
    assert_eq!(desired.mod_files.len(), 1);
    let src = desired.mod_files.get("audio/sub/a.ogg").unwrap();
    assert_eq!(src.source_path, "/m/AUDIO/sub/a.ogg");
}

#[test]
fn vanilla_paths_get_a_lowercase_top_level_folder_only() {
    assert_eq!(normalise_top_level("Meshes/Sub/File.mesh"), "meshes/Sub/File.mesh");
    assert_eq!(normalise_top_level("README.TXT"), "readme.txt");
    let desired = build_desired_state(&vec!["Data/Base.XML".to_string()], &vec![]);
    assert!(desired.vanilla_files.contains_key("data/Base.XML"));
}

#[test]
fn switching_playlists_counts_the_work() {
    let both = build_desired_state(&vanilla(), &vec![mod_a(), mod_b()]);
    let manifest = manifest_from_desired(&both);

    // Same playlist again: nothing to do, every desired path unchanged.
    let ops = diff(&manifest, &both);
    let stats = stats_from_ops(&ops, &both);
    assert_eq!(stats.copied + stats.restored + stats.removed, 0);
    assert_eq!(stats.unchanged, 3); // base.xml + ship.mesh + extra.xml
    assert!(!stats.full_rebuild);

    // Switch to only ModB: ship.mesh restored to vanilla, extra.xml untouched.
    let only_b = build_desired_state(&vanilla(), &vec![mod_b()]);
    let ops = diff(&manifest, &only_b);
    let stats = stats_from_ops(&ops, &only_b);
    assert_eq!((stats.restored, stats.copied, stats.removed), (1, 0, 0));
    assert_eq!(stats.unchanged, 2);

    // Deactivate everything: extra.xml removed.
    let none = build_desired_state(&vanilla(), &vec![]);
    let ops = diff(&manifest_from_desired(&only_b), &none);
    let stats = stats_from_ops(&ops, &none);
    assert_eq!(stats.removed, 1);
    assert_eq!(stats.unchanged, 2);
}

#[test]
fn full_rebuild_copies_every_mod_file_in_path_order() {
    let desired = build_desired_state(&vanilla(), &vec![mod_b(), mod_a()]);
    let ops = full_rebuild_ops(&desired);
    let paths: Vec<&str> = ops
        .iter()
        .map(|op| match op {
            Op::CopyFromMod { rel_path, .. } => rel_path.as_str(),
            _ => panic!("a full rebuild only copies"),
        })
        .collect();
    assert_eq!(paths, vec!["data/extra.xml", "meshes/ship.mesh"]);
    // The same plan as a diff from an empty manifest.
    assert_eq!(diff(&Manifest::new(), &desired), ops);
}

#[test]
fn diff_lists_current_paths_first_then_new_ones() {
    let a_only = build_desired_state(&vanilla(), &vec![mod_a()]);
    let manifest = manifest_from_desired(&a_only);
    let m = listing("ModA", vec![folder("/tmp/mods/ModA", "Meshes", vec![listed("ship.mesh", 99)])]);
    let desired = build_desired_state(&vanilla(), &vec![m, mod_b()]);
    let ops = diff(&manifest, &desired);
    assert_eq!(ops.len(), 2);
    assert!(matches!(&ops[0], Op::CopyFromMod { rel_path, identity, .. } if rel_path == "meshes/ship.mesh" && identity.size == 99));
    assert!(matches!(&ops[1], Op::CopyFromMod { rel_path, .. } if rel_path == "data/extra.xml"));
}
