use stormforge_core::actions::{active_mods, add_or_replace_mod, set_mod_active, share_playlist_of};
use stormforge_core::apply::ApplyStats;
use stormforge_core::format::stats_summary;
use stormforge_core::playlists::apply_states;
use stormforge_core::paths::Platform;
use stormforge_core::rom::rom_context;
use stormforge_core::store::{Mod, Store};
use stormforge_core::strmap::StrMap;

fn a_mod(name: &str, version: &str, active: bool) -> Mod {
    Mod {
        name: name.to_string(),
        path: format!("/mods/{name}"),
        author: "Someone".to_string(),
        version: version.to_string(),
        active,
    }
}

fn store_of(mods: Vec<Mod>) -> Store {
    let mut store = Store::default();
    store.mods = mods;
    store
}

fn names(mods: &[Mod]) -> Vec<&str> {
    mods.iter().map(|m| m.name.as_str()).collect()
}

#[test]
fn toggling_changes_only_the_chosen_mod() {
    let mut store = store_of(vec![a_mod("A", "1", false), a_mod("B", "1", true)]);
    set_mod_active(&mut store, 0, true);
    assert!(store.mods[0].active);
    assert!(store.mods[1].active);
    set_mod_active(&mut store, 1, false);
    assert!(store.mods[0].active);
    assert!(!store.mods[1].active);
}

#[test]
fn toggling_past_the_end_changes_nothing() {
    let mut store = store_of(vec![a_mod("A", "1", false)]);
    set_mod_active(&mut store, 5, true);
    assert_eq!(store.mods, vec![a_mod("A", "1", false)]);
}

#[test]
fn adding_a_new_mod_appends_it() {
    let mut store = store_of(vec![a_mod("A", "1", true)]);
    add_or_replace_mod(&mut store, a_mod("B", "2", false));
    assert_eq!(names(&store.mods), vec!["A", "B"]);
    assert_eq!(store.mods[1].version, "2");
}

#[test]
fn adding_a_known_mod_replaces_the_first_of_that_name() {
    let mut store = store_of(vec![a_mod("A", "1", true), a_mod("B", "1", true), a_mod("A", "1", false)]);
    add_or_replace_mod(&mut store, a_mod("A", "9", false));
    assert_eq!(names(&store.mods), vec!["A", "B", "A"]);
    assert_eq!(store.mods[0], a_mod("A", "9", false));
    assert_eq!(store.mods[2], a_mod("A", "1", false));
}

#[test]
fn active_mods_keep_list_order() {
    let store = store_of(vec![a_mod("C", "1", true), a_mod("A", "1", false), a_mod("B", "3", true)]);
    let active = active_mods(&store);
    assert_eq!(active, vec![a_mod("C", "1", true), a_mod("B", "3", true)]);
    assert!(active_mods(&Store::default()).is_empty());
}

#[test]
fn shared_playlist_lists_active_names_and_versions() {
    let store = store_of(vec![a_mod("C", "1.0", true), a_mod("A", "2.0", false), a_mod("B", "3.0", true)]);
    let playlist = share_playlist_of(&store);
    let pairs: Vec<(&str, &str)> = playlist.mods.iter().map(|m| (m.name.as_str(), m.version.as_str())).collect();
    assert_eq!(pairs, vec![("C", "1.0"), ("B", "3.0")]);
}

#[test]
fn applied_states_turn_unmentioned_mods_off() {
    let mut store = store_of(vec![a_mod("A", "1", false), a_mod("B", "1", true), a_mod("C", "1", true)]);
    let mut states = StrMap::new();
    states.insert("A".to_string(), true);
    states.insert("B".to_string(), false);
    apply_states(&mut store, &states);
    let flags: Vec<bool> = store.mods.iter().map(|m| m.active).collect();
    assert_eq!(flags, vec![true, false, false]);
    assert!(store.selected_playlist.is_none());
}

#[test]
fn rom_context_reports_what_is_missing_first() {
    let mut store = Store::default();
    assert_eq!(rom_context(&store, None, None, Platform::Other), Err("Game directory is not set.".to_string()));
    store.game_directory = Some("/games/Stormworks".to_string());
    assert_eq!(rom_context(&store, None, None, Platform::Other), Err("Could not resolve backup directory.".to_string()));
    assert_eq!(
        rom_context(&store, Some("/data/backup"), None, Platform::Other),
        Err("Could not resolve manifest path.".to_string())
    );
    assert_eq!(
        rom_context(&store, Some("/data/backup"), Some("/data/rom-files.json"), Platform::Other),
        Ok((
            "/games/Stormworks/rom".to_string(),
            "/data/backup".to_string(),
            "/data/rom-files.json".to_string()
        ))
    );
}

#[test]
fn stats_summary_groups_counts() {
    let stats = ApplyStats { copied: 1, restored: 3, removed: 0, unchanged: 15000, full_rebuild: false };
    assert_eq!(stats_summary(&stats), "Applied: restored 3, copied 1, removed 0, unchanged 15,000");
    let stats = ApplyStats { copied: 1234567, restored: 0, removed: 2, unchanged: 0, full_rebuild: true };
    assert_eq!(
        stats_summary(&stats),
        "Applied (full rebuild): restored 0, copied 1,234,567, removed 2, unchanged 0"
    );
}
