use stormforge_core::playlists::{
    active_states, delete_playlist, load_playlist, overwrite_playlist, rename_playlist, save_playlist,
    PlaylistError,
};
use stormforge_core::store::{Mod, Store};
use stormforge_core::strmap::StrMap;

fn store_with_mods(names_active: &[(&str, bool)]) -> Store {
    let mut store = Store::default();
    for (name, active) in names_active {
        store.mods.push(Mod {
            name: name.to_string(),
            path: format!("/mods/{name}"),
            author: "A".into(),
            version: "1".into(),
            active: *active,
        });
    }
    store
}

fn states(pairs: &[(&str, bool)]) -> StrMap<bool> {
    let mut m = StrMap::new();
    for (k, v) in pairs {
        m.insert(k.to_string(), *v);
    }
    m
}

#[test]
fn save_and_load_round_trip() {
    let mut store = store_with_mods(&[("A", true), ("B", false)]);
    let states = active_states(&store);
    save_playlist(&mut store, "MyList", states).unwrap();

    // Flip everything, then load: states must come back and selection updates.
    store.mods[0].active = false;
    store.mods[1].active = true;
    load_playlist(&mut store, "MyList").unwrap();
    assert!(store.mods[0].active);
    assert!(!store.mods[1].active);
    assert_eq!(store.selected_playlist.as_deref(), Some("MyList"));
}

#[test]
fn load_defaults_missing_mods_to_inactive() {
    let mut store = store_with_mods(&[("A", true), ("NewMod", true)]);
    // Playlist saved before NewMod existed.
    save_playlist(&mut store, "Old", states(&[("A", true)])).unwrap();
    load_playlist(&mut store, "Old").unwrap();
    assert!(store.mods[0].active);
    assert!(!store.mods[1].active);
}

#[test]
fn save_rejects_empty_name_and_load_rejects_unknown() {
    let mut store = Store::default();
    assert_eq!(save_playlist(&mut store, "", StrMap::new()), Err(PlaylistError::EmptyName));
    assert_eq!(load_playlist(&mut store, "nope"), Err(PlaylistError::NotFound("nope".into())));
}

#[test]
fn rename_moves_states_and_selection_but_rejects_collisions() {
    let mut store = Store::default();
    save_playlist(&mut store, "Old", states(&[("A", true)])).unwrap();
    save_playlist(&mut store, "Taken", StrMap::new()).unwrap();
    store.selected_playlist = Some("Old".into());

    assert_eq!(
        rename_playlist(&mut store, "Old", "Taken"),
        Err(PlaylistError::AlreadyExists("Taken".into()))
    );

    rename_playlist(&mut store, "Old", "New").unwrap();
    assert!(!store.playlists.contains_key("Old"));
    assert_eq!(store.playlists.get("New").unwrap().get("A"), Some(&true));
    assert_eq!(store.selected_playlist.as_deref(), Some("New"));
}

#[test]
fn delete_removes_and_clears_selection() {
    let mut store = Store::default();
    save_playlist(&mut store, "Gone", StrMap::new()).unwrap();
    store.selected_playlist = Some("Gone".into());

    delete_playlist(&mut store, "Gone").unwrap();
    assert!(store.playlists.is_empty());
    assert_eq!(store.selected_playlist, None);
    assert_eq!(delete_playlist(&mut store, "Gone"), Err(PlaylistError::NotFound("Gone".into())));
}

#[test]
fn overwrite_requires_existing_playlist() {
    let mut store = Store::default();
    assert_eq!(
        overwrite_playlist(&mut store, "nope", StrMap::new()),
        Err(PlaylistError::NotFound("nope".into()))
    );
    save_playlist(&mut store, "List", states(&[("A", false)])).unwrap();
    overwrite_playlist(&mut store, "List", states(&[("A", true)])).unwrap();
    assert_eq!(store.playlists.get("List").unwrap().get("A"), Some(&true));
}

#[test]
fn active_states_keys_every_mod_by_name() {
    let store = store_with_mods(&[("Zed", true), ("Alpha", false), ("Mid", true)]);
    let s = active_states(&store);
    assert_eq!(s.len(), 3);
    assert_eq!(s.get("Zed"), Some(&true));
    assert_eq!(s.get("Alpha"), Some(&false));
    assert_eq!(s.get("Mid"), Some(&true));
    // Keys come out in ascending order.
    assert_eq!(s.get_index(0).0, "Alpha");
    assert_eq!(s.get_index(1).0, "Mid");
    assert_eq!(s.get_index(2).0, "Zed");
}

#[test]
fn rename_refusals_leave_the_store_unchanged() {
    let mut store = Store::default();
    save_playlist(&mut store, "Only", states(&[("A", true)])).unwrap();
    assert_eq!(rename_playlist(&mut store, "Only", ""), Err(PlaylistError::EmptyName));
    assert_eq!(
        rename_playlist(&mut store, "Missing", "Fresh"),
        Err(PlaylistError::NotFound("Missing".into()))
    );
    assert_eq!(rename_playlist(&mut store, "Only", "Only"), Err(PlaylistError::AlreadyExists("Only".into())));
    assert_eq!(store.playlists.len(), 1);
    assert!(store.playlists.contains_key("Only"));
}

#[test]
fn rename_keeps_other_selection_and_delete_keeps_other_selection() {
    let mut store = Store::default();
    save_playlist(&mut store, "One", StrMap::new()).unwrap();
    save_playlist(&mut store, "Two", StrMap::new()).unwrap();
    store.selected_playlist = Some("Two".into());
    rename_playlist(&mut store, "One", "Uno").unwrap();
    assert_eq!(store.selected_playlist.as_deref(), Some("Two"));
    delete_playlist(&mut store, "Uno").unwrap();
    assert_eq!(store.selected_playlist.as_deref(), Some("Two"));
}

#[test]
fn save_replaces_an_existing_playlist() {
    let mut store = Store::default();
    save_playlist(&mut store, "L", states(&[("A", true)])).unwrap();
    save_playlist(&mut store, "L", states(&[("A", false), ("B", true)])).unwrap();
    assert_eq!(store.playlists.len(), 1);
    let l = store.playlists.get("L").unwrap();
    assert_eq!(l.get("A"), Some(&false));
    assert_eq!(l.get("B"), Some(&true));
}
