use std::collections::BTreeMap;

use base64::Engine;
use stormforge_core::share::{
    generate_share_string, import_share_as_playlist, import_share_string, ImportError, ShareMod, SharePlaylist,
    ShareStringError, SHARE_STRING_PREFIX,
};
use stormforge_core::store::{Mod, Store};

/// The JSON payload of a playlist, as `{"mods":[{"name":..,"version":..}, ...]}`.
fn payload_json(playlist: &SharePlaylist) -> String {
    let mods: Vec<BTreeMap<&str, &str>> = playlist
        .mods
        .iter()
        .map(|m| BTreeMap::from([("name", m.name.as_str()), ("version", m.version.as_str())]))
        .collect();
    serde_json::to_string(&BTreeMap::from([("mods", mods)])).unwrap()
}

/// The playlist a JSON payload holds.
fn playlist_of(json: &str) -> SharePlaylist {
    let raw: BTreeMap<String, Vec<BTreeMap<String, String>>> = serde_json::from_str(json).unwrap();
    SharePlaylist {
        mods: raw["mods"]
            .iter()
            .map(|m| ShareMod { name: m["name"].clone(), version: m["version"].clone() })
            .collect(),
    }
}

fn share_string_of(playlist: &SharePlaylist) -> String {
    generate_share_string(&payload_json(playlist)).unwrap()
}

fn decode(share: &str) -> SharePlaylist {
    playlist_of(&import_share_string(share).unwrap())
}

fn store_with_mods(names: &[&str]) -> Store {
    let mut store = Store::default();
    for name in names {
        store.mods.push(Mod {
            name: name.to_string(),
            path: format!("/mods/{name}"),
            author: "A".into(),
            version: "1.0".into(),
            active: false,
        });
    }
    store
}

#[test]
fn round_trips_a_playlist() {
    let playlist = SharePlaylist {
        mods: vec![
            ShareMod { name: "ModA".into(), version: "1.0".into() },
            ShareMod { name: "ModB".into(), version: "2.3.1".into() },
        ],
    };

    let share_string = share_string_of(&playlist);
    assert!(share_string.starts_with(SHARE_STRING_PREFIX));

    let decoded = decode(&share_string);
    assert_eq!(decoded, playlist);
}

#[test]
fn import_creates_playlist_activating_required_mods() {
    let mut store = store_with_mods(&["ModA", "ModB", "ModC"]);
    let share = share_string_of(&SharePlaylist {
        mods: vec![ShareMod { name: "ModA".into(), version: "1.0".into() }],
    });

    let states = import_share_as_playlist(&mut store, &decode(&share), "Imported-2026-07-16").unwrap();
    assert_eq!(states.get("ModA"), Some(&true));
    assert_eq!(states.get("ModB"), Some(&false));
    assert_eq!(states.get("ModC"), Some(&false));
    assert_eq!(store.playlists.get("Imported-2026-07-16"), Some(&states));
}

#[test]
fn import_reports_missing_mods_and_creates_nothing() {
    let mut store = store_with_mods(&["ModA"]);
    let share = share_string_of(&SharePlaylist {
        mods: vec![
            ShareMod { name: "ModA".into(), version: "1.0".into() },
            ShareMod { name: "Absent".into(), version: "2.0".into() },
        ],
    });

    let result = import_share_as_playlist(&mut store, &decode(&share), "X");
    match result {
        Err(ImportError::MissingMods(missing)) => assert_eq!(missing, vec!["Absent".to_string()]),
        other => panic!("expected MissingMods, got {other:?}"),
    }
    assert!(store.playlists.is_empty());
}

#[test]
fn rejects_bad_prefix() {
    let result = import_share_string("not-a-stormforge-string:abcd");
    assert!(matches!(result, Err(ShareStringError::InvalidPrefix)));
}

#[test]
fn rejects_corrupt_base64() {
    let bad = format!("{SHARE_STRING_PREFIX}not valid base64!!");
    let result = import_share_string(&bad);
    assert!(matches!(result, Err(ShareStringError::InvalidBase64(_))));
}

#[test]
fn rejects_corrupt_compressed_payload() {
    // Valid base64, but not valid zlib data.
    let bad = format!(
        "{SHARE_STRING_PREFIX}{}",
        base64::engine::general_purpose::STANDARD.encode(b"definitely not zlib")
    );
    let result = import_share_string(&bad);
    assert!(result.is_err());
    assert!(matches!(result, Err(ShareStringError::Decompress(_))));
}

#[test]
fn share_string_is_prefix_then_base64_of_zlib() {
    let json = r#"{"mods":[]}"#;
    let s = generate_share_string(json).unwrap();
    let body = s.strip_prefix(SHARE_STRING_PREFIX).unwrap();
    let bytes = base64::engine::general_purpose::STANDARD.decode(body).unwrap();
    // A zlib stream starts with the CMF byte 0x78.
    assert_eq!(bytes[0], 0x78);
    assert_ne!(body, json);
    assert_eq!(import_share_string(&s).unwrap(), json);
}

#[test]
fn short_input_is_an_invalid_prefix() {
    assert!(matches!(import_share_string(""), Err(ShareStringError::InvalidPrefix)));
    assert!(matches!(import_share_string("stormforge"), Err(ShareStringError::InvalidPrefix)));
}

#[test]
fn import_lists_every_missing_requirement_in_order() {
    let mut store = store_with_mods(&["B"]);
    let playlist = SharePlaylist {
        mods: vec![
            ShareMod { name: "Z".into(), version: "1".into() },
            ShareMod { name: "B".into(), version: "1".into() },
            ShareMod { name: "A".into(), version: "1".into() },
        ],
    };
    match import_share_as_playlist(&mut store, &playlist, "P") {
        Err(ImportError::MissingMods(missing)) => assert_eq!(missing, vec!["Z".to_string(), "A".to_string()]),
        other => panic!("expected MissingMods, got {other:?}"),
    }
}

#[test]
fn import_replaces_a_playlist_of_the_same_name() {
    let mut store = store_with_mods(&["A", "B"]);
    let first = SharePlaylist { mods: vec![ShareMod { name: "A".into(), version: "1".into() }] };
    let second = SharePlaylist { mods: vec![ShareMod { name: "B".into(), version: "1".into() }] };
    import_share_as_playlist(&mut store, &first, "P").unwrap();
    import_share_as_playlist(&mut store, &second, "P").unwrap();
    let p = store.playlists.get("P").unwrap();
    assert_eq!(p.get("A"), Some(&false));
    assert_eq!(p.get("B"), Some(&true));
    assert_eq!(store.playlists.len(), 1);
}
