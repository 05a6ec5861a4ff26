use stormforge_core::paths::Platform;
use stormforge_core::steam::{
    extract_library_paths_for_app, game_path_candidates, stormworks_path_from_library, STORMWORKS_APP_ID,
};

// A trimmed-down but structurally faithful fixture of a real libraryfolders.vdf.
const FIXTURE_VDF: &str = r#"
"libraryfolders"
{
	"0"
	{
		"path"		"C:\\Program Files (x86)\\Steam"
		"label"		""
		"apps"
		{
			"123"		"1000"
		}
	}
	"1"
	{
		"path"		"D:\\SteamLibrary"
		"label"		""
		"apps"
		{
			"573090"		"5000000"
			"456"		"2000"
		}
	}
}
"#;

#[test]
fn finds_library_containing_app_id() {
    let paths = extract_library_paths_for_app(FIXTURE_VDF, STORMWORKS_APP_ID);
    assert_eq!(paths, vec!["D:\\\\SteamLibrary".to_string()]);
}

#[test]
fn returns_empty_when_app_id_absent() {
    let paths = extract_library_paths_for_app(FIXTURE_VDF, "999999");
    assert!(paths.is_empty());
}

#[test]
fn builds_expected_game_directory() {
    let mac = stormworks_path_from_library("/Users/test/Library/Application Support/Steam", Platform::MacOs);
    assert!(mac.ends_with("steamapps/common/Stormworks/Stormworks.app"));
    let other = stormworks_path_from_library("/Users/test/Library/Application Support/Steam", Platform::Other);
    assert!(other.ends_with("steamapps/common/Stormworks"));
    assert_eq!(other, "/Users/test/Library/Application Support/Steam/steamapps/common/Stormworks");
}

#[test]
fn every_library_holding_the_app_is_listed_in_file_order() {
    let vdf = "\"path\" \"/a\" \"apps\" { \"573090\" \"1\" }\n\"path\"\t\"/b\" \"apps\" { \"7\" \"1\" }\n\"path\"   \"/c\" \"573090\"";
    assert_eq!(extract_library_paths_for_app(vdf, "573090"), vec!["/a".to_string(), "/c".to_string()]);
}

#[test]
fn malformed_path_values_are_skipped() {
    // No opening quote after the key, and an unterminated value.
    let vdf = "\"path\" x \"573090\" \"path\" \"unterminated 573090";
    assert!(extract_library_paths_for_app(vdf, "573090").is_empty());
}

#[test]
fn candidates_unescape_vdf_paths_then_fall_back_to_the_steam_library() {
    let dirs = game_path_candidates(Some(FIXTURE_VDF), "/steam", Platform::Other);
    assert_eq!(
        dirs,
        vec![
            "D:\\SteamLibrary/steamapps/common/Stormworks".to_string(),
            "/steam/steamapps/common/Stormworks".to_string(),
        ]
    );
    let dirs = game_path_candidates(None, "/steam", Platform::MacOs);
    assert_eq!(dirs, vec!["/steam/steamapps/common/Stormworks/Stormworks.app".to_string()]);
}

#[test]
fn windows_library_paths_join_with_backslashes() {
    let dir = stormworks_path_from_library("D:\\SteamLibrary", Platform::Windows);
    assert_eq!(dir, "D:\\SteamLibrary\\steamapps\\common\\Stormworks");
}
