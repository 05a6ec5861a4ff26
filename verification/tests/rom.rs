use stormforge_core::paths::Platform;
use stormforge_core::rom::get_rom_path;

#[test]
fn returns_unchanged_when_already_rom() {
    let path = "/some/game/rom";
    assert_eq!(get_rom_path(path, Platform::Other), path);
    assert_eq!(get_rom_path(path, Platform::MacOs), path);
}

#[test]
fn macos_resolves_inside_app_bundle() {
    let path = "/Applications/Stormworks.app";
    assert_eq!(get_rom_path(path, Platform::MacOs), "/Applications/Stormworks.app/Contents/Resources/rom");
}

#[test]
fn non_macos_resolves_directly_under_game_directory() {
    let path = "/games/Stormworks";
    assert_eq!(get_rom_path(path, Platform::Other), "/games/Stormworks/rom");
}

#[test]
fn rom_with_trailing_separator_or_dot_is_still_rom() {
    assert_eq!(get_rom_path("/some/game/rom/", Platform::Other), "/some/game/rom/");
    assert_eq!(get_rom_path("/some/game/rom/.", Platform::Other), "/some/game/rom/.");
    // A trailing separator is not doubled when joining.
    assert_eq!(get_rom_path("/games/Stormworks/", Platform::Other), "/games/Stormworks/rom");
    // `..` has no file name, so it is not treated as `rom`.
    assert_eq!(get_rom_path("/games/rom/..", Platform::Other), "/games/rom/../rom");
}

#[test]
fn resolving_a_resolved_rom_path_changes_nothing() {
    for platform in [Platform::Other, Platform::MacOs, Platform::Windows] {
        for dir in ["/games/Stormworks", "/Applications/Stormworks.app", "/games/rom/..", "relative/dir/"] {
            let once = get_rom_path(dir, platform);
            assert_eq!(get_rom_path(&once, platform), once);
        }
    }
}

#[test]
fn windows_paths_use_backslashes_and_drive_prefixes() {
    let w = Platform::Windows;
    assert_eq!(get_rom_path("C:\\Games\\Stormworks", w), "C:\\Games\\Stormworks\\rom");
    assert_eq!(get_rom_path("C:\\Games\\Stormworks\\", w), "C:\\Games\\Stormworks\\rom");
    assert_eq!(get_rom_path("C:\\Games\\Stormworks\\rom", w), "C:\\Games\\Stormworks\\rom");
    assert_eq!(get_rom_path("C:/Games/rom", w), "C:/Games/rom");
    assert_eq!(get_rom_path("C:rom", w), "C:rom");
    assert_eq!(get_rom_path("C:", w), "C:rom");
    // On other platforms a backslash is an ordinary character.
    assert_eq!(get_rom_path("games\\rom", Platform::Other), "games\\rom/rom");
}
