//! Resolves the game's `rom` directory from a configured game directory.
use vstd::prelude::*;

use crate::paths::{
    join_name, join_native, lemma_native_join_rom_is_rom, native_file_name, native_file_name_of,
    Platform,
};
use crate::store::Store;
use crate::text::str_eq;

verus! {

/// The `rom` directory of a game directory on `platform`: the directory itself when it
/// is already named `rom`; inside the app bundle (`Contents/Resources/rom`) on macOS,
/// where the game directory is the `Stormworks.app` bundle; `<game_directory>/rom`
/// elsewhere. Paths are read and joined by the platform's rules.
pub open spec fn rom_path_of(game_directory: Seq<char>, platform: Platform) -> Seq<char> {
    let windows = platform is Windows;
    if native_file_name(game_directory, windows) == Some("rom"@) {
        game_directory
    } else if platform is MacOs {
        join_name(
            join_name(join_name(game_directory, "Contents"@, false), "Resources"@, false),
            "rom"@,
            false,
        )
    } else {
        join_name(game_directory, "rom"@, windows)
    }
}

/// Resolves the `rom` directory for `game_directory` on `platform`.
pub fn get_rom_path(game_directory: &str, platform: Platform) -> (rom: String)
    ensures
        rom@ == rom_path_of(game_directory@, platform),
{
    let windows = match platform {
        Platform::Windows => true,
        _ => false,
    };
    let already_rom = match native_file_name_of(game_directory, windows) {
        Some(name) => str_eq(name.as_str(), "rom"),
        None => false,
    };
    if already_rom {
        return game_directory.to_string();
    }
    match platform {
        Platform::MacOs => {
            let contents = join_native(game_directory, "Contents", false);
            let resources = join_native(contents.as_str(), "Resources", false);
            join_native(resources.as_str(), "rom", false)
        },
        _ => join_native(game_directory, "rom", windows),
    }
}

/// The locations every rom job needs, from the store's game directory and the backup
/// directory and manifest file that the platform gives (`None` where it gives none):
/// the rom directory, the backup directory and the manifest file. A missing game
/// directory is reported first, then a missing backup directory, then a missing
/// manifest path.
pub fn rom_context(store: &Store, backup_dir: Option<&str>, manifest_path: Option<&str>, platform: Platform) -> (r:
    Result<(String, String, String), String>)
    ensures
        store.game_directory is None ==> (r matches Err(e) && e@ == "Game directory is not set."@),
        store.game_directory is Some && backup_dir is None ==> (r matches Err(e) && e@
            == "Could not resolve backup directory."@),
        store.game_directory is Some && backup_dir is Some && manifest_path is None ==> (r matches Err(
            e,
        ) && e@ == "Could not resolve manifest path."@),
        store.game_directory is Some && backup_dir is Some && manifest_path is Some ==> (r matches Ok(
            (rom, backup, manifest),
        ) && rom@ == rom_path_of(store.game_directory.unwrap()@, platform) && backup@
            == backup_dir.unwrap()@ && manifest@ == manifest_path.unwrap()@),
{
    let game_directory = match &store.game_directory {
        Some(g) => g,
        None => {
            return Err("Game directory is not set.".to_string());
        },
    };
    let rom = get_rom_path(game_directory.as_str(), platform);
    let backup = match backup_dir {
        Some(b) => b.to_string(),
        None => {
            return Err("Could not resolve backup directory.".to_string());
        },
    };
    let manifest = match manifest_path {
        Some(m) => m.to_string(),
        None => {
            return Err("Could not resolve manifest path.".to_string());
        },
    };
    Ok((rom, backup, manifest))
}

/// Resolving the `rom` directory twice gives the same directory as resolving it
/// once: what `get_rom_path` returns is already named `rom`.
pub proof fn law_rom_path_idempotent(game_directory: Seq<char>, platform: Platform)
    ensures
        rom_path_of(rom_path_of(game_directory, platform), platform) == rom_path_of(
            game_directory,
            platform,
        ),
{
    let windows = platform is Windows;
    if native_file_name(game_directory, windows) != Some("rom"@) {
        if platform is MacOs {
            lemma_native_join_rom_is_rom(
                join_name(join_name(game_directory, "Contents"@, false), "Resources"@, false),
                false,
            );
        } else {
            lemma_native_join_rom_is_rom(game_directory, windows);
        }
    }
}

} // verus!
