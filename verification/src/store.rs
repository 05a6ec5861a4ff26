//! Persistent application state: installed mods, settings, playlists and the files each
//! mod put into the rom. Every field has a default, so a partial or legacy state reads
//! back as if the missing parts were empty. Paths are held as strings, in the platform's own form.
use vstd::prelude::*;

use crate::strmap::StrMap;

verus! {

/// A single installed mod entry.
#[derive(Debug, Clone, PartialEq, Eq)]
pub struct Mod {
    pub name: String,
    pub path: String,
    pub author: String,
    pub version: String,
    pub active: bool,
}

/// The text used for a missing author or version.
pub open spec fn unknown_text() -> Seq<char> {
    seq!['U', 'n', 'k', 'n', 'o', 'w', 'n']
}

/// `"Unknown"`, the value given to a missing author or version.
pub fn default_unknown() -> (s: String)
    ensures
        s@ == unknown_text(),
{
    let s = "Unknown".to_string();
    proof {
        reveal_strlit("Unknown");
    }
    s
}

/// User-configurable settings.
#[derive(Debug, Clone, PartialEq, Eq)]
pub struct Settings {
    pub language: Option<String>,
    pub fast_copy: bool,
}

impl Default for Settings {
    fn default() -> (s: Self)
        ensures
            s.language is None,
            !s.fast_copy,
    {
        Settings { language: None, fast_copy: false }
    }
}

/// Root persisted state.
#[derive(Debug, PartialEq, Eq)]
pub struct Store {
    pub game_directory: Option<String>,
    pub settings: Settings,
    pub mods: Vec<Mod>,
    pub playlists: StrMap<StrMap<bool>>,
    pub selected_playlist: Option<String>,
    pub installed_files: StrMap<Vec<String>>,
}

impl Store {
    /// Whether this is the empty state: no game directory, default settings, no mods,
    /// no playlists, no selection and no installed files.
    pub open spec fn is_empty_state(self) -> bool {
        &&& self.game_directory is None
        &&& self.settings.language is None
        &&& !self.settings.fast_copy
        &&& self.mods@.len() == 0
        &&& self.playlists@ == Map::<Seq<char>, StrMap<bool>>::empty()
        &&& self.selected_playlist is None
        &&& self.installed_files@ == Map::<Seq<char>, Vec<String>>::empty()
    }
}

impl Default for Store {
    fn default() -> (s: Self)
        ensures
            s.is_empty_state(),
    {
        Store {
            game_directory: None,
            settings: Settings::default(),
            mods: Vec::new(),
            playlists: StrMap::new(),
            selected_playlist: None,
            installed_files: StrMap::new(),
        }
    }
}

} // verus!
