//! Core, UI-agnostic logic for StormForge, a mod manager for Stormworks: the persisted
//! store, playlists, rom path resolution, the differential rom apply plan, playlist share
//! strings, `Metadata.xml` reading, Steam library detection and translations.
use vstd::prelude::*;

pub mod actions;
pub mod apply;
pub mod apply_step;
pub mod format;
pub mod i18n;
pub mod manifest;
pub mod metadata;
pub mod mods;
pub mod paths;
pub mod playlists;
pub mod rom;
pub mod share;
pub mod steam;
pub mod store;
pub mod strmap;
pub mod text;

verus! {

} // verus!
