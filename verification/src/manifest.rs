//! The rom manifest: which files in the rom are currently owned by mods.
//!
//! It maps each mod-owned relative path (e.g. `meshes/foo.mesh`) to a cheap identity of
//! the source file: mod name, mod version, size and modification time. Paths absent
//! from the manifest are untouched vanilla files.
use vstd::prelude::*;

use crate::strmap::StrMap;
use crate::text::str_eq;

verus! {

/// Cheap identity of a mod-sourced file: enough to decide "has this changed?" without
/// hashing its content.
#[derive(Debug, Clone, PartialEq, Eq)]
pub struct FileIdentity {
    pub mod_name: String,
    pub mod_version: String,
    pub size: u64,
    /// Source file modification time, in milliseconds since the Unix epoch.
    pub mtime_ms: i64,
}

/// The value of a `FileIdentity`.
pub struct IdentityView {
    pub mod_name: Seq<char>,
    pub mod_version: Seq<char>,
    pub size: u64,
    pub mtime_ms: i64,
}

impl View for FileIdentity {
    type V = IdentityView;

    open spec fn view(&self) -> IdentityView {
        IdentityView {
            mod_name: self.mod_name@,
            mod_version: self.mod_version@,
            size: self.size,
            mtime_ms: self.mtime_ms,
        }
    }
}

impl FileIdentity {
    /// A copy of this identity.
    pub fn duplicate(&self) -> (c: Self)
        ensures
            c@ == self@,
    {
        FileIdentity {
            mod_name: self.mod_name.clone(),
            mod_version: self.mod_version.clone(),
            size: self.size,
            mtime_ms: self.mtime_ms,
        }
    }

    /// Whether two identities are the same.
    pub fn same_as(&self, other: &Self) -> (b: bool)
        ensures
            b == (self@ == other@),
    {
        self.size == other.size && self.mtime_ms == other.mtime_ms && str_eq(
            self.mod_name.as_str(),
            other.mod_name.as_str(),
        ) && str_eq(self.mod_version.as_str(), other.mod_version.as_str())
    }
}

/// Relative rom path -> identity of the mod file installed there.
#[derive(Debug, PartialEq, Eq)]
pub struct Manifest {
    pub files: StrMap<FileIdentity>,
}

/// What a manifest records: path -> identity.
pub open spec fn manifest_map(m: Manifest) -> Map<Seq<char>, IdentityView> {
    m.files@.map_values(|id: FileIdentity| id@)
}

impl Manifest {
    /// An empty manifest.
    pub fn new() -> (m: Self)
        ensures
            manifest_map(m) == Map::<Seq<char>, IdentityView>::empty(),
    {
        let m = Manifest { files: StrMap::new() };
        proof {
            assert(manifest_map(m) =~= Map::<Seq<char>, IdentityView>::empty());
        }
        m
    }
}

} // verus!
