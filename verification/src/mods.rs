//! What adding a mod package decides, apart from unpacking and copying it: which
//! folder is the mod's root, and the mod entry made from its `Metadata.xml`.
use vstd::prelude::*;

use crate::metadata::{
    parse_metadata_xml, scan, scan_by, texts_hold_no_reference, xml_events, ModMetadata,
};
use crate::store::{unknown_text, Mod};

verus! {

/// Whether an unpacked package is wrapped in a single top-level folder, which is then
/// the mod's root: the package holds exactly one entry, and it is a folder.
/// `entry_is_folder` tells, for each top-level entry, whether it is a folder.
pub fn single_root_folder(entry_is_folder: &[bool]) -> (b: bool)
    ensures
        b == (entry_is_folder@.len() == 1 && entry_is_folder@[0]),
{
    entry_is_folder.len() == 1 && entry_is_folder[0]
}

/// The entry of a newly added mod: its name and where it was unpacked, inactive, with
/// the author and version its `Metadata.xml` gives (`metadata_xml`, `None` when the
/// package has none), `"Unknown"` for what it does not give; texts without an `&` are
/// taken as written.
pub fn new_mod_entry(name: &str, path: &str, metadata_xml: Option<&str>) -> (m: Mod)
    ensures
        m.name@ == name@,
        m.path@ == path@,
        !m.active,
        match metadata_xml {
            Some(xml) => m.author@ == scan(xml_events(xml@)).author && m.version@ == scan(
                xml_events(xml@),
            ).version,
            None => m.author@ == unknown_text() && m.version@ == unknown_text(),
        },
        metadata_xml matches Some(xml) && texts_hold_no_reference(xml_events(xml@)) ==> m.author@
            == scan_by(xml_events(metadata_xml.unwrap()@), true).author && m.version@ == scan_by(
            xml_events(metadata_xml.unwrap()@),
            true,
        ).version,
{
    let metadata = match metadata_xml {
        Some(xml) => parse_metadata_xml(xml),
        None => ModMetadata::default(),
    };
    Mod {
        name: name.to_string(),
        path: path.to_string(),
        author: metadata.author,
        version: metadata.version,
        active: false,
    }
}

} // verus!
