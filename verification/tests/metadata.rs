use stormforge_core::mods::{new_mod_entry, single_root_folder};
use stormforge_core::metadata::{metadata_from_events, parse_metadata_xml, ModMetadata, XmlEvent};

#[test]
fn parses_author_and_version() {
    let xml = r#"<Metadata><Author>Someone</Author><Version>1.2.3</Version></Metadata>"#;
    let metadata = parse_metadata_xml(xml);
    assert_eq!(metadata.author, "Someone");
    assert_eq!(metadata.version, "1.2.3");
}

#[test]
fn defaults_to_unknown_for_missing_fields() {
    let xml = r#"<Metadata><Author>Someone</Author></Metadata>"#;
    let metadata = parse_metadata_xml(xml);
    assert_eq!(metadata.author, "Someone");
    assert_eq!(metadata.version, "Unknown");
}

#[test]
fn defaults_fully_on_garbage_input() {
    let metadata = parse_metadata_xml("not xml at all");
    assert_eq!(metadata, ModMetadata::default());
}

#[test]
fn entities_are_resolved_and_whitespace_trimmed() {
    let xml = "<Metadata>\n  <Author>  Tom &amp; Jerry </Author>\n  <Version>2</Version>\n</Metadata>";
    let metadata = parse_metadata_xml(xml);
    assert_eq!(metadata.author, "Tom & Jerry");
    assert_eq!(metadata.version, "2");
}

#[test]
fn malformed_documents_give_the_defaults() {
    let xml = "<Metadata><Author>Early</Author></Wrong><Version>9</Version></Metadata>";
    assert_eq!(parse_metadata_xml(xml), ModMetadata::default());
    let xml = "<Metadata><Author>X</Author><Version>1</Metadata>";
    assert_eq!(parse_metadata_xml(xml), ModMetadata::default());
}

#[test]
fn an_error_event_discards_what_was_read() {
    let events = vec![
        XmlEvent::Start("Author".into()),
        XmlEvent::Text(Some("X".into())),
        XmlEvent::End,
        XmlEvent::Error,
    ];
    assert_eq!(metadata_from_events(&events), ModMetadata::default());
}

#[test]
fn plain_text_is_kept_as_written() {
    let xml = "<Metadata><Author>Jane; Doe</Author><Version>v1.0-beta</Version></Metadata>";
    let metadata = parse_metadata_xml(xml);
    assert_eq!(metadata.author, "Jane; Doe");
    assert_eq!(metadata.version, "v1.0-beta");
}

#[test]
fn events_fold_last_text_wins_and_stop_ends_reading() {
    let events = vec![
        XmlEvent::Start("Author".into()),
        XmlEvent::Text(Some("First".into())),
        XmlEvent::End,
        XmlEvent::Text(Some("outside".into())),
        XmlEvent::Start("Author".into()),
        XmlEvent::Text(Some("Second".into())),
        XmlEvent::End,
        XmlEvent::Start("Version".into()),
        XmlEvent::Text(None),
        XmlEvent::End,
        XmlEvent::Eof,
        XmlEvent::Start("Author".into()),
        XmlEvent::Text(Some("After end".into())),
    ];
    let m = metadata_from_events(&events);
    assert_eq!(m.author, "Second");
    assert_eq!(m.version, "");
}

#[test]
fn malformed_entity_gives_empty_text() {
    let events = vec![XmlEvent::Start("Version".into()), XmlEvent::Text(Some("1 &bogus; 2".into()))];
    let m = metadata_from_events(&events);
    assert_eq!(m.author, "Unknown");
    assert_eq!(m.version, "");
}

#[test]
fn new_mod_entries_take_metadata_or_unknown() {
    let xml = "<Metadata><Author>Someone</Author><Version>1.2.3</Version></Metadata>";
    let m = new_mod_entry("Boats", "/mods/Boats", Some(xml));
    assert_eq!((m.name.as_str(), m.path.as_str(), m.author.as_str(), m.version.as_str()), ("Boats", "/mods/Boats", "Someone", "1.2.3"));
    assert!(!m.active);
    let m = new_mod_entry("Boats", "/mods/Boats", None);
    assert_eq!((m.author.as_str(), m.version.as_str()), ("Unknown", "Unknown"));
    assert!(single_root_folder(&[true]));
    assert!(!single_root_folder(&[false]));
    assert!(!single_root_folder(&[true, true]));
    assert!(!single_root_folder(&[]));
}
