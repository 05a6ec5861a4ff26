use stormforge_core::i18n::I18n;

const EN: &str = r#"{"INSTALLED_MODS": "Installed Mods", "APPLY_CHANGES": "Apply Changes", "LOADED_BADGE": "file badge"}"#;
const JA: &str = r#"{"INSTALLED_MODS": "インストール済みMod"}"#;

#[test]
fn japanese_texts_fall_back_to_english_then_to_the_key() {
    let tr = I18n::new("ja", EN, JA);
    assert_eq!(tr.lang(), "ja");
    assert_eq!(tr.t("INSTALLED_MODS"), "インストール済みMod");
    assert_eq!(tr.t("APPLY_CHANGES"), "Apply Changes");
    assert_eq!(tr.t("NO_SUCH_KEY"), "NO_SUCH_KEY");
    assert_eq!(tr.t("LOADED_BADGE"), "適用中");
}

#[test]
fn any_other_language_is_english_and_extras_win_over_the_file() {
    let tr = I18n::new("fr", EN, JA);
    assert_eq!(tr.lang(), "en");
    assert_eq!(tr.t("INSTALLED_MODS"), "Installed Mods");
    assert_eq!(tr.t("LOADED_BADGE"), "Loaded");
    assert_eq!(tr.t("REPAIR_FULL_REBUILD"), "Repair (full rebuild)");
}

#[test]
fn unreadable_locale_files_leave_only_the_extras() {
    let tr = I18n::new("en", "not json", "[1, 2]");
    assert_eq!(tr.t("INSTALLED_MODS"), "INSTALLED_MODS");
    assert_eq!(tr.t("COPY"), "Copy");
    let ja = I18n::new("ja", "not json", "{\"A\": 1}");
    assert_eq!(ja.t("EXPORT"), "エクスポート");
    assert_eq!(ja.t("A"), "A");
}
