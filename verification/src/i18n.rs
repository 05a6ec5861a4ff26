//! Minimal translations: the locale files (flat JSON objects of key -> text) are looked
//! up by key, with English as the fallback and the key itself as a last resort. A few
//! labels that have no key in the locale files are provided as extras.
use vstd::prelude::*;

use crate::strmap::StrMap;
use crate::text::str_eq;

verus! {

/// The key -> text pairs of a JSON object whose values are all strings, as
/// `serde_json::from_str` reads it into a `BTreeMap<String, String>` (a key given twice
/// keeps its last value); `None` when the text is not such an object.
pub uninterp spec fn json_text_map(json: Seq<char>) -> Option<Map<Seq<char>, Seq<char>>>;

/// The map made by storing the pairs in order.
pub open spec fn pairs_map(pairs: Seq<(Seq<char>, Seq<char>)>) -> Map<Seq<char>, Seq<char>>
    decreases pairs.len(),
{
    if pairs.len() == 0 {
        Map::empty()
    } else {
        pairs_map(pairs.drop_last()).insert(pairs.last().0, pairs.last().1)
    }
}

/// The views of a list of string pairs.
pub open spec fn pairs_view(pairs: Seq<(String, String)>) -> Seq<(Seq<char>, Seq<char>)> {
    pairs.map_values(|p: (String, String)| (p.0@, p.1@))
}

/// `serde_json::from_str` into a `BTreeMap<String, String>`, whose entries are then
/// listed. Claims: a result exactly when `json_text_map` gives a map, and then its
/// entries make that map.
#[verifier::external_body]
fn parse_json_object(json: &str) -> (r: Option<Vec<(String, String)>>)
    ensures
        match r {
            Some(pairs) => json_text_map(json@) == Some(pairs_map(pairs_view(pairs@))),
            None => json_text_map(json@) is None,
        },
{
    serde_json::from_str::<std::collections::BTreeMap<String, String>>(json).ok().map(
        |m| m.into_iter().collect(),
    )
}

/// The translations a locale file holds: none when it is not a flat JSON object of
/// strings.
pub open spec fn parsed_texts(json: Seq<char>) -> Map<Seq<char>, Seq<char>> {
    match json_text_map(json) {
        Some(m) => m,
        None => Map::empty(),
    }
}

/// The labels the locale files do not have, in Japanese for `ja` and in English
/// otherwise.
pub open spec fn extra_texts(japanese: bool) -> Map<Seq<char>, Seq<char>> {
    if japanese {
        map![
            "LOADED_BADGE"@ => "適用中"@,
            "EXPORT"@ => "エクスポート"@,
            "COPY"@ => "コピー"@,
            "REPAIR_FULL_REBUILD"@ => "修復（フル再構築）"@,
        ]
    } else {
        map![
            "LOADED_BADGE"@ => "Loaded"@,
            "EXPORT"@ => "Export"@,
            "COPY"@ => "Copy"@,
            "REPAIR_FULL_REBUILD"@ => "Repair (full rebuild)"@,
        ]
    }
}

/// Translations for one language, falling back to English.
pub struct I18n {
    lang: String,
    map: StrMap<String>,
    fallback: StrMap<String>,
}

/// The value of an `I18n`: its language and its two tables.
pub struct I18nView {
    pub lang: Seq<char>,
    pub texts: Map<Seq<char>, Seq<char>>,
    pub fallback: Map<Seq<char>, Seq<char>>,
}

impl View for I18n {
    type V = I18nView;

    closed spec fn view(&self) -> I18nView {
        I18nView {
            lang: self.lang@,
            texts: self.map@.map_values(|t: String| t@),
            fallback: self.fallback@.map_values(|t: String| t@),
        }
    }
}

/// The table made of a locale file and the extras: an extra replaces a file entry of
/// the same key.
fn table(json: &str, japanese: bool) -> (m: StrMap<String>)
    ensures
        m@.map_values(|t: String| t@) == parsed_texts(json@).union_prefer_right(
            extra_texts(japanese),
        ),
{
    let mut m: StrMap<String> = StrMap::new();
    match parse_json_object(json) {
        Some(pairs) => {
            let ghost pv = pairs_view(pairs@);
            let mut i: usize = 0;
            while i < pairs.len()
                invariant
                    i <= pairs@.len(),
                    pv == pairs_view(pairs@),
                    m@.map_values(|t: String| t@) == pairs_map(pv.take(i as int)),
                decreases pairs@.len() - i,
            {
                let (k, v) = &pairs[i];
                let ghost prior = m@;
                m.insert(k.clone(), v.clone());
                proof {
                    assert(pv.take(i + 1).drop_last() =~= pv.take(i as int));
                    assert(pv.take(i + 1).last() == (k@, v@));
                    assert(m@.map_values(|t: String| t@) =~= prior.map_values(|t: String| t@).insert(
                        k@,
                        v@,
                    ));
                }
                i = i + 1;
            }
            proof {
                assert(pv.take(pairs@.len() as int) =~= pv);
            }
        },
        None => {
            proof {
                assert(m@.map_values(|t: String| t@) =~= Map::<Seq<char>, Seq<char>>::empty());
            }
        },
    }
    let ghost base = m@.map_values(|t: String| t@);
    if japanese {
        m.insert("LOADED_BADGE".to_string(), "適用中".to_string());
        m.insert("EXPORT".to_string(), "エクスポート".to_string());
        m.insert("COPY".to_string(), "コピー".to_string());
        m.insert("REPAIR_FULL_REBUILD".to_string(), "修復（フル再構築）".to_string());
    } else {
        m.insert("LOADED_BADGE".to_string(), "Loaded".to_string());
        m.insert("EXPORT".to_string(), "Export".to_string());
        m.insert("COPY".to_string(), "Copy".to_string());
        m.insert("REPAIR_FULL_REBUILD".to_string(), "Repair (full rebuild)".to_string());
    }
    proof {
        assert(m@.map_values(|t: String| t@) =~= base.union_prefer_right(extra_texts(japanese)));
    }
    m
}

impl I18n {
    /// Translations for `lang`: Japanese for `ja`, English for anything else.
    /// `en_json` and `ja_json` are the texts of the English and Japanese locale files.
    pub fn new(lang: &str, en_json: &str, ja_json: &str) -> (tr: Self)
        ensures
            tr@.lang == (if lang@ == "ja"@ {
                "ja"@
            } else {
                "en"@
            }),
            tr@.texts == (if lang@ == "ja"@ {
                parsed_texts(ja_json@).union_prefer_right(extra_texts(true))
            } else {
                parsed_texts(en_json@).union_prefer_right(extra_texts(false))
            }),
            tr@.fallback == parsed_texts(en_json@).union_prefer_right(extra_texts(false)),
    {
        let japanese = str_eq(lang, "ja");
        let code = if japanese {
            "ja".to_string()
        } else {
            "en".to_string()
        };
        let map = if japanese {
            table(ja_json, true)
        } else {
            table(en_json, false)
        };
        let fallback = table(en_json, false);
        I18n { lang: code, map, fallback }
    }

    /// The language in use: `ja` or `en`.
    pub fn lang(&self) -> (l: &str)
        ensures
            l@ == self@.lang,
    {
        self.lang.as_str()
    }

    /// The text for `key`: from the language's table, else from the English table,
    /// else the key itself.
    pub fn t(&self, key: &str) -> (text: String)
        ensures
            text@ == (if self@.texts.contains_key(key@) {
                self@.texts[key@]
            } else if self@.fallback.contains_key(key@) {
                self@.fallback[key@]
            } else {
                key@
            }),
    {
        match self.map.get(key) {
            Some(t) => t.clone(),
            None => match self.fallback.get(key) {
                Some(t) => t.clone(),
                None => key.to_string(),
            },
        }
    }
}

} // verus!
