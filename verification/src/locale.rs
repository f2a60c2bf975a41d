use vstd::prelude::*;
use crate::text::str_equal;

verus! {

/// The locale file for an interface language: Simplified Chinese for
/// "zh-CN", English for anything else.
pub fn locale_file(lang: &str) -> (r: &'static str)
    ensures
        r@ == (if lang@ == "zh-CN"@ { "zh-CN.json"@ } else { "en.json"@ }),
{
    if str_equal(lang, "zh-CN") {
        "zh-CN.json"
    } else {
        "en.json"
    }
}

/// What looking up the string at `key` inside the object `section` of the
/// JSON text `raw` gives: `None` when the text does not parse, the section
/// or key is missing, or the value is not a string.
pub uninterp spec fn json_string_at(raw: Seq<char>, section: Seq<char>, key: Seq<char>) -> Option<Seq<char>>;

/// Parses `raw` with `serde_json::from_str` into a `serde_json::Value` and
/// reads `value.get(section)?.get(key)?.as_str()`. The contract claims only
/// that the result is a function of the three strings, named
/// `json_string_at`; JSON parsing itself is not stated.
#[verifier::external_body]
fn string_at(raw: &str, section: &str, key: &str) -> (r: Option<String>)
    ensures
        match r {
            Some(s) => json_string_at(raw@, section@, key@) == Some(s@),
            None => json_string_at(raw@, section@, key@) is None,
        },
{
    let v: serde_json::Value = serde_json::from_str(raw).ok()?;
    let s = v.get(section)?.get(key)?.as_str()?;
    Some(s.to_string())
}

/// The label found in the locale, or `default` when there is none.
pub fn label_or_default(found: Option<String>, default: &str) -> (r: String)
    ensures
        r@ == match found {
            Some(s) => s@,
            None => default@,
        },
{
    match found {
        Some(s) => s,
        None => String::from_str(default),
    }
}

/// The tray menu label `key` from the locale JSON `raw` (its "tray" section),
/// or `default` when the locale has no such string.
pub fn tray_label(raw: &str, key: &str, default: &str) -> (r: String)
    ensures
        r@ == match json_string_at(raw@, "tray"@, key@) {
            Some(s) => s,
            None => default@,
        },
{
    let found = string_at(raw, "tray", key);
    label_or_default(found, default)
}

} // verus!
