//! Configuration documents: TOML text read into plain values that the
//! theme and language settings are taken from.

use vstd::prelude::*;

verus! {

/// `toml::Value`, which only the conversion to `TomlValue` looks into.
#[verifier::external_type_specification]
#[verifier::external_body]
pub struct ExTomlValue(toml::Value);

/// `toml::de::Error`, the error of parsing TOML, carried through as it is.
#[verifier::external_type_specification]
#[verifier::external_body]
pub struct ExTomlError(toml::de::Error);

/// A TOML value, as far as the settings read it: strings, arrays, tables
/// (with their keys in order), and anything else.
#[derive(Debug)]
pub enum TomlValue {
    Str(String),
    Array(Vec<TomlValue>),
    Table(Vec<(String, TomlValue)>),
    Other,
}

/// The value that the TOML document `s` holds, if it parses.
pub uninterp spec fn toml_document(s: Seq<char>) -> Option<TomlValue>;

/// Relies on the variants of `toml::Value`: a string, array or table
/// becomes its plain form (a table's entries in the map's order), anything
/// else `Other`.
#[verifier::external_body]
fn plain_value(v: toml::Value) -> TomlValue {
    match v {
        toml::Value::String(s) => TomlValue::Str(s),
        toml::Value::Array(a) => TomlValue::Array(a.into_iter().map(plain_value).collect()),
        toml::Value::Table(t) => TomlValue::Table(
            t.into_iter().map(|(k, v)| (k, plain_value(v))).collect(),
        ),
        _ => TomlValue::Other,
    }
}

/// Relies on `toml::Value`'s `FromStr` (toml 0.5), which parses `s` as a
/// whole TOML document, or fails with a `toml::de::Error`.
#[verifier::external_body]
pub(crate) fn parse_toml(s: &str) -> (r: Result<TomlValue, toml::de::Error>)
    ensures
        match r {
            Ok(v) => toml_document(s@) == Some(v),
            Err(_) => toml_document(s@) is None,
        },
{
    s.parse::<toml::Value>().map(plain_value)
}

} // verus!
