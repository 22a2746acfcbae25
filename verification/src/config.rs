//! Settings files in TOML.
use vstd::prelude::*;

verus! {

#[verifier::external_type_specification]
#[verifier::external_body]
pub struct ExTomlValue(toml::Value);

#[verifier::external_type_specification]
#[verifier::external_body]
pub struct ExTomlError(toml::de::Error);

/// What `toml::from_str::<toml::Value>` makes of a text.
pub uninterp spec fn toml_parse(text: Seq<char>) -> Result<toml::Value, toml::de::Error>;

/// What a TOML value holds under a key: the entry of a table, `None` for a
/// missing key or for a value that is not a table.
pub uninterp spec fn toml_lookup(v: toml::Value, key: Seq<char>) -> Option<toml::Value>;

/// Calls `toml::from_str` for a `toml::Value`.  Claimed: the outcome is a
/// function of the text alone (parsing reads nothing else).
#[verifier::external_body]
fn toml_from_str(text: &str) -> (r: Result<toml::Value, toml::de::Error>)
    ensures
        r == toml_parse(text@),
{
    toml::from_str(text)
}

/// Calls `toml::Value::get` with a string key.  Claimed: the result is the
/// table entry under the key (`None` when the value is not a table or lacks
/// the key), a function of the value and the key alone.
#[verifier::external_body]
fn toml_get<'a>(v: &'a toml::Value, key: &str) -> (r: Option<&'a toml::Value>)
    ensures
        match r {
            Some(x) => toml_lookup(*v, key@) == Some(*x),
            None => toml_lookup(*v, key@) is None,
        },
{
    v.get(key)
}

/// Why a settings text could not be read.
pub enum ConfigError {
    /// The text is not valid TOML.
    Syntax(toml::de::Error),
}

/// Reads a settings text as a TOML document.
pub fn parse_config(content: &str) -> (r: Result<toml::Value, ConfigError>)
    ensures
        match toml_parse(content@) {
            Ok(v) => r == Ok::<toml::Value, ConfigError>(v),
            Err(e) => r == Err::<toml::Value, ConfigError>(ConfigError::Syntax(e)),
        },
{
    match toml_from_str(content) {
        Ok(v) => Ok(v),
        Err(e) => Err(ConfigError::Syntax(e)),
    }
}

/// The setting stored under `key` in a settings table.
pub fn get_config_value<'a>(config: &'a toml::Value, key: &str) -> (r: Option<&'a toml::Value>)
    ensures
        match r {
            Some(x) => toml_lookup(*config, key@) == Some(*x),
            None => toml_lookup(*config, key@) is None,
        },
{
    toml_get(config, key)
}

} // verus!
