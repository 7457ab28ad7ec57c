//! The zone configuration: its built-in default and how the configuration
//! file's contents become the configuration in force.
use vstd::prelude::*;
use crate::json::{json_parse, parse_json, Json};
use vstd::string::StringSliceAdditionalSpecFns;

verus! {

/// The text that a missing or unreadable configuration file is replaced by.
pub const DEFAULT_CONFIG: &'static str = "{\n  \"default\": \"halves\",\n  \"layouts\": {\n    \"halves\":    [[0.0,0.0,0.5,1.0],[0.5,0.0,0.5,1.0]],\n    \"thirds\":    [[0.0,0.0,0.3333,1.0],[0.3333,0.0,0.3334,1.0],[0.6667,0.0,0.3333,1.0]],\n    \"main-side\": [[0.0,0.0,0.6667,1.0],[0.6667,0.0,0.3333,0.5],[0.6667,0.5,0.3333,0.5]],\n    \"quad\":      [[0.0,0.0,0.5,0.5],[0.5,0.0,0.5,0.5],[0.0,0.5,0.5,0.5],[0.5,0.5,0.5,0.5]],\n    \"grid6\":     [[0.0,0.0,0.3333,0.5],[0.3333,0.0,0.3334,0.5],[0.6667,0.0,0.3333,0.5],[0.0,0.5,0.3333,0.5],[0.3333,0.5,0.3334,0.5],[0.6667,0.5,0.3333,0.5]]\n  }\n}";

/// The built-in configuration: what serde_json makes of `DEFAULT_CONFIG`
/// (`null` where it would not parse).
pub open spec fn default_config_of() -> Json {
    match json_parse(DEFAULT_CONFIG.spec_bytes()) {
        Some(v) => v,
        None => Json::Null,
    }
}

/// The configuration in force, given the bytes of the configuration file
/// where it could be read, and whether the built-in default has to be
/// written as the file: a file that parses is taken as it is; a file that
/// does not parse gives the built-in configuration and is left alone; a
/// missing (unreadable) file gives the built-in configuration, written out.
pub open spec fn loaded_config(file: Option<Seq<u8>>) -> (Json, bool) {
    match file {
        Some(b) => match json_parse(b) {
            Some(v) => (v, false),
            None => (default_config_of(), false),
        },
        None => (default_config_of(), true),
    }
}

/// The built-in configuration, parsed from `DEFAULT_CONFIG`.
pub fn default_config() -> (r: Json)
    ensures
        r == default_config_of(),
{
    match parse_json(DEFAULT_CONFIG.as_bytes()) {
        Some(v) => v,
        None => Json::Null,
    }
}

/// The configuration in force, given the configuration file's contents
/// where it could be read, and whether `DEFAULT_CONFIG` has to be written
/// as the file.
pub fn load_config(file: Option<&str>) -> (r: (Json, bool))
    ensures
        r == loaded_config(match file {
            Some(s) => Some(s.spec_bytes()),
            None => None,
        }),
{
    match file {
        Some(s) => match parse_json(s.as_bytes()) {
            Some(v) => (v, false),
            None => (default_config(), false),
        },
        None => (default_config(), true),
    }
}

/// Loading again after the built-in configuration was written out gives
/// the same configuration and writes nothing.
pub proof fn lemma_default_reloads()
    ensures
        loaded_config(Some(DEFAULT_CONFIG.spec_bytes())) == (loaded_config(None).0, false),
{
}

} // verus!
