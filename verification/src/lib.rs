//! Data model, parsers and renderers of a Jsonnet implementation, with
//! their contracts proved by Verus.

pub mod base64;
pub mod span;
pub mod text;
pub mod json;
pub mod value;
pub mod manifest;
pub mod error;
pub mod token;
pub mod yaml_key;
pub mod manifest_yaml;
pub mod manifest_python;
pub mod manifest_ini;
pub mod manifest_xml;
pub mod manifest_toml;
pub mod format;
pub mod hashing;
pub mod strings;
pub mod normalize;
pub mod yaml;
pub mod radix;
pub mod yaml_scalar;
pub mod std_values;
pub mod merge_patch;
pub mod json_roundtrip;
pub mod formatting;
pub mod call_args;
pub mod yaml_text;
