//! Reading JSON, YAML and TOML documents into trees. The documents are
//! parsed by serde_json, serde_yaml and toml; their values are turned into
//! `DataValue`s, whose trees `Tree::from_data` builds.
use crate::data::{data_tree, DataEntry, DataFormat, DataValue};
use crate::tree::Tree;
use serde_yaml::Value as YamlValue;
use vstd::prelude::*;

verus! {

#[verifier::external_type_specification]
#[verifier::external_body]
pub struct ExJsonValue(serde_json::Value);

#[verifier::external_type_specification]
#[verifier::external_body]
pub struct ExJsonError(serde_json::Error);

#[verifier::external_type_specification]
#[verifier::external_body]
pub struct ExYamlValue(serde_yaml::Value);

#[verifier::external_type_specification]
#[verifier::external_body]
pub struct ExYamlError(serde_yaml::Error);

#[verifier::external_type_specification]
#[verifier::external_body]
pub struct ExTomlValue(toml::Value);

#[verifier::external_type_specification]
#[verifier::external_body]
pub struct ExTomlError(toml::de::Error);

/// Whether `s` is a document that serde_json reads into a `Value`.
pub uninterp spec fn is_json_document(s: Seq<char>) -> bool;

/// Whether `s` is a document that serde_yaml reads into a `Value`.
pub uninterp spec fn is_yaml_document(s: Seq<char>) -> bool;

/// Whether `s` is a document that toml reads into a `Value`.
pub uninterp spec fn is_toml_document(s: Seq<char>) -> bool;

/// Relies on serde_json::from_str to parse a JSON document; whether it
/// succeeds depends on the text alone.
#[verifier::external_body]
fn parse_json(s: &str) -> (r: Result<serde_json::Value, serde_json::Error>)
    ensures
        r is Ok <==> is_json_document(s@),
{
    serde_json::from_str(s)
}

/// Relies on serde_yaml::from_str to parse a YAML document; whether it
/// succeeds depends on the text alone.
#[verifier::external_body]
fn parse_yaml(s: &str) -> (r: Result<serde_yaml::Value, serde_yaml::Error>)
    ensures
        r is Ok <==> is_yaml_document(s@),
{
    serde_yaml::from_str(s)
}

/// Relies on toml::from_str to parse a TOML document; whether it succeeds
/// depends on the text alone.
#[verifier::external_body]
fn parse_toml(s: &str) -> (r: Result<toml::Value, toml::de::Error>)
    ensures
        r is Ok <==> is_toml_document(s@),
{
    toml::from_str(s)
}

/// Relies on serde_json's `Value` variants, its map's iteration order and
/// `Number`'s text, to turn a JSON value into a `DataValue`.
#[verifier::external_body]
fn json_data(v: &serde_json::Value) -> DataValue {
    match v {
        serde_json::Value::Null => DataValue::Null,
        serde_json::Value::Bool(b) => DataValue::Bool(*b),
        serde_json::Value::Number(n) => DataValue::Scalar(n.to_string()),
        serde_json::Value::String(s) => DataValue::Text(s.clone()),
        serde_json::Value::Array(a) => DataValue::List(a.iter().map(json_data).collect()),
        serde_json::Value::Object(o) => DataValue::Keyed(
            o.iter().map(|(k, x)| DataEntry { key: k.clone(), value: json_data(x) }).collect(),
        ),
    }
}

/// Relies on serde_yaml's `Value` variants, its mapping's iteration order,
/// `Number`'s text and `Debug` for keys that are not strings, to turn a
/// YAML value into a `DataValue`; a tagged value stands for its content.
#[verifier::external_body]
fn yaml_data(v: &YamlValue) -> DataValue {
    match v {
        YamlValue::Null => DataValue::Null,
        YamlValue::Bool(b) => DataValue::Bool(*b),
        YamlValue::Number(n) => DataValue::Scalar(n.to_string()),
        YamlValue::String(s) => DataValue::Text(s.clone()),
        YamlValue::Sequence(a) => DataValue::List(a.iter().map(yaml_data).collect()),
        YamlValue::Mapping(m) => DataValue::Keyed(m.iter().map(|(k, x)| DataEntry {
            key: match k { YamlValue::String(s) => s.clone(), _ => format!("{:?}", k) },
            value: yaml_data(x),
        }).collect()),
        YamlValue::Tagged(t) => yaml_data(&t.value),
    }
}

/// Relies on toml's `Value` variants, its table's iteration order and the
/// TOML text of scalars other than strings, to turn a TOML value into a
/// `DataValue`.
#[verifier::external_body]
fn toml_data(v: &toml::Value) -> DataValue {
    match v {
        toml::Value::String(s) => DataValue::Text(s.clone()),
        toml::Value::Boolean(b) => DataValue::Bool(*b),
        toml::Value::Array(a) => DataValue::List(a.iter().map(toml_data).collect()),
        toml::Value::Table(t) => DataValue::Keyed(
            t.iter().map(|(k, x)| DataEntry { key: k.clone(), value: toml_data(x) }).collect(),
        ),
        other => DataValue::Scalar(other.to_string()),
    }
}

impl Tree {
    /// The tree of a JSON document: objects become nodes "object" whose
    /// scalar members read `"key": value`, arrays nodes "array".
    pub fn from_arbitrary_json(json_str: &str) -> (r: Result<Tree, serde_json::Error>)
        ensures
            r is Ok <==> is_json_document(json_str@),
            r is Ok ==> exists|d: DataValue| r->Ok_0@ == #[trigger] data_tree(d, DataFormat::Json),
    {
        match parse_json(json_str) {
            Ok(v) => {
                let d = json_data(&v);
                Ok(Tree::from_data(&d, &DataFormat::Json))
            },
            Err(e) => Err(e),
        }
    }

    /// The tree of a YAML document: mappings become nodes "object" whose
    /// scalar members read `key: value`, sequences nodes "array".
    pub fn from_arbitrary_yaml(yaml_str: &str) -> (r: Result<Tree, serde_yaml::Error>)
        ensures
            r is Ok <==> is_yaml_document(yaml_str@),
            r is Ok ==> exists|d: DataValue| r->Ok_0@ == #[trigger] data_tree(d, DataFormat::Yaml),
    {
        match parse_yaml(yaml_str) {
            Ok(v) => {
                let d = yaml_data(&v);
                Ok(Tree::from_data(&d, &DataFormat::Yaml))
            },
            Err(e) => Err(e),
        }
    }

    /// The tree of a TOML document: tables become nodes "table" whose scalar
    /// members read `key = value`, arrays nodes "array".
    pub fn from_arbitrary_toml(toml_str: &str) -> (r: Result<Tree, toml::de::Error>)
        ensures
            r is Ok <==> is_toml_document(toml_str@),
            r is Ok ==> exists|d: DataValue| r->Ok_0@ == #[trigger] data_tree(d, DataFormat::Toml),
    {
        match parse_toml(toml_str) {
            Ok(v) => {
                let d = toml_data(&v);
                Ok(Tree::from_data(&d, &DataFormat::Toml))
            },
            Err(e) => Err(e),
        }
    }
}

} // verus!
