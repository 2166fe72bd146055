//! Where a model's configuration says its mesh and its ports are stored.
//!
//! The configuration is a JSON document. A path is written in one of two
//! shapes: as a string (`"mesh": "dir"`), or as an object that holds the
//! string under a named key (`"mesh": {"path": "dir"}`).

use rustc_serialize::json::Json;
use vstd::prelude::*;
use vstd::string::*;

verus! {

/// `Json` of rustc_serialize, a parsed JSON value. Nothing is known of what
/// is inside one but what `find`, `as_string` and `is_object` tell.
#[verifier::external_type_specification]
#[verifier::external_body]
pub struct ExJson(Json);

/// The value that a JSON object holds under `key`; `None` where `json` is no
/// object or has no such key.
pub uninterp spec fn json_member(json: Json, key: Seq<char>) -> Option<Json>;

/// The text of a JSON string; `None` where `json` is of another kind.
pub uninterp spec fn json_text(json: Json) -> Option<Seq<char>>;

/// Whether a JSON value is an object.
pub uninterp spec fn json_is_object(json: Json) -> bool;

/// `Json::find` of rustc_serialize: the value under `key` where `json` is an
/// object that has the key, else nothing. Trusted: the result is
/// `json_member` of the arguments, and only an object holds a value.
#[verifier::external_body]
fn find<'a>(json: &'a Json, key: &str) -> (found: Option<&'a Json>)
    ensures
        match found {
            Some(value) => json_member(*json, key@) == Some(*value),
            None => json_member(*json, key@) is None,
        },
        found is Some ==> json_is_object(*json),
{
    json.find(key)
}

/// `Json::as_string` of rustc_serialize: the text where `json` is a string,
/// else nothing. Trusted: the result is `json_text` of the argument.
#[verifier::external_body]
fn as_string(json: &Json) -> (text: Option<String>)
    ensures
        match text {
            Some(t) => json_text(*json) == Some(t@),
            None => json_text(*json) is None,
        },
{
    json.as_string().map(|t| t.to_string())
}

/// `Json::is_object` of rustc_serialize. Trusted: the result is
/// `json_is_object` of the argument.
#[verifier::external_body]
fn is_object(json: &Json) -> (b: bool)
    ensures
        b == json_is_object(*json),
{
    json.is_object()
}

/// How an entry of the model section writes a path.
#[derive(Debug, PartialEq, Eq)]
pub enum PathSpec {
    /// The entry is the path itself.
    Direct(String),
    /// The entry is an object; it holds the path under its sub-key, or holds
    /// no string there.
    Nested(Option<String>),
    /// There is no such entry, or it is neither a string nor an object.
    Absent,
}

impl PathSpec {
    /// The path that the entry gives, where it gives one.
    pub open spec fn path(self) -> Option<Seq<char>> {
        match self {
            PathSpec::Direct(path) => Some(path@),
            PathSpec::Nested(Some(path)) => Some(path@),
            PathSpec::Nested(None) => None,
            PathSpec::Absent => None,
        }
    }

    /// Resolves the entry to its path.
    pub fn resolve(self) -> (out: Option<String>)
        ensures
            match self.path() {
                Some(path) => out is Some && out->0@ == path,
                None => out is None,
            },
    {
        match self {
            PathSpec::Direct(path) => Some(path),
            PathSpec::Nested(inner) => inner,
            PathSpec::Absent => None,
        }
    }

    /// Resolves the entry to its path, or to `default` where it gives none.
    pub fn resolve_or(self, default: &str) -> (out: String)
        ensures
            out@ == match self.path() {
                Some(path) => path,
                None => default@,
            },
    {
        match self.resolve() {
            Some(path) => path,
            None => String::from_str(default),
        }
    }
}

/// The path that the entry `entry` of `model` gives: its text where it is a
/// string, else the text that it holds under `sub_key`.
pub open spec fn entry_path(model: Json, entry: Seq<char>, sub_key: Seq<char>) -> Option<Seq<char>> {
    match json_member(model, entry) {
        None => None,
        Some(value) => match json_text(value) {
            Some(path) => Some(path),
            None => match json_member(value, sub_key) {
                Some(inner) => json_text(inner),
                None => None,
            },
        },
    }
}

/// The model section of a configuration: what it holds under `model`, where
/// that is an object.
pub open spec fn model_of(config: Json) -> Option<Json> {
    match json_member(config, "model"@) {
        Some(model) => if json_is_object(model) {
            Some(model)
        } else {
            None
        },
        None => None,
    }
}

/// The mesh path of a configuration: what the entry `mesh` of the model
/// section gives, `mesh` where it gives nothing, and no path at all where
/// there is no model section.
pub open spec fn mesh_path(config: Json) -> Option<Seq<char>> {
    match model_of(config) {
        Some(model) => Some(
            match entry_path(model, "mesh"@, "path"@) {
                Some(path) => path,
                None => "mesh"@,
            },
        ),
        None => None,
    }
}

/// The ports path of a configuration: what the entry `ports` of the model
/// section gives, and nothing else.
pub open spec fn ports_path(config: Json) -> Option<Seq<char>> {
    match model_of(config) {
        Some(model) => entry_path(model, "ports"@, "edges"@),
        None => None,
    }
}

/// Reads how the entry `entry` of `model` writes a path.
pub fn path_spec(model: &Json, entry: &str, sub_key: &str) -> (out: PathSpec)
    ensures
        out.path() == entry_path(*model, entry@, sub_key@),
        out is Direct <==> json_member(*model, entry@) is Some && json_text(
            json_member(*model, entry@)->0,
        ) is Some,
        out is Nested <==> json_member(*model, entry@) is Some && json_text(
            json_member(*model, entry@)->0,
        ) is None && json_is_object(json_member(*model, entry@)->0),
{
    match find(model, entry) {
        None => PathSpec::Absent,
        Some(value) => match as_string(value) {
            Some(path) => PathSpec::Direct(path),
            None => match find(value, sub_key) {
                Some(inner) => PathSpec::Nested(as_string(inner)),
                None => if is_object(value) {
                    PathSpec::Nested(None)
                } else {
                    PathSpec::Absent
                },
            },
        },
    }
}

/// The model section of a configuration.
fn model_section<'a>(config: &'a Json) -> (out: Option<&'a Json>)
    ensures
        match out {
            Some(model) => model_of(*config) == Some(*model),
            None => model_of(*config) is None,
        },
{
    match find(config, "model") {
        Some(model) => if is_object(model) {
            Some(model)
        } else {
            None
        },
        None => None,
    }
}

/// Finds the directory of the mesh files. A configuration without a model
/// section has none; a model section that does not say falls back to
/// `mesh`.
pub fn extract_mesh_path(config: &Json) -> (out: Option<String>)
    ensures
        match mesh_path(*config) {
            Some(path) => out is Some && out->0@ == path,
            None => out is None,
        },
{
    match model_section(config) {
        Some(model) => Some(path_spec(model, "mesh", "path").resolve_or("mesh")),
        None => None,
    }
}

/// Finds the file of the ports. There is no fallback: a configuration that
/// does not say has no ports.
pub fn extract_ports_path(config: &Json) -> (out: Option<String>)
    ensures
        match ports_path(*config) {
            Some(path) => out is Some && out->0@ == path,
            None => out is None,
        },
{
    match model_section(config) {
        Some(model) => path_spec(model, "ports", "edges").resolve(),
        None => None,
    }
}

/// The path of what is called `name` in the directory `dir`.
pub open spec fn joined(dir: Seq<char>, name: Seq<char>) -> Seq<char> {
    dir + seq!['/'] + name
}

/// Joins a directory and a name into a path. The paths of a configuration
/// are meant from the directory that holds the configuration, and the
/// files of a mesh from the directory of the mesh.
pub fn join(dir: &str, name: &str) -> (out: String)
    ensures
        out@ == joined(dir@, name@),
{
    proof {
        reveal_strlit("/");
        assert("/"@ =~= seq!['/']);
    }
    let mut out = String::from_str(dir);
    out.append("/");
    out.append(name);
    out
}

/// A configuration has a mesh path exactly when it has a model section, and
/// it has a ports path only when it has a mesh path.
pub proof fn paths_need_model(config: Json)
    ensures
        mesh_path(config) is Some <==> model_of(config) is Some,
        ports_path(config) is Some ==> mesh_path(config) is Some,
{
}

} // verus!
