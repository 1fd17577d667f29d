//! Project configuration.
//!
//! A project carries a JSON document at a fixed project-relative path with
//! the schema `{ main: optional string path }`. A missing or unparseable
//! document yields the default configuration, whose main is `/main.typ`;
//! a reload fully replaces the configuration. Applying a configuration
//! re-resolves the main pointer: a configured path becomes the main
//! identity, an absent one clears the main, and the clearing is reported
//! so compilation stays blocked rather than partially run.

use vstd::prelude::*;

use crate::error::{FileError, ProjectConfigError, WorldError};
use crate::world::ProjectWorld;

verus! {

use vstd::string::*;

/// The project configuration: the path of the compilation entry point, if
/// one is configured.
pub struct ProjectConfig {
    pub main: Option<String>,
}

/// The view of a configuration: its optional main path.
pub open spec fn config_view(c: ProjectConfig) -> Option<Seq<char>> {
    match c.main {
        Some(p) => Some(p@),
        None => None,
    }
}

impl Default for ProjectConfig {
    /// The default configuration: `main = "/main.typ"`.
    fn default() -> (r: Self)
        ensures
            config_view(r) == Some("/main.typ"@),
    {
        ProjectConfig { main: Some("/main.typ".to_owned()) }
    }
}

/// What extracting the `main` field from a configuration document gave:
/// a parse failure, a document without a usable main, or the main path.
pub enum MainField {
    Unparseable,
    Absent,
    Path(String),
}

/// The view of an extracted field: `None` for a document the schema
/// refuses, `Some(None)` for one without a usable main, `Some(Some(p))`
/// for the configured path.
pub open spec fn field_view(f: MainField) -> Option<Option<Seq<char>>> {
    match f {
        MainField::Unparseable => None,
        MainField::Absent => Some(None),
        MainField::Path(p) => Some(Some(p@)),
    }
}

/// The `main` member the schema reads out of a document's text: a function
/// of the text alone — `None` when the document is refused, `Some(None)`
/// when the member is missing or null, `Some(Some(path))` when it is a
/// string.
pub uninterp spec fn main_field_of(s: Seq<char>) -> Option<Option<Seq<char>>>;

/// Relies on serde_json::from_str::<serde_json::Value>, Value::get,
/// Value::as_str and Value::is_null: the `main` member of the document —
/// the schema admits an optional string, so a member of any other kind
/// refuses the document, as malformed JSON does.
#[verifier::external_body]
fn extract_main_field(text: &str) -> (r: MainField)
    ensures
        field_view(r) == main_field_of(text@),
{
    let doc = match serde_json::from_str::<serde_json::Value>(text) {
        Ok(v) => v,
        Err(_) => return MainField::Unparseable,
    };
    match doc.get("main") {
        None => MainField::Absent,
        Some(m) if m.is_null() => MainField::Absent,
        Some(m) => match m.as_str() {
            Some(p) => MainField::Path(p.to_owned()),
            None => MainField::Unparseable,
        },
    }
}

/// Extracts the `main` field of a configuration document: `Unparseable`
/// on malformed JSON, `Absent` when the member is missing or null, the
/// path when it is a string, and `Unparseable` when it is any other kind
/// of value — the schema admits only an optional string.
pub fn read_main_field(text: &str) -> (r: MainField)
    ensures
        field_view(r) == main_field_of(text@),
{
    extract_main_field(text)
}

/// The configuration an extracted field yields: the configured main on a
/// well-formed document, none when the document has no usable main, and
/// the default main when the document is refused — missing or unparseable
/// files never abort, they fall back.
pub open spec fn config_of_field(f: Option<Option<Seq<char>>>) -> Option<Seq<char>> {
    match f {
        None => Some("/main.typ"@),
        Some(None) => None,
        Some(Some(p)) => Some(p),
    }
}

/// Builds the configuration for an extracted main field: a refused
/// document falls back to the default whole — no field-level patching.
pub fn config_from_field(f: MainField) -> (r: ProjectConfig)
    ensures
        config_view(r) == config_of_field(field_view(f)),
{
    match f {
        MainField::Unparseable => Default::default(),
        MainField::Absent => ProjectConfig { main: None },
        MainField::Path(p) => ProjectConfig { main: Some(p) },
    }
}

/// Reads a configuration out of a document's text; the caller hands in
/// what reading the file gave. A readable document yields exactly the
/// configuration of its extracted main; a missing or unreadable file
/// falls back to the default configuration.
pub fn config_from_read(read: Result<String, ProjectConfigError>) -> (r: ProjectConfig)
    ensures
        (read matches Ok(t) ==> config_view(r) == config_of_field(main_field_of(t@))),
        (read is Err ==> config_view(r) == Some("/main.typ"@)),
{
    match read {
        Ok(text) => config_from_field(read_main_field(text.as_str())),
        Err(_) => Default::default(),
    }
}

impl ProjectConfig {
    /// Applies the configuration to a world: a configured main path is
    /// resolved and set — failing with `AccessDenied` when it escapes the
    /// root, leaving the main untouched; an absent main clears the
    /// world's main and reports it, so that compilation is blocked by a
    /// typed signal rather than attempted without an entry point.
    pub fn apply_main(&self, world: &mut ProjectWorld) -> (r: Result<(), FileError>)
        requires
            old(world).wf(),
        ensures
            final(world).wf(),
            final(world).root_view() == old(world).root_view(),
            final(world).slots_seq() == old(world).slots_seq(),
            (match self.main {
                Some(p) => {
                    let norm = crate::sandbox::normalize_segs(crate::sandbox::split_path(p@));
                    &&& (r matches Ok(u) ==> norm is Some && final(world).main_view() == Some(
                        (None::<(Seq<char>, Seq<char>, Seq<char>)>, norm->0),
                    ))
                    &&& (r matches Err(e) ==> e == FileError::AccessDenied && norm is None
                        && final(world).main_view() == old(world).main_view())
                },
                None => r matches Err(e) && e == FileError::NotFound && final(world).main_view()
                    is None,
            }),
    {
        match &self.main {
            Some(p) => world.set_main_path(p.as_str()),
            None => {
                world.set_main(None);
                Err(FileError::NotFound)
            },
        }
    }
}

/// Gates one compile request: an already-configured main lets it pass
/// untouched; otherwise the configuration is re-applied, and a request
/// that still finds no usable main is blocked with the typed signal
/// `MainNotSet` — never skipped silently, never a partial run.
pub fn ensure_main(world: &mut ProjectWorld, config: &ProjectConfig) -> (r: Result<
    (),
    WorldError,
>)
    requires
        old(world).wf(),
    ensures
        final(world).wf(),
        final(world).root_view() == old(world).root_view(),
        final(world).slots_seq() == old(world).slots_seq(),
        (old(world).main_view() is Some ==> r is Ok && *final(world) == *old(world)),
        (r is Ok ==> final(world).main_view() is Some),
        (r is Err ==> r->Err_0 == WorldError::MainNotSet && final(world).main_view() is None),
        (old(world).main_view() is None ==> match config.main {
            Some(p) => {
                let norm = crate::sandbox::normalize_segs(crate::sandbox::split_path(p@));
                &&& (norm is Some ==> r is Ok && final(world).main_view() == Some(
                    (None::<(Seq<char>, Seq<char>, Seq<char>)>, norm->0),
                ))
                &&& (norm is None ==> r is Err)
            },
            None => r is Err,
        }),
{
    if world.is_main_set() {
        return Ok(());
    }
    match config.apply_main(world) {
        Ok(()) => Ok(()),
        Err(_) => {
            world.set_main(None);
            Err(WorldError::MainNotSet)
        },
    }
}

/// Whether a project-relative path is the fixed location of the project
/// configuration file.
pub fn is_project_config_file(relative: &str) -> (r: bool)
    ensures
        r == (relative@ == ".typstudio/project.json"@),
{
    let probe = ".typstudio/project.json";
    crate::sandbox::string_eq_str(relative, probe)
}

} // verus!
