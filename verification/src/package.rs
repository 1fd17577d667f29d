//! Package location.
//!
//! A package identity (namespace, name, version) maps to a fixed relative
//! subpath, searched in an ordered, fixed list of base directories: the
//! per-user data directory, then the per-user cache directory. The first
//! existing candidate wins. Pure lookup over pre-installed packages: no
//! network access, no write-back population.

use vstd::prelude::*;

use crate::error::PackageError;

verus! {

use vstd::string::*;

/// A namespaced, versioned package identity. The version is kept in its
/// textual form, exactly as it appears in the package's directory name.
pub struct PackageSpec {
    pub namespace: String,
    pub name: String,
    pub version: String,
}

impl View for PackageSpec {
    type V = (Seq<char>, Seq<char>, Seq<char>);

    open spec fn view(&self) -> Self::V {
        (self.namespace@, self.name@, self.version@)
    }
}

impl Clone for PackageSpec {
    fn clone(&self) -> (r: Self)
        ensures
            r@ == self@,
    {
        PackageSpec {
            namespace: self.namespace.clone(),
            name: self.name.clone(),
            version: self.version.clone(),
        }
    }
}

/// The fixed relative subpath of a package under any base directory.
pub open spec fn subpath_of(ns: Seq<char>, name: Seq<char>, ver: Seq<char>) -> Seq<char> {
    "typst/packages/"@ + ns + seq!['/'] + name + seq!['/'] + ver
}

/// Builds the relative subpath for a package.
pub fn package_subpath(spec: &PackageSpec) -> (r: String)
    ensures
        r@ == subpath_of(spec.namespace@, spec.name@, spec.version@),
{
    let mut s = "typst/packages/".to_owned();
    s.append(spec.namespace.as_str());
    s.append("/");
    s.append(spec.name.as_str());
    s.append("/");
    s.append(spec.version.as_str());
    proof {
        assert("/"@ =~= seq!['/']) by {
            reveal_strlit("/");
        }
        assert(s@ =~= subpath_of(spec.namespace@, spec.name@, spec.version@));
    }
    s
}

/// Joins a base directory and a relative subpath with one separator.
pub fn join_base(base: &String, sub: &String) -> (r: String)
    ensures
        r@ == base@ + seq!['/'] + sub@,
{
    let mut s = base.clone();
    s.append("/");
    s.append(sub.as_str());
    proof {
        assert("/"@ =~= seq!['/']) by {
            reveal_strlit("/");
        }
        assert(s@ =~= base@ + seq!['/'] + sub@);
    }
    s
}

/// Relies on dirs::data_dir: the per-user data directory, when the
/// platform defines one and its path is valid text.
#[verifier::external_body]
fn data_dir_path() -> (r: Option<String>) {
    dirs::data_dir().and_then(|p| p.to_str().map(|s| s.to_owned()))
}

/// Relies on dirs::cache_dir: the per-user cache directory, when the
/// platform defines one and its path is valid text.
#[verifier::external_body]
fn cache_dir_path() -> (r: Option<String>) {
    dirs::cache_dir().and_then(|p| p.to_str().map(|s| s.to_owned()))
}

/// Relies on std::path::Path::exists: whether a filesystem entity answers
/// at `p`.
#[verifier::external_body]
fn location_exists(p: &String) -> bool {
    std::path::Path::new(p.as_str()).exists()
}

/// Resolves a package to an installed directory: the per-user data
/// directory is probed first, then the per-user cache directory; the first
/// existing candidate wins, and `NotFound` is returned when neither base
/// holds the package. Which base answers depends on the machine, but any
/// successful answer is some base joined with the package's fixed subpath.
pub fn prepare_package(spec: &PackageSpec) -> (r: Result<String, PackageError>)
    ensures
        (r matches Ok(p) ==> exists|base: Seq<char>|
            p@ == base + seq!['/'] + subpath_of(spec.namespace@, spec.name@, spec.version@)),
        (r matches Err(e) ==> e == PackageError::NotFound),
{
    let sub = package_subpath(spec);
    if let Some(data) = data_dir_path() {
        let candidate = join_base(&data, &sub);
        if location_exists(&candidate) {
            proof {
                let w = data@;
                assert(candidate@ == w + seq!['/'] + subpath_of(
                    spec.namespace@,
                    spec.name@,
                    spec.version@,
                ));
            }
            return Ok(candidate);
        }
    }
    if let Some(cache) = cache_dir_path() {
        let candidate = join_base(&cache, &sub);
        if location_exists(&candidate) {
            proof {
                let w = cache@;
                assert(candidate@ == w + seq!['/'] + subpath_of(
                    spec.namespace@,
                    spec.name@,
                    spec.version@,
                ));
            }
            return Ok(candidate);
        }
    }
    Err(PackageError::NotFound)
}

} // verus!
