//! The invalidation bridge.
//!
//! Raw filesystem notifications — create, remove, rename, data-modify —
//! are classified into targeted actions, independently, one event at a
//! time, with no coalescing. A create, remove or rename refreshes the
//! listing of the changed path's parent; a data-modify reloads the changed
//! path itself: the project configuration when it is the configuration
//! file, otherwise a contentless update of the file's slot, forcing a
//! re-read on the next access. One raw event fans out to each open project
//! whose root contains the changed path, and to no other.

use vstd::prelude::*;

verus! {

use vstd::string::*;

/// The kind of one raw filesystem notification.
#[derive(Clone, Copy, Debug, PartialEq, Eq, Structural)]
pub enum FsEventKind {
    Create,
    Remove,
    Rename,
    DataChange,
    Other,
}

/// How a notification is handled: refresh a directory listing, or reload
/// a file's content.
#[derive(Clone, Copy, Debug, PartialEq, Eq, Structural)]
pub enum HandleKind {
    Refresh,
    Reload,
}

/// The targeted action one notification demands of one project.
#[derive(Debug)]
pub enum ProjectFsAction {
    /// Re-query the listing of this project-relative directory.
    RefreshDir(String),
    /// Re-read and re-apply the project configuration.
    ReloadConfig,
    /// Push a contentless update for this virtual path, forcing a re-read.
    ReloadSlot(String),
    /// The change lies outside this project's root.
    Ignore,
}

/// Index of the last separator in `s`, or `-1` when `s` has none.
pub open spec fn last_sep(s: Seq<char>) -> int
    decreases s.len(),
{
    if s.len() == 0 {
        -1
    } else if s.last() == '/' {
        s.len() - 1
    } else {
        last_sep(s.drop_last())
    }
}

/// The parent of a path: everything before its last separator, `None` for
/// a path without one. The filesystem root's parent is the empty path.
pub open spec fn parent_spec(s: Seq<char>) -> Option<Seq<char>> {
    if last_sep(s) < 0 {
        None
    } else {
        Some(s.subrange(0, last_sep(s)))
    }
}

/// What one notification asks for: the path to handle and how. A create,
/// remove or rename targets the parent; a data-modify targets the path
/// itself; anything else is dropped.
pub open spec fn classify_spec(kind: FsEventKind, path: Seq<char>) -> Option<
    (Seq<char>, HandleKind),
> {
    match kind {
        FsEventKind::Create | FsEventKind::Remove | FsEventKind::Rename => match parent_spec(
            path,
        ) {
            Some(p) => Some((p, HandleKind::Refresh)),
            None => None,
        },
        FsEventKind::DataChange => Some((path, HandleKind::Reload)),
        FsEventKind::Other => None,
    }
}

/// Whether `path` lies under the directory `root`: the root itself, or
/// the root followed by a separator.
pub open spec fn contained_in(root: Seq<char>, path: Seq<char>) -> bool {
    &&& path.len() >= root.len()
    &&& path.subrange(0, root.len() as int) == root
    &&& (path.len() == root.len() || path[root.len() as int] == '/')
}

/// The project-relative form of a contained path: what follows the root
/// and its separator.
pub open spec fn relative_to(root: Seq<char>, path: Seq<char>) -> Seq<char> {
    if path.len() <= root.len() + 1 {
        Seq::empty()
    } else {
        path.subrange(root.len() as int + 1, path.len() as int)
    }
}

/// Scanning from the end determines `last_sep`.
proof fn lemma_last_sep_at(s: Seq<char>, j: int)
    requires
        -1 <= j < s.len(),
        forall|k: int| j < k < s.len() ==> s[k] != '/',
        j >= 0 ==> s[j] == '/',
    ensures
        last_sep(s) == j,
    decreases s.len(),
{
    if s.len() > 0 && s.last() != '/' {
        lemma_last_sep_at(s.drop_last(), j);
    }
}

/// The parent of a path: everything before its last separator.
pub fn parent_dir(path: &str) -> (r: Option<String>)
    ensures
        (r matches Some(p) ==> parent_spec(path@) == Some(p@)),
        (r is None ==> parent_spec(path@) is None),
{
    let len = path.unicode_len();
    let mut j: usize = len;
    while j > 0
        invariant
            j <= len,
            len == path@.len(),
            forall|k: int| j <= k < len ==> path@[k] != '/',
        decreases j,
    {
        if path.get_char(j - 1) == '/' {
            proof {
                lemma_last_sep_at(path@, j - 1);
            }
            let p = path.substring_char(0, j - 1).to_owned();
            return Some(p);
        }
        j = j - 1;
    }
    proof {
        lemma_last_sep_at(path@, -1);
    }
    None
}

/// Classifies one raw notification into the path to handle and how.
pub fn classify_event(kind: FsEventKind, path: &str) -> (r: Option<(String, HandleKind)>)
    ensures
        (r matches Some(a) ==> classify_spec(kind, path@) == Some((a.0@, a.1))),
        (r is None ==> classify_spec(kind, path@) is None),
{
    match kind {
        FsEventKind::Create | FsEventKind::Remove | FsEventKind::Rename => {
            match parent_dir(path) {
                Some(p) => Some((p, HandleKind::Refresh)),
                None => None,
            }
        },
        FsEventKind::DataChange => Some((path.to_owned(), HandleKind::Reload)),
        FsEventKind::Other => None,
    }
}

/// Whether `path` lies under the directory `root`.
pub fn path_contained_in(root: &str, path: &str) -> (r: bool)
    ensures
        r == contained_in(root@, path@),
{
    let rlen = root.unicode_len();
    let plen = path.unicode_len();
    if plen < rlen {
        return false;
    }
    let mut i: usize = 0;
    while i < rlen
        invariant
            i <= rlen,
            rlen == root@.len(),
            plen == path@.len(),
            plen >= rlen,
            forall|k: int| 0 <= k < i ==> path@[k] == root@[k],
        decreases rlen - i,
    {
        if path.get_char(i) != root.get_char(i) {
            proof {
                assert(path@.subrange(0, rlen as int)[i as int] != root@[i as int]);
            }
            return false;
        }
        i = i + 1;
    }
    proof {
        assert(path@.subrange(0, rlen as int) =~= root@);
    }
    if plen == rlen {
        true
    } else {
        path.get_char(rlen) == '/'
    }
}

/// The project-relative form of a contained path.
pub fn relative_path(root: &str, path: &str) -> (r: String)
    requires
        contained_in(root@, path@),
    ensures
        r@ == relative_to(root@, path@),
{
    let rlen = root.unicode_len();
    let plen = path.unicode_len();
    if plen - rlen <= 1 {
        proof {
            assert(""@ =~= Seq::<char>::empty()) by {
                reveal_strlit("");
            }
        }
        "".to_owned()
    } else {
        path.substring_char(rlen + 1, plen).to_owned()
    }
}

/// What one notification, already classified, demands of one project: an
/// out-of-root path is ignored; a refresh names the parent directory
/// relative to the root; a data reload re-reads the configuration when
/// the changed file is the configuration file, and otherwise invalidates
/// the changed file's slot under its virtual (root-relative, separator-
/// led) path.
pub fn project_action(root: &str, target: &str, kind: HandleKind) -> (r: ProjectFsAction)
    ensures
        (!contained_in(root@, target@) ==> r is Ignore),
        (contained_in(root@, target@) ==> {
            let rel = relative_to(root@, target@);
            match kind {
                HandleKind::Refresh => (r matches ProjectFsAction::RefreshDir(p) && p@ == rel),
                HandleKind::Reload => {
                    if rel == ".typstudio/project.json"@ {
                        r is ReloadConfig
                    } else {
                        (r matches ProjectFsAction::ReloadSlot(p) && p@ == seq!['/'] + rel)
                    }
                },
            }
        }),
{
    if !path_contained_in(root, target) {
        return ProjectFsAction::Ignore;
    }
    let rel = relative_path(root, target);
    match kind {
        HandleKind::Refresh => ProjectFsAction::RefreshDir(rel),
        HandleKind::Reload => {
            if crate::config::is_project_config_file(rel.as_str()) {
                ProjectFsAction::ReloadConfig
            } else {
                let mut p = "/".to_owned();
                p.append(rel.as_str());
                proof {
                    assert("/"@ =~= seq!['/']) by {
                        reveal_strlit("/");
                    }
                    assert(p@ =~= seq!['/'] + rel@);
                }
                ProjectFsAction::ReloadSlot(p)
            }
        },
    }
}

} // verus!
