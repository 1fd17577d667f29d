//! Command-facing data model.
//!
//! Plain values that cross the command boundary: directory listings and
//! their canonical order, completion and diagnostic shapes, render and
//! clipboard responses, project-change and refresh events, and the cache
//! of the last compiled artifact.

use vstd::prelude::*;

use crate::fonts::{lex_le, lex_le_exec};

verus! {

use vstd::relations::{sorted_by, total_ordering, reflexive, transitive, antisymmetric,
    strongly_connected};

/// What a directory entry is; symlinks are resolved before listing.
#[derive(Clone, Copy, Debug, PartialEq, Eq, Structural)]
pub enum FileType {
    File,
    Directory,
}

/// One entry of a directory listing.
#[derive(Debug)]
pub struct FileItem {
    pub name: String,
    pub file_type: FileType,
}

/// The view of one entry: its name's text and its type.
pub open spec fn item_view(it: FileItem) -> (Seq<char>, FileType) {
    (it.name@, it.file_type)
}

/// The views of a listing.
pub open spec fn item_views(s: Seq<FileItem>) -> Seq<(Seq<char>, FileType)> {
    s.map_values(|it: FileItem| item_view(it))
}

/// The listing order: directories before files, names lexicographic
/// within one type.
pub open spec fn item_le(a: (Seq<char>, FileType), b: (Seq<char>, FileType)) -> bool {
    if a.1 == b.1 {
        lex_le(a.0, b.0)
    } else {
        a.1 is Directory
    }
}

/// The listing order as a relation value.
pub open spec fn item_leq() -> spec_fn((Seq<char>, FileType), (Seq<char>, FileType)) -> bool {
    |a: (Seq<char>, FileType), b: (Seq<char>, FileType)| item_le(a, b)
}

/// The listing order is a total order.
pub proof fn lemma_item_le_total_ordering()
    ensures
        total_ordering(item_leq()),
{
    crate::fonts::lemma_lex_le_total_ordering();
    let lex = crate::fonts::lex_leq();
    let leq = item_leq();
    assert(reflexive(leq)) by {
        assert forall|a: (Seq<char>, FileType)| #[trigger] leq(a, a) by {
            assert(lex(a.0, a.0));
        }
    }
    assert(transitive(leq)) by {
        assert forall|a: (Seq<char>, FileType), b: (Seq<char>, FileType), c: (Seq<char>, FileType)|
            #[trigger] leq(a, b) && #[trigger] leq(b, c) implies leq(a, c) by {
            if a.1 == b.1 && b.1 == c.1 {
                assert(lex(a.0, b.0) && lex(b.0, c.0));
            }
        }
    }
    assert(antisymmetric(leq)) by {
        assert forall|a: (Seq<char>, FileType), b: (Seq<char>, FileType)|
            #[trigger] leq(a, b) && #[trigger] leq(b, a) implies a == b by {
            assert(a.1 == b.1);
            assert(lex(a.0, b.0) && lex(b.0, a.0));
        }
    }
    assert(strongly_connected(leq)) by {
        assert forall|a: (Seq<char>, FileType), b: (Seq<char>, FileType)| #[trigger] leq(a, b)
            || #[trigger] leq(b, a) by {
            if a.1 == b.1 {
                assert(lex(a.0, b.0) || lex(b.0, a.0));
            }
        }
    }
}

/// Whether `a` comes at or before `b` in the listing order.
pub fn item_le_exec(a: &FileItem, b: &FileItem) -> (r: bool)
    ensures
        r == item_le(item_view(*a), item_view(*b)),
{
    match (a.file_type, b.file_type) {
        (FileType::Directory, FileType::File) => true,
        (FileType::File, FileType::Directory) => false,
        _ => lex_le_exec(a.name.as_str(), b.name.as_str()),
    }
}

/// Sorts a directory listing into its canonical order: directories first,
/// then by name — the one sorted arrangement of the entries.
pub fn sort_file_items(v: Vec<FileItem>) -> (r: Vec<FileItem>)
    ensures
        sorted_by(item_views(r@), item_leq()),
        item_views(r@).to_multiset() == item_views(v@).to_multiset(),
{
    broadcast use vstd::seq_lib::group_to_multiset_ensures;
    broadcast use vstd::seq_lib::to_multiset_insert;

    let mut out: Vec<FileItem> = Vec::new();
    let n = v.len();
    proof {
        lemma_item_le_total_ordering();
        assert(item_views(out@) =~= Seq::<(Seq<char>, FileType)>::empty());
        assert(item_views(v@.subrange(0, 0)) =~= Seq::<(Seq<char>, FileType)>::empty());
        assert(item_views(out@).to_multiset() =~= item_views(v@.subrange(0, 0)).to_multiset());
    }
    let mut i: usize = 0;
    while i < n
        invariant
            i <= n,
            n == v@.len(),
            total_ordering(item_leq()),
            sorted_by(item_views(out@), item_leq()),
            item_views(out@).to_multiset() == item_views(v@.subrange(0, i as int)).to_multiset(),
        decreases n - i,
    {
        broadcast use vstd::seq_lib::group_to_multiset_ensures;
        broadcast use vstd::seq_lib::to_multiset_insert;

        let x = clone_item(&v[i]);
        let ghost s = item_views(out@);
        let mut k: usize = 0;
        while k < out.len() && item_le_exec(&out[k], &x)
            invariant
                k <= out@.len(),
                item_views(out@) == s,
                item_view(x) == item_view(v@[i as int]),
                forall|m: int| 0 <= m < k ==> item_le(s[m], item_view(x)),
            decreases out@.len() - k,
        {
            proof {
                assert(s[k as int] == item_view(out@[k as int]));
            }
            k = k + 1;
        }
        let ghost xv = item_view(x);
        proof {
            if (k as int) < s.len() {
                assert(!item_le(item_view(out@[k as int]), xv));
                assert(item_leq()(s[k as int], xv) || item_leq()(xv, s[k as int]));
                assert(item_le(xv, s[k as int]));
            }
            assert forall|m: int| k <= m < s.len() implies item_le(xv, s[m]) by {
                if m > k {
                    assert(item_leq()(s[k as int], s[m]));
                    assert(item_leq()(xv, s[k as int]) && item_leq()(s[k as int], s[m])
                        ==> item_leq()(xv, s[m]));
                }
            }
        }
        let ghost before = out@;
        out.insert(k, x);
        proof {
            before.insert_ensures(k as int, before[0int]);
            let t = item_views(out@);
            assert(t =~= s.insert(k as int, xv)) by {
                s.insert_ensures(k as int, xv);
                assert forall|p: int| 0 <= p < t.len() implies t[p] == s.insert(k as int, xv)[p] by {
                    assert(t[p] == item_view(out@[p]));
                    if p < k {
                        assert(out@[p] == before[p]);
                    } else if p > k {
                        assert(out@[p] == before[p - 1]);
                    }
                }
            }
            assert(sorted_by(t, item_leq())) by {
                s.insert_ensures(k as int, xv);
                assert forall|p: int, q: int| 0 <= p < q < t.len() implies item_leq()(
                    t[p],
                    t[q],
                ) by {
                    if q < k {
                        assert(item_leq()(s[p], s[q]));
                    } else if p > k {
                        assert(item_leq()(s[p - 1], s[q - 1]));
                    } else if p == k && q > k {
                        assert(item_le(xv, s[q - 1]));
                    } else if p < k && q == k {
                        assert(item_le(s[p], xv));
                    } else if p < k && q > k {
                        assert(item_leq()(s[p], s[q - 1]));
                    }
                }
            }
            assert(t.to_multiset() =~= s.to_multiset().insert(xv));
            assert(item_views(v@.subrange(0, i as int + 1)) =~= item_views(
                v@.subrange(0, i as int),
            ).push(item_view(v@[i as int]))) by {
                assert(v@.subrange(0, i as int + 1).drop_last() =~= v@.subrange(0, i as int));
            }
        }
        i = i + 1;
    }
    proof {
        assert(v@.subrange(0, n as int) =~= v@);
    }
    out
}

/// Clones one listing entry, keeping its view.
fn clone_item(it: &FileItem) -> (r: FileItem)
    ensures
        item_view(r) == item_view(*it),
{
    FileItem { name: it.name.clone(), file_type: it.file_type }
}

/// The kind of one completion suggestion.
#[derive(Clone, Copy, Debug, PartialEq, Eq, Structural)]
pub enum TypstCompletionKind {
    Syntax,
    Function,
    Parameter,
    Constant,
    Symbol,
    Type,
}

/// One completion suggestion.
#[derive(Debug)]
pub struct TypstCompletion {
    pub kind: TypstCompletionKind,
    pub label: String,
    pub apply: Option<String>,
    pub detail: Option<String>,
}

/// A completion answer: the character offset completed from, and the
/// suggestions.
#[derive(Debug)]
pub struct TypstCompleteResponse {
    pub offset: usize,
    pub completions: Vec<TypstCompletion>,
}

/// How severe one diagnostic is.
#[derive(Clone, Copy, Debug, PartialEq, Eq, Structural)]
pub enum TypstDiagnosticSeverity {
    Error,
    Warning,
}

/// One source diagnostic, its range in characters.
#[derive(Debug)]
pub struct TypstSourceDiagnostic {
    pub start: usize,
    pub end: usize,
    pub severity: TypstDiagnosticSeverity,
    pub message: String,
    pub hints: Vec<String>,
}

/// A rendered page: its encoded image and dimensions, echoing the
/// caller's nonce.
#[derive(Debug)]
pub struct TypstRenderResponse {
    pub image: String,
    pub width: u32,
    pub height: u32,
    pub nonce: u32,
}

/// The project a window shows.
#[derive(Debug)]
pub struct ProjectModel {
    pub root: String,
}

/// Announces the project a window shows, or that it shows none.
#[derive(Debug)]
pub struct ProjectChangeEvent {
    pub project: Option<ProjectModel>,
}

/// Asks a directory-listing consumer to re-query this project-relative
/// path.
#[derive(Debug)]
pub struct FSRefreshEvent {
    pub path: String,
}

/// Where a clipboard image was written, relative to the project root.
#[derive(Debug)]
pub struct ClipboardPasteResponse {
    pub path: String,
}

/// The shape of the last compiled artifact.
#[derive(Debug)]
pub struct CompiledDocument {
    pub pages: usize,
    pub hash: String,
}

/// The cache of the last compiled artifact, read concurrently while a new
/// compile is in flight and swapped whole once one finishes.
#[derive(Debug)]
pub struct ProjectCache {
    pub document: Option<CompiledDocument>,
}

impl Default for ProjectCache {
    /// A fresh cache holds no artifact.
    fn default() -> (r: Self)
        ensures
            r.document is None,
    {
        ProjectCache { document: None }
    }
}

} // verus!
