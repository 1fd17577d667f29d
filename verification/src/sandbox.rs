//! Sandboxed path resolution.
//!
//! A logical path is split into `/`-separated segments and normalized
//! against a project root: normal segments append, `.` and empty segments
//! vanish, and `..` pops one segment — failing with `AccessDenied` when a
//! pop would rise above the root. Resolution is purely lexical; the empty
//! path resolves to the root itself.

use vstd::prelude::*;

use crate::error::FileError;

verus! {

/// Index of the first separator in `s`, or `s.len()` when `s` has none.
pub open spec fn first_sep(s: Seq<char>) -> int
    decreases s.len(),
{
    if s.len() == 0 {
        0
    } else if s[0] == '/' {
        0
    } else {
        1 + first_sep(s.drop_first())
    }
}

/// The `/`-separated segments of a path. The empty path yields one empty
/// segment; a separator at either end yields an empty segment there.
pub open spec fn split_path(s: Seq<char>) -> Seq<Seq<char>>
    decreases s.len(),
{
    let i = first_sep(s);
    if 0 <= i < s.len() {
        seq![s.subrange(0, i)] + split_path(s.subrange(i + 1, s.len() as int))
    } else {
        seq![s]
    }
}

/// A segment that names a real directory entry: non-empty and neither `.`
/// nor `..`.
pub open spec fn seg_is_normal(seg: Seq<char>) -> bool {
    seg.len() > 0 && seg != seq!['.'] && seg != seq!['.', '.']
}

/// Lexical normalization of a segment list: normal segments append, empty
/// and `.` segments vanish, `..` pops — `None` when a pop would rise above
/// the root.
pub open spec fn normalize_segs(segs: Seq<Seq<char>>) -> Option<Seq<Seq<char>>>
    decreases segs.len(),
{
    if segs.len() == 0 {
        Some(Seq::empty())
    } else {
        match normalize_segs(segs.drop_last()) {
            None => None,
            Some(st) => {
                let last = segs.last();
                if last.len() == 0 || last == seq!['.'] {
                    Some(st)
                } else if last == seq!['.', '.'] {
                    if st.len() == 0 {
                        None
                    } else {
                        Some(st.drop_last())
                    }
                } else {
                    Some(st.push(last))
                }
            },
        }
    }
}

/// The on-disk path for normalized segments under `root`: root joined with
/// each segment behind one separator.
pub open spec fn join_under(root: Seq<char>, segs: Seq<Seq<char>>) -> Seq<char>
    decreases segs.len(),
{
    if segs.len() == 0 {
        root
    } else {
        join_under(root, segs.drop_last()) + seq!['/'] + segs.last()
    }
}

/// The views of a vector of segment strings.
pub open spec fn seg_views(segs: Seq<String>) -> Seq<Seq<char>> {
    segs.map_values(|s: String| s@)
}

/// What `resolve` returns: the joined normalization, or `AccessDenied`.
pub open spec fn resolve_spec(root: Seq<char>, path: Seq<char>) -> Result<Seq<char>, FileError> {
    match normalize_segs(split_path(path)) {
        Some(segs) => Ok(join_under(root, segs)),
        None => Err(FileError::AccessDenied),
    }
}

/// Scanning determines `first_sep`: a prefix free of separators that ends
/// at a separator or at the end of `s` pins the value.
proof fn lemma_first_sep_at(s: Seq<char>, j: int)
    requires
        0 <= j <= s.len(),
        forall|k: int| 0 <= k < j ==> s[k] != '/',
        j < s.len() ==> s[j] == '/',
    ensures
        first_sep(s) == j,
    decreases s.len(),
{
    if s.len() == 0 {
    } else if s[0] == '/' {
    } else {
        lemma_first_sep_at(s.drop_first(), j - 1);
    }
}

/// Splits a path into its `/`-separated segments.
pub fn split_segments(path: &str) -> (segs: Vec<String>)
    ensures
        seg_views(segs@) == split_path(path@),
{
    let len = path.unicode_len();
    let mut segs: Vec<String> = Vec::new();
    let mut pos: usize = 0;
    proof {
        assert(path@.subrange(0, len as int) =~= path@);
        assert(seg_views(segs@) =~= Seq::<Seq<char>>::empty());
        assert(seg_views(segs@) + split_path(path@) =~= split_path(path@));
    }
    loop
        invariant_except_break
            split_path(path@) == seg_views(segs@) + split_path(path@.subrange(pos as int, len as int)),
        invariant
            pos <= len,
            len == path@.len(),
        ensures
            seg_views(segs@) == split_path(path@),
        decreases len - pos,
    {
        let ghost suffix = path@.subrange(pos as int, len as int);
        let mut j: usize = pos;
        while j < len && path.get_char(j) != '/'
            invariant
                pos <= j <= len,
                len == path@.len(),
                forall|k: int| pos <= k < j ==> path@[k] != '/',
            decreases len - j,
        {
            j = j + 1;
        }
        proof {
            assert forall|k: int| 0 <= k < j - pos implies suffix[k] != '/' by {
                assert(path@[pos + k] != '/');
            }
            lemma_first_sep_at(suffix, j - pos);
        }
        let seg = path.substring_char(pos, j).to_owned();
        proof {
            assert(seg@ =~= suffix.subrange(0, j - pos));
        }
        segs.push(seg);
        if j == len {
            proof {
                assert(suffix.subrange(0, j - pos) =~= suffix);
                assert(split_path(suffix) =~= seq![suffix]);
                assert(seg_views(segs@) =~= seg_views(segs@.drop_last()) + seq![suffix]);
                assert(seg_views(segs@) =~= split_path(path@));
            }
            break;
        }
        proof {
            let rest = suffix.subrange(j - pos + 1, suffix.len() as int);
            assert(split_path(suffix) == seq![suffix.subrange(0, j - pos)] + split_path(rest));
            assert(rest =~= path@.subrange(j + 1, len as int));
            assert(seg_views(segs@) =~= seg_views(segs@.drop_last()) + seq![suffix.subrange(0, j - pos)]);
            assert(split_path(path@) =~= seg_views(segs@) + split_path(path@.subrange(j + 1, len as int)));
        }
        pos = j + 1;
    }
    segs
}

/// Whether two path strings carry the same text.
pub fn string_eq_str(a: &str, b: &str) -> (r: bool)
    ensures
        r == (a@ == b@),
{
    let la = a.unicode_len();
    let lb = b.unicode_len();
    if la != lb {
        return false;
    }
    let mut i: usize = 0;
    while i < la
        invariant
            i <= la,
            la == a@.len(),
            la == b@.len(),
            forall|k: int| 0 <= k < i ==> a@[k] == b@[k],
        decreases la - i,
    {
        if a.get_char(i) != b.get_char(i) {
            return false;
        }
        i = i + 1;
    }
    proof {
        assert(a@ =~= b@);
    }
    true
}

/// Whether `seg` reads exactly `.`.
fn is_cur_dir(seg: &String) -> (r: bool)
    ensures
        r == (seg@ == seq!['.']),
{
    let r = seg.as_str().unicode_len() == 1 && seg.as_str().get_char(0) == '.';
    proof {
        if r {
            assert(seg@ =~= seq!['.']);
        }
    }
    r
}

/// Whether `seg` reads exactly `..`.
fn is_parent_dir(seg: &String) -> (r: bool)
    ensures
        r == (seg@ == seq!['.', '.']),
{
    let r = seg.as_str().unicode_len() == 2 && seg.as_str().get_char(0) == '.'
        && seg.as_str().get_char(1) == '.';
    proof {
        if r {
            assert(seg@ =~= seq!['.', '.']);
        }
    }
    r
}

/// A normalization that fails on a prefix fails on the whole list.
proof fn lemma_normalize_prefix_none(segs: Seq<Seq<char>>, i: int)
    requires
        0 <= i <= segs.len(),
        normalize_segs(segs.subrange(0, i)) is None,
    ensures
        normalize_segs(segs) is None,
    decreases segs.len() - i,
{
    if i == segs.len() {
        assert(segs.subrange(0, i) =~= segs);
    } else {
        assert(segs.subrange(0, i + 1).drop_last() =~= segs.subrange(0, i));
        lemma_normalize_prefix_none(segs, i + 1);
    }
}

/// Normalizes a segment list lexically; `AccessDenied` when a `..` would
/// rise above the root.
pub fn normalize_segments(segs: &Vec<String>) -> (r: Result<Vec<String>, FileError>)
    ensures
        (r matches Ok(out) ==> normalize_segs(seg_views(segs@)) == Some(seg_views(out@))),
        (r matches Err(e) ==> e == FileError::AccessDenied && normalize_segs(
            seg_views(segs@),
        ) is None),
{
    let mut stack: Vec<String> = Vec::new();
    let n = segs.len();
    proof {
        assert(seg_views(segs@.subrange(0, 0)) =~= Seq::<Seq<char>>::empty());
        assert(seg_views(stack@) =~= Seq::<Seq<char>>::empty());
    }
    let mut i: usize = 0;
    while i < n
        invariant
            i <= n,
            n == segs@.len(),
            normalize_segs(seg_views(segs@.subrange(0, i as int))) == Some(seg_views(stack@)),
        decreases n - i,
    {
        let ghost prefix = seg_views(segs@.subrange(0, i as int));
        let ghost next_prefix = seg_views(segs@.subrange(0, i as int + 1));
        proof {
            assert(segs@.subrange(0, i as int + 1).drop_last() =~= segs@.subrange(0, i as int));
            assert(next_prefix.drop_last() =~= prefix);
            assert(next_prefix.last() == segs@[i as int]@);
        }
        let seg = &segs[i];
        if seg.as_str().unicode_len() == 0 || is_cur_dir(seg) {
            // the segment vanishes
        } else if is_parent_dir(seg) {
            if stack.len() == 0 {
                proof {
                    assert(normalize_segs(next_prefix) is None);
                    assert(seg_views(segs@).subrange(0, i as int + 1) =~= next_prefix);
                    lemma_normalize_prefix_none(seg_views(segs@), i as int + 1);
                }
                return Err(FileError::AccessDenied);
            }
            let ghost before = stack@;
            let _ = stack.pop();
            proof {
                assert(seg_views(stack@) =~= seg_views(before).drop_last());
            }
        } else {
            let ghost before = stack@;
            stack.push(seg.clone());
            proof {
                assert(seg_views(stack@) =~= seg_views(before).push(seg@));
            }
        }
        i = i + 1;
    }
    proof {
        assert(segs@.subrange(0, n as int) =~= segs@);
    }
    Ok(stack)
}

/// Joins normalized segments under a root, one separator before each.
pub fn join_segments(root: &str, segs: &Vec<String>) -> (r: String)
    ensures
        r@ == join_under(root@, seg_views(segs@)),
{
    let mut out = root.to_owned();
    proof {
        assert(seg_views(segs@.subrange(0, 0)) =~= Seq::<Seq<char>>::empty());
    }
    let n = segs.len();
    let mut i: usize = 0;
    while i < n
        invariant
            i <= n,
            n == segs@.len(),
            out@ == join_under(root@, seg_views(segs@.subrange(0, i as int))),
        decreases n - i,
    {
        out.append("/");
        out.append(segs[i].as_str());
        proof {
            reveal_strlit("/");
            let prefix = seg_views(segs@.subrange(0, i as int));
            let next_prefix = seg_views(segs@.subrange(0, i as int + 1));
            assert(segs@.subrange(0, i as int + 1).drop_last() =~= segs@.subrange(0, i as int));
            assert(next_prefix.drop_last() =~= prefix);
            assert(next_prefix.last() == segs@[i as int]@);
            assert("/"@ =~= seq!['/']);
            assert(out@ =~= join_under(root@, next_prefix));
        }
        i = i + 1;
    }
    proof {
        assert(segs@.subrange(0, n as int) =~= segs@);
    }
    out
}

/// Resolves a logical path against a project root, purely lexically:
/// normal segments append, `..` pops, and rising above the root fails with
/// `AccessDenied` whether or not the target exists. The empty path
/// resolves to the root itself.
pub fn resolve(root: &str, path: &str) -> (r: Result<String, FileError>)
    ensures
        (r matches Ok(p) ==> resolve_spec(root@, path@) == Ok::<Seq<char>, FileError>(p@)),
        (r matches Err(e) ==> resolve_spec(root@, path@) == Err::<Seq<char>, FileError>(e)),
{
    let segs = split_segments(path);
    match normalize_segments(&segs) {
        Ok(norm) => Ok(join_segments(root, &norm)),
        Err(e) => Err(e),
    }
}

/// Number of normal segments in a list.
pub open spec fn normals(segs: Seq<Seq<char>>) -> int
    decreases segs.len(),
{
    if segs.len() == 0 {
        0
    } else {
        normals(segs.drop_last()) + if seg_is_normal(segs.last()) {
            1int
        } else {
            0int
        }
    }
}

/// Number of `..` segments in a list.
pub open spec fn parents(segs: Seq<Seq<char>>) -> int
    decreases segs.len(),
{
    if segs.len() == 0 {
        0
    } else {
        parents(segs.drop_last()) + if segs.last() == seq!['.', '.'] {
            1int
        } else {
            0int
        }
    }
}

/// While normalization succeeds, every `..` pops exactly one segment, so
/// the surviving depth is the normal count less the parent count.
proof fn lemma_normalize_depth(segs: Seq<Seq<char>>)
    requires
        normalize_segs(segs) is Some,
    ensures
        parents(segs) <= normals(segs),
        normalize_segs(segs)->0.len() == normals(segs) - parents(segs),
    decreases segs.len(),
{
    if segs.len() > 0 {
        lemma_normalize_depth(segs.drop_last());
    }
}

/// Every segment a normalization leaves behind is a normal one.
pub proof fn lemma_normalize_output_normal(segs: Seq<Seq<char>>)
    requires
        normalize_segs(segs) is Some,
    ensures
        forall|k: int|
            0 <= k < normalize_segs(segs)->0.len() ==> seg_is_normal(
                #[trigger] normalize_segs(segs)->0[k],
            ),
    decreases segs.len(),
{
    if segs.len() > 0 {
        lemma_normalize_output_normal(segs.drop_last());
        let st = normalize_segs(segs.drop_last())->0;
        let out = normalize_segs(segs)->0;
        let last = segs.last();
        if last.len() == 0 || last == seq!['.'] {
        } else if last == seq!['.', '.'] {
            assert(forall|k: int|
                0 <= k < out.len() ==> #[trigger] out[k] == st[k]);
        } else {
            assert(forall|k: int|
                0 <= k < out.len() ==> #[trigger] out[k] == if k < st.len() {
                    st[k]
                } else {
                    last
                });
        }
    }
}

/// Normalization is idempotent: what it leaves behind it leaves alone, so
/// re-resolving an already-normalized virtual path keys the same identity.
pub proof fn lemma_normalize_idempotent(segs: Seq<Seq<char>>)
    requires
        normalize_segs(segs) is Some,
    ensures
        normalize_segs(normalize_segs(segs)->0) == Some(normalize_segs(segs)->0),
{
    lemma_normalize_output_normal(segs);
    lemma_normalize_all_normal(normalize_segs(segs)->0);
}

/// Normalization keeps a path of only normal segments whole, in order.
pub proof fn lemma_normalize_all_normal(segs: Seq<Seq<char>>)
    requires
        forall|k: int| 0 <= k < segs.len() ==> seg_is_normal(#[trigger] segs[k]),
    ensures
        normalize_segs(segs) == Some(segs),
    decreases segs.len(),
{
    if segs.len() == 0 {
        assert(segs =~= Seq::<Seq<char>>::empty());
    } else {
        lemma_normalize_all_normal(segs.drop_last());
        assert(seg_is_normal(segs.last()));
        assert(segs.drop_last().push(segs.last()) =~= segs);
    }
}

/// A joined path starts with its root.
pub proof fn lemma_join_under_prefix(root: Seq<char>, segs: Seq<Seq<char>>)
    ensures
        join_under(root, segs).len() >= root.len(),
        join_under(root, segs).subrange(0, root.len() as int) == root,
    decreases segs.len(),
{
    if segs.len() == 0 {
        assert(join_under(root, segs).subrange(0, root.len() as int) =~= root);
    } else {
        lemma_join_under_prefix(root, segs.drop_last());
        assert(join_under(root, segs).subrange(0, root.len() as int) =~= join_under(
            root,
            segs.drop_last(),
        ).subrange(0, root.len() as int));
    }
}

/// A path of only normal segments resolves under its root, with the
/// segments kept whole and in order, and the result starts with the root.
pub proof fn lemma_resolve_normal_path(root: Seq<char>, path: Seq<char>)
    requires
        forall|k: int|
            0 <= k < split_path(path).len() ==> seg_is_normal(#[trigger] split_path(path)[k]),
    ensures
        resolve_spec(root, path) == Ok::<Seq<char>, FileError>(
            join_under(root, split_path(path)),
        ),
        join_under(root, split_path(path)).len() >= root.len(),
        join_under(root, split_path(path)).subrange(0, root.len() as int) == root,
{
    lemma_normalize_all_normal(split_path(path));
    lemma_join_under_prefix(root, split_path(path));
}

/// A path with enough `..` segments to rise above the root resolves to
/// `AccessDenied`, regardless of whether any target exists: resolution is
/// purely lexical.
pub proof fn lemma_resolve_escape_denied(root: Seq<char>, path: Seq<char>)
    requires
        exists|i: int|
            0 <= i < split_path(path).len() && #[trigger] split_path(path)[i] == seq!['.', '.']
                && parents(split_path(path).subrange(0, i)) >= normals(
                split_path(path).subrange(0, i),
            ),
    ensures
        resolve_spec(root, path) == Err::<Seq<char>, FileError>(FileError::AccessDenied),
{
    let segs = split_path(path);
    let i = choose|i: int|
        0 <= i < segs.len() && #[trigger] segs[i] == seq!['.', '.'] && parents(
            segs.subrange(0, i),
        ) >= normals(segs.subrange(0, i));
    let pre = segs.subrange(0, i);
    if normalize_segs(pre) is None {
        lemma_normalize_prefix_none(segs, i);
    } else {
        lemma_normalize_depth(pre);
        let st = normalize_segs(pre)->0;
        assert(st.len() == 0);
        assert(segs.subrange(0, i + 1).drop_last() =~= pre);
        assert(segs.subrange(0, i + 1).last() == seq!['.', '.']);
        assert(normalize_segs(segs.subrange(0, i + 1)) is None);
        lemma_normalize_prefix_none(segs, i + 1);
    }
}

} // verus!
