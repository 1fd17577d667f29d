//! Font discovery and the lazy font catalog.
//!
//! Discovery unions, without deduplication, the platform font directories
//! and any caller-supplied extra directories, walks each recursively with
//! symlinks followed, keeps the recognized font-container extensions, and
//! orders the files lexicographically, so identical directory contents
//! yield identical orderings and identical (path, index) pairs. Each
//! container may hold several logical fonts; each becomes one record with
//! the container path and its index inside it. Record indices are stable
//! for the process lifetime and lookup is positional. The binary payload
//! is loaded on first real use and cached; one that fails to load yields
//! an absent result without invalidating the rest of the catalog.

use vstd::prelude::*;

verus! {

use vstd::relations::{sorted_by, total_ordering, reflexive, transitive, antisymmetric,
    strongly_connected};
use vstd::seq_lib::lemma_sorted_unique;
use vstd::string::*;

/// Lexicographic order on text, by scalar value.
pub open spec fn lex_le(a: Seq<char>, b: Seq<char>) -> bool
    decreases a.len(),
{
    if a.len() == 0 {
        true
    } else if b.len() == 0 {
        false
    } else if (a[0] as u32) < (b[0] as u32) {
        true
    } else if (a[0] as u32) > (b[0] as u32) {
        false
    } else {
        lex_le(a.drop_first(), b.drop_first())
    }
}

/// The order as a relation value, for the sortedness predicates.
pub open spec fn lex_leq() -> spec_fn(Seq<char>, Seq<char>) -> bool {
    |a: Seq<char>, b: Seq<char>| lex_le(a, b)
}

proof fn lemma_lex_le_refl(a: Seq<char>)
    ensures
        lex_le(a, a),
    decreases a.len(),
{
    if a.len() > 0 {
        lemma_lex_le_refl(a.drop_first());
    }
}

proof fn lemma_lex_le_trans(a: Seq<char>, b: Seq<char>, c: Seq<char>)
    requires
        lex_le(a, b),
        lex_le(b, c),
    ensures
        lex_le(a, c),
    decreases a.len(),
{
    if a.len() > 0 && b.len() > 0 && c.len() > 0 {
        if (a[0] as u32) == (b[0] as u32) && (b[0] as u32) == (c[0] as u32) {
            lemma_lex_le_trans(a.drop_first(), b.drop_first(), c.drop_first());
        }
    }
}

/// Two scalar values that agree as code points are one character.
proof fn lemma_char_inj(x: char, y: char)
    requires
        x as u32 == y as u32,
    ensures
        x == y,
{
}

proof fn lemma_lex_le_antisym(a: Seq<char>, b: Seq<char>)
    requires
        lex_le(a, b),
        lex_le(b, a),
    ensures
        a == b,
    decreases a.len(),
{
    if a.len() == 0 {
        assert(a =~= b);
    } else {
        assert(b.len() > 0);
        if (a[0] as u32) < (b[0] as u32) {
            assert(!lex_le(b, a));
        } else if (a[0] as u32) > (b[0] as u32) {
            assert(!lex_le(a, b));
        } else {
            assert(a[0] as u32 == b[0] as u32);
            lemma_char_inj(a[0], b[0]);
            lemma_lex_le_antisym(a.drop_first(), b.drop_first());
            assert(a =~= b) by {
                assert(forall|i: int|
                    1 <= i < a.len() ==> a[i] == a.drop_first()[i - 1] && b[i] == b.drop_first()[
                        i - 1]);
            }
        }
    }
}

proof fn lemma_lex_le_connected(a: Seq<char>, b: Seq<char>)
    ensures
        lex_le(a, b) || lex_le(b, a),
    decreases a.len(),
{
    if a.len() > 0 && b.len() > 0 && (a[0] as u32) == (b[0] as u32) {
        lemma_lex_le_connected(a.drop_first(), b.drop_first());
    }
}

/// The lexicographic order is a total order.
pub proof fn lemma_lex_le_total_ordering()
    ensures
        total_ordering(lex_leq()),
{
    let leq = lex_leq();
    assert(reflexive(leq)) by {
        assert forall|a: Seq<char>| #[trigger] leq(a, a) by {
            lemma_lex_le_refl(a);
        }
    }
    assert(transitive(leq)) by {
        assert forall|a: Seq<char>, b: Seq<char>, c: Seq<char>|
            #[trigger] leq(a, b) && #[trigger] leq(b, c) implies leq(a, c) by {
            lemma_lex_le_trans(a, b, c);
        }
    }
    assert(antisymmetric(leq)) by {
        assert forall|a: Seq<char>, b: Seq<char>|
            #[trigger] leq(a, b) && #[trigger] leq(b, a) implies a == b by {
            lemma_lex_le_antisym(a, b);
        }
    }
    assert(strongly_connected(leq)) by {
        assert forall|a: Seq<char>, b: Seq<char>| #[trigger] leq(a, b) || #[trigger] leq(b, a) by {
            lemma_lex_le_connected(a, b);
        }
    }
}

/// Discovery order is deterministic: sorted orderings of the same files
/// are one and the same, so identical directory contents — however the
/// walk enumerated them — yield identical orderings, and with them
/// identical (path, index) pairs.
pub proof fn lemma_discovery_order_unique(x: Seq<Seq<char>>, y: Seq<Seq<char>>)
    requires
        sorted_by(x, lex_leq()),
        sorted_by(y, lex_leq()),
        x.to_multiset() == y.to_multiset(),
    ensures
        x == y,
{
    lemma_lex_le_total_ordering();
    lemma_sorted_unique(x, y, lex_leq());
}

/// Whether `a` is lexicographically at most `b`.
pub fn lex_le_exec(a: &str, b: &str) -> (r: bool)
    ensures
        r == lex_le(a@, b@),
{
    let la = a.unicode_len();
    let lb = b.unicode_len();
    let mut i: usize = 0;
    proof {
        assert(a@.skip(0) =~= a@);
        assert(b@.skip(0) =~= b@);
    }
    loop
        invariant
            i <= la,
            i <= lb,
            la == a@.len(),
            lb == b@.len(),
            lex_le(a@, b@) == lex_le(a@.skip(i as int), b@.skip(i as int)),
        decreases la - i,
    {
        if i == la {
            proof {
                assert(lex_le(a@.skip(i as int), b@.skip(i as int)));
            }
            return true;
        }
        if i == lb {
            proof {
                assert(a@.skip(i as int).len() > 0 && b@.skip(i as int).len() == 0);
                assert(!lex_le(a@.skip(i as int), b@.skip(i as int)));
            }
            return false;
        }
        let ca = a.get_char(i);
        let cb = b.get_char(i);
        proof {
            assert(a@.skip(i as int)[0] == a@[i as int]);
            assert(b@.skip(i as int)[0] == b@[i as int]);
        }
        if (ca as u32) < (cb as u32) {
            return true;
        }
        if (ca as u32) > (cb as u32) {
            return false;
        }
        proof {
            assert(a@.skip(i as int).drop_first() =~= a@.skip(i as int + 1));
            assert(b@.skip(i as int).drop_first() =~= b@.skip(i as int + 1));
        }
        i = i + 1;
    }
}

/// Sorts paths lexicographically: the result is sorted and carries
/// exactly the input's paths — with `lemma_discovery_order_unique`, the
/// one sorted arrangement of them.
pub fn sort_paths(v: Vec<String>) -> (r: Vec<String>)
    ensures
        sorted_by(crate::sandbox::seg_views(r@), lex_leq()),
        crate::sandbox::seg_views(r@).to_multiset() == crate::sandbox::seg_views(
            v@,
        ).to_multiset(),
{
    broadcast use vstd::seq_lib::group_to_multiset_ensures;
    broadcast use vstd::seq_lib::to_multiset_insert;

    let mut out: Vec<String> = Vec::new();
    let n = v.len();
    proof {
        lemma_lex_le_total_ordering();
        assert(crate::sandbox::seg_views(out@) =~= Seq::<Seq<char>>::empty());
        assert(crate::sandbox::seg_views(v@.subrange(0, 0)) =~= Seq::<Seq<char>>::empty());
        assert(crate::sandbox::seg_views(out@).to_multiset() =~= crate::sandbox::seg_views(
            v@.subrange(0, 0),
        ).to_multiset());
    }
    let mut i: usize = 0;
    while i < n
        invariant
            i <= n,
            n == v@.len(),
            total_ordering(lex_leq()),
            sorted_by(crate::sandbox::seg_views(out@), lex_leq()),
            crate::sandbox::seg_views(out@).to_multiset() == crate::sandbox::seg_views(
                v@.subrange(0, i as int),
            ).to_multiset(),
        decreases n - i,
    {
        broadcast use vstd::seq_lib::group_to_multiset_ensures;
        broadcast use vstd::seq_lib::to_multiset_insert;

        let x = v[i].clone();
        let ghost s = crate::sandbox::seg_views(out@);
        let mut k: usize = 0;
        while k < out.len() && lex_le_exec(out[k].as_str(), x.as_str())
            invariant
                k <= out@.len(),
                crate::sandbox::seg_views(out@) == s,
                x@ == v@[i as int]@,
                forall|m: int| 0 <= m < k ==> lex_le(s[m], x@),
            decreases out@.len() - k,
        {
            proof {
                assert(s[k as int] == out@[k as int]@);
            }
            k = k + 1;
        }
        proof {
            if (k as int) < s.len() {
                assert(!lex_le(out@[k as int]@, x@));
                assert(lex_leq()(out@[k as int]@, x@) || lex_leq()(x@, out@[k as int]@));
                assert(lex_le(x@, s[k as int]));
            }
            assert forall|m: int| k <= m < s.len() implies lex_le(x@, s[m]) by {
                if m > k {
                    assert(lex_leq()(s[k as int], s[m]));
                    assert(lex_leq()(x@, s[k as int]) && lex_leq()(s[k as int], s[m])
                        ==> lex_leq()(x@, s[m]));
                }
            }
        }
        let ghost before = out@;
        out.insert(k, x);
        proof {
            before.insert_ensures(k as int, x);
            let t = crate::sandbox::seg_views(out@);
            assert(t =~= s.insert(k as int, x@)) by {
                s.insert_ensures(k as int, x@);
                assert forall|p: int| 0 <= p < t.len() implies t[p] == s.insert(k as int, x@)[p] by {
                    assert(t[p] == out@[p]@);
                    if p < k {
                        assert(out@[p] == before[p]);
                    } else if p == k {
                        assert(out@[p] == x);
                    } else {
                        assert(out@[p] == before[p - 1]);
                    }
                }
            }
            assert(sorted_by(t, lex_leq())) by {
                s.insert_ensures(k as int, x@);
                assert forall|p: int, q: int| 0 <= p < q < t.len() implies lex_leq()(t[p], t[q]) by {
                    if q < k {
                        assert(lex_leq()(s[p], s[q]));
                    } else if p > k {
                        assert(lex_leq()(s[p - 1], s[q - 1]));
                    } else if p == k && q > k {
                        assert(lex_le(x@, s[q - 1]));
                    } else if p < k && q == k {
                        assert(lex_le(s[p], x@));
                    } else if p < k && q > k {
                        assert(lex_leq()(s[p], s[q - 1]));
                    }
                }
            }
            assert(t.to_multiset() =~= s.to_multiset().insert(x@));
            assert(crate::sandbox::seg_views(v@.subrange(0, i as int + 1)) =~= crate::sandbox::seg_views(
                v@.subrange(0, i as int),
            ).push(v@[i as int]@)) by {
                assert(v@.subrange(0, i as int + 1).drop_last() =~= v@.subrange(0, i as int));
            }
        }
        i = i + 1;
    }
    proof {
        assert(v@.subrange(0, n as int) =~= v@);
    }
    out
}

/// Whether `suffix` ends `s`.
pub open spec fn ends_with(s: Seq<char>, suffix: Seq<char>) -> bool {
    s.len() >= suffix.len() && s.subrange(s.len() - suffix.len(), s.len() as int) == suffix
}

/// Whether a path carries one of the recognized font-container
/// extensions.
pub open spec fn is_font_file(s: Seq<char>) -> bool {
    ||| ends_with(s, ".ttf"@)
    ||| ends_with(s, ".otf"@)
    ||| ends_with(s, ".TTF"@)
    ||| ends_with(s, ".OTF"@)
    ||| ends_with(s, ".ttc"@)
    ||| ends_with(s, ".otc"@)
    ||| ends_with(s, ".TTC"@)
    ||| ends_with(s, ".OTC"@)
}

/// Whether a path names a recognized font container.
pub fn has_font_extension(path: &str) -> (r: bool)
    ensures
        r == is_font_file(path@),
{
    proof {
        reveal_strlit(".ttf");
        reveal_strlit(".otf");
        reveal_strlit(".TTF");
        reveal_strlit(".OTF");
        reveal_strlit(".ttc");
        reveal_strlit(".otc");
        reveal_strlit(".TTC");
        reveal_strlit(".OTC");
    }
    let len = path.unicode_len();
    if len < 4 {
        return false;
    }
    let suffix = path.substring_char(len - 4, len);
    crate::sandbox::string_eq_str(suffix, ".ttf") || crate::sandbox::string_eq_str(suffix, ".otf")
        || crate::sandbox::string_eq_str(suffix, ".TTF") || crate::sandbox::string_eq_str(
        suffix,
        ".OTF",
    ) || crate::sandbox::string_eq_str(suffix, ".ttc") || crate::sandbox::string_eq_str(
        suffix,
        ".otc",
    ) || crate::sandbox::string_eq_str(suffix, ".TTC") || crate::sandbox::string_eq_str(
        suffix,
        ".OTC",
    )
}

/// Relies on walkdir::WalkDir: every entry under `root`, recursively,
/// symlinks followed; unreadable entries and paths that are not valid
/// text are skipped silently. The enumeration order depends on the
/// machine; callers sort.
#[verifier::external_body]
fn walk_paths(root: &String) -> (r: Vec<String>) {
    let mut out: Vec<String> = Vec::new();
    let walk = walkdir::WalkDir::new(root.as_str()).follow_links(true);
    for entry in walk.into_iter().filter_map(|e| e.ok()) {
        if let Some(s) = entry.path().to_str() {
            out.push(s.to_owned());
        }
    }
    out
}

/// Relies on dirs::font_dir: the per-user font directory, when the
/// platform defines one and its path is valid text.
#[verifier::external_body]
fn font_dir_path() -> (r: Option<String>) {
    dirs::font_dir().and_then(|p| p.to_str().map(|s| s.to_owned()))
}

/// The directories discovery searches before any caller-supplied extras:
/// the system font directories, then the per-user font directory when the
/// platform has one.
pub fn system_font_dirs() -> (r: Vec<String>)
    ensures
        r@.len() >= 2,
        r@[0]@ == "/usr/share/fonts"@,
        r@[1]@ == "/usr/local/share/fonts"@,
{
    let mut dirs_list: Vec<String> = Vec::new();
    dirs_list.push("/usr/share/fonts".to_owned());
    dirs_list.push("/usr/local/share/fonts".to_owned());
    if let Some(d) = font_dir_path() {
        dirs_list.push(d);
    }
    dirs_list
}

/// The font-container predicate as a relation value.
pub open spec fn font_filter() -> spec_fn(Seq<char>) -> bool {
    |s: Seq<char>| is_font_file(s)
}

/// The canonical font list of one walked listing: exactly the names with
/// a recognized extension, in sorted order.
pub open spec fn canonical_fonts(listing: Seq<Seq<char>>) -> Seq<Seq<char>> {
    listing.filter(font_filter()).sort_by(lex_leq())
}

/// Keeps exactly the recognized font containers of one walked listing, in
/// the canonical sorted order: every listed name with a recognized
/// extension is kept, as many times as it was listed, and nothing else.
pub fn font_files_of_listing(listing: &Vec<String>) -> (r: Vec<String>)
    ensures
        crate::sandbox::seg_views(r@) == canonical_fonts(crate::sandbox::seg_views(listing@)),
        crate::sandbox::seg_views(r@).to_multiset() == crate::sandbox::seg_views(
            listing@,
        ).filter(font_filter()).to_multiset(),
        sorted_by(crate::sandbox::seg_views(r@), lex_leq()),
        forall|i: int| 0 <= i < r@.len() ==> is_font_file(#[trigger] r@[i]@),
{
    broadcast use vstd::seq_lib::group_to_multiset_ensures;

    let ghost lv = crate::sandbox::seg_views(listing@);
    let mut kept: Vec<String> = Vec::new();
    let n = listing.len();
    proof {
        reveal(Seq::filter);
        assert(lv.take(0) =~= Seq::<Seq<char>>::empty());
        assert(crate::sandbox::seg_views(kept@) =~= Seq::<Seq<char>>::empty());
    }
    let mut i: usize = 0;
    while i < n
        invariant
            i <= n,
            n == listing@.len(),
            lv == crate::sandbox::seg_views(listing@),
            crate::sandbox::seg_views(kept@) == lv.take(i as int).filter(font_filter()),
        decreases n - i,
    {
        let ghost prefix = lv.take(i as int);
        let ghost next = lv.take(i as int + 1);
        proof {
            reveal(Seq::filter);
            assert(next.drop_last() =~= prefix);
            assert(next.last() == listing@[i as int]@);
        }
        if has_font_extension(listing[i].as_str()) {
            let ghost before = kept@;
            kept.push(listing[i].clone());
            proof {
                reveal(Seq::filter);
                assert(crate::sandbox::seg_views(kept@) =~= crate::sandbox::seg_views(
                    before,
                ).push(listing@[i as int]@));
                assert(font_filter()(next.last()));
                assert(next.filter(font_filter()) == prefix.filter(font_filter()).push(
                    next.last(),
                ));
            }
        } else {
            proof {
                reveal(Seq::filter);
                assert(!font_filter()(next.last()));
                assert(next.filter(font_filter()) == prefix.filter(font_filter()));
            }
        }
        i = i + 1;
    }
    proof {
        assert(lv.take(n as int) =~= lv);
    }
    let sorted = sort_paths(kept);
    proof {
        broadcast use vstd::seq_lib::group_filter_ensures;

        lemma_lex_le_total_ordering();
        let fv = lv.filter(font_filter());
        let sv = crate::sandbox::seg_views(sorted@);
        fv.lemma_sort_by_ensures(lex_leq());
        lemma_sorted_unique(sv, fv.sort_by(lex_leq()), lex_leq());
        assert(sv == canonical_fonts(lv));
        assert forall|k: int| 0 <= k < sorted@.len() implies is_font_file(#[trigger] sorted@[k]@) by {
            assert(sorted@[k]@ == sv[k]);
            assert(sv[k] == fv.sort_by(lex_leq())[k]);
            assert(fv.sort_by(lex_leq()).to_multiset().contains(sv[k]));
            assert(fv.to_multiset().contains(sv[k]));
            assert(fv.contains(sv[k]));
            let j = choose|j: int| 0 <= j < fv.len() && fv[j] == sv[k];
            assert(font_filter()(fv[j]));
        }
    }
    sorted
}

/// The font containers of one directory, in the canonical order: the
/// canonical font list of whatever the walk of the directory returned —
/// recognized extensions only, sorted lexicographically, so identical
/// directory contents yield identical orderings.
pub fn candidate_files(dir: &String) -> (r: Vec<String>)
    ensures
        exists|l: Seq<Seq<char>>| crate::sandbox::seg_views(r@) == #[trigger] canonical_fonts(l),
        sorted_by(crate::sandbox::seg_views(r@), lex_leq()),
        forall|i: int| 0 <= i < r@.len() ==> is_font_file(#[trigger] r@[i]@),
{
    let listing = walk_paths(dir);
    let r = font_files_of_listing(&listing);
    proof {
        let lv = crate::sandbox::seg_views(listing@);
        assert(crate::sandbox::seg_views(r@) == canonical_fonts(lv));
    }
    r
}

/// The concatenation of the canonical font lists of one walked listing
/// per directory, in directory order.
pub open spec fn concat_canonical(ls: Seq<Seq<Seq<char>>>) -> Seq<Seq<char>>
    decreases ls.len(),
{
    if ls.len() == 0 {
        Seq::empty()
    } else {
        concat_canonical(ls.drop_last()) + canonical_fonts(ls.last())
    }
}

/// Every font container under each of the given directories, walked in
/// the given order: the concatenation, directory by directory, of the
/// canonical font list of each directory's walk — each directory's files
/// in sorted order, and the union not deduplicated, so a file reachable
/// under two directories appears twice, as two distinct records will.
pub fn discover_files(dirs: &Vec<String>) -> (files: Vec<String>)
    ensures
        exists|ls: Seq<Seq<Seq<char>>>|
            ls.len() == dirs@.len() && crate::sandbox::seg_views(files@)
                == #[trigger] concat_canonical(ls),
        forall|i: int| 0 <= i < files@.len() ==> is_font_file(#[trigger] files@[i]@),
{
    let mut out: Vec<String> = Vec::new();
    let ghost mut walked: Seq<Seq<Seq<char>>> = Seq::empty();
    let n = dirs.len();
    proof {
        assert(crate::sandbox::seg_views(out@) =~= concat_canonical(walked));
    }
    let mut i: usize = 0;
    while i < n
        invariant
            i <= n,
            n == dirs@.len(),
            walked.len() == i,
            crate::sandbox::seg_views(out@) == concat_canonical(walked),
            forall|k: int| 0 <= k < out@.len() ==> is_font_file(#[trigger] out@[k]@),
        decreases n - i,
    {
        let ghost before = out@;
        let listing = walk_paths(&dirs[i]);
        let mut found = font_files_of_listing(&listing);
        let ghost found_view = found@;
        out.append(&mut found);
        proof {
            let lv = crate::sandbox::seg_views(listing@);
            let prev = walked;
            walked = walked.push(lv);
            assert(walked.drop_last() =~= prev);
            assert(walked.last() == lv);
            assert(concat_canonical(walked) == concat_canonical(prev) + canonical_fonts(lv));
            assert(crate::sandbox::seg_views(out@) =~= crate::sandbox::seg_views(before)
                + crate::sandbox::seg_views(found_view));
            assert(crate::sandbox::seg_views(out@) =~= concat_canonical(walked));
            assert forall|k: int| 0 <= k < out@.len() implies is_font_file(
                #[trigger] out@[k]@,
            ) by {
                if k < before.len() {
                    assert(out@[k] == before[k]);
                } else {
                    assert(out@[k] == found_view[k - before.len()]);
                }
            }
        }
        i = i + 1;
    }
    out
}

/// The lazily loaded binary payload of one font: unloaded until first
/// real use, then the loaded bytes, or absent when loading failed — which
/// invalidates nothing else in the catalog.
pub enum LazyFont {
    Unloaded,
    Loaded(Vec<u8>),
    Absent,
}

/// One discovered font: its container file — the empty path names an
/// embedded container — its index inside the container, and the lazily
/// loaded payload.
pub struct FontSlot {
    pub path: String,
    pub index: u32,
    pub font: LazyFont,
}

/// The catalog of discovered fonts. Records are appended at discovery
/// and never move: indices are stable for the process lifetime and
/// lookup is positional.
pub struct FontSearcher {
    pub fonts: Vec<FontSlot>,
}

impl FontSearcher {
    /// An empty catalog.
    pub fn new() -> (s: Self)
        ensures
            s.fonts@.len() == 0,
    {
        FontSearcher { fonts: Vec::new() }
    }

    /// Registers one container file holding `count` logical fonts: one
    /// record for each, carrying the container path and the font's index
    /// inside it, with the payload left unloaded. Existing records keep
    /// their places.
    pub fn register_file(&mut self, path: &String, count: u32)
        requires
            old(self).fonts@.len() + count <= usize::MAX,
        ensures
            final(self).fonts@.len() == old(self).fonts@.len() + count,
            forall|k: int|
                0 <= k < old(self).fonts@.len() ==> final(self).fonts@[k] == old(self).fonts@[k],
            forall|j: int|
                0 <= j < count ==> {
                    let slot = #[trigger] final(self).fonts@[old(self).fonts@.len() + j];
                    &&& slot.path@ == path@
                    &&& slot.index == j
                    &&& slot.font is Unloaded
                },
    {
        let mut j: u32 = 0;
        while j < count
            invariant
                j <= count,
                self.fonts@.len() == old(self).fonts@.len() + j,
                forall|k: int|
                    0 <= k < old(self).fonts@.len() ==> self.fonts@[k] == old(self).fonts@[k],
                forall|m: int|
                    0 <= m < j ==> {
                        let slot = #[trigger] self.fonts@[old(self).fonts@.len() + m];
                        &&& slot.path@ == path@
                        &&& slot.index == m
                        &&& slot.font is Unloaded
                    },
                old(self).fonts@.len() + count <= usize::MAX,
            decreases count - j,
    {
            self.fonts.push(FontSlot { path: path.clone(), index: j, font: LazyFont::Unloaded });
            j = j + 1;
        }
    }

    /// How many fonts the catalog holds.
    pub fn len(&self) -> (n: usize)
        ensures
            n == self.fonts@.len(),
    {
        self.fonts.len()
    }

    /// The container path and intra-container index of one record —
    /// lookup is positional and the pairs never change.
    pub fn record_at(&self, id: usize) -> (r: (String, u32))
        requires
            id < self.fonts@.len(),
        ensures
            r.0@ == self.fonts@[id as int].path@,
            r.1 == self.fonts@[id as int].index,
    {
        (self.fonts[id].path.clone(), self.fonts[id].index)
    }

    /// Serves one font's payload, loading it lazily: on the first real
    /// use the caller hands in what loading gave — the payload, or `None`
    /// for a font that failed to load, which is cached as absent without
    /// invalidating the rest of the catalog. Afterwards the cached
    /// payload, or the cached absence, answers; no record moves.
    pub fn font_data(&mut self, id: usize, payload: Option<Option<Vec<u8>>>) -> (r: Option<
        Vec<u8>,
    >)
        requires
            id < old(self).fonts@.len(),
            (old(self).fonts@[id as int].font is Unloaded ==> payload is Some),
        ensures
            final(self).fonts@.len() == old(self).fonts@.len(),
            forall|k: int|
                0 <= k < old(self).fonts@.len() && k != id ==> final(self).fonts@[k] == old(
                    self,
                ).fonts@[k],
            final(self).fonts@[id as int].path@ == old(self).fonts@[id as int].path@,
            final(self).fonts@[id as int].index == old(self).fonts@[id as int].index,
            (match old(self).fonts@[id as int].font {
                LazyFont::Unloaded => (match payload->0 {
                    Some(b) => (final(self).fonts@[id as int].font matches LazyFont::Loaded(c)
                        && c@ == b@) && (r matches Some(d) && d@ == b@),
                    None => final(self).fonts@[id as int].font is Absent && r is None,
                }),
                LazyFont::Loaded(b) => final(self).fonts@[id as int].font == old(
                    self,
                ).fonts@[id as int].font && (r matches Some(d) && d@ == b@),
                LazyFont::Absent => final(self).fonts@[id as int].font == old(
                    self,
                ).fonts@[id as int].font && r is None,
            }),
    {
        match &self.fonts[id].font {
            LazyFont::Loaded(b) => {
                return Some(crate::world::clone_bytes(b));
            },
            LazyFont::Absent => {
                return None;
            },
            LazyFont::Unloaded => {},
        }
        let path = self.fonts[id].path.clone();
        let index = self.fonts[id].index;
        match payload.unwrap() {
            Some(b) => {
                let served = crate::world::clone_bytes(&b);
                self.fonts.set(id, FontSlot { path, index, font: LazyFont::Loaded(b) });
                Some(served)
            },
            None => {
                self.fonts.set(id, FontSlot { path, index, font: LazyFont::Absent });
                None
            },
        }
    }
}

/// How many logical fonts a container file holds, from its header: a
/// collection — the tag `ttcf` — declares its count big-endian at offset
/// eight; any other container holds one font.
pub open spec fn font_count_spec(h: Seq<u8>) -> int {
    if h.len() >= 12 && h[0] == 0x74u8 && h[1] == 0x74u8 && h[2] == 0x63u8 && h[3] == 0x66u8 {
        (h[8] as int) * 0x1000000 + (h[9] as int) * 0x10000 + (h[10] as int) * 0x100 + (
        h[11] as int)
    } else {
        1
    }
}

/// Reads the number of logical fonts out of a container's header.
pub fn collection_font_count(header: &Vec<u8>) -> (n: u64)
    ensures
        n as int == font_count_spec(header@),
{
    if header.len() >= 12 && header[0] == 0x74u8 && header[1] == 0x74u8 && header[2] == 0x63u8
        && header[3] == 0x66u8 {
        (header[8] as u64) * 0x1000000 + (header[9] as u64) * 0x10000 + (header[10] as u64) * 0x100
            + (header[11] as u64)
    } else {
        1
    }
}

} // verus!
