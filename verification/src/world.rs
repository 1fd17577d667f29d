//! The slot cache and the compiler-facing world.
//!
//! A `FileIdentity` — an optional package scope plus a normalized virtual
//! path — keys at most one `Slot`. Each slot holds two independently lazy
//! results, a text form and a byte form, each a tri-state: uncomputed,
//! ready, or failed. A computed result is only ever overwritten, never
//! reset to uncomputed. Disk contents enter through explicit `DiskRead`
//! values handed in by the caller, so an update with explicit content
//! takes no disk read and an update without one takes exactly one.

use vstd::prelude::*;

use crate::error::{FileError, WorldError};
use crate::package::PackageSpec;
use crate::sandbox;

verus! {

use vstd::string::*;

/// The view of a file identity: optional package scope and the normalized
/// virtual path segments.
pub type IdentityView = (Option<(Seq<char>, Seq<char>, Seq<char>)>, Seq<Seq<char>>);

/// The stable cache key: an optional package scope and a normalized
/// virtual path, independent of on-disk resolution.
pub struct FileIdentity {
    pub package: Option<PackageSpec>,
    pub vpath: Vec<String>,
}

impl View for FileIdentity {
    type V = IdentityView;

    open spec fn view(&self) -> IdentityView {
        (
            match self.package {
                Some(p) => Some(p@),
                None => None,
            },
            sandbox::seg_views(self.vpath@),
        )
    }
}

impl Clone for FileIdentity {
    fn clone(&self) -> (r: Self)
        ensures
            r@ == self@,
    {
        let package = match &self.package {
            Some(p) => Some(p.clone()),
            None => None,
        };
        let vpath = clone_segments(&self.vpath);
        proof {
            assert(sandbox::seg_views(vpath@) =~= sandbox::seg_views(self.vpath@));
        }
        FileIdentity { package, vpath }
    }
}

/// Clones a segment vector, keeping each segment's view.
fn clone_segments(segs: &Vec<String>) -> (r: Vec<String>)
    ensures
        r@.len() == segs@.len(),
        forall|i: int| 0 <= i < segs@.len() ==> #[trigger] r@[i]@ == segs@[i]@,
{
    let mut out: Vec<String> = Vec::new();
    let n = segs.len();
    let mut i: usize = 0;
    while i < n
        invariant
            i <= n,
            n == segs@.len(),
            out@.len() == i,
            forall|k: int| 0 <= k < i ==> #[trigger] out@[k]@ == segs@[k]@,
        decreases n - i,
    {
        out.push(segs[i].clone());
        i = i + 1;
    }
    out
}

/// Whether two segment vectors carry the same text.
fn segments_eq(a: &Vec<String>, b: &Vec<String>) -> (r: bool)
    ensures
        r == (sandbox::seg_views(a@) == sandbox::seg_views(b@)),
{
    if a.len() != b.len() {
        proof {
            assert(sandbox::seg_views(a@).len() != sandbox::seg_views(b@).len());
        }
        return false;
    }
    let n = a.len();
    let mut i: usize = 0;
    while i < n
        invariant
            i <= n,
            n == a@.len() && n == b@.len(),
            forall|k: int| 0 <= k < i ==> #[trigger] a@[k]@ == b@[k]@,
        decreases n - i,
    {
        if !a[i].eq(&b[i]) {
            proof {
                assert(sandbox::seg_views(a@)[i as int] != sandbox::seg_views(b@)[i as int]);
            }
            return false;
        }
        i = i + 1;
    }
    proof {
        assert(sandbox::seg_views(a@) =~= sandbox::seg_views(b@));
    }
    true
}

/// Whether two optional package scopes are the same.
fn package_eq(a: &Option<PackageSpec>, b: &Option<PackageSpec>) -> (r: bool)
    ensures
        r == ((match a {
            Some(p) => Some(p@),
            None => None,
        }) == (match b {
            Some(q) => Some(q@),
            None => None,
        })),
{
    match (a, b) {
        (None, None) => true,
        (Some(p), Some(q)) => {
            p.namespace.eq(&q.namespace) && p.name.eq(&q.name) && p.version.eq(&q.version)
        },
        _ => false,
    }
}

impl FileIdentity {
    /// Whether two identities name the same slot.
    pub fn same_identity(&self, other: &FileIdentity) -> (r: bool)
        ensures
            r == (self@ == other@),
    {
        package_eq(&self.package, &other.package) && segments_eq(&self.vpath, &other.vpath)
    }
}

/// One lazily computed result: uncomputed until first demanded, then ready
/// or failed. Once computed it is only overwritten, never reset.
pub enum LazyResult<T> {
    Uncomputed,
    Ready(T),
    Failed(FileError),
}

/// What one read of a file from disk returned, in both of the forms a slot
/// caches. The caller performs the single read and derives both.
pub struct DiskRead {
    pub text: Result<String, FileError>,
    pub bytes: Result<Vec<u8>, FileError>,
}

/// The cache entry for one file identity.
pub struct Slot {
    pub id: FileIdentity,
    /// The resolved on-disk path the slot reads from.
    pub resolved: String,
    pub text: LazyResult<String>,
    pub bytes: LazyResult<Vec<u8>>,
}

/// Whether a slot list keys each identity at most once.
pub open spec fn slots_distinct(slots: Seq<Slot>) -> bool {
    forall|i: int, j: int|
        0 <= i < j < slots.len() ==> (#[trigger] slots[i].id)@ != (#[trigger] slots[j].id)@
}

/// Whether `slots` holds a slot for `idv`.
pub open spec fn has_slot(slots: Seq<Slot>, idv: IdentityView) -> bool {
    exists|j: int| 0 <= j < slots.len() && (#[trigger] slots[j].id)@ == idv
}

/// The index of the slot for `idv`, or `slots.len()` when there is none.
pub open spec fn slot_index_of(slots: Seq<Slot>, idv: IdentityView) -> int {
    if has_slot(slots, idv) {
        choose|j: int| 0 <= j < slots.len() && (#[trigger] slots[j].id)@ == idv
    } else {
        slots.len() as int
    }
}

/// One identity keys at most one slot: in a distinct slot list any two
/// slots that carry the same identity are the same slot, so a second
/// resolution of an identity always lands on the first one's slot.
pub proof fn lemma_one_slot_per_identity(slots: Seq<Slot>, idv: IdentityView)
    requires
        slots_distinct(slots),
    ensures
        forall|i: int, j: int|
            (0 <= i < slots.len() && 0 <= j < slots.len() && (#[trigger] slots[i].id)@ == idv
                && (#[trigger] slots[j].id)@ == idv) ==> i == j,
        has_slot(slots, idv) ==> 0 <= slot_index_of(slots, idv) < slots.len()
            && slots[slot_index_of(slots, idv)].id@ == idv,
{
}

/// An identity whose virtual path holds only normal segments: the form
/// every identity in the cache has, which makes its resolution a plain
/// join that cannot escape its base directory.
pub open spec fn identity_wf(idv: IdentityView) -> bool {
    forall|k: int| 0 <= k < idv.1.len() ==> sandbox::seg_is_normal(#[trigger] idv.1[k])
}

/// The view of a lazy text cell.
pub open spec fn text_view(l: LazyResult<String>) -> LazyResult<Seq<char>> {
    match l {
        LazyResult::Uncomputed => LazyResult::Uncomputed,
        LazyResult::Ready(t) => LazyResult::Ready(t@),
        LazyResult::Failed(e) => LazyResult::Failed(e),
    }
}

/// The view of a lazy byte cell.
pub open spec fn bytes_view(l: LazyResult<Vec<u8>>) -> LazyResult<Seq<u8>> {
    match l {
        LazyResult::Uncomputed => LazyResult::Uncomputed,
        LazyResult::Ready(b) => LazyResult::Ready(b@),
        LazyResult::Failed(e) => LazyResult::Failed(e),
    }
}

/// The view of an incoming text result.
pub open spec fn rtext_view(r: Result<String, FileError>) -> Result<Seq<char>, FileError> {
    match r {
        Ok(t) => Ok(t@),
        Err(e) => Err(e),
    }
}

/// The view of an incoming byte result.
pub open spec fn rbytes_view(r: Result<Vec<u8>, FileError>) -> Result<Seq<u8>, FileError> {
    match r {
        Ok(b) => Ok(b@),
        Err(e) => Err(e),
    }
}

/// Whether an update leaves a cell as it was and reports the failure: the
/// cell was computed, so it must be overwritten, but the incoming value is
/// an error — stale-but-present beats absent.
pub open spec fn cell_blocks<T>(cur: LazyResult<T>, incoming: Result<T, FileError>) -> bool {
    !(cur is Uncomputed) && incoming is Err
}

/// A cell after a non-blocked update: an uncomputed cell is left for lazy
/// population on the next read; a computed one is overwritten in place.
pub open spec fn cell_after<T>(cur: LazyResult<T>, incoming: Result<T, FileError>) -> LazyResult<
    T,
> {
    if cur is Uncomputed {
        cur
    } else {
        LazyResult::Ready(incoming->Ok_0)
    }
}

/// The outcome of one update on one slot: the text cell, the byte cell,
/// and whether the update reports a failure. The byte cell is updated
/// first; a blocked byte cell stops the update before the text cell, a
/// blocked text cell stops it after the byte cell was written.
pub open spec fn update_outcome(
    prior_text: LazyResult<Seq<char>>,
    prior_bytes: LazyResult<Seq<u8>>,
    t_in: Result<Seq<char>, FileError>,
    b_in: Result<Seq<u8>, FileError>,
) -> (LazyResult<Seq<char>>, LazyResult<Seq<u8>>, Result<(), FileError>) {
    if cell_blocks(prior_bytes, b_in) {
        (prior_text, prior_bytes, Err(b_in->Err_0))
    } else if cell_blocks(prior_text, t_in) {
        (prior_text, cell_after(prior_bytes, b_in), Err(t_in->Err_0))
    } else {
        (cell_after(prior_text, t_in), cell_after(prior_bytes, b_in), Ok(()))
    }
}

/// Clones a text cell, keeping its view.
fn clone_text_cell(l: &LazyResult<String>) -> (r: LazyResult<String>)
    ensures
        text_view(r) == text_view(*l),
{
    match l {
        LazyResult::Uncomputed => LazyResult::Uncomputed,
        LazyResult::Ready(t) => LazyResult::Ready(t.clone()),
        LazyResult::Failed(e) => LazyResult::Failed(*e),
    }
}

/// Whether the cache already holds a computed text result for `idv`.
pub open spec fn text_cached(slots: Seq<Slot>, idv: IdentityView) -> bool {
    has_slot(slots, idv) && !(text_view(slots[slot_index_of(slots, idv)].text) is Uncomputed)
}

/// Whether the cache already holds a computed byte result for `idv`.
pub open spec fn bytes_cached(slots: Seq<Slot>, idv: IdentityView) -> bool {
    has_slot(slots, idv) && !(bytes_view(slots[slot_index_of(slots, idv)].bytes) is Uncomputed)
}

/// The outcome of one demand on one lazy cell: the cell afterwards and
/// what the demand returns. A computed cell answers from the cache and
/// ignores the incoming value; an uncomputed cell materializes from it,
/// caching a failure as the cell's error state.
pub open spec fn read_outcome<V>(prior: LazyResult<V>, incoming: Result<V, FileError>) -> (
    LazyResult<V>,
    Result<V, FileError>,
) {
    match prior {
        LazyResult::Uncomputed => (match incoming {
            Ok(v) => (LazyResult::Ready(v), Ok(v)),
            Err(e) => (LazyResult::Failed(e), Err(e)),
        }),
        LazyResult::Ready(v) => (prior, Ok(v)),
        LazyResult::Failed(e) => (prior, Err(e)),
    }
}

/// Clones a byte cell, keeping its view.
fn clone_bytes_cell(l: &LazyResult<Vec<u8>>) -> (r: LazyResult<Vec<u8>>)
    ensures
        bytes_view(r) == bytes_view(*l),
{
    match l {
        LazyResult::Uncomputed => LazyResult::Uncomputed,
        LazyResult::Ready(b) => {
            let c = clone_bytes(b);
            LazyResult::Ready(c)
        },
        LazyResult::Failed(e) => LazyResult::Failed(*e),
    }
}

/// Copies a byte vector.
pub(crate) fn clone_bytes(b: &Vec<u8>) -> (r: Vec<u8>)
    ensures
        r@ == b@,
{
    let mut out: Vec<u8> = Vec::new();
    let n = b.len();
    let mut i: usize = 0;
    while i < n
        invariant
            i <= n,
            n == b@.len(),
            out@ == b@.subrange(0, i as int),
        decreases n - i,
    {
        out.push(b[i]);
        proof {
            assert(out@ =~= b@.subrange(0, i as int + 1));
        }
        i = i + 1;
    }
    proof {
        assert(b@.subrange(0, n as int) =~= b@);
    }
    out
}

/// Where a read for `idv` is directed: the identity's own slot's resolved
/// path when it has a slot; otherwise the virtual path joined under the
/// project root, or — for a package identity — under some base directory's
/// copy of the package's fixed subpath.
pub open spec fn read_target_wf(
    slots: Seq<Slot>,
    root: Seq<char>,
    idv: IdentityView,
    p: Seq<char>,
) -> bool {
    if has_slot(slots, idv) {
        p == slots[slot_index_of(slots, idv)].resolved@
    } else if idv.0 is None {
        p == sandbox::join_under(root, idv.1)
    } else {
        exists|base: Seq<char>|
            p == sandbox::join_under(
                base + seq!['/'] + crate::package::subpath_of(
                    (#[trigger] (idv.0->0)).0,
                    (idv.0->0).1,
                    (idv.0->0).2,
                ),
                idv.1,
            )
    }
}

/// The frame of one demand on the slot for `idv`: the cache afterwards
/// differs in at most that slot — found where it was, or appended when the
/// identity is new — and the slot keeps its identity and its place.
pub open spec fn demand_frame(before: Seq<Slot>, after: Seq<Slot>, idv: IdentityView) -> bool {
    let had = has_slot(before, idv);
    let i = slot_index_of(before, idv);
    &&& after.len() as int == (if had {
        before.len() as int
    } else {
        before.len() as int + 1
    })
    &&& (forall|k: int| 0 <= k < before.len() && k != i ==> after[k] == before[k])
    &&& 0 <= i < after.len()
    &&& after[i].id@ == idv
    &&& slot_index_of(after, idv) == i
}

/// After the find-or-create step the identity's slot is at the same index
/// the identity answered before — the index the cache keeps for it.
proof fn lemma_slot_creation_index(before: Seq<Slot>, after: Seq<Slot>, idv: IdentityView)
    requires
        slots_distinct(after),
        has_slot(before, idv) ==> after == before,
        !has_slot(before, idv) ==> after.len() == before.len() + 1 && (forall|k: int|
            0 <= k < before.len() ==> after[k] == before[k]) && after[before.len() as int].id@
            == idv,
    ensures
        has_slot(after, idv),
        slot_index_of(after, idv) == slot_index_of(before, idv),
        0 <= slot_index_of(after, idv) < after.len(),
        after[slot_index_of(after, idv)].id@ == idv,
{
    if has_slot(before, idv) {
        lemma_one_slot_per_identity(after, idv);
    } else {
        assert(after[before.len() as int].id@ == idv);
        assert(has_slot(after, idv));
        lemma_one_slot_per_identity(after, idv);
        if slot_index_of(after, idv) < before.len() {
            let j = slot_index_of(after, idv);
            assert(before[j].id@ == idv);
            assert(has_slot(before, idv));
        }
    }
}

/// Rewriting one slot in place, keeping its identity and resolved path,
/// preserves the cache's well-formedness and the identity's index.
proof fn lemma_rewrite_in_place(
    before: Seq<Slot>,
    after: Seq<Slot>,
    i: int,
    root: Seq<char>,
    idv: IdentityView,
)
    requires
        0 <= i < before.len(),
        after.len() == before.len(),
        forall|k: int| 0 <= k < before.len() && k != i ==> after[k] == before[k],
        after[i].id@ == before[i].id@,
        after[i].resolved@ == before[i].resolved@,
        slots_distinct(before),
        forall|k: int| 0 <= k < before.len() ==> identity_wf((#[trigger] before[k].id)@),
        forall|k: int|
            0 <= k < before.len() && (#[trigger] before[k].id)@.0 is None ==> before[k].resolved@
                == sandbox::join_under(root, before[k].id@.1),
    ensures
        slots_distinct(after),
        forall|k: int| 0 <= k < after.len() ==> identity_wf((#[trigger] after[k].id)@),
        forall|k: int|
            0 <= k < after.len() && (#[trigger] after[k].id)@.0 is None ==> after[k].resolved@
                == sandbox::join_under(root, after[k].id@.1),
        has_slot(after, idv) == has_slot(before, idv),
        slot_index_of(after, idv) == slot_index_of(before, idv),
{
    assert(forall|k: int|
        0 <= k < after.len() ==> (#[trigger] after[k].id)@ == (#[trigger] before[k].id)@);
    assert(forall|k: int|
        0 <= k < after.len() ==> (#[trigger] after[k].resolved)@ == (
        #[trigger] before[k].resolved)@);
    lemma_update_preserves_index(before, after, idv);
}

/// Rewriting one slot in place, keeping its identity, moves no identity:
/// the same index answers for the identity afterwards, so an update
/// through one resolution of an identity is visible through any other.
pub proof fn lemma_update_preserves_index(s1: Seq<Slot>, s2: Seq<Slot>, idv: IdentityView)
    requires
        slots_distinct(s1),
        s1.len() == s2.len(),
        forall|k: int| 0 <= k < s1.len() ==> (#[trigger] s2[k].id)@ == (#[trigger] s1[k].id)@,
    ensures
        slots_distinct(s2),
        has_slot(s2, idv) == has_slot(s1, idv),
        slot_index_of(s2, idv) == slot_index_of(s1, idv),
{
    assert forall|i: int, j: int| 0 <= i < j < s2.len() implies (#[trigger] s2[i].id)@
        != (#[trigger] s2[j].id)@ by {
        assert(s1[i].id@ != s1[j].id@);
    }
    if has_slot(s1, idv) {
        let i = slot_index_of(s1, idv);
        assert(s2[i].id@ == idv);
        assert(has_slot(s2, idv));
        lemma_one_slot_per_identity(s2, idv);
    } else {
        if has_slot(s2, idv) {
            let j = choose|j: int| 0 <= j < s2.len() && (#[trigger] s2[j].id)@ == idv;
            assert(s1[j].id@ == idv);
        }
    }
}

/// The compiler-facing world of one open project: the sandbox root, the
/// slot cache, and the optional main identity that gates compilation.
pub struct ProjectWorld {
    root: String,
    slots: Vec<Slot>,
    main: Option<FileIdentity>,
}

impl ProjectWorld {
    /// The project root all non-package identities resolve under.
    pub closed spec fn root_view(&self) -> Seq<char> {
        self.root@
    }

    /// The slots of the cache.
    pub closed spec fn slots_seq(&self) -> Seq<Slot> {
        self.slots@
    }

    /// The configured main identity.
    pub closed spec fn main_view(&self) -> Option<IdentityView> {
        match self.main {
            Some(id) => Some(id@),
            None => None,
        }
    }

    /// Well-formedness: one slot per identity; every cached identity is
    /// normalized; every slot without a package scope resolves to its
    /// virtual path joined under the project root; a configured main is
    /// normalized.
    pub closed spec fn wf(&self) -> bool {
        &&& slots_distinct(self.slots@)
        &&& (forall|i: int|
            0 <= i < self.slots@.len() ==> identity_wf((#[trigger] self.slots@[i].id)@))
        &&& (forall|i: int|
            0 <= i < self.slots@.len() && (#[trigger] self.slots@[i].id)@.0 is None
                ==> self.slots@[i].resolved@ == sandbox::join_under(
                self.root@,
                self.slots@[i].id@.1,
            ))
        &&& (self.main_view() matches Some(m) ==> identity_wf(m))
    }

    /// Creates the world of a fresh project: an empty cache and no main.
    pub fn new(root: String) -> (w: Self)
        ensures
            w.wf(),
            w.root_view() == root@,
            w.slots_seq().len() == 0,
            w.main_view() is None,
    {
        ProjectWorld { root, slots: Vec::new(), main: None }
    }

    /// Sets or clears the main identity. While it is cleared, every
    /// compile-entry demand is answered with `MainNotSet`.
    pub fn set_main(&mut self, id: Option<FileIdentity>)
        requires
            old(self).wf(),
            (id matches Some(i) ==> identity_wf(i@)),
        ensures
            final(self).wf(),
            final(self).root_view() == old(self).root_view(),
            final(self).slots_seq() == old(self).slots_seq(),
            final(self).main_view() == (match id {
                Some(i) => Some(i@),
                None => None,
            }),
    {
        self.main = id;
    }

    /// Resolves a path to an identity and sets it as main; a path that
    /// escapes the root is refused and leaves the main untouched.
    pub fn set_main_path(&mut self, path: &str) -> (r: Result<(), FileError>)
        requires
            old(self).wf(),
        ensures
            final(self).wf(),
            final(self).root_view() == old(self).root_view(),
            final(self).slots_seq() == old(self).slots_seq(),
            ({
                let norm = sandbox::normalize_segs(sandbox::split_path(path@));
                &&& (r matches Ok(u) ==> norm is Some && final(self).main_view() == Some(
                    (None::<(Seq<char>, Seq<char>, Seq<char>)>, norm->0),
                ))
                &&& (r matches Err(e) ==> e == FileError::AccessDenied && norm is None
                    && final(self).main_view() == old(self).main_view())
            }),
    {
        match identity_for(path) {
            Ok(id) => {
                self.set_main(Some(id));
                Ok(())
            },
            Err(e) => Err(e),
        }
    }

    /// Whether a main identity is configured.
    pub fn is_main_set(&self) -> (r: bool)
        ensures
            r == (self.main_view() is Some),
    {
        match &self.main {
            Some(_) => true,
            None => false,
        }
    }

    /// Finds the slot for `id`, creating an uncomputed one at the end of
    /// the cache when the identity is new. The returned index is the one
    /// every resolution of this identity answers.
    fn slot_index(&mut self, id: FileIdentity, resolved: String) -> (i: usize)
        requires
            old(self).wf(),
            identity_wf(id@),
            id@.0 is None ==> resolved@ == sandbox::join_under(old(self).root_view(), id@.1),
        ensures
            final(self).wf(),
            final(self).root_view() == old(self).root_view(),
            final(self).main_view() == old(self).main_view(),
            i as int == slot_index_of(old(self).slots_seq(), id@),
            i < final(self).slots_seq().len(),
            final(self).slots_seq()[i as int].id@ == id@,
            has_slot(old(self).slots_seq(), id@) ==> final(self).slots_seq() == old(self).slots_seq(),
            !has_slot(old(self).slots_seq(), id@) ==> final(self).slots_seq() == old(
                self,
            ).slots_seq().push(
                (Slot {
                    id,
                    resolved,
                    text: LazyResult::Uncomputed,
                    bytes: LazyResult::Uncomputed,
                }),
            ),
    {
        let n = self.slots.len();
        let mut k: usize = 0;
        while k < n
            invariant
                *self == *old(self),
                old(self).wf(),
                k <= n,
                n == self.slots@.len(),
                forall|j: int| 0 <= j < k ==> (#[trigger] self.slots@[j].id)@ != id@,
            decreases n - k,
        {
            if self.slots[k].id.same_identity(&id) {
                proof {
                    assert(has_slot(self.slots@, id@));
                    lemma_one_slot_per_identity(self.slots@, id@);
                }
                return k;
            }
            k = k + 1;
        }
        proof {
            assert(!has_slot(self.slots@, id@));
        }
        let ghost before = self.slots@;
        self.slots.push(
            Slot { id, resolved, text: LazyResult::Uncomputed, bytes: LazyResult::Uncomputed },
        );
        proof {
            assert forall|x: int, y: int| 0 <= x < y < self.slots@.len() implies (
            #[trigger] self.slots@[x].id)@ != (#[trigger] self.slots@[y].id)@ by {
                if y < before.len() {
                    assert(before[x].id@ != before[y].id@);
                } else {
                    assert(self.slots@[y].id@ == id@);
                    assert(before[x].id@ != id@);
                }
            }
        }
        n
    }

    /// Updates the slot for `path` — the single entry point editor writes
    /// and watcher-driven reloads funnel through, last writer wins.
    ///
    /// With explicit `content` the update takes no disk read and `disk`
    /// is absent; with no content the caller performs exactly one disk
    /// read and hands its outcome in as `disk`. A cell that is already
    /// computed is overwritten in place with the incoming value; an
    /// uncomputed cell is left for lazy population on the next read. A
    /// failed incoming read leaves the computed cell as it was — stale
    /// but present — and reports the failure. A path that escapes the
    /// root is refused with `AccessDenied` and creates no slot.
    pub fn slot_update(&mut self, path: &str, content: Option<String>, disk: Option<DiskRead>) -> (r:
        Result<FileIdentity, FileError>)
        requires
            old(self).wf(),
            content is Some <==> disk is None,
        ensures
            final(self).wf(),
            final(self).root_view() == old(self).root_view(),
            final(self).main_view() == old(self).main_view(),
            ({
                let norm = sandbox::normalize_segs(sandbox::split_path(path@));
                &&& (norm is None ==> *final(self) == *old(self) && (r matches Err(e) && e
                    == FileError::AccessDenied))
                &&& (norm is Some ==> {
                    let idv = (None::<(Seq<char>, Seq<char>, Seq<char>)>, norm->0);
                    let i = slot_index_of(old(self).slots_seq(), idv);
                    let had = has_slot(old(self).slots_seq(), idv);
                    let prior_text = (if had {
                        text_view(old(self).slots_seq()[i].text)
                    } else {
                        LazyResult::<Seq<char>>::Uncomputed
                    });
                    let prior_bytes = (if had {
                        bytes_view(old(self).slots_seq()[i].bytes)
                    } else {
                        LazyResult::<Seq<u8>>::Uncomputed
                    });
                    let t_in = (match content {
                        Some(c) => Ok::<Seq<char>, FileError>(c@),
                        None => rtext_view(disk->0.text),
                    });
                    let b_in = (match content {
                        Some(c) => Ok::<Seq<u8>, FileError>(vstd::utf8::encode_utf8(c@)),
                        None => rbytes_view(disk->0.bytes),
                    });
                    let out = update_outcome(prior_text, prior_bytes, t_in, b_in);
                    &&& final(self).slots_seq().len() == (if had {
                        old(self).slots_seq().len()
                    } else {
                        old(self).slots_seq().len() + 1
                    })
                    &&& (forall|k: int|
                        0 <= k < old(self).slots_seq().len() && k != i
                            ==> final(self).slots_seq()[k] == old(self).slots_seq()[k])
                    &&& 0 <= i < final(self).slots_seq().len()
                    &&& final(self).slots_seq()[i].id@ == idv
                    &&& final(self).slots_seq()[i].resolved@ == sandbox::join_under(
                        old(self).root_view(),
                        idv.1,
                    )
                    &&& slot_index_of(final(self).slots_seq(), idv) == i
                    &&& text_view(final(self).slots_seq()[i].text) == out.0
                    &&& bytes_view(final(self).slots_seq()[i].bytes) == out.1
                    &&& (out.2 is Ok ==> (r matches Ok(rid) && rid@ == idv))
                    &&& (out.2 is Err ==> (r matches Err(e) && e == out.2->Err_0))
                })
            }),
    {
        let id = match identity_for(path) {
            Ok(id) => id,
            Err(e) => {
                return Err(e);
            },
        };
        let root = self.root.clone();
        let resolved = sandbox::join_segments(root.as_str(), &id.vpath);
        let ret_id = id.clone();
        let ghost idv = id@;
        let idx = self.slot_index(id, resolved);
        let ghost created = self.slots@;
        proof {
            lemma_slot_creation_index(old(self).slots_seq(), created, idv);
        }
        let (d_text, d_bytes) = match disk {
            Some(d) => (d.text, d.bytes),
            None => (Err(FileError::IoError), Err(FileError::IoError)),
        };
        let b_computed = match &self.slots[idx].bytes {
            LazyResult::Uncomputed => false,
            _ => true,
        };
        let t_computed = match &self.slots[idx].text {
            LazyResult::Uncomputed => false,
            _ => true,
        };
        let new_bytes: LazyResult<Vec<u8>> = if b_computed {
            let inc: Result<Vec<u8>, FileError> = match &content {
                Some(c) => Ok(c.as_str().as_bytes_vec()),
                None => d_bytes,
            };
            match inc {
                Ok(b) => LazyResult::Ready(b),
                Err(e) => {
                    return Err(e);
                },
            }
        } else {
            LazyResult::Uncomputed
        };
        let new_text: LazyResult<String> = if t_computed {
            let inc: Result<String, FileError> = match content {
                Some(c) => Ok(c),
                None => d_text,
            };
            match inc {
                Ok(t) => LazyResult::Ready(t),
                Err(e) => {
                    let sid = self.slots[idx].id.clone();
                    let sres = self.slots[idx].resolved.clone();
                    let tcell = clone_text_cell(&self.slots[idx].text);
                    self.slots.set(
                        idx,
                        Slot { id: sid, resolved: sres, text: tcell, bytes: new_bytes },
                    );
                    proof {
                        lemma_rewrite_in_place(created, self.slots@, idx as int, old(self).root_view(), idv);
                    }
                    return Err(e);
                },
            }
        } else {
            LazyResult::Uncomputed
        };
        let sid = self.slots[idx].id.clone();
        let sres = self.slots[idx].resolved.clone();
        self.slots.set(idx, Slot { id: sid, resolved: sres, text: new_text, bytes: new_bytes });
        proof {
            lemma_rewrite_in_place(created, self.slots@, idx as int, old(self).root_view(), idv);
        }
        Ok(ret_id)
    }

    /// Finds the slot for `id` without creating one.
    fn find_slot_ro(&self, id: &FileIdentity) -> (r: Option<usize>)
        requires
            self.wf(),
        ensures
            (r is Some) == has_slot(self.slots_seq(), id@),
            (r matches Some(i) ==> i as int == slot_index_of(self.slots_seq(), id@)),
    {
        let n = self.slots.len();
        let mut k: usize = 0;
        while k < n
            invariant
                self.wf(),
                k <= n,
                n == self.slots@.len(),
                forall|j: int| 0 <= j < k ==> (#[trigger] self.slots@[j].id)@ != id@,
            decreases n - k,
        {
            if self.slots[k].id.same_identity(id) {
                proof {
                    assert(has_slot(self.slots@, id@));
                    lemma_one_slot_per_identity(self.slots@, id@);
                }
                return Some(k);
            }
            k = k + 1;
        }
        proof {
            assert(!has_slot(self.slots@, id@));
        }
        None
    }

    /// Finds or creates the slot for `id`, resolving a fresh slot's path
    /// under the project root or, for a package identity, under the
    /// package's installed directory. A package that no candidate base
    /// holds is answered with `NotFound`, and no slot comes to be.
    fn demand_slot(&mut self, id: &FileIdentity) -> (r: Result<usize, FileError>)
        requires
            old(self).wf(),
            identity_wf(id@),
        ensures
            final(self).wf(),
            final(self).root_view() == old(self).root_view(),
            final(self).main_view() == old(self).main_view(),
            (r matches Ok(i) ==> {
                &&& demand_frame(old(self).slots_seq(), final(self).slots_seq(), id@)
                &&& i as int == slot_index_of(old(self).slots_seq(), id@)
                &&& (has_slot(old(self).slots_seq(), id@) ==> final(self).slots_seq() == old(
                    self,
                ).slots_seq())
                &&& (!has_slot(old(self).slots_seq(), id@) ==> text_view(
                    final(self).slots_seq()[i as int].text,
                ) is Uncomputed && bytes_view(final(self).slots_seq()[i as int].bytes)
                    is Uncomputed)
            }),
            (r matches Err(e) ==> e == FileError::NotFound && *final(self) == *old(self)
                && !has_slot(old(self).slots_seq(), id@) && id@.0 is Some),
    {
        match self.find_slot_ro(id) {
            Some(i) => Ok(i),
            None => {
                let base = match &id.package {
                    None => self.root.clone(),
                    Some(p) => match crate::package::prepare_package(p) {
                        Ok(d) => d,
                        Err(_) => {
                            return Err(FileError::NotFound);
                        },
                    },
                };
                let resolved = sandbox::join_segments(base.as_str(), &id.vpath);
                let i = self.slot_index(id.clone(), resolved);
                proof {
                    lemma_slot_creation_index(old(self).slots_seq(), self.slots@, id@);
                }
                Ok(i)
            },
        }
    }

    /// Serves the text form of `id`, materializing it lazily: a computed
    /// result — fresh or stale, value or cached failure — answers from the
    /// cache without any disk access; an uncomputed one materializes from
    /// the caller's single disk read, and a failed read is cached as the
    /// slot's error state until an update supersedes it. The byte form is
    /// untouched.
    pub fn source(&mut self, id: &FileIdentity, disk: Option<DiskRead>) -> (r: Result<
        String,
        FileError,
    >)
        requires
            old(self).wf(),
            identity_wf(id@),
            text_cached(old(self).slots_seq(), id@) || disk is Some,
        ensures
            final(self).wf(),
            final(self).root_view() == old(self).root_view(),
            final(self).main_view() == old(self).main_view(),
            ({
                let idv = id@;
                let had = has_slot(old(self).slots_seq(), idv);
                let i = slot_index_of(old(self).slots_seq(), idv);
                let prior = (if had {
                    text_view(old(self).slots_seq()[i].text)
                } else {
                    LazyResult::<Seq<char>>::Uncomputed
                });
                let prior_bytes = (if had {
                    bytes_view(old(self).slots_seq()[i].bytes)
                } else {
                    LazyResult::<Seq<u8>>::Uncomputed
                });
                let out = read_outcome(prior, rtext_view(disk->0.text));
                let served = {
                    &&& demand_frame(old(self).slots_seq(), final(self).slots_seq(), idv)
                    &&& text_view(final(self).slots_seq()[i].text) == out.0
                    &&& bytes_view(final(self).slots_seq()[i].bytes) == prior_bytes
                    &&& rtext_view(r) == out.1
                };
                &&& ((had || idv.0 is None) ==> served)
                &&& (!(had || idv.0 is None) ==> (served || (r matches Err(e) && e
                    == FileError::NotFound && *final(self) == *old(self))))
            }),
    {
        let idx = match self.demand_slot(id) {
            Ok(i) => i,
            Err(e) => {
                return Err(e);
            },
        };
        let ghost created = self.slots@;
        match &self.slots[idx].text {
            LazyResult::Ready(t) => {
                return Ok(t.clone());
            },
            LazyResult::Failed(e) => {
                return Err(*e);
            },
            LazyResult::Uncomputed => {},
        }
        let d = disk.unwrap();
        let sid = self.slots[idx].id.clone();
        let sres = self.slots[idx].resolved.clone();
        let bcell = clone_bytes_cell(&self.slots[idx].bytes);
        match d.text {
            Ok(t) => {
                let served = t.clone();
                self.slots.set(
                    idx,
                    Slot { id: sid, resolved: sres, text: LazyResult::Ready(t), bytes: bcell },
                );
                proof {
                    lemma_rewrite_in_place(
                        created,
                        self.slots@,
                        idx as int,
                        old(self).root_view(),
                        id@,
                    );
                }
                Ok(served)
            },
            Err(e) => {
                self.slots.set(
                    idx,
                    Slot { id: sid, resolved: sres, text: LazyResult::Failed(e), bytes: bcell },
                );
                proof {
                    lemma_rewrite_in_place(
                        created,
                        self.slots@,
                        idx as int,
                        old(self).root_view(),
                        id@,
                    );
                }
                Err(e)
            },
        }
    }

    /// Serves the byte form of `id`, materializing it lazily, in the same
    /// way `source` serves the text form. The text form is untouched.
    pub fn file(&mut self, id: &FileIdentity, disk: Option<DiskRead>) -> (r: Result<
        Vec<u8>,
        FileError,
    >)
        requires
            old(self).wf(),
            identity_wf(id@),
            bytes_cached(old(self).slots_seq(), id@) || disk is Some,
        ensures
            final(self).wf(),
            final(self).root_view() == old(self).root_view(),
            final(self).main_view() == old(self).main_view(),
            ({
                let idv = id@;
                let had = has_slot(old(self).slots_seq(), idv);
                let i = slot_index_of(old(self).slots_seq(), idv);
                let prior = (if had {
                    bytes_view(old(self).slots_seq()[i].bytes)
                } else {
                    LazyResult::<Seq<u8>>::Uncomputed
                });
                let prior_text = (if had {
                    text_view(old(self).slots_seq()[i].text)
                } else {
                    LazyResult::<Seq<char>>::Uncomputed
                });
                let out = read_outcome(prior, rbytes_view(disk->0.bytes));
                let served = {
                    &&& demand_frame(old(self).slots_seq(), final(self).slots_seq(), idv)
                    &&& bytes_view(final(self).slots_seq()[i].bytes) == out.0
                    &&& text_view(final(self).slots_seq()[i].text) == prior_text
                    &&& rbytes_view(r) == out.1
                };
                &&& ((had || idv.0 is None) ==> served)
                &&& (!(had || idv.0 is None) ==> (served || (r matches Err(e) && e
                    == FileError::NotFound && *final(self) == *old(self))))
            }),
    {
        let idx = match self.demand_slot(id) {
            Ok(i) => i,
            Err(e) => {
                return Err(e);
            },
        };
        let ghost created = self.slots@;
        match &self.slots[idx].bytes {
            LazyResult::Ready(b) => {
                return Ok(clone_bytes(b));
            },
            LazyResult::Failed(e) => {
                return Err(*e);
            },
            LazyResult::Uncomputed => {},
        }
        let d = disk.unwrap();
        let sid = self.slots[idx].id.clone();
        let sres = self.slots[idx].resolved.clone();
        let tcell = clone_text_cell(&self.slots[idx].text);
        match d.bytes {
            Ok(b) => {
                let served = clone_bytes(&b);
                self.slots.set(
                    idx,
                    Slot { id: sid, resolved: sres, text: tcell, bytes: LazyResult::Ready(b) },
                );
                proof {
                    lemma_rewrite_in_place(
                        created,
                        self.slots@,
                        idx as int,
                        old(self).root_view(),
                        id@,
                    );
                }
                Ok(served)
            },
            Err(e) => {
                self.slots.set(
                    idx,
                    Slot { id: sid, resolved: sres, text: tcell, bytes: LazyResult::Failed(e) },
                );
                proof {
                    lemma_rewrite_in_place(
                        created,
                        self.slots@,
                        idx as int,
                        old(self).root_view(),
                        id@,
                    );
                }
                Err(e)
            },
        }
    }

    /// The on-disk path a `source` demand for `id` would have to read, or
    /// `None` when the text result is already computed and no read is
    /// needed. The named path is never arbitrary: the slot's own resolved
    /// path, or — for an identity without a slot yet — the virtual path
    /// joined under the project root, or under some base directory's copy
    /// of the package's fixed subpath. A package no candidate base holds
    /// is answered with `NotFound`, as the demand itself would be.
    pub fn text_read_target(&self, id: &FileIdentity) -> (r: Result<Option<String>, FileError>)
        requires
            self.wf(),
            identity_wf(id@),
        ensures
            (r matches Ok(t) ==> ((t is None) == text_cached(self.slots_seq(), id@))),
            (r matches Ok(Some(p)) ==> read_target_wf(
                self.slots_seq(),
                self.root_view(),
                id@,
                p@,
            )),
            (r matches Err(e) ==> e == FileError::NotFound && !has_slot(self.slots_seq(), id@)
                && id@.0 is Some),
    {
        match self.find_slot_ro(id) {
            Some(i) => {
                match &self.slots[i].text {
                    LazyResult::Uncomputed => Ok(Some(self.slots[i].resolved.clone())),
                    _ => Ok(None),
                }
            },
            None => self.fresh_read_target(id),
        }
    }

    /// The on-disk path a `file` demand for `id` would have to read, or
    /// `None` when the byte result is already computed; the named path is
    /// pinned exactly as `text_read_target` pins it.
    pub fn bytes_read_target(&self, id: &FileIdentity) -> (r: Result<Option<String>, FileError>)
        requires
            self.wf(),
            identity_wf(id@),
        ensures
            (r matches Ok(t) ==> ((t is None) == bytes_cached(self.slots_seq(), id@))),
            (r matches Ok(Some(p)) ==> read_target_wf(
                self.slots_seq(),
                self.root_view(),
                id@,
                p@,
            )),
            (r matches Err(e) ==> e == FileError::NotFound && !has_slot(self.slots_seq(), id@)
                && id@.0 is Some),
    {
        match self.find_slot_ro(id) {
            Some(i) => {
                match &self.slots[i].bytes {
                    LazyResult::Uncomputed => Ok(Some(self.slots[i].resolved.clone())),
                    _ => Ok(None),
                }
            },
            None => self.fresh_read_target(id),
        }
    }

    /// The on-disk path a demand for an identity without a slot would
    /// read: the virtual path joined under the project root, or under the
    /// package's located directory.
    fn fresh_read_target(&self, id: &FileIdentity) -> (r: Result<Option<String>, FileError>)
        requires
            self.wf(),
            identity_wf(id@),
            !has_slot(self.slots_seq(), id@),
        ensures
            (r matches Ok(t) ==> t is Some),
            (r matches Ok(Some(p)) ==> read_target_wf(
                self.slots_seq(),
                self.root_view(),
                id@,
                p@,
            )),
            (r matches Err(e) ==> e == FileError::NotFound && id@.0 is Some),
    {
        match &id.package {
            None => Ok(Some(sandbox::join_segments(self.root.as_str(), &id.vpath))),
            Some(pkg) => match crate::package::prepare_package(pkg) {
                Ok(d) => {
                    let target = sandbox::join_segments(d.as_str(), &id.vpath);
                    proof {
                        let sub = crate::package::subpath_of(
                            pkg.namespace@,
                            pkg.name@,
                            pkg.version@,
                        );
                        let w = choose|w: Seq<char>| d@ == w + seq!['/'] + sub;
                        assert(target@ == sandbox::join_under(w + seq!['/'] + sub, id@.1));
                    }
                    Ok(Some(target))
                },
                Err(_) => Err(FileError::NotFound),
            },
        }
    }

    /// The configured main identity, to demand its source next.
    pub fn main_identity(&self) -> (r: Option<FileIdentity>)
        requires
            self.wf(),
        ensures
            (r matches Some(id) ==> self.main_view() == Some(id@) && identity_wf(id@)),
            (r is None) == (self.main_view() is None),
    {
        match &self.main {
            Some(id) => Some(id.clone()),
            None => None,
        }
    }

    /// Serves the main source. While no main is configured the demand is
    /// blocked with the typed error `MainNotSet` — never a panic, and
    /// never a partial run. Otherwise it is exactly a `source` demand on
    /// the main identity.
    pub fn main_source(&mut self, disk: Option<DiskRead>) -> (r: Result<String, WorldError>)
        requires
            old(self).wf(),
            (match old(self).main_view() {
                Some(m) => text_cached(old(self).slots_seq(), m) || disk is Some,
                None => true,
            }),
        ensures
            final(self).wf(),
            final(self).root_view() == old(self).root_view(),
            final(self).main_view() == old(self).main_view(),
            (old(self).main_view() is None ==> (r matches Err(e) && e == WorldError::MainNotSet)
                && *final(self) == *old(self)),
            (old(self).main_view() matches Some(idv) ==> {
                let had = has_slot(old(self).slots_seq(), idv);
                let i = slot_index_of(old(self).slots_seq(), idv);
                let prior = (if had {
                    text_view(old(self).slots_seq()[i].text)
                } else {
                    LazyResult::<Seq<char>>::Uncomputed
                });
                let out = read_outcome(prior, rtext_view(disk->0.text));
                let served = {
                    &&& demand_frame(old(self).slots_seq(), final(self).slots_seq(), idv)
                    &&& text_view(final(self).slots_seq()[i].text) == out.0
                    &&& (match (r, out.1) {
                        (Ok(t), Ok(v)) => t@ == v,
                        (Err(e), Err(f)) => e == WorldError::File(f),
                        _ => false,
                    })
                };
                &&& ((had || idv.0 is None) ==> served)
                &&& (!(had || idv.0 is None) ==> (served || (r matches Err(e) && e
                    == WorldError::File(FileError::NotFound) && *final(self) == *old(self))))
            }),
    {
        let main = match self.main_identity() {
            Some(id) => id,
            None => {
                return Err(WorldError::MainNotSet);
            },
        };
        match self.source(&main, disk) {
            Ok(t) => Ok(t),
            Err(e) => Err(WorldError::File(e)),
        }
    }
}

/// Every resolved on-disk path of a well-formed world's cache lies within
/// the project root: for every slot without a package scope, the resolved
/// path starts with the root.
pub proof fn lemma_world_sandboxed(w: &ProjectWorld)
    requires
        w.wf(),
    ensures
        forall|i: int|
            0 <= i < w.slots_seq().len() && (#[trigger] w.slots_seq()[i].id)@.0 is None ==> {
                &&& w.slots_seq()[i].resolved@.len() >= w.root_view().len()
                &&& w.slots_seq()[i].resolved@.subrange(0, w.root_view().len() as int)
                    == w.root_view()
            },
{
    assert forall|i: int|
        0 <= i < w.slots_seq().len() && (#[trigger] w.slots_seq()[i].id)@.0 is None implies {
        &&& w.slots_seq()[i].resolved@.len() >= w.root_view().len()
        &&& w.slots_seq()[i].resolved@.subrange(0, w.root_view().len() as int) == w.root_view()
    } by {
        sandbox::lemma_join_under_prefix(w.root_view(), w.slots_seq()[i].id@.1);
    }
}

/// Demanding a slot is idempotent: after any demand for an identity the
/// cache holds a slot for it at the index the identity answered before,
/// and a second demand for the same identity answers at that same index —
/// the two resolutions share one slot, so an update through one is seen
/// through the other.
pub proof fn lemma_demand_idempotent(before: Seq<Slot>, after: Seq<Slot>, idv: IdentityView)
    requires
        slots_distinct(before),
        slots_distinct(after),
        demand_frame(before, after, idv),
    ensures
        has_slot(after, idv),
        slot_index_of(after, idv) == slot_index_of(before, idv),
        slot_index_of(after, idv) < after.len(),
        after[slot_index_of(after, idv)].id@ == idv,
{
    lemma_one_slot_per_identity(after, idv);
}

/// A computed result is only ever overwritten, never reset: no update and
/// no demand takes a ready or failed cell back to uncomputed — stale but
/// present beats absent.
pub proof fn lemma_computed_never_reset<T>(c: LazyResult<T>, incoming: Result<T, FileError>)
    ensures
        !(c is Uncomputed) ==> !(cell_after(c, incoming) is Uncomputed),
        !(c is Uncomputed) ==> !(read_outcome(c, incoming).0 is Uncomputed),
{
}

/// A text cell whose first materialization failed, later updated with
/// explicit content, becomes ready with that content and stays so: the
/// failed read is cached as the cell's failure; an explicit update is
/// never blocked and overwrites it in place; and every later demand
/// serves exactly that content, leaving the cell as it is, until the next
/// update.
pub proof fn lemma_failed_cell_recovers(
    e: FileError,
    c: Seq<char>,
    later: Result<Seq<char>, FileError>,
)
    ensures
        read_outcome(LazyResult::<Seq<char>>::Uncomputed, Err::<Seq<char>, FileError>(e)) == (
            LazyResult::<Seq<char>>::Failed(e),
            Err::<Seq<char>, FileError>(e),
        ),
        !cell_blocks(LazyResult::<Seq<char>>::Failed(e), Ok::<Seq<char>, FileError>(c)),
        cell_after(LazyResult::<Seq<char>>::Failed(e), Ok::<Seq<char>, FileError>(c))
            == LazyResult::<Seq<char>>::Ready(c),
        read_outcome(LazyResult::<Seq<char>>::Ready(c), later) == (
            LazyResult::<Seq<char>>::Ready(c),
            Ok::<Seq<char>, FileError>(c),
        ),
{
}

/// Resolves a path into a project-scoped identity: the normalized virtual
/// path with no package scope. A path that rises above the root is refused
/// with `AccessDenied` and no identity — and therefore no slot — comes to
/// be.
pub fn identity_for(path: &str) -> (r: Result<FileIdentity, FileError>)
    ensures
        ({
            let norm = sandbox::normalize_segs(sandbox::split_path(path@));
            &&& (r matches Ok(id) ==> norm is Some && id@ == (
                None::<(Seq<char>, Seq<char>, Seq<char>)>,
                norm->0,
            ) && identity_wf(id@))
            &&& (r matches Err(e) ==> e == FileError::AccessDenied && norm is None)
        }),
{
    let segs = sandbox::split_segments(path);
    match sandbox::normalize_segments(&segs) {
        Ok(norm) => {
            proof {
                sandbox::lemma_normalize_output_normal(sandbox::split_path(path@));
            }
            Ok(FileIdentity { package: None, vpath: norm })
        },
        Err(e) => Err(e),
    }
}

/// Resolves a path into a package-scoped identity. The same path law
/// holds: rising above the package directory is refused.
pub fn identity_in_package(spec: PackageSpec, path: &str) -> (r: Result<FileIdentity, FileError>)
    ensures
        ({
            let norm = sandbox::normalize_segs(sandbox::split_path(path@));
            &&& (r matches Ok(id) ==> norm is Some && id@ == (Some(spec@), norm->0)
                && identity_wf(id@))
            &&& (r matches Err(e) ==> e == FileError::AccessDenied && norm is None)
        }),
{
    let segs = sandbox::split_segments(path);
    match sandbox::normalize_segments(&segs) {
        Ok(norm) => {
            proof {
                sandbox::lemma_normalize_output_normal(sandbox::split_path(path@));
            }
            Ok(FileIdentity { package: Some(spec), vpath: norm })
        },
        Err(e) => Err(e),
    }
}

} // verus!
