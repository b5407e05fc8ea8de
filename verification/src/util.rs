//! The filesystem adapter seam: plain-value records of what listing a
//! directory produced, and the construction of entries from them.

use vstd::prelude::*;

use crate::du::{Entry, FileKind, Info, NodeId};

verus! {

/// Why a filesystem step failed.
#[derive(Clone, Copy, PartialEq, Eq, Structural, Debug)]
pub enum FsErrorKind {
    /// Structural: the path has no resolvable terminal name component.
    InvalidName,
    NotFound,
    PermissionDenied,
    /// Any other I/O failure.
    Io,
}

/// One recorded, non-fatal filesystem failure.
pub struct FsError {
    pub kind: FsErrorKind,
    pub path: String,
}

impl FsError {
    pub fn new(kind: FsErrorKind, path: String) -> (r: FsError)
        ensures
            r.kind == kind,
            r.path == path,
    {
        FsError { kind, path }
    }
}

/// One successfully listed directory item, reduced to plain values.
pub struct RawItem {
    /// Terminal path component, if one could be resolved.
    pub name: Option<String>,
    pub kind: FileKind,
    /// Own bytes as metadata reported them.
    pub size: u64,
    /// Full path of the item, for follow-up listing of directories.
    pub path: String,
}

/// What listing one directory produced.
pub enum Listing {
    /// The directory could not be opened: exactly one error, no items.
    Failed(FsError),
    /// Per-item outcomes, in enumeration order; an `Err` item failed
    /// its metadata lookup without aborting the rest.
    Items(Vec<Result<RawItem, FsError>>),
}

/// Lists one directory. This is the seam between traversal and the
/// filesystem: a fixture of plain values can stand in for the real one.
pub trait Adapter {
    /// Bound on how many items the adapter can still hand out, so that
    /// a drain over finitely much fixture data provably ends.
    open spec fn potential(&self) -> nat {
        0
    }

    fn read_dir(&mut self, path: &String) -> (r: Listing)
        ensures
            match r {
                Listing::Failed(_) => final(self).potential() <= old(self).potential(),
                Listing::Items(v) => v@.len() + final(self).potential() <= old(
                    self,
                ).potential(),
            },
    ;
}

/// The entries the first `k` outcomes of a listing produce under
/// `parent`, in order: one for each successful item whose name
/// resolved.
pub open spec fn built_entries(
    parent: NodeId,
    items: Seq<Result<RawItem, FsError>>,
    k: int,
) -> Seq<Entry>
    decreases k,
{
    if k <= 0 {
        Seq::empty()
    } else {
        built_entries(parent, items, k - 1) + (match items[k - 1] {
            Result::Ok(item) => if item.name is Some {
                seq![entry_of(parent, item)]
            } else {
                Seq::empty()
            },
            Result::Err(_) => Seq::empty(),
        })
    }
}

/// The failures the first `k` outcomes of a listing record, in order:
/// each item-level failure, and a structural failure for each item
/// whose name did not resolve.
pub open spec fn listing_errors(items: Seq<Result<RawItem, FsError>>, k: int) -> Seq<FsError>
    decreases k,
{
    if k <= 0 {
        Seq::empty()
    } else {
        listing_errors(items, k - 1) + (match items[k - 1] {
            Result::Ok(item) => if item.name is Some {
                Seq::empty()
            } else {
                seq![invalid_name_error(item)]
            },
            Result::Err(e) => seq![e],
        })
    }
}

/// One listing's effect on a source's buffers: a failed open records
/// exactly its one error and buffers nothing; listed items append
/// their built entries and their failures, in enumeration order.
pub open spec fn listing_applied(
    parent: NodeId,
    l: Listing,
    ents0: Seq<Entry>,
    ents1: Seq<Entry>,
    errs0: Seq<FsError>,
    errs1: Seq<FsError>,
) -> bool {
    match l {
        Listing::Failed(e) => ents1 == ents0 && errs1 == errs0.push(e),
        Listing::Items(v) => ents1 == ents0 + built_entries(parent, v@, v@.len() as int)
            && errs1 == errs0 + listing_errors(v@, v@.len() as int),
    }
}

/// Every built entry sits under `parent` with freshly seeded counters,
/// and a listing yields no more entries than it has items.
pub proof fn lemma_built_entries_shape(
    parent: NodeId,
    items: Seq<Result<RawItem, FsError>>,
    k: int,
)
    ensures
        k >= 0 ==> built_entries(parent, items, k).len() <= k,
        k <= 0 ==> built_entries(parent, items, k).len() == 0,
        forall|j: int|
            0 <= j < built_entries(parent, items, k).len() ==> (#[trigger] built_entries(
                parent,
                items,
                k,
            )[j]).parent == parent && built_entries(parent, items, k)[j].info.is_fresh(),
    decreases k,
{
    if k > 0 {
        lemma_built_entries_shape(parent, items, k - 1);
    }
}

/// The entry a listed item turns into when its name resolved.
pub open spec fn entry_of(parent: NodeId, item: RawItem) -> Entry
    recommends
        item.name is Some,
{
    Entry {
        parent,
        info: match item.name {
            Option::Some(n) => crate::du::fresh_info(n, item.kind, item.size),
            Option::None => crate::du::fresh_info(item.path, item.kind, item.size),
        },
        path: item.path,
    }
}

/// The structural error a listed item turns into when no name resolved.
pub open spec fn invalid_name_error(item: RawItem) -> FsError {
    FsError { kind: FsErrorKind::InvalidName, path: item.path }
}

/// Builds the entry for one listed item under `parent`, or reports the
/// structural failure when the item's terminal name did not resolve.
pub fn build_entry(parent: NodeId, item: RawItem) -> (r: Result<Entry, FsError>)
    ensures
        match r {
            Result::Ok(e) => item.name is Some && e == entry_of(parent, item),
            Result::Err(er) => item.name is None && er == invalid_name_error(item),
        },
{
    match item.name {
        Option::Some(n) => Result::Ok(
            Entry::new(parent, Info::new(n, item.kind, item.size), item.path),
        ),
        Option::None => Result::Err(FsError::new(FsErrorKind::InvalidName, item.path)),
    }
}

/// One directory of the fixture filesystem.
pub struct ModelDir {
    pub path: String,
    pub listing: Listing,
}

/// A directory tree held as plain values: the fixture adapter. Each
/// stored listing is handed out once; the traversal asks for each
/// directory exactly once, so nothing is lost by consuming it.
pub struct ModelFs {
    pub dirs: Vec<ModelDir>,
}

/// Index of the first stored directory at or after `k` whose path has
/// these characters, or the number of directories when none has.
pub open spec fn find_dir_from(ds: Seq<ModelDir>, path: Seq<char>, k: int) -> int
    decreases ds.len() - k,
{
    if k < 0 || k >= ds.len() {
        ds.len() as int
    } else if ds[k].path@ == path {
        k
    } else {
        find_dir_from(ds, path, k + 1)
    }
}

/// Index of the first stored directory whose path has these
/// characters, or the number of directories when none has.
pub open spec fn find_dir(ds: Seq<ModelDir>, path: Seq<char>) -> int {
    find_dir_from(ds, path, 0)
}

/// The work one stored directory can still cause.
pub open spec fn dir_weight(d: ModelDir) -> nat {
    match d.listing {
        Listing::Failed(_) => 1,
        Listing::Items(v) => 1 + v@.len(),
    }
}

/// The work the first `k` stored directories can still cause.
pub open spec fn fs_potential(ds: Seq<ModelDir>, k: int) -> nat
    decreases k,
{
    if k <= 0 {
        0
    } else {
        fs_potential(ds, k - 1) + dir_weight(ds[k - 1])
    }
}

proof fn lemma_fs_potential_frame(a: Seq<ModelDir>, b: Seq<ModelDir>, k: int)
    requires
        forall|m: int| 0 <= m < k ==> a[m] == b[m],
    ensures
        fs_potential(a, k) == fs_potential(b, k),
    decreases k,
{
    if k > 0 {
        lemma_fs_potential_frame(a, b, k - 1);
    }
}

/// Taking one stored directory out takes exactly its weight out of the
/// total.
proof fn lemma_fs_potential_remove(ds: Seq<ModelDir>, i: int, k: int)
    requires
        0 <= i < ds.len(),
        i < k <= ds.len(),
    ensures
        fs_potential(ds.remove(i), k - 1) + dir_weight(ds[i]) == fs_potential(ds, k),
    decreases k,
{
    if k == i + 1 {
        lemma_fs_potential_frame(ds.remove(i), ds, i);
    } else {
        lemma_fs_potential_remove(ds, i, k - 1);
        assert(ds.remove(i)[k - 2] == ds[k - 1]);
    }
}

impl ModelFs {
    pub fn new() -> (r: ModelFs)
        ensures
            r.dirs@ == Seq::<ModelDir>::empty(),
    {
        ModelFs { dirs: Vec::new() }
    }

    pub fn add(&mut self, path: String, listing: Listing)
        ensures
            final(self).dirs@ == old(self).dirs@.push((ModelDir { path, listing })),
    {
        self.dirs.push(ModelDir { path, listing });
    }
}

impl Adapter for ModelFs {
    open spec fn potential(&self) -> nat {
        fs_potential(self.dirs@, self.dirs@.len() as int)
    }

    /// Hands out the stored listing for the first directory whose path
    /// matches, consuming it; a path that is absent (or asked for
    /// again) reports an open failure and changes nothing.
    fn read_dir(&mut self, path: &String) -> (r: Listing)
        ensures
            ({
                let ds = old(self).dirs@;
                let i = find_dir(ds, path@);
                if i < ds.len() {
                    r == ds[i].listing && final(self).dirs@ == ds.remove(i)
                } else {
                    r == Listing::Failed((FsError { kind: FsErrorKind::NotFound, path: *path }))
                        && final(self).dirs@ == ds
                }
            }),
    {
        let ghost ds0 = self.dirs@;
        let mut i: usize = 0;
        while i < self.dirs.len()
            invariant
                i <= self.dirs@.len(),
                self.dirs@ == ds0,
                ds0 == old(self).dirs@,
                find_dir(ds0, path@) == find_dir_from(ds0, path@, i as int),
            decreases self.dirs@.len() - i,
        {
            if self.dirs[i].path == *path {
                let d = self.dirs.remove(i);
                proof {
                    assert(find_dir(ds0, path@) == i as int);
                    lemma_fs_potential_remove(ds0, i as int, ds0.len() as int);
                    assert(d == ds0[i as int]);
                    assert(self.dirs@ == ds0.remove(i as int));
                    assert(fs_potential(self.dirs@, self.dirs@.len() as int) + dir_weight(d)
                        == fs_potential(ds0, ds0.len() as int));
                }
                return d.listing;
            }
            i = i + 1;
        }
        Listing::Failed(FsError::new(FsErrorKind::NotFound, path.clone()))
    }
}

} // verus!
