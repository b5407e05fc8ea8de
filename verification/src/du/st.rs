//! The sequential traversal source: single-threaded, synchronous.

use vstd::prelude::*;

use crate::du::{DuSource, Entry, NodeId};
use crate::util::{built_entries, lemma_built_entries_shape, listing_applied, listing_errors,
    Adapter, FsError, Listing};

verus! {

/// The sequential source. `enqueue` performs the directory listing
/// immediately through the adapter, buffering every produced entry
/// into a last-in-first-out stack and every failure into the error
/// list; `next_entry` pops the most recently buffered entry, so the
/// visitation order is unspecified and no caller may depend on it.
pub struct Source<A: Adapter> {
    pub adapter: A,
    pub entries: Vec<Entry>,
    pub errors: Vec<FsError>,
    /// Strict bound on every buffered entry's parent id.
    pub bound: Ghost<nat>,
}

impl<A: Adapter> Source<A> {
    pub fn new(adapter: A) -> (r: Source<A>)
        ensures
            r.inv(),
            r.id_bound() == 0,
            r.error_seq() == Seq::<FsError>::empty(),
            r.entries@ == Seq::<Entry>::empty(),
            r.adapter == adapter,
    {
        Source { adapter, entries: Vec::new(), errors: Vec::new(), bound: Ghost(0nat) }
    }

    /// Applies what listing one directory produced: every successful
    /// item becomes a buffered entry under `parent` and every failure
    /// is recorded, both in enumeration order; an open failure records
    /// exactly one error and buffers nothing.
    pub fn absorb_listing(&mut self, parent: NodeId, listing: Listing)
        ensures
            final(self).adapter == old(self).adapter,
            final(self).bound == old(self).bound,
            match listing {
                Listing::Failed(e) => final(self).entries@ == old(self).entries@
                    && final(self).errors@ == old(self).errors@.push(e),
                Listing::Items(v) => final(self).entries@ == old(self).entries@
                    + built_entries(parent, v@, v@.len() as int)
                    && final(self).errors@ == old(self).errors@ + listing_errors(v@, v@.len() as int),
            },
    {
        match listing {
            Listing::Failed(e) => {
                self.errors.push(e);
            },
            Listing::Items(v) => {
                let ghost orig = v@;
                let ghost ents0 = self.entries@;
                let ghost errs0 = self.errors@;
                let mut v = v;
                let total = v.len();
                let mut j: usize = 0;
                while j < total
                    invariant
                        j <= total,
                        total == orig.len(),
                        j + v@.len() == total,
                        v@ == orig.subrange(j as int, total as int),
                        self.entries@ == ents0 + built_entries(parent, orig, j as int),
                        self.errors@ == errs0 + listing_errors(orig, j as int),
                        self.adapter == old(self).adapter,
                        self.bound == old(self).bound,
                        ents0 == old(self).entries@,
                        errs0 == old(self).errors@,
                    decreases total - j,
                {
                    let item = v.remove(0);
                    proof {
                        assert(item == orig[j as int]);
                        assert(v@ =~= orig.subrange(j + 1int, total as int));
                    }
                    match item {
                        Result::Ok(raw) => {
                            match crate::util::build_entry(parent, raw) {
                                Result::Ok(e) => self.entries.push(e),
                                Result::Err(er) => self.errors.push(er),
                            }
                        },
                        Result::Err(er) => self.errors.push(er),
                    }
                    proof {
                        assert(self.entries@ =~= ents0 + built_entries(
                            parent,
                            orig,
                            j + 1int,
                        ));
                        assert(self.errors@ =~= errs0 + listing_errors(orig, j + 1int));
                    }
                    j = j + 1;
                }
                proof {
                    assert(built_entries(parent, orig, total as int) == built_entries(
                        parent,
                        orig,
                        j as int,
                    ));
                    assert(listing_errors(orig, total as int) == listing_errors(
                        orig,
                        j as int,
                    ));
                }
            },
        }
    }
}

impl<A: Adapter> DuSource for Source<A> {
    open spec fn inv(&self) -> bool {
        forall|k: int|
            0 <= k < self.entries@.len() ==> (#[trigger] self.entries@[k]).parent.0
                < self.bound@ && self.entries@[k].info.is_fresh()
    }

    open spec fn id_bound(&self) -> nat {
        self.bound@
    }

    open spec fn error_seq(&self) -> Seq<FsError> {
        self.errors@
    }

    open spec fn pending(&self) -> nat {
        self.entries@.len() + self.adapter.potential()
    }

    /// No-op: the work already happened synchronously in `enqueue`.
    fn begin(&mut self)
        ensures
            *final(self) == *old(self),
    {
    }

    /// No-op: nothing runs between calls.
    fn finish(&mut self)
        ensures
            *final(self) == *old(self),
    {
    }

    /// Pops the most recently buffered entry; absent only when the
    /// buffer is empty, which means nothing is ready now.
    fn next_entry(&mut self) -> (r: Option<Entry>)
        ensures
            old(self).entries@.len() > 0 ==> r == Option::Some(old(self).entries@.last())
                && final(self).entries@ == old(self).entries@.drop_last(),
            old(self).entries@.len() == 0 ==> r is None && final(self).entries@ == old(
                self,
            ).entries@,
            final(self).errors@ == old(self).errors@,
            final(self).adapter == old(self).adapter,
            final(self).bound == old(self).bound,
    {
        self.entries.pop()
    }

    /// Reads the directory through the adapter at once and absorbs
    /// whatever listing came back.
    fn enqueue(&mut self, parent: NodeId, path: String)
        ensures
            exists|l: Listing|
                listing_applied(
                    parent,
                    l,
                    old(self).entries@,
                    final(self).entries@,
                    old(self).errors@,
                    final(self).errors@,
                ),
    {
        proof {
            if parent.0 + 1 > self.bound@ {
                self.bound@ = (parent.0 + 1) as nat;
            }
        }
        let listing = self.adapter.read_dir(&path);
        let ghost pre = *self;
        let ghost l0 = listing;
        let ghost v_len: int = match l0 {
            Listing::Items(v) => v@.len() as int,
            Listing::Failed(_) => 0,
        };
        self.absorb_listing(parent, listing);
        proof {
            assert forall|k: int| 0 <= k < self.entries@.len() implies (
            #[trigger] self.entries@[k]).parent.0 < self.bound@
                && self.entries@[k].info.is_fresh() by {
                if k < pre.entries@.len() {
                    assert(pre.entries@[k] == self.entries@[k]);
                } else {
                    let items = match l0 {
                        Listing::Items(v) => v@,
                        Listing::Failed(_) => Seq::empty(),
                    };
                    let built = built_entries(parent, items, v_len);
                    lemma_built_entries_shape(parent, items, v_len);
                    assert(self.entries@[k] == built[k - pre.entries@.len()]);
                }
            }
            assert(old(self).errors@.is_prefix_of(self.errors@));
            let items = match l0 {
                Listing::Items(v) => v@,
                Listing::Failed(_) => Seq::empty(),
            };
            lemma_built_entries_shape(parent, items, v_len);
            assert(self.entries@.len() <= pre.entries@.len() + v_len);
            assert(v_len + self.adapter.potential() <= old(self).adapter.potential());
            assert(listing_applied(
                parent,
                l0,
                old(self).entries@,
                self.entries@,
                old(self).errors@,
                self.errors@,
            ));
        }
    }

    fn errors(&self) -> (r: &Vec<FsError>) {
        &self.errors
    }
}

} // verus!
