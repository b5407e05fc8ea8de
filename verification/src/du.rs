//! Disk usage: the tree arena of aggregated statistics and the
//! incremental-drain driver.

use vstd::prelude::*;

pub mod mt;
pub mod st;

use crate::util::FsError;

verus! {

/// Classification of one filesystem item.
#[derive(Clone, Copy, PartialEq, Eq, Structural, Debug)]
pub enum FileKind {
    Dir,
    File,
    Other,
}

impl FileKind {
    /// Classifies an item from the two flags a metadata lookup reports;
    /// anything that is neither a directory nor a regular file is `Other`.
    pub fn classify(is_dir: bool, is_file: bool) -> (r: FileKind)
        ensures
            r == (if is_dir {
                FileKind::Dir
            } else if is_file {
                FileKind::File
            } else {
                FileKind::Other
            }),
    {
        if is_dir {
            FileKind::Dir
        } else if is_file {
            FileKind::File
        } else {
            FileKind::Other
        }
    }
}

/// Arena-local handle for one node. Only the arena mints ids other than
/// the root's, so a held id always indexes an existing node.
#[derive(Clone, Copy, PartialEq, Eq, Structural, Debug)]
pub struct NodeId(pub usize);

impl NodeId {
    /// The distinguished handle of the arena's root slot.
    pub fn root() -> (r: NodeId)
        ensures
            r.0 == 0,
    {
        NodeId(0)
    }

    pub fn new(id: usize) -> (r: NodeId)
        ensures
            r.0 == id,
    {
        NodeId(id)
    }

    pub fn get(self) -> (r: usize)
        ensures
            r == self.0,
    {
        self.0
    }
}

/// The four aggregate measures as unbounded integers, for specifications.
pub ghost struct Totals {
    pub size: int,
    pub files: int,
    pub dirs: int,
    pub other: int,
}

impl Totals {
    pub open spec fn zero() -> Totals {
        Totals { size: 0, files: 0, dirs: 0, other: 0 }
    }

    pub open spec fn plus(self, o: Totals) -> Totals {
        Totals {
            size: self.size + o.size,
            files: self.files + o.files,
            dirs: self.dirs + o.dirs,
            other: self.other + o.other,
        }
    }

    pub open spec fn nonneg(self) -> bool {
        self.size >= 0 && self.files >= 0 && self.dirs >= 0 && self.other >= 0
    }

    pub open spec fn le(self, o: Totals) -> bool {
        self.size <= o.size && self.files <= o.files && self.dirs <= o.dirs && self.other
            <= o.other
    }
}

/// The `Info` a freshly listed entry carries: counters seeded to 1 for
/// the matching kind only, and its own size before any aggregation.
pub open spec fn fresh_info(name: String, kind: FileKind, size: u64) -> Info {
    Info {
        name,
        kind,
        size,
        files: if kind == FileKind::File {
            1u32
        } else {
            0u32
        },
        dirs: if kind == FileKind::Dir {
            1u32
        } else {
            0u32
        },
        other: if kind == FileKind::Other {
            1u32
        } else {
            0u32
        },
    }
}

/// The leaf contribution of an entry of the given kind and own size:
/// exactly one of the three counters is 1.
pub open spec fn seed_totals(kind: FileKind, size: int) -> Totals {
    Totals {
        size,
        files: if kind == FileKind::File {
            1int
        } else {
            0int
        },
        dirs: if kind == FileKind::Dir {
            1int
        } else {
            0int
        },
        other: if kind == FileKind::Other {
            1int
        } else {
            0int
        },
    }
}

/// Name, kind, own size and the three aggregate counters of one node.
pub struct Info {
    /// Owned terminal path component.
    pub name: String,
    pub kind: FileKind,
    /// Aggregated bytes; for a freshly produced entry, its own bytes.
    pub size: u64,
    /// Sub-files, includes self.
    pub files: u32,
    /// Sub-dirs, includes self.
    pub dirs: u32,
    /// Unknown sub-items, includes self.
    pub other: u32,
}

impl Info {
    /// The aggregate measures of this info as unbounded integers.
    pub open spec fn totals(self) -> Totals {
        Totals {
            size: self.size as int,
            files: self.files as int,
            dirs: self.dirs as int,
            other: self.other as int,
        }
    }

    /// Counters still as seeded at construction: nothing aggregated yet.
    pub open spec fn is_fresh(self) -> bool {
        self == fresh_info(self.name, self.kind, self.size)
    }

    pub fn new(name: String, kind: FileKind, size: u64) -> (r: Info)
        ensures
            r == fresh_info(name, kind, size),
    {
        Info {
            name,
            kind,
            size,
            files: if kind == FileKind::File {
                1
            } else {
                0
            },
            dirs: if kind == FileKind::Dir {
                1
            } else {
                0
            },
            other: if kind == FileKind::Other {
                1
            } else {
                0
            },
        }
    }

    /// Adds another entry's measures into this aggregate. The counters
    /// are unsigned and the arena accepts no addition that would
    /// overflow them: trees beyond `u32`/`u64` totals are outside the
    /// stated limits.
    pub fn apply(&mut self, info: &Info)
        requires
            old(self).size + info.size <= u64::MAX,
            old(self).files + info.files <= u32::MAX,
            old(self).dirs + info.dirs <= u32::MAX,
            old(self).other + info.other <= u32::MAX,
        ensures
            final(self).name == old(self).name,
            final(self).kind == old(self).kind,
            final(self).totals() == old(self).totals().plus(info.totals()),
    {
        self.size = self.size + info.size;
        self.files = self.files + info.files;
        self.dirs = self.dirs + info.dirs;
        self.other = self.other + info.other;
    }
}

impl Default for Info {
    /// The aggregate a root starts from: the scanned directory itself,
    /// with an empty name and zero own size.
    fn default() -> (r: Info)
        ensures
            r == fresh_info(r.name, FileKind::Dir, 0),
            r.name@ == Seq::<char>::empty(),
    {
        Info::new(String::new(), FileKind::Dir, 0)
    }
}

/// One node of the arena.
pub struct Node {
    /// Aggregate over this node and every descendant.
    pub info: Info,
    /// The root's parent is itself: a sentinel self-loop.
    pub parent: NodeId,
    /// Children in insertion order, never sorted.
    pub children: Vec<NodeId>,
    /// This node's fixed leaf contribution, kept for specification.
    pub own: Ghost<Totals>,
}

impl Node {
    pub fn new(info: Info, parent: NodeId) -> (r: Node)
        requires
            info.is_fresh(),
        ensures
            r.info == info,
            r.parent == parent,
            r.children@ == Seq::<NodeId>::empty(),
            r.own@ == info.totals(),
    {
        let ghost t = info.totals();
        Node { info, parent, children: Vec::new(), own: Ghost(t) }
    }
}

/// The parent index recorded at slot `j`.
pub open spec fn pidx(s: Seq<Node>, j: int) -> int {
    s[j].parent.0 as int
}

/// Parent links are well formed: the root is slot 0 and its own parent,
/// and every later node's parent lies strictly below it, so ancestor
/// chains reach the root.
pub open spec fn parents_ok(s: Seq<Node>) -> bool {
    &&& s.len() >= 1
    &&& pidx(s, 0) == 0
    &&& forall|j: int| 1 <= j < s.len() ==> 0 <= #[trigger] pidx(s, j) < j
}

/// Slot `i` is `j` itself or an ancestor of `j`: the parent chain from
/// `j` passes through `i`.
pub open spec fn is_desc(s: Seq<Node>, j: int, i: int) -> bool
    decreases j,
{
    if j == i {
        true
    } else if j <= 0 {
        false
    } else if 0 <= pidx(s, j) < j {
        is_desc(s, pidx(s, j), i)
    } else {
        false
    }
}

/// Sum of the leaf contributions of the first `k` slots that descend
/// from `i` (including `i` itself).
pub open spec fn sum_desc(s: Seq<Node>, i: int, k: int) -> Totals
    decreases k,
{
    if k <= 0 {
        Totals::zero()
    } else {
        sum_desc(s, i, k - 1).plus(
            if is_desc(s, k - 1, i) {
                s[k - 1].own@
            } else {
                Totals::zero()
            },
        )
    }
}

/// Sum of every slot's leaf contribution among the first `k`, whatever
/// the tree's shape.
pub open spec fn total_own(s: Seq<Node>, k: int) -> Totals
    decreases k,
{
    if k <= 0 {
        Totals::zero()
    } else {
        total_own(s, k - 1).plus(s[k - 1].own@)
    }
}

/// The ids among the first `k` slots whose parent is `i`, in ascending
/// (that is, insertion) order.
pub open spec fn kids(s: Seq<Node>, i: int, k: int) -> Seq<int>
    decreases k,
{
    if k <= 0 {
        Seq::empty()
    } else {
        kids(s, i, k - 1) + (if k - 1 >= 1 && pidx(s, k - 1) == i {
            seq![k - 1]
        } else {
            Seq::empty()
        })
    }
}

/// A node's recorded child list, as plain indices.
pub open spec fn child_view(n: Node) -> Seq<int> {
    n.children@.map_values(|c: NodeId| c.0 as int)
}

/// The stored leaf contribution matches the node's kind: 1 in exactly
/// the matching counter, and a non-negative own size.
pub open spec fn own_ok(n: Node) -> bool {
    n.own@ == seed_totals(n.info.kind, n.own@.size) && n.own@.size >= 0
}

/// The arena. It exclusively owns all nodes in an append-only vector:
/// no node is ever removed or reindexed, and ids are valid by
/// construction.
pub struct Stats {
    pub nodes: Vec<Node>,
}

impl Stats {
    /// Every aggregate in the arena equals the sum of the leaf
    /// contributions over the node's entire descendant set (itself
    /// included), and each child list records exactly the nodes whose
    /// parent link points here, in insertion order.
    pub open spec fn wf(self) -> bool {
        &&& parents_ok(self.nodes@)
        &&& forall|i: int|
            0 <= i < self.nodes@.len() ==> own_ok(#[trigger] self.nodes@[i])
        &&& forall|i: int|
            0 <= i < self.nodes@.len() ==> (#[trigger] self.nodes@[i]).info.totals()
                == sum_desc(self.nodes@, i, self.nodes@.len() as int)
        &&& forall|i: int|
            0 <= i < self.nodes@.len() ==> child_view(#[trigger] self.nodes@[i])
                == kids(self.nodes@, i, self.nodes@.len() as int)
    }
}

impl Default for Stats {
    /// One root node: the scanned directory itself, nothing aggregated.
    fn default() -> (r: Stats)
        ensures
            r.wf(),
            r.nodes@.len() == 1,
            r.nodes@[0].parent.0 == 0,
    {
        Stats::new()
    }
}

/// Descendants lie at or above their ancestor in arena order.
proof fn lemma_desc_ge(s: Seq<Node>, j: int, i: int)
    requires
        is_desc(s, j, i),
    ensures
        i <= j,
    decreases j,
{
    if j != i {
        lemma_desc_ge(s, pidx(s, j), i);
    }
}

/// Every slot descends from the root.
proof fn lemma_desc_of_root(s: Seq<Node>, j: int)
    requires
        parents_ok(s),
        0 <= j < s.len(),
    ensures
        is_desc(s, j, 0),
    decreases j,
{
    if j > 0 {
        lemma_desc_of_root(s, pidx(s, j));
    }
}

/// Descent is transitive along parent links.
proof fn lemma_desc_trans(s: Seq<Node>, a: int, b: int, c: int)
    requires
        is_desc(s, a, b),
        is_desc(s, b, c),
    ensures
        is_desc(s, a, c),
    decreases a,
{
    if a != b {
        lemma_desc_trans(s, pidx(s, a), b, c);
    }
}

/// `is_desc` reads only parent links: any edit that keeps them, and any
/// appended suffix, leaves it unchanged on the common prefix.
proof fn lemma_desc_frame(s1: Seq<Node>, s2: Seq<Node>, j: int, i: int)
    requires
        forall|m: int| 0 <= m < s1.len() ==> (#[trigger] s1[m]).parent == s2[m].parent,
        s1.len() <= s2.len(),
        j < s1.len(),
    ensures
        is_desc(s1, j, i) == is_desc(s2, j, i),
    decreases j,
{
    if j > 0 && j != i && 0 <= pidx(s1, j) < j {
        lemma_desc_frame(s1, s2, pidx(s1, j), i);
    }
}

/// `sum_desc` reads only parent links and leaf contributions.
proof fn lemma_sum_frame(s1: Seq<Node>, s2: Seq<Node>, i: int, k: int)
    requires
        forall|m: int|
            0 <= m < s1.len() ==> (#[trigger] s1[m]).parent == s2[m].parent && s1[m].own
                == s2[m].own,
        s1.len() <= s2.len(),
        k <= s1.len(),
    ensures
        sum_desc(s1, i, k) == sum_desc(s2, i, k),
    decreases k,
{
    if k > 0 {
        lemma_sum_frame(s1, s2, i, k - 1);
        lemma_desc_frame(s1, s2, k - 1, i);
    }
}

/// `kids` reads only parent links.
proof fn lemma_kids_frame(s1: Seq<Node>, s2: Seq<Node>, i: int, k: int)
    requires
        forall|m: int| 0 <= m < s1.len() ==> (#[trigger] s1[m]).parent == s2[m].parent,
        s1.len() <= s2.len(),
        k <= s1.len(),
    ensures
        kids(s1, i, k) == kids(s2, i, k),
    decreases k,
{
    if k > 0 {
        lemma_kids_frame(s1, s2, i, k - 1);
    }
}

/// With well-formed contributions, every partial descendant sum is
/// non-negative in each field.
proof fn lemma_sum_nonneg(s: Seq<Node>, i: int, k: int)
    requires
        forall|m: int| 0 <= m < s.len() ==> own_ok(#[trigger] s[m]),
        k <= s.len(),
    ensures
        sum_desc(s, i, k).nonneg(),
    decreases k,
{
    if k > 0 {
        lemma_sum_nonneg(s, i, k - 1);
    }
}

/// Any node's descendant sum is bounded, field by field, by the
/// root's: the root's aggregate dominates every other.
proof fn lemma_sum_le_root(s: Seq<Node>, i: int, k: int)
    requires
        parents_ok(s),
        forall|m: int| 0 <= m < s.len() ==> own_ok(#[trigger] s[m]),
        k <= s.len(),
    ensures
        sum_desc(s, i, k).le(sum_desc(s, 0, k)),
    decreases k,
{
    if k > 0 {
        lemma_sum_le_root(s, i, k - 1);
        lemma_desc_of_root(s, k - 1);
    }
}

/// A slot nothing descends from sums to zero.
proof fn lemma_sum_absent(s: Seq<Node>, i: int, k: int)
    requires
        forall|m: int| 0 <= m < k ==> !is_desc(s, m, i),
    ensures
        sum_desc(s, i, k) == Totals::zero(),
    decreases k,
{
    if k > 0 {
        lemma_sum_absent(s, i, k - 1);
    }
}

/// A slot nothing points at has no children.
proof fn lemma_kids_absent(s: Seq<Node>, i: int, k: int)
    requires
        forall|m: int| 1 <= m < k ==> pidx(s, m) != i,
    ensures
        kids(s, i, k) == Seq::<int>::empty(),
    decreases k,
{
    if k > 0 {
        lemma_kids_absent(s, i, k - 1);
        assert(kids(s, i, k) =~= Seq::<int>::empty());
    }
}

/// Mapping a pushed child list pushes the mapped id.
proof fn lemma_child_view_push(v: Seq<NodeId>, x: NodeId)
    ensures
        v.push(x).map_values(|c: NodeId| c.0 as int) == v.map_values(|c: NodeId| c.0 as int).push(
            x.0 as int,
        ),
{
    assert(v.push(x).map_values(|c: NodeId| c.0 as int) =~= v.map_values(
        |c: NodeId| c.0 as int,
    ).push(x.0 as int));
}

/// Aggregation invariant, stated on its own: in a well-formed arena
/// every node's aggregate equals the sum of the leaf contributions of
/// its entire descendant set, itself included — for any tree shape and
/// whatever order the entries arrived in.
pub proof fn lemma_aggregation_invariant(s: Stats, i: int)
    requires
        s.wf(),
        0 <= i < s.nodes@.len(),
    ensures
        s.nodes@[i].info.totals() == sum_desc(s.nodes@, i, s.nodes@.len() as int),
{
}

proof fn lemma_sum_root_total(s: Seq<Node>, k: int)
    requires
        parents_ok(s),
        k <= s.len(),
    ensures
        sum_desc(s, 0, k) == total_own(s, k),
    decreases k,
{
    if k > 0 {
        lemma_sum_root_total(s, k - 1);
        lemma_desc_of_root(s, k - 1);
    }
}

/// The root's aggregate dominates every node's, field by field: each
/// descendant set is part of the root's, and every contribution is
/// non-negative. This is why headroom at the root is the only overflow
/// condition an insertion needs.
pub proof fn lemma_root_dominates(s: Stats, i: int)
    requires
        s.wf(),
        0 <= i < s.nodes@.len(),
    ensures
        s.nodes@[i].info.totals().le(s.nodes@[0].info.totals()),
{
    lemma_sum_le_root(s.nodes@, i, s.nodes@.len() as int);
}

/// The root's aggregate is the plain total of every node's leaf
/// contribution: it does not depend on the shape of the tree, so any
/// two traversals that discover the same items agree at the root.
pub proof fn lemma_root_aggregate_is_total(s: Stats)
    requires
        s.wf(),
    ensures
        s.nodes@[0].info.totals() == total_own(s.nodes@, s.nodes@.len() as int),
{
    lemma_sum_root_total(s.nodes@, s.nodes@.len() as int);
}

/// Plain running sum of the first `k` contributions of a sequence.
pub open spec fn sum_totals(q: Seq<Totals>, k: int) -> Totals
    decreases k,
{
    if k <= 0 {
        Totals::zero()
    } else {
        sum_totals(q, k - 1).plus(q[k - 1])
    }
}

proof fn lemma_sum_totals_frame(a: Seq<Totals>, b: Seq<Totals>, k: int)
    requires
        forall|m: int| 0 <= m < k ==> a[m] == b[m],
    ensures
        sum_totals(a, k) == sum_totals(b, k),
    decreases k,
{
    if k > 0 {
        lemma_sum_totals_frame(a, b, k - 1);
    }
}

/// Taking one contribution out takes exactly it out of the sum.
proof fn lemma_sum_totals_remove(q: Seq<Totals>, i: int, k: int)
    requires
        0 <= i < q.len(),
        i < k <= q.len(),
    ensures
        sum_totals(q.remove(i), k - 1).plus(q[i]) == sum_totals(q, k),
    decreases k,
{
    if k == i + 1 {
        lemma_sum_totals_frame(q.remove(i), q, i);
    } else {
        lemma_sum_totals_remove(q, i, k - 1);
        assert(q.remove(i)[k - 2] == q[k - 1]);
    }
}

/// The sum of a sequence of contributions depends only on its
/// multiset: any reordering leaves it unchanged.
proof fn lemma_sum_totals_permutation(a: Seq<Totals>, b: Seq<Totals>)
    requires
        a.to_multiset() == b.to_multiset(),
    ensures
        sum_totals(a, a.len() as int) == sum_totals(b, b.len() as int),
    decreases a.len(),
{
    a.to_multiset_ensures();
    b.to_multiset_ensures();
    if a.len() == 0 {
        assert(b.len() == 0);
    } else {
        let last = a.len() - 1;
        let x = a[last];
        assert(a.contains(x));
        assert(b.to_multiset().count(x) > 0);
        assert(b.contains(x));
        let i = choose|i: int| 0 <= i < b.len() && b[i] == x;
        assert(a.remove(last).to_multiset() == a.to_multiset().remove(x));
        assert(b.remove(i).to_multiset() == b.to_multiset().remove(x));
        lemma_sum_totals_permutation(a.remove(last), b.remove(i));
        lemma_sum_totals_remove(a, last, a.len() as int);
        lemma_sum_totals_remove(b, i, b.len() as int);
    }
}

proof fn lemma_total_own_as_sum(s: Seq<Node>, k: int)
    requires
        0 <= k <= s.len(),
    ensures
        total_own(s, k) == sum_totals(s.map_values(|n: Node| n.own@), k),
    decreases k,
{
    if k > 0 {
        lemma_total_own_as_sum(s, k - 1);
        assert(s.map_values(|n: Node| n.own@)[k - 1] == s[k - 1].own@);
    }
}

/// Parity of aggregates: two well-formed arenas holding the same
/// multiset of leaf contributions — the same discovered items, in
/// whatever order and under whatever tree shape the traversal placed
/// them — have the same root aggregate.
pub proof fn lemma_same_contributions_same_root(a: Stats, b: Stats)
    requires
        a.wf(),
        b.wf(),
        a.nodes@.map_values(|n: Node| n.own@).to_multiset() == b.nodes@.map_values(
            |n: Node| n.own@,
        ).to_multiset(),
    ensures
        a.nodes@[0].info.totals() == b.nodes@[0].info.totals(),
{
    lemma_root_aggregate_is_total(a);
    lemma_root_aggregate_is_total(b);
    lemma_total_own_as_sum(a.nodes@, a.nodes@.len() as int);
    lemma_total_own_as_sum(b.nodes@, b.nodes@.len() as int);
    lemma_sum_totals_permutation(
        a.nodes@.map_values(|n: Node| n.own@),
        b.nodes@.map_values(|n: Node| n.own@),
    );
}

/// How slot `m` of the arena mid-walk relates to the snapshot `s0`:
/// ancestors of `par` that the walk has already passed (those the
/// chain reaches before `cur`) carry the extra totals `t`; every other
/// slot is untouched.
spec fn walk_rel(s0: Seq<Node>, s1: Seq<Node>, par: int, cur: int, t: Totals, m: int) -> bool {
    &&& s1[m].parent == s0[m].parent
    &&& s1[m].own == s0[m].own
    &&& s1[m].children == s0[m].children
    &&& s1[m].info.name == s0[m].info.name
    &&& s1[m].info.kind == s0[m].info.kind
    &&& s1[m].info.totals() == if is_desc(s0, par, m) && !is_desc(s0, cur, m) {
        s0[m].info.totals().plus(t)
    } else {
        s0[m].info.totals()
    }
}

/// How slot `m` relates to the snapshot once the whole ancestor chain
/// of `par` has been applied.
spec fn settled_rel(s0: Seq<Node>, s1: Seq<Node>, par: int, t: Totals, m: int) -> bool {
    &&& s1[m].parent == s0[m].parent
    &&& s1[m].own == s0[m].own
    &&& s1[m].children == s0[m].children
    &&& s1[m].info.name == s0[m].info.name
    &&& s1[m].info.kind == s0[m].info.kind
    &&& s1[m].info.totals() == if is_desc(s0, par, m) {
        s0[m].info.totals().plus(t)
    } else {
        s0[m].info.totals()
    }
}

impl Stats {
    pub fn new() -> (r: Stats)
        ensures
            r.wf(),
            r.nodes@.len() == 1,
            r.nodes@[0].parent.0 == 0,
            r.nodes@[0].info == (Info {
                name: r.nodes@[0].info.name,
                kind: FileKind::Dir,
                size: 0u64,
                files: 0u32,
                dirs: 1u32,
                other: 0u32,
            }),
            r.nodes@[0].info.name@ == Seq::<char>::empty(),
            r.nodes@[0].children@ == Seq::<NodeId>::empty(),
    {
        let root = Node::new(Info::default(), NodeId::root());
        let mut nodes: Vec<Node> = Vec::new();
        nodes.push(root);
        let r = Stats { nodes };
        proof {
            let s = r.nodes@;
            assert(sum_desc(s, 0, 0) == Totals::zero());
            assert(kids(s, 0, 0) == Seq::<int>::empty());
            assert(sum_desc(s, 0, 1) == Totals::zero().plus(s[0].own@));
            assert(child_view(s[0]) =~= kids(s, 0, 1));
            assert forall|i: int| 0 <= i < s.len() implies own_ok(#[trigger] s[i]) by {}
        }
        r
    }

    /// The root's aggregate: the whole scanned tree.
    pub fn head(&self) -> (r: &Node)
        requires
            self.wf(),
        ensures
            *r == self.nodes@[0],
    {
        &self.nodes[0]
    }

    /// The node a valid id designates.
    pub fn node(&self, id: NodeId) -> (r: &Node)
        requires
            id.0 < self.nodes@.len(),
        ensures
            *r == self.nodes@[id.0 as int],
    {
        &self.nodes[id.0]
    }

    /// The node behind `id`'s parent link; the root yields itself.
    pub fn parent(&self, id: NodeId) -> (r: &Node)
        requires
            self.wf(),
            id.0 < self.nodes@.len(),
        ensures
            *r == self.nodes@[pidx(self.nodes@, id.0 as int)],
    {
        let p = self.nodes[id.0].parent;
        &self.nodes[p.0]
    }

    pub fn len(&self) -> (r: usize)
        ensures
            r == self.nodes@.len(),
    {
        self.nodes.len()
    }

    /// Allocates the next id for `info` under `parent`, records it in
    /// the parent's child list, and folds the entry's measures into
    /// every ancestor's aggregate, root included — O(depth), no
    /// recomputation. The root's headroom bounds every ancestor's, so
    /// the stated limits are the only overflow conditions.
    #[verifier::loop_isolation(false)]
    pub fn push(&mut self, parent: NodeId, info: Info) -> (r: NodeId)
        requires
            old(self).wf(),
            parent.0 < old(self).nodes@.len(),
            info.is_fresh(),
            old(self).nodes@[0].info.size + info.size <= u64::MAX,
            old(self).nodes@[0].info.files + info.files <= u32::MAX,
            old(self).nodes@[0].info.dirs + info.dirs <= u32::MAX,
            old(self).nodes@[0].info.other + info.other <= u32::MAX,
        ensures
            final(self).wf(),
            r.0 == old(self).nodes@.len(),
            final(self).nodes@.len() == old(self).nodes@.len() + 1,
            final(self).nodes@[r.0 as int].info == info,
            final(self).nodes@[r.0 as int].parent == parent,
            final(self).nodes@[r.0 as int].own@ == info.totals(),
            forall|m: int|
                0 <= m < old(self).nodes@.len() ==> (#[trigger] final(self).nodes@[m]).parent
                    == old(self).nodes@[m].parent && final(self).nodes@[m].own == old(
                    self,
                ).nodes@[m].own && final(self).nodes@[m].info.name == old(
                    self,
                ).nodes@[m].info.name && final(self).nodes@[m].info.kind == old(
                    self,
                ).nodes@[m].info.kind,
            forall|m: int|
                0 <= m < old(self).nodes@.len() && m != parent.0 as int ==> (
                #[trigger] final(self).nodes@[m]).children == old(self).nodes@[m].children,
            final(self).nodes@[parent.0 as int].children@ == old(self).nodes@[parent.0 as int].children@.push(r),
            forall|m: int|
                0 <= m < old(self).nodes@.len() ==> (#[trigger] final(self).nodes@[m]).info.totals()
                    == if is_desc(old(self).nodes@, parent.0 as int, m) {
                    old(self).nodes@[m].info.totals().plus(info.totals())
                } else {
                    old(self).nodes@[m].info.totals()
                },
    {
        let id = NodeId::new(self.nodes.len());
        let ghost s0 = self.nodes@;
        let ghost t = info.totals();
        let ghost len = s0.len() as int;

        // Walk the ancestor chain from `parent` up to the root,
        // adding the new entry's measures into each aggregate.
        let mut p = parent;
        while p.get() != self.nodes[p.get()].parent.get()
            invariant
                p.0 < s0.len(),
                is_desc(s0, parent.0 as int, p.0 as int),
                self.nodes@.len() == s0.len(),
                forall|m: int|
                    0 <= m < s0.len() ==> #[trigger] walk_rel(
                        s0,
                        self.nodes@,
                        parent.0 as int,
                        p.0 as int,
                        t,
                        m,
                    ),
            decreases p.0,
        {
            let q = p.get();
            let next = self.nodes[q].parent;
            proof {
                assert(walk_rel(s0, self.nodes@, parent.0 as int, p.0 as int, t, q as int));
                assert(next.0 == pidx(s0, q as int));
                assert(q != 0);
                assert(next.0 < q);
                // the node about to be updated still carries its
                // snapshot aggregate, which the root's bounds
                assert(!(is_desc(s0, parent.0 as int, q as int) && !is_desc(
                    s0,
                    p.0 as int,
                    q as int,
                )));
                assert(self.nodes@[q as int].info.totals() == s0[q as int].info.totals());
                lemma_sum_le_root(s0, q as int, len);
                lemma_sum_nonneg(s0, q as int, len);
            }
            let ghost pre = self.nodes@;
            let nd = &mut self.nodes[q];
            nd.info.apply(&info);
            proof {
                assert(is_desc(s0, next.0 as int, next.0 as int));
                assert(is_desc(s0, q as int, next.0 as int));
                lemma_desc_trans(s0, parent.0 as int, q as int, next.0 as int);
                if is_desc(s0, next.0 as int, q as int) {
                    lemma_desc_ge(s0, next.0 as int, q as int);
                }
                assert forall|m: int| 0 <= m < s0.len() implies #[trigger] walk_rel(
                    s0,
                    self.nodes@,
                    parent.0 as int,
                    next.0 as int,
                    t,
                    m,
                ) by {
                    assert(walk_rel(s0, pre, parent.0 as int, p.0 as int, t, m));
                    if m != q as int {
                        assert(self.nodes@[m] == pre[m]);
                        assert(is_desc(s0, p.0 as int, m) == (m == q as int || is_desc(
                            s0,
                            next.0 as int,
                            m,
                        )));
                    }
                }
            }
            p = next;
        }

        // The loop leaves `p` at the slot that is its own parent: by
        // the parent ordering that is only the root.
        proof {
            assert(walk_rel(s0, self.nodes@, parent.0 as int, p.0 as int, t, p.0 as int));
            if p.0 != 0 {
                assert(pidx(s0, p.0 as int) < p.0 as int);
                assert(false);
            }
            assert(self.nodes@[0].info.totals() == s0[0].info.totals());
        }
        let ghost pre_root = self.nodes@;
        let nd = &mut self.nodes[0];
        nd.info.apply(&info);
        proof {
            lemma_desc_of_root(s0, parent.0 as int);
            assert forall|m: int| 0 <= m < s0.len() implies #[trigger] settled_rel(
                s0,
                self.nodes@,
                parent.0 as int,
                t,
                m,
            ) by {
                assert(walk_rel(s0, pre_root, parent.0 as int, 0, t, m));
                if m != 0 {
                    assert(self.nodes@[m] == pre_root[m]);
                }
            }
        }

        // Record the new node: child of `parent`, aggregate seeded with
        // its own contribution.
        let ghost pre_kid = self.nodes@;
        let pi = parent.get();
        let nd = &mut self.nodes[pi];
        nd.children.push(id);
        let ghost s1 = self.nodes@;
        self.nodes.push(Node::new(info, parent));

        proof {
            let s2 = self.nodes@;
            let n = len;
            lemma_child_view_push(pre_kid[pi as int].children@, id);
            assert(s1[pi as int].children@ == pre_kid[pi as int].children@.push(id));
            assert(s1[pi as int].info == pre_kid[pi as int].info);
            assert(s1[pi as int].parent == pre_kid[pi as int].parent);
            assert(s1[pi as int].own == pre_kid[pi as int].own);
            assert(forall|m: int| 0 <= m < n && m != pi as int ==> #[trigger] s1[m] == pre_kid[m]);
            assert(settled_rel(s0, pre_kid, parent.0 as int, t, pi as int));
            assert(s2[pi as int] == s1[pi as int]);
            assert(s2[parent.0 as int].children@ == s0[parent.0 as int].children@.push(id));
            assert forall|m: int| 0 <= m < n implies #[trigger] s1[m].parent == s0[m].parent
                && s1[m].own == s0[m].own by {
                assert(settled_rel(s0, pre_kid, parent.0 as int, t, m));
            }
            // parent links of the new arena
            assert(parents_ok(s2)) by {
                assert forall|j: int| 1 <= j < s2.len() implies 0 <= #[trigger] pidx(s2, j)
                    < j by {
                    if j < n {
                        assert(s2[j] == s1[j]);
                        assert(s1[j].parent == s0[j].parent);
                        assert(0 <= pidx(s0, j) < j);
                    } else {
                        assert(j == n);
                        assert(s2[n].parent == parent);
                    }
                }
                assert(s2[0] == s1[0]);
                assert(s1[0].parent == s0[0].parent);
            }
            // descent and sums over the old slots agree with the snapshot
            assert forall|m: int| 0 <= m < n implies (#[trigger] s2[m]).parent == s0[m].parent
                && s2[m].own == s0[m].own by {
                assert(s2[m] == s1[m]);
            }
            assert forall|i: int| 0 <= i < s2.len() implies own_ok(#[trigger] s2[i]) by {
                if i < n {
                    assert(settled_rel(s0, pre_kid, parent.0 as int, t, i));
                    assert(s2[i].own == s0[i].own);
                    assert(s2[i].info.kind == s0[i].info.kind);
                    assert(own_ok(s0[i]));
                } else {
                    assert(s2[i].own@ == info.totals());
                    assert(info == fresh_info(info.name, info.kind, info.size));
                }
            }
            assert forall|i: int| 0 <= i < s2.len() implies (#[trigger] s2[i]).info.totals()
                == sum_desc(s2, i, s2.len() as int) by {
                lemma_sum_frame(s0, s2, i, n);
                assert(sum_desc(s2, i, n + 1) == sum_desc(s2, i, n).plus(
                    if is_desc(s2, n, i) {
                        s2[n].own@
                    } else {
                        Totals::zero()
                    },
                ));
                if i < n {
                    lemma_desc_frame(s0, s2, parent.0 as int, i);
                    assert(is_desc(s2, n, i) == is_desc(s0, parent.0 as int, i));
                    assert(settled_rel(s0, pre_kid, parent.0 as int, t, i));
                    assert(s2[i].info.totals() == pre_kid[i].info.totals());
                    assert(sum_desc(s0, i, n) == s0[i].info.totals());
                } else {
                    assert(i == n);
                    assert forall|m: int| 0 <= m < n implies !is_desc(s2, m, n) by {
                        if is_desc(s2, m, n) {
                            lemma_desc_ge(s2, m, n);
                        }
                    }
                    lemma_sum_absent(s2, n, n);
                    assert(is_desc(s2, n, n));
                    assert(s2[n].info.totals() == info.totals());
                }
            }
            // child lists of the new arena
            assert forall|i: int| 0 <= i < s2.len() implies child_view(#[trigger] s2[i]) == kids(
                s2,
                i,
                s2.len() as int,
            ) by {
                lemma_kids_frame(s0, s2, i, n);
                assert(kids(s2, i, n + 1) == kids(s2, i, n) + (if n >= 1 && pidx(s2, n) == i {
                    seq![n]
                } else {
                    Seq::<int>::empty()
                }));
                if i < n {
                    assert(settled_rel(s0, pre_kid, parent.0 as int, t, i));
                    assert(kids(s0, i, n) == child_view(s0[i]));
                    if i == parent.0 as int {
                        assert(s2[i].children@ == s0[i].children@.push(id));
                        assert(child_view(s2[i]) =~= kids(s2, i, n + 1));
                    } else {
                        assert(s2[i].children == s0[i].children);
                        assert(child_view(s2[i]) =~= kids(s2, i, n + 1));
                    }
                } else {
                    assert forall|m: int| 1 <= m < n + 1 implies pidx(s2, m) != n by {
                        if m < n {
                            assert(s2[m].parent == s0[m].parent);
                            assert(pidx(s0, m) < m);
                        } else {
                            assert(pidx(s2, n) == parent.0 as int);
                        }
                    }
                    lemma_kids_absent(s2, n, n + 1);
                    assert(child_view(s2[n]) =~= Seq::<int>::empty());
                }
            }
            // the public shape of the change
            assert forall|m: int| 0 <= m < n implies #[trigger] s2[m].info.totals() == (
            if is_desc(s0, parent.0 as int, m) {
                s0[m].info.totals().plus(t)
            } else {
                s0[m].info.totals()
            }) by {
                assert(settled_rel(s0, pre_kid, parent.0 as int, t, m));
                assert(s2[m].info == pre_kid[m].info);
            }
            assert forall|m: int| 0 <= m < n && m != parent.0 as int implies (
            #[trigger] s2[m]).children == s0[m].children by {
                assert(settled_rel(s0, pre_kid, parent.0 as int, t, m));
            }
            assert forall|m: int| 0 <= m < n implies (#[trigger] s2[m]).parent == s0[m].parent
                && s2[m].own == s0[m].own && s2[m].info.name == s0[m].info.name
                && s2[m].info.kind == s0[m].info.kind by {
                assert(settled_rel(s0, pre_kid, parent.0 as int, t, m));
                assert(s2[m] == s1[m]);
                assert(s1[m].info == pre_kid[m].info);
            }
        }
        id
    }
}

/// Transient record of one discovered filesystem entry: produced once
/// by a source, consumed once by the driver.
pub struct Entry {
    pub parent: NodeId,
    pub info: Info,
    pub path: String,
}

impl Entry {
    pub fn new(parent: NodeId, info: Info, path: String) -> (r: Entry)
        ensures
            r.parent == parent,
            r.info == info,
            r.path == path,
    {
        Entry { parent, info, path }
    }
}

/// A traversal source: produces discovered filesystem entries and
/// accepts new directories to scan. An absent entry means "nothing
/// ready right now", not necessarily "traversal complete"; individual
/// failures never abort the traversal and are accumulated in order.
pub trait DuSource: Sized {
    /// The source's own well-formedness.
    open spec fn inv(&self) -> bool {
        true
    }

    /// Strict upper bound on the parent id of any entry the source may
    /// hand out: never above an id the caller passed in.
    open spec fn id_bound(&self) -> nat {
        0
    }

    /// The failures accumulated so far.
    open spec fn error_seq(&self) -> Seq<FsError> {
        Seq::empty()
    }

    /// Bound on the work still buffered or reachable: pulling an entry
    /// strictly lowers it and scheduling never raises it, so a drain
    /// over finitely much data provably ends.
    open spec fn pending(&self) -> nat {
        0
    }

    /// Starts source-specific execution: a worker pool blocks here
    /// until it drains to quiescence; a sequential source has already
    /// done the work on the way in.
    fn begin(&mut self)
        requires
            old(self).inv(),
        ensures
            final(self).inv(),
            final(self).id_bound() == old(self).id_bound(),
            final(self).pending() <= old(self).pending(),
            old(self).error_seq().is_prefix_of(final(self).error_seq()),
    ;

    /// Cooperative, non-blocking stop signal; in-flight work completes.
    fn finish(&mut self)
        requires
            old(self).inv(),
        ensures
            final(self).inv(),
            final(self).id_bound() == old(self).id_bound(),
            final(self).pending() <= old(self).pending(),
            old(self).error_seq().is_prefix_of(final(self).error_seq()),
    ;

    /// Non-blocking pull of one produced entry.
    fn next_entry(&mut self) -> (r: Option<Entry>)
        requires
            old(self).inv(),
        ensures
            final(self).inv(),
            final(self).id_bound() == old(self).id_bound(),
            old(self).error_seq().is_prefix_of(final(self).error_seq()),
            match r {
                Option::Some(e) => e.parent.0 < old(self).id_bound() && e.info.is_fresh()
                    && final(self).pending() < old(self).pending(),
                Option::None => final(self).pending() <= old(self).pending(),
            },
    ;

    /// Schedules a directory listing under an id the caller owns.
    fn enqueue(&mut self, parent: NodeId, path: String)
        requires
            old(self).inv(),
        ensures
            final(self).inv(),
            final(self).id_bound() == if parent.0 + 1 > old(self).id_bound() {
                (parent.0 + 1) as nat
            } else {
                old(self).id_bound()
            },
            final(self).pending() <= old(self).pending(),
            old(self).error_seq().is_prefix_of(final(self).error_seq()),
    ;

    /// The filesystem failures accumulated so far, in arrival order.
    fn errors(&self) -> (r: &Vec<FsError>)
        requires
            self.inv(),
        ensures
            r@ == self.error_seq(),
    ;
}

/// Decides, before each pulled entry is applied, whether draining goes
/// on; it sees the arena and the source read-only.
pub trait Probe<P: DuSource> {
    fn check(&mut self, stats: &Stats, source: &P) -> bool;
}

/// The probe that never stops the drain.
pub struct Always;

impl<P: DuSource> Probe<P> for Always {
    fn check(&mut self, _stats: &Stats, _source: &P) -> (r: bool)
        ensures
            r,
    {
        true
    }
}

/// Declares std::time::Instant, the opaque monotonic-clock reading the
/// time budget is measured from; nothing inside it is relied on.
#[verifier::external_type_specification]
#[verifier::external_body]
pub struct ExInstant(std::time::Instant);

/// Relies on std::time::Instant::now: an opaque reading of the
/// monotonic clock; nothing can be promised of its value.
#[verifier::external_body]
fn instant_now() -> std::time::Instant {
    std::time::Instant::now()
}

/// Relies on std::time::Instant::elapsed and Duration::as_millis:
/// whole milliseconds since `start`, clamped to `u64`. The clock is
/// not a function of the arguments, so nothing is promised of the
/// value.
#[verifier::external_body]
fn elapsed_ms(start: &std::time::Instant) -> u64 {
    let ms = start.elapsed().as_millis();
    if ms > u64::MAX as u128 {
        u64::MAX
    } else {
        ms as u64
    }
}

/// The driver's soft wall-clock budget: refuses once the elapsed
/// milliseconds reach it. Consulted only between entries, never within
/// one, so the entry in hand is always fully applied.
pub struct TimeLimit {
    start: std::time::Instant,
    budget_ms: u64,
}

impl<P: DuSource> Probe<P> for TimeLimit {
    fn check(&mut self, _stats: &Stats, _source: &P) -> bool {
        elapsed_ms(&self.start) < self.budget_ms
    }
}

proof fn lemma_prefix_push(a: Seq<NodeId>, b: Seq<NodeId>, x: NodeId)
    requires
        a.is_prefix_of(b),
    ensures
        a.is_prefix_of(b.push(x)),
{
    assert(b.push(x).subrange(0, a.len() as int) =~= b.subrange(0, a.len() as int));
}

/// What a drain leaves of a pre-existing arena slot: parent link, leaf
/// contribution, name and kind are untouched, and its child list only
/// gains appended ids.
pub open spec fn kept_node(pre: Seq<Node>, post: Seq<Node>, m: int) -> bool {
    &&& post[m].parent == pre[m].parent
    &&& post[m].own == pre[m].own
    &&& post[m].info.name == pre[m].info.name
    &&& post[m].info.kind == pre[m].info.kind
    &&& pre[m].children@.is_prefix_of(post[m].children@)
}

/// Disk usage: the driver owning the arena and the active source. The
/// arena is mutated only here, never concurrently.
pub struct Du<P> {
    pub stats: Stats,
    pub source: P,
    /// Whether a drain was stopped because an entry's measures would
    /// overflow the root's counters. Such an entry is dropped — the
    /// tree exceeds the arena's stated limits — and the stop is
    /// recorded here rather than passed over in silence.
    pub overflowed: bool,
}

impl<P: DuSource> Du<P> {
    /// The arena is well formed and the source can only name ids the
    /// arena has already minted.
    pub open spec fn wf(self) -> bool {
        &&& self.stats.wf()
        &&& self.source.inv()
        &&& self.source.id_bound() <= self.stats.nodes@.len()
    }

    pub fn new(source: P) -> (r: Du<P>)
        requires
            source.inv(),
            source.id_bound() == 0,
        ensures
            r.wf(),
            r.stats.nodes@.len() == 1,
            r.source == source,
            r.source.error_seq() == source.error_seq(),
            !r.overflowed,
    {
        Du { stats: Stats::new(), source, overflowed: false }
    }

    pub fn stats(&self) -> (r: &Stats)
        ensures
            *r == self.stats,
    {
        &self.stats
    }

    /// Seeds the single root task for `path` and starts the source.
    pub fn begin(&mut self, path: String)
        requires
            old(self).wf(),
        ensures
            final(self).wf(),
            final(self).stats == old(self).stats,
            final(self).overflowed == old(self).overflowed,
            final(self).source.id_bound() == if old(self).source.id_bound() < 1 {
                1nat
            } else {
                old(self).source.id_bound()
            },
            old(self).source.error_seq().is_prefix_of(final(self).source.error_seq()),
    {
        self.source.enqueue(NodeId::root(), path);
        self.source.begin();
    }

    /// Drains ready entries while `with` allows. The probe is consulted
    /// before each pulled entry is applied; when it refuses, that entry
    /// is discarded, not put back, and draining stops. Otherwise the
    /// entry is pushed into the arena under its recorded parent, and a
    /// discovered directory is scheduled under its new id. Returns how
    /// many entries were applied: the arena grows by exactly that many
    /// nodes and stays well formed throughout. An entry whose measures
    /// no longer fit the root's counters also stops the drain: such
    /// trees exceed the arena's stated limits.
    pub fn read<G: Probe<P>>(&mut self, with: &mut G) -> (count: usize)
        requires
            old(self).wf(),
        ensures
            final(self).wf(),
            final(self).stats.nodes@.len() == old(self).stats.nodes@.len() + count,
            count + final(self).source.pending() <= old(self).source.pending(),
            count == 0 ==> final(self).stats == old(self).stats,
            forall|m: int|
                0 <= m < old(self).stats.nodes@.len() ==> #[trigger] kept_node(
                    old(self).stats.nodes@,
                    final(self).stats.nodes@,
                    m,
                ),
            old(self).overflowed ==> final(self).overflowed,
            old(self).source.error_seq().is_prefix_of(final(self).source.error_seq()),
    {
        let start = self.stats.len();
        loop
            invariant
                self.wf(),
                start <= self.stats.nodes@.len(),
                start as int == old(self).stats.nodes@.len(),
                self.stats.nodes@.len() - start + self.source.pending() <= old(
                    self,
                ).source.pending(),
                self.stats.nodes@.len() == start as int ==> self.stats == old(self).stats,
                forall|m: int|
                    0 <= m < start as int ==> #[trigger] kept_node(
                        old(self).stats.nodes@,
                        self.stats.nodes@,
                        m,
                    ),
                old(self).overflowed ==> self.overflowed,
                old(self).source.error_seq().is_prefix_of(self.source.error_seq()),
            ensures
                self.wf(),
                start <= self.stats.nodes@.len(),
                self.stats.nodes@.len() - start + self.source.pending() <= old(
                    self,
                ).source.pending(),
                self.stats.nodes@.len() == start as int ==> self.stats == old(self).stats,
                forall|m: int|
                    0 <= m < start as int ==> #[trigger] kept_node(
                        old(self).stats.nodes@,
                        self.stats.nodes@,
                        m,
                    ),
                old(self).overflowed ==> self.overflowed,
                old(self).source.error_seq().is_prefix_of(self.source.error_seq()),
            decreases self.source.pending(),
        {
            let e = self.source.next_entry();
            match e {
                Option::None => {
                    break;
                },
                Option::Some(entry) => {
                    if !with.check(&self.stats, &self.source) {
                        break;
                    }
                    let head = self.stats.head();
                    if entry.info.size > u64::MAX - head.info.size || entry.info.files
                        > u32::MAX - head.info.files || entry.info.dirs > u32::MAX
                        - head.info.dirs || entry.info.other > u32::MAX - head.info.other {
                        self.overflowed = true;
                        break;
                    }
                    let ghost mid = self.stats.nodes@;
                    let Entry { parent, info, path } = entry;
                    let is_dir = info.kind == FileKind::Dir;
                    let next = self.stats.push(parent, info);
                    proof {
                        let os = old(self).stats.nodes@;
                        assert forall|m: int| 0 <= m < start as int implies #[trigger] kept_node(
                            os,
                            self.stats.nodes@,
                            m,
                        ) by {
                            assert(kept_node(os, mid, m));
                            if m == parent.0 as int {
                                lemma_prefix_push(
                                    os[m].children@,
                                    mid[m].children@,
                                    next,
                                );
                            }
                        }
                    }
                    if is_dir {
                        self.source.enqueue(next, path);
                    }
                },
            }
        }
        let end = self.stats.len();
        end - start
    }

    /// Drains under a soft wall-clock budget of `dur_ms` milliseconds:
    /// the budget is checked between entries, so the entry being
    /// applied when it runs out is still applied in full. Returns the
    /// applied count and the elapsed milliseconds; a later call can
    /// resume and complete the traversal.
    pub fn read_for(&mut self, dur_ms: u64) -> (r: (usize, u64))
        requires
            old(self).wf(),
        ensures
            final(self).wf(),
            final(self).stats.nodes@.len() == old(self).stats.nodes@.len() + r.0,
            r.0 + final(self).source.pending() <= old(self).source.pending(),
            r.0 == 0 ==> final(self).stats == old(self).stats,
            forall|m: int|
                0 <= m < old(self).stats.nodes@.len() ==> #[trigger] kept_node(
                    old(self).stats.nodes@,
                    final(self).stats.nodes@,
                    m,
                ),
            old(self).overflowed ==> final(self).overflowed,
            old(self).source.error_seq().is_prefix_of(final(self).source.error_seq()),
    {
        let start = instant_now();
        let mut limit = TimeLimit { start, budget_ms: dur_ms };
        let count = self.read(&mut limit);
        (count, elapsed_ms(&limit.start))
    }
}

} // verus!
