//! A path-component tree of filesystem whitelist entries.
//!
//! Each node holds one path component; the root stands for `/`. A node may
//! carry an entry `(VirtualFSEntryType, U)`, where `U` is caller-supplied
//! context used only to identify paths in error reports.

use vstd::prelude::*;

verus! {

/// The kind of filesystem entry a whitelisted path is given.
///
/// `AllowDev > ReadWrite > ReadOnly > Symlink` form a total order of
/// strength; `Tmpfs` is incomparable to every type. `Symlink` and `Tmpfs`
/// are leaf-exclusive: once placed at a path, no entry may exist strictly
/// below it.
#[derive(Copy, Clone, Debug, PartialEq, Eq, Structural)]
pub enum VirtualFSEntryType {
    AllowDev,
    ReadWrite,
    ReadOnly,
    Tmpfs,
    Symlink,
}

/// An error from inserting a path into the tree. `U` identifies the paths
/// involved, as handed to `add_path`.
#[derive(Copy, Clone, Debug, PartialEq, Eq)]
pub enum FSTreeError<U> {
    /// `inner_path` must stay a leaf, but `invalid_child` lies below it.
    IllegalChildren { inner_path: U, invalid_child: U },
    /// Two different entry kinds were declared for the same path.
    ConflictingEntries(U, U),
}

impl VirtualFSEntryType {
    /// Position of this entry kind in the strength order; `None` for the
    /// incomparable `Tmpfs`.
    pub open spec fn spec_priority(self) -> Option<int> {
        match self {
            VirtualFSEntryType::AllowDev => Some(2int),
            VirtualFSEntryType::ReadWrite => Some(1int),
            VirtualFSEntryType::ReadOnly => Some(0int),
            VirtualFSEntryType::Symlink => Some(-1int),
            VirtualFSEntryType::Tmpfs => None,
        }
    }

    pub fn priority(self) -> (r: Option<i64>)
        ensures
            r matches Some(p) ==> self.spec_priority() == Some(p as int),
            r is None <==> self.spec_priority() is None,
    {
        match self {
            VirtualFSEntryType::AllowDev => Some(2),
            VirtualFSEntryType::ReadWrite => Some(1),
            VirtualFSEntryType::ReadOnly => Some(0),
            VirtualFSEntryType::Symlink => Some(-1),
            VirtualFSEntryType::Tmpfs => None,
        }
    }

    /// Whether this kind forbids entries strictly below its path.
    pub open spec fn spec_should_be_leaf(self) -> bool {
        self is Tmpfs || self is Symlink
    }

    pub fn should_be_leaf(self) -> (r: bool)
        ensures
            r == self.spec_should_be_leaf(),
    {
        match self {
            VirtualFSEntryType::Tmpfs | VirtualFSEntryType::Symlink => true,
            _ => false,
        }
    }

    /// Two kinds are comparable when both have a place in the strength order.
    pub open spec fn comparable(self, other: Self) -> bool {
        self.spec_priority() is Some && other.spec_priority() is Some
    }

    /// `self` is comparable to `other` and at least as strong.
    pub open spec fn ge(self, other: Self) -> bool {
        self.comparable(other) && self.spec_priority()->0 >= other.spec_priority()->0
    }

    /// Exec counterpart of `ge`.
    pub fn is_ge(self, other: Self) -> (r: bool)
        ensures
            r == self.ge(other),
    {
        match (self.priority(), other.priority()) {
            (Some(a), Some(b)) => a >= b,
            _ => false,
        }
    }
}

/// A tree of virtual-filesystem entries, normalized on insertion:
/// redundant weaker declarations beneath stronger ones are dropped, weaker
/// comparable descendants are pruned when an ancestor is strengthened, and
/// leaf-exclusive entries may not coexist with descendants.
#[derive(Debug)]
pub struct VirtualFSTree<U> {
    /// The path component this node stands for; `/` at the root.
    path_component: String,
    children: Vec<VirtualFSTree<U>>,
    entry: Option<(VirtualFSEntryType, U)>,
}

impl<U> VirtualFSTree<U> {
    /// No two children carry the same component.
    pub closed spec fn unique_children(self) -> bool {
        forall|i: int, j: int|
            0 <= i < j < self.children@.len() ==> self.children@[i].path_component@
                != self.children@[j].path_component@
    }

    /// The path component this node stands for.
    pub closed spec fn component(self) -> Seq<char> {
        self.path_component@
    }

    /// How many children the node has.
    pub closed spec fn child_count(self) -> int {
        self.children@.len() as int
    }

    /// True when some child carries the component `name`.
    pub closed spec fn has_child(self, name: Seq<char>) -> bool {
        exists|i: int|
            0 <= i < self.children@.len() && self.children@[i].path_component@ == name
    }

    /// Index of the child carrying `name` (unique under `wf`).
    pub closed spec fn child_idx(self, name: Seq<char>) -> int {
        choose|i: int|
            0 <= i < self.children@.len() && self.children@[i].path_component@ == name
    }

    pub closed spec fn child(self, name: Seq<char>) -> Self {
        self.children@[self.child_idx(name)]
    }

    /// The entry stored at `path` (a sequence of components below this
    /// node), if any.
    pub closed spec fn entry_at(self, path: Seq<Seq<char>>) -> Option<(VirtualFSEntryType, U)>
        decreases self, path.len(),
    {
        if path.len() == 0 {
            self.entry
        } else if self.has_child(path[0]) {
            self.child(path[0]).entry_at(path.skip(1))
        } else {
            None
        }
    }

    /// The entry kind stored at `path`, if any.
    pub open spec fn type_at(self, path: Seq<Seq<char>>) -> Option<VirtualFSEntryType> {
        match self.entry_at(path) {
            Some((t, _)) => Some(t),
            None => None,
        }
    }

    /// Some entry exists in this subtree (at this node or below).
    pub closed spec fn has_entry(self) -> bool
        decreases self,
    {
        self.entry is Some || exists|i: int|
            0 <= i < self.children@.len() && (#[trigger] self.children@[i]).has_entry()
    }

    /// Every entry in this subtree comparable to `t` is strictly stronger.
    pub closed spec fn all_stronger_than(self, t: VirtualFSEntryType) -> bool
        decreases self,
    {
        &&& (self.entry matches Some((e, _)) ==> (e.comparable(t)
            ==> e.spec_priority()->0 > t.spec_priority()->0))
        &&& forall|i: int|
            0 <= i < self.children@.len() ==> (#[trigger] self.children@[i]).all_stronger_than(t)
    }

    /// Well-formedness: unique child names, leaf-exclusive nodes have no
    /// children, every child subtree holds an entry, and comparable
    /// descendants are strictly stronger than their ancestors.
    pub closed spec fn wf(self) -> bool
        decreases self,
    {
        &&& self.unique_children()
        &&& (self.entry matches Some((t, _)) && t.spec_should_be_leaf()
            ==> self.children@.len() == 0)
        &&& (forall|i: int|
            0 <= i < self.children@.len() ==> (#[trigger] self.children@[i]).wf())
        &&& (forall|i: int|
            0 <= i < self.children@.len() ==> (#[trigger] self.children@[i]).has_entry())
        &&& (self.entry matches Some((t, _)) ==> forall|i: int|
            0 <= i < self.children@.len() ==> (#[trigger] self.children@[i]).all_stronger_than(t))
    }
}

/// The views of a sequence of path components.
pub open spec fn views(parts: Seq<String>) -> Seq<Seq<char>> {
    parts.map_values(|s: String| s@)
}

/// A single path component is acceptable when it is non-empty, holds no
/// separator, and is neither `.` nor `..` (paths are normalized).
pub open spec fn valid_component(c: Seq<char>) -> bool {
    &&& c.len() > 0
    &&& c != seq!['.']
    &&& c != seq!['.', '.']
    &&& forall|i: int| 0 <= i < c.len() ==> c[i] != '/'
}

/// `p` names a strict ancestor of `q`.
pub open spec fn strict_prefix(p: Seq<Seq<char>>, q: Seq<Seq<char>>) -> bool {
    p.len() < q.len() && p == q.take(p.len() as int)
}

/// Copies a component path.
fn copy_path(v: &Vec<String>) -> (r: Vec<String>)
    ensures
        r@ == v@,
{
    let n = v.len();
    let mut r: Vec<String> = Vec::new();
    let mut i: usize = 0;
    while i < n
        invariant
            i <= n,
            n == v@.len(),
            r@.len() == i,
            forall|j: int| 0 <= j < i ==> r@[j] == v@[j],
        decreases n - i,
    {
        r.push(v[i].clone());
        i = i + 1;
    }
    proof {
        assert(r@ =~= v@);
    }
    r
}

impl<U> VirtualFSTree<U> {
    /// While walking down towards `p`, the node at depth `k` stops the walk:
    /// either its entry is leaf-exclusive (an error), or it is comparable to
    /// `t` and at least as strong (the new entry is redundant).
    pub open spec fn blocks_at(self, p: Seq<Seq<char>>, t: VirtualFSEntryType, k: int) -> bool {
        match self.type_at(p.take(k)) {
            Some(e) => e.spec_should_be_leaf() || e.ge(t),
            None => false,
        }
    }

    /// The first depth `>= k` strictly before the end of `p` whose node stops
    /// the walk, if any.
    pub open spec fn first_block_from(
        self,
        p: Seq<Seq<char>>,
        t: VirtualFSEntryType,
        k: int,
    ) -> Option<int>
        decreases p.len() - k,
    {
        if k >= p.len() {
            None
        } else if self.blocks_at(p, t, k) {
            Some(k)
        } else {
            self.first_block_from(p, t, k + 1)
        }
    }

    /// The leftmost entry of this subtree in depth-first order: the node's
    /// own entry if present, else the first entry of its first child.
    pub closed spec fn spec_first_entry(self) -> (VirtualFSEntryType, U)
        decreases self,
    {
        if self.entry is Some {
            self.entry->0
        } else if self.children@.len() > 0 {
            self.children@[0].spec_first_entry()
        } else {
            arbitrary()
        }
    }

    /// Some entry lies strictly below `p`.
    pub open spec fn has_entry_below(self, p: Seq<Seq<char>>) -> bool {
        exists|q: Seq<Seq<char>>| strict_prefix(p, q) && #[trigger] self.entry_at(q) is Some
    }

    /// The user data cited as `invalid_child` when a leaf-exclusive entry is
    /// planted above existing entries: the depth-first-first entry strictly
    /// below `p`.
    pub closed spec fn first_entry_below(self, p: Seq<Seq<char>>) -> U
        decreases p.len(),
    {
        if p.len() == 0 {
            self.children@[0].spec_first_entry().1
        } else {
            self.child(p[0]).first_entry_below(p.skip(1))
        }
    }

    /// Both trees hold the same entry at every path.
    pub open spec fn same_entries(prev: Self, cur: Self) -> bool {
        forall|q: Seq<Seq<char>>|
            #![trigger cur.entry_at(q)]
            cur.entry_at(q) == prev.entry_at(q)
    }

    /// The tree after planting a non-leaf-exclusive entry `(t, ud)` at `p`:
    /// the entry stands at `p`, every comparable entry of at most `t`'s
    /// strength strictly below `p` is pruned, and all else is untouched.
    pub open spec fn after_prune_insert(
        self,
        prev: Self,
        p: Seq<Seq<char>>,
        t: VirtualFSEntryType,
        ud: U,
    ) -> bool {
        forall|q: Seq<Seq<char>>|
            #![trigger self.entry_at(q)]
            self.entry_at(q) == if q == p {
                Some((t, ud))
            } else if strict_prefix(p, q) {
                match prev.entry_at(q) {
                    Some((e, e_ud)) => if t.ge(e) {
                        None
                    } else {
                        Some((e, e_ud))
                    },
                    None => None,
                }
            } else {
                prev.entry_at(q)
            }
    }

    /// The tree after planting a leaf-exclusive entry `(t, ud)` at `p`: the
    /// entry stands at `p`, everything strictly below is cleared, and all
    /// else is untouched.
    pub open spec fn after_leaf_insert(
        self,
        prev: Self,
        p: Seq<Seq<char>>,
        t: VirtualFSEntryType,
        ud: U,
    ) -> bool {
        forall|q: Seq<Seq<char>>|
            #![trigger self.entry_at(q)]
            self.entry_at(q) == if q == p {
                Some((t, ud))
            } else if strict_prefix(p, q) {
                None::<(VirtualFSEntryType, U)>
            } else {
                prev.entry_at(q)
            }
    }

    /// The complete outcome of `add_path(p, t, ud)` on a tree `prev`,
    /// relating the new tree `cur` and the result `r`.
    pub open spec fn add_path_post(
        prev: Self,
        cur: Self,
        p: Seq<Seq<char>>,
        t: VirtualFSEntryType,
        ud: U,
        r: Result<(), FSTreeError<U>>,
    ) -> bool {
        match prev.first_block_from(p, t, 0) {
            Some(k) => {
                let (e, e_ud) = prev.entry_at(p.take(k))->0;
                // The walk stopped at an existing entry above `p`.
                if e.spec_should_be_leaf() {
                    &&& r == Err::<(), FSTreeError<U>>(FSTreeError::IllegalChildren {
                        inner_path: e_ud,
                        invalid_child: ud,
                    })
                    &&& Self::same_entries(prev, cur)
                } else {
                    // A comparable entry at least as strong makes the new
                    // entry redundant.
                    &&& r == Ok::<(), FSTreeError<U>>(())
                    &&& Self::same_entries(prev, cur)
                }
            },
            None => {
                if !t.spec_should_be_leaf() {
                    match prev.entry_at(p) {
                        Some((e, e_ud)) => {
                            if e.spec_should_be_leaf() {
                                &&& r == Err::<(), FSTreeError<U>>(FSTreeError::ConflictingEntries(
                                    e_ud,
                                    ud,
                                ))
                                &&& Self::same_entries(prev, cur)
                            } else if e.ge(t) {
                                &&& r == Ok::<(), FSTreeError<U>>(())
                                &&& Self::same_entries(prev, cur)
                            } else {
                                &&& r == Ok::<(), FSTreeError<U>>(())
                                &&& cur.after_prune_insert(prev, p, t, ud)
                            }
                        },
                        None => {
                            &&& r == Ok::<(), FSTreeError<U>>(())
                            &&& cur.after_prune_insert(prev, p, t, ud)
                        },
                    }
                } else {
                    match prev.entry_at(p) {
                        Some((e, e_ud)) => {
                            if e == t {
                                &&& r == Ok::<(), FSTreeError<U>>(())
                                &&& Self::same_entries(prev, cur)
                            } else {
                                &&& r == Err::<(), FSTreeError<U>>(FSTreeError::ConflictingEntries(
                                    e_ud,
                                    ud,
                                ))
                                &&& Self::same_entries(prev, cur)
                            }
                        },
                        None => {
                            &&& cur.after_leaf_insert(prev, p, t, ud)
                            &&& if prev.has_entry_below(p) {
                                // The entries below are cleared, yet the
                                // insertion is reported as an error citing
                                // the first cleared entry.
                                r == Err::<(), FSTreeError<U>>(FSTreeError::IllegalChildren {
                                    inner_path: ud,
                                    invalid_child: prev.first_entry_below(p),
                                })
                            } else {
                                r == Ok::<(), FSTreeError<U>>(())
                            }
                        },
                    }
                }
            },
        }
    }
}

impl<U: Copy> VirtualFSTree<U> {
    /// Under unique child names, looking a path up in the tree descends into
    /// the child that carries its first component.
    proof fn lemma_entry_at_via_child(self, idx: int, q: Seq<Seq<char>>)
        requires
            self.unique_children(),
            0 <= idx < self.children@.len(),
            q.len() > 0,
            self.children@[idx].path_component@ == q[0],
        ensures
            self.entry_at(q) == self.children@[idx].entry_at(q.skip(1)),
    {
        assert(self.has_child(q[0]));
        let j = self.child_idx(q[0]);
        if j != idx {
            assert(self.children@[j].path_component@ == self.children@[idx].path_component@);
            assert(false);
        }
    }

    /// Restates one unfolding of `has_entry`.
    proof fn lemma_has_entry_unfold(self)
        ensures
            self.has_entry() == (self.entry is Some || exists|i: int|
                0 <= i < self.children@.len() && (#[trigger] self.children@[i]).has_entry()),
    {
    }

    /// Restates one unfolding of `all_stronger_than`.
    proof fn lemma_all_stronger_unfold(self, t: VirtualFSEntryType)
        ensures
            self.all_stronger_than(t) == ({
                &&& (self.entry matches Some((e, _)) ==> (e.comparable(t)
                    ==> e.spec_priority()->0 > t.spec_priority()->0))
                &&& (forall|i: int|
                    0 <= i < self.children@.len() ==> (#[trigger] self.children@[
                        i
                    ]).all_stronger_than(t))
            }),
    {
    }

    /// Extracts the conjuncts of one unfolding of `wf`.
    proof fn lemma_wf_unfold(self)
        requires
            self.wf(),
        ensures
            self.unique_children(),
            self.entry matches Some((t, _)) && t.spec_should_be_leaf()
                ==> self.children@.len() == 0,
            forall|i: int| 0 <= i < self.children@.len() ==> (#[trigger] self.children@[i]).wf(),
            forall|i: int|
                0 <= i < self.children@.len() ==> (#[trigger] self.children@[i]).has_entry(),
            self.entry matches Some((t, _)) ==> forall|i: int|
                0 <= i < self.children@.len() ==> (#[trigger] self.children@[
                    i
                ]).all_stronger_than(t),
    {
    }

    /// `has_entry` agrees with the existence of a path holding an entry.
    proof fn lemma_has_entry_iff(self)
        requires
            self.wf(),
        ensures
            self.has_entry() <==> exists|q: Seq<Seq<char>>| self.entry_at(q) is Some,
        decreases self,
    {
        self.lemma_wf_unfold();
        self.lemma_has_entry_unfold();
        if self.has_entry() {
            if self.entry is Some {
                assert(self.entry_at(Seq::empty()) is Some);
            } else {
                let i = choose|i: int|
                    0 <= i < self.children@.len() && (#[trigger] self.children@[i]).has_entry();
                assert(self.children@[i].wf());
                self.children@[i].lemma_has_entry_iff();
                let q = choose|q: Seq<Seq<char>>| self.children@[i].entry_at(q) is Some;
                let qq = seq![self.children@[i].path_component@] + q;
                self.lemma_entry_at_via_child(i, qq);
                assert(qq.skip(1) =~= q);
                assert(self.entry_at(qq) is Some);
            }
        }
        if exists|q: Seq<Seq<char>>| self.entry_at(q) is Some {
            let q = choose|q: Seq<Seq<char>>| self.entry_at(q) is Some;
            if q.len() == 0 {
                assert(self.has_entry());
            } else {
                assert(self.has_child(q[0]));
                let idx = self.child_idx(q[0]);
                assert(self.children@[idx].wf());
                self.children@[idx].lemma_has_entry_iff();
                assert(self.children@[idx].entry_at(q.skip(1)) is Some);
                assert(self.children@[idx].has_entry());
                assert(self.has_entry());
            }
        }
    }

    /// `all_stronger_than` agrees with its path-indexed reading.
    proof fn lemma_all_stronger_iff(self, t: VirtualFSEntryType)
        requires
            self.wf(),
        ensures
            self.all_stronger_than(t) <==> (forall|q: Seq<Seq<char>>|
                match #[trigger] self.entry_at(q) {
                    Some((e, e_ud)) => e.comparable(t)
                        ==> e.spec_priority()->0 > t.spec_priority()->0,
                    None => true,
                }),
        decreases self,
    {
        self.lemma_wf_unfold();
        self.lemma_all_stronger_unfold(t);
        if self.all_stronger_than(t) {
            assert forall|q: Seq<Seq<char>>|
                match #[trigger] self.entry_at(q) {
                    Some((e, e_ud)) => e.comparable(t)
                        ==> e.spec_priority()->0 > t.spec_priority()->0,
                    None => true,
                } by {
                if q.len() == 0 {
                } else if self.has_child(q[0]) {
                    let idx = self.child_idx(q[0]);
                    assert(self.children@[idx].wf());
                    assert(self.children@[idx].all_stronger_than(t));
                    self.children@[idx].lemma_all_stronger_iff(t);
                    self.lemma_entry_at_via_child(idx, q);
                }
            }
        }
        if forall|q: Seq<Seq<char>>|
            match #[trigger] self.entry_at(q) {
                Some((e, e_ud)) => e.comparable(t) ==> e.spec_priority()->0
                    > t.spec_priority()->0,
                None => true,
            } {
            assert(self.entry_at(Seq::empty()) == self.entry);
            assert forall|i: int|
                0 <= i < self.children@.len() implies #[trigger] self.children@[
                i
            ].all_stronger_than(t) by {
                let c = self.children@[i];
                assert forall|q: Seq<Seq<char>>|
                    match #[trigger] c.entry_at(q) {
                        Some((e, e_ud)) => e.comparable(t) ==> e.spec_priority()->0
                            > t.spec_priority()->0,
                        None => true,
                    } by {
                    let qq = seq![c.path_component@] + q;
                    self.lemma_entry_at_via_child(i, qq);
                    assert(qq.skip(1) =~= q);
                    assert(self.entry_at(qq) == c.entry_at(q));
                }
                assert(c.wf());
                c.lemma_all_stronger_iff(t);
            }
        }
    }

    /// Lookups only depend on the children for non-empty paths.
    proof fn lemma_entry_at_same_children(a: Self, b: Self, q: Seq<Seq<char>>)
        requires
            a.children@ == b.children@,
            q.len() > 0,
        ensures
            a.entry_at(q) == b.entry_at(q),
    {
        assert(a.has_child(q[0]) == b.has_child(q[0]));
        if a.has_child(q[0]) {
            assert(a.child_idx(q[0]) == b.child_idx(q[0]));
        }
    }

    /// After replacing the child at `idx` with one carrying the same
    /// component, lookups through that component reach the new child and all
    /// other lookups are untouched.
    proof fn lemma_entry_at_after_update(prev: Self, cur: Self, idx: int)
        requires
            prev.unique_children(),
            0 <= idx < prev.children@.len(),
            cur.children@ == prev.children@.update(idx, cur.children@[idx]),
            cur.children@[idx].path_component@ == prev.children@[idx].path_component@,
            cur.entry == prev.entry,
        ensures
            cur.unique_children(),
            forall|q: Seq<Seq<char>>|
                #![trigger cur.entry_at(q)]
                cur.entry_at(q) == if q.len() > 0 && q[0] == prev.children@[
                    idx
                ].path_component@ {
                    cur.children@[idx].entry_at(q.skip(1))
                } else {
                    prev.entry_at(q)
                },
    {
        let n = prev.children@[idx].path_component@;
        assert forall|i: int, j: int|
            0 <= i < j < cur.children@.len() implies cur.children@[i].path_component@
            != cur.children@[j].path_component@ by {
            assert(cur.children@[i].path_component@ == prev.children@[i].path_component@);
            assert(cur.children@[j].path_component@ == prev.children@[j].path_component@);
        }
        assert forall|q: Seq<Seq<char>>|
            #![trigger cur.entry_at(q)]
            cur.entry_at(q) == if q.len() > 0 && q[0] == n {
                cur.children@[idx].entry_at(q.skip(1))
            } else {
                prev.entry_at(q)
            } by {
            if q.len() == 0 {
            } else if q[0] == n {
                cur.lemma_entry_at_via_child(idx, q);
            } else {
                assert forall|i: int| 0 <= i < cur.children@.len() implies (
                #[trigger] cur.children@[i]).path_component@ == prev.children@[
                    i
                ].path_component@ by {}
                if prev.has_child(q[0]) {
                    let j = prev.child_idx(q[0]);
                    assert(cur.children@[j].path_component@ == q[0]);
                    prev.lemma_entry_at_via_child(j, q);
                    assert(j != idx);
                    assert(cur.children@[j] == prev.children@[j]);
                    cur.lemma_entry_at_via_child(j, q);
                } else {
                    assert(!cur.has_child(q[0])) by {
                        if cur.has_child(q[0]) {
                            let j = cur.child_idx(q[0]);
                            assert(prev.children@[j].path_component@ == q[0]);
                        }
                    }
                }
            }
        }
    }

    /// After appending a child with a fresh component, lookups through that
    /// component reach the new child and all other lookups are untouched.
    proof fn lemma_entry_at_after_push(prev: Self, cur: Self, c: Self)
        requires
            prev.unique_children(),
            cur.children@ == prev.children@.push(c),
            !prev.has_child(c.path_component@),
            cur.entry == prev.entry,
        ensures
            cur.unique_children(),
            forall|q: Seq<Seq<char>>|
                #![trigger cur.entry_at(q)]
                cur.entry_at(q) == if q.len() > 0 && q[0] == c.path_component@ {
                    c.entry_at(q.skip(1))
                } else {
                    prev.entry_at(q)
                },
    {
        let n = c.path_component@;
        let last = prev.children@.len() as int;
        assert forall|i: int, j: int|
            0 <= i < j < cur.children@.len() implies cur.children@[i].path_component@
            != cur.children@[j].path_component@ by {
            if j < last {
                assert(cur.children@[i] == prev.children@[i]);
                assert(cur.children@[j] == prev.children@[j]);
            } else {
                assert(cur.children@[i] == prev.children@[i]);
                assert(cur.children@[j] == c);
            }
        }
        assert forall|q: Seq<Seq<char>>|
            #![trigger cur.entry_at(q)]
            cur.entry_at(q) == if q.len() > 0 && q[0] == n {
                c.entry_at(q.skip(1))
            } else {
                prev.entry_at(q)
            } by {
            if q.len() == 0 {
            } else if q[0] == n {
                assert(cur.children@[last] == c);
                cur.lemma_entry_at_via_child(last, q);
            } else {
                if prev.has_child(q[0]) {
                    let j = prev.child_idx(q[0]);
                    prev.lemma_entry_at_via_child(j, q);
                    assert(cur.children@[j] == prev.children@[j]);
                    cur.lemma_entry_at_via_child(j, q);
                } else {
                    assert(!cur.has_child(q[0])) by {
                        if cur.has_child(q[0]) {
                            let j = cur.child_idx(q[0]);
                            assert(j == last);
                        }
                    }
                }
            }
        }
    }

    /// Blocking depths below a node correspond one-for-one to blocking
    /// depths of the child that carries the path's first component.
    proof fn lemma_first_block_shift(self, idx: int, p: Seq<Seq<char>>, t: VirtualFSEntryType, k: int)
        requires
            self.unique_children(),
            0 <= idx < self.children@.len(),
            p.len() > 0,
            self.children@[idx].path_component@ == p[0],
            0 <= k,
        ensures
            self.first_block_from(p, t, k + 1) == match self.children@[idx].first_block_from(
                p.skip(1),
                t,
                k,
            ) {
                Some(j) => Some(j + 1),
                None => None::<int>,
            },
        decreases p.len() - k,
    {
        if k >= p.len() - 1 {
        } else {
            let q = p.take(k + 1);
            assert(q[0] == p[0]);
            assert(q.skip(1) =~= p.skip(1).take(k));
            self.lemma_entry_at_via_child(idx, q);
            assert(self.blocks_at(p, t, k + 1) == self.children@[idx].blocks_at(p.skip(1), t, k));
            self.lemma_first_block_shift(idx, p, t, k + 1);
        }
    }

    /// What a walk outcome means: the depth found is the first blocking
    /// depth at or after the start, and `None` means none blocks at all.
    proof fn lemma_first_block_bounds(self, p: Seq<Seq<char>>, t: VirtualFSEntryType, k0: int)
        requires
            0 <= k0,
        ensures
            match self.first_block_from(p, t, k0) {
                Some(k) => k0 <= k < p.len() && self.blocks_at(p, t, k) && forall|j: int|
                    k0 <= j < k ==> !#[trigger] self.blocks_at(p, t, j),
                None => forall|j: int| k0 <= j < p.len() ==> !#[trigger] self.blocks_at(p, t, j),
            },
        decreases p.len() - k0,
    {
        if k0 < p.len() && !self.blocks_at(p, t, k0) {
            self.lemma_first_block_bounds(p, t, k0 + 1);
        }
    }

    /// Without a child for the path's first component, nothing blocks the
    /// walk below the node, and nothing lies at or below the path.
    proof fn lemma_no_child_no_blocks(self, p: Seq<Seq<char>>, t: VirtualFSEntryType, k: int)
        requires
            p.len() > 0,
            !self.has_child(p[0]),
            1 <= k,
        ensures
            self.first_block_from(p, t, k) == None::<int>,
        decreases p.len() - k,
    {
        if k < p.len() {
            let q = p.take(k);
            assert(q[0] == p[0]);
            assert(self.entry_at(q) is None);
            self.lemma_no_child_no_blocks(p, t, k + 1);
        }
    }

    /// Without a child for the path's first component, no entry lies at a
    /// path extending it, nor strictly below it.
    proof fn lemma_no_child_no_entries(self, p: Seq<Seq<char>>)
        requires
            p.len() > 0,
            !self.has_child(p[0]),
        ensures
            self.entry_at(p) is None,
            !self.has_entry_below(p),
    {
        assert forall|q: Seq<Seq<char>>|
            strict_prefix(p, q) implies #[trigger] self.entry_at(q) is None by {
            assert(q[0] == p.take(p.len() as int)[0]);
            assert(q[0] == p[0]);
        }
    }

    /// A tree without any entry never blocks a walk.
    proof fn lemma_no_entries_no_blocks(self, p: Seq<Seq<char>>, t: VirtualFSEntryType, k: int)
        requires
            forall|q: Seq<Seq<char>>| #[trigger] self.entry_at(q) is None,
            0 <= k,
        ensures
            self.first_block_from(p, t, k) == None::<int>,
        decreases p.len() - k,
    {
        if k < p.len() {
            self.lemma_no_entries_no_blocks(p, t, k + 1);
        }
    }

    /// Entries strictly below a non-empty path live in the child carrying
    /// its first component, one level down.
    proof fn lemma_below_via_child(self, idx: int, p: Seq<Seq<char>>)
        requires
            self.unique_children(),
            0 <= idx < self.children@.len(),
            p.len() > 0,
            self.children@[idx].path_component@ == p[0],
        ensures
            self.has_entry_below(p) == self.children@[idx].has_entry_below(p.skip(1)),
            self.first_entry_below(p) == self.children@[idx].first_entry_below(p.skip(1)),
    {
        let c = self.children@[idx];
        assert(self.has_child(p[0]));
        assert(self.child_idx(p[0]) == idx) by {
            let j = self.child_idx(p[0]);
            if j != idx {
                assert(self.children@[j].path_component@ == self.children@[idx].path_component@);
            }
        }
        assert(self.first_entry_below(p) == c.first_entry_below(p.skip(1)));
        if self.has_entry_below(p) {
            let q = choose|q: Seq<Seq<char>>|
                strict_prefix(p, q) && #[trigger] self.entry_at(q) is Some;
            assert(q[0] == p.take(p.len() as int)[0]);
            assert(q[0] == p[0]);
            self.lemma_entry_at_via_child(idx, q);
            assert(strict_prefix(p.skip(1), q.skip(1))) by {
                assert(p.skip(1) =~= q.skip(1).take(p.len() - 1));
            }
            assert(c.entry_at(q.skip(1)) is Some);
            assert(c.has_entry_below(p.skip(1)));
        }
        if c.has_entry_below(p.skip(1)) {
            let q1 = choose|q1: Seq<Seq<char>>|
                strict_prefix(p.skip(1), q1) && #[trigger] c.entry_at(q1) is Some;
            let qq = seq![p[0]] + q1;
            assert(qq.skip(1) =~= q1);
            self.lemma_entry_at_via_child(idx, qq);
            assert(self.entry_at(qq) is Some);
            assert(strict_prefix(p, qq)) by {
                assert forall|i: int| 0 <= i < p.len() implies qq.take(p.len() as int)[i] == p[
                    i
                ] by {
                    if i > 0 {
                        assert(qq[i] == q1[i - 1]);
                        assert(q1[i - 1] == p.skip(1)[i - 1]);
                    }
                }
                assert(p =~= qq.take(p.len() as int));
            }
            assert(self.has_entry_below(p));
        }
    }

    /// At the node itself, the entries strictly below are exactly the
    /// entries of its child subtrees.
    proof fn lemma_below_at_node(self)
        requires
            self.wf(),
        ensures
            self.has_entry_below(Seq::empty()) == (exists|i: int|
                0 <= i < self.children@.len() && (#[trigger] self.children@[i]).has_entry()),
            self.children@.len() > 0 && self.entry is None ==> self.first_entry_below(Seq::empty())
                == self.children@[0].spec_first_entry().1,
    {
        self.lemma_wf_unfold();
        let empty = Seq::<Seq<char>>::empty();
        if self.has_entry_below(empty) {
            let q = choose|q: Seq<Seq<char>>|
                strict_prefix(empty, q) && #[trigger] self.entry_at(q) is Some;
            assert(q.len() > 0);
            assert(self.has_child(q[0]));
            let idx = self.child_idx(q[0]);
            self.children@[idx].lemma_has_entry_iff();
            assert(self.children@[idx].entry_at(q.skip(1)) is Some);
            assert(self.children@[idx].has_entry());
        }
        if exists|i: int|
            0 <= i < self.children@.len() && (#[trigger] self.children@[i]).has_entry() {
            let i = choose|i: int|
                0 <= i < self.children@.len() && (#[trigger] self.children@[i]).has_entry();
            self.children@[i].lemma_has_entry_iff();
            let q = choose|q: Seq<Seq<char>>| self.children@[i].entry_at(q) is Some;
            let qq = seq![self.children@[i].path_component@] + q;
            self.lemma_entry_at_via_child(i, qq);
            assert(qq.skip(1) =~= q);
            assert(self.entry_at(qq) is Some);
            assert(strict_prefix(empty, qq)) by {
                assert(empty =~= qq.take(0));
            }
            assert(self.has_entry_below(empty));
        }
    }

    /// Lifts the outcome of an insertion into an existing child one level
    /// up: the parent's outcome on `p` is the child's outcome on the rest of
    /// the path, provided the walk passed the parent itself.
    #[verifier::rlimit(100)]
    #[verifier::spinoff_prover]
    proof fn lemma_post_lift(
        prev: Self,
        cur: Self,
        cc: Self,
        idx: int,
        p: Seq<Seq<char>>,
        t: VirtualFSEntryType,
        ud: U,
        r: Result<(), FSTreeError<U>>,
    )
        requires
            prev.wf(),
            p.len() > 0,
            0 <= idx < prev.children@.len(),
            prev.children@[idx].path_component@ == p[0],
            !(prev.entry matches Some((e, _)) && e.spec_should_be_leaf()),
            !(prev.entry matches Some((e, _)) && e.ge(t)),
            cc.wf(),
            cc.path_component@ == p[0],
            Self::add_path_post(prev.children@[idx], cc, p.skip(1), t, ud, r),
            cur.children@ == prev.children@.update(idx, cc),
            cur.entry == prev.entry,
        ensures
            cur.wf(),
            Self::add_path_post(prev, cur, p, t, ud, r),
    {
        prev.lemma_wf_unfold();
        let pc = prev.children@[idx];
        assert(cur.children@[idx] == cc);
        Self::lemma_entry_at_after_update(prev, cur, idx);
        prev.lemma_entry_at_via_child(idx, p);
        assert(prev.entry_at(p) == pc.entry_at(p.skip(1)));
        // the parent itself does not block the walk
        assert(p.take(0) =~= Seq::<Seq<char>>::empty());
        assert(prev.entry_at(p.take(0)) == prev.entry);
        assert(!prev.blocks_at(p, t, 0));
        prev.lemma_first_block_shift(idx, p, t, 0);
        prev.lemma_below_via_child(idx, p);
        // paths that are not `p`, nor strictly below it, keep their entry in
        // every case; relate the remaining paths through the child
        assert forall|q: Seq<Seq<char>>|
            q.len() > 0 && q[0] == p[0] implies #[trigger] cur.entry_at(q) == cc.entry_at(
            q.skip(1),
        ) && prev.entry_at(q) == pc.entry_at(q.skip(1)) by {
            prev.lemma_entry_at_via_child(idx, q);
        }
        // relate prefix shapes: for q starting with p[0],
        // q == p <==> q.skip(1) == p.skip(1), and strictness carries over
        assert forall|q: Seq<Seq<char>>|
            q.len() > 0 && q[0] == p[0] implies (q == p <==> q.skip(1) =~= p.skip(1)) && (
            strict_prefix(p, q) <==> strict_prefix(p.skip(1), q.skip(1))) by {
            if q.skip(1) =~= p.skip(1) && q.len() == p.len() {
                assert forall|i: int| 0 <= i < p.len() implies q[i] == p[i] by {
                    if i > 0 {
                        assert(q.skip(1)[i - 1] == p.skip(1)[i - 1]);
                    }
                }
                assert(q =~= p);
            }
            if q.skip(1) =~= p.skip(1) && q.len() != p.len() {
                assert(q.skip(1).len() == p.skip(1).len());
            }
            if strict_prefix(p, q) {
                assert(p.skip(1) =~= q.skip(1).take(p.len() - 1)) by {
                    assert forall|i: int|
                        0 <= i < p.len() - 1 implies p.skip(1)[i] == q.skip(1).take(
                        p.len() - 1,
                    )[i] by {
                        assert(p[i + 1] == q.take(p.len() as int)[i + 1]);
                    }
                }
            }
            if strict_prefix(p.skip(1), q.skip(1)) {
                assert(p =~= q.take(p.len() as int)) by {
                    assert forall|i: int| 0 <= i < p.len() implies p[i] == q.take(
                        p.len() as int,
                    )[i] by {
                        if i > 0 {
                            assert(p.skip(1)[i - 1] == q.skip(1).take(p.len() - 1)[i - 1]);
                        }
                    }
                }
            }
        }
        // the parent's outcome mirrors the child's, case by case
        pc.lemma_first_block_bounds(p.skip(1), t, 0);
        match pc.first_block_from(p.skip(1), t, 0) {
            Some(k) => {
                assert(0 <= k < p.skip(1).len());
                assert(prev.first_block_from(p, t, 0) == Some(k + 1));
                let qk = p.take(k + 1);
                assert(qk[0] == p[0]);
                assert(qk.skip(1) =~= p.skip(1).take(k));
                prev.lemma_entry_at_via_child(idx, qk);
                assert(prev.entry_at(p.take(k + 1)) == pc.entry_at(p.skip(1).take(k)));
                assert(Self::same_entries(pc, cc));
                assert(Self::same_entries(prev, cur));
            },
            None => {
                assert(prev.first_block_from(p, t, 0) == None::<int>);
                if Self::same_entries(pc, cc) {
                    assert(Self::same_entries(prev, cur));
                }
                if cc.after_prune_insert(pc, p.skip(1), t, ud) {
                    assert forall|q: Seq<Seq<char>>|
                        #![trigger cur.entry_at(q)]
                        cur.entry_at(q) == if q == p {
                            Some((t, ud))
                        } else if strict_prefix(p, q) {
                            match prev.entry_at(q) {
                                Some((e, e_ud)) => if t.ge(e) {
                                    None
                                } else {
                                    Some((e, e_ud))
                                },
                                None => None,
                            }
                        } else {
                            prev.entry_at(q)
                        } by {
                        if q.len() > 0 && q[0] == p[0] {
                            assert(cc.entry_at(q.skip(1)) == if q.skip(1) == p.skip(1) {
                                Some((t, ud))
                            } else if strict_prefix(p.skip(1), q.skip(1)) {
                                match pc.entry_at(q.skip(1)) {
                                    Some((e, e_ud)) => if t.ge(e) {
                                        None
                                    } else {
                                        Some((e, e_ud))
                                    },
                                    None => None,
                                }
                            } else {
                                pc.entry_at(q.skip(1))
                            });
                        }
                    }
                    assert(cur.after_prune_insert(prev, p, t, ud));
                }
                if cc.after_leaf_insert(pc, p.skip(1), t, ud) {
                    assert forall|q: Seq<Seq<char>>|
                        #![trigger cur.entry_at(q)]
                        cur.entry_at(q) == if q == p {
                            Some((t, ud))
                        } else if strict_prefix(p, q) {
                            None::<(VirtualFSEntryType, U)>
                        } else {
                            prev.entry_at(q)
                        } by {
                        if q.len() > 0 && q[0] == p[0] {
                            assert(cc.entry_at(q.skip(1)) == if q.skip(1) == p.skip(1) {
                                Some((t, ud))
                            } else if strict_prefix(p.skip(1), q.skip(1)) {
                                None::<(VirtualFSEntryType, U)>
                            } else {
                                pc.entry_at(q.skip(1))
                            });
                        }
                    }
                    assert(cur.after_leaf_insert(prev, p, t, ud));
                }
            },
        }
        Self::lemma_lifted_wf(prev, cur, cc, idx, p, t, ud, r);
    }

    /// Well-formedness of the reassembled parent after an insertion into
    /// one of its children.
    #[verifier::rlimit(100)]
    #[verifier::spinoff_prover]
    proof fn lemma_lifted_wf(
        prev: Self,
        cur: Self,
        cc: Self,
        idx: int,
        p: Seq<Seq<char>>,
        t: VirtualFSEntryType,
        ud: U,
        r: Result<(), FSTreeError<U>>,
    )
        requires
            prev.wf(),
            p.len() > 0,
            0 <= idx < prev.children@.len(),
            prev.children@[idx].path_component@ == p[0],
            !(prev.entry matches Some((e, _)) && e.spec_should_be_leaf()),
            !(prev.entry matches Some((e, _)) && e.ge(t)),
            cc.wf(),
            cc.path_component@ == p[0],
            Self::add_path_post(prev.children@[idx], cc, p.skip(1), t, ud, r),
            cur.children@ == prev.children@.update(idx, cc),
            cur.entry == prev.entry,
        ensures
            cur.wf(),
    {
        prev.lemma_wf_unfold();
        let pc = prev.children@[idx];
        assert(cur.children@[idx] == cc);
        Self::lemma_entry_at_after_update(prev, cur, idx);
        // the updated child still holds an entry
        pc.lemma_has_entry_iff();
        cc.lemma_has_entry_iff();
        assert(pc.has_entry());
        let q0 = choose|q0: Seq<Seq<char>>| pc.entry_at(q0) is Some;
        if Self::same_entries(pc, cc) {
            assert(cc.entry_at(q0) is Some);
        } else {
            assert(cc.entry_at(p.skip(1)) is Some);
        }
        assert(cc.has_entry());
        // comparable entries of the updated child stay stronger than the
        // parent's own entry
        if cur.entry is Some {
            let (pt, pt_ud) = cur.entry->0;
            assert(!pt.ge(t));
            assert(pc.all_stronger_than(pt));
            pc.lemma_all_stronger_iff(pt);
            cc.lemma_all_stronger_iff(pt);
            assert forall|q: Seq<Seq<char>>|
                match #[trigger] cc.entry_at(q) {
                    Some((e, e_ud)) => e.comparable(pt) ==> e.spec_priority()->0
                        > pt.spec_priority()->0,
                    None => true,
                } by {
                if Self::same_entries(pc, cc) {
                    assert(cc.entry_at(q) == pc.entry_at(q));
                } else if cc.after_prune_insert(pc, p.skip(1), t, ud) || cc.after_leaf_insert(
                    pc,
                    p.skip(1),
                    t,
                    ud,
                ) {
                    assert(cc.entry_at(q) == if q == p.skip(1) {
                        Some((t, ud))
                    } else {
                        cc.entry_at(q)
                    });
                }
            }
            assert(cc.all_stronger_than(pt));
            assert forall|i: int|
                0 <= i < cur.children@.len() implies (#[trigger] cur.children@[
                i
            ]).all_stronger_than(pt) by {
                if i != idx {
                    assert(cur.children@[i] == prev.children@[i]);
                }
            }
        }
        assert forall|i: int| 0 <= i < cur.children@.len() implies (#[trigger] cur.children@[
            i
        ]).wf() by {
            if i != idx {
                assert(cur.children@[i] == prev.children@[i]);
            }
        }
        assert forall|i: int| 0 <= i < cur.children@.len() implies (#[trigger] cur.children@[
            i
        ]).has_entry() by {
            if i != idx {
                assert(cur.children@[i] == prev.children@[i]);
            }
        }
        assert(cur.wf());
    }

    /// Lifts the outcome of an insertion into a freshly created child one
    /// level up: the parent had no node for the path's first component, so
    /// the insertion can only have planted the new entry.
    #[verifier::rlimit(100)]
    #[verifier::spinoff_prover]
    proof fn lemma_post_lift_fresh(
        prev: Self,
        cur: Self,
        fresh: Self,
        cc: Self,
        p: Seq<Seq<char>>,
        t: VirtualFSEntryType,
        ud: U,
        r: Result<(), FSTreeError<U>>,
    )
        requires
            prev.wf(),
            p.len() > 0,
            !prev.has_child(p[0]),
            !(prev.entry matches Some((e, _)) && e.spec_should_be_leaf()),
            !(prev.entry matches Some((e, _)) && e.ge(t)),
            fresh.children@.len() == 0,
            fresh.entry is None,
            fresh.path_component@ == p[0],
            cc.wf(),
            cc.path_component@ == p[0],
            Self::add_path_post(fresh, cc, p.skip(1), t, ud, r),
            cur.children@ == prev.children@.push(cc),
            cur.entry == prev.entry,
        ensures
            cur.wf(),
            Self::add_path_post(prev, cur, p, t, ud, r),
            r == Ok::<(), FSTreeError<U>>(()),
    {
        prev.lemma_wf_unfold();
        // the fresh child holds no entry anywhere
        assert forall|q: Seq<Seq<char>>| #[trigger] fresh.entry_at(q) is None by {
            if q.len() > 0 {
                assert(!fresh.has_child(q[0]));
            }
        }
        fresh.lemma_no_entries_no_blocks(p.skip(1), t, 0);
        fresh.lemma_first_block_bounds(p.skip(1), t, 0);
        // so the insertion into it planted the entry and succeeded
        assert(fresh.entry_at(p.skip(1)) is None);
        assert(!fresh.has_entry_below(p.skip(1)));
        assert(r == Ok::<(), FSTreeError<U>>(()));
        assert(cc.after_prune_insert(fresh, p.skip(1), t, ud) || cc.after_leaf_insert(
            fresh,
            p.skip(1),
            t,
            ud,
        ));
        assert(cc.entry_at(p.skip(1)) == Some((t, ud)));
        assert forall|q1: Seq<Seq<char>>|
            q1 != p.skip(1) implies #[trigger] cc.entry_at(q1) is None by {
            if strict_prefix(p.skip(1), q1) {
            } else {
                assert(cc.entry_at(q1) == fresh.entry_at(q1));
            }
        }
        // the parent's walk finds no block
        assert(p.take(0) =~= Seq::<Seq<char>>::empty());
        assert(prev.entry_at(p.take(0)) == prev.entry);
        assert(!prev.blocks_at(p, t, 0));
        prev.lemma_no_child_no_blocks(p, t, 1);
        prev.lemma_first_block_bounds(p, t, 0);
        assert(prev.first_block_from(p, t, 0) == None::<int>) by {
            prev.lemma_first_block_bounds(p, t, 1);
            let fb = prev.first_block_from(p, t, 0);
            if fb is Some {
                let k = fb->0;
                assert(prev.blocks_at(p, t, k));
                assert(!prev.blocks_at(p, t, k));
            }
        }
        prev.lemma_no_child_no_entries(p);
        Self::lemma_entry_at_after_push(prev, cur, cc);
        // the shape relations between `p` and paths starting with `p[0]`
        assert forall|q: Seq<Seq<char>>|
            q.len() > 0 && q[0] == p[0] implies (q == p <==> q.skip(1) =~= p.skip(1)) && (
            strict_prefix(p, q) <==> strict_prefix(p.skip(1), q.skip(1))) by {
            if q.skip(1) =~= p.skip(1) && q.len() == p.len() {
                assert forall|i: int| 0 <= i < p.len() implies q[i] == p[i] by {
                    if i > 0 {
                        assert(q.skip(1)[i - 1] == p.skip(1)[i - 1]);
                    }
                }
                assert(q =~= p);
            }
            if q.skip(1) =~= p.skip(1) && q.len() != p.len() {
                assert(q.skip(1).len() == p.skip(1).len());
            }
            if strict_prefix(p, q) {
                assert(p.skip(1) =~= q.skip(1).take(p.len() - 1)) by {
                    assert forall|i: int|
                        0 <= i < p.len() - 1 implies p.skip(1)[i] == q.skip(1).take(
                        p.len() - 1,
                    )[i] by {
                        assert(p[i + 1] == q.take(p.len() as int)[i + 1]);
                    }
                }
            }
            if strict_prefix(p.skip(1), q.skip(1)) {
                assert(p =~= q.take(p.len() as int)) by {
                    assert forall|i: int| 0 <= i < p.len() implies p[i] == q.take(
                        p.len() as int,
                    )[i] by {
                        if i > 0 {
                            assert(p.skip(1)[i - 1] == q.skip(1).take(p.len() - 1)[i - 1]);
                        }
                    }
                }
            }
        }
        // entries strictly below `p` did not exist, so planting is pruning
        assert forall|q: Seq<Seq<char>>|
            #![trigger cur.entry_at(q)]
            cur.entry_at(q) == if q == p {
                Some((t, ud))
            } else if strict_prefix(p, q) {
                None::<(VirtualFSEntryType, U)>
            } else {
                prev.entry_at(q)
            } by {
            if q.len() > 0 && q[0] == p[0] {
                assert(cur.entry_at(q) == cc.entry_at(q.skip(1)));
                if q != p && !strict_prefix(p, q) {
                    assert(cc.entry_at(q.skip(1)) is None);
                    assert(!prev.has_child(q[0]));
                    assert(prev.entry_at(q) is None);
                }
            }
        }
        assert(cur.after_prune_insert(prev, p, t, ud));
        assert(cur.after_leaf_insert(prev, p, t, ud));
        assert(!prev.has_entry_below(p));
        // well-formedness of the grown parent
        cc.lemma_has_entry_iff();
        assert(cc.has_entry());
        if cur.entry is Some {
            let (pt, pt_ud) = cur.entry->0;
            assert(!pt.ge(t));
            cc.lemma_all_stronger_iff(pt);
            assert forall|q: Seq<Seq<char>>|
                match #[trigger] cc.entry_at(q) {
                    Some((e, e_ud)) => e.comparable(pt) ==> e.spec_priority()->0
                        > pt.spec_priority()->0,
                    None => true,
                } by {
                if q != p.skip(1) {
                    assert(cc.entry_at(q) is None);
                }
            }
            assert(cc.all_stronger_than(pt));
            assert forall|i: int|
                0 <= i < cur.children@.len() implies (#[trigger] cur.children@[
                i
            ]).all_stronger_than(pt) by {
                if i < prev.children@.len() {
                    assert(cur.children@[i] == prev.children@[i]);
                } else {
                    assert(cur.children@[i] == cc);
                }
            }
        }
        assert forall|i: int| 0 <= i < cur.children@.len() implies (#[trigger] cur.children@[
            i
        ]).wf() && (#[trigger] cur.children@[i]).has_entry() by {
            if i < prev.children@.len() {
                assert(cur.children@[i] == prev.children@[i]);
            } else {
                assert(cur.children@[i] == cc);
            }
        }
        assert(cur.wf());
    }

    /// Looks the child carrying `name` up.
    fn find_child(&self, name: &String) -> (r: Option<usize>)
        ensures
            match r {
                Some(i) => i < self.children@.len() && self.children@[
                    i as int
                ].path_component@ == name@,
                None => !self.has_child(name@),
            },
    {
        let n = self.children.len();
        let mut i: usize = 0;
        while i < n
            invariant
                n == self.children@.len(),
                i <= n,
                forall|j: int| 0 <= j < i ==> (#[trigger] self.children@[j]).path_component@ != name@,
            decreases n - i,
        {
            if self.children[i].path_component == *name {
                return Some(i);
            }
            i = i + 1;
        }
        None
    }

    /// An entry after pruning against a fresh entry of kind `ty`: comparable
    /// entries that are not stronger are dropped.
    pub open spec fn filter_entry(
        e: Option<(VirtualFSEntryType, U)>,
        ty: VirtualFSEntryType,
    ) -> Option<(VirtualFSEntryType, U)> {
        match e {
            Some((t, u)) => if ty.ge(t) {
                None
            } else {
                Some((t, u))
            },
            None => None,
        }
    }

    /// The subtree `cur` is `prev` with every entry pruned against `ty`.
    pub open spec fn filtered_rel(prev: Self, cur: Self, ty: VirtualFSEntryType) -> bool {
        forall|q: Seq<Seq<char>>|
            #![trigger cur.entry_at(q)]
            cur.entry_at(q) == Self::filter_entry(prev.entry_at(q), ty)
    }

    /// No entry of this subtree would survive pruning against `ty`.
    pub open spec fn dead_after(self, ty: VirtualFSEntryType) -> bool {
        forall|q: Seq<Seq<char>>|
            Self::filter_entry(#[trigger] self.entry_at(q), ty) is None
    }

    /// Prunes, throughout this subtree, every entry that is comparable to
    /// `ty` and not stronger, and drops child subtrees left without any
    /// entry. Returns the pruned subtree and whether an entry remains.
    #[verifier::loop_isolation(false)]
    #[verifier::rlimit(50)]
    #[verifier::spinoff_prover]
    fn filtered(self, ty: VirtualFSEntryType) -> (r: (Self, bool))
        requires
            self.wf(),
        ensures
            r.0.wf(),
            r.0.path_component@ == self.path_component@,
            r.1 == r.0.has_entry(),
            Self::filtered_rel(self, r.0, ty),
        decreases self,
    {
        proof {
            self.lemma_wf_unfold();
        }
        let ghost orig_self = self;
        let VirtualFSTree { path_component, mut children, entry } = self;
        let ghost orig = children@;
        let new_entry = match entry {
            Some((t, u)) => if ty.is_ge(t) {
                None
            } else {
                Some((t, u))
            },
            None => None,
        };
        let mut new_children: Vec<VirtualFSTree<U>> = Vec::new();
        let ghost mut k: int = 0;
        while children.len() > 0
            invariant
                0 <= k <= orig.len(),
                children@ =~= orig.subrange(k, orig.len() as int),
                forall|m: int|
                    0 <= m < new_children@.len() ==> (#[trigger] new_children@[m]).wf(),
                forall|m: int|
                    0 <= m < new_children@.len() ==> (#[trigger] new_children@[m]).has_entry(),
                forall|m1: int, m2: int|
                    0 <= m1 < m2 < new_children@.len() ==> new_children@[m1].path_component@
                        != new_children@[m2].path_component@,
                forall|m: int|
                    0 <= m < new_children@.len() ==> exists|j: int|
                        0 <= j < k && orig[j].path_component@ == (#[trigger] new_children@[
                            m
                        ]).path_component@ && Self::filtered_rel(orig[j], new_children@[m], ty),
                forall|j: int|
                    0 <= j < k ==> (#[trigger] orig[j]).dead_after(ty) || exists|m: int|
                        0 <= m < new_children@.len() && (#[trigger] new_children@[
                            m
                        ]).path_component@ == orig[j].path_component@ && Self::filtered_rel(
                            orig[j],
                            new_children@[m],
                            ty,
                        ),
            decreases children@.len(),
        {
            let c = children.remove(0);
            proof {
                assert(c == orig.subrange(k, orig.len() as int)[0]);
                assert(c == orig[k]);
                assert(orig.subrange(k, orig.len() as int).remove(0) =~= orig.subrange(
                    k + 1,
                    orig.len() as int,
                ));
                assert(decreases_to!(orig_self => orig_self.children));
                assert(decreases_to!(orig_self.children => orig_self.children[k]));
                assert(decreases_to!(orig_self => c));
            }
            let (fc, kept) = c.filtered(ty);
            let ghost pre = new_children@;
            if kept {
                new_children.push(fc);
                proof {
                    assert(new_children@ == pre.push(fc));
                    // the kept child still holds an entry that its source held
                    fc.lemma_has_entry_iff();
                    let q0 = choose|q: Seq<Seq<char>>| fc.entry_at(q) is Some;
                    assert(fc.entry_at(q0) == Self::filter_entry(orig[k].entry_at(q0), ty));
                    assert(orig[k].entry_at(q0) is Some);
                    assert forall|j: int|
                        0 <= j < k + 1 implies (#[trigger] orig[j]).dead_after(ty) || exists|
                        m: int,
                    |
                        0 <= m < new_children@.len() && (#[trigger] new_children@[
                            m
                        ]).path_component@ == orig[j].path_component@ && Self::filtered_rel(
                            orig[j],
                            new_children@[m],
                            ty,
                        ) by {
                        if j == k {
                            let m = pre.len() as int;
                            assert(0 <= m < new_children@.len() && (#[trigger] new_children@[
                                m
                            ]).path_component@ == orig[j].path_component@ && Self::filtered_rel(
                                orig[j],
                                new_children@[m],
                                ty,
                            ));
                        } else if !orig[j].dead_after(ty) {
                            let m0 = choose|m0: int|
                                0 <= m0 < pre.len() && (#[trigger] pre[
                                    m0
                                ]).path_component@ == orig[j].path_component@
                                    && Self::filtered_rel(orig[j], pre[m0], ty);
                            assert(new_children@[m0] == pre[m0]);
                            assert(0 <= m0 < new_children@.len() && (#[trigger] new_children@[
                                m0
                            ]).path_component@ == orig[j].path_component@ && Self::filtered_rel(
                                orig[j],
                                new_children@[m0],
                                ty,
                            ));
                        }
                    }
                    assert forall|m1: int, m2: int|
                        0 <= m1 < m2 < new_children@.len() implies new_children@[
                        m1
                    ].path_component@ != new_children@[m2].path_component@ by {
                        if m2 == pre.len() as int && new_children@[m1].path_component@
                            == new_children@[m2].path_component@ {
                            assert(new_children@[m1] == pre[m1]);
                            let j0 = choose|j0: int|
                                0 <= j0 < k && orig[j0].path_component@ == (#[trigger] pre[
                                    m1
                                ]).path_component@ && Self::filtered_rel(orig[j0], pre[m1], ty);
                            assert(orig[j0].path_component@ != orig[k].path_component@);
                            assert(false);
                        }
                    }
                    assert forall|m: int|
                        0 <= m < new_children@.len() implies exists|j: int|
                        0 <= j < k + 1 && orig[j].path_component@ == (#[trigger] new_children@[
                            m
                        ]).path_component@ && Self::filtered_rel(orig[j], new_children@[m], ty) by {
                        if m < pre.len() {
                            assert(new_children@[m] == pre[m]);
                            let j0 = choose|j0: int|
                                0 <= j0 < k && orig[j0].path_component@ == pre[
                                    m
                                ].path_component@ && Self::filtered_rel(orig[j0], pre[m], ty);
                            assert(0 <= j0 < k + 1 && orig[j0].path_component@ == new_children@[
                                m
                            ].path_component@ && Self::filtered_rel(orig[j0], new_children@[m], ty));
                        } else {
                            assert(new_children@[m] == fc);
                            assert(0 <= k < k + 1 && orig[k].path_component@ == new_children@[
                                m
                            ].path_component@ && Self::filtered_rel(orig[k], new_children@[m], ty));
                        }
                    }
                }
            } else {
                proof {
                    fc.lemma_has_entry_iff();
                    assert forall|q: Seq<Seq<char>>|
                        Self::filter_entry(#[trigger] orig[k].entry_at(q), ty) is None by {
                        assert(fc.entry_at(q) == Self::filter_entry(orig[k].entry_at(q), ty));
                    }
                    assert(orig[k].dead_after(ty));
                }
            }
            proof {
                k = k + 1;
            }
        }
        let has_own = match &new_entry {
            Some(_) => true,
            None => false,
        };
        let any = has_own || new_children.len() > 0;
        let node = VirtualFSTree { path_component, children: new_children, entry: new_entry };
        proof {
            assert(k == orig.len());
            Self::lemma_assemble_filtered(orig_self, node, ty);
            node.lemma_has_entry_unfold();
            if node.children@.len() > 0 {
                assert(node.children@[0].has_entry());
            }
            assert(any == node.has_entry());
        }
        (node, any)
    }

    /// Assembles the postcondition of `filtered` from the per-child facts.
    #[verifier::spinoff_prover]
    proof fn lemma_assemble_filtered(prev: Self, node: Self, ty: VirtualFSEntryType)
        requires
            prev.wf(),
            node.path_component == prev.path_component,
            node.entry == Self::filter_entry(prev.entry, ty),
            forall|m: int| 0 <= m < node.children@.len() ==> (#[trigger] node.children@[m]).wf(),
            forall|m: int|
                0 <= m < node.children@.len() ==> (#[trigger] node.children@[m]).has_entry(),
            forall|m1: int, m2: int|
                0 <= m1 < m2 < node.children@.len() ==> node.children@[m1].path_component@
                    != node.children@[m2].path_component@,
            forall|m: int|
                0 <= m < node.children@.len() ==> exists|j: int|
                    0 <= j < prev.children@.len() && prev.children@[j].path_component@ == (
                    #[trigger] node.children@[m]).path_component@ && Self::filtered_rel(
                        prev.children@[j],
                        node.children@[m],
                        ty,
                    ),
            forall|j: int|
                0 <= j < prev.children@.len() ==> (#[trigger] prev.children@[j]).dead_after(ty)
                    || exists|m: int|
                    0 <= m < node.children@.len() && (#[trigger] node.children@[
                        m
                    ]).path_component@ == prev.children@[j].path_component@ && Self::filtered_rel(
                        prev.children@[j],
                        node.children@[m],
                        ty,
                    ),
        ensures
            node.wf(),
            Self::filtered_rel(prev, node, ty),
    {
        prev.lemma_wf_unfold();
        assert(node.unique_children());
        // the path-indexed pruning relation
        assert forall|q: Seq<Seq<char>>|
            #![trigger node.entry_at(q)]
            node.entry_at(q) == Self::filter_entry(prev.entry_at(q), ty) by {
            if q.len() == 0 {
            } else {
                let n = q[0];
                if node.has_child(n) {
                    let m = node.child_idx(n);
                    node.lemma_entry_at_via_child(m, q);
                    let j = choose|j: int|
                        0 <= j < prev.children@.len() && prev.children@[j].path_component@ == (
                        node.children@[m]).path_component@ && Self::filtered_rel(
                            prev.children@[j],
                            node.children@[m],
                            ty,
                        );
                    prev.lemma_entry_at_via_child(j, q);
                    assert(node.children@[m].entry_at(q.skip(1)) == Self::filter_entry(
                        prev.children@[j].entry_at(q.skip(1)),
                        ty,
                    ));
                } else {
                    assert(node.entry_at(q) is None);
                    if prev.has_child(n) {
                        let j = prev.child_idx(n);
                        prev.lemma_entry_at_via_child(j, q);
                        if prev.children@[j].dead_after(ty) {
                            assert(Self::filter_entry(prev.children@[j].entry_at(q.skip(1)), ty)
                                is None);
                        } else {
                            let m2 = choose|m2: int|
                                0 <= m2 < node.children@.len() && (#[trigger] node.children@[
                                    m2
                                ]).path_component@ == prev.children@[j].path_component@
                                    && Self::filtered_rel(
                                    prev.children@[j],
                                    node.children@[m2],
                                    ty,
                                );
                            assert(node.children@[m2].path_component@ == n);
                            assert(node.has_child(n));
                            assert(false);
                        }
                    }
                }
            }
        }
        // well-formedness of the assembled node
        if node.entry is Some {
            let (t, t_ud) = node.entry->0;
            if t.spec_should_be_leaf() {
                assert(prev.entry == Some((t, t_ud)));
                assert(prev.children@.len() == 0);
                assert(node.children@.len() == 0) by {
                    if node.children@.len() > 0 {
                        let c = node.children@[0];
                        let j = choose|j: int|
                            0 <= j < prev.children@.len() && (#[trigger] prev.children@[
                                j
                            ]).path_component@ == c.path_component@ && Self::filtered_rel(
                                prev.children@[j],
                                c,
                                ty,
                            );
                        assert(false);
                    }
                }
            }
            assert forall|m: int|
                0 <= m < node.children@.len() implies (#[trigger] node.children@[
                m
            ]).all_stronger_than(t) by {
                let c = node.children@[m];
                let j = choose|j: int|
                    0 <= j < prev.children@.len() && prev.children@[j].path_component@ == (
                    node.children@[m]).path_component@ && Self::filtered_rel(
                        prev.children@[j],
                        node.children@[m],
                        ty,
                    );
                let pc = prev.children@[j];
                assert(prev.entry == Some((t, t_ud)));
                assert(pc.all_stronger_than(t));
                pc.lemma_all_stronger_iff(t);
                c.lemma_all_stronger_iff(t);
                assert forall|q0: Seq<Seq<char>>|
                    match #[trigger] c.entry_at(q0) {
                        Some((e, e_ud)) => e.comparable(t) ==> e.spec_priority()->0
                            > t.spec_priority()->0,
                        None => true,
                    } by {
                    assert(c.entry_at(q0) == Self::filter_entry(pc.entry_at(q0), ty));
                }
            }
        }
        assert(node.wf());
    }


    /// Trees with the same entries walk the same way.
    proof fn lemma_same_entries_blocks(a: Self, b: Self, p: Seq<Seq<char>>, t: VirtualFSEntryType, k: int)
        requires
            Self::same_entries(a, b),
            0 <= k,
        ensures
            a.first_block_from(p, t, k) == b.first_block_from(p, t, k),
        decreases p.len() - k,
    {
        if k < p.len() {
            assert(b.entry_at(p.take(k)) == a.entry_at(p.take(k)));
            Self::lemma_same_entries_blocks(a, b, p, t, k + 1);
        }
    }

    /// When every node above the target is unchanged and nothing blocked the
    /// old walk, nothing blocks the new walk either.
    proof fn lemma_unchanged_ancestors_no_blocks(t0: Self, t1: Self, p: Seq<Seq<char>>, ty: VirtualFSEntryType)
        requires
            forall|k: int| 0 <= k < p.len() ==> t1.entry_at(#[trigger] p.take(k)) == t0.entry_at(p.take(k)),
            t0.first_block_from(p, ty, 0) is None,
        ensures
            t1.first_block_from(p, ty, 0) is None,
    {
        t0.lemma_first_block_bounds(p, ty, 0);
        t1.lemma_first_block_bounds(p, ty, 0);
        let fb = t1.first_block_from(p, ty, 0);
        if fb is Some {
            let k = fb->0;
            assert(t1.blocks_at(p, ty, k));
            assert(t1.entry_at(p.take(k)) == t0.entry_at(p.take(k)));
            assert(t0.blocks_at(p, ty, k));
            assert(false);
        }
    }

    /// A strict prefix of the target path is never the target itself nor
    /// strictly below it, so insertions leave it untouched.
    proof fn lemma_insert_keeps_ancestors(t0: Self, t1: Self, p: Seq<Seq<char>>, ty: VirtualFSEntryType, ud: U)
        requires
            t1.after_prune_insert(t0, p, ty, ud) || t1.after_leaf_insert(t0, p, ty, ud),
        ensures
            forall|k: int| 0 <= k < p.len() ==> t1.entry_at(#[trigger] p.take(k)) == t0.entry_at(p.take(k)),
            t1.entry_at(p) == Some((ty, ud)),
    {
        assert forall|k: int|
            0 <= k < p.len() implies t1.entry_at(#[trigger] p.take(k)) == t0.entry_at(p.take(k)) by {
            assert(p.take(k).len() == k < p.len());
            assert(p.take(k) != p);
            assert(!strict_prefix(p, p.take(k)));
            assert(t1.entry_at(p.take(k)) == t0.entry_at(p.take(k)));
        }
        assert(t1.entry_at(p) == Some((ty, ud)));
    }

    /// Inserting the same path and kind twice behaves, for the tree, as
    /// inserting it once: the second call never changes an entry, and a
    /// successful first call makes the second succeed as well.
    pub proof fn lemma_add_path_idempotent(
        t0: Self,
        t1: Self,
        t2: Self,
        p: Seq<Seq<char>>,
        ty: VirtualFSEntryType,
        ud1: U,
        ud2: U,
        r1: Result<(), FSTreeError<U>>,
        r2: Result<(), FSTreeError<U>>,
    )
        requires
            Self::add_path_post(t0, t1, p, ty, ud1, r1),
            Self::add_path_post(t1, t2, p, ty, ud2, r2),
        ensures
            Self::same_entries(t1, t2),
            r1 == Ok::<(), FSTreeError<U>>(()) ==> r2 == Ok::<(), FSTreeError<U>>(()),
    {
        t0.lemma_first_block_bounds(p, ty, 0);
        match t0.first_block_from(p, ty, 0) {
            Some(k) => {
                Self::lemma_same_entries_blocks(t0, t1, p, ty, 0);
                assert(t1.entry_at(p.take(k)) == t0.entry_at(p.take(k)));
            },
            None => {
                if Self::same_entries(t0, t1) {
                    Self::lemma_same_entries_blocks(t0, t1, p, ty, 0);
                    assert(t1.entry_at(p) == t0.entry_at(p));
                } else {
                    // the first call planted the entry at `p`
                    Self::lemma_insert_keeps_ancestors(t0, t1, p, ty, if !ty.spec_should_be_leaf() {
                        ud1
                    } else {
                        ud1
                    });
                    Self::lemma_unchanged_ancestors_no_blocks(t0, t1, p, ty);
                    assert(t1.entry_at(p) == Some((ty, ud1)));
                    if !ty.spec_should_be_leaf() {
                        assert(ty.ge(ty));
                    }
                }
            },
        }
    }

    /// On any well-formed tree holding a whitelist entry, a comparable
    /// declaration of at most its strength strictly below it is redundant:
    /// it succeeds and changes no entry.
    pub proof fn lemma_redundant_below(
        t1: Self,
        t2: Self,
        p: Seq<Seq<char>>,
        cp: Seq<Seq<char>>,
        strong: VirtualFSEntryType,
        weak: VirtualFSEntryType,
        ud: U,
        r: Result<(), FSTreeError<U>>,
    )
        requires
            t1.wf(),
            strict_prefix(p, cp),
            t1.type_at(p) == Some(strong),
            !strong.spec_should_be_leaf(),
            strong.ge(weak),
            Self::add_path_post(t1, t2, cp, weak, ud, r),
        ensures
            r == Ok::<(), FSTreeError<U>>(()),
            Self::same_entries(t1, t2),
    {
        t1.lemma_wf_entries();
        assert(cp.take(p.len() as int) == p);
        assert(t1.blocks_at(cp, weak, p.len() as int));
        t1.lemma_first_block_bounds(cp, weak, 0);
        let fb = t1.first_block_from(cp, weak, 0);
        if fb is None {
            assert(!t1.blocks_at(cp, weak, p.len() as int));
        }
        let k = fb->0;
        assert(t1.blocks_at(cp, weak, k));
        assert(k <= p.len()) by {
            if k > p.len() {
                assert(!t1.blocks_at(cp, weak, p.len() as int));
            }
        }
        let (e, e_ud) = t1.entry_at(cp.take(k))->0;
        if e.spec_should_be_leaf() {
            // a leaf-exclusive entry cannot stand at or above an entry
            if k == p.len() {
                assert(cp.take(k) =~= p);
            } else {
                assert(strict_prefix(cp.take(k), p)) by {
                    assert forall|x: int| 0 <= x < k implies cp.take(k)[x] == p.take(k)[x] by {
                        assert(p[x] == cp.take(p.len() as int)[x]);
                    }
                    assert(cp.take(k) =~= p.take(k));
                }
                assert(t1.type_at(cp.take(k)) is Some && t1.type_at(p) is Some);
            }
            assert(false);
        }
    }

    /// On any well-formed tree holding a leaf-exclusive entry, declaring a
    /// different kind at the same path is rejected as a conflict, citing
    /// the stored declaration, and changes no entry.
    pub proof fn lemma_conflict_at(
        t1: Self,
        t2: Self,
        p: Seq<Seq<char>>,
        stored: VirtualFSEntryType,
        ty: VirtualFSEntryType,
        ud: U,
        r: Result<(), FSTreeError<U>>,
    )
        requires
            t1.wf(),
            t1.type_at(p) == Some(stored),
            stored.spec_should_be_leaf(),
            ty != stored,
            // under a comparable stronger ancestor, a weak declaration is
            // dropped as redundant before it reaches the stored entry, so
            // the conflict is only owed where no ancestor can block: below
            // a symlink no ancestor holds an entry at all, and nothing is
            // comparable to a tmpfs declaration
            stored is Symlink || ty is Tmpfs,
            Self::add_path_post(t1, t2, p, ty, ud, r),
        ensures
            r == Err::<(), FSTreeError<U>>(FSTreeError::ConflictingEntries(
                (t1.entry_at(p)->0).1,
                ud,
            )),
            Self::same_entries(t1, t2),
    {
        t1.lemma_wf_entries();
        t1.lemma_first_block_bounds(p, ty, 0);
        let fb = t1.first_block_from(p, ty, 0);
        if fb is Some {
            let k = fb->0;
            assert(t1.blocks_at(p, ty, k));
            let (e, e_ud) = t1.entry_at(p.take(k))->0;
            assert(strict_prefix(p.take(k), p)) by {
                assert(p.take(k).len() == k < p.len());
            }
            assert(t1.type_at(p.take(k)) is Some && t1.type_at(p) is Some);
            // a leaf-exclusive entry cannot stand above the stored entry
            assert(!e.spec_should_be_leaf());
            assert(e.ge(ty));
            if stored is Symlink {
                // every non-leaf kind is comparable to a symlink, so the
                // stored entry would have to be stronger than its ancestor
                assert(stored.comparable(e));
                assert(stored.spec_priority()->0 > e.spec_priority()->0);
            }
            assert(false);
        }
    }

    /// A weaker or equal comparable entry declared strictly below an
    /// existing entry changes nothing: the tree keeps exactly the entry at
    /// the ancestor.
    pub proof fn lemma_pruning(
        t0: Self,
        t1: Self,
        t2: Self,
        p: Seq<Seq<char>>,
        cp: Seq<Seq<char>>,
        strong: VirtualFSEntryType,
        weak: VirtualFSEntryType,
        ud1: U,
        ud2: U,
        r1: Result<(), FSTreeError<U>>,
        r2: Result<(), FSTreeError<U>>,
    )
        requires
            forall|q: Seq<Seq<char>>| t0.entry_at(q) is None,
            strict_prefix(p, cp),
            strong.ge(weak),
            Self::add_path_post(t0, t1, p, strong, ud1, r1),
            Self::add_path_post(t1, t2, cp, weak, ud2, r2),
        ensures
            r1 == Ok::<(), FSTreeError<U>>(()),
            t2.type_at(p) == Some(strong),
            forall|q: Seq<Seq<char>>| q != p ==> t2.entry_at(q) is None,
    {
        t0.lemma_no_entries_no_blocks(p, strong, 0);
        assert(t0.entry_at(p) is None);
        assert(!t0.has_entry_below(p));
        assert(t1.after_prune_insert(t0, p, strong, ud1) || t1.after_leaf_insert(
            t0,
            p,
            strong,
            ud1,
        ));
        assert(t1.entry_at(p) == Some((strong, ud1)));
        assert forall|q: Seq<Seq<char>>| q != p implies #[trigger] t1.entry_at(q) is None by {}
        // the second walk stops at the ancestor entry
        assert(cp.take(p.len() as int) == p);
        assert(t1.blocks_at(cp, weak, p.len() as int));
        t1.lemma_first_block_bounds(cp, weak, 0);
        let fb = t1.first_block_from(cp, weak, 0);
        if fb is None {
            assert(!t1.blocks_at(cp, weak, p.len() as int));
        }
        let k = fb->0;
        assert(t1.blocks_at(cp, weak, k));
        if k != p.len() {
            assert(cp.take(k).len() != p.len());
            assert(cp.take(k) != p);
            assert(t1.entry_at(cp.take(k)) is None);
            assert(false);
        }
        assert(Self::same_entries(t1, t2));
    }

    /// Declaring a stronger comparable entry at an ancestor removes the
    /// weaker descendant: only the ancestor's entry remains.
    pub proof fn lemma_promotion(
        t0: Self,
        t1: Self,
        t2: Self,
        p: Seq<Seq<char>>,
        cp: Seq<Seq<char>>,
        weak: VirtualFSEntryType,
        strong: VirtualFSEntryType,
        ud1: U,
        ud2: U,
        r1: Result<(), FSTreeError<U>>,
        r2: Result<(), FSTreeError<U>>,
    )
        requires
            forall|q: Seq<Seq<char>>| t0.entry_at(q) is None,
            strict_prefix(p, cp),
            weak.comparable(strong),
            strong.spec_priority()->0 > weak.spec_priority()->0,
            Self::add_path_post(t0, t1, cp, weak, ud1, r1),
            Self::add_path_post(t1, t2, p, strong, ud2, r2),
        ensures
            r1 == Ok::<(), FSTreeError<U>>(()),
            r2 == Ok::<(), FSTreeError<U>>(()),
            t2.type_at(p) == Some(strong),
            forall|q: Seq<Seq<char>>| q != p ==> t2.entry_at(q) is None,
    {
        // the stronger kind cannot be leaf-exclusive: nothing is comparable
        // and weaker than the weakest comparable kind
        assert(!strong.spec_should_be_leaf()) by {
            if weak is AllowDev || weak is ReadWrite || weak is ReadOnly || weak is Symlink {
                assert(weak.spec_priority()->0 >= -1);
            }
        }
        t0.lemma_no_entries_no_blocks(cp, weak, 0);
        assert(t0.entry_at(cp) is None);
        assert(!t0.has_entry_below(cp));
        assert(t1.after_prune_insert(t0, cp, weak, ud1) || t1.after_leaf_insert(
            t0,
            cp,
            weak,
            ud1,
        ));
        assert(t1.entry_at(cp) == Some((weak, ud1)));
        assert forall|q: Seq<Seq<char>>| q != cp implies #[trigger] t1.entry_at(q) is None by {}
        // the second walk passes every ancestor: their paths are shorter
        // than `cp`
        t1.lemma_first_block_bounds(p, strong, 0);
        let fb = t1.first_block_from(p, strong, 0);
        if fb is Some {
            let k = fb->0;
            assert(t1.blocks_at(p, strong, k));
            assert(p.take(k).len() == k < p.len() < cp.len());
            assert(p.take(k) != cp);
            assert(t1.entry_at(p.take(k)) is None);
            assert(false);
        }
        assert(p != cp);
        assert(t1.entry_at(p) is None);
        assert(t2.after_prune_insert(t1, p, strong, ud2));
        assert(t2.entry_at(p) == Some((strong, ud2)));
        assert forall|q: Seq<Seq<char>>| q != p implies #[trigger] t2.entry_at(q) is None by {
            if strict_prefix(p, q) {
                if q == cp {
                    assert(t2.entry_at(q) == Self::filter_entry(t1.entry_at(q), strong));
                    assert(strong.ge(weak));
                }
            } else {
                assert(t2.entry_at(q) == t1.entry_at(q));
            }
        }
    }

    /// Declaring two different leaf-exclusive kinds for one path is a
    /// conflict: the second declaration is rejected and the first stands.
    pub proof fn lemma_leaf_conflict(
        t0: Self,
        t1: Self,
        t2: Self,
        p: Seq<Seq<char>>,
        ud1: U,
        ud2: U,
        r1: Result<(), FSTreeError<U>>,
        r2: Result<(), FSTreeError<U>>,
    )
        requires
            forall|q: Seq<Seq<char>>| t0.entry_at(q) is None,
            Self::add_path_post(t0, t1, p, VirtualFSEntryType::Symlink, ud1, r1),
            Self::add_path_post(t1, t2, p, VirtualFSEntryType::Tmpfs, ud2, r2),
        ensures
            r1 == Ok::<(), FSTreeError<U>>(()),
            r2 == Err::<(), FSTreeError<U>>(FSTreeError::ConflictingEntries(ud1, ud2)),
            t2.type_at(p) == Some(VirtualFSEntryType::Symlink),
    {
        t0.lemma_no_entries_no_blocks(p, VirtualFSEntryType::Symlink, 0);
        assert(t0.entry_at(p) is None);
        assert(!t0.has_entry_below(p));
        assert(t1.after_leaf_insert(t0, p, VirtualFSEntryType::Symlink, ud1));
        assert(t1.entry_at(p) == Some((VirtualFSEntryType::Symlink, ud1)));
        assert forall|q: Seq<Seq<char>>| q != p implies #[trigger] t1.entry_at(q) is None by {}
        t1.lemma_first_block_bounds(p, VirtualFSEntryType::Tmpfs, 0);
        let fb = t1.first_block_from(p, VirtualFSEntryType::Tmpfs, 0);
        if fb is Some {
            let k = fb->0;
            assert(t1.blocks_at(p, VirtualFSEntryType::Tmpfs, k));
            assert(p.take(k).len() == k < p.len());
            assert(p.take(k) != p);
            assert(t1.entry_at(p.take(k)) is None);
            assert(false);
        }
        assert(Self::same_entries(t1, t2));
    }

    /// Trees whose children agree pairwise on component and listing have
    /// the same child listings.
    proof fn lemma_flat_upto_pointwise(prev: Self, node: VirtualFSTree<()>, k: int)
        requires
            0 <= k <= prev.children@.len(),
            node.children@.len() == prev.children@.len(),
            forall|m: int|
                0 <= m < prev.children@.len() ==> (#[trigger] node.children@[m]).component()
                    == prev.children@[m].component(),
            forall|m: int|
                0 <= m < prev.children@.len() ==> (#[trigger] node.children@[m]).spec_flatten()
                    == prev.children@[m].spec_flatten(),
        ensures
            node.flat_upto(k) == prev.flat_upto(k),
        decreases k,
    {
        prev.lemma_flat_unfold(k);
        node.lemma_flat_unfold(k);
        if k > 0 {
            Self::lemma_flat_upto_pointwise(prev, node, k - 1);
        }
    }

    /// The path-level reading of the tree's invariant: no entry lies below
    /// a leaf-exclusive entry, and an entry below a comparable entry is
    /// strictly stronger.
    #[verifier::spinoff_prover]
    pub proof fn lemma_wf_entries(self)
        requires
            self.wf(),
        ensures
            forall|p: Seq<Seq<char>>, q: Seq<Seq<char>>|
                strict_prefix(p, q) && (#[trigger] self.type_at(p)) is Some && (
                #[trigger] self.type_at(q)) is Some ==> !self.type_at(
                    p,
                )->0.spec_should_be_leaf() && (self.type_at(q)->0.comparable(self.type_at(p)->0)
                    ==> self.type_at(q)->0.spec_priority()->0 > self.type_at(
                    p,
                )->0.spec_priority()->0),
        decreases self,
    {
        self.lemma_wf_unfold();
        assert forall|p: Seq<Seq<char>>, q: Seq<Seq<char>>|
            strict_prefix(p, q) && (#[trigger] self.type_at(p)) is Some && (
            #[trigger] self.type_at(q)) is Some implies !self.type_at(
            p,
        )->0.spec_should_be_leaf() && (self.type_at(q)->0.comparable(self.type_at(p)->0)
            ==> self.type_at(q)->0.spec_priority()->0 > self.type_at(
            p,
        )->0.spec_priority()->0) by {
            assert(q[0] == q.take(p.len() as int)[0] || p.len() == 0);
            if p.len() == 0 {
                // the ancestor is this node's own entry
                let (a, a_ud) = self.entry_at(p)->0;
                assert(self.entry_at(Seq::<Seq<char>>::empty()) == self.entry);
                assert(p =~= Seq::<Seq<char>>::empty());
                assert(self.entry == Some((a, a_ud)));
                assert(self.has_child(q[0]));
                let i = self.child_idx(q[0]);
                self.lemma_entry_at_via_child(i, q);
                if a.spec_should_be_leaf() {
                    assert(self.children@.len() == 0);
                    assert(false);
                }
                let c = self.children@[i];
                assert(c.all_stronger_than(a));
                c.lemma_all_stronger_iff(a);
                assert(c.entry_at(q.skip(1)) is Some);
            } else {
                // both entries lie in the child carrying the first component
                assert(q[0] == p[0]);
                assert(self.has_child(p[0]));
                let i = self.child_idx(p[0]);
                self.lemma_entry_at_via_child(i, p);
                self.lemma_entry_at_via_child(i, q);
                let c = self.children@[i];
                assert(c.wf());
                c.lemma_wf_entries();
                assert(strict_prefix(p.skip(1), q.skip(1))) by {
                    assert forall|x: int|
                        0 <= x < p.len() - 1 implies p.skip(1)[x] == q.skip(1).take(
                        p.len() - 1,
                    )[x] by {
                        assert(p[x + 1] == q.take(p.len() as int)[x + 1]);
                    }
                    assert(p.skip(1) =~= q.skip(1).take(p.len() - 1));
                }
                assert(c.type_at(p.skip(1)) is Some && c.type_at(q.skip(1)) is Some);
            }
        }
    }

    /// Strips the per-path context, keeping the tree's structure and entry
    /// kinds for execution.
    #[verifier::loop_isolation(false)]
    #[verifier::rlimit(60)]
    #[verifier::spinoff_prover]
    pub fn remove_user_data(self) -> (r: VirtualFSTree<()>)
        requires
            self.wf(),
        ensures
            r.wf(),
            r.component() == self.component(),
            r.has_entry() == self.has_entry(),
            forall|q: Seq<Seq<char>>| #[trigger] r.type_at(q) == self.type_at(q),
            r.spec_flatten() == self.spec_flatten(),
        decreases self,
    {
        proof {
            self.lemma_wf_unfold();
        }
        let ghost orig_self = self;
        let VirtualFSTree { path_component, mut children, entry } = self;
        let ghost orig = children@;
        let new_entry = match entry {
            Some((t, _)) => Some((t, ())),
            None => None,
        };
        let mut new_children: Vec<VirtualFSTree<()>> = Vec::new();
        let ghost mut k: int = 0;
        while children.len() > 0
            invariant
                0 <= k <= orig.len(),
                children@ =~= orig.subrange(k, orig.len() as int),
                new_children@.len() == k,
                forall|m: int| 0 <= m < k ==> (#[trigger] new_children@[m]).wf(),
                forall|m: int|
                    0 <= m < k ==> (#[trigger] new_children@[m]).has_entry() == orig[
                        m
                    ].has_entry(),
                forall|m: int|
                    0 <= m < k ==> (#[trigger] new_children@[m]).path_component@ == orig[
                        m
                    ].path_component@,
                forall|m: int, q: Seq<Seq<char>>|
                    0 <= m < k ==> (#[trigger] new_children@[m].type_at(q)) == orig[m].type_at(
                        q,
                    ),
                forall|m: int|
                    0 <= m < k ==> (#[trigger] new_children@[m]).spec_flatten() == orig[
                        m
                    ].spec_flatten(),
            decreases children@.len(),
        {
            let c = children.remove(0);
            proof {
                assert(c == orig.subrange(k, orig.len() as int)[0]);
                assert(c == orig[k]);
                assert(orig.subrange(k, orig.len() as int).remove(0) =~= orig.subrange(
                    k + 1,
                    orig.len() as int,
                ));
                assert(decreases_to!(orig_self => orig_self.children));
                assert(decreases_to!(orig_self.children => orig_self.children[k]));
                assert(decreases_to!(orig_self => c));
            }
            let fc = c.remove_user_data();
            new_children.push(fc);
            proof {
                k = k + 1;
            }
        }
        let node = VirtualFSTree { path_component, children: new_children, entry: new_entry };
        proof {
            Self::lemma_assemble_stripped(orig_self, node);
        }
        node
    }

    /// Assembles the contract of `remove_user_data` from the per-child
    /// facts.
    #[verifier::rlimit(60)]
    #[verifier::spinoff_prover]
    proof fn lemma_assemble_stripped(prev: Self, node: VirtualFSTree<()>)
        requires
            prev.wf(),
            node.path_component == prev.path_component,
            node.children@.len() == prev.children@.len(),
            node.entry == match prev.entry {
                Some((t, _)) => Some((t, ())),
                None => None::<(VirtualFSEntryType, ())>,
            },
            forall|m: int| 0 <= m < node.children@.len() ==> (#[trigger] node.children@[m]).wf(),
            forall|m: int|
                0 <= m < node.children@.len() ==> (#[trigger] node.children@[m]).has_entry()
                    == prev.children@[m].has_entry(),
            forall|m: int|
                0 <= m < node.children@.len() ==> (#[trigger] node.children@[m]).path_component@
                    == prev.children@[m].path_component@,
            forall|m: int, q: Seq<Seq<char>>|
                0 <= m < node.children@.len() ==> (#[trigger] node.children@[m].type_at(q))
                    == prev.children@[m].type_at(q),
            forall|m: int|
                0 <= m < node.children@.len() ==> (#[trigger] node.children@[m]).spec_flatten()
                    == prev.children@[m].spec_flatten(),
        ensures
            node.wf(),
            node.has_entry() == prev.has_entry(),
            forall|q: Seq<Seq<char>>| #[trigger] node.type_at(q) == prev.type_at(q),
            node.spec_flatten() == prev.spec_flatten(),
    {
        prev.lemma_wf_unfold();
        prev.lemma_flat_unfold(0);
        node.lemma_flat_unfold(0);
        Self::lemma_flat_upto_pointwise(prev, node, prev.children@.len() as int);
        assert(node.spec_flatten() == prev.spec_flatten());
        assert(node.unique_children());
        // lookups agree path by path
        assert forall|q: Seq<Seq<char>>| #[trigger] node.type_at(q) == prev.type_at(q) by {
            if q.len() == 0 {
            } else {
                if prev.has_child(q[0]) {
                    let j = prev.child_idx(q[0]);
                    prev.lemma_entry_at_via_child(j, q);
                    assert(node.children@[j].path_component@ == q[0]);
                    node.lemma_entry_at_via_child(j, q);
                    assert(node.children@[j].type_at(q.skip(1)) == prev.children@[j].type_at(
                        q.skip(1),
                    ));
                } else {
                    assert(!node.has_child(q[0])) by {
                        if node.has_child(q[0]) {
                            let j = node.child_idx(q[0]);
                            assert(prev.children@[j].path_component@ == q[0]);
                        }
                    }
                }
            }
        }
        // subtree emptiness agrees
        node.lemma_has_entry_unfold();
        prev.lemma_has_entry_unfold();
        if prev.has_entry() && prev.entry is None {
            let i = choose|i: int|
                0 <= i < prev.children@.len() && (#[trigger] prev.children@[i]).has_entry();
            assert(node.children@[i].has_entry());
        }
        if node.has_entry() && node.entry is None {
            let i = choose|i: int|
                0 <= i < node.children@.len() && (#[trigger] node.children@[i]).has_entry();
            assert(prev.children@[i].has_entry());
        }
        // comparable descendants stay stronger
        if node.entry is Some {
            let (t, _) = node.entry->0;
            assert forall|i: int|
                0 <= i < node.children@.len() implies (#[trigger] node.children@[
                i
            ]).all_stronger_than(t) by {
                let c = node.children@[i];
                let pc = prev.children@[i];
                assert(pc.all_stronger_than(t));
                pc.lemma_all_stronger_iff(t);
                c.lemma_all_stronger_iff(t);
                assert forall|q0: Seq<Seq<char>>|
                    match #[trigger] c.entry_at(q0) {
                        Some((e, e_ud)) => e.comparable(t) ==> e.spec_priority()->0
                            > t.spec_priority()->0,
                        None => true,
                    } by {
                    assert(c.type_at(q0) == pc.type_at(q0));
                }
            }
        }
        assert(node.wf());
    }

    /// The leftmost entry of this subtree in depth-first order.
    fn find_subpath_entry(&self) -> (r: (VirtualFSEntryType, U))
        requires
            self.wf(),
            self.has_entry(),
        ensures
            r == self.spec_first_entry(),
        decreases self,
    {
        proof {
            self.lemma_wf_unfold();
            self.lemma_has_entry_unfold();
        }
        match &self.entry {
            Some(e) => (e.0, e.1),
            None => {
                proof {
                    assert(self.children@.len() > 0);
                    assert(self.spec_first_entry() == self.children@[0].spec_first_entry());
                }
                self.children[0].find_subpath_entry()
            },
        }
    }

    /// Inserts the entry `(ty, ud)` at the path `parts[i..]` below this
    /// node, enforcing the normalization rules.
    #[verifier::spinoff_prover]
    fn add_path_rec(
        &mut self,
        parts: &Vec<String>,
        i: usize,
        ty: VirtualFSEntryType,
        ud: U,
    ) -> (r: Result<(), FSTreeError<U>>)
        requires
            old(self).wf(),
            i <= parts@.len(),
        ensures
            final(self).wf(),
            final(self).path_component@ == old(self).path_component@,
            Self::add_path_post(*old(self), *final(self), views(parts@).skip(i as int), ty, ud, r),
        decreases parts@.len() - i,
    {
        let ghost p = views(parts@).skip(i as int);
        proof {
            old(self).lemma_wf_unfold();
            assert(p.take(0) =~= Seq::<Seq<char>>::empty());
            assert(old(self).entry_at(Seq::<Seq<char>>::empty()) == old(self).entry);
        }
        let entry_now = self.entry;
        if i < parts.len() {
            proof {
                assert(views(parts@)[i as int] == parts@[i as int]@);
                assert(p[0] == parts@[i as int]@);
            }
            if let Some((e, e_ud)) = entry_now {
                if e.should_be_leaf() {
                    proof {
                        assert(old(self).blocks_at(p, ty, 0));
                        assert(old(self).first_block_from(p, ty, 0) == Some(0int));
                    }
                    return Err(FSTreeError::IllegalChildren {
                        inner_path: e_ud,
                        invalid_child: ud,
                    });
                }
                if e.is_ge(ty) {
                    proof {
                        assert(old(self).blocks_at(p, ty, 0));
                        assert(old(self).first_block_from(p, ty, 0) == Some(0int));
                    }
                    return Ok(());
                }
            }
            proof {
                assert(!old(self).blocks_at(p, ty, 0));
            }
            let name = &parts[i];
            match self.find_child(name) {
                Some(idx) => {
                    let mut child = self.children.remove(idx);
                    proof {
                        assert(child == old(self).children@[idx as int]);
                        assert(decreases_to!(*old(self) => old(self).children));
                        assert(decreases_to!(old(self).children => old(self).children[idx as int]));
                    }
                    let res = child.add_path_rec(parts, i + 1, ty, ud);
                    self.children.insert(idx, child);
                    proof {
                        assert(self.children@ =~= old(self).children@.update(idx as int, child));
                        assert(p.skip(1) =~= views(parts@).skip(i as int + 1));
                        Self::lemma_post_lift(
                            *old(self),
                            *self,
                            child,
                            idx as int,
                            p,
                            ty,
                            ud,
                            res,
                        );
                    }
                    res
                },
                None => {
                    let mut child = VirtualFSTree {
                        path_component: name.clone(),
                        children: Vec::new(),
                        entry: None,
                    };
                    let ghost fresh = child;
                    let res = child.add_path_rec(parts, i + 1, ty, ud);
                    self.children.push(child);
                    proof {
                        assert(p.skip(1) =~= views(parts@).skip(i as int + 1));
                        Self::lemma_post_lift_fresh(
                            *old(self),
                            *self,
                            fresh,
                            child,
                            p,
                            ty,
                            ud,
                            res,
                        );
                    }
                    res
                },
            }
        } else {
            proof {
                assert(p.len() == 0);
                assert(p =~= Seq::<Seq<char>>::empty());
                assert(old(self).first_block_from(p, ty, 0) == None::<int>);
                assert(old(self).entry_at(p) == old(self).entry);
            }
            if !ty.should_be_leaf() {
                if let Some((e, e_ud)) = entry_now {
                    if e.should_be_leaf() {
                        return Err(FSTreeError::ConflictingEntries(e_ud, ud));
                    }
                    if e.is_ge(ty) {
                        return Ok(());
                    }
                }
                // prune weaker comparable entries below, then plant the entry
                let mut tmp = VirtualFSTree {
                    path_component: String::new(),
                    children: Vec::new(),
                    entry: None,
                };
                core::mem::swap(self, &mut tmp);
                let ghost prev = tmp;
                let (mut fnode, _) = tmp.filtered(ty);
                let ghost fbase = fnode;
                fnode.entry = Some((ty, ud));
                proof {
                    fbase.lemma_wf_unfold();
                    assert(fnode.children@ == fbase.children@);
                    assert forall|q: Seq<Seq<char>>|
                        #![trigger fnode.entry_at(q)]
                        fnode.entry_at(q) == if q =~= Seq::<Seq<char>>::empty() {
                            Some((ty, ud))
                        } else {
                            Self::filter_entry(prev.entry_at(q), ty)
                        } by {
                        if q.len() == 0 {
                            assert(q =~= Seq::<Seq<char>>::empty());
                        } else {
                            Self::lemma_entry_at_same_children(fnode, fbase, q);
                        }
                    }
                    assert(fnode.after_prune_insert(prev, p, ty, ud)) by {
                        assert forall|q: Seq<Seq<char>>|
                            #![trigger fnode.entry_at(q)]
                            fnode.entry_at(q) == if q == p {
                                Some((ty, ud))
                            } else if strict_prefix(p, q) {
                                match prev.entry_at(q) {
                                    Some((e, e_ud)) => if ty.ge(e) {
                                        None
                                    } else {
                                        Some((e, e_ud))
                                    },
                                    None => None,
                                }
                            } else {
                                prev.entry_at(q)
                            } by {
                            if q.len() == 0 {
                                assert(q =~= p);
                            } else {
                                assert(strict_prefix(p, q)) by {
                                    assert(p =~= q.take(0));
                                }
                            }
                        }
                    }
                    // well-formedness with the planted entry
                    assert forall|m: int|
                        0 <= m < fnode.children@.len() implies (#[trigger] fnode.children@[
                        m
                    ]).all_stronger_than(ty) by {
                        let c = fnode.children@[m];
                        c.lemma_all_stronger_iff(ty);
                        assert forall|q0: Seq<Seq<char>>|
                            match #[trigger] c.entry_at(q0) {
                                Some((e, e_ud)) => e.comparable(ty) ==> e.spec_priority()->0
                                    > ty.spec_priority()->0,
                                None => true,
                            } by {
                            let qq = seq![c.path_component@] + q0;
                            fbase.lemma_entry_at_via_child(m, qq);
                            assert(qq.skip(1) =~= q0);
                            assert(c.entry_at(q0) == fbase.entry_at(qq));
                            assert(fbase.entry_at(qq) == Self::filter_entry(
                                prev.entry_at(qq),
                                ty,
                            ));
                        }
                    }
                    assert(fnode.wf());
                }
                *self = fnode;
                Ok(())
            } else {
                if let Some((e, e_ud)) = entry_now {
                    if e == ty {
                        return Ok(());
                    } else {
                        return Err(FSTreeError::ConflictingEntries(e_ud, ud));
                    }
                }
                // plant the leaf-exclusive entry; descendants are cleared,
                // and their presence is still reported as an error
                proof {
                    old(self).lemma_below_at_node();
                }
                let stranded = if self.children.len() > 0 {
                    proof {
                        assert(old(self).children@[0].wf());
                        assert(old(self).children@[0].has_entry());
                    }
                    Some(self.children[0].find_subpath_entry().1)
                } else {
                    None
                };
                self.children = Vec::new();
                self.entry = Some((ty, ud));
                proof {
                    assert forall|q: Seq<Seq<char>>|
                        #![trigger self.entry_at(q)]
                        self.entry_at(q) == if q == p {
                            Some((ty, ud))
                        } else if strict_prefix(p, q) {
                            None::<(VirtualFSEntryType, U)>
                        } else {
                            old(self).entry_at(q)
                        } by {
                        if q.len() == 0 {
                            assert(q =~= p);
                        } else {
                            assert(strict_prefix(p, q)) by {
                                assert(p =~= q.take(0));
                            }
                            assert(!self.has_child(q[0]));
                        }
                    }
                    assert(self.after_leaf_insert(*old(self), p, ty, ud));
                    assert(self.wf());
                    if old(self).children@.len() > 0 {
                        assert(old(self).has_entry_below(p)) by {
                            assert(old(self).children@[0].has_entry());
                        }
                    } else {
                        assert(!old(self).has_entry_below(p));
                    }
                }
                match stranded {
                    Some(bad) => Err(FSTreeError::IllegalChildren {
                        inner_path: ud,
                        invalid_child: bad,
                    }),
                    None => Ok(()),
                }
            }
        }
    }

    /// Inserts a whitelist entry for the absolute, normalized path whose
    /// components below `/` are `path`, with `user_data` identifying the
    /// declaration in error reports.
    ///
    /// The outcome is exactly `add_path_post`: redundant declarations are
    /// dropped, weaker comparable descendants are pruned, and declarations
    /// below or atop a leaf-exclusive entry are rejected without corrupting
    /// the tree.
    pub fn add_path(
        &mut self,
        path: &Vec<String>,
        ty: VirtualFSEntryType,
        user_data: U,
    ) -> (r: Result<(), FSTreeError<U>>)
        requires
            old(self).wf(),
            forall|i: int| 0 <= i < path@.len() ==> valid_component(#[trigger] path@[i]@),
        ensures
            final(self).wf(),
            final(self).component() == old(self).component(),
            Self::add_path_post(*old(self), *final(self), views(path@), ty, user_data, r),
    {
        proof {
            assert(views(path@).skip(0) =~= views(path@));
        }
        self.add_path_rec(path, 0, ty, user_data)
    }

    /// The listing's entry for this node itself: its own entry, if any, at
    /// the empty relative path.
    pub closed spec fn own_item(self) -> Seq<(Seq<Seq<char>>, VirtualFSEntryType)> {
        match self.entry {
            Some((t, _)) => seq![(Seq::<Seq<char>>::empty(), t)],
            None => Seq::empty(),
        }
    }

    /// The listing's entries of one child subtree, with the child's
    /// component prepended to each path.
    pub closed spec fn prefix_all(
        n: Seq<char>,
        items: Seq<(Seq<Seq<char>>, VirtualFSEntryType)>,
    ) -> Seq<(Seq<Seq<char>>, VirtualFSEntryType)> {
        items.map_values(
            |it: (Seq<Seq<char>>, VirtualFSEntryType)| (seq![n] + it.0, it.1),
        )
    }

    /// The listing's entries of the first `k` child subtrees, in order.
    pub closed spec fn flat_upto(self, k: int) -> Seq<(Seq<Seq<char>>, VirtualFSEntryType)>
        decreases self, k,
    {
        if k <= 0 || k > self.children@.len() {
            Seq::empty()
        } else {
            self.flat_upto(k - 1) + Self::prefix_all(
                self.children@[k - 1].component(),
                self.children@[k - 1].spec_flatten(),
            )
        }
    }

    /// The pre-order listing of this subtree's entries: the node's own
    /// entry first, then each child subtree's listing in child order, every
    /// path relative to this node.
    pub closed spec fn spec_flatten(self) -> Seq<(Seq<Seq<char>>, VirtualFSEntryType)>
        decreases self, self.child_count() + 1,
    {
        self.own_item() + self.flat_upto(self.children@.len() as int)
    }

    /// Restates one unfolding of `spec_flatten` and `flat_upto`.
    proof fn lemma_flat_unfold(self, k: int)
        ensures
            self.spec_flatten() == self.own_item() + self.flat_upto(self.children@.len() as int),
            0 < k <= self.children@.len() ==> self.flat_upto(k) == self.flat_upto(k - 1)
                + Self::prefix_all(
                self.children@[k - 1].component(),
                self.children@[k - 1].spec_flatten(),
            ),
            k <= 0 || k > self.children@.len() ==> self.flat_upto(k) == Seq::<(
                Seq<Seq<char>>,
                VirtualFSEntryType,
            )>::empty(),
    {
    }

    /// Index facts about `prefix_all`.
    proof fn lemma_prefix_all(n: Seq<char>, items: Seq<(Seq<Seq<char>>, VirtualFSEntryType)>)
        ensures
            Self::prefix_all(n, items).len() == items.len(),
            forall|j: int|
                0 <= j < items.len() ==> #[trigger] Self::prefix_all(n, items)[j] == (
                seq![n] + items[j].0,
                items[j].1,
            ),
    {
    }

    /// Prepending one component preserves path equality and ancestry.
    proof fn lemma_cons_prefix(n: Seq<char>, a: Seq<Seq<char>>, b: Seq<Seq<char>>)
        ensures
            (seq![n] + a == seq![n] + b) <==> a == b,
            strict_prefix(seq![n] + a, seq![n] + b) <==> strict_prefix(a, b),
    {
        let na = seq![n] + a;
        let nb = seq![n] + b;
        if na == nb {
            assert forall|i: int| 0 <= i < a.len() implies a[i] == b[i] by {
                assert(na[i + 1] == a[i]);
                assert(nb[i + 1] == b[i]);
            }
            assert(a =~= b);
        }
        if a == b {
            assert(na =~= nb);
        }
        if strict_prefix(na, nb) {
            assert forall|i: int| 0 <= i < a.len() implies a[i] == b.take(a.len() as int)[i] by {
                assert(na[i + 1] == nb.take(na.len() as int)[i + 1]);
                assert(nb.take(na.len() as int)[i + 1] == nb[i + 1]);
            }
            assert(a =~= b.take(a.len() as int));
        }
        if strict_prefix(a, b) {
            assert forall|i: int| 0 <= i < na.len() implies na[i] == nb.take(na.len() as int)[
                i
            ] by {
                assert(nb.take(na.len() as int)[i] == nb[i]);
                if i > 0 {
                    assert(a[i - 1] == b.take(a.len() as int)[i - 1]);
                    assert(b.take(a.len() as int)[i - 1] == b[i - 1]);
                }
            }
            assert(na =~= nb.take(na.len() as int));
        }
    }

    /// What the listing of the first `k` children contains: exactly the
    /// entries below those children, each path led by its child's
    /// component, pairwise distinct, and never a descendant before an
    /// ancestor.
    #[verifier::rlimit(60)]
    #[verifier::spinoff_prover]
    proof fn lemma_flat_upto_props(self, k: int)
        requires
            self.wf(),
            0 <= k <= self.children@.len(),
        ensures
            forall|j: int|
                0 <= j < self.flat_upto(k).len() ==> ((#[trigger] self.flat_upto(k)[
                    j
                ]).0.len() > 0 && (exists|i: int|
                    0 <= i < k && self.flat_upto(k)[j].0[0] == (#[trigger] self.children@[
                        i
                    ]).component()) && self.type_at(self.flat_upto(k)[j].0) == Some(
                    self.flat_upto(k)[j].1,
                )),
            forall|q: Seq<Seq<char>>|
                q.len() > 0 && (exists|i: int|
                    0 <= i < k && q[0] == (#[trigger] self.children@[i]).component()) && (
                #[trigger] self.type_at(q)) is Some ==> exists|j: int|
                    0 <= j < self.flat_upto(k).len() && (#[trigger] self.flat_upto(k)[j]).0 == q
                        && self.flat_upto(k)[j].1 == self.type_at(q)->0,
            forall|j1: int, j2: int|
                0 <= j1 < j2 < self.flat_upto(k).len() ==> (#[trigger] self.flat_upto(k)[
                    j1
                ]).0 != (#[trigger] self.flat_upto(k)[j2]).0 && !strict_prefix(
                    self.flat_upto(k)[j2].0,
                    self.flat_upto(k)[j1].0,
                ),
        decreases self, k,
    {
        self.lemma_wf_unfold();
        self.lemma_flat_unfold(k);
        if k <= 0 {
        } else {
            self.lemma_flat_upto_props(k - 1);
            let c = self.children@[k - 1];
            let nm = c.component();
            assert(decreases_to!(self => self.children));
            assert(decreases_to!(self.children => self.children[k - 1]));
            c.lemma_spec_flatten_props();
            let cf = c.spec_flatten();
            let blk = Self::prefix_all(nm, cf);
            let prev = self.flat_upto(k - 1);
            Self::lemma_prefix_all(nm, cf);
            assert(self.flat_upto(k) == prev + blk);
            // the child's entries are the node's entries one level down
            assert forall|q: Seq<Seq<char>>|
                q.len() > 0 && q[0] == nm implies #[trigger] self.entry_at(q) == c.entry_at(
                q.skip(1),
            ) by {
                self.lemma_entry_at_via_child(k - 1, q);
            }
            // soundness of the appended block
            assert forall|j: int|
                0 <= j < self.flat_upto(k).len() implies ((#[trigger] self.flat_upto(k)[
                j
            ]).0.len() > 0 && (exists|i: int|
                0 <= i < k && self.flat_upto(k)[j].0[0] == (#[trigger] self.children@[
                    i
                ]).component()) && self.type_at(self.flat_upto(k)[j].0) == Some(
                self.flat_upto(k)[j].1,
            )) by {
                if j < prev.len() {
                    assert(self.flat_upto(k)[j] == prev[j]);
                    let i0 = choose|i: int|
                        0 <= i < k - 1 && prev[j].0[0] == (#[trigger] self.children@[
                            i
                        ]).component();
                    assert(0 <= i0 < k && self.flat_upto(k)[j].0[0] == self.children@[
                        i0
                    ].component());
                } else {
                    let jj = j - prev.len();
                    assert(self.flat_upto(k)[j] == blk[jj]);
                    assert(blk[jj] == (seq![nm] + cf[jj].0, cf[jj].1));
                    let v = seq![nm] + cf[jj].0;
                    assert(v[0] == nm);
                    assert(v.skip(1) =~= cf[jj].0);
                    assert(self.type_at(v) == c.type_at(cf[jj].0));
                    assert(c.type_at(cf[jj].0) == Some(cf[jj].1));
                    assert(0 <= k - 1 < k && v[0] == self.children@[k - 1].component());
                }
            }
            // completeness
            assert forall|q: Seq<Seq<char>>|
                q.len() > 0 && (exists|i: int|
                    0 <= i < k && q[0] == (#[trigger] self.children@[i]).component()) && (
                #[trigger] self.type_at(q)) is Some implies exists|j: int|
                    0 <= j < self.flat_upto(k).len() && (#[trigger] self.flat_upto(k)[j]).0 == q
                        && self.flat_upto(k)[j].1 == self.type_at(q)->0 by {
                let i0 = choose|i: int|
                    0 <= i < k && q[0] == (#[trigger] self.children@[i]).component();
                if i0 < k - 1 {
                    let j0 = choose|j: int|
                        0 <= j < prev.len() && (#[trigger] prev[j]).0 == q && prev[j].1
                            == self.type_at(q)->0;
                    assert(self.flat_upto(k)[j0] == prev[j0]);
                    assert(0 <= j0 < self.flat_upto(k).len() && self.flat_upto(k)[j0].0 == q
                        && self.flat_upto(k)[j0].1 == self.type_at(q)->0);
                } else {
                    assert(q[0] == nm);
                    assert(self.type_at(q) == c.type_at(q.skip(1)));
                    assert(c.type_at(q.skip(1)) is Some);
                    let j0 = choose|j: int|
                        0 <= j < cf.len() && (#[trigger] cf[j]).0 == q.skip(1) && cf[j].1
                            == c.type_at(q.skip(1))->0;
                    let j = prev.len() + j0;
                    assert(self.flat_upto(k)[j] == blk[j0]);
                    assert(blk[j0] == (seq![nm] + cf[j0].0, cf[j0].1));
                    assert(seq![nm] + q.skip(1) =~= q);
                    assert(0 <= j < self.flat_upto(k).len() && self.flat_upto(k)[j].0 == q
                        && self.flat_upto(k)[j].1 == self.type_at(q)->0);
                }
            }
            // distinctness and order
            assert forall|j1: int, j2: int|
                0 <= j1 < j2 < self.flat_upto(k).len() implies (#[trigger] self.flat_upto(k)[
                j1
            ]).0 != (#[trigger] self.flat_upto(k)[j2]).0 && !strict_prefix(
                self.flat_upto(k)[j2].0,
                self.flat_upto(k)[j1].0,
            ) by {
                if j2 < prev.len() {
                    assert(self.flat_upto(k)[j1] == prev[j1]);
                    assert(self.flat_upto(k)[j2] == prev[j2]);
                } else if j1 >= prev.len() {
                    let a = cf[j1 - prev.len()].0;
                    let b = cf[j2 - prev.len()].0;
                    assert(self.flat_upto(k)[j1] == blk[j1 - prev.len()]);
                    assert(self.flat_upto(k)[j2] == blk[j2 - prev.len()]);
                    Self::lemma_cons_prefix(nm, a, b);
                    Self::lemma_cons_prefix(nm, b, a);
                } else {
                    // an earlier child's entry against this child's entry:
                    // their leading components differ
                    assert(self.flat_upto(k)[j1] == prev[j1]);
                    assert(self.flat_upto(k)[j2] == blk[j2 - prev.len()]);
                    let v1 = prev[j1].0;
                    let v2 = seq![nm] + cf[j2 - prev.len()].0;
                    let i0 = choose|i: int|
                        0 <= i < k - 1 && prev[j1].0[0] == (#[trigger] self.children@[
                            i
                        ]).component();
                    assert(self.children@[i0].component() != nm);
                    assert(v1[0] != nm);
                    assert(v2[0] == nm);
                    if v1 == v2 {
                        assert(v1[0] == v2[0]);
                    }
                    if strict_prefix(v2, v1) {
                        assert(v1.take(v2.len() as int)[0] == v1[0]);
                        assert(v1[0] == v2[0]);
                    }
                }
            }
        }
    }

    /// The pre-order listing holds exactly the subtree's entries, once
    /// each, and never lists a descendant before its ancestor.
    #[verifier::rlimit(60)]
    #[verifier::spinoff_prover]
    pub proof fn lemma_spec_flatten_props(self)
        requires
            self.wf(),
        ensures
            forall|j: int|
                0 <= j < self.spec_flatten().len() ==> self.type_at(
                    (#[trigger] self.spec_flatten()[j]).0,
                ) == Some(self.spec_flatten()[j].1),
            forall|q: Seq<Seq<char>>|
                (#[trigger] self.type_at(q)) is Some ==> exists|j: int|
                    0 <= j < self.spec_flatten().len() && (#[trigger] self.spec_flatten()[j]).0
                        == q && self.spec_flatten()[j].1 == self.type_at(q)->0,
            forall|j1: int, j2: int|
                0 <= j1 < j2 < self.spec_flatten().len() ==> (#[trigger] self.spec_flatten()[
                    j1
                ]).0 != (#[trigger] self.spec_flatten()[j2]).0 && !strict_prefix(
                    self.spec_flatten()[j2].0,
                    self.spec_flatten()[j1].0,
                ),
        decreases self, self.child_count() + 1,
    {
        self.lemma_wf_unfold();
        self.lemma_flat_unfold(0);
        let n = self.children@.len() as int;
        self.lemma_flat_upto_props(n);
        let own = self.own_item();
        let upto = self.flat_upto(n);
        let all = self.spec_flatten();
        assert(all == own + upto);
        assert(self.entry_at(Seq::<Seq<char>>::empty()) == self.entry);
        // soundness
        assert forall|j: int|
            0 <= j < all.len() implies self.type_at((#[trigger] all[j]).0) == Some(
            all[j].1,
        ) by {
            if j < own.len() {
                assert(all[j] == own[j]);
            } else {
                assert(all[j] == upto[j - own.len()]);
            }
        }
        // completeness
        assert forall|q: Seq<Seq<char>>|
            (#[trigger] self.type_at(q)) is Some implies exists|j: int|
                0 <= j < all.len() && (#[trigger] all[j]).0 == q && all[j].1 == self.type_at(
                    q,
                )->0 by {
            if q.len() == 0 {
                assert(q =~= Seq::<Seq<char>>::empty());
                assert(all[0] == own[0]);
                assert(0 <= 0 < all.len() && all[0].0 == q && all[0].1 == self.type_at(q)->0);
            } else {
                assert(self.has_child(q[0]));
                let i = self.child_idx(q[0]);
                assert(0 <= i < n && q[0] == self.children@[i].component());
                let j0 = choose|j: int|
                    0 <= j < upto.len() && (#[trigger] upto[j]).0 == q && upto[j].1
                        == self.type_at(q)->0;
                let j = own.len() + j0;
                assert(all[j] == upto[j0]);
                assert(0 <= j < all.len() && all[j].0 == q && all[j].1 == self.type_at(q)->0);
            }
        }
        // distinctness and order: the node's own entry has the empty path,
        // shorter than any path below, so nothing below can be its ancestor
        assert forall|j1: int, j2: int|
            0 <= j1 < j2 < all.len() implies (#[trigger] all[j1]).0 != (#[trigger] all[
            j2
        ]).0 && !strict_prefix(all[j2].0, all[j1].0) by {
            if j1 >= own.len() {
                assert(all[j1] == upto[j1 - own.len()]);
                assert(all[j2] == upto[j2 - own.len()]);
            } else {
                assert(all[j1] == own[0]);
                assert(all[j2] == upto[j2 - own.len()]);
                assert(all[j1].0.len() == 0);
                assert(all[j2].0.len() > 0);
            }
        }
    }

    /// Lists every entry of the tree with its absolute path components:
    /// exactly `spec_flatten`, the pre-order listing, so every entry
    /// appears once, ancestors before descendants.
    pub fn flatten(&self) -> (r: Vec<(Vec<String>, VirtualFSEntryType)>)
        requires
            self.wf(),
        ensures
            // the result is the pre-order listing itself
            r@.len() == self.spec_flatten().len(),
            forall|j: int|
                0 <= j < r@.len() ==> views((#[trigger] r@[j]).0@) == self.spec_flatten()[j].0
                    && r@[j].1 == self.spec_flatten()[j].1,
            // every listed pair is an entry of the tree
            forall|j: int|
                0 <= j < r@.len() ==> self.type_at(views((#[trigger] r@[j]).0@)) == Some(r@[j].1),
            // every entry of the tree is listed
            forall|q: Seq<Seq<char>>|
                (#[trigger] self.type_at(q)) is Some ==> exists|j: int|
                    0 <= j < r@.len() && views(r@[j].0@) == q && r@[j].1 == self.type_at(q)->0,
            // no path is listed twice
            forall|j1: int, j2: int|
                0 <= j1 < j2 < r@.len() ==> views(r@[j1].0@) != views(r@[j2].0@),
            // an ancestor is never listed after a descendant
            forall|j1: int, j2: int|
                0 <= j1 < r@.len() && 0 <= j2 < r@.len() && strict_prefix(
                    views(r@[j1].0@),
                    views(r@[j2].0@),
                ) ==> j1 < j2,
    {
        let mut prefix: Vec<String> = Vec::new();
        let mut out: Vec<(Vec<String>, VirtualFSEntryType)> = Vec::new();
        self.flatten_rec(&mut prefix, &mut out);
        proof {
            let all = self.spec_flatten();
            assert(views(prefix@) =~= Seq::<Seq<char>>::empty());
            assert forall|j: int|
                0 <= j < out@.len() implies views((#[trigger] out@[j]).0@) == all[j].0 && out@[
                j
            ].1 == all[j].1 by {
                assert(views((out@[0 + j]).0@) == views(prefix@) + all[j].0 && out@[0 + j].1
                    == all[j].1);
                assert(views(prefix@) + all[j].0 =~= all[j].0);
            }
            self.lemma_spec_flatten_props();
            assert forall|j: int|
                0 <= j < out@.len() implies self.type_at(views((#[trigger] out@[j]).0@)) == Some(
                out@[j].1,
            ) by {
                assert(views(out@[j].0@) == all[j].0);
            }
            assert forall|q: Seq<Seq<char>>|
                (#[trigger] self.type_at(q)) is Some implies exists|j: int|
                    0 <= j < out@.len() && views(out@[j].0@) == q && out@[j].1 == self.type_at(
                        q,
                    )->0 by {
                let j = choose|j: int|
                    0 <= j < all.len() && (#[trigger] all[j]).0 == q && all[j].1 == self.type_at(
                        q,
                    )->0;
                assert(views(out@[j].0@) == q && out@[j].1 == self.type_at(q)->0);
            }
            assert forall|j1: int, j2: int|
                0 <= j1 < out@.len() && 0 <= j2 < out@.len() && strict_prefix(
                    views(out@[j1].0@),
                    views(out@[j2].0@),
                ) implies j1 < j2 by {
                if j2 < j1 {
                    assert(!strict_prefix(all[j1].0, all[j2].0));
                    assert(false);
                } else if j1 == j2 {
                    assert(strict_prefix(all[j1].0, all[j1].0));
                    assert(false);
                }
            }
        }
        out
    }

    /// Pre-order traversal below this node: appends to `out` exactly this
    /// subtree's listing, each path prefixed by `prefix`.
    #[verifier::loop_isolation(false)]
    #[verifier::rlimit(60)]
    #[verifier::spinoff_prover]
    fn flatten_rec(
        &self,
        prefix: &mut Vec<String>,
        out: &mut Vec<(Vec<String>, VirtualFSEntryType)>,
    )
        requires
            self.wf(),
        ensures
            final(prefix)@ == old(prefix)@,
            final(out)@.len() == old(out)@.len() + self.spec_flatten().len(),
            final(out)@.subrange(0, old(out)@.len() as int) == old(out)@,
            forall|j: int|
                0 <= j < self.spec_flatten().len() ==> views(
                    (#[trigger] final(out)@[old(out)@.len() + j]).0@,
                ) == views(old(prefix)@) + self.spec_flatten()[j].0 && final(out)@[old(
                    out,
                )@.len() + j].1 == self.spec_flatten()[j].1,
        decreases self,
    {
        proof {
            self.lemma_wf_unfold();
            self.lemma_flat_unfold(0);
        }
        let ghost base = views(old(prefix)@);
        let ghost out0 = old(out)@;
        if let Some(e) = &self.entry {
            let pv = copy_path(prefix);
            out.push((pv, e.0));
            proof {
                assert(views(out@[out0.len() as int].0@) =~= base);
                assert(base + Seq::<Seq<char>>::empty() =~= base);
            }
        }
        let n = self.children.len();
        let mut idx: usize = 0;
        while idx < n
            invariant
                idx <= n,
                prefix@ == old(prefix)@,
                out@.len() == out0.len() + self.own_item().len() + self.flat_upto(
                    idx as int,
                ).len(),
                out@.subrange(0, out0.len() as int) == out0,
                forall|j: int|
                    0 <= j < self.own_item().len() + self.flat_upto(idx as int).len()
                        ==> views((#[trigger] out@[out0.len() + j]).0@) == base + (self.own_item()
                        + self.flat_upto(idx as int))[j].0 && out@[out0.len() + j].1 == (
                    self.own_item() + self.flat_upto(idx as int))[j].1,
            decreases n - idx,
        {
            let c = &self.children[idx];
            let ghost pre_out = out@;
            prefix.push(c.path_component.clone());
            proof {
                assert(views(prefix@) =~= base + seq![self.children@[idx as int].component()]);
                assert(decreases_to!(*self => self.children));
                assert(decreases_to!(self.children => self.children[idx as int]));
            }
            c.flatten_rec(prefix, out);
            prefix.pop();
            proof {
                Self::lemma_flatten_step(*self, idx as int, base, out0.len() as int, pre_out, out@);
                assert(prefix@ == old(prefix)@);
            }
            idx = idx + 1;
        }
        proof {
            self.lemma_flat_unfold(0);
            let all = self.spec_flatten();
            assert(all == self.own_item() + self.flat_upto(n as int));
            assert forall|j: int|
                0 <= j < all.len() implies views((#[trigger] out@[out0.len() + j]).0@) == base
                    + all[j].0 && out@[out0.len() + j].1 == all[j].1 by {
                assert((self.own_item() + self.flat_upto(n as int))[j] == all[j]);
            }
        }
    }

    /// One step of the traversal: the items appended for the child just
    /// processed extend the listing of the children before it.
    #[verifier::rlimit(60)]
    #[verifier::spinoff_prover]
    proof fn lemma_flatten_step(
        tree: Self,
        idx: int,
        base: Seq<Seq<char>>,
        out0_len: int,
        pre: Seq<(Vec<String>, VirtualFSEntryType)>,
        cur: Seq<(Vec<String>, VirtualFSEntryType)>,
    )
        requires
            0 <= idx < tree.children@.len(),
            0 <= out0_len,
            pre.len() == out0_len + tree.own_item().len() + tree.flat_upto(idx).len(),
            cur.subrange(0, pre.len() as int) == pre,
            cur.len() == pre.len() + tree.children@[idx].spec_flatten().len(),
            forall|j: int|
                0 <= j < tree.own_item().len() + tree.flat_upto(idx).len() ==> views(
                    (#[trigger] pre[out0_len + j]).0@,
                ) == base + (tree.own_item() + tree.flat_upto(idx))[j].0 && pre[out0_len + j].1
                    == (tree.own_item() + tree.flat_upto(idx))[j].1,
            forall|j: int|
                0 <= j < tree.children@[idx].spec_flatten().len() ==> views(
                    (#[trigger] cur[pre.len() + j]).0@,
                ) == (base + seq![tree.children@[idx].component()]) + tree.children@[
                    idx
                ].spec_flatten()[j].0 && cur[pre.len() + j].1 == tree.children@[
                    idx
                ].spec_flatten()[j].1,
        ensures
            cur.len() == out0_len + tree.own_item().len() + tree.flat_upto(idx + 1).len(),
            forall|j: int|
                0 <= j < tree.own_item().len() + tree.flat_upto(idx + 1).len() ==> views(
                    (#[trigger] cur[out0_len + j]).0@,
                ) == base + (tree.own_item() + tree.flat_upto(idx + 1))[j].0 && cur[out0_len
                    + j].1 == (tree.own_item() + tree.flat_upto(idx + 1))[j].1,
    {
        tree.lemma_flat_unfold(idx + 1);
        let c = tree.children@[idx];
        let nm = c.component();
        let cf = c.spec_flatten();
        let blk = Self::prefix_all(nm, cf);
        Self::lemma_prefix_all(nm, cf);
        let a_old = tree.own_item() + tree.flat_upto(idx);
        let a_new = tree.own_item() + tree.flat_upto(idx + 1);
        assert(tree.flat_upto(idx + 1) == tree.flat_upto(idx) + blk);
        assert(a_new =~= a_old + blk);
        assert forall|j: int|
            0 <= j < a_new.len() implies views((#[trigger] cur[out0_len + j]).0@) == base
                + a_new[j].0 && cur[out0_len + j].1 == a_new[j].1 by {
            if j < a_old.len() {
                assert(cur[out0_len + j] == cur.subrange(0, pre.len() as int)[out0_len + j]);
                assert(cur[out0_len + j] == pre[out0_len + j]);
                assert(a_new[j] == a_old[j]);
            } else {
                let jj = j - a_old.len();
                assert(out0_len + j == pre.len() + jj);
                assert(a_new[j] == blk[jj]);
                assert(blk[jj] == (seq![nm] + cf[jj].0, cf[jj].1));
                assert((base + seq![nm]) + cf[jj].0 =~= base + (seq![nm] + cf[jj].0));
            }
        }
    }


    /// An empty tree: a root node for `/` with no entry and no children.
    pub fn new() -> (r: Self)
        ensures
            r.wf(),
            r.component() == "/"@,
            forall|q: Seq<Seq<char>>| r.entry_at(q) is None,
    {
        let r = VirtualFSTree {
            path_component: String::from_str("/"),
            children: Vec::new(),
            entry: None,
        };
        proof {
            assert forall|q: Seq<Seq<char>>| r.entry_at(q) is None by {
                if q.len() == 0 {
                } else {
                    assert(!r.has_child(q[0]));
                }
            }
        }
        r
    }
}

} // verus!
