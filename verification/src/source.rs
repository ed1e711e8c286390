//! The in-memory image of a repository's forward object graph, as the
//! builder consumes it: the commit list (each with its root tree) and
//! a tree store mapping tree digests to their entries.

use crate::digest::Digest;
use vstd::prelude::*;

verus! {

broadcast use crate::digest::lemma_digest_len;

/// The kind of an object a tree entry points at.
#[derive(Clone, Copy, Debug)]
pub enum Kind {
    Commit,
    Tree,
    Blob,
    Other,
}

/// One entry of a tree: the child digest, tagged with its kind.
#[derive(Clone, Copy, Debug)]
pub struct TreeEntry {
    pub digest: Digest,
    pub kind: Kind,
}

/// One commit to index: its digest and the digest of its root tree.
#[derive(Clone, Copy, Debug)]
pub struct CommitInfo {
    pub commit: Digest,
    pub root_tree: Digest,
}

/// Random-access store of trees: tree digest to entry list, with
/// unique keys.
pub struct TreeStore {
    keys: Vec<Digest>,
    entries: Vec<Vec<TreeEntry>>,
}

impl TreeStore {
    /// Number of trees stored.
    pub closed spec fn tree_count(self) -> nat {
        self.keys@.len()
    }

    /// The digest of tree `t`.
    pub closed spec fn key_at(self, t: int) -> Seq<u8> {
        self.keys@[t]@
    }

    /// The entries of tree `t`.
    pub closed spec fn entries_at(self, t: int) -> Seq<TreeEntry> {
        self.entries@[t]@
    }

    /// Whether digest `d` names a stored tree.
    pub open spec fn has_tree(self, d: Seq<u8>) -> bool {
        exists|t: int| 0 <= t < self.tree_count() && self.key_at(t) == d
    }

    /// As many keys as entry lists, and keys are unique.
    pub closed spec fn wf(self) -> bool {
        &&& self.keys@.len() == self.entries@.len()
        &&& forall|t1: int, t2: int|
            0 <= t1 < t2 < self.keys@.len() ==> self.keys@[t1]@ != self.keys@[t2]@
    }

    /// Stored trees carry pairwise distinct digests.
    pub proof fn lemma_keys_distinct(self)
        requires
            self.wf(),
        ensures
            forall|t1: int, t2: int|
                0 <= t1 < self.tree_count() && 0 <= t2 < self.tree_count() && t1 != t2 ==> (
                #[trigger] self.key_at(t1)) != (#[trigger] self.key_at(t2)),
    {
    }

    /// An empty store.
    pub fn new() -> (s: TreeStore)
        ensures
            s.wf(),
            s.tree_count() == 0,
    {
        TreeStore { keys: Vec::new(), entries: Vec::new() }
    }

    /// Adds a tree that is not yet stored.
    pub fn add_tree(&mut self, d: Digest, entries: Vec<TreeEntry>)
        requires
            old(self).wf(),
            !old(self).has_tree(d@),
        ensures
            final(self).wf(),
            final(self).tree_count() == old(self).tree_count() + 1,
            final(self).key_at(old(self).tree_count() as int) == d@,
            final(self).entries_at(old(self).tree_count() as int) == entries@,
            forall|t: int|
                0 <= t < old(self).tree_count() ==> final(self).key_at(t) == old(self).key_at(t)
                    && final(self).entries_at(t) == old(self).entries_at(t),
    {
        self.keys.push(d);
        self.entries.push(entries);
        proof {
            assert forall|t1: int, t2: int|
                0 <= t1 < t2 < self.keys@.len() implies self.keys@[t1]@ != self.keys@[t2]@ by {
                if t2 == self.keys@.len() - 1 {
                    assert(!(0 <= t1 < old(self).tree_count() && old(self).key_at(t1) == d@));
                    assert(self.keys@[t1]@ == old(self).key_at(t1));
                } else {
                    assert(old(self).keys@[t1]@ != old(self).keys@[t2]@);
                }
            }
        }
    }

    /// Whether digest `d` names a stored tree.
    pub fn contains_tree(&self, d: &Digest) -> (r: bool)
        requires
            self.wf(),
        ensures
            r == self.has_tree(d@),
    {
        self.find_tree(d).is_some()
    }

    /// Finds the index of the tree with digest `d`, if stored.
    pub fn find_tree(&self, d: &Digest) -> (r: Option<usize>)
        requires
            self.wf(),
        ensures
            r is Some ==> (r.unwrap() as int) < self.tree_count() && self.key_at(
                r.unwrap() as int,
            ) == d@,
            r is None ==> !self.has_tree(d@),
    {
        let n = self.keys.len();
        let mut t: usize = 0;
        while t < n
            invariant
                0 <= t <= n,
                n == self.tree_count(),
                self.wf(),
                forall|t2: int| 0 <= t2 < t ==> self.key_at(t2) != d@,
            decreases n - t,
        {
            if self.keys[t].eq_digest(d) {
                return Some(t);
            }
            t = t + 1;
        }
        None
    }

    /// Number of entries of tree `t`.
    pub fn entry_count(&self, t: usize) -> (n: usize)
        requires
            self.wf(),
            t < self.tree_count(),
        ensures
            n == self.entries_at(t as int).len(),
    {
        self.entries[t].len()
    }

    /// The `k`-th entry of tree `t`.
    pub fn entry_at(&self, t: usize, k: usize) -> (e: TreeEntry)
        requires
            self.wf(),
            t < self.tree_count(),
            k < self.entries_at(t as int).len(),
        ensures
            e == self.entries_at(t as int)[k as int],
    {
        self.entries[t][k]
    }
}

/// Tree `es` holds an entry for digest `d` of a kind the index follows
/// (a child tree or a blob; commits and other kinds are not entries
/// the reverse graph records).
pub open spec fn entry_ref(es: Seq<TreeEntry>, d: Seq<u8>) -> bool {
    exists|k: int|
        0 <= k < es.len() && (#[trigger] es[k]).digest@ == d && (es[k].kind is Tree
            || es[k].kind is Blob)
}

/// Digest `d` is one of the commits.
pub open spec fn is_commit(cs: Seq<CommitInfo>, d: Seq<u8>) -> bool {
    exists|c: int| 0 <= c < cs.len() && (#[trigger] cs[c]).commit@ == d
}

/// Digest `d` is one of the first `p` commits.
pub open spec fn is_commit_upto(cs: Seq<CommitInfo>, p: int, d: Seq<u8>) -> bool {
    exists|c: int| 0 <= c < p && c < cs.len() && (#[trigger] cs[c]).commit@ == d
}

/// One step of the forward object graph: a commit points at its root
/// tree, a stored tree points at each of its followed entries.
pub open spec fn fwd_step(cs: Seq<CommitInfo>, st: TreeStore, x: Seq<u8>, y: Seq<u8>) -> bool {
    (exists|c: int| 0 <= c < cs.len() && (#[trigger] cs[c]).commit@ == x && cs[c].root_tree@ == y)
        || (exists|t: int|
        0 <= t < st.tree_count() && #[trigger] st.key_at(t) == x && entry_ref(st.entries_at(t), y))
}

/// A walk along forward steps.
pub open spec fn fwd_path(cs: Seq<CommitInfo>, st: TreeStore, p: Seq<Seq<u8>>) -> bool {
    &&& p.len() >= 1
    &&& forall|k: int| 0 <= k < p.len() - 1 ==> fwd_step(cs, st, #[trigger] p[k], p[k + 1])
}

/// Digest `y` is reachable from `x` in one or more forward steps:
/// the object named `y` is owned, directly or through trees, by `x`.
pub open spec fn fwd_plus(cs: Seq<CommitInfo>, st: TreeStore, x: Seq<u8>, y: Seq<u8>) -> bool {
    exists|p: Seq<Seq<u8>>|
        fwd_path(cs, st, p) && p.len() >= 2 && p.first() == x && p.last() == y
}

/// Digest `d` is referenced as a tree: it is some commit's root tree
/// or a tree-kind entry of a stored tree.
pub open spec fn tree_referenced(cs: Seq<CommitInfo>, st: TreeStore, d: Seq<u8>) -> bool {
    (exists|c: int| 0 <= c < cs.len() && (#[trigger] cs[c].root_tree)@ == d) || (exists|t: int, k: int|
        0 <= t < st.tree_count() && 0 <= k < st.entries_at(t).len() && (#[trigger] st.entries_at(
            t,
        )[k]).digest@ == d && st.entries_at(t)[k].kind is Tree)
}

/// A consistent object source, as content addressing guarantees:
/// commit digests are unique and commits appear only as roots (never
/// as trees, root trees, or tree entries), and a digest marked as a
/// blob is not also a tree.
pub open spec fn source_ok(cs: Seq<CommitInfo>, st: TreeStore) -> bool {
    &&& forall|c1: int, c2: int| 0 <= c1 < c2 < cs.len() ==> cs[c1].commit@ != cs[c2].commit@
    &&& forall|c: int, t: int|
        0 <= c < cs.len() && 0 <= t < st.tree_count() ==> (#[trigger] cs[c].commit)@ != (
        #[trigger] st.key_at(t))
    &&& forall|c1: int, c2: int|
        0 <= c1 < cs.len() && 0 <= c2 < cs.len() ==> (#[trigger] cs[c1].commit)@ != (
        #[trigger] cs[c2].root_tree)@
    &&& forall|c: int, t: int, k: int|
        0 <= c < cs.len() && 0 <= t < st.tree_count() && 0 <= k < st.entries_at(t).len() ==> (
        #[trigger] cs[c].commit)@ != (#[trigger] st.entries_at(t)[k]).digest@
    &&& forall|t: int, k: int|
        0 <= t < st.tree_count() && 0 <= k < st.entries_at(t).len() && (#[trigger] st.entries_at(
            t,
        )[k]).kind is Blob ==> !st.has_tree(st.entries_at(t)[k].digest@)
    &&& forall|t: int, k: int|
        0 <= t < st.tree_count() && 0 <= k < st.entries_at(t).len() && (#[trigger] st.entries_at(
            t,
        )[k]).kind is Blob ==> !tree_referenced(cs, st, st.entries_at(t)[k].digest@)
}

} // verus!
