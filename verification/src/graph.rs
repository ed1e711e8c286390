//! The compact reverse graph: a dense array of vertex digests, a
//! parallel array of reverse-parent id lists, and a digest-to-id map.

use crate::digest::Digest;
use crate::dmap::DigestMap;
use vstd::pervasive::VecAdditionalExecFns;
use vstd::prelude::*;

verus! {

broadcast use crate::digest::lemma_digest_len;

/// Caller-owned reusable scratch buffers for traversals.  A stack
/// carries no state between queries; every lookup clears it first.
pub struct Stack {
    indices: Vec<usize>,
    visited: Vec<bool>,
    ids: Vec<usize>,
}

impl Stack {
    /// All scratch buffers are empty.
    pub closed spec fn is_clear(self) -> bool {
        self.indices@.len() == 0 && self.visited@.len() == 0 && self.ids@.len() == 0
    }
}

impl Default for Stack {
    /// Fresh empty scratch buffers.
    fn default() -> (s: Stack)
        ensures
            s.is_clear(),
    {
        Stack { indices: Vec::new(), visited: Vec::new(), ids: Vec::new() }
    }
}

/// The reverse object graph: vertex `i` has digest `V[i]` and reverse
/// parents `E[i]`; the map sends each digest back to its vertex id.
pub struct ReverseGraph {
    verts: Vec<Digest>,
    edges: Vec<Vec<usize>>,
    index: DigestMap,
}

impl ReverseGraph {
    /// Number of vertices.
    pub closed spec fn vert_count(self) -> nat {
        self.verts@.len()
    }

    /// The digest of vertex `i`.
    pub closed spec fn digest_at(self, i: int) -> Seq<u8> {
        self.verts@[i]@
    }

    /// The reverse-parent id list of vertex `i`.
    pub closed spec fn edges_at(self, i: int) -> Seq<usize> {
        self.edges@[i]@
    }

    /// Whether some vertex has digest `d`.
    pub closed spec fn contains_digest(self, d: Seq<u8>) -> bool {
        self.index.contains_key(d)
    }

    /// The vertex id of digest `d` (meaningful when contained).
    pub closed spec fn id_of(self, d: Seq<u8>) -> usize {
        self.index.at(d)
    }

    /// Well-formed: `|V| = |E|`, the map is exactly `V[i] -> i`, and
    /// every id in every parent list is a valid vertex id.
    pub closed spec fn wf(self) -> bool {
        &&& self.index.wf()
        &&& self.verts@.len() == self.edges@.len()
        &&& forall|i: int|
            0 <= i < self.verts@.len() ==> self.index.contains_key(#[trigger] self.verts@[i]@)
                && self.index.at(self.verts@[i]@) == i
        &&& forall|d: Seq<u8>| #[trigger]
            self.index.contains_key(d) ==> self.index.at(d) < self.verts@.len()
                && self.verts@[self.index.at(d) as int]@ == d
        &&& forall|i: int, k: int|
            0 <= i < self.edges@.len() && 0 <= k < self.edges@[i]@.len() ==> (#[trigger] self.edges@[i]@[k]) < self.verts@.len()
    }

    /// Distinct vertices carry distinct digests.
    pub proof fn lemma_digests_distinct(self, i: int, j: int)
        requires
            self.wf(),
            0 <= i < self.vert_count(),
            0 <= j < self.vert_count(),
            i != j,
        ensures
            self.digest_at(i) != self.digest_at(j),
    {
    }

    /// A contained digest resolves to the vertex that carries it.
    pub proof fn lemma_id_of(self, d: Seq<u8>)
        requires
            self.wf(),
            self.contains_digest(d),
        ensures
            self.id_of(d) < self.vert_count(),
            self.digest_at(self.id_of(d) as int) == d,
    {
    }

    /// The digest of a vertex resolves back to its id.
    pub proof fn lemma_id_of_vertex(self, i: int)
        requires
            self.wf(),
            0 <= i < self.vert_count(),
        ensures
            self.contains_digest(self.digest_at(i)),
            self.id_of(self.digest_at(i)) == i,
    {
    }

    /// An empty graph.
    pub fn new() -> (g: ReverseGraph)
        ensures
            g.wf(),
            g.vert_count() == 0,
            forall|d: Seq<u8>| !g.contains_digest(d),
    {
        ReverseGraph { verts: Vec::new(), edges: Vec::new(), index: DigestMap::new() }
    }

    /// Number of vertices.
    pub fn len(&self) -> (n: usize)
        ensures
            n == self.vert_count(),
    {
        self.verts.len()
    }

    /// Looks up the vertex id of a digest, if the digest is mapped.
    pub fn find_id(&self, d: &Digest) -> (r: Option<usize>)
        requires
            self.wf(),
        ensures
            r is Some <==> self.contains_digest(d@),
            r is Some ==> r.unwrap() == self.id_of(d@),
    {
        self.index.get(d)
    }

    /// The digest of vertex `i`.
    pub fn digest_of(&self, i: usize) -> (d: Digest)
        requires
            self.wf(),
            i < self.vert_count(),
        ensures
            d@ == self.digest_at(i as int),
    {
        self.verts[i]
    }

    /// Length of the parent list of vertex `i`.
    pub fn parent_count(&self, i: usize) -> (n: usize)
        requires
            self.wf(),
            i < self.vert_count(),
        ensures
            n == self.edges_at(i as int).len(),
    {
        self.edges[i].len()
    }

    /// The `k`-th parent id of vertex `i`.
    pub fn parent_at(&self, i: usize, k: usize) -> (p: usize)
        requires
            self.wf(),
            i < self.vert_count(),
            k < self.edges_at(i as int).len(),
        ensures
            p == self.edges_at(i as int)[k as int],
            p < self.vert_count(),
    {
        self.edges[i][k]
    }

    /// Appends a new vertex (a commit root) with an empty parent list.
    /// The digest must not be mapped yet.
    pub fn append(&mut self, d: Digest) -> (idx: usize)
        requires
            old(self).wf(),
            !old(self).contains_digest(d@),
        ensures
            final(self).wf(),
            idx == old(self).vert_count(),
            final(self).vert_count() == old(self).vert_count() + 1,
            final(self).digest_at(idx as int) == d@,
            final(self).edges_at(idx as int) =~= Seq::<usize>::empty(),
            forall|i: int|
                0 <= i < old(self).vert_count() ==> final(self).digest_at(i) == old(self).digest_at(i) && final(self).edges_at(i) == old(self).edges_at(i),
            final(self).contains_digest(d@),
            final(self).id_of(d@) == idx,
            forall|x: Seq<u8>|
                x != d@ ==> (final(self).contains_digest(x) <==> old(self).contains_digest(x)),
            forall|x: Seq<u8>|
                x != d@ && old(self).contains_digest(x) ==> final(self).id_of(x) == old(self).id_of(x),
    {
        let idx = self.verts.len();
        self.verts.push(d);
        self.index.insert(d, idx);
        self.edges.push(Vec::new());
        idx
    }

    /// Inserts a reverse edge from `child` to `parent`.  If the child
    /// digest is already mapped, its parent list grows by `parent` and
    /// the result is `None`; otherwise a new vertex is appended whose
    /// parent list is exactly `[parent]` and its new id is returned.
    pub fn insert_parent_get_new_child_id(&mut self, parent: usize, child: Digest) -> (r: Option<
        usize,
    >)
        requires
            old(self).wf(),
            parent < old(self).vert_count(),
        ensures
            final(self).wf(),
            forall|x: Seq<u8>|
                x != child@ ==> (final(self).contains_digest(x) <==> old(self).contains_digest(x)),
            forall|x: Seq<u8>|
                x != child@ && old(self).contains_digest(x) ==> final(self).id_of(x) == old(self).id_of(x),
            final(self).contains_digest(child@),
            match r {
                None => {
                    &&& old(self).contains_digest(child@)
                    &&& final(self).vert_count() == old(self).vert_count()
                    &&& final(self).id_of(child@) == old(self).id_of(child@)
                    &&& forall|i: int|
                        0 <= i < old(self).vert_count() ==> final(self).digest_at(i) == old(self).digest_at(i)
                    &&& final(self).edges_at(old(self).id_of(child@) as int) =~= old(self).edges_at(old(self).id_of(child@) as int).push(parent)
                    &&& forall|i: int|
                        0 <= i < old(self).vert_count() && i != old(self).id_of(child@) ==> final(self).edges_at(i) == old(self).edges_at(i)
                },
                Some(idx) => {
                    &&& !old(self).contains_digest(child@)
                    &&& idx == old(self).vert_count()
                    &&& final(self).vert_count() == old(self).vert_count() + 1
                    &&& final(self).digest_at(idx as int) == child@
                    &&& final(self).id_of(child@) == idx
                    &&& final(self).edges_at(idx as int) =~= seq![parent]
                    &&& forall|i: int|
                        0 <= i < old(self).vert_count() ==> final(self).digest_at(i) == old(self).digest_at(i) && final(self).edges_at(i) == old(self).edges_at(i)
                },
            },
    {
        match self.index.get(&child) {
            Some(ci) => {
                let row = vstd::std_specs::vec::vec_index_mut(&mut self.edges, ci);
                row.push(parent);
                proof {
                    assert(final(self).edges@ == old(self).edges@.update(
                        ci as int,
                        *final(row),
                    ));
                }
                None
            },
            None => {
                let idx = self.verts.len();
                self.verts.push(child);
                self.index.insert(child, idx);
                let mut l: Vec<usize> = Vec::new();
                l.push(parent);
                self.edges.push(l);
                Some(idx)
            },
        }
    }

    /// Shrinks every parent list to its exact length.  Pure memory
    /// hygiene: the graph is unchanged in every observable way, so
    /// compacting twice has the same effect as compacting once.
    pub fn compact(&mut self)
        requires
            old(self).wf(),
        ensures
            final(self).wf(),
            final(self).vert_count() == old(self).vert_count(),
            forall|i: int|
                0 <= i < old(self).vert_count() ==> final(self).digest_at(i) == old(self).digest_at(i) && final(self).edges_at(i) == old(self).edges_at(i),
            forall|x: Seq<u8>| final(self).contains_digest(x) <==> old(self).contains_digest(x),
            forall|x: Seq<u8>|
                old(self).contains_digest(x) ==> final(self).id_of(x) == old(self).id_of(x),
    {
        let n = self.edges.len();
        let mut i: usize = 0;
        while i < n
            invariant
                0 <= i <= n,
                n == self.edges@.len(),
                self.verts == old(self).verts,
                self.index == old(self).index,
                self.edges@ == old(self).edges@,
            decreases n - i,
        {
            let row = vstd::std_specs::vec::vec_index_mut(&mut self.edges, i);
            shrink_exact(row);
            proof {
                assert(self.edges@ =~= old(self).edges@);
            }
            i = i + 1;
        }
        proof {
            assert(old(self).wf());
            assert(final(self).wf());
        }
    }

    /// Rebuilds a graph from its vertex digests and parent lists, as
    /// when loading a saved index: the digest map is reconstructed by
    /// scanning the vertex array in order.  Returns `None` exactly when
    /// the parts do not form a well-formed graph (unequal lengths, a
    /// duplicate digest, or an out-of-range parent id).
    pub fn from_parts(verts: Vec<Digest>, edges: Vec<Vec<usize>>) -> (r: Option<ReverseGraph>)
        ensures
            r is Some <==> {
                &&& verts@.len() == edges@.len()
                &&& forall|i: int, j: int| 0 <= i < j < verts@.len() ==> verts@[i]@ != verts@[j]@
                &&& forall|i: int, k: int|
                    0 <= i < edges@.len() && 0 <= k < edges@[i]@.len() ==> (#[trigger] edges@[i]@[k]) < verts@.len()
            },
            r is Some ==> {
                &&& r.unwrap().wf()
                &&& r.unwrap().vert_count() == verts@.len()
                &&& forall|i: int|
                    0 <= i < verts@.len() ==> r.unwrap().digest_at(i) == verts@[i]@
                        && r.unwrap().edges_at(i) == edges@[i]@
            },
    {
        if verts.len() != edges.len() {
            return None;
        }
        let n = verts.len();
        let mut index = DigestMap::new();
        let mut i: usize = 0;
        while i < n
            invariant
                0 <= i <= n,
                n == verts@.len(),
                index.wf(),
                forall|j: int|
                    0 <= j < i ==> index.contains_key(#[trigger] verts@[j]@) && index.at(
                        verts@[j]@,
                    ) == j,
                forall|d: Seq<u8>| #[trigger]
                    index.contains_key(d) ==> exists|j: int| 0 <= j < i && verts@[j]@ == d,
                forall|j1: int, j2: int| 0 <= j1 < j2 < i ==> verts@[j1]@ != verts@[j2]@,
            decreases n - i,
        {
            match index.get(&verts[i]) {
                Some(_) => {
                    proof {
                        let j = choose|j: int| 0 <= j < i && verts@[j]@ == verts@[i as int]@;
                        assert(verts@[j]@ == verts@[i as int]@);
                    }
                    return None;
                },
                None => {
                    index.insert(verts[i], i);
                },
            }
            i = i + 1;
        }
        let mut v: usize = 0;
        while v < n
            invariant
                0 <= v <= n,
                n == verts@.len(),
                n == edges@.len(),
                forall|i2: int, k: int|
                    0 <= i2 < v && 0 <= k < edges@[i2]@.len() ==> (#[trigger] edges@[i2]@[k])
                        < verts@.len(),
            decreases n - v,
        {
            let row_len = edges[v].len();
            let mut k: usize = 0;
            while k < row_len
                invariant
                    0 <= k <= row_len,
                    0 <= v < n,
                    n == verts@.len(),
                    n == edges@.len(),
                    row_len == edges@[v as int]@.len(),
                    forall|k2: int|
                        0 <= k2 < k ==> (#[trigger] edges@[v as int]@[k2]) < verts@.len(),
                decreases row_len - k,
            {
                if edges[v][k] >= n {
                    return None;
                }
                k = k + 1;
            }
            v = v + 1;
        }
        let g = ReverseGraph { verts, edges, index };
        proof {
            assert forall|i2: int, j: int|
                0 <= i2 < j < g.verts@.len() implies g.verts@[i2]@ != g.verts@[j]@ by {}
            assert(g.wf());
        }
        Some(g)
    }
}

impl ReverseGraph {
    /// `p` is a walk along reverse edges: every element is a valid
    /// vertex id and each step follows a parent edge.
    pub open spec fn path_ok(self, p: Seq<usize>) -> bool {
        &&& p.len() >= 1
        &&& forall|k: int| 0 <= k < p.len() ==> (#[trigger] p[k]) < self.vert_count()
        &&& forall|k: int|
            0 <= k < p.len() - 1 ==> self.edges_at((#[trigger] p[k]) as int).contains(p[k + 1])
    }

    /// Vertex `j` is reachable from vertex `i` along reverse edges
    /// (in zero or more steps).
    pub open spec fn reach(self, i: usize, j: usize) -> bool {
        exists|p: Seq<usize>| self.path_ok(p) && p.first() == i && p.last() == j
    }

    /// Vertex `i` has no reverse parents.  After a build these are
    /// exactly the commit vertices.
    pub open spec fn is_root(self, i: usize) -> bool {
        self.edges_at(i as int).len() == 0
    }

    /// Vertex `v` is reachable from some parent of vertex `bi`.
    pub open spec fn from_parents(self, bi: usize, v: usize) -> bool {
        exists|q: usize| #[trigger] self.edges_at(bi as int).contains(q) && self.reach(q, v)
    }

    /// A traversal started at vertex `bi` emits vertex `j`.
    pub open spec fn answers_from(self, bi: usize, j: usize) -> bool {
        self.from_parents(bi, j) && self.is_root(j)
    }

    /// A lookup for digest `b` emits vertex `j`: `b` is mapped, and a
    /// rootless vertex `j` is reachable from a parent of its vertex.
    pub open spec fn answers(self, b: Seq<u8>, j: usize) -> bool {
        self.contains_digest(b) && self.answers_from(self.id_of(b), j)
    }

    /// Vertex `j` is reachable from `i` in one or more steps.
    pub open spec fn reach_plus(self, i: usize, j: usize) -> bool {
        exists|p: Seq<usize>|
            self.path_ok(p) && p.len() >= 2 && p.first() == i && p.last() == j
    }

    /// Some walk along reverse edges returns to its start.
    pub open spec fn has_cycle(self) -> bool {
        exists|j: usize| self.reach_plus(j, j)
    }

    /// No walk along reverse edges returns to its start.  The reverse
    /// graph of a content-addressed store satisfies this: identical
    /// digests are identical objects, so ownership cannot loop.
    pub open spec fn acyclic(self) -> bool {
        !self.has_cycle()
    }

    /// Without cycles, no vertex lists itself as a parent.
    pub proof fn lemma_acyclic_no_self_edge(self, v: usize)
        requires
            self.acyclic(),
            v < self.vert_count(),
        ensures
            !self.edges_at(v as int).contains(v),
    {
        if self.edges_at(v as int).contains(v) {
            let p = seq![v, v];
            assert forall|k: int| 0 <= k < p.len() - 1 implies self.edges_at(
                (#[trigger] p[k]) as int,
            ).contains(p[k + 1]) by {
                assert(p[0] == v && p[1] == v);
            }
            assert(self.path_ok(p));
            assert(p.len() >= 2 && p.first() == v && p.last() == v);
            assert(self.reach_plus(v, v));
        }
    }

    /// Reachability is reflexive on valid ids.
    pub proof fn lemma_reach_refl(self, i: usize)
        requires
            i < self.vert_count(),
        ensures
            self.reach(i, i),
    {
        let p = seq![i];
        assert(self.path_ok(p));
        assert(p.first() == i && p.last() == i);
    }

    /// A reachable vertex's parent is reachable too.
    pub proof fn lemma_reach_extend(self, i: usize, j: usize, q: usize)
        requires
            self.reach(i, j),
            q < self.vert_count(),
            self.edges_at(j as int).contains(q),
        ensures
            self.reach(i, q),
    {
        let p = choose|p: Seq<usize>| self.path_ok(p) && p.first() == i && p.last() == j;
        let p2 = p.push(q);
        assert forall|k: int| 0 <= k < p2.len() - 1 implies self.edges_at(
            (#[trigger] p2[k]) as int,
        ).contains(p2[k + 1]) by {
            if k < p.len() - 1 {
                assert(p2[k] == p[k] && p2[k + 1] == p[k + 1]);
            } else {
                assert(p2[k] == p.last() && p2[k + 1] == q);
            }
        }
        assert(self.path_ok(p2));
        assert(p2.first() == i && p2.last() == q);
    }

    /// A step followed by a reach is a reach, of one step or more.
    pub proof fn lemma_reach_prepend(self, i: usize, x: usize, j: usize)
        requires
            i < self.vert_count(),
            self.edges_at(i as int).contains(x),
            self.reach(x, j),
        ensures
            self.reach(i, j),
            self.reach_plus(i, j),
    {
        let p = choose|p: Seq<usize>| self.path_ok(p) && p.first() == x && p.last() == j;
        let p2 = seq![i] + p;
        assert forall|k: int| 0 <= k < p2.len() - 1 implies self.edges_at(
            (#[trigger] p2[k]) as int,
        ).contains(p2[k + 1]) by {
            if k == 0 {
                assert(p2[0] == i && p2[1] == p[0]);
            } else {
                assert(p2[k] == p[k - 1] && p2[k + 1] == p[k]);
            }
        }
        assert(self.path_ok(p2));
        assert(p2.first() == i && p2.last() == j);
    }

    /// A reach between different vertices starts with some parent edge.
    pub proof fn lemma_reach_first_step(self, i: usize, j: usize)
        requires
            self.reach(i, j),
            i != j,
        ensures
            exists|x: usize| #[trigger]
                self.edges_at(i as int).contains(x) && self.reach(x, j),
    {
        let p = choose|p: Seq<usize>| self.path_ok(p) && p.first() == i && p.last() == j;
        assert(p.len() >= 2);
        let x = p[1];
        let t = p.subrange(1, p.len() as int);
        assert forall|k: int| 0 <= k < t.len() - 1 implies self.edges_at(
            (#[trigger] t[k]) as int,
        ).contains(t[k + 1]) by {
            assert(t[k] == p[k + 1] && t[k + 1] == p[k + 2]);
        }
        assert(self.path_ok(t));
        assert(t.first() == x && t.last() == j);
        assert(self.edges_at(i as int).contains(x) && self.reach(x, j));
    }

    /// Walking a path out of a set that is closed under parent edges
    /// stays inside the set.
    proof fn lemma_closed_path(self, vis: Seq<bool>, p: Seq<usize>)
        requires
            vis.len() == self.vert_count(),
            self.path_ok(p),
            vis[p.first() as int],
            forall|v: usize, k: int|
                (v as int) < vis.len() && vis[v as int] && 0 <= k < self.edges_at(
                    v as int,
                ).len() ==> vis[#[trigger] self.edges_at(v as int)[k] as int],
        ensures
            vis[p.last() as int],
        decreases p.len(),
    {
        if p.len() > 1 {
            assert(self.edges_at((p[0]) as int).contains(p[1]));
            let k = choose|k: int|
                0 <= k < self.edges_at(p[0] as int).len() && self.edges_at(p[0] as int)[k] == p[1];
            assert(vis[p[1] as int]);
            let t = p.subrange(1, p.len() as int);
            assert forall|k2: int| 0 <= k2 < t.len() - 1 implies self.edges_at(
                (#[trigger] t[k2]) as int,
            ).contains(t[k2 + 1]) by {
                assert(t[k2] == p[k2 + 1] && t[k2 + 1] == p[k2 + 2]);
            }
            assert(self.path_ok(t));
            self.lemma_closed_path(vis, t);
        }
    }

    /// As `lemma_closed_path`, stated over `reach`.
    pub proof fn lemma_closed_reach(self, vis: Seq<bool>, i: usize, j: usize)
        requires
            vis.len() == self.vert_count(),
            self.reach(i, j),
            (i as int) < vis.len() && vis[i as int],
            forall|v: usize, k: int|
                (v as int) < vis.len() && vis[v as int] && 0 <= k < self.edges_at(
                    v as int,
                ).len() ==> vis[#[trigger] self.edges_at(v as int)[k] as int],
        ensures
            vis[j as int],
    {
        let p = choose|p: Seq<usize>| self.path_ok(p) && p.first() == i && p.last() == j;
        self.lemma_closed_path(vis, p);
    }
}

/// Number of `false` entries in a visited buffer.
pub open spec fn count_unvisited(s: Seq<bool>) -> nat
    decreases s.len(),
{
    if s.len() == 0 {
        0
    } else {
        count_unvisited(s.drop_last()) + if s.last() {
            0nat
        } else {
            1nat
        }
    }
}

/// Marking one unvisited entry lowers the count by one.
proof fn lemma_count_update(s: Seq<bool>, i: int)
    requires
        0 <= i < s.len(),
        !s[i],
    ensures
        count_unvisited(s.update(i, true)) + 1 == count_unvisited(s),
    decreases s.len(),
{
    let t = s.update(i, true);
    if i == s.len() - 1 {
        assert(t.drop_last() =~= s.drop_last());
        assert(t.last());
    } else {
        assert(t.drop_last() =~= s.drop_last().update(i, true));
        lemma_count_update(s.drop_last(), i);
        assert(t.last() == s.last());
    }
}

impl ReverseGraph {
    /// Marks and stacks every not-yet-visited parent of vertex `i`,
    /// keeping the worklist sound for the traversal started at `bi`.
    /// `kept` are the already-emitted ids, which must stay off the
    /// worklist.
    #[verifier::loop_isolation(false)]
    #[verifier::rlimit(60)]
    fn expand_parents(
        &self,
        Ghost(bi): Ghost<usize>,
        i: usize,
        indices: &mut Vec<usize>,
        visited: &mut Vec<bool>,
        Ghost(kept): Ghost<Seq<usize>>,
    )
        requires
            self.wf(),
            bi < self.vert_count(),
            i < self.vert_count(),
            old(visited)@.len() == self.vert_count(),
            old(visited)@[i as int],
            !old(indices)@.contains(i),
            self.from_parents(bi, i),
            forall|k: int|
                0 <= k < old(indices)@.len() ==> (#[trigger] old(indices)@[k]) < self.vert_count()
                    && old(visited)@[old(indices)@[k] as int],
            forall|k1: int, k2: int|
                0 <= k1 < k2 < old(indices)@.len() ==> old(indices)@[k1] != old(indices)@[k2],
            forall|v: usize|
                (v as int) < self.vert_count() && (#[trigger] old(visited)@[v as int])
                    ==> self.from_parents(bi, v),
            forall|k: int|
                0 <= k < kept.len() ==> (#[trigger] kept[k]) < self.vert_count() && old(visited)@[kept[k] as int] && !old(indices)@.contains(kept[k]) && kept[k] != i,
        ensures
            final(visited)@.len() == self.vert_count(),
            forall|v: int|
                0 <= v < self.vert_count() && old(visited)@[v] ==> (#[trigger] final(visited)@[v]),
            forall|v: usize|
                (v as int) < self.vert_count() && (#[trigger] final(visited)@[v as int])
                    ==> self.from_parents(bi, v),
            forall|k: int|
                0 <= k < self.edges_at(i as int).len() ==> final(visited)@[(
            #[trigger] self.edges_at(i as int)[k]) as int],
            forall|k: int|
                0 <= k < final(indices)@.len() ==> (#[trigger] final(indices)@[k])
                    < self.vert_count() && final(visited)@[final(indices)@[k] as int],
            forall|k1: int, k2: int|
                0 <= k1 < k2 < final(indices)@.len() ==> final(indices)@[k1] != final(indices)@[k2],
            forall|v: usize| old(indices)@.contains(v) ==> final(indices)@.contains(v),
            forall|v: usize| #[trigger]
                final(indices)@.contains(v) ==> old(indices)@.contains(v) || !old(visited)@[v as int],
            forall|v: usize|
                (v as int) < self.vert_count() && (#[trigger] final(visited)@[v as int]) && !old(visited)@[v as int] ==> final(indices)@.contains(v),
            !final(indices)@.contains(i),
            forall|k: int| 0 <= k < kept.len() ==> !final(indices)@.contains(#[trigger] kept[k]),
            count_unvisited(final(visited)@) + final(indices)@.len() == count_unvisited(
                old(visited)@,
            ) + old(indices)@.len(),
    {
        let deg = self.parent_count(i);
        let mut t: usize = 0;
        while t < deg
            invariant
                0 <= t <= deg,
                deg == self.edges_at(i as int).len(),
                visited@.len() == self.vert_count(),
                visited@[i as int],
                !indices@.contains(i),
                forall|v: int|
                    0 <= v < self.vert_count() && old(visited)@[v] ==> (#[trigger] visited@[v]),
                forall|v: usize|
                    (v as int) < self.vert_count() && (#[trigger] visited@[v as int])
                        ==> self.from_parents(bi, v),
                forall|k: int|
                    0 <= k < t ==> visited@[(#[trigger] self.edges_at(i as int)[k]) as int],
                forall|k: int|
                    0 <= k < indices@.len() ==> (#[trigger] indices@[k]) < self.vert_count()
                        && visited@[indices@[k] as int],
                forall|k1: int, k2: int|
                    0 <= k1 < k2 < indices@.len() ==> indices@[k1] != indices@[k2],
                forall|v: usize| old(indices)@.contains(v) ==> indices@.contains(v),
                forall|v: usize| #[trigger]
                    indices@.contains(v) ==> old(indices)@.contains(v) || !old(visited)@[v as int],
                forall|v: usize|
                    (v as int) < self.vert_count() && (#[trigger] visited@[v as int]) && !old(visited)@[v as int] ==> indices@.contains(v),
                count_unvisited(visited@) + indices@.len() == count_unvisited(old(visited)@)
                    + old(indices)@.len(),
            decreases deg - t,
        {
            let q = self.parent_at(i, t);
            if !visited[q] {
                proof {
                    lemma_count_update(visited@, q as int);
                }
                let ghost pre = indices@;
                visited.set(q, true);
                indices.push(q);
                proof {
                    assert(self.edges_at(i as int).contains(q));
                    let s = choose|s: usize| #[trigger]
                        self.edges_at(bi as int).contains(s) && self.reach(s, i);
                    self.lemma_reach_extend(s, i, q);
                    assert(self.from_parents(bi, q));
                    assert forall|v: usize| #[trigger] indices@.contains(v) implies pre.contains(v)
                        || v == q by {
                        let k = choose|k: int| 0 <= k < indices@.len() && indices@[k] == v;
                        if k < indices@.len() - 1 {
                            assert(pre[k] == v);
                        }
                    }
                    assert forall|v: usize| pre.contains(v) implies indices@.contains(v) by {
                        let k = choose|k: int| 0 <= k < pre.len() && pre[k] == v;
                        assert(indices@[k] == v);
                    }
                    assert(indices@[indices@.len() - 1] == q);
                    assert(indices@.contains(q));
                }
            }
            proof {
                assert(self.edges_at(i as int)[t as int] == q);
                assert(visited@[q as int]);
            }
            t = t + 1;
        }
        proof {
            assert forall|k: int| 0 <= k < kept.len() implies !indices@.contains(
                #[trigger] kept[k],
            ) by {
                if indices@.contains(kept[k]) {
                    assert(old(indices)@.contains(kept[k]) || !old(visited)@[kept[k] as int]);
                }
            }
        }
    }

    /// Depth-first worklist traversal from the parents of vertex `bi`:
    /// emits each rootless vertex reachable from a parent of `bi`,
    /// each exactly once, deduplicated through the visited buffer.
    #[verifier::loop_isolation(false)]
    #[verifier::rlimit(60)]
    fn traverse_core(
        &self,
        bi: usize,
        indices: &mut Vec<usize>,
        visited: &mut Vec<bool>,
        out: &mut Vec<usize>,
    )
        requires
            self.wf(),
            bi < self.vert_count(),
        ensures
            forall|k: int|
                0 <= k < final(out)@.len() ==> (#[trigger] final(out)@[k]) < self.vert_count()
                    && self.answers_from(bi, final(out)@[k]),
            forall|j: usize| self.answers_from(bi, j) ==> final(out)@.contains(j),
            forall|k1: int, k2: int|
                0 <= k1 < k2 < final(out)@.len() ==> final(out)@[k1] != final(out)@[k2],
    {
        let n = self.verts.len();
        out.clear();
        indices.clear();
        visited.clear();
        while visited.len() < n
            invariant
                visited@.len() <= n,
                forall|v: int| 0 <= v < visited@.len() ==> !(#[trigger] visited@[v]),
            decreases n - visited@.len(),
        {
            visited.push(false);
        }
        let deg = self.edges[bi].len();
        let mut t: usize = 0;
        while t < deg
            invariant
                0 <= t <= deg,
                deg == self.edges_at(bi as int).len(),
                visited@.len() == n,
                forall|k: int|
                    0 <= k < indices@.len() ==> (#[trigger] indices@[k]) < n
                        && visited@[indices@[k] as int],
                forall|k1: int, k2: int|
                    0 <= k1 < k2 < indices@.len() ==> indices@[k1] != indices@[k2],
                forall|v: usize|
                    (v as int) < n && (#[trigger] visited@[v as int]) ==> indices@.contains(v)
                        && self.from_parents(bi, v),
                forall|k: int|
                    0 <= k < t ==> visited@[(#[trigger] self.edges_at(bi as int)[k]) as int],
                out@.len() == 0,
            decreases deg - t,
        {
            let q = self.edges[bi][t];
            if !visited[q] {
                let ghost pre = indices@;
                visited.set(q, true);
                indices.push(q);
                proof {
                    assert(self.edges_at(bi as int).contains(q));
                    self.lemma_reach_refl(q);
                    assert(self.from_parents(bi, q));
                    assert forall|v: usize| pre.contains(v) implies indices@.contains(v) by {
                        let k = choose|k: int| 0 <= k < pre.len() && pre[k] == v;
                        assert(indices@[k] == v);
                    }
                    assert(indices@[indices@.len() - 1] == q);
                    assert(indices@.contains(q));
                }
            }
            proof {
                assert(self.edges_at(bi as int)[t as int] == q);
                assert(visited@[q as int]);
            }
            t = t + 1;
        }
        while indices.len() != 0
            invariant
                visited@.len() == n,
                forall|k: int|
                    0 <= k < indices@.len() ==> (#[trigger] indices@[k]) < n
                        && visited@[indices@[k] as int],
                forall|k1: int, k2: int|
                    0 <= k1 < k2 < indices@.len() ==> indices@[k1] != indices@[k2],
                forall|v: usize|
                    (v as int) < n && (#[trigger] visited@[v as int]) ==> self.from_parents(bi, v),
                forall|k: int|
                    0 <= k < self.edges_at(bi as int).len() ==> visited@[(
                #[trigger] self.edges_at(bi as int)[k]) as int],
                forall|v: usize, k: int|
                    (v as int) < n && visited@[v as int] && !indices@.contains(v) && 0 <= k
                        < self.edges_at(v as int).len() ==> visited@[#[trigger] self.edges_at(
                        v as int,
                    )[k] as int],
                forall|k: int|
                    0 <= k < out@.len() ==> (#[trigger] out@[k]) < n && visited@[out@[k] as int]
                        && !indices@.contains(out@[k]) && self.is_root(out@[k])
                        && self.from_parents(bi, out@[k]),
                forall|v: usize|
                    (v as int) < n && visited@[v as int] && !indices@.contains(v) && self.is_root(
                        v,
                    ) ==> out@.contains(v),
                forall|k1: int, k2: int| 0 <= k1 < k2 < out@.len() ==> out@[k1] != out@[k2],
            decreases count_unvisited(visited@) + indices@.len(),
        {
            let ghost prior_indices = indices@;
            let i = indices.pop().unwrap();
            proof {
                assert(i == prior_indices.last());
                assert(indices@ =~= prior_indices.drop_last());
                assert forall|v: usize| indices@.contains(v) implies prior_indices.contains(
                    v,
                ) by {
                    let k = choose|k: int| 0 <= k < indices@.len() && indices@[k] == v;
                    assert(prior_indices[k] == v);
                }
                assert(!indices@.contains(i));
                assert forall|v: usize|
                    prior_indices.contains(v) && v != i implies indices@.contains(v) by {
                    let k = choose|k: int|
                        0 <= k < prior_indices.len() && prior_indices[k] == v;
                    assert(k != prior_indices.len() - 1);
                    assert(indices@[k] == v);
                }
            }
            let deg2 = self.parent_count(i);
            if deg2 == 0 {
                let ghost pre_out = out@;
                out.push(i);
                proof {
                    assert forall|v: usize| pre_out.contains(v) implies out@.contains(v) by {
                        let k = choose|k: int| 0 <= k < pre_out.len() && pre_out[k] == v;
                        assert(out@[k] == v);
                    }
                    assert(out@[out@.len() - 1] == i);
                    assert(out@.contains(i));
                    assert forall|v: usize|
                        (v as int) < n && visited@[v as int] && !indices@.contains(v)
                            && self.is_root(v) implies out@.contains(v) by {
                        if v != i {
                            assert(!prior_indices.contains(v));
                            assert(pre_out.contains(v));
                        }
                    }
                }
            } else {
                let ghost vis0 = visited@;
                let ghost ind1 = indices@;
                let ghost pre_out = out@;
                proof {
                    assert(self.from_parents(bi, i));
                    assert forall|k: int| 0 <= k < out@.len() implies (#[trigger] out@[k]) != i by {
                        assert(!prior_indices.contains(out@[k]) ==> out@[k] != i);
                    }
                }
                self.expand_parents(Ghost(bi), i, indices, visited, Ghost(out@));
                proof {
                    assert forall|v: usize|
                        (v as int) < n && visited@[v as int] && !indices@.contains(v)
                            && self.is_root(v) implies out@.contains(v) by {
                        if !vis0[v as int] {
                            assert(indices@.contains(v));
                        } else if v == i {
                            assert(self.edges_at(i as int).len() > 0);
                        } else {
                            assert(!ind1.contains(v));
                            assert(!prior_indices.contains(v));
                            assert(pre_out.contains(v));
                        }
                    }
                }
            }
        }
        proof {
            assert forall|j: usize| self.answers_from(bi, j) implies out@.contains(j) by {
                let q = choose|q: usize| #[trigger]
                    self.edges_at(bi as int).contains(q) && self.reach(q, j);
                let k = choose|k: int|
                    0 <= k < self.edges_at(bi as int).len() && self.edges_at(bi as int)[k] == q;
                assert(visited@[q as int]);
                self.lemma_closed_reach(visited@, q, j);
                assert(visited@[j as int]);
            }
        }
    }
}

impl ReverseGraph {
    /// Resolves `blob` and emits the id of every rootless vertex that
    /// is reachable from a parent of the blob's vertex, each exactly
    /// once.  An unmapped digest yields an empty result, not an error.
    pub fn lookup_idx(&self, blob: &Digest, stack: &mut Stack, out: &mut Vec<usize>)
        requires
            self.wf(),
        ensures
            forall|k: int|
                0 <= k < final(out)@.len() ==> (#[trigger] final(out)@[k]) < self.vert_count()
                    && self.answers(blob@, final(out)@[k]),
            forall|j: usize| #[trigger] self.answers(blob@, j) ==> final(out)@.contains(j),
            forall|k1: int, k2: int|
                0 <= k1 < k2 < final(out)@.len() ==> final(out)@[k1] != final(out)@[k2],
    {
        match self.index.get(blob) {
            None => {
                out.clear();
            },
            Some(bi) => {
                proof {
                    self.lemma_id_of(blob@);
                }
                self.traverse_core(bi, &mut stack.indices, &mut stack.visited, out);
            },
        }
    }

    /// Digest `d` is the digest of some vertex that a lookup for `b`
    /// emits.
    pub open spec fn answer_digest(self, b: Seq<u8>, d: Seq<u8>) -> bool {
        exists|j: usize| #[trigger] self.answers(b, j) && d == self.digest_at(j as int)
    }

    /// As `lookup_idx`, but emits the digests of the found vertices
    /// (the commit digests, once the graph is fully built).
    pub fn lookup(&self, blob: &Digest, stack: &mut Stack, out: &mut Vec<Digest>)
        requires
            self.wf(),
        ensures
            forall|k: int|
                0 <= k < final(out)@.len() ==> self.answer_digest(
                    blob@,
                    (#[trigger] final(out)@[k])@,
                ),
            forall|j: usize| #[trigger]
                self.answers(blob@, j) ==> exists|k: int|
                    0 <= k < final(out)@.len() && final(out)@[k]@ == self.digest_at(j as int),
            forall|k1: int, k2: int|
                0 <= k1 < k2 < final(out)@.len() ==> final(out)@[k1]@ != final(out)@[k2]@,
    {
        out.clear();
        let bi = match self.index.get(blob) {
            None => {
                return ;
            },
            Some(bi) => bi,
        };
        proof {
            self.lemma_id_of(blob@);
        }
        self.traverse_core(bi, &mut stack.indices, &mut stack.visited, &mut stack.ids);
        let ghost ids = stack.ids@;
        let m = stack.ids.len();
        let mut k: usize = 0;
        while k < m
            invariant
                0 <= k <= m,
                m == ids.len(),
                stack.ids@ == ids,
                self.wf(),
                bi == self.id_of(blob@),
                self.contains_digest(blob@),
                forall|t: int|
                    0 <= t < ids.len() ==> (#[trigger] ids[t]) < self.vert_count()
                        && self.answers(blob@, ids[t]),
                forall|t1: int, t2: int| 0 <= t1 < t2 < ids.len() ==> ids[t1] != ids[t2],
                forall|j: usize| #[trigger] self.answers(blob@, j) ==> ids.contains(j),
                out@.len() == k,
                forall|t: int| 0 <= t < k ==> (#[trigger] out@[t])@ == self.digest_at(ids[t] as int),
            decreases m - k,
        {
            let id = stack.ids[k];
            out.push(self.digest_of(id));
            k = k + 1;
        }
        proof {
            assert forall|t: int|
                0 <= t < out@.len() implies self.answer_digest(blob@, (#[trigger] out@[t])@) by {
                let j = ids[t];
                assert(self.answers(blob@, j) && out@[t]@ == self.digest_at(j as int));
            }
            assert forall|j: usize| #[trigger] self.answers(blob@, j) implies exists|t: int|
                0 <= t < out@.len() && out@[t]@ == self.digest_at(j as int) by {
                assert(ids.contains(j));
                let t = choose|t: int| 0 <= t < ids.len() && ids[t] == j;
                assert(out@[t]@ == self.digest_at(j as int));
            }
            assert forall|k1: int, k2: int|
                0 <= k1 < k2 < out@.len() implies out@[k1]@ != out@[k2]@ by {
                self.lemma_digests_distinct(ids[k1] as int, ids[k2] as int);
            }
        }
    }
}

impl ReverseGraph {
    /// `other` is `self` with one chain collapsed: vertex `v`'s single
    /// parent list `[p]` was replaced by `p`'s single parent list `[q]`
    /// (skipping `p`); everything else is unchanged.
    pub open spec fn rewired(self, other: ReverseGraph, v: usize, p: usize, q: usize) -> bool {
        &&& self.wf()
        &&& other.wf()
        &&& other.vert_count() == self.vert_count()
        &&& (v as int) < self.vert_count()
        &&& (p as int) < self.vert_count()
        &&& (q as int) < self.vert_count()
        &&& v != p
        &&& self.edges_at(v as int).len() == 1 && self.edges_at(v as int)[0] == p
        &&& self.edges_at(p as int).len() == 1 && self.edges_at(p as int)[0] == q
        &&& other.edges_at(v as int).len() == 1 && other.edges_at(v as int)[0] == q
        &&& forall|i: int|
            0 <= i < self.vert_count() && i != v ==> other.edges_at(i) == self.edges_at(i)
        &&& forall|i: int| 0 <= i < self.vert_count() ==> other.digest_at(i) == self.digest_at(i)
        &&& forall|d: Seq<u8>| other.contains_digest(d) <==> self.contains_digest(d)
        &&& forall|d: Seq<u8>| self.contains_digest(d) ==> other.id_of(d) == self.id_of(d)
    }

    /// Any walk in the rewired graph can be replayed before the rewrite:
    /// the shortcut edge `v -> q` expands to `v -> p -> q`.
    proof fn lemma_rewire_path_back(
        g: ReverseGraph,
        h: ReverseGraph,
        v: usize,
        p: usize,
        q: usize,
        pp: Seq<usize>,
    )
        requires
            g.rewired(h, v, p, q),
            h.path_ok(pp),
        ensures
            g.reach(pp.first(), pp.last()),
            pp.len() >= 2 ==> g.reach_plus(pp.first(), pp.last()),
        decreases pp.len(),
    {
        if pp.len() == 1 {
            g.lemma_reach_refl(pp.first());
        } else {
            let s = pp.first();
            let x = pp[1];
            let t = pp.subrange(1, pp.len() as int);
            assert forall|k: int| 0 <= k < t.len() - 1 implies h.edges_at(
                (#[trigger] t[k]) as int,
            ).contains(t[k + 1]) by {
                assert(t[k] == pp[k + 1] && t[k + 1] == pp[k + 2]);
            }
            assert(h.path_ok(t));
            Self::lemma_rewire_path_back(g, h, v, p, q, t);
            assert(g.reach(x, pp.last()));
            if s == v {
                assert(h.edges_at(v as int).contains(x));
                assert(x == q);
                assert(g.edges_at(p as int).contains(q));
                g.lemma_reach_prepend(p, q, pp.last());
                assert(g.edges_at(v as int).contains(p));
                g.lemma_reach_prepend(v, p, pp.last());
            } else {
                assert(h.edges_at(s as int).contains(x));
                assert(h.edges_at(s as int) == g.edges_at(s as int));
                g.lemma_reach_prepend(s, x, pp.last());
            }
        }
    }

    /// Any walk of the graph before the rewrite that ends at a rootless vertex
    /// can be replayed in the rewired graph: the detour `v -> p -> q`
    /// contracts to the shortcut `v -> q`, and no such walk stops at
    /// `p`, whose parent list is nonempty.
    proof fn lemma_rewire_path_fwd(
        g: ReverseGraph,
        h: ReverseGraph,
        v: usize,
        p: usize,
        q: usize,
        pp: Seq<usize>,
    )
        requires
            g.rewired(h, v, p, q),
            g.path_ok(pp),
            g.edges_at(pp.last() as int).len() == 0,
        ensures
            h.reach(pp.first(), pp.last()),
        decreases pp.len(),
    {
        if pp.len() == 1 {
            h.lemma_reach_refl(pp.first());
        } else {
            let s = pp.first();
            if s == v {
                assert(g.edges_at(v as int).contains(pp[1]));
                assert(pp[1] == p);
                if pp.len() == 2 {
                    assert(pp.last() == p);
                    assert(false);
                } else {
                    assert(g.edges_at(p as int).contains(pp[2]));
                    assert(pp[2] == q);
                    let t = pp.subrange(2, pp.len() as int);
                    assert forall|k: int| 0 <= k < t.len() - 1 implies g.edges_at(
                        (#[trigger] t[k]) as int,
                    ).contains(t[k + 1]) by {
                        assert(t[k] == pp[k + 2] && t[k + 1] == pp[k + 3]);
                    }
                    assert(g.path_ok(t));
                    assert(t.last() == pp.last());
                    Self::lemma_rewire_path_fwd(g, h, v, p, q, t);
                    assert(h.edges_at(v as int).contains(q));
                    h.lemma_reach_prepend(v, q, pp.last());
                }
            } else {
                let t = pp.subrange(1, pp.len() as int);
                assert forall|k: int| 0 <= k < t.len() - 1 implies g.edges_at(
                    (#[trigger] t[k]) as int,
                ).contains(t[k + 1]) by {
                    assert(t[k] == pp[k + 1] && t[k + 1] == pp[k + 2]);
                }
                assert(g.path_ok(t));
                Self::lemma_rewire_path_fwd(g, h, v, p, q, t);
                assert(g.edges_at(s as int).contains(pp[1]));
                assert(h.edges_at(s as int).contains(pp[1]));
                h.lemma_reach_prepend(s, pp[1], pp.last());
            }
        }
    }

    /// Collapsing one chain link cannot create a cycle: the shortcut
    /// edge only abbreviates a walk that already existed.
    proof fn lemma_rewire_preserves_acyclic(
        g: ReverseGraph,
        h: ReverseGraph,
        v: usize,
        p: usize,
        q: usize,
    )
        requires
            g.rewired(h, v, p, q),
            g.acyclic(),
        ensures
            h.acyclic(),
    {
        if h.has_cycle() {
            let j = choose|j: usize| h.reach_plus(j, j);
            let pp = choose|pp: Seq<usize>|
                h.path_ok(pp) && pp.len() >= 2 && pp.first() == j && pp.last() == j;
            Self::lemma_rewire_path_back(g, h, v, p, q, pp);
            assert(g.reach_plus(j, j));
        }
    }

    /// Collapsing one chain link preserves every lookup answer.
    pub proof fn lemma_rewire_preserves_answers(
        g: ReverseGraph,
        h: ReverseGraph,
        v: usize,
        p: usize,
        q: usize,
    )
        requires
            g.rewired(h, v, p, q),
        ensures
            forall|b: Seq<u8>, j: usize| h.answers(b, j) <==> g.answers(b, j),
    {
        assert forall|b: Seq<u8>, j: usize| h.answers(b, j) <==> g.answers(b, j) by {
            if h.answers(b, j) {
                let bi = h.id_of(b);
                assert(bi == g.id_of(b));
                let x = choose|x: usize| #[trigger]
                    h.edges_at(bi as int).contains(x) && h.reach(x, j);
                let pp = choose|pp: Seq<usize>|
                    h.path_ok(pp) && pp.first() == x && pp.last() == j;
                Self::lemma_rewire_path_back(g, h, v, p, q, pp);
                assert(g.reach(x, j));
                assert((j as int) < g.vert_count());
                assert(j != v || g.edges_at(j as int).len() == 1);
                assert(g.edges_at(j as int).len() == 0);
                if bi == v {
                    assert(x == q);
                    assert(g.edges_at(p as int).contains(q));
                    g.lemma_reach_prepend(p, q, j);
                    assert(g.edges_at(v as int).contains(p) && g.reach(p, j));
                    assert(g.answers(b, j));
                } else {
                    assert(g.edges_at(bi as int).contains(x));
                    assert(g.answers(b, j));
                }
            }
            if g.answers(b, j) {
                let bi = g.id_of(b);
                let x = choose|x: usize| #[trigger]
                    g.edges_at(bi as int).contains(x) && g.reach(x, j);
                let pp = choose|pp: Seq<usize>|
                    g.path_ok(pp) && pp.first() == x && pp.last() == j;
                assert((j as int) < g.vert_count());
                Self::lemma_rewire_path_fwd(g, h, v, p, q, pp);
                assert(h.reach(x, j));
                assert(j != v && j != p);
                assert(h.edges_at(j as int).len() == 0);
                if bi == v {
                    assert(x == p);
                    assert(j != p);
                    h.lemma_reach_first_step(p, j);
                    let y = choose|y: usize| #[trigger]
                        h.edges_at(p as int).contains(y) && h.reach(y, j);
                    assert(y == q);
                    assert(h.edges_at(v as int).contains(q) && h.reach(q, j));
                    assert(h.answers(b, j));
                } else {
                    assert(h.edges_at(bi as int).contains(x));
                    assert(h.answers(b, j));
                }
            }
        }
    }

}

/// A sequence of distinct ids below `n` has at most `n` entries.
proof fn lemma_distinct_ids_bounded(s: Seq<int>, n: int)
    requires
        s.no_duplicates(),
        n >= 0,
        forall|i: int| 0 <= i < s.len() ==> 0 <= #[trigger] s[i] < n,
    ensures
        s.len() <= n,
{
    s.unique_seq_to_set();
    assert forall|x: int|
        s.to_set().contains(x) implies vstd::set_lib::set_int_range(0, n).contains(x) by {
        assert(s.contains(x));
        let i = choose|i: int| 0 <= i < s.len() && s[i] == x;
    }
    vstd::set_lib::lemma_int_range(0, n);
    vstd::set_lib::lemma_len_subset(s.to_set(), vstd::set_lib::set_int_range(0, n));
}

impl ReverseGraph {
    /// Collapses every chain: wherever a vertex's parent list is one
    /// single other vertex whose own list is again a single vertex, the
    /// list is replaced by a copy of the parent's list (skipping the
    /// parent), and again, until the parent reached has zero or several
    /// parents.  One such scan reaches the fixpoint that scanning until
    /// a scan changes nothing reaches: afterwards no single-parent
    /// vertex points at a single-parent vertex.  Every lookup answers
    /// exactly as before.  Returns the number of links rewritten.
    #[verifier::loop_isolation(false)]
    #[verifier::rlimit(100)]
    pub fn optimize_topology(&mut self) -> (rewrites: usize)
        requires
            old(self).wf(),
            old(self).acyclic(),
        ensures
            final(self).wf(),
            final(self).acyclic(),
            final(self).vert_count() == old(self).vert_count(),
            forall|i: int|
                0 <= i < old(self).vert_count() ==> final(self).digest_at(i) == old(
                self).digest_at(i),
            forall|d: Seq<u8>| final(self).contains_digest(d) <==> old(self).contains_digest(d),
            forall|d: Seq<u8>|
                old(self).contains_digest(d) ==> final(self).id_of(d) == old(self).id_of(d),
            forall|b: Seq<u8>, j: usize| final(self).answers(b, j) <==> old(self).answers(b, j),
            forall|i: int|
                0 <= i < old(self).vert_count() ==> (#[trigger] final(self).edges_at(i)).len()
                    == old(self).edges_at(i).len(),
            forall|w: int|
                0 <= w < final(self).vert_count() && (#[trigger] final(self).edges_at(w)).len()
                    == 1 ==> final(self).edges_at(final(self).edges_at(w)[0] as int).len() != 1,
    {
        let n = self.len();
        let mut rewrites: usize = 0;
        let mut v: usize = 0;
        while v < n
            invariant
                0 <= v <= n,
                n == self.vert_count(),
                self.wf(),
                self.acyclic(),
                self.vert_count() == old(self).vert_count(),
                forall|i: int|
                    0 <= i < old(self).vert_count() ==> self.digest_at(i) == old(
                    self).digest_at(i),
                forall|d: Seq<u8>| self.contains_digest(d) <==> old(self).contains_digest(d),
                forall|d: Seq<u8>|
                    old(self).contains_digest(d) ==> self.id_of(d) == old(self).id_of(d),
                forall|b: Seq<u8>, j: usize| self.answers(b, j) <==> old(self).answers(b, j),
                forall|i: int|
                    0 <= i < old(self).vert_count() ==> (#[trigger] self.edges_at(i)).len() == old(
                    self).edges_at(i).len(),
                forall|w: int|
                    0 <= w < v && (#[trigger] self.edges_at(w)).len() == 1 ==> self.edges_at(
                        self.edges_at(w)[0] as int,
                    ).len() != 1,
            decreases n - v,
        {
            let ghost mut seen: Seq<int> = Seq::empty();
            let mut chasing = true;
            while chasing
                invariant
                    0 <= v < n,
                    n == self.vert_count(),
                    self.wf(),
                    self.acyclic(),
                    self.vert_count() == old(self).vert_count(),
                    forall|i: int|
                        0 <= i < old(self).vert_count() ==> self.digest_at(i) == old(
                        self).digest_at(i),
                    forall|d: Seq<u8>| self.contains_digest(d) <==> old(self).contains_digest(d),
                    forall|d: Seq<u8>|
                        old(self).contains_digest(d) ==> self.id_of(d) == old(self).id_of(d),
                    forall|b: Seq<u8>, j: usize|
                        self.answers(b, j) <==> old(self).answers(b, j),
                    forall|i: int|
                        0 <= i < old(self).vert_count() ==> (#[trigger] self.edges_at(i)).len()
                            == old(self).edges_at(i).len(),
                    forall|w: int|
                        0 <= w < v && (#[trigger] self.edges_at(w)).len() == 1 ==> self.edges_at(
                            self.edges_at(w)[0] as int,
                        ).len() != 1,
                    seen.no_duplicates(),
                    forall|t: int| 0 <= t < seen.len() ==> 0 <= #[trigger] seen[t] < n,
                    forall|t: int|
                        0 <= t < seen.len() ==> !self.reach_plus(v, (#[trigger] seen[t]) as usize),
                    seen.len() <= n,
                    !chasing ==> (self.edges_at(v as int).len() == 1 ==> self.edges_at(
                        self.edges_at(v as int)[0] as int,
                    ).len() != 1),
                decreases n - seen.len() + (if chasing {
                    1int
                } else {
                    0int
                }),
            {
                if self.parent_count(v) != 1 {
                    chasing = false;
                } else {
                    let p = self.parent_at(v, 0);
                    proof {
                        self.lemma_acyclic_no_self_edge(v);
                        assert(self.edges_at(v as int).contains(self.edges_at(v as int)[0]));
                        assert(p != v);
                    }
                    if self.parent_count(p) != 1 {
                        chasing = false;
                    } else {
                        let q = self.parent_at(p, 0);
                        let ghost g0 = *self;
                        proof {
                            let vp = seq![v, p];
                            assert(vp.len() == 2 && vp[0] == v && vp[1] == p);
                            assert forall|k: int|
                                0 <= k < vp.len() implies (#[trigger] vp[k])
                                < self.vert_count() by {
                                assert(vp[0] == v && vp[1] == p);
                            }
                            assert forall|k: int| 0 <= k < vp.len() - 1 implies g0.edges_at(
                                (#[trigger] vp[k]) as int,
                            ).contains(vp[k + 1]) by {
                                assert(vp[0] == v && vp[1] == p);
                                assert(g0.edges_at(v as int)[0] == p);
                            }
                            assert(g0.path_ok(vp));
                            assert(vp.first() == v && vp.last() == p);
                            assert(g0.reach_plus(v, p));
                            assert(!seen.contains(p as int)) by {
                                if seen.contains(p as int) {
                                    let t = choose|t: int|
                                        0 <= t < seen.len() && seen[t] == p as int;
                                }
                            }
                        }
                        let mut nl: Vec<usize> = Vec::new();
                        nl.push(q);
                        self.edges.set(v, nl);
                        proof {
                            assert(self.edges@ == g0.edges@.update(v as int, nl));
                            assert forall|i: int|
                                0 <= i < self.vert_count() && i != v implies self.edges_at(i)
                                == g0.edges_at(i) by {}
                            assert(self.wf());
                            assert(g0.rewired(*self, v, p, q));
                            Self::lemma_rewire_preserves_answers(g0, *self, v, p, q);
                            Self::lemma_rewire_preserves_acyclic(g0, *self, v, p, q);
                            assert forall|w: int|
                                0 <= w < v && (#[trigger] self.edges_at(w)).len()
                                    == 1 implies self.edges_at(
                                self.edges_at(w)[0] as int,
                            ).len() != 1 by {
                                assert(self.edges_at(w) == g0.edges_at(w));
                                let pw = g0.edges_at(w)[0];
                                assert(g0.edges_at(pw as int).len() != 1);
                                assert(pw as int != v) by {
                                    if pw as int == v {
                                        assert(g0.edges_at(v as int).len() == 1);
                                    }
                                }
                                assert(self.edges_at(pw as int) == g0.edges_at(pw as int));
                            }
                            assert forall|t: int|
                                0 <= t < seen.len() implies !self.reach_plus(
                                v,
                                (#[trigger] seen[t]) as usize,
                            ) by {
                                if self.reach_plus(v, seen[t] as usize) {
                                    let pp = choose|pp: Seq<usize>|
                                        self.path_ok(pp) && pp.len() >= 2 && pp.first() == v
                                            && pp.last() == seen[t] as usize;
                                    Self::lemma_rewire_path_back(g0, *self, v, p, q, pp);
                                    assert(g0.reach_plus(v, seen[t] as usize));
                                }
                            }
                            assert(!self.reach_plus(v, p)) by {
                                if self.reach_plus(v, p) {
                                    let pp = choose|pp: Seq<usize>|
                                        self.path_ok(pp) && pp.len() >= 2 && pp.first() == v
                                            && pp.last() == p;
                                    assert(self.edges_at(v as int).contains(pp[1]));
                                    assert(pp[1] == q);
                                    let tt = pp.subrange(1, pp.len() as int);
                                    assert forall|k: int|
                                        0 <= k < tt.len() - 1 implies self.edges_at(
                                        (#[trigger] tt[k]) as int,
                                    ).contains(tt[k + 1]) by {
                                        assert(tt[k] == pp[k + 1] && tt[k + 1] == pp[k + 2]);
                                    }
                                    assert(self.path_ok(tt));
                                    Self::lemma_rewire_path_back(g0, *self, v, p, q, tt);
                                    assert(g0.reach(q, p));
                                    assert(q != p) by {
                                        g0.lemma_acyclic_no_self_edge(p);
                                        assert(g0.edges_at(p as int).contains(q));
                                    }
                                    assert(g0.edges_at(p as int).contains(q));
                                    g0.lemma_reach_prepend(p, q, p);
                                    assert(g0.reach_plus(p, p));
                                }
                            }
                            let pre_seen = seen;
                            seen = seen.push(p as int);
                            assert(seen.no_duplicates()) by {
                                assert forall|t1: int, t2: int|
                                    0 <= t1 < t2 < seen.len() implies seen[t1] != seen[t2] by {
                                    if t2 == seen.len() - 1 {
                                        assert(seen[t1] == pre_seen[t1]);
                                        assert(!pre_seen.contains(p as int));
                                    } else {
                                        assert(seen[t1] == pre_seen[t1] && seen[t2]
                                            == pre_seen[t2]);
                                    }
                                }
                            }
                            lemma_distinct_ids_bounded(seen, n as int);
                        }
                        if rewrites < usize::MAX {
                            rewrites = rewrites + 1;
                        }
                    }
                }
            }
            v = v + 1;
        }
        rewrites
    }
}

impl ReverseGraph {
    /// All vertex digests, in vertex-id order.
    pub open spec fn verts_view(self) -> Seq<Seq<u8>> {
        Seq::new(self.vert_count(), |i: int| self.digest_at(i))
    }

    /// All parent lists, in vertex-id order.
    pub open spec fn edges_view(self) -> Seq<Seq<usize>> {
        Seq::new(self.vert_count(), |i: int| self.edges_at(i))
    }

    /// In a well-formed graph every stored parent id is a vertex id.
    pub proof fn lemma_wf_edge_bounds(self)
        requires
            self.wf(),
        ensures
            forall|i: int, k: int|
                0 <= i < self.vert_count() && 0 <= k < self.edges_at(i).len() ==> (
                #[trigger] self.edges_at(i)[k]) < self.vert_count(),
    {
    }

    /// Two well-formed graphs with the same vertices and edges answer
    /// every lookup identically.
    pub proof fn lemma_same_views_same_answers(g: ReverseGraph, h: ReverseGraph)
        requires
            g.wf(),
            h.wf(),
            g.verts_view() == h.verts_view(),
            g.edges_view() == h.edges_view(),
        ensures
            forall|b: Seq<u8>, j: usize| g.answers(b, j) <==> h.answers(b, j),
    {
        assert(g.verts_view().len() == g.vert_count());
        assert(h.verts_view().len() == h.vert_count());
        assert(g.vert_count() == h.vert_count());
        assert forall|i: int| 0 <= i < g.vert_count() implies g.digest_at(i) == h.digest_at(i)
            && g.edges_at(i) == h.edges_at(i) by {
            assert(g.verts_view()[i] == h.verts_view()[i]);
            assert(g.edges_view()[i] == h.edges_view()[i]);
        }
        assert forall|d: Seq<u8>| g.contains_digest(d) <==> h.contains_digest(d) by {
            if g.contains_digest(d) {
                g.lemma_id_of(d);
                h.lemma_id_of_vertex(g.id_of(d) as int);
            }
            if h.contains_digest(d) {
                h.lemma_id_of(d);
                g.lemma_id_of_vertex(h.id_of(d) as int);
            }
        }
        assert forall|d: Seq<u8>| g.contains_digest(d) implies g.id_of(d) == h.id_of(d) by {
            g.lemma_id_of(d);
            h.lemma_id_of_vertex(g.id_of(d) as int);
        }
        assert forall|s: usize, j: usize| g.reach(s, j) <==> h.reach(s, j) by {
            if g.reach(s, j) {
                let p = choose|p: Seq<usize>| g.path_ok(p) && p.first() == s && p.last() == j;
                assert(h.path_ok(p));
            }
            if h.reach(s, j) {
                let p = choose|p: Seq<usize>| h.path_ok(p) && p.first() == s && p.last() == j;
                assert(g.path_ok(p));
            }
        }
        assert forall|b: Seq<u8>, j: usize| g.answers(b, j) <==> h.answers(b, j) by {
            if g.answers(b, j) {
                let q = choose|q: usize| #[trigger]
                    g.edges_at(g.id_of(b) as int).contains(q) && g.reach(q, j);
                let p = choose|p: Seq<usize>| g.path_ok(p) && p.first() == q && p.last() == j;
                assert((j as int) < g.vert_count());
                g.lemma_id_of(b);
                assert(h.edges_at(h.id_of(b) as int).contains(q) && h.reach(q, j));
            }
            if h.answers(b, j) {
                let q = choose|q: usize| #[trigger]
                    h.edges_at(h.id_of(b) as int).contains(q) && h.reach(q, j);
                let p = choose|p: Seq<usize>| h.path_ok(p) && p.first() == q && p.last() == j;
                assert((j as int) < h.vert_count());
                h.lemma_id_of(b);
                assert(g.edges_at(g.id_of(b) as int).contains(q) && g.reach(q, j));
            }
        }
    }
}

/// Relies on `Vec::shrink_to_fit`: capacity may shrink, the contents
/// stay exactly as they were.
#[verifier::external_body]
fn shrink_exact(v: &mut Vec<usize>)
    ensures
        *final(v) == *old(v),
{
    v.shrink_to_fit();
}

} // verus!
