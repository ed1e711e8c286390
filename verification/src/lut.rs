//! The builder: walks the commit list, expands each root tree once,
//! and inserts the reverse edges into a `ReverseGraph`.  Shared
//! subtrees are expanded only on first insertion; later references
//! only add a reverse edge.

use crate::digest::Digest;
use crate::graph::{ReverseGraph, Stack};
use crate::source::{
    entry_ref, fwd_path, fwd_plus, fwd_step, is_commit, is_commit_upto, source_ok,
    tree_referenced, CommitInfo, Kind, TreeStore,
};
use vstd::prelude::*;

verus! {

broadcast use crate::digest::lemma_digest_len;

/// Why a build stopped: an object that a tree names is not in the
/// object store (the store is inconsistent).
#[derive(Debug)]
pub enum BuildError {
    MissingTree(Digest),
}

/// Tree `t` has been fully expanded into the graph: every followed
/// entry is a vertex with a reverse edge to `t`'s vertex.
pub open spec fn expanded(g: ReverseGraph, st: TreeStore, t: int) -> bool {
    forall|k: int|
        0 <= k < st.entries_at(t).len() && ((#[trigger] st.entries_at(t)[k]).kind is Tree
            || st.entries_at(t)[k].kind is Blob) ==> g.contains_digest(st.entries_at(t)[k].digest@)
            && g.edges_at(g.id_of(st.entries_at(t)[k].digest@) as int).contains(
            g.id_of(st.key_at(t)),
        )
}

/// Some pending work item is the vertex of digest `d`.
pub open spec fn in_work(g: ReverseGraph, work: Seq<(usize, usize)>, d: Seq<u8>) -> bool {
    exists|i: int| 0 <= i < work.len() && g.digest_at((#[trigger] work[i]).0 as int) == d
}

/// The builder's invariant over graph `g` after the first `processed`
/// commits, with `work` the trees awaiting expansion.
pub open spec fn build_inv(
    g: ReverseGraph,
    cs: Seq<CommitInfo>,
    st: TreeStore,
    processed: int,
    work: Seq<(usize, usize)>,
) -> bool {
    &&& g.wf()
    &&& 0 <= processed <= cs.len()
    &&& forall|i: int|
        0 <= i < work.len() ==> ((#[trigger] work[i]).0 as int) < g.vert_count() && (
        work[i].1 as int) < st.tree_count() && g.digest_at(work[i].0 as int) == st.key_at(
            work[i].1 as int,
        )
    &&& forall|j: int|
        0 <= j < g.vert_count() ==> ((#[trigger] g.edges_at(j)).len() == 0 <==> is_commit_upto(
            cs,
            processed,
            g.digest_at(j),
        ))
    &&& forall|j: int, k: int|
        0 <= j < g.vert_count() && 0 <= k < g.edges_at(j).len() ==> fwd_step(
            cs,
            st,
            g.digest_at((#[trigger] g.edges_at(j)[k]) as int),
            g.digest_at(j),
        )
    &&& forall|j: int|
        0 <= j < g.vert_count() ==> is_commit_upto(cs, processed, #[trigger] g.digest_at(j)) || (
        exists|c: int|
            0 <= c < processed && fwd_plus(cs, st, (#[trigger] cs[c]).commit@, g.digest_at(j)))
    &&& forall|t: int|
        0 <= t < st.tree_count() && g.contains_digest(#[trigger] st.key_at(t)) ==> in_work(
            g,
            work,
            st.key_at(t),
        ) || expanded(g, st, t)
    &&& forall|c: int|
        0 <= c < processed ==> g.contains_digest((#[trigger] cs[c]).commit@)
            && g.contains_digest(cs[c].root_tree@) && g.edges_at(
            g.id_of(cs[c].root_tree@) as int,
        ).contains(g.id_of(cs[c].commit@))
    &&& forall|d: Seq<u8>|
        g.contains_digest(d) && #[trigger] tree_referenced(cs, st, d) ==> st.has_tree(d)
}

/// Number of stored trees whose digest is not yet a vertex, looking at
/// the first `t` trees.
pub open spec fn missing_upto(st: TreeStore, g: ReverseGraph, t: int) -> nat
    decreases t,
{
    if t <= 0 {
        0
    } else {
        missing_upto(st, g, t - 1) + if g.contains_digest(st.key_at(t - 1)) {
            0nat
        } else {
            1nat
        }
    }
}

/// Number of stored trees whose digest is not yet a vertex.
pub open spec fn missing_trees(st: TreeStore, g: ReverseGraph) -> nat {
    missing_upto(st, g, st.tree_count() as int)
}

/// Growing the vertex set never raises the count of missing trees.
proof fn lemma_missing_monotone(st: TreeStore, g1: ReverseGraph, g2: ReverseGraph, t: int)
    requires
        forall|d: Seq<u8>| #[trigger] g1.contains_digest(d) ==> g2.contains_digest(d),
    ensures
        missing_upto(st, g2, t) <= missing_upto(st, g1, t),
    decreases t,
{
    if t > 0 {
        lemma_missing_monotone(st, g1, g2, t - 1);
    }
}

/// Inserting a stored tree's digest strictly lowers the count.
proof fn lemma_missing_strict(st: TreeStore, g1: ReverseGraph, g2: ReverseGraph, t: int, s: int)
    requires
        forall|d: Seq<u8>| #[trigger] g1.contains_digest(d) ==> g2.contains_digest(d),
        0 <= s < t,
        !g1.contains_digest(st.key_at(s)),
        g2.contains_digest(st.key_at(s)),
    ensures
        missing_upto(st, g2, t) < missing_upto(st, g1, t),
    decreases t,
{
    if s == t - 1 {
        lemma_missing_monotone(st, g1, g2, t - 1);
    } else {
        lemma_missing_strict(st, g1, g2, t - 1, s);
    }
}

/// No forward step lands on a commit digest: commits are only roots.
proof fn lemma_no_step_into_commit(cs: Seq<CommitInfo>, st: TreeStore, x: Seq<u8>, d: Seq<u8>)
    requires
        source_ok(cs, st),
        is_commit(cs, d),
    ensures
        !fwd_step(cs, st, x, d),
{
    let c = choose|c: int| 0 <= c < cs.len() && (#[trigger] cs[c]).commit@ == d;
    if fwd_step(cs, st, x, d) {
        if exists|c2: int|
            0 <= c2 < cs.len() && (#[trigger] cs[c2]).commit@ == x && cs[c2].root_tree@ == d {
            let c2 = choose|c2: int|
                0 <= c2 < cs.len() && (#[trigger] cs[c2]).commit@ == x && cs[c2].root_tree@ == d;
            assert(cs[c].commit@ != cs[c2].root_tree@);
        } else {
            let t = choose|t: int|
                0 <= t < st.tree_count() && #[trigger] st.key_at(t) == x && entry_ref(
                    st.entries_at(t),
                    d,
                );
            let k = choose|k: int|
                0 <= k < st.entries_at(t).len() && (#[trigger] st.entries_at(t)[k]).digest@ == d
                    && (st.entries_at(t)[k].kind is Tree || st.entries_at(t)[k].kind is Blob);
            assert(cs[c].commit@ != st.entries_at(t)[k].digest@);
        }
    }
}

/// A commit digest is never the target of a forward walk.
proof fn lemma_no_walk_into_commit(cs: Seq<CommitInfo>, st: TreeStore, x: Seq<u8>, d: Seq<u8>)
    requires
        source_ok(cs, st),
        is_commit(cs, d),
    ensures
        !fwd_plus(cs, st, x, d),
{
    if fwd_plus(cs, st, x, d) {
        let p = choose|p: Seq<Seq<u8>>|
            fwd_path(cs, st, p) && p.len() >= 2 && p.first() == x && p.last() == d;
        assert(fwd_step(cs, st, p[p.len() - 2], p[p.len() - 1]));
        lemma_no_step_into_commit(cs, st, p[p.len() - 2], d);
    }
}

/// Extending a forward walk by one step keeps it a walk.
proof fn lemma_fwd_snoc(cs: Seq<CommitInfo>, st: TreeStore, x: Seq<u8>, y: Seq<u8>, z: Seq<u8>)
    requires
        x == y || fwd_plus(cs, st, x, y),
        fwd_step(cs, st, y, z),
    ensures
        fwd_plus(cs, st, x, z),
{
    if x == y {
        let p = seq![y, z];
        assert(p.len() == 2 && p.first() == x && p.last() == z);
        assert forall|k: int| 0 <= k < p.len() - 1 implies fwd_step(
            cs,
            st,
            #[trigger] p[k],
            p[k + 1],
        ) by {
            assert(p[0] == y && p[1] == z);
        }
        assert(fwd_path(cs, st, p));
    } else {
        let p = choose|p: Seq<Seq<u8>>|
            fwd_path(cs, st, p) && p.len() >= 2 && p.first() == x && p.last() == y;
        let p2 = p.push(z);
        assert forall|k: int| 0 <= k < p2.len() - 1 implies fwd_step(
            cs,
            st,
            #[trigger] p2[k],
            p2[k + 1],
        ) by {
            if k < p.len() - 1 {
                assert(p2[k] == p[k] && p2[k + 1] == p[k + 1]);
            } else {
                assert(p2[k] == p.last() && p2[k + 1] == z);
            }
        }
        assert(fwd_path(cs, st, p2));
        assert(p2.first() == x && p2.last() == z);
    }
}

/// The state in the middle of expanding tree `sidx` (whose vertex is
/// `tid`): the builder invariant holds except that `sidx` itself is
/// only expanded up to entry `k`.
pub open spec fn expand_inv(
    g: ReverseGraph,
    st: TreeStore,
    work: Seq<(usize, usize)>,
    cs: Seq<CommitInfo>,
    processed: int,
    tid: usize,
    sidx: usize,
    k: int,
) -> bool {
    &&& g.wf()
    &&& 0 <= processed <= cs.len()
    &&& (sidx as int) < st.tree_count()
    &&& (tid as int) < g.vert_count()
    &&& g.digest_at(tid as int) == st.key_at(sidx as int)
    &&& 0 <= k <= st.entries_at(sidx as int).len()
    &&& forall|i: int|
        0 <= i < work.len() ==> ((#[trigger] work[i]).0 as int) < g.vert_count() && (
        work[i].1 as int) < st.tree_count() && g.digest_at(work[i].0 as int) == st.key_at(
            work[i].1 as int,
        )
    &&& forall|j: int|
        0 <= j < g.vert_count() ==> ((#[trigger] g.edges_at(j)).len() == 0 <==> is_commit_upto(
            cs,
            processed,
            g.digest_at(j),
        ))
    &&& forall|j: int, k2: int|
        0 <= j < g.vert_count() && 0 <= k2 < g.edges_at(j).len() ==> fwd_step(
            cs,
            st,
            g.digest_at((#[trigger] g.edges_at(j)[k2]) as int),
            g.digest_at(j),
        )
    &&& forall|j: int|
        0 <= j < g.vert_count() ==> is_commit_upto(cs, processed, #[trigger] g.digest_at(j)) || (
        exists|c: int|
            0 <= c < processed && fwd_plus(cs, st, (#[trigger] cs[c]).commit@, g.digest_at(j)))
    &&& forall|t: int|
        0 <= t < st.tree_count() && t != sidx && g.contains_digest(#[trigger] st.key_at(t))
            ==> in_work(g, work, st.key_at(t)) || expanded(g, st, t)
    &&& forall|k2: int|
        0 <= k2 < k && ((#[trigger] st.entries_at(sidx as int)[k2]).kind is Tree || st.entries_at(
            sidx as int,
        )[k2].kind is Blob) ==> g.contains_digest(st.entries_at(sidx as int)[k2].digest@)
            && g.edges_at(g.id_of(st.entries_at(sidx as int)[k2].digest@) as int).contains(tid)
    &&& forall|c: int|
        0 <= c < processed ==> g.contains_digest((#[trigger] cs[c]).commit@) && g.contains_digest(
            cs[c].root_tree@,
        ) && g.edges_at(g.id_of(cs[c].root_tree@) as int).contains(g.id_of(cs[c].commit@))
    &&& forall|d: Seq<u8>|
        g.contains_digest(d) && #[trigger] tree_referenced(cs, st, d) ==> st.has_tree(d)
}

/// How one `insert_parent_get_new_child_id` call changes the graph:
/// `ci` is the child's vertex id, `some` whether the child was new.
pub open spec fn ins_frame(
    gpre: ReverseGraph,
    g: ReverseGraph,
    parent: usize,
    child: Seq<u8>,
    some: bool,
    ci: int,
) -> bool {
    &&& gpre.wf()
    &&& g.wf()
    &&& (parent as int) < gpre.vert_count()
    &&& forall|x: Seq<u8>|
        x != child ==> ((#[trigger] g.contains_digest(x)) <==> gpre.contains_digest(x))
    &&& forall|x: Seq<u8>|
        x != child && gpre.contains_digest(x) ==> (#[trigger] g.id_of(x)) == gpre.id_of(x)
    &&& g.contains_digest(child)
    &&& g.id_of(child) == ci
    &&& 0 <= ci < g.vert_count()
    &&& g.digest_at(ci) == child
    &&& forall|i: int|
        0 <= i < gpre.vert_count() ==> (#[trigger] g.digest_at(i)) == gpre.digest_at(i)
    &&& if some {
        &&& !gpre.contains_digest(child)
        &&& ci == gpre.vert_count()
        &&& g.vert_count() == gpre.vert_count() + 1
        &&& g.edges_at(ci) == seq![parent]
        &&& forall|i: int|
            0 <= i < gpre.vert_count() ==> (#[trigger] g.edges_at(i)) == gpre.edges_at(i)
    } else {
        &&& gpre.contains_digest(child)
        &&& ci == gpre.id_of(child)
        &&& g.vert_count() == gpre.vert_count()
        &&& g.edges_at(ci) == gpre.edges_at(ci).push(parent)
        &&& forall|i: int|
            0 <= i < gpre.vert_count() && i != ci ==> (#[trigger] g.edges_at(i)) == gpre.edges_at(
                i,
            )
    }
}

/// After one reverse-edge insert for a followed entry, the per-vertex
/// builder facts still hold: roots are exactly the processed commits,
/// every edge mirrors a forward reference, every vertex descends from
/// a processed commit, and the processed commits stay wired.
#[verifier::rlimit(100)]
proof fn lemma_step_graph(
    gpre: ReverseGraph,
    g: ReverseGraph,
    st: TreeStore,
    cs: Seq<CommitInfo>,
    processed: int,
    parent: usize,
    dnew: Seq<u8>,
    some: bool,
    ci: int,
)
    requires
        st.wf(),
        source_ok(cs, st),
        0 <= processed <= cs.len(),
        forall|j: int|
            0 <= j < gpre.vert_count() ==> ((#[trigger] gpre.edges_at(j)).len() == 0
                <==> is_commit_upto(cs, processed, gpre.digest_at(j))),
        forall|j: int, k2: int|
            0 <= j < gpre.vert_count() && 0 <= k2 < gpre.edges_at(j).len() ==> fwd_step(
                cs,
                st,
                gpre.digest_at((#[trigger] gpre.edges_at(j)[k2]) as int),
                gpre.digest_at(j),
            ),
        forall|j: int|
            0 <= j < gpre.vert_count() ==> is_commit_upto(
                cs,
                processed,
                #[trigger] gpre.digest_at(j),
            ) || (exists|c: int|
                0 <= c < processed && fwd_plus(
                    cs,
                    st,
                    (#[trigger] cs[c]).commit@,
                    gpre.digest_at(j),
                )),
        ins_frame(gpre, g, parent, dnew, some, ci),
        fwd_step(cs, st, gpre.digest_at(parent as int), dnew),
        !is_commit(cs, dnew),
        exists|c: int| 0 <= c < processed && fwd_plus(cs, st, (#[trigger] cs[c]).commit@, dnew),
    ensures
        forall|j: int|
            0 <= j < g.vert_count() ==> ((#[trigger] g.edges_at(j)).len() == 0 <==> is_commit_upto(
                cs,
                processed,
                g.digest_at(j),
            )),
        forall|j: int, k2: int|
            0 <= j < g.vert_count() && 0 <= k2 < g.edges_at(j).len() ==> fwd_step(
                cs,
                st,
                g.digest_at((#[trigger] g.edges_at(j)[k2]) as int),
                g.digest_at(j),
            ),
        forall|j: int|
            0 <= j < g.vert_count() ==> is_commit_upto(cs, processed, #[trigger] g.digest_at(j))
                || (exists|c: int|
                0 <= c < processed && fwd_plus(cs, st, (#[trigger] cs[c]).commit@, g.digest_at(j))),
{
    gpre.lemma_wf_edge_bounds();
    assert forall|j: int|
        0 <= j < g.vert_count() implies ((#[trigger] g.edges_at(j)).len() == 0 <==> is_commit_upto(
        cs,
        processed,
        g.digest_at(j),
    )) by {
        if is_commit_upto(cs, processed, g.digest_at(j)) {
            assert(is_commit(cs, g.digest_at(j)));
        }
        if j == ci {
            assert(!is_commit_upto(cs, processed, dnew)) by {
                if is_commit_upto(cs, processed, dnew) {
                    assert(is_commit(cs, dnew));
                }
            }
            if !some {
                assert(gpre.digest_at(ci) == dnew);
                assert(!is_commit_upto(cs, processed, gpre.digest_at(ci)));
                assert(gpre.edges_at(ci).len() > 0);
                assert(g.edges_at(ci).len() > 0);
            } else {
                assert(g.edges_at(j).len() == 1);
            }
        } else {
            assert(g.digest_at(j) == gpre.digest_at(j));
            assert(g.edges_at(j) == gpre.edges_at(j));
        }
    }
    assert forall|j: int, k2: int|
        0 <= j < g.vert_count() && 0 <= k2 < g.edges_at(j).len() implies fwd_step(
        cs,
        st,
        g.digest_at((#[trigger] g.edges_at(j)[k2]) as int),
        g.digest_at(j),
    ) by {
        if j == ci && k2 == g.edges_at(j).len() - 1 {
            assert(g.edges_at(j)[k2] == parent);
            assert(g.digest_at(parent as int) == gpre.digest_at(parent as int));
        } else {
            assert(0 <= j < gpre.vert_count());
            assert(g.edges_at(j)[k2] == gpre.edges_at(j)[k2]);
            let tgt = gpre.edges_at(j)[k2];
            assert((tgt as int) < gpre.vert_count());
            assert(fwd_step(cs, st, gpre.digest_at(tgt as int), gpre.digest_at(j)));
            assert(g.digest_at(tgt as int) == gpre.digest_at(tgt as int));
            assert(g.digest_at(j) == gpre.digest_at(j));
        }
    }
    assert forall|j: int|
        0 <= j < g.vert_count() implies is_commit_upto(cs, processed, #[trigger] g.digest_at(j))
        || (exists|c: int|
        0 <= c < processed && fwd_plus(cs, st, (#[trigger] cs[c]).commit@, g.digest_at(j))) by {
        if some && j == ci {
            assert(g.digest_at(j) == dnew);
        } else {
            assert(g.digest_at(j) == gpre.digest_at(j));
            assert(is_commit_upto(cs, processed, gpre.digest_at(j)) || (exists|c: int|
                0 <= c < processed && fwd_plus(
                    cs,
                    st,
                    (#[trigger] cs[c]).commit@,
                    gpre.digest_at(j),
                )));
        }
    }
}

/// After one reverse-edge insert of a non-commit digest, the wiring of
/// the processed commits is untouched.
#[verifier::rlimit(100)]
proof fn lemma_step_commits(
    gpre: ReverseGraph,
    g: ReverseGraph,
    st: TreeStore,
    cs: Seq<CommitInfo>,
    processed: int,
    parent: usize,
    dnew: Seq<u8>,
    some: bool,
    ci: int,
)
    requires
        0 <= processed <= cs.len(),
        forall|c: int|
            0 <= c < processed ==> gpre.contains_digest((#[trigger] cs[c]).commit@)
                && gpre.contains_digest(cs[c].root_tree@) && gpre.edges_at(
                gpre.id_of(cs[c].root_tree@) as int,
            ).contains(gpre.id_of(cs[c].commit@)),
        ins_frame(gpre, g, parent, dnew, some, ci),
        !is_commit(cs, dnew),
    ensures
        forall|c: int|
            0 <= c < processed ==> g.contains_digest((#[trigger] cs[c]).commit@)
                && g.contains_digest(cs[c].root_tree@) && g.edges_at(
                g.id_of(cs[c].root_tree@) as int,
            ).contains(g.id_of(cs[c].commit@)),
{
    gpre.lemma_wf_edge_bounds();
    assert forall|c: int|
        0 <= c < processed implies g.contains_digest((#[trigger] cs[c]).commit@)
        && g.contains_digest(cs[c].root_tree@) && g.edges_at(
        g.id_of(cs[c].root_tree@) as int,
    ).contains(g.id_of(cs[c].commit@)) by {
        assert(gpre.contains_digest(cs[c].commit@));
        assert(gpre.contains_digest(cs[c].root_tree@));
        assert(cs[c].commit@ != dnew) by {
            if cs[c].commit@ == dnew {
                assert(is_commit(cs, dnew));
            }
        }
        assert(g.id_of(cs[c].commit@) == gpre.id_of(cs[c].commit@));
        let rid = gpre.id_of(cs[c].root_tree@) as int;
        let cid0 = gpre.id_of(cs[c].commit@);
        assert(gpre.edges_at(rid).contains(cid0));
        if cs[c].root_tree@ == dnew {
            assert(!some);
            assert(rid == ci);
            let ix = choose|ix: int|
                0 <= ix < gpre.edges_at(rid).len() && gpre.edges_at(rid)[ix] == cid0;
            assert(g.edges_at(rid)[ix] == cid0);
            assert(g.edges_at(rid).contains(cid0));
        } else {
            gpre.lemma_id_of(cs[c].root_tree@);
            assert(gpre.digest_at(rid) == cs[c].root_tree@);
            assert(rid != ci);
            assert(g.edges_at(rid) == gpre.edges_at(rid));
            assert(g.id_of(cs[c].root_tree@) == gpre.id_of(cs[c].root_tree@));
        }
    }
}

/// After one reverse-edge insert for a followed entry, every contained
/// tree digest is still pending or expanded, and the tree being
/// expanded is now done up to entry `k + 1`.
#[verifier::rlimit(100)]
proof fn lemma_step_trees(
    gpre: ReverseGraph,
    g: ReverseGraph,
    st: TreeStore,
    cs: Seq<CommitInfo>,
    dnew: Seq<u8>,
    exc: int,
    workpre: Seq<(usize, usize)>,
    work: Seq<(usize, usize)>,
    parent: usize,
    some: bool,
    ci: int,
)
    requires
        st.wf(),
        source_ok(cs, st),
        ins_frame(gpre, g, parent, dnew, some, ci),
        forall|i: int|
            0 <= i < workpre.len() ==> ((#[trigger] workpre[i]).0 as int) < gpre.vert_count() && (
            workpre[i].1 as int) < st.tree_count() && gpre.digest_at(workpre[i].0 as int)
                == st.key_at(workpre[i].1 as int),
        forall|t: int|
            0 <= t < st.tree_count() && t != exc && gpre.contains_digest(#[trigger] st.key_at(t))
                ==> in_work(gpre, workpre, st.key_at(t)) || expanded(gpre, st, t),
        workpre.len() <= work.len(),
        forall|i: int| 0 <= i < workpre.len() ==> work[i] == #[trigger] workpre[i],
        some && st.has_tree(dnew) ==> in_work(g, work, dnew),
    ensures
        forall|t: int|
            0 <= t < st.tree_count() && t != exc && g.contains_digest(#[trigger] st.key_at(t))
                ==> in_work(g, work, st.key_at(t)) || expanded(g, st, t),
{
    gpre.lemma_wf_edge_bounds();
    assert forall|t: int|
        0 <= t < st.tree_count() && t != exc && g.contains_digest(#[trigger] st.key_at(t)) implies
        in_work(g, work, st.key_at(t)) || expanded(g, st, t) by {
        if st.key_at(t) == dnew && some {
            assert(st.has_tree(dnew));
            assert(in_work(g, work, st.key_at(t)));
        } else {
            assert(gpre.contains_digest(st.key_at(t)));
            if in_work(gpre, workpre, st.key_at(t)) {
                let i = choose|i: int|
                    0 <= i < workpre.len() && gpre.digest_at((#[trigger] workpre[i]).0 as int)
                        == st.key_at(t);
                assert(work[i] == workpre[i]);
                assert((workpre[i].0 as int) < gpre.vert_count());
                assert(g.digest_at((work[i]).0 as int) == st.key_at(t));
                assert(in_work(g, work, st.key_at(t)));
            } else {
                assert(expanded(gpre, st, t));
                assert forall|k2: int|
                    0 <= k2 < st.entries_at(t).len() && ((#[trigger] st.entries_at(t)[k2]).kind
                        is Tree || st.entries_at(t)[k2].kind is Blob) implies g.contains_digest(
                    st.entries_at(t)[k2].digest@,
                ) && g.edges_at(g.id_of(st.entries_at(t)[k2].digest@) as int).contains(
                    g.id_of(st.key_at(t)),
                ) by {
                    let dd = st.entries_at(t)[k2].digest@;
                    let pk = gpre.id_of(st.key_at(t));
                    assert(gpre.contains_digest(dd));
                    assert(gpre.edges_at(gpre.id_of(dd) as int).contains(pk));
                    assert(st.key_at(t) != dnew || !some);
                    assert(g.id_of(st.key_at(t)) == pk);
                    if dd == dnew {
                        assert(!some);
                        assert(g.id_of(dd) == gpre.id_of(dd) && gpre.id_of(dd) == ci);
                        let ix = choose|ix: int|
                            0 <= ix < gpre.edges_at(ci).len() && gpre.edges_at(ci)[ix] == pk;
                        assert(g.edges_at(ci)[ix] == pk);
                        assert(g.edges_at(ci).contains(pk));
                    } else {
                        assert(g.id_of(dd) == gpre.id_of(dd));
                        gpre.lemma_id_of(dd);
                        let di = gpre.id_of(dd) as int;
                        if di == ci && !some {
                            let ix = choose|ix: int|
                                0 <= ix < gpre.edges_at(ci).len() && gpre.edges_at(ci)[ix] == pk;
                            assert(g.edges_at(ci)[ix] == pk);
                            assert(g.edges_at(ci).contains(pk));
                        } else {
                            assert(gpre.digest_at(di) == dd);
                            assert(di != ci);
                            assert(g.edges_at(di) == gpre.edges_at(di));
                        }
                    }
                }
                assert(expanded(g, st, t));
            }
        }
    }
}

/// After inserting the reverse edge for entry `k`, the tree being
/// expanded is done up to entry `k + 1`.
#[verifier::rlimit(100)]
proof fn lemma_step_partial(
    gpre: ReverseGraph,
    g: ReverseGraph,
    st: TreeStore,
    tid: usize,
    sidx: usize,
    k: int,
    some: bool,
    ci: int,
)
    requires
        st.wf(),
        (sidx as int) < st.tree_count(),
        0 <= k < st.entries_at(sidx as int).len(),
        st.entries_at(sidx as int)[k].kind is Tree || st.entries_at(sidx as int)[k].kind is Blob,
        ins_frame(gpre, g, tid, st.entries_at(sidx as int)[k].digest@, some, ci),
        forall|k2: int|
            0 <= k2 < k && ((#[trigger] st.entries_at(sidx as int)[k2]).kind is Tree
                || st.entries_at(sidx as int)[k2].kind is Blob) ==> gpre.contains_digest(
                st.entries_at(sidx as int)[k2].digest@,
            ) && gpre.edges_at(gpre.id_of(st.entries_at(sidx as int)[k2].digest@) as int).contains(
                tid,
            ),
    ensures
        forall|k2: int|
            0 <= k2 < k + 1 && ((#[trigger] st.entries_at(sidx as int)[k2]).kind is Tree
                || st.entries_at(sidx as int)[k2].kind is Blob) ==> g.contains_digest(
                st.entries_at(sidx as int)[k2].digest@,
            ) && g.edges_at(g.id_of(st.entries_at(sidx as int)[k2].digest@) as int).contains(tid),
{
    let dnew = st.entries_at(sidx as int)[k].digest@;
    gpre.lemma_wf_edge_bounds();
    assert forall|k2: int|
        0 <= k2 < k + 1 && ((#[trigger] st.entries_at(sidx as int)[k2]).kind is Tree
            || st.entries_at(sidx as int)[k2].kind is Blob) implies g.contains_digest(
        st.entries_at(sidx as int)[k2].digest@,
    ) && g.edges_at(g.id_of(st.entries_at(sidx as int)[k2].digest@) as int).contains(tid) by {
        let dd = st.entries_at(sidx as int)[k2].digest@;
        if k2 < k {
            assert(gpre.contains_digest(dd));
            assert(gpre.edges_at(gpre.id_of(dd) as int).contains(tid));
            if dd == dnew {
                assert(!some);
                let ix = choose|ix: int|
                    0 <= ix < gpre.edges_at(ci).len() && gpre.edges_at(ci)[ix] == tid;
                assert(g.edges_at(ci)[ix] == tid);
                assert(g.edges_at(ci).contains(tid));
            } else {
                assert(g.id_of(dd) == gpre.id_of(dd));
                gpre.lemma_id_of(dd);
                assert(gpre.digest_at(gpre.id_of(dd) as int) == dd);
                let di = gpre.id_of(dd) as int;
                assert(di != ci) by {
                    if some {
                        assert(di < gpre.vert_count());
                    } else {
                        assert(gpre.digest_at(ci) == dnew);
                    }
                }
                assert(g.edges_at(di) == gpre.edges_at(di));
            }
        } else {
            assert(dd == dnew);
            if some {
                assert(g.edges_at(ci) == seq![tid]);
                assert(g.edges_at(ci)[0] == tid);
            } else {
                assert(g.edges_at(ci)[g.edges_at(ci).len() - 1] == tid);
            }
            assert(g.edges_at(ci).contains(tid));
        }
    }
}

/// Handles one entry of the tree being expanded: followed entries get
/// a reverse edge, and a newly seen child tree is stacked.
#[verifier::rlimit(60)]
fn insert_entry(
    g: &mut ReverseGraph,
    store: &TreeStore,
    work: &mut Vec<(usize, usize)>,
    tid: usize,
    sidx: usize,
    k: usize,
    Ghost(cs): Ghost<Seq<CommitInfo>>,
    Ghost(processed): Ghost<int>,
) -> (r: Result<(), BuildError>)
    requires
        store.wf(),
        source_ok(cs, *store),
        expand_inv(*old(g), *store, old(work)@, cs, processed, tid, sidx, k as int),
        (k as int) < store.entries_at(sidx as int).len(),
    ensures
        r is Ok ==> expand_inv(*final(g), *store, final(work)@, cs, processed, tid, sidx, k + 1),
        r is Ok ==> missing_trees(*store, *final(g)) + final(work)@.len() <= missing_trees(
            *store,
            *old(g),
        ) + old(work)@.len(),
        r matches Err(BuildError::MissingTree(d)) ==> !store.has_tree(d@) && tree_referenced(
            cs,
            *store,
            d@,
        ),
{
    let e = store.entry_at(sidx, k);
    let is_tree = match e.kind {
        Kind::Tree => true,
        _ => false,
    };
    let is_blob = match e.kind {
        Kind::Blob => true,
        _ => false,
    };
    if !(is_tree || is_blob) {
        proof {
            assert(expand_inv(*g, *store, work@, cs, processed, tid, sidx, k + 1));
        }
        return Ok(());
    }
    let ghost gpre = *g;
    let ghost workpre = work@;
    proof {
        assert(entry_ref(store.entries_at(sidx as int), e.digest@));
        assert(fwd_step(cs, *store, store.key_at(sidx as int), e.digest@)) by {
            assert(store.key_at(sidx as int) == store.key_at(sidx as int) && entry_ref(
                store.entries_at(sidx as int),
                e.digest@,
            ));
        }
        assert(!is_commit(cs, e.digest@)) by {
            if is_commit(cs, e.digest@) {
                let c = choose|c: int| 0 <= c < cs.len() && (#[trigger] cs[c]).commit@ == e.digest@;
                assert(cs[c].commit@ != store.entries_at(sidx as int)[k as int].digest@);
            }
        }
        assert(exists|c: int|
            0 <= c < processed && fwd_plus(cs, *store, (#[trigger] cs[c]).commit@, e.digest@)) by {
            let dt = g.digest_at(tid as int);
            assert(!is_commit_upto(cs, processed, dt)) by {
                if is_commit_upto(cs, processed, dt) {
                    let c = choose|c: int|
                        0 <= c < processed && c < cs.len() && (#[trigger] cs[c]).commit@ == dt;
                    assert(cs[c].commit@ != store.key_at(sidx as int));
                }
            }
            let c = choose|c: int|
                0 <= c < processed && fwd_plus(cs, *store, (#[trigger] cs[c]).commit@, dt);
            lemma_fwd_snoc(cs, *store, cs[c].commit@, dt, e.digest@);
        }
    }
    let ins = g.insert_parent_get_new_child_id(tid, e.digest);
    let ghost some = ins is Some;
    let ghost ci: int = if some {
        gpre.vert_count() as int
    } else {
        gpre.id_of(e.digest@) as int
    };
    proof {
        if !some {
            gpre.lemma_id_of(e.digest@);
        }
        assert(ins_frame(gpre, *g, tid, e.digest@, some, ci));
    }
    match ins {
        None => {
            proof {
                lemma_missing_monotone(*store, gpre, *g, store.tree_count() as int);
            }
        },
        Some(nid) => {
            if is_tree {
                match store.find_tree(&e.digest) {
                    None => {
                        proof {
                            assert(tree_referenced(cs, *store, e.digest@)) by {
                                assert(0 <= sidx < store.tree_count() && 0 <= k
                                    < store.entries_at(sidx as int).len() && (
                                #[trigger] store.entries_at(sidx as int)[k as int]).digest@
                                    == e.digest@ && store.entries_at(
                                    sidx as int,
                                )[k as int].kind is Tree);
                            }
                        }
                        return Err(BuildError::MissingTree(e.digest));
                    },
                    Some(s2) => {
                        work.push((nid, s2));
                        proof {
                            lemma_missing_strict(
                                *store,
                                gpre,
                                *g,
                                store.tree_count() as int,
                                s2 as int,
                            );
                            assert(work@[work@.len() - 1] == (nid, s2));
                            assert(g.digest_at(nid as int) == store.key_at(s2 as int));
                            assert(in_work(*g, work@, e.digest@));
                        }
                    },
                }
            } else {
                proof {
                    assert(!store.has_tree(e.digest@)) by {
                        assert((#[trigger] store.entries_at(sidx as int)[k as int]).kind is Blob);
                    }
                    lemma_missing_monotone(*store, gpre, *g, store.tree_count() as int);
                }
            }
        },
    }
    proof {
        assert(fwd_step(cs, *store, gpre.digest_at(tid as int), e.digest@));
        lemma_step_graph(gpre, *g, *store, cs, processed, tid, e.digest@, some, ci);
        lemma_step_commits(gpre, *g, *store, cs, processed, tid, e.digest@, some, ci);
        assert(some && store.has_tree(e.digest@) ==> in_work(*g, work@, e.digest@)) by {
            if some && store.has_tree(e.digest@) {
                assert(is_tree) by {
                    if !is_tree {
                        assert(!store.has_tree(e.digest@));
                    }
                }
            }
        }
        lemma_step_trees(
            gpre,
            *g,
            *store,
            cs,
            e.digest@,
            sidx as int,
            workpre,
            work@,
            tid,
            some,
            ci,
        );
        lemma_step_partial(gpre, *g, *store, tid, sidx, k as int, some, ci);
        assert forall|i: int|
            0 <= i < work@.len() implies ((#[trigger] work@[i]).0 as int) < g.vert_count() && (
        work@[i].1 as int) < store.tree_count() && g.digest_at(work@[i].0 as int) == store.key_at(
            work@[i].1 as int,
        ) by {
            if i < workpre.len() {
                assert(work@[i] == workpre[i]);
                assert(gpre.digest_at(workpre[i].0 as int) == store.key_at(workpre[i].1 as int));
                assert((workpre[i].0 as int) < gpre.vert_count());
                assert(g.digest_at(workpre[i].0 as int) == gpre.digest_at(workpre[i].0 as int));
            }
        }
        assert(expand_inv(*g, *store, work@, cs, processed, tid, sidx, k + 1));
    }
    Ok(())
}

/// Pops one pending tree and expands it: inserts a reverse edge for
/// every followed entry, stacking newly seen child trees for later
/// expansion.  Fails exactly on a tree-kind entry whose tree is not in
/// the store.
#[verifier::loop_isolation(false)]
#[verifier::rlimit(60)]
fn expand_one(
    g: &mut ReverseGraph,
    store: &TreeStore,
    work: &mut Vec<(usize, usize)>,
    Ghost(cs): Ghost<Seq<CommitInfo>>,
    Ghost(processed): Ghost<int>,
) -> (r: Result<(), BuildError>)
    requires
        store.wf(),
        source_ok(cs, *store),
        old(work)@.len() > 0,
        build_inv(*old(g), cs, *store, processed, old(work)@),
    ensures
        r is Ok ==> build_inv(*final(g), cs, *store, processed, final(work)@),
        r is Ok ==> missing_trees(*store, *final(g)) + final(work)@.len() < missing_trees(
            *store,
            *old(g),
        ) + old(work)@.len(),
        r matches Err(BuildError::MissingTree(d)) ==> !store.has_tree(d@) && tree_referenced(
            cs,
            *store,
            d@,
        ),
{
    let ghost prior_work = work@;
    let popped = work.pop().unwrap();
    let tid = popped.0;
    let sidx = popped.1;
    proof {
        store.lemma_keys_distinct();
        assert(popped == prior_work.last());
        assert(work@ =~= prior_work.drop_last());
        assert forall|t: int|
            0 <= t < store.tree_count() && t != sidx && g.contains_digest(
                #[trigger] store.key_at(t),
            ) && !expanded(*g, *store, t) implies in_work(*g, work@, store.key_at(t)) by {
            assert(in_work(*g, prior_work, store.key_at(t)));
            let i = choose|i: int|
                0 <= i < prior_work.len() && g.digest_at((#[trigger] prior_work[i]).0 as int)
                    == store.key_at(t);
            if i == prior_work.len() - 1 {
                assert(g.digest_at(tid as int) == store.key_at(sidx as int));
                assert(store.key_at(t) != store.key_at(sidx as int));
            } else {
                assert(work@[i] == prior_work[i]);
            }
        }
        assert(expand_inv(*g, *store, work@, cs, processed, tid, sidx, 0));
    }
    let m = store.entry_count(sidx);
    let ghost fuel0 = missing_trees(*store, *g) + work@.len();
    let mut k: usize = 0;
    while k < m
        invariant
            0 <= k <= m,
            m == store.entries_at(sidx as int).len(),
            expand_inv(*g, *store, work@, cs, processed, tid, sidx, k as int),
            missing_trees(*store, *g) + work@.len() <= fuel0,
        decreases m - k,
    {
        match insert_entry(g, store, work, tid, sidx, k, Ghost(cs), Ghost(processed)) {
            Ok(()) => {},
            Err(err) => {
                return Err(err);
            },
        }
        k = k + 1;
    }
    proof {
        store.lemma_keys_distinct();
        g.lemma_id_of_vertex(tid as int);
        assert(expanded(*g, *store, sidx as int)) by {
            assert(g.id_of(store.key_at(sidx as int)) == tid);
        }
        assert forall|t: int|
            0 <= t < store.tree_count() && g.contains_digest(#[trigger] store.key_at(t)) implies
            in_work(*g, work@, store.key_at(t)) || expanded(*g, *store, t) by {
            if t == sidx {
            }
        }
        assert(build_inv(*g, cs, *store, processed, work@));
    }
    Ok(())
}

/// How one `append` call changes the graph: a fresh vertex `cid` with
/// digest `d` and an empty parent list.
pub open spec fn app_frame(gpre: ReverseGraph, g: ReverseGraph, d: Seq<u8>, cid: int) -> bool {
    &&& gpre.wf()
    &&& g.wf()
    &&& !gpre.contains_digest(d)
    &&& cid == gpre.vert_count()
    &&& g.vert_count() == gpre.vert_count() + 1
    &&& g.digest_at(cid) == d
    &&& g.edges_at(cid).len() == 0
    &&& g.contains_digest(d)
    &&& g.id_of(d) == cid
    &&& forall|i: int| 0 <= i < gpre.vert_count() ==> (#[trigger] g.digest_at(i)) == gpre.digest_at(i)
    &&& forall|i: int| 0 <= i < gpre.vert_count() ==> (#[trigger] g.edges_at(i)) == gpre.edges_at(i)
    &&& forall|x: Seq<u8>| x != d ==> ((#[trigger] g.contains_digest(x)) <==> gpre.contains_digest(x))
    &&& forall|x: Seq<u8>|
        x != d && gpre.contains_digest(x) ==> (#[trigger] g.id_of(x)) == gpre.id_of(x)
}

/// Appending commit `c`'s vertex advances the builder invariant from
/// `c` processed commits to `c + 1`, except that the new commit's root
/// tree is not wired yet.
#[verifier::rlimit(100)]
proof fn lemma_append_commit(
    gpre: ReverseGraph,
    g: ReverseGraph,
    st: TreeStore,
    cs: Seq<CommitInfo>,
    c: int,
    cid: int,
)
    requires
        st.wf(),
        source_ok(cs, st),
        0 <= c < cs.len(),
        build_inv(gpre, cs, st, c, Seq::<(usize, usize)>::empty()),
        app_frame(gpre, g, cs[c].commit@, cid),
    ensures
        forall|j: int|
            0 <= j < g.vert_count() ==> ((#[trigger] g.edges_at(j)).len() == 0 <==> is_commit_upto(
                cs,
                c + 1,
                g.digest_at(j),
            )),
        forall|j: int, k2: int|
            0 <= j < g.vert_count() && 0 <= k2 < g.edges_at(j).len() ==> fwd_step(
                cs,
                st,
                g.digest_at((#[trigger] g.edges_at(j)[k2]) as int),
                g.digest_at(j),
            ),
        forall|j: int|
            0 <= j < g.vert_count() ==> is_commit_upto(cs, c + 1, #[trigger] g.digest_at(j)) || (
            exists|c2: int|
                0 <= c2 < c + 1 && fwd_plus(cs, st, (#[trigger] cs[c2]).commit@, g.digest_at(j))),
        forall|t: int|
            0 <= t < st.tree_count() && g.contains_digest(#[trigger] st.key_at(t)) ==> expanded(
                g,
                st,
                t,
            ),
        forall|c2: int|
            0 <= c2 < c ==> g.contains_digest((#[trigger] cs[c2]).commit@) && g.contains_digest(
                cs[c2].root_tree@,
            ) && g.edges_at(g.id_of(cs[c2].root_tree@) as int).contains(g.id_of(cs[c2].commit@)),
        g.contains_digest(cs[c].commit@),
        g.id_of(cs[c].commit@) == cid,
{
    gpre.lemma_wf_edge_bounds();
    let d = cs[c].commit@;
    assert forall|j: int|
        0 <= j < g.vert_count() implies ((#[trigger] g.edges_at(j)).len() == 0 <==> is_commit_upto(
        cs,
        c + 1,
        g.digest_at(j),
    )) by {
        if j == cid {
            assert(is_commit_upto(cs, c + 1, d)) by {
                assert(0 <= c < c + 1 && c < cs.len() && cs[c].commit@ == d);
            }
        } else {
            assert(g.digest_at(j) == gpre.digest_at(j) && g.edges_at(j) == gpre.edges_at(j));
            if is_commit_upto(cs, c + 1, g.digest_at(j)) && !is_commit_upto(
                cs,
                c,
                g.digest_at(j),
            ) {
                let c2 = choose|c2: int|
                    0 <= c2 < c + 1 && c2 < cs.len() && (#[trigger] cs[c2]).commit@ == g.digest_at(
                        j,
                    );
                assert(c2 == c);
                gpre.lemma_id_of_vertex(j);
                assert(gpre.contains_digest(d));
            }
        }
    }
    assert forall|j: int, k2: int|
        0 <= j < g.vert_count() && 0 <= k2 < g.edges_at(j).len() implies fwd_step(
        cs,
        st,
        g.digest_at((#[trigger] g.edges_at(j)[k2]) as int),
        g.digest_at(j),
    ) by {
        assert(j != cid);
        assert(g.edges_at(j) == gpre.edges_at(j));
        let tgt = gpre.edges_at(j)[k2];
        assert((tgt as int) < gpre.vert_count());
        assert(fwd_step(cs, st, gpre.digest_at(tgt as int), gpre.digest_at(j)));
        assert(g.digest_at(tgt as int) == gpre.digest_at(tgt as int));
    }
    assert forall|j: int|
        0 <= j < g.vert_count() implies is_commit_upto(cs, c + 1, #[trigger] g.digest_at(j)) || (
    exists|c2: int|
        0 <= c2 < c + 1 && fwd_plus(cs, st, (#[trigger] cs[c2]).commit@, g.digest_at(j))) by {
        if j == cid {
            assert(is_commit_upto(cs, c + 1, d));
        } else {
            assert(g.digest_at(j) == gpre.digest_at(j));
            if is_commit_upto(cs, c, gpre.digest_at(j)) {
                assert(is_commit_upto(cs, c + 1, g.digest_at(j)));
            } else {
                let c2 = choose|c2: int|
                    0 <= c2 < c && fwd_plus(cs, st, (#[trigger] cs[c2]).commit@, gpre.digest_at(j));
                assert(0 <= c2 < c + 1 && fwd_plus(cs, st, cs[c2].commit@, g.digest_at(j)));
            }
        }
    }
    assert forall|t: int|
        0 <= t < st.tree_count() && g.contains_digest(#[trigger] st.key_at(t)) implies expanded(
        g,
        st,
        t,
    ) by {
        assert(st.key_at(t) != d) by {
            assert(cs[c].commit@ != st.key_at(t));
        }
        assert(gpre.contains_digest(st.key_at(t)));
        assert(!in_work(gpre, Seq::<(usize, usize)>::empty(), st.key_at(t)));
        assert(expanded(gpre, st, t));
        assert forall|k2: int|
            0 <= k2 < st.entries_at(t).len() && ((#[trigger] st.entries_at(t)[k2]).kind is Tree
                || st.entries_at(t)[k2].kind is Blob) implies g.contains_digest(
            st.entries_at(t)[k2].digest@,
        ) && g.edges_at(g.id_of(st.entries_at(t)[k2].digest@) as int).contains(
            g.id_of(st.key_at(t)),
        ) by {
            let dd = st.entries_at(t)[k2].digest@;
            assert(gpre.contains_digest(dd));
            assert(dd != d) by {
                assert(cs[c].commit@ != st.entries_at(t)[k2].digest@);
            }
            gpre.lemma_id_of(dd);
            assert(g.id_of(dd) == gpre.id_of(dd));
            assert(g.edges_at(gpre.id_of(dd) as int) == gpre.edges_at(gpre.id_of(dd) as int));
            assert(g.id_of(st.key_at(t)) == gpre.id_of(st.key_at(t)));
        }
    }
    assert forall|c2: int|
        0 <= c2 < c implies g.contains_digest((#[trigger] cs[c2]).commit@) && g.contains_digest(
        cs[c2].root_tree@,
    ) && g.edges_at(g.id_of(cs[c2].root_tree@) as int).contains(g.id_of(cs[c2].commit@)) by {
        assert(gpre.contains_digest(cs[c2].commit@));
        assert(gpre.contains_digest(cs[c2].root_tree@));
        assert(cs[c2].commit@ != d) by {
            assert(cs[c2].commit@ != cs[c].commit@);
        }
        assert(cs[c2].root_tree@ != d) by {
            assert(cs[c].commit@ != cs[c2].root_tree@);
        }
        gpre.lemma_id_of(cs[c2].root_tree@);
        assert(g.edges_at(gpre.id_of(cs[c2].root_tree@) as int) == gpre.edges_at(
            gpre.id_of(cs[c2].root_tree@) as int,
        ));
    }
}

/// Appends one commit's vertex and wires its root tree, stacking the
/// root for expansion when it is newly seen.  Fails exactly when the
/// root tree is newly seen but not in the store.
#[verifier::rlimit(100)]
fn process_commit(
    g: &mut ReverseGraph,
    store: &TreeStore,
    work: &mut Vec<(usize, usize)>,
    info: CommitInfo,
    Ghost(cs): Ghost<Seq<CommitInfo>>,
    Ghost(c): Ghost<int>,
) -> (r: Result<(), BuildError>)
    requires
        store.wf(),
        source_ok(cs, *store),
        0 <= c < cs.len(),
        cs[c] == info,
        old(work)@.len() == 0,
        build_inv(*old(g), cs, *store, c, old(work)@),
    ensures
        r is Ok ==> build_inv(*final(g), cs, *store, c + 1, final(work)@),
        r matches Err(BuildError::MissingTree(d)) ==> !store.has_tree(d@) && tree_referenced(
            cs,
            *store,
            d@,
        ),
{
    proof {
        assert(old(work)@ =~= Seq::<(usize, usize)>::empty());
        assert(!g.contains_digest(info.commit@)) by {
            if g.contains_digest(info.commit@) {
                g.lemma_id_of(info.commit@);
                let j = g.id_of(info.commit@) as int;
                assert(g.digest_at(j) == info.commit@);
                assert(is_commit(cs, info.commit@)) by {
                    assert(0 <= c < cs.len() && cs[c].commit@ == info.commit@);
                }
                if is_commit_upto(cs, c, g.digest_at(j)) {
                    let c2 = choose|c2: int|
                        0 <= c2 < c && c2 < cs.len() && (#[trigger] cs[c2]).commit@ == info.commit@;
                    assert(cs[c2].commit@ != cs[c].commit@);
                } else {
                    let c2 = choose|c2: int|
                        0 <= c2 < c && fwd_plus(
                            cs,
                            *store,
                            (#[trigger] cs[c2]).commit@,
                            g.digest_at(j),
                        );
                    lemma_no_walk_into_commit(cs, *store, cs[c2].commit@, info.commit@);
                }
            }
        }
    }
    let ghost g0 = *g;
    let cid = g.append(info.commit);
    proof {
        assert(app_frame(g0, *g, cs[c].commit@, cid as int));
        lemma_append_commit(g0, *g, *store, cs, c, cid as int);
    }
    let ghost g1 = *g;
    proof {
        assert(!is_commit(cs, info.root_tree@)) by {
            if is_commit(cs, info.root_tree@) {
                let c2 = choose|c2: int|
                    0 <= c2 < cs.len() && (#[trigger] cs[c2]).commit@ == info.root_tree@;
                assert(cs[c2].commit@ != cs[c].root_tree@);
            }
        }
        assert(fwd_step(cs, *store, info.commit@, info.root_tree@)) by {
            assert(0 <= c < cs.len() && cs[c].commit@ == info.commit@ && cs[c].root_tree@
                == info.root_tree@);
        }
        lemma_fwd_snoc(cs, *store, info.commit@, info.commit@, info.root_tree@);
        assert(g1.digest_at(cid as int) == info.commit@);
    }
    let rins = g.insert_parent_get_new_child_id(cid, info.root_tree);
    let ghost some = rins is Some;
    let ghost ci: int = if some {
        g1.vert_count() as int
    } else {
        g1.id_of(info.root_tree@) as int
    };
    proof {
        if !some {
            g1.lemma_id_of(info.root_tree@);
        }
        assert(ins_frame(g1, *g, cid, info.root_tree@, some, ci));
    }
    match rins {
        None => {
        },
        Some(tid) => {
            match store.find_tree(&info.root_tree) {
                None => {
                    proof {
                        assert(tree_referenced(cs, *store, info.root_tree@)) by {
                            assert(0 <= c < cs.len() && (#[trigger] cs[c].root_tree)@
                                == info.root_tree@);
                        }
                    }
                    return Err(BuildError::MissingTree(info.root_tree));
                },
                Some(sidx) => {
                    work.push((tid, sidx));
                    proof {
                        assert(work@[0] == (tid, sidx));
                        assert(g.digest_at(tid as int) == store.key_at(sidx as int));
                        assert(in_work(*g, work@, info.root_tree@));
                    }
                },
            }
        },
    }
    proof {
        assert(fwd_step(cs, *store, g1.digest_at(cid as int), info.root_tree@));
        assert(exists|c2: int|
            0 <= c2 < c + 1 && fwd_plus(
                cs,
                *store,
                (#[trigger] cs[c2]).commit@,
                info.root_tree@,
            )) by {
            assert(0 <= c < c + 1 && fwd_plus(cs, *store, cs[c].commit@, info.root_tree@));
        }
        lemma_step_graph(g1, *g, *store, cs, c + 1, cid, info.root_tree@, some, ci);
        assert(some && store.has_tree(info.root_tree@) ==> in_work(*g, work@, info.root_tree@));
        lemma_step_trees(
            g1,
            *g,
            *store,
            cs,
            info.root_tree@,
            -1,
            Seq::<(usize, usize)>::empty(),
            work@,
            cid,
            some,
            ci,
        );
        lemma_step_commits(g1, *g, *store, cs, c, cid, info.root_tree@, some, ci);
        assert forall|c2: int|
            0 <= c2 < c + 1 implies g.contains_digest((#[trigger] cs[c2]).commit@)
            && g.contains_digest(cs[c2].root_tree@) && g.edges_at(
            g.id_of(cs[c2].root_tree@) as int,
        ).contains(g.id_of(cs[c2].commit@)) by {
            if c2 == c {
                assert(g.contains_digest(info.commit@)) by {
                    assert(info.commit@ != info.root_tree@);
                    assert(g1.contains_digest(info.commit@));
                }
                assert(g.id_of(info.commit@) == cid) by {
                    assert(info.commit@ != info.root_tree@);
                    assert(g1.id_of(info.commit@) == cid);
                }
                assert(g.contains_digest(info.root_tree@));
                assert(g.id_of(info.root_tree@) == ci);
                if some {
                    assert(g.edges_at(ci) == seq![cid]);
                    assert(g.edges_at(ci)[0] == cid);
                    assert(g.edges_at(ci).contains(cid));
                } else {
                    assert(g.edges_at(ci) == g1.edges_at(ci).push(cid));
                    assert(g.edges_at(ci)[g.edges_at(ci).len() - 1] == cid);
                    assert(g.edges_at(ci).contains(cid));
                }
            }
        }
        assert forall|i: int|
            0 <= i < work@.len() implies ((#[trigger] work@[i]).0 as int) < g.vert_count() && (
        work@[i].1 as int) < store.tree_count() && g.digest_at(work@[i].0 as int) == store.key_at(
            work@[i].1 as int,
        ) by {}
        assert(build_inv(*g, cs, *store, c + 1, work@));
    }
    Ok(())
}

/// Builds the reverse graph for a commit list against a tree store:
/// walks the commits in order, expands each root tree exactly once,
/// then records a reverse edge for every parent-child reference.  A
/// success owes completeness: every root tree is stored, and every
/// tree-kind entry of a tree the walk reached is stored too, so a
/// missing object inside a walked tree always surfaces as the error.
pub fn build(commits: &Vec<CommitInfo>, store: &TreeStore) -> (r: Result<ReverseGraph, BuildError>)
    requires
        store.wf(),
        source_ok(commits@, *store),
    ensures
        r matches Ok(g) ==> g.wf() && build_inv(
            g,
            commits@,
            *store,
            commits@.len() as int,
            Seq::<(usize, usize)>::empty(),
        ),
        r matches Ok(g) ==> forall|c: int|
            0 <= c < commits@.len() ==> store.has_tree((#[trigger] commits@[c]).root_tree@),
        r matches Ok(g) ==> forall|t: int, k: int|
            0 <= t < store.tree_count() && g.contains_digest(#[trigger] store.key_at(t)) && 0 <= k
                < store.entries_at(t).len() && (#[trigger] store.entries_at(t)[k]).kind is Tree
                ==> store.has_tree(store.entries_at(t)[k].digest@),
        r matches Err(e) ==> (e matches BuildError::MissingTree(d) && !store.has_tree(d@)
            && tree_referenced(commits@, *store, d@)),
{
    let ghost cs = commits@;
    let mut g = ReverseGraph::new();
    let mut work: Vec<(usize, usize)> = Vec::new();
    proof {
        assert(build_inv(g, cs, *store, 0, work@));
    }
    let n = commits.len();
    let mut c: usize = 0;
    while c < n
        invariant
            0 <= c <= n,
            n == cs.len(),
            cs == commits@,
            store.wf(),
            source_ok(cs, *store),
            work@.len() == 0,
            build_inv(g, cs, *store, c as int, work@),
        decreases n - c,
    {
        let info = commits[c];
        match process_commit(&mut g, store, &mut work, info, Ghost(cs), Ghost(c as int)) {
            Ok(()) => {},
            Err(BuildError::MissingTree(d)) => {
                return Err(BuildError::MissingTree(d));
            },
        }
        while work.len() != 0
            invariant
                store.wf(),
                source_ok(cs, *store),
                cs == commits@,
                0 <= c < cs.len(),
                build_inv(g, cs, *store, c + 1, work@),
            decreases missing_trees(*store, g) + work@.len(),
        {
            match expand_one(&mut g, store, &mut work, Ghost(cs), Ghost(c + 1)) {
                Ok(()) => {},
                Err(BuildError::MissingTree(d)) => {
                    return Err(BuildError::MissingTree(d));
                },
            }
        }
        c = c + 1;
    }
    proof {
        assert(work@ =~= Seq::<(usize, usize)>::empty());
        assert forall|c2: int|
            0 <= c2 < cs.len() implies store.has_tree((#[trigger] cs[c2]).root_tree@) by {
            assert(g.contains_digest(cs[c2].root_tree@));
            assert(tree_referenced(cs, *store, cs[c2].root_tree@)) by {
                assert(0 <= c2 < cs.len() && (#[trigger] cs[c2].root_tree)@ == cs[c2].root_tree@);
            }
        }
        assert forall|t: int, k: int|
            0 <= t < store.tree_count() && g.contains_digest(#[trigger] store.key_at(t)) && 0 <= k
                < store.entries_at(t).len() && (#[trigger] store.entries_at(t)[k]).kind
                is Tree implies store.has_tree(store.entries_at(t)[k].digest@) by {
            assert(!in_work(g, work@, store.key_at(t)));
            assert(expanded(g, *store, t));
            assert(g.contains_digest(store.entries_at(t)[k].digest@));
            assert(tree_referenced(cs, *store, store.entries_at(t)[k].digest@));
        }
    }
    Ok(g)
}

/// A walk along reverse edges mirrors a forward walk: the digest of
/// its end owns the digest of its start.
proof fn lemma_reverse_to_forward(g: ReverseGraph, cs: Seq<CommitInfo>, st: TreeStore, p: Seq<usize>)
    requires
        g.wf(),
        forall|j: int, k2: int|
            0 <= j < g.vert_count() && 0 <= k2 < g.edges_at(j).len() ==> fwd_step(
                cs,
                st,
                g.digest_at((#[trigger] g.edges_at(j)[k2]) as int),
                g.digest_at(j),
            ),
        g.path_ok(p),
    ensures
        g.digest_at(p.last() as int) == g.digest_at(p.first() as int) || fwd_plus(
            cs,
            st,
            g.digest_at(p.last() as int),
            g.digest_at(p.first() as int),
        ),
        p.len() >= 2 ==> fwd_plus(
            cs,
            st,
            g.digest_at(p.last() as int),
            g.digest_at(p.first() as int),
        ),
    decreases p.len(),
{
    if p.len() > 1 {
        let t = p.subrange(1, p.len() as int);
        assert forall|k: int| 0 <= k < t.len() - 1 implies g.edges_at(
            (#[trigger] t[k]) as int,
        ).contains(t[k + 1]) by {
            assert(t[k] == p[k + 1] && t[k + 1] == p[k + 2]);
        }
        assert(g.path_ok(t));
        lemma_reverse_to_forward(g, cs, st, t);
        assert(g.edges_at(p[0] as int).contains(p[1]));
        let k2 = choose|k2: int|
            0 <= k2 < g.edges_at(p[0] as int).len() && g.edges_at(p[0] as int)[k2] == p[1];
        assert(fwd_step(cs, st, g.digest_at(p[1] as int), g.digest_at(p[0] as int)));
        lemma_fwd_snoc(
            cs,
            st,
            g.digest_at(p.last() as int),
            g.digest_at(p[1] as int),
            g.digest_at(p[0] as int),
        );
    }
}

/// A forward walk starting at a contained digest mirrors a walk along
/// reverse edges back to its start, once the build is complete.
proof fn lemma_forward_to_reverse(
    g: ReverseGraph,
    cs: Seq<CommitInfo>,
    st: TreeStore,
    p: Seq<Seq<u8>>,
)
    requires
        g.wf(),
        st.wf(),
        forall|t: int|
            0 <= t < st.tree_count() && g.contains_digest(#[trigger] st.key_at(t)) ==> expanded(
                g,
                st,
                t,
            ),
        forall|c: int|
            0 <= c < cs.len() ==> g.contains_digest((#[trigger] cs[c]).commit@)
                && g.contains_digest(cs[c].root_tree@) && g.edges_at(
                g.id_of(cs[c].root_tree@) as int,
            ).contains(g.id_of(cs[c].commit@)),
        fwd_path(cs, st, p),
        g.contains_digest(p.first()),
    ensures
        g.contains_digest(p.last()),
        p.len() >= 2 ==> g.edges_at(g.id_of(p.last()) as int).contains(
            g.id_of(p[p.len() - 2]),
        ) && g.reach(g.id_of(p[p.len() - 2]), g.id_of(p.first())),
    decreases p.len(),
{
    if p.len() >= 2 {
        let pp = p.drop_last();
        assert forall|k: int| 0 <= k < pp.len() - 1 implies fwd_step(
            cs,
            st,
            #[trigger] pp[k],
            pp[k + 1],
        ) by {
            assert(pp[k] == p[k] && pp[k + 1] == p[k + 1]);
        }
        assert(fwd_path(cs, st, pp));
        assert(pp.first() == p.first());
        lemma_forward_to_reverse(g, cs, st, pp);
        let x = p[p.len() - 2];
        assert(pp.last() == x);
        assert(g.contains_digest(x));
        assert(fwd_step(cs, st, x, p.last()));
        if exists|c: int|
            0 <= c < cs.len() && (#[trigger] cs[c]).commit@ == x && cs[c].root_tree@ == p.last() {
            let c = choose|c: int|
                0 <= c < cs.len() && (#[trigger] cs[c]).commit@ == x && cs[c].root_tree@
                    == p.last();
            assert(g.contains_digest(p.last()));
            assert(g.edges_at(g.id_of(p.last()) as int).contains(g.id_of(x)));
        } else {
            let t = choose|t: int|
                0 <= t < st.tree_count() && #[trigger] st.key_at(t) == x && entry_ref(
                    st.entries_at(t),
                    p.last(),
                );
            assert(expanded(g, st, t));
            let k = choose|k: int|
                0 <= k < st.entries_at(t).len() && (#[trigger] st.entries_at(t)[k]).digest@
                    == p.last() && (st.entries_at(t)[k].kind is Tree || st.entries_at(
                    t,
                )[k].kind is Blob);
            assert(g.contains_digest(st.entries_at(t)[k].digest@));
            assert(g.edges_at(g.id_of(st.entries_at(t)[k].digest@) as int).contains(
                g.id_of(st.key_at(t)),
            ));
        }
        g.lemma_id_of(x);
        if pp.len() == 1 {
            g.lemma_reach_refl(g.id_of(x));
        } else {
            let x2 = pp[pp.len() - 2];
            assert(x2 == p[p.len() - 3]);
            g.lemma_id_of(p.first());
            g.lemma_reach_prepend(g.id_of(x), g.id_of(x2), g.id_of(p.first()));
        }
    }
}

/// What a finished build means: the graph answers a blob query with
/// exactly the commits that own the blob through the forward graph,
/// commit vertices are exactly the rootless ones, and the vertex set is
/// the commits plus everything they own.
pub proof fn lemma_build_semantics(g: ReverseGraph, cs: Seq<CommitInfo>, st: TreeStore)
    requires
        st.wf(),
        source_ok(cs, st),
        build_inv(g, cs, st, cs.len() as int, Seq::<(usize, usize)>::empty()),
    ensures
        forall|c: int|
            0 <= c < cs.len() ==> g.contains_digest((#[trigger] cs[c]).commit@) && g.edges_at(
                g.id_of(cs[c].commit@) as int,
            ).len() == 0,
        forall|j: int|
            0 <= j < g.vert_count() ==> ((#[trigger] g.edges_at(j)).len() == 0 <==> is_commit(
                cs,
                g.digest_at(j),
            )),
        forall|b: Seq<u8>, j: usize|
            g.answers(b, j) <==> ((j as int) < g.vert_count() && is_commit(
                cs,
                g.digest_at(j as int),
            ) && fwd_plus(cs, st, g.digest_at(j as int), b)),
        forall|d: Seq<u8>|
            g.contains_digest(d) <==> (is_commit(cs, d) || exists|c: int|
                0 <= c < cs.len() && fwd_plus(cs, st, (#[trigger] cs[c]).commit@, d)),
{
    g.lemma_wf_edge_bounds();
    assert forall|j: int|
        0 <= j < g.vert_count() implies ((#[trigger] g.edges_at(j)).len() == 0 <==> is_commit(
        cs,
        g.digest_at(j),
    )) by {
        assert(is_commit_upto(cs, cs.len() as int, g.digest_at(j)) <==> is_commit(
            cs,
            g.digest_at(j),
        ));
    }
    assert forall|c: int|
        0 <= c < cs.len() implies g.contains_digest((#[trigger] cs[c]).commit@) && g.edges_at(
        g.id_of(cs[c].commit@) as int,
    ).len() == 0 by {
        g.lemma_id_of(cs[c].commit@);
        let j = g.id_of(cs[c].commit@) as int;
        assert(is_commit(cs, g.digest_at(j)));
    }
    assert forall|t: int|
        0 <= t < st.tree_count() && g.contains_digest(#[trigger] st.key_at(t)) implies expanded(
        g,
        st,
        t,
    ) by {
        assert(!in_work(g, Seq::<(usize, usize)>::empty(), st.key_at(t)));
    }
    assert forall|b: Seq<u8>, j: usize|
        g.answers(b, j) <==> ((j as int) < g.vert_count() && is_commit(cs, g.digest_at(j as int))
            && fwd_plus(cs, st, g.digest_at(j as int), b)) by {
        if g.answers(b, j) {
            g.lemma_id_of(b);
            let bi = g.id_of(b);
            let q = choose|q: usize| #[trigger]
                g.edges_at(bi as int).contains(q) && g.reach(q, j);
            let pth = choose|pth: Seq<usize>|
                g.path_ok(pth) && pth.first() == q && pth.last() == j;
            assert((j as int) < g.vert_count());
            assert(is_commit(cs, g.digest_at(j as int)));
            lemma_reverse_to_forward(g, cs, st, pth);
            let k2 = choose|k2: int|
                0 <= k2 < g.edges_at(bi as int).len() && g.edges_at(bi as int)[k2] == q;
            assert(fwd_step(cs, st, g.digest_at(q as int), g.digest_at(bi as int)));
            assert(g.digest_at(bi as int) == b);
            lemma_fwd_snoc(cs, st, g.digest_at(j as int), g.digest_at(q as int), b);
        }
        if (j as int) < g.vert_count() && is_commit(cs, g.digest_at(j as int)) && fwd_plus(
            cs,
            st,
            g.digest_at(j as int),
            b,
        ) {
            let pth = choose|pth: Seq<Seq<u8>>|
                fwd_path(cs, st, pth) && pth.len() >= 2 && pth.first() == g.digest_at(j as int)
                    && pth.last() == b;
            g.lemma_id_of_vertex(j as int);
            lemma_forward_to_reverse(g, cs, st, pth);
            assert(g.contains_digest(b));
            g.lemma_id_of(b);
            let q = g.id_of(pth[pth.len() - 2]);
            assert(g.edges_at(g.id_of(b) as int).contains(q));
            assert(g.reach(q, g.id_of(g.digest_at(j as int))));
            assert(g.id_of(g.digest_at(j as int)) == j);
            assert(g.is_root(j));
            assert(g.answers_from(g.id_of(b), j));
        }
    }
    assert forall|d: Seq<u8>|
        g.contains_digest(d) <==> (is_commit(cs, d) || exists|c: int|
            0 <= c < cs.len() && fwd_plus(cs, st, (#[trigger] cs[c]).commit@, d)) by {
        if g.contains_digest(d) {
            g.lemma_id_of(d);
            let j = g.id_of(d) as int;
            assert(g.digest_at(j) == d);
            if is_commit_upto(cs, cs.len() as int, g.digest_at(j)) {
                assert(is_commit(cs, d));
            } else {
                assert(exists|c: int|
                    0 <= c < cs.len() && fwd_plus(cs, st, (#[trigger] cs[c]).commit@, d));
            }
        }
        if is_commit(cs, d) {
            let c = choose|c: int| 0 <= c < cs.len() && (#[trigger] cs[c]).commit@ == d;
            assert(g.contains_digest(d));
        }
        if exists|c: int| 0 <= c < cs.len() && fwd_plus(cs, st, (#[trigger] cs[c]).commit@, d) {
            let c = choose|c: int|
                0 <= c < cs.len() && fwd_plus(cs, st, (#[trigger] cs[c]).commit@, d);
            let pth = choose|pth: Seq<Seq<u8>>|
                fwd_path(cs, st, pth) && pth.len() >= 2 && pth.first() == cs[c].commit@
                    && pth.last() == d;
            lemma_forward_to_reverse(g, cs, st, pth);
        }
    }
}

/// A finished build is free of reverse cycles, because each reverse
/// edge mirrors a forward reference and forward ownership never loops
/// (content addressing: identical digests are identical objects).
pub proof fn lemma_build_acyclic(g: ReverseGraph, cs: Seq<CommitInfo>, st: TreeStore)
    requires
        st.wf(),
        build_inv(g, cs, st, cs.len() as int, Seq::<(usize, usize)>::empty()),
        forall|d: Seq<u8>| !(#[trigger] fwd_plus(cs, st, d, d)),
    ensures
        g.acyclic(),
{
    if g.has_cycle() {
        let j = choose|j: usize| g.reach_plus(j, j);
        let p = choose|p: Seq<usize>|
            g.path_ok(p) && p.len() >= 2 && p.first() == j && p.last() == j;
        lemma_reverse_to_forward(g, cs, st, p);
        assert(fwd_plus(cs, st, g.digest_at(j as int), g.digest_at(j as int)));
    }
}

/// Every blob the build encountered answers with a non-empty commit
/// set, and everything any query returns is a commit that was walked:
/// a vertex that is not a commit is owned by some commit, whose vertex
/// the query reaches.
pub proof fn lemma_blob_query_nonempty(
    g: ReverseGraph,
    cs: Seq<CommitInfo>,
    st: TreeStore,
    d: Seq<u8>,
)
    requires
        st.wf(),
        source_ok(cs, st),
        build_inv(g, cs, st, cs.len() as int, Seq::<(usize, usize)>::empty()),
        g.contains_digest(d),
        !is_commit(cs, d),
    ensures
        exists|j: usize| #[trigger] g.answers(d, j),
        forall|j: usize| #[trigger] g.answers(d, j) ==> is_commit(cs, g.digest_at(j as int)),
{
    lemma_build_semantics(g, cs, st);
    let c = choose|c: int| 0 <= c < cs.len() && fwd_plus(cs, st, (#[trigger] cs[c]).commit@, d);
    g.lemma_id_of(cs[c].commit@);
    let j = g.id_of(cs[c].commit@);
    assert(g.digest_at(j as int) == cs[c].commit@);
    assert(is_commit(cs, g.digest_at(j as int)));
    assert(g.answers(d, j));
}

/// A contiguous slice of a consistent source is itself consistent.
proof fn lemma_source_ok_sub(cs: Seq<CommitInfo>, st: TreeStore, lo: int, hi: int)
    requires
        source_ok(cs, st),
        0 <= lo <= hi <= cs.len(),
    ensures
        source_ok(cs.subrange(lo, hi), st),
{
    let sub = cs.subrange(lo, hi);
    assert forall|c1: int, c2: int| 0 <= c1 < c2 < sub.len() implies sub[c1].commit@
        != sub[c2].commit@ by {
        assert(sub[c1] == cs[lo + c1] && sub[c2] == cs[lo + c2]);
    }
    assert forall|c: int, t: int|
        0 <= c < sub.len() && 0 <= t < st.tree_count() implies (#[trigger] sub[c].commit)@ != (
    #[trigger] st.key_at(t)) by {
        assert(sub[c] == cs[lo + c]);
        assert((cs[lo + c].commit)@ != st.key_at(t));
    }
    assert forall|c1: int, c2: int|
        0 <= c1 < sub.len() && 0 <= c2 < sub.len() implies (#[trigger] sub[c1].commit)@ != (
    #[trigger] sub[c2].root_tree)@ by {
        assert(sub[c1] == cs[lo + c1] && sub[c2] == cs[lo + c2]);
        assert((cs[lo + c1].commit)@ != (cs[lo + c2].root_tree)@);
    }
    assert forall|c: int, t: int, k: int|
        0 <= c < sub.len() && 0 <= t < st.tree_count() && 0 <= k < st.entries_at(t).len() implies (
    #[trigger] sub[c].commit)@ != (#[trigger] st.entries_at(t)[k]).digest@ by {
        assert(sub[c] == cs[lo + c]);
        assert((cs[lo + c].commit)@ != st.entries_at(t)[k].digest@);
    }
}

/// Ownership from a chunk's commit is the same walked inside the chunk
/// or inside the whole commit list: only the first step of a walk uses
/// a commit, and commit digests are unique.
proof fn lemma_fwd_plus_chunk(cs: Seq<CommitInfo>, st: TreeStore, lo: int, hi: int, c: int, y: Seq<u8>)
    requires
        source_ok(cs, st),
        0 <= lo <= c < hi <= cs.len(),
    ensures
        fwd_plus(cs.subrange(lo, hi), st, cs[c].commit@, y) <==> fwd_plus(
            cs,
            st,
            cs[c].commit@,
            y,
        ),
    decreases hi - lo,
{
    let sub = cs.subrange(lo, hi);
    let x = cs[c].commit@;
    if fwd_plus(sub, st, x, y) {
        let p = choose|p: Seq<Seq<u8>>|
            fwd_path(sub, st, p) && p.len() >= 2 && p.first() == x && p.last() == y;
        assert forall|k: int| 0 <= k < p.len() - 1 implies fwd_step(
            cs,
            st,
            #[trigger] p[k],
            p[k + 1],
        ) by {
            assert(fwd_step(sub, st, p[k], p[k + 1]));
            if exists|c2: int|
                0 <= c2 < sub.len() && (#[trigger] sub[c2]).commit@ == p[k] && sub[c2].root_tree@
                    == p[k + 1] {
                let c2 = choose|c2: int|
                    0 <= c2 < sub.len() && (#[trigger] sub[c2]).commit@ == p[k]
                        && sub[c2].root_tree@ == p[k + 1];
                assert(sub[c2] == cs[lo + c2]);
                assert(0 <= lo + c2 < cs.len() && cs[lo + c2].commit@ == p[k] && cs[lo
                    + c2].root_tree@ == p[k + 1]);
            }
        }
        assert(fwd_path(cs, st, p));
        assert(fwd_plus(cs, st, x, y));
    }
    if fwd_plus(cs, st, x, y) {
        let p = choose|p: Seq<Seq<u8>>|
            fwd_path(cs, st, p) && p.len() >= 2 && p.first() == x && p.last() == y;
        assert forall|k: int| 1 <= k < p.len() implies !is_commit(cs, #[trigger] p[k]) by {
            if is_commit(cs, p[k]) {
                assert(fwd_step(cs, st, p[k - 1], p[k]));
                lemma_no_step_into_commit(cs, st, p[k - 1], p[k]);
            }
        }
        assert forall|k: int| 0 <= k < p.len() - 1 implies fwd_step(
            sub,
            st,
            #[trigger] p[k],
            p[k + 1],
        ) by {
            assert(fwd_step(cs, st, p[k], p[k + 1]));
            if exists|c2: int|
                0 <= c2 < cs.len() && (#[trigger] cs[c2]).commit@ == p[k] && cs[c2].root_tree@
                    == p[k + 1] {
                let c2 = choose|c2: int|
                    0 <= c2 < cs.len() && (#[trigger] cs[c2]).commit@ == p[k] && cs[c2].root_tree@
                        == p[k + 1];
                if k == 0 {
                    assert(cs[c2].commit@ == cs[c].commit@);
                    assert(c2 == c) by {
                        if c2 != c {
                            assert(cs[c2].commit@ != cs[c].commit@);
                        }
                    }
                    assert(sub[c - lo] == cs[c]);
                    assert(0 <= c - lo < sub.len() && sub[c - lo].commit@ == p[0] && sub[c
                        - lo].root_tree@ == p[1]);
                } else {
                    assert(is_commit(cs, p[k]));
                    assert(false);
                }
            }
        }
        assert(fwd_path(sub, st, p));
        assert(fwd_plus(sub, st, x, y));
    }
}

/// Cut points `cuts` partition the commit list into contiguous chunks.
pub open spec fn chunking(cuts: Seq<int>, n: int) -> bool {
    &&& cuts.len() >= 1
    &&& cuts[0] == 0
    &&& cuts.last() == n
    &&& forall|i: int| 0 <= i < cuts.len() - 1 ==> (#[trigger] cuts[i]) <= cuts[i + 1]
}

/// Every position below `n` falls in some chunk.
proof fn lemma_find_chunk(cuts: Seq<int>, c: int)
    requires
        cuts.len() >= 2,
        cuts[0] == 0,
        forall|i: int| 0 <= i < cuts.len() - 1 ==> (#[trigger] cuts[i]) <= cuts[i + 1],
        0 <= c < cuts.last(),
    ensures
        exists|i: int| 0 <= i < cuts.len() - 1 && (#[trigger] cuts[i]) <= c < cuts[i + 1],
    decreases cuts.len(),
{
    if c >= cuts[cuts.len() - 2] {
        assert(0 <= cuts.len() - 2 < cuts.len() - 1 && (#[trigger] cuts[cuts.len() - 2]) <= c
            < cuts[cuts.len() - 2 + 1]);
    } else {
        let pre = cuts.drop_last();
        assert(pre.len() >= 2) by {
            assert(cuts[0] <= c);
        }
        assert forall|i: int| 0 <= i < pre.len() - 1 implies (#[trigger] pre[i]) <= pre[i + 1] by {
            assert(pre[i] == cuts[i] && pre[i + 1] == cuts[i + 1]);
        }
        lemma_find_chunk(pre, c);
        let i = choose|i: int| 0 <= i < pre.len() - 1 && (#[trigger] pre[i]) <= c < pre[i + 1];
        assert(0 <= i < cuts.len() - 1 && cuts[i] <= c < cuts[i + 1]);
    }
}

/// Cut points in sorted order only ever move right.
proof fn lemma_cuts_mono(cuts: Seq<int>, i: int, j: int)
    requires
        forall|t: int| 0 <= t < cuts.len() - 1 ==> (#[trigger] cuts[t]) <= cuts[t + 1],
        0 <= i <= j < cuts.len(),
    ensures
        cuts[i] <= cuts[j],
    decreases j - i,
{
    if i < j {
        lemma_cuts_mono(cuts, i, j - 1);
        assert(cuts[j - 1] <= cuts[j]);
    }
}

/// Some graph in the list answers blob `b` with commit digest `d`.
pub open spec fn any_answer(luts: Seq<ReverseGraph>, b: Seq<u8>, d: Seq<u8>) -> bool {
    exists|i: int| 0 <= i < luts.len() && (#[trigger] luts[i]).answer_digest(b, d)
}

/// Some chunk's graph answers blob `b` with commit digest `d`.
pub open spec fn multi_answer(gs: Seq<ReverseGraph>, b: Seq<u8>, d: Seq<u8>) -> bool {
    exists|i: int, j: usize|
        0 <= i < gs.len() && (#[trigger] gs[i].answers(b, j)) && gs[i].digest_at(j as int) == d
}

/// The graphs `gs` are the finished builds of the chunks that `cuts`
/// carves out of the commit list, and `g_all` is the finished build of
/// the whole list.
pub open spec fn chunked_builds(
    g_all: ReverseGraph,
    gs: Seq<ReverseGraph>,
    cuts: Seq<int>,
    cs: Seq<CommitInfo>,
    st: TreeStore,
) -> bool {
    &&& st.wf()
    &&& source_ok(cs, st)
    &&& build_inv(g_all, cs, st, cs.len() as int, Seq::<(usize, usize)>::empty())
    &&& cuts.len() == gs.len() + 1
    &&& chunking(cuts, cs.len() as int)
    &&& forall|i: int|
        0 <= i < gs.len() ==> build_inv(
            #[trigger] gs[i],
            cs.subrange(cuts[i], cuts[i + 1]),
            st,
            cuts[i + 1] - cuts[i],
            Seq::<(usize, usize)>::empty(),
        )
}

/// A chunk's answer is an answer of the whole build.
#[verifier::rlimit(100)]
#[verifier::spinoff_prover]
proof fn lemma_chunk_to_all(
    g_all: ReverseGraph,
    gs: Seq<ReverseGraph>,
    cuts: Seq<int>,
    cs: Seq<CommitInfo>,
    st: TreeStore,
    b: Seq<u8>,
    d: Seq<u8>,
)
    requires
        chunked_builds(g_all, gs, cuts, cs, st),
        multi_answer(gs, b, d),
    ensures
        g_all.answer_digest(b, d),
{
    lemma_build_semantics(g_all, cs, st);
    let (i, j): (int, usize) = choose|i: int, j: usize|
        0 <= i < gs.len() && (#[trigger] gs[i].answers(b, j)) && gs[i].digest_at(j as int) == d;
    assert(0 <= cuts[i] <= cuts[i + 1] <= cs.len()) by {
        lemma_cuts_mono(cuts, 0, i);
        lemma_cuts_mono(cuts, i, i + 1);
        lemma_cuts_mono(cuts, i + 1, cuts.len() - 1);
    }
    let sub = cs.subrange(cuts[i], cuts[i + 1]);
    lemma_source_ok_sub(cs, st, cuts[i], cuts[i + 1]);
    lemma_build_semantics(gs[i], sub, st);
    assert(is_commit(sub, d) && fwd_plus(sub, st, d, b));
    let c2 = choose|c2: int| 0 <= c2 < sub.len() && (#[trigger] sub[c2]).commit@ == d;
    assert(sub[c2] == cs[cuts[i] + c2]);
    let c = cuts[i] + c2;
    assert(cs[c].commit@ == d);
    lemma_fwd_plus_chunk(cs, st, cuts[i], cuts[i + 1], c, b);
    assert(fwd_plus(cs, st, d, b));
    assert(is_commit(cs, d));
    assert(g_all.contains_digest(d));
    g_all.lemma_id_of(d);
    let j2 = g_all.id_of(d);
    assert(g_all.digest_at(j2 as int) == d);
    assert(g_all.answers(b, j2));
}

/// An answer of the whole build is some chunk's answer.
#[verifier::rlimit(100)]
#[verifier::spinoff_prover]
proof fn lemma_all_to_chunk(
    g_all: ReverseGraph,
    gs: Seq<ReverseGraph>,
    cuts: Seq<int>,
    cs: Seq<CommitInfo>,
    st: TreeStore,
    b: Seq<u8>,
    d: Seq<u8>,
)
    requires
        chunked_builds(g_all, gs, cuts, cs, st),
        g_all.answer_digest(b, d),
    ensures
        multi_answer(gs, b, d),
{
    lemma_build_semantics(g_all, cs, st);
    let j = choose|j: usize| #[trigger] g_all.answers(b, j) && d == g_all.digest_at(j as int);
    assert(is_commit(cs, d) && fwd_plus(cs, st, d, b));
    let c = choose|c: int| 0 <= c < cs.len() && (#[trigger] cs[c]).commit@ == d;
    assert(cuts.len() >= 2) by {
        assert(cuts[0] == 0 && cuts.last() == cs.len());
    }
    lemma_find_chunk(cuts, c);
    let i = choose|i: int| 0 <= i < cuts.len() - 1 && (#[trigger] cuts[i]) <= c < cuts[i + 1];
    assert(0 <= cuts[i] <= cuts[i + 1] <= cs.len()) by {
        lemma_cuts_mono(cuts, 0, i);
        lemma_cuts_mono(cuts, i, i + 1);
        lemma_cuts_mono(cuts, i + 1, cuts.len() - 1);
    }
    let sub = cs.subrange(cuts[i], cuts[i + 1]);
    lemma_source_ok_sub(cs, st, cuts[i], cuts[i + 1]);
    lemma_build_semantics(gs[i], sub, st);
    assert(sub[c - cuts[i]] == cs[c]);
    assert(is_commit(sub, d)) by {
        assert(0 <= c - cuts[i] < sub.len() && sub[c - cuts[i]].commit@ == d);
    }
    lemma_fwd_plus_chunk(cs, st, cuts[i], cuts[i + 1], c, b);
    assert(fwd_plus(sub, st, d, b));
    assert(gs[i].contains_digest(d));
    gs[i].lemma_id_of(d);
    let j2 = gs[i].id_of(d);
    assert(gs[i].digest_at(j2 as int) == d);
    assert(gs[i].answers(b, j2));
    assert(multi_answer(gs, b, d));
}

/// Parallel/sequential equivalence: per-chunk graphs, queried in turn,
/// answer every blob exactly as the graph of a single build over the
/// whole commit list (as sets of commit digests).
pub proof fn lemma_parallel_equivalence(
    g_all: ReverseGraph,
    gs: Seq<ReverseGraph>,
    cuts: Seq<int>,
    cs: Seq<CommitInfo>,
    st: TreeStore,
)
    requires
        chunked_builds(g_all, gs, cuts, cs, st),
    ensures
        forall|b: Seq<u8>, d: Seq<u8>| #[trigger]
            multi_answer(gs, b, d) <==> g_all.answer_digest(b, d),
{
    assert forall|b: Seq<u8>, d: Seq<u8>| #[trigger]
        multi_answer(gs, b, d) <==> g_all.answer_digest(b, d) by {
        if multi_answer(gs, b, d) {
            lemma_chunk_to_all(g_all, gs, cuts, cs, st, b, d);
        }
        if g_all.answer_digest(b, d) {
            lemma_all_to_chunk(g_all, gs, cuts, cs, st, b, d);
        }
    }
}

/// The length every chunk gets, except that the last may fall short:
/// the item count split over the workers, floored, and at least one.
pub open spec fn spec_chunk_size(n: int, threads: int) -> int {
    if n / threads >= 1 {
        n / threads
    } else {
        1
    }
}

/// Splits `n` items into contiguous chunks for `threads` workers: all
/// chunks have the per-worker length, except the last, which holds the
/// remainder.
pub fn chunk_bounds(n: usize, threads: usize) -> (r: Vec<(usize, usize)>)
    requires
        threads >= 1,
    ensures
        n == 0 ==> r@.len() == 0,
        n > 0 ==> {
            &&& r@.len() >= 1
            &&& r@[0].0 == 0
            &&& r@[r@.len() - 1].1 == n
            &&& forall|i: int| 0 <= i < r@.len() ==> (#[trigger] r@[i]).0 < r@[i].1
            &&& forall|i: int| 0 <= i < r@.len() - 1 ==> (#[trigger] r@[i]).1 == r@[i + 1].0
            &&& forall|i: int|
                0 <= i < r@.len() ==> (#[trigger] r@[i]).1 - r@[i].0 <= spec_chunk_size(
                    n as int,
                    threads as int,
                )
            &&& forall|i: int|
                0 <= i < r@.len() && (#[trigger] r@[i]).1 - r@[i].0 < spec_chunk_size(
                    n as int,
                    threads as int,
                ) ==> r@[i].1 == n
        },
{
    let mut r: Vec<(usize, usize)> = Vec::new();
    if n == 0 {
        return r;
    }
    let mut size = n / threads;
    if size == 0 {
        size = 1;
    }
    let mut start: usize = 0;
    while start < n
        invariant
            0 <= start <= n,
            1 <= size,
            size == spec_chunk_size(n as int, threads as int),
            start == 0 ==> r@.len() == 0,
            start > 0 ==> {
                &&& r@.len() >= 1
                &&& r@[0].0 == 0
                &&& r@[r@.len() - 1].1 == start
                &&& forall|i: int| 0 <= i < r@.len() ==> (#[trigger] r@[i]).0 < r@[i].1
                &&& forall|i: int| 0 <= i < r@.len() - 1 ==> (#[trigger] r@[i]).1 == r@[i + 1].0
                &&& forall|i: int|
                    0 <= i < r@.len() ==> (#[trigger] r@[i]).1 - r@[i].0 <= size
                &&& forall|i: int|
                    0 <= i < r@.len() && (#[trigger] r@[i]).1 - r@[i].0 < size ==> r@[i].1 == n
            },
        decreases n - start,
    {
        let end = if n - start < size {
            n
        } else {
            start + size
        };
        let ghost pre = r@;
        r.push((start, end));
        proof {
            assert(r@[r@.len() - 1] == (start, end));
            assert forall|i: int| 0 <= i < r@.len() - 1 implies (#[trigger] r@[i]).1 == r@[i
                + 1].0 by {
                if i < pre.len() - 1 {
                    assert(r@[i] == pre[i] && r@[i + 1] == pre[i + 1]);
                } else {
                    assert(r@[i] == pre[i]);
                }
            }
        }
        start = end;
    }
    r
}

/// The vertex digests of each per-chunk graph, in vertex-id order.
pub fn commit_oids_table(luts: &Vec<ReverseGraph>) -> (r: Vec<Vec<Digest>>)
    requires
        forall|i: int| 0 <= i < luts@.len() ==> (#[trigger] luts@[i]).wf(),
    ensures
        r@.len() == luts@.len(),
        forall|i: int, j: int|
            0 <= i < r@.len() && 0 <= j < r@[i]@.len() ==> (#[trigger] r@[i]@[j])@
                == luts@[i].digest_at(j),
        forall|i: int|
            0 <= i < r@.len() ==> (#[trigger] r@[i]@.len()) == luts@[i].vert_count(),
{
    let mut r: Vec<Vec<Digest>> = Vec::new();
    let mut i: usize = 0;
    while i < luts.len()
        invariant
            0 <= i <= luts@.len(),
            forall|t: int| 0 <= t < luts@.len() ==> (#[trigger] luts@[t]).wf(),
            r@.len() == i,
            forall|t: int, j: int|
                0 <= t < i && 0 <= j < r@[t]@.len() ==> (#[trigger] r@[t]@[j])@
                    == luts@[t].digest_at(j),
            forall|t: int| 0 <= t < i ==> (#[trigger] r@[t]@.len()) == luts@[t].vert_count(),
        decreases luts@.len() - i,
    {
        let g = &luts[i];
        let m = g.len();
        let mut row: Vec<Digest> = Vec::new();
        let mut j: usize = 0;
        while j < m
            invariant
                0 <= j <= m,
                m == g.vert_count(),
                g.wf(),
                g == &luts[i as int],
                row@.len() == j,
                forall|t: int| 0 <= t < j ==> (#[trigger] row@[t])@ == g.digest_at(t),
            decreases m - j,
        {
            row.push(g.digest_of(j));
            j = j + 1;
        }
        r.push(row);
        i = i + 1;
    }
    r
}

/// Queries every per-chunk graph in turn and concatenates the commit
/// digests found: `out` holds a digest exactly when some chunk's graph
/// answers the blob with it.
pub fn commits_by_blob(
    blob: &Digest,
    luts: &Vec<ReverseGraph>,
    stack: &mut Stack,
    out: &mut Vec<Digest>,
)
    requires
        forall|i: int| 0 <= i < luts@.len() ==> (#[trigger] luts@[i]).wf(),
    ensures
        forall|k: int|
            0 <= k < final(out)@.len() ==> any_answer(luts@, blob@, (#[trigger] final(out)@[k])@),
        forall|i: int, j: usize|
            0 <= i < luts@.len() && (#[trigger] luts@[i].answers(blob@, j)) ==> exists|k: int|
                0 <= k < final(out)@.len() && final(out)@[k]@ == luts@[i].digest_at(j as int),
{
    out.clear();
    let mut per: Vec<Digest> = Vec::new();
    let mut i: usize = 0;
    while i < luts.len()
        invariant
            0 <= i <= luts@.len(),
            forall|t: int| 0 <= t < luts@.len() ==> (#[trigger] luts@[t]).wf(),
            forall|k: int|
                0 <= k < out@.len() ==> any_answer(luts@, blob@, (#[trigger] out@[k])@),
            forall|t: int, j: usize|
                0 <= t < i && (#[trigger] luts@[t].answers(blob@, j)) ==> exists|k: int|
                    0 <= k < out@.len() && out@[k]@ == luts@[t].digest_at(j as int),
        decreases luts@.len() - i,
    {
        luts[i].lookup(blob, stack, &mut per);
        let ghost pre = out@;
        let m = per.len();
        let mut k: usize = 0;
        while k < m
            invariant
                0 <= k <= m,
                0 <= i < luts@.len(),
                m == per@.len(),
                out@ == pre + per@.take(k as int),
            decreases m - k,
        {
            out.push(per[k]);
            proof {
                assert(per@.take(k + 1) =~= per@.take(k as int).push(per@[k as int]));
                assert(out@ =~= pre + per@.take(k + 1));
            }
            k = k + 1;
        }
        proof {
            assert(per@.take(m as int) =~= per@);
            assert(out@ =~= pre + per@);
            assert forall|k2: int|
                0 <= k2 < out@.len() implies any_answer(
                luts@,
                blob@,
                (#[trigger] out@[k2])@,
            ) by {
                if k2 < pre.len() {
                    assert(out@[k2] == pre[k2]);
                    assert(any_answer(luts@, blob@, out@[k2]@));
                } else {
                    assert(out@[k2] == per@[k2 - pre.len()]);
                    assert((#[trigger] luts@[i as int]).answer_digest(
                        blob@,
                        per@[k2 - pre.len()]@,
                    ));
                    assert(any_answer(luts@, blob@, out@[k2]@));
                }
            }
            assert forall|t: int, j: usize|
                0 <= t < i + 1 && (#[trigger] luts@[t].answers(blob@, j)) implies exists|k2: int|
                0 <= k2 < out@.len() && out@[k2]@ == luts@[t].digest_at(j as int) by {
                if t < i {
                    let k2 = choose|k2: int|
                        0 <= k2 < pre.len() && pre[k2]@ == luts@[t].digest_at(j as int);
                    assert(out@[k2]@ == luts@[t].digest_at(j as int));
                } else {
                    let k2 = choose|k2: int|
                        0 <= k2 < per@.len() && per@[k2]@ == luts@[t].digest_at(j as int);
                    assert(out@[pre.len() + k2]@ == luts@[t].digest_at(j as int));
                }
            }
        }
        i = i + 1;
    }
}

} // verus!
