use vstd::prelude::*;

use crate::node::AppendEdge;
use crate::node::EdgeView;
use crate::node::Error;
use crate::node::Leaf;
use crate::node::LeafView;
use crate::node::Node;
use crate::node::NodeView;
use crate::resolve::digest_set;
use crate::resolve::lemma_digest_set_push;
use crate::resolve::resolve;
use crate::resolve::result_view;
use crate::store::clone_bytes;
use crate::store::contains_digest;
use crate::store::digests_equal;
use crate::store::Digistructor;

verus! {

/// The mathematical value of a row set of the backing store's leaf relation.
pub open spec fn leaves_view(s: Seq<Leaf>) -> Seq<LeafView> {
    s.map_values(|l: Leaf| l@)
}

/// The mathematical value of a row set of the backing store's edge relation.
pub open spec fn edges_view(s: Seq<AppendEdge>) -> Seq<EdgeView> {
    s.map_values(|e: AppendEdge| e@)
}

/// The digests for which the leaf relation holds data: a digest any of them
/// satisfies needs no further traversal.
pub open spec fn leaf_digests(leaves: Seq<LeafView>) -> Set<Seq<u8>> {
    Set::new(|d: Seq<u8>| exists|i: int| 0 <= i < leaves.len() && leaves[i].digest == d)
}

/// Whether the edge relation holds a row declaring digest `d`.
pub open spec fn has_row(edges: Seq<EdgeView>, d: Seq<u8>) -> bool {
    exists|i: int| 0 <= i < edges.len() && edges[i].digest == d
}

/// The rows of the edge relation declaring digest `d`, in relation order.
pub open spec fn rows_at(edges: Seq<EdgeView>, d: Seq<u8>) -> Seq<EdgeView>
    decreases edges.len(),
{
    if edges.len() == 0 {
        Seq::<EdgeView>::empty()
    } else {
        let prev = rows_at(edges.drop_last(), d);
        if edges.last().digest == d {
            prev.push(edges.last())
        } else {
            prev
        }
    }
}

/// The children the given edge rows reach, each row contributing its left
/// digest then its right digest.
pub open spec fn child_list(rows: Seq<EdgeView>) -> Seq<Seq<u8>>
    decreases rows.len(),
{
    if rows.len() == 0 {
        Seq::<Seq<u8>>::empty()
    } else {
        child_list(rows.drop_last()).push(rows.last().left).push(rows.last().right)
    }
}

/// The set `s` grown by the digests of `ds`.
pub open spec fn with_digests(s: Set<Seq<u8>>, ds: Seq<Seq<u8>>) -> Set<Seq<u8>>
    decreases ds.len(),
{
    if ds.len() == 0 {
        s
    } else {
        with_digests(s, ds.drop_last()).insert(ds.last())
    }
}

/// How many rows of the edge relation declare a digest not yet visited: the
/// traversal's termination measure.
pub open spec fn unseen_count(edges: Seq<EdgeView>, seen: Set<Seq<u8>>) -> nat
    decreases edges.len(),
{
    if edges.len() == 0 {
        0
    } else {
        unseen_count(edges.drop_last(), seen) + if seen.contains(edges.last().digest) {
            0nat
        } else {
            1nat
        }
    }
}

/// Visiting a digest never raises the measure, and strictly lowers it when
/// the edge relation holds a row for the digest.
pub proof fn lemma_unseen_insert(edges: Seq<EdgeView>, seen: Set<Seq<u8>>, d: Seq<u8>)
    requires
        !seen.contains(d),
    ensures
        unseen_count(edges, seen.insert(d)) <= unseen_count(edges, seen),
        has_row(edges, d) ==> unseen_count(edges, seen.insert(d)) < unseen_count(edges, seen),
    decreases edges.len(),
{
    if edges.len() > 0 {
        lemma_unseen_insert(edges.drop_last(), seen, d);
        if has_row(edges, d) {
            let i = choose|i: int| 0 <= i < edges.len() && edges[i].digest == d;
            if i < edges.len() - 1 {
                assert(edges.drop_last()[i] == edges[i]);
                assert(has_row(edges.drop_last(), d));
            }
        }
    }
}

/// What a traversal has gathered: the edge rows to stage, and every digest
/// touched — each row's own digest and its two children, plus the target —
/// for which leaf data will be fetched.
pub struct LoadPlan {
    pub included: Seq<EdgeView>,
    pub candidates: Set<Seq<u8>>,
}

/// The demand-driven traversal of the edge relation, from a worklist of
/// digests to visit.
///
/// Each digest leaving the worklist becomes a candidate. A digest already
/// visited is done. Otherwise its edge rows are gathered and their children
/// become candidates; the children join the worklist only if no leaf
/// satisfies the digest — below a leaf-satisfiable digest the traversal is
/// pruned, since the leaf reconstructs the digest more cheaply than its edges
/// would.
pub open spec fn crawl(
    edges: Seq<EdgeView>,
    leaf_digs: Set<Seq<u8>>,
    pending: Seq<Seq<u8>>,
    seen: Set<Seq<u8>>,
    acc: LoadPlan,
) -> LoadPlan
    decreases unseen_count(edges, seen), pending.len(),
{
    if pending.len() == 0 {
        acc
    } else {
        let d = pending.first();
        let rest = pending.drop_first();
        let acc1 = LoadPlan { included: acc.included, candidates: acc.candidates.insert(d) };
        if seen.contains(d) {
            crawl(edges, leaf_digs, rest, seen, acc1)
        } else if !has_row(edges, d) {
            proof {
                lemma_unseen_insert(edges, seen, d);
            }
            crawl(edges, leaf_digs, rest, seen.insert(d), acc1)
        } else {
            proof {
                lemma_unseen_insert(edges, seen, d);
            }
            let rows = rows_at(edges, d);
            let acc2 = LoadPlan {
                included: acc1.included + rows,
                candidates: with_digests(acc1.candidates, child_list(rows)),
            };
            let next = if leaf_digs.contains(d) {
                rest
            } else {
                rest + child_list(rows)
            };
            crawl(edges, leaf_digs, next, seen.insert(d), acc2)
        }
    }
}

/// The plan for hydrating one target digest: nothing is traversed when a leaf
/// already satisfies the target; otherwise the traversal starts at the
/// target. The target itself is always a candidate.
pub open spec fn load_plan(edges: Seq<EdgeView>, leaf_digs: Set<Seq<u8>>, target: Seq<u8>) -> LoadPlan {
    let acc = LoadPlan {
        included: Seq::<EdgeView>::empty(),
        candidates: Set::<Seq<u8>>::empty().insert(target),
    };
    if leaf_digs.contains(target) {
        acc
    } else {
        crawl(edges, leaf_digs, seq![target], Set::<Seq<u8>>::empty(), acc)
    }
}

/// The map the gathered edge rows stage, in row order, a later row
/// overwriting an earlier one with the same digest.
pub open spec fn staged_edges(m: Map<Seq<u8>, NodeView>, rows: Seq<EdgeView>) -> Map<
    Seq<u8>,
    NodeView,
>
    decreases rows.len(),
{
    if rows.len() == 0 {
        m
    } else {
        staged_edges(m, rows.drop_last()).insert(
            rows.last().digest,
            NodeView::Append(rows.last()),
        )
    }
}

/// The map after the leaf rows whose digest is a candidate are added, in
/// relation order, a leaf overwriting an edge staged under the same digest.
pub open spec fn staged_leaves(
    m: Map<Seq<u8>, NodeView>,
    leaves: Seq<LeafView>,
    candidates: Set<Seq<u8>>,
) -> Map<Seq<u8>, NodeView>
    decreases leaves.len(),
{
    if leaves.len() == 0 {
        m
    } else {
        let prev = staged_leaves(m, leaves.drop_last(), candidates);
        if candidates.contains(leaves.last().digest) {
            prev.insert(leaves.last().digest, NodeView::Raw(leaves.last()))
        } else {
            prev
        }
    }
}

/// The store the loader populates for `target` from the backing relations:
/// exactly the traversed edge rows, then every leaf row whose digest the
/// traversal touched.
pub open spec fn loaded_map(
    leaves: Seq<LeafView>,
    edges: Seq<EdgeView>,
    target: Seq<u8>,
) -> Map<Seq<u8>, NodeView> {
    let plan = load_plan(edges, leaf_digests(leaves), target);
    staged_leaves(staged_edges(Map::<Seq<u8>, NodeView>::empty(), plan.included), leaves, plan.candidates)
}

/// The digests a worklist of byte vectors holds, in order.
pub open spec fn worklist_view(s: Seq<Vec<u8>>) -> Seq<Seq<u8>> {
    s.map_values(|v: Vec<u8>| v@)
}

/// Whether some edge row declares digest `p` and points at `c`.
pub open spec fn child_of(edges: Seq<EdgeView>, c: Seq<u8>, p: Seq<u8>) -> bool {
    exists|i: int|
        0 <= i < edges.len() && (#[trigger] edges[i]).digest == p && (edges[i].left == c
            || edges[i].right == c)
}

/// A pruned traversal path: it starts at `from`, ends at `to`, and each step
/// descends from a digest that no leaf satisfies to one of its children in
/// the edge relation.
pub open spec fn is_pruned_path(
    edges: Seq<EdgeView>,
    leaf_digs: Set<Seq<u8>>,
    path: Seq<Seq<u8>>,
    from: Seq<u8>,
    to: Seq<u8>,
) -> bool {
    &&& path.len() >= 1
    &&& path.first() == from
    &&& path.last() == to
    &&& forall|i: int|
        0 <= i < path.len() - 1 ==> !leaf_digs.contains(#[trigger] path[i]) && child_of(
            edges,
            path[i + 1],
            path[i],
        )
}

/// Whether a pruned traversal can descend from `from` to `to`.
pub open spec fn reaches(
    edges: Seq<EdgeView>,
    leaf_digs: Set<Seq<u8>>,
    from: Seq<u8>,
    to: Seq<u8>,
) -> bool {
    exists|path: Seq<Seq<u8>>| is_pruned_path(edges, leaf_digs, path, from, to)
}

proof fn lemma_reaches_self(edges: Seq<EdgeView>, leaf_digs: Set<Seq<u8>>, d: Seq<u8>)
    ensures
        reaches(edges, leaf_digs, d, d),
{
    let path = seq![d];
    assert(is_pruned_path(edges, leaf_digs, path, d, d));
}

proof fn lemma_reaches_step(
    edges: Seq<EdgeView>,
    leaf_digs: Set<Seq<u8>>,
    from: Seq<u8>,
    d: Seq<u8>,
    c: Seq<u8>,
)
    requires
        reaches(edges, leaf_digs, from, d),
        !leaf_digs.contains(d),
        child_of(edges, c, d),
    ensures
        reaches(edges, leaf_digs, from, c),
{
    let path = choose|path: Seq<Seq<u8>>| is_pruned_path(edges, leaf_digs, path, from, d);
    let longer = path.push(c);
    assert(longer.last() == c);
    assert(longer.first() == from);
    assert forall|i: int| 0 <= i < longer.len() - 1 implies !leaf_digs.contains(
        #[trigger] longer[i],
    ) && child_of(edges, longer[i + 1], longer[i]) by {
        if i < path.len() - 1 {
            assert(longer[i] == path[i]);
            assert(longer[i + 1] == path[i + 1]);
        } else {
            assert(longer[i] == path.last());
            assert(longer[i + 1] == c);
        }
    }
    assert(is_pruned_path(edges, leaf_digs, longer, from, c));
}

/// Every row the traversal gathers for `d` declares `d` and stands in the
/// edge relation.
proof fn lemma_rows_at_member(edges: Seq<EdgeView>, d: Seq<u8>)
    ensures
        forall|t: int|
            0 <= t < rows_at(edges, d).len() ==> (#[trigger] rows_at(edges, d)[t]).digest == d
                && exists|i: int| 0 <= i < edges.len() && edges[i] == rows_at(edges, d)[t],
    decreases edges.len(),
{
    if edges.len() > 0 {
        lemma_rows_at_member(edges.drop_last(), d);
        let prev = rows_at(edges.drop_last(), d);
        assert forall|t: int| 0 <= t < rows_at(edges, d).len() implies (#[trigger] rows_at(
            edges,
            d,
        )[t]).digest == d && exists|i: int|
            0 <= i < edges.len() && edges[i] == rows_at(edges, d)[t] by {
            if t < prev.len() {
                assert(rows_at(edges, d)[t] == prev[t]);
                let i = choose|i: int|
                    0 <= i < edges.drop_last().len() && edges.drop_last()[i] == prev[t];
                assert(edges[i] == prev[t]);
            } else {
                assert(rows_at(edges, d)[t] == edges.last());
                assert(edges[edges.len() - 1] == edges.last());
            }
        }
    }
}

/// Every child the gathered rows reach is a child of `d` in the edge
/// relation.
proof fn lemma_child_list_of(edges: Seq<EdgeView>, d: Seq<u8>, rows: Seq<EdgeView>)
    requires
        forall|t: int|
            0 <= t < rows.len() ==> (#[trigger] rows[t]).digest == d && exists|i: int|
                0 <= i < edges.len() && edges[i] == rows[t],
    ensures
        forall|m: int|
            0 <= m < child_list(rows).len() ==> child_of(edges, #[trigger] child_list(rows)[m], d),
    decreases rows.len(),
{
    if rows.len() > 0 {
        lemma_child_list_of(edges, d, rows.drop_last());
        let prev = child_list(rows.drop_last());
        assert forall|m: int| 0 <= m < child_list(rows).len() implies child_of(
            edges,
            #[trigger] child_list(rows)[m],
            d,
        ) by {
            if m < prev.len() {
                assert(child_list(rows)[m] == prev[m]);
            } else {
                let i = choose|i: int| 0 <= i < edges.len() && edges[i] == rows.last();
                if m == prev.len() {
                    assert(child_list(rows)[m] == rows.last().left);
                } else {
                    assert(child_list(rows)[m] == rows.last().right);
                }
            }
        }
    }
}

/// The traversal only gathers rows whose digest a pruned path reaches from
/// the target.
proof fn lemma_crawl_reaches(
    edges: Seq<EdgeView>,
    leaf_digs: Set<Seq<u8>>,
    pending: Seq<Seq<u8>>,
    seen: Set<Seq<u8>>,
    acc: LoadPlan,
    target: Seq<u8>,
)
    requires
        forall|i: int|
            0 <= i < pending.len() ==> reaches(edges, leaf_digs, target, #[trigger] pending[i]),
        forall|t: int|
            0 <= t < acc.included.len() ==> reaches(
                edges,
                leaf_digs,
                target,
                (#[trigger] acc.included[t]).digest,
            ),
    ensures
        forall|t: int|
            0 <= t < crawl(edges, leaf_digs, pending, seen, acc).included.len() ==> reaches(
                edges,
                leaf_digs,
                target,
                (#[trigger] crawl(edges, leaf_digs, pending, seen, acc).included[t]).digest,
            ),
    decreases unseen_count(edges, seen), pending.len(),
{
    if pending.len() > 0 {
        let d = pending.first();
        let rest = pending.drop_first();
        let acc1 = LoadPlan { included: acc.included, candidates: acc.candidates.insert(d) };
        assert(forall|i: int|
            0 <= i < rest.len() ==> reaches(edges, leaf_digs, target, #[trigger] rest[i]));
        if seen.contains(d) {
            lemma_crawl_reaches(edges, leaf_digs, rest, seen, acc1, target);
            assert(crawl(edges, leaf_digs, pending, seen, acc) == crawl(
                edges,
                leaf_digs,
                rest,
                seen,
                acc1,
            ));
        } else if !has_row(edges, d) {
            lemma_unseen_insert(edges, seen, d);
            lemma_crawl_reaches(edges, leaf_digs, rest, seen.insert(d), acc1, target);
            assert(crawl(edges, leaf_digs, pending, seen, acc) == crawl(
                edges,
                leaf_digs,
                rest,
                seen.insert(d),
                acc1,
            ));
        } else {
            lemma_unseen_insert(edges, seen, d);
            let rows = rows_at(edges, d);
            let kids = child_list(rows);
            lemma_rows_at_member(edges, d);
            lemma_child_list_of(edges, d, rows);
            let acc2 = LoadPlan {
                included: acc1.included + rows,
                candidates: with_digests(acc1.candidates, kids),
            };
            assert(reaches(edges, leaf_digs, target, d));
            assert forall|t: int| 0 <= t < acc2.included.len() implies reaches(
                edges,
                leaf_digs,
                target,
                (#[trigger] acc2.included[t]).digest,
            ) by {
                if t < acc1.included.len() {
                    assert(acc2.included[t] == acc1.included[t]);
                } else {
                    assert(acc2.included[t] == rows[t - acc1.included.len()]);
                    assert(acc2.included[t].digest == d);
                }
            }
            if leaf_digs.contains(d) {
                lemma_crawl_reaches(edges, leaf_digs, rest, seen.insert(d), acc2, target);
                assert(crawl(edges, leaf_digs, pending, seen, acc) == crawl(
                    edges,
                    leaf_digs,
                    rest,
                    seen.insert(d),
                    acc2,
                ));
            } else {
                let next = rest + kids;
                assert forall|i: int| 0 <= i < next.len() implies reaches(
                    edges,
                    leaf_digs,
                    target,
                    #[trigger] next[i],
                ) by {
                    if i < rest.len() {
                        assert(next[i] == rest[i]);
                    } else {
                        assert(next[i] == kids[i - rest.len()]);
                        assert(child_of(edges, kids[i - rest.len()], d));
                        lemma_reaches_step(edges, leaf_digs, target, d, kids[i - rest.len()]);
                    }
                }
                lemma_crawl_reaches(edges, leaf_digs, next, seen.insert(d), acc2, target);
                assert(crawl(edges, leaf_digs, pending, seen, acc) == crawl(
                    edges,
                    leaf_digs,
                    next,
                    seen.insert(d),
                    acc2,
                ));
            }
        }
    }
}

/// An edge staged under `d` comes from a gathered row declaring `d`.
proof fn lemma_staged_edges_source(m: Map<Seq<u8>, NodeView>, rows: Seq<EdgeView>, d: Seq<u8>)
    requires
        staged_edges(m, rows).dom().contains(d),
        staged_edges(m, rows)[d] is Append,
        !(m.dom().contains(d) && m[d] is Append),
    ensures
        exists|t: int| 0 <= t < rows.len() && (#[trigger] rows[t]).digest == d,
    decreases rows.len(),
{
    if rows.len() > 0 {
        if rows.last().digest == d {
            assert(rows[rows.len() - 1].digest == d);
        } else {
            lemma_staged_edges_source(m, rows.drop_last(), d);
            let t = choose|t: int|
                0 <= t < rows.drop_last().len() && (#[trigger] rows.drop_last()[t]).digest == d;
            assert(rows[t].digest == d);
        }
    }
}

/// Adding leaf rows stages only leaves: an edge in the result was already
/// staged.
proof fn lemma_staged_leaves_keep(
    m: Map<Seq<u8>, NodeView>,
    leaves: Seq<LeafView>,
    candidates: Set<Seq<u8>>,
    d: Seq<u8>,
)
    requires
        staged_leaves(m, leaves, candidates).dom().contains(d),
        staged_leaves(m, leaves, candidates)[d] is Append,
    ensures
        m.dom().contains(d),
        m[d] is Append,
        m[d] == staged_leaves(m, leaves, candidates)[d],
    decreases leaves.len(),
{
    if leaves.len() > 0 {
        lemma_staged_leaves_keep(m, leaves.drop_last(), candidates, d);
    }
}

/// Loader pruning: the store loaded for `target` stages an edge under a
/// digest only if a pruned traversal path leads from `target` to that digest
/// — one that never descends past a digest some leaf row satisfies. An edge
/// that sits strictly below a leaf-satisfiable digest on every route from the
/// target is never fetched.
pub proof fn lemma_loader_pruning(
    leaves: Seq<LeafView>,
    edges: Seq<EdgeView>,
    target: Seq<u8>,
    d: Seq<u8>,
)
    requires
        !reaches(edges, leaf_digests(leaves), target, d),
    ensures
        !(loaded_map(leaves, edges, target).dom().contains(d) && loaded_map(
            leaves,
            edges,
            target,
        )[d] is Append),
{
    let ld = leaf_digests(leaves);
    let plan = load_plan(edges, ld, target);
    let base = staged_edges(Map::<Seq<u8>, NodeView>::empty(), plan.included);
    let full = loaded_map(leaves, edges, target);
    if full.dom().contains(d) && full[d] is Append {
        lemma_staged_leaves_keep(base, leaves, plan.candidates, d);
        lemma_staged_edges_source(Map::<Seq<u8>, NodeView>::empty(), plan.included, d);
        let t = choose|t: int|
            0 <= t < plan.included.len() && (#[trigger] plan.included[t]).digest == d;
        if !ld.contains(target) {
            let pending = seq![target];
            lemma_reaches_self(edges, ld, target);
            let acc = LoadPlan {
                included: Seq::<EdgeView>::empty(),
                candidates: Set::<Seq<u8>>::empty().insert(target),
            };
            lemma_crawl_reaches(edges, ld, pending, Set::<Seq<u8>>::empty(), acc, target);
        }
    }
}

/// A traversal gathers no rows for a digest exactly when the edge relation
/// declares none.
pub proof fn lemma_rows_at_has(edges: Seq<EdgeView>, d: Seq<u8>)
    ensures
        (rows_at(edges, d).len() == 0) <==> !has_row(edges, d),
    decreases edges.len(),
{
    if edges.len() > 0 {
        lemma_rows_at_has(edges.drop_last(), d);
        if edges.last().digest == d {
            assert(edges[edges.len() - 1].digest == d);
        } else {
            if has_row(edges, d) {
                let i = choose|i: int| 0 <= i < edges.len() && edges[i].digest == d;
                assert(edges.drop_last()[i] == edges[i]);
                assert(has_row(edges.drop_last(), d));
            }
            if has_row(edges.drop_last(), d) {
                let i = choose|i: int|
                    0 <= i < edges.drop_last().len() && edges.drop_last()[i].digest == d;
                assert(edges[i].digest == d);
            }
        }
    }
}

/// Whether the leaf relation holds data for `d`.
fn leaf_present(leaves: &Vec<Leaf>, d: &Vec<u8>) -> (r: bool)
    ensures
        r == leaf_digests(leaves_view(leaves@)).contains(d@),
{
    let n = leaves.len();
    let mut i: usize = 0;
    while i < n
        invariant
            0 <= i <= n,
            n == leaves.len(),
            forall|j: int| 0 <= j < i ==> #[trigger] leaves[j].digest@ != d@,
        decreases n - i,
    {
        if digests_equal(&leaves[i].digest, d) {
            proof {
                assert(leaves_view(leaves@)[i as int].digest == d@);
            }
            return true;
        }
        i += 1;
    }
    proof {
        if leaf_digests(leaves_view(leaves@)).contains(d@) {
            let j = choose|j: int|
                0 <= j < leaves_view(leaves@).len() && leaves_view(leaves@)[j].digest == d@;
            assert(leaves[j].digest@ != d@);
        }
    }
    false
}

/// Copy an edge row.
fn clone_edge(e: &AppendEdge) -> (r: AppendEdge)
    ensures
        r@ == e@,
{
    AppendEdge {
        digest: clone_bytes(&e.digest),
        left: clone_bytes(&e.left),
        right: clone_bytes(&e.right),
    }
}

/// Copy a leaf row.
fn clone_leaf(l: &Leaf) -> (r: Leaf)
    ensures
        r@ == l@,
{
    Leaf { digest: clone_bytes(&l.digest), data: clone_bytes(&l.data) }
}

/// Populate a fresh store with the nodes needed to resolve `target` from a
/// backing store's two relations: the transitive closure of `target` under
/// the edge relation, pruned below any digest a leaf satisfies, followed by
/// every leaf row whose digest the traversal touched.
pub fn load(target: &Vec<u8>, leaves: &Vec<Leaf>, edges: &Vec<AppendEdge>) -> (store: Digistructor)
    ensures
        store.wf(),
        store@ == loaded_map(leaves_view(leaves@), edges_view(edges@), target@),
{
    let ghost el = edges_view(edges@);
    let ghost ld = leaf_digests(leaves_view(leaves@));
    let ghost goal = load_plan(el, ld, target@);

    let mut pending: Vec<Vec<u8>> = Vec::new();
    let mut seen: Vec<Vec<u8>> = Vec::new();
    let mut included: Vec<AppendEdge> = Vec::new();
    let mut cands: Vec<Vec<u8>> = Vec::new();
    cands.push(clone_bytes(target));
    proof {
        assert(digest_set(seen@) =~= Set::<Seq<u8>>::empty());
        lemma_digest_set_push(Seq::<Vec<u8>>::empty(), cands@.last());
        assert(Seq::<Vec<u8>>::empty().push(cands@.last()) =~= cands@);
        assert(digest_set(Seq::<Vec<u8>>::empty()) =~= Set::<Seq<u8>>::empty());
        assert(digest_set(cands@) == Set::<Seq<u8>>::empty().insert(target@));
        assert(edges_view(included@) =~= Seq::<EdgeView>::empty());
    }
    if !leaf_present(leaves, target) {
        pending.push(clone_bytes(target));
        proof {
            assert(worklist_view(pending@) =~= seq![target@]);
        }
    } else {
        proof {
            assert(worklist_view(pending@) =~= Seq::<Seq<u8>>::empty());
        }
    }
    while pending.len() > 0
        invariant
            el == edges_view(edges@),
            ld == leaf_digests(leaves_view(leaves@)),
            goal == load_plan(el, ld, target@),
            crawl(
                el,
                ld,
                worklist_view(pending@),
                digest_set(seen@),
                LoadPlan { included: edges_view(included@), candidates: digest_set(cands@) },
            ) == goal,
        decreases unseen_count(el, digest_set(seen@)), pending.len(),
    {
        let ghost p0 = worklist_view(pending@);
        let ghost s0 = digest_set(seen@);
        let ghost acc0 = LoadPlan {
            included: edges_view(included@),
            candidates: digest_set(cands@),
        };
        let d = pending.remove(0);
        proof {
            assert(p0.first() == d@);
            assert(worklist_view(pending@) =~= p0.drop_first());
        }
        let ghost c0 = cands@;
        cands.push(clone_bytes(&d));
        proof {
            lemma_digest_set_push(c0, cands@.last());
            assert(c0.push(cands@.last()) =~= cands@);
            assert(digest_set(cands@) == acc0.candidates.insert(d@));
        }
        let ghost acc1 = LoadPlan {
            included: acc0.included,
            candidates: acc0.candidates.insert(d@),
        };
        if contains_digest(&seen, &d) {
            proof {
                assert(crawl(el, ld, p0, s0, acc0) == crawl(el, ld, p0.drop_first(), s0, acc1));
            }
        } else {
            let mut rows: Vec<AppendEdge> = Vec::new();
            let mut children: Vec<Vec<u8>> = Vec::new();
            let n = edges.len();
            let mut j: usize = 0;
            proof {
                assert(el.take(0) =~= Seq::<EdgeView>::empty());
                assert(edges_view(rows@) =~= Seq::<EdgeView>::empty());
                assert(worklist_view(children@) =~= Seq::<Seq<u8>>::empty());
            }
            while j < n
                invariant
                    0 <= j <= n,
                    n == edges.len(),
                    el == edges_view(edges@),
                    edges_view(rows@) == rows_at(el.take(j as int), d@),
                    worklist_view(children@) == child_list(rows_at(el.take(j as int), d@)),
                decreases n - j,
            {
                if digests_equal(&edges[j].digest, &d) {
                    let ghost r0 = rows@;
                    let ghost ch0 = children@;
                    rows.push(clone_edge(&edges[j]));
                    children.push(clone_bytes(&edges[j].left));
                    children.push(clone_bytes(&edges[j].right));
                    proof {
                        assert(edges_view(rows@) =~= edges_view(r0).push(edges@[j as int]@));
                        assert(worklist_view(children@) =~= worklist_view(ch0).push(
                            edges@[j as int]@.left,
                        ).push(edges@[j as int]@.right));
                    }
                }
                j += 1;
                proof {
                    assert(el.take(j as int).drop_last() =~= el.take(j as int - 1));
                    assert(el.take(j as int).last() == el[j as int - 1]);
                    assert(el[j as int - 1] == edges@[j as int - 1]@);
                    assert(edges_view(rows@) =~= rows_at(el.take(j as int), d@));
                    assert(child_list(rows_at(el.take(j as int - 1), d@).push(el[j as int - 1]))
                        == child_list(rows_at(el.take(j as int - 1), d@)).push(
                        el[j as int - 1].left,
                    ).push(el[j as int - 1].right)) by {
                        let t = rows_at(el.take(j as int - 1), d@).push(el[j as int - 1]);
                        assert(t.drop_last() =~= rows_at(el.take(j as int - 1), d@));
                    }
                    assert(worklist_view(children@) =~= child_list(rows_at(el.take(j as int), d@)));
                }
            }
            proof {
                assert(el.take(n as int) =~= el);
            }
            let ghost sn0 = seen@;
            seen.push(clone_bytes(&d));
            proof {
                lemma_digest_set_push(sn0, seen@.last());
                assert(sn0.push(seen@.last()) =~= seen@);
                assert(digest_set(seen@) == s0.insert(d@));
            }
            if rows.len() == 0 {
                proof {
                    lemma_rows_at_has(el, d@);
                    assert(!has_row(el, d@));
                    lemma_unseen_insert(el, s0, d@);
                    assert(crawl(el, ld, p0, s0, acc0) == crawl(
                        el,
                        ld,
                        p0.drop_first(),
                        s0.insert(d@),
                        acc1,
                    ));
                }
            } else {
                let ghost rws = rows_at(el, d@);
                let ghost kids = child_list(rws);
                proof {
                    assert(edges_view(rows@) == rws);
                    assert(worklist_view(children@) == kids);
                    lemma_rows_at_has(el, d@);
                    assert(has_row(el, d@));
                    lemma_unseen_insert(el, s0, d@);
                }
                let ghost c1 = digest_set(cands@);
                let mut k: usize = 0;
                proof {
                    assert(kids.take(0) =~= Seq::<Seq<u8>>::empty());
                    assert(with_digests(c1, kids.take(0)) == c1);
                }
                while k < children.len()
                    invariant
                        0 <= k <= children.len(),
                        kids == worklist_view(children@),
                        digest_set(cands@) == with_digests(c1, kids.take(k as int)),
                    decreases children.len() - k,
                {
                    let ghost cprev = cands@;
                    cands.push(clone_bytes(&children[k]));
                    k += 1;
                    proof {
                        lemma_digest_set_push(cprev, cands@.last());
                        assert(cprev.push(cands@.last()) =~= cands@);
                        assert(kids.take(k as int).drop_last() =~= kids.take(k as int - 1));
                        assert(kids.take(k as int).last() == kids[k as int - 1]);
                        assert(digest_set(cands@) == with_digests(c1, kids.take(k as int)));
                    }
                }
                proof {
                    assert(kids.take(children.len() as int) =~= kids);
                    assert(digest_set(cands@) == with_digests(c1, kids));
                }
                let ghost inc0 = edges_view(included@);
                included.append(&mut rows);
                proof {
                    assert(edges_view(included@) =~= inc0 + rws);
                }
                let leafy = leaf_present(leaves, &d);
                if !leafy {
                    let ghost pend1 = worklist_view(pending@);
                    pending.append(&mut children);
                    proof {
                        assert(worklist_view(pending@) =~= pend1 + kids);
                    }
                }
                proof {
                    let acc2 = LoadPlan {
                        included: acc1.included + rws,
                        candidates: with_digests(acc1.candidates, kids),
                    };
                    let next = if ld.contains(d@) {
                        p0.drop_first()
                    } else {
                        p0.drop_first() + kids
                    };
                    assert(crawl(el, ld, p0, s0, acc0) == crawl(
                        el,
                        ld,
                        next,
                        s0.insert(d@),
                        acc2,
                    ));
                }
            }
        }
    }
    proof {
        assert(worklist_view(pending@).len() == 0);
        assert(crawl(
            el,
            ld,
            worklist_view(pending@),
            digest_set(seen@),
            LoadPlan { included: edges_view(included@), candidates: digest_set(cands@) },
        ) == LoadPlan { included: edges_view(included@), candidates: digest_set(cands@) });
        assert(edges_view(included@) == goal.included);
        assert(digest_set(cands@) == goal.candidates);
    }

    let mut store = Digistructor::new();
    let n_inc = included.len();
    let mut i: usize = 0;
    proof {
        assert(goal.included.take(0) =~= Seq::<EdgeView>::empty());
    }
    while i < n_inc
        invariant
            0 <= i <= n_inc,
            n_inc == included.len(),
            edges_view(included@) == goal.included,
            store.wf(),
            store@ == staged_edges(
                Map::<Seq<u8>, NodeView>::empty(),
                goal.included.take(i as int),
            ),
        decreases n_inc - i,
    {
        store.add(Node::Append(clone_edge(&included[i])));
        i += 1;
        proof {
            assert(goal.included.take(i as int).drop_last() =~= goal.included.take(i as int - 1));
            assert(goal.included.take(i as int).last() == goal.included[i as int - 1]);
            assert(store@ == staged_edges(
                Map::<Seq<u8>, NodeView>::empty(),
                goal.included.take(i as int),
            ));
        }
    }
    proof {
        assert(goal.included.take(n_inc as int) =~= goal.included);
    }
    let ghost base = staged_edges(Map::<Seq<u8>, NodeView>::empty(), goal.included);
    let n_lv = leaves.len();
    let mut j2: usize = 0;
    proof {
        assert(leaves_view(leaves@).take(0) =~= Seq::<LeafView>::empty());
    }
    while j2 < n_lv
        invariant
            0 <= j2 <= n_lv,
            n_lv == leaves.len(),
            digest_set(cands@) == goal.candidates,
            base == staged_edges(Map::<Seq<u8>, NodeView>::empty(), goal.included),
            store.wf(),
            store@ == staged_leaves(base, leaves_view(leaves@).take(j2 as int), goal.candidates),
        decreases n_lv - j2,
    {
        if contains_digest(&cands, &leaves[j2].digest) {
            store.add(Node::Raw(clone_leaf(&leaves[j2])));
        }
        j2 += 1;
        proof {
            assert(leaves_view(leaves@).take(j2 as int).drop_last() =~= leaves_view(
                leaves@,
            ).take(j2 as int - 1));
            assert(leaves_view(leaves@).take(j2 as int).last() == leaves_view(
                leaves@,
            )[j2 as int - 1]);
            assert(store@ == staged_leaves(
                base,
                leaves_view(leaves@).take(j2 as int),
                goal.candidates,
            ));
        }
    }
    proof {
        assert(leaves_view(leaves@).take(n_lv as int) =~= leaves_view(leaves@));
    }
    store
}

/// Hydrate a fresh store for `target` from the backing relations, then
/// resolve `target` on it: the verified bytes behind `target`, or the error
/// that stops their reconstruction.
pub fn hydrate(target: &Vec<u8>, leaves: &Vec<Leaf>, edges: &Vec<AppendEdge>) -> (r: Result<
    Vec<u8>,
    Error,
>)
    ensures
        result_view(r) == resolve(
            loaded_map(leaves_view(leaves@), edges_view(edges@), target@),
            target@,
        ),
{
    let store = load(target, leaves, edges);
    store.get(target)
}

} // verus!
