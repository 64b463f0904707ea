use vstd::prelude::*;

use crate::digest::sha256_of;
use crate::node::EdgeView;
use crate::node::ErrorView;
use crate::node::LeafView;
use crate::node::NodeView;
use crate::resolve::checked_content;
use crate::resolve::resolve;
use crate::resolve::resolve_from;
use crate::digest::SHA256_MAX_INPUT;

verus! {

/// The leaf a producer builds for `data`: keyed by the digest of the data it
/// holds.
pub open spec fn leaf_node(data: Seq<u8>) -> NodeView {
    NodeView::Raw(LeafView { digest: sha256_of(data), data })
}

/// A correctly constructed edge for `content`: keyed by the digest of the
/// fully resolved concatenation, pointing at the two children's digests.
pub open spec fn append_node(content: Seq<u8>, left: Seq<u8>, right: Seq<u8>) -> NodeView {
    NodeView::Append(EdgeView { digest: sha256_of(content), left, right })
}

/// The digest function tells the given contents apart. Distinct contents are
/// assumed to hash apart (collision resistance); equal digests denote equal
/// content.
pub open spec fn digests_apart(contents: Seq<Seq<u8>>) -> bool {
    forall|i: int, j: int|
        0 <= i < j < contents.len() ==> sha256_of(#[trigger] contents[i]) != sha256_of(
            #[trigger] contents[j],
        )
}

/// Unfolds resolution one step at a leaf.
pub proof fn lemma_resolve_raw_from(
    graph: Map<Seq<u8>, NodeView>,
    want: Seq<u8>,
    seen: Set<Seq<u8>>,
    leaf: LeafView,
)
    requires
        graph.dom().finite(),
        seen.subset_of(graph.dom()),
        graph.dom().contains(want),
        !seen.contains(want),
        graph[want] == NodeView::Raw(leaf),
    ensures
        resolve_from(graph, want, seen) == checked_content(want, leaf.data),
{
}

/// Unfolds resolution one step at an edge whose two children resolve.
pub proof fn lemma_resolve_append_from(
    graph: Map<Seq<u8>, NodeView>,
    want: Seq<u8>,
    seen: Set<Seq<u8>>,
    edge: EdgeView,
    lb: Seq<u8>,
    rb: Seq<u8>,
)
    requires
        graph.dom().finite(),
        seen.subset_of(graph.dom()),
        graph.dom().contains(want),
        !seen.contains(want),
        graph[want] == NodeView::Append(edge),
        resolve_from(graph, edge.left, seen.insert(want)) == Ok::<Seq<u8>, ErrorView>(lb),
        resolve_from(graph, edge.right, seen.insert(want)) == Ok::<Seq<u8>, ErrorView>(rb),
    ensures
        resolve_from(graph, want, seen) == checked_content(want, lb + rb),
{
}

/// Round trip: after storing the leaf made from any byte sequence, resolving
/// the leaf's digest returns exactly those bytes, whatever else the store
/// holds.
pub proof fn lemma_round_trip(graph: Map<Seq<u8>, NodeView>, data: Seq<u8>)
    requires
        graph.dom().finite(),
        data.len() < SHA256_MAX_INPUT,
    ensures
        resolve(graph.insert(sha256_of(data), leaf_node(data)), sha256_of(data))
            == Ok::<Seq<u8>, ErrorView>(data),
{
    let g = graph.insert(sha256_of(data), leaf_node(data));
    assert(Set::<Seq<u8>>::empty().subset_of(g.dom()));
    lemma_resolve_raw_from(g, sha256_of(data), Set::empty(), LeafView {
        digest: sha256_of(data),
        data,
    });
}

/// Tamper detection: a leaf stored under a digest that is not the digest of
/// its data resolves to a mismatch naming the requested digest and the digest
/// the data really has.
pub proof fn lemma_tamper_detection(graph: Map<Seq<u8>, NodeView>, digest: Seq<u8>, data: Seq<u8>)
    requires
        graph.dom().finite(),
        data.len() < SHA256_MAX_INPUT,
        digest != sha256_of(data),
    ensures
        resolve(graph.insert(digest, NodeView::Raw(LeafView { digest, data })), digest)
            == Err::<Seq<u8>, ErrorView>(ErrorView::DigestMismatch(digest, sha256_of(data))),
{
    let g = graph.insert(digest, NodeView::Raw(LeafView { digest, data }));
    assert(Set::<Seq<u8>>::empty().subset_of(g.dom()));
    lemma_resolve_raw_from(g, digest, Set::empty(), LeafView { digest, data });
}

/// The balanced composition of four contents: `(a·b)·(c·d)`, every edge
/// correctly constructed.
pub open spec fn balanced_four(a: Seq<u8>, b: Seq<u8>, c: Seq<u8>, d: Seq<u8>) -> Map<
    Seq<u8>,
    NodeView,
> {
    Map::<Seq<u8>, NodeView>::empty().insert(sha256_of(a), leaf_node(a)).insert(
        sha256_of(b),
        leaf_node(b),
    ).insert(sha256_of(c), leaf_node(c)).insert(sha256_of(d), leaf_node(d)).insert(
        sha256_of(a + b),
        append_node(a + b, sha256_of(a), sha256_of(b)),
    ).insert(sha256_of(c + d), append_node(c + d, sha256_of(c), sha256_of(d))).insert(
        sha256_of(a + b + c + d),
        append_node(a + b + c + d, sha256_of(a + b), sha256_of(c + d)),
    )
}

/// The right-leaning composition of four contents: `a·((b·c)·d)`, every edge
/// correctly constructed.
pub open spec fn chained_four(a: Seq<u8>, b: Seq<u8>, c: Seq<u8>, d: Seq<u8>) -> Map<
    Seq<u8>,
    NodeView,
> {
    Map::<Seq<u8>, NodeView>::empty().insert(sha256_of(a), leaf_node(a)).insert(
        sha256_of(b),
        leaf_node(b),
    ).insert(sha256_of(c), leaf_node(c)).insert(sha256_of(d), leaf_node(d)).insert(
        sha256_of(b + c),
        append_node(b + c, sha256_of(b), sha256_of(c)),
    ).insert(sha256_of(b + c + d), append_node(b + c + d, sha256_of(b + c), sha256_of(d))).insert(
        sha256_of(a + b + c + d),
        append_node(a + b + c + d, sha256_of(a), sha256_of(b + c + d)),
    )
}

/// Shape independence: a balanced tree and an unbalanced tree over the same
/// four contents resolve to the same bytes and are addressed by the same
/// digest — the digest of the concatenated content, independent of the shape
/// that produced it. The contents involved are assumed to hash apart, the
/// collision resistance the data model rests on.
pub proof fn lemma_shape_independence(a: Seq<u8>, b: Seq<u8>, c: Seq<u8>, d: Seq<u8>)
    requires
        a.len() + b.len() + c.len() + d.len() < SHA256_MAX_INPUT,
        digests_apart(seq![a, b, c, d, a + b, c + d, b + c, b + c + d, a + b + c + d]),
    ensures
        resolve(balanced_four(a, b, c, d), sha256_of(a + b + c + d)) == Ok::<Seq<u8>, ErrorView>(
            a + b + c + d,
        ),
        resolve(chained_four(a, b, c, d), sha256_of(a + b + c + d)) == Ok::<Seq<u8>, ErrorView>(
            a + b + c + d,
        ),
{
    let s = seq![a, b, c, d, a + b, c + d, b + c, b + c + d, a + b + c + d];
    assert(sha256_of(s[0]) == sha256_of(a));
    assert(sha256_of(s[1]) == sha256_of(b));
    assert(sha256_of(s[2]) == sha256_of(c));
    assert(sha256_of(s[3]) == sha256_of(d));
    assert(sha256_of(s[4]) == sha256_of(a + b));
    assert(sha256_of(s[5]) == sha256_of(c + d));
    assert(sha256_of(s[6]) == sha256_of(b + c));
    assert(sha256_of(s[7]) == sha256_of(b + c + d));
    assert(sha256_of(s[8]) == sha256_of(a + b + c + d));

    let root = sha256_of(a + b + c + d);
    let s1 = Set::<Seq<u8>>::empty().insert(root);

    let g = balanced_four(a, b, c, d);
    let s_ab = s1.insert(sha256_of(a + b));
    let s_cd = s1.insert(sha256_of(c + d));
    assert(s_ab.subset_of(g.dom()));
    assert(s_cd.subset_of(g.dom()));
    lemma_resolve_raw_from(g, sha256_of(a), s_ab, LeafView { digest: sha256_of(a), data: a });
    lemma_resolve_raw_from(g, sha256_of(b), s_ab, LeafView { digest: sha256_of(b), data: b });
    lemma_resolve_raw_from(g, sha256_of(c), s_cd, LeafView { digest: sha256_of(c), data: c });
    lemma_resolve_raw_from(g, sha256_of(d), s_cd, LeafView { digest: sha256_of(d), data: d });
    lemma_resolve_append_from(
        g,
        sha256_of(a + b),
        s1,
        EdgeView { digest: sha256_of(a + b), left: sha256_of(a), right: sha256_of(b) },
        a,
        b,
    );
    lemma_resolve_append_from(
        g,
        sha256_of(c + d),
        s1,
        EdgeView { digest: sha256_of(c + d), left: sha256_of(c), right: sha256_of(d) },
        c,
        d,
    );
    lemma_resolve_append_from(
        g,
        root,
        Set::empty(),
        EdgeView { digest: root, left: sha256_of(a + b), right: sha256_of(c + d) },
        a + b,
        c + d,
    );
    assert((a + b) + (c + d) =~= a + b + c + d);

    let h = chained_four(a, b, c, d);
    let s_bcd = s1.insert(sha256_of(b + c + d));
    let s_bc = s_bcd.insert(sha256_of(b + c));
    assert(s_bcd.subset_of(h.dom()));
    assert(s_bc.subset_of(h.dom()));
    lemma_resolve_raw_from(h, sha256_of(a), s1, LeafView { digest: sha256_of(a), data: a });
    lemma_resolve_raw_from(h, sha256_of(b), s_bc, LeafView { digest: sha256_of(b), data: b });
    lemma_resolve_raw_from(h, sha256_of(c), s_bc, LeafView { digest: sha256_of(c), data: c });
    lemma_resolve_raw_from(h, sha256_of(d), s_bcd, LeafView { digest: sha256_of(d), data: d });
    lemma_resolve_append_from(
        h,
        sha256_of(b + c),
        s_bcd,
        EdgeView { digest: sha256_of(b + c), left: sha256_of(b), right: sha256_of(c) },
        b,
        c,
    );
    lemma_resolve_append_from(
        h,
        sha256_of(b + c + d),
        s1,
        EdgeView { digest: sha256_of(b + c + d), left: sha256_of(b + c), right: sha256_of(d) },
        b + c,
        d,
    );
    assert((b + c) + d =~= b + c + d);
    lemma_resolve_append_from(
        h,
        root,
        Set::empty(),
        EdgeView { digest: root, left: sha256_of(a), right: sha256_of(b + c + d) },
        a,
        b + c + d,
    );
    assert(a + (b + c + d) =~= a + b + c + d);
}

/// The store holding two leaves and one correctly constructed edge over them,
/// left first.
pub open spec fn pair_store(x: Seq<u8>, y: Seq<u8>) -> Map<Seq<u8>, NodeView> {
    Map::<Seq<u8>, NodeView>::empty().insert(sha256_of(x), leaf_node(x)).insert(
        sha256_of(y),
        leaf_node(y),
    ).insert(sha256_of(x + y), append_node(x + y, sha256_of(x), sha256_of(y)))
}

/// Order sensitivity: concatenation is non-commutative. An edge built with
/// `left` and `right` swapped relative to a correct edge is addressed by the
/// digest of the swapped concatenation — under the collision resistance the
/// data model assumes, a different digest — and resolves to the swapped
/// bytes, different content whenever the two concatenations differ.
pub proof fn lemma_order_sensitivity(x: Seq<u8>, y: Seq<u8>)
    requires
        x.len() + y.len() < SHA256_MAX_INPUT,
        digests_apart(seq![x, y, x + y, y + x]),
    ensures
        resolve(pair_store(x, y), sha256_of(x + y)) == Ok::<Seq<u8>, ErrorView>(x + y),
        resolve(pair_store(y, x), sha256_of(y + x)) == Ok::<Seq<u8>, ErrorView>(y + x),
        sha256_of(x + y) != sha256_of(y + x),
        x + y != y + x ==> resolve(pair_store(x, y), sha256_of(x + y)) != resolve(
            pair_store(y, x),
            sha256_of(y + x),
        ),
{
    let s = seq![x, y, x + y, y + x];
    assert(sha256_of(s[0]) == sha256_of(x));
    assert(sha256_of(s[1]) == sha256_of(y));
    assert(sha256_of(s[2]) == sha256_of(x + y));
    assert(sha256_of(s[3]) == sha256_of(y + x));

    let g = pair_store(x, y);
    let s1 = Set::<Seq<u8>>::empty().insert(sha256_of(x + y));
    assert(s1.subset_of(g.dom()));
    lemma_resolve_raw_from(g, sha256_of(x), s1, LeafView { digest: sha256_of(x), data: x });
    lemma_resolve_raw_from(g, sha256_of(y), s1, LeafView { digest: sha256_of(y), data: y });
    lemma_resolve_append_from(
        g,
        sha256_of(x + y),
        Set::empty(),
        EdgeView { digest: sha256_of(x + y), left: sha256_of(x), right: sha256_of(y) },
        x,
        y,
    );

    let h = pair_store(y, x);
    let s2 = Set::<Seq<u8>>::empty().insert(sha256_of(y + x));
    assert(s2.subset_of(h.dom()));
    lemma_resolve_raw_from(h, sha256_of(y), s2, LeafView { digest: sha256_of(y), data: y });
    lemma_resolve_raw_from(h, sha256_of(x), s2, LeafView { digest: sha256_of(x), data: x });
    lemma_resolve_append_from(
        h,
        sha256_of(y + x),
        Set::empty(),
        EdgeView { digest: sha256_of(y + x), left: sha256_of(y), right: sha256_of(x) },
        y,
        x,
    );
}

/// Missing data: resolving a digest for which the store holds no node fails
/// with `NotFound` naming that digest.
pub proof fn lemma_not_found(graph: Map<Seq<u8>, NodeView>, want: Seq<u8>)
    requires
        graph.dom().finite(),
        !graph.dom().contains(want),
    ensures
        resolve(graph, want) == Err::<Seq<u8>, ErrorView>(ErrorView::NotFound(want)),
{
    assert(Set::<Seq<u8>>::empty().subset_of(graph.dom()));
}

} // verus!
