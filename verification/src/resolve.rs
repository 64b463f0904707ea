use vstd::prelude::*;
use vstd::set::axiom_set_remove_len;
use vstd::set_lib::lemma_len_subset;

use crate::digest::sha256_of;
use crate::digest::SHA256_MAX_INPUT;
use crate::node::Error;
use crate::node::ErrorView;
use crate::node::NodeView;

verus! {

/// The verdict on a reconstructed content for a requested digest: a content
/// too large for the digest function cannot be verified, so no way to
/// construct the digest's bytes remains (`NotFound`); a content whose digest
/// differs from the requested one is corruption (`DigestMismatch`); otherwise
/// the content itself is the result.
pub open spec fn checked_content(want: Seq<u8>, content: Seq<u8>) -> Result<Seq<u8>, ErrorView> {
    if content.len() >= SHA256_MAX_INPUT {
        Err(ErrorView::NotFound(want))
    } else if sha256_of(content) == want {
        Ok(content)
    } else {
        Err(ErrorView::DigestMismatch(want, sha256_of(content)))
    }
}

/// Descending into a child adds the current digest, which the path had not
/// yet seen, to `seen`: the digests of the graph not yet on the path dwindle.
pub proof fn lemma_resolution_measure(dom: Set<Seq<u8>>, seen: Set<Seq<u8>>, want: Seq<u8>)
    requires
        dom.finite(),
        seen.subset_of(dom),
        dom.contains(want),
        !seen.contains(want),
    ensures
        seen.insert(want).subset_of(dom),
        dom.difference(seen.insert(want)).len() < dom.difference(seen).len(),
{
    lemma_len_subset(dom.difference(seen), dom);
    assert(dom.difference(seen.insert(want)) =~= dom.difference(seen).remove(want));
    axiom_set_remove_len(dom.difference(seen), want);
    assert(dom.difference(seen).contains(want));
}

/// Resolution of `want` against `graph`, with `seen` holding the digests
/// already on the current resolution path.
///
/// A digest with no node registered fails with `NotFound`; so does one that
/// recurs on its own resolution path, since a cyclic recipe gives no way to
/// construct its content. Otherwise the node's content is computed — a leaf's
/// data, or the resolved left bytes followed by the resolved right bytes, in
/// that order — and checked against the requested digest. Failures of
/// descendants propagate unchanged.
pub open spec fn resolve_from(
    graph: Map<Seq<u8>, NodeView>,
    want: Seq<u8>,
    seen: Set<Seq<u8>>,
) -> Result<Seq<u8>, ErrorView>
    decreases graph.dom().difference(seen).len()
        when graph.dom().finite() && seen.subset_of(graph.dom())
{
    if !graph.dom().contains(want) {
        Err(ErrorView::NotFound(want))
    } else if seen.contains(want) {
        Err(ErrorView::NotFound(want))
    } else {
        match graph[want] {
            NodeView::Raw(leaf) => checked_content(want, leaf.data),
            NodeView::Append(edge) => {
                proof {
                    lemma_resolution_measure(graph.dom(), seen, want);
                }
                match resolve_from(graph, edge.left, seen.insert(want)) {
                    Err(e) => Err(e),
                    Ok(lb) => match resolve_from(graph, edge.right, seen.insert(want)) {
                        Err(e) => Err(e),
                        Ok(rb) => checked_content(want, lb + rb),
                    },
                }
            },
        }
    }
}

/// Resolution of `want` against `graph`: the verified bytes behind `want`,
/// or the error that stops their reconstruction.
pub open spec fn resolve(graph: Map<Seq<u8>, NodeView>, want: Seq<u8>) -> Result<
    Seq<u8>,
    ErrorView,
> {
    resolve_from(graph, want, Set::empty())
}

/// The mathematical value of an executable resolution result.
pub open spec fn result_view(r: Result<Vec<u8>, Error>) -> Result<Seq<u8>, ErrorView> {
    match r {
        Ok(content) => Ok(content@),
        Err(e) => Err(e@),
    }
}

/// The set of digests a sequence of byte vectors holds.
pub open spec fn digest_set(s: Seq<Vec<u8>>) -> Set<Seq<u8>> {
    Set::new(|d: Seq<u8>| exists|i: int| 0 <= i < s.len() && s[i]@ == d)
}

pub(crate) proof fn lemma_digest_set_push(s: Seq<Vec<u8>>, v: Vec<u8>)
    ensures
        digest_set(s.push(v)) =~= digest_set(s).insert(v@),
{
    assert forall|d: Seq<u8>| digest_set(s.push(v)).contains(d) implies digest_set(s).insert(
        v@,
    ).contains(d) by {
        let i = choose|i: int| 0 <= i < s.push(v).len() && s.push(v)[i]@ == d;
        if i < s.len() {
            assert(s[i]@ == d);
        } else {
            assert(d == v@);
        }
    }
    assert forall|d: Seq<u8>| digest_set(s).insert(v@).contains(d) implies digest_set(
        s.push(v),
    ).contains(d) by {
        if d == v@ {
            assert(s.push(v)[s.len() as int]@ == d);
        } else {
            let i = choose|i: int| 0 <= i < s.len() && s[i]@ == d;
            assert(s.push(v)[i]@ == d);
        }
    }
}

} // verus!
