use vstd::prelude::*;
use vstd::pervasive::VecAdditionalExecFns;
use vstd::set::axiom_set_remove_len;
use vstd::set_lib::lemma_len_subset;

use crate::digest::sha256;
use crate::node::Error;
use crate::node::ErrorView;
use crate::node::Node;
use crate::node::NodeView;
use crate::resolve::checked_content;
use crate::resolve::digest_set;
use crate::resolve::resolve;
use crate::resolve::resolve_from;
use crate::resolve::result_view;
use crate::digest::SHA256_MAX_INPUT;

verus! {

/// Nodes declare pairwise distinct digests: the sequence behaves as a map.
pub open spec fn distinct_digests(s: Seq<Node>) -> bool {
    forall|i: int, j: int|
        0 <= i < j < s.len() ==> #[trigger] s[i]@.digest() != #[trigger] s[j]@.digest()
}

/// The digest-to-node mapping that a sequence of nodes denotes: each node
/// keyed by its own declared digest, a later node overwriting an earlier one
/// with the same digest.
pub open spec fn map_of(s: Seq<Node>) -> Map<Seq<u8>, NodeView>
    decreases s.len(),
{
    if s.len() == 0 {
        Map::<Seq<u8>, NodeView>::empty()
    } else {
        map_of(s.drop_last()).insert(s.last()@.digest(), s.last()@)
    }
}

/// An in-memory store of nodes, each keyed by its declared digest.
///
/// `add` stages nodes without checking them; `get` resolves a digest to
/// bytes, verifying every node it visits against the digest function.
pub struct Digistructor {
    graph: Vec<Node>,
}

/// Whether two byte vectors hold the same bytes.
pub(crate) fn digests_equal(a: &Vec<u8>, b: &Vec<u8>) -> (r: bool)
    ensures
        r == (a@ == b@),
{
    let r = a == b;
    proof {
        if r {
            assert(a@ =~= b@);
        } else {
            if a@ == b@ {
                assert(a.len() == b.len());
                assert(forall|i: int| 0 <= i < a@.len() ==> a@[i] == b@[i]);
                assert(false);
            }
        }
    }
    r
}

/// Copy a byte vector.
pub(crate) fn clone_bytes(v: &Vec<u8>) -> (r: Vec<u8>)
    ensures
        r@ == v@,
{
    let r = v.clone();
    proof {
        assert forall|i: int| 0 <= i < v@.len() implies r@[i] == v@[i] by {
            assert(cloned::<u8>(v@[i], r@[i]));
        }
        assert(r@ =~= v@);
    }
    r
}

/// Whether one of the byte vectors in `seen` holds the bytes of `want`.
pub(crate) fn contains_digest(seen: &Vec<Vec<u8>>, want: &Vec<u8>) -> (r: bool)
    ensures
        r == digest_set(seen@).contains(want@),
{
    let n = seen.len();
    let mut i: usize = 0;
    while i < n
        invariant
            0 <= i <= n,
            n == seen.len(),
            forall|j: int| 0 <= j < i ==> #[trigger] seen[j]@ != want@,
        decreases n - i,
    {
        if digests_equal(&seen[i], want) {
            proof {
                assert(seen@[i as int]@ == want@);
            }
            return true;
        }
        i += 1;
    }
    proof {
        if digest_set(seen@).contains(want@) {
            let j = choose|j: int| 0 <= j < seen@.len() && seen@[j]@ == want@;
            assert(seen@[j]@ != want@);
        }
    }
    false
}

/// Hash a reconstructed content and hold it against the requested digest.
fn check_content(want: &Vec<u8>, content: Vec<u8>) -> (r: Result<Vec<u8>, Error>)
    ensures
        result_view(r) == checked_content(want@, content@),
{
    if content.len() as u64 >= SHA256_MAX_INPUT {
        return Err(Error::NotFound(clone_bytes(want)));
    }
    let have = sha256(content.as_slice());
    if digests_equal(&have, want) {
        Ok(content)
    } else {
        Err(Error::DigestMismatch(clone_bytes(want), have))
    }
}

proof fn lemma_map_of_absent(s: Seq<Node>, d: Seq<u8>)
    requires
        forall|j: int| 0 <= j < s.len() ==> #[trigger] s[j]@.digest() != d,
    ensures
        !map_of(s).dom().contains(d),
    decreases s.len(),
{
    if s.len() > 0 {
        lemma_map_of_absent(s.drop_last(), d);
    }
}

proof fn lemma_map_of_found(s: Seq<Node>, i: int)
    requires
        distinct_digests(s),
        0 <= i < s.len(),
    ensures
        map_of(s).dom().contains(s[i]@.digest()),
        map_of(s)[s[i]@.digest()] == s[i]@,
    decreases s.len(),
{
    if i < s.len() - 1 {
        assert(s.drop_last()[i] == s[i]);
        lemma_map_of_found(s.drop_last(), i);
        assert(s[i]@.digest() != s.last()@.digest());
    }
}

proof fn lemma_map_of_finite(s: Seq<Node>)
    ensures
        map_of(s).dom().finite(),
    decreases s.len(),
{
    if s.len() > 0 {
        lemma_map_of_finite(s.drop_last());
    }
}

proof fn lemma_map_of_update(s: Seq<Node>, i: int, node: Node)
    requires
        distinct_digests(s),
        0 <= i < s.len(),
        node@.digest() == s[i]@.digest(),
    ensures
        map_of(s.update(i, node)) =~= map_of(s).insert(node@.digest(), node@),
        distinct_digests(s.update(i, node)),
    decreases s.len(),
{
    let t = s.update(i, node);
    assert(t.drop_last() =~= if i == s.len() - 1 {
        s.drop_last()
    } else {
        s.drop_last().update(i, node)
    });
    if i == s.len() - 1 {
        assert(map_of(t) =~= map_of(s).insert(node@.digest(), node@));
    } else {
        lemma_map_of_update(s.drop_last(), i, node);
        assert(s.last()@.digest() != node@.digest());
        assert(map_of(t) == map_of(s.drop_last()).insert(node@.digest(), node@).insert(
            s.last()@.digest(),
            s.last()@,
        ));
        assert(map_of(t) =~= map_of(s).insert(node@.digest(), node@));
    }
}

/// A suspended step of the resolution work stack: what remains to do for an
/// edge once one of its children is resolved.
enum Frame {
    /// The left child is being resolved; `right` still awaits resolution.
    AfterLeft { want: Vec<u8>, right: Vec<u8> },
    /// The right child is being resolved; the left resolved to `left_bytes`.
    AfterRight { want: Vec<u8>, left_bytes: Vec<u8> },
}

/// The mathematical value of a `Frame`.
enum FrameView {
    AfterLeft { want: Seq<u8>, right: Seq<u8> },
    AfterRight { want: Seq<u8>, left_bytes: Seq<u8> },
}

impl View for Frame {
    type V = FrameView;

    closed spec fn view(&self) -> FrameView {
        match self {
            Frame::AfterLeft { want, right } => FrameView::AfterLeft {
                want: want@,
                right: right@,
            },
            Frame::AfterRight { want, left_bytes } => FrameView::AfterRight {
                want: want@,
                left_bytes: left_bytes@,
            },
        }
    }
}

impl FrameView {
    /// The digest whose edge this frame belongs to.
    spec fn want(self) -> Seq<u8> {
        match self {
            FrameView::AfterLeft { want, .. } => want,
            FrameView::AfterRight { want, .. } => want,
        }
    }
}

impl Frame {
    /// The digest whose edge this frame belongs to.
    fn want_ref(&self) -> (r: &Vec<u8>)
        ensures
            r@ == self@.want(),
    {
        match self {
            Frame::AfterLeft { want, .. } => want,
            Frame::AfterRight { want, .. } => want,
        }
    }
}

spec fn frames_view(s: Seq<Frame>) -> Seq<FrameView> {
    s.map_values(|f: Frame| f@)
}

/// Whether the digest `d` is already on the resolution path the work stack
/// holds.
fn frames_hold(frames: &Vec<Frame>, d: &Vec<u8>) -> (r: bool)
    ensures
        r == wants_of(frames_view(frames@)).contains(d@),
{
    let n = frames.len();
    let mut i: usize = 0;
    while i < n
        invariant
            0 <= i <= n,
            n == frames.len(),
            forall|j: int| 0 <= j < i ==> #[trigger] frames[j]@.want() != d@,
        decreases n - i,
    {
        if digests_equal(frames[i].want_ref(), d) {
            proof {
                assert(frames_view(frames@)[i as int].want() == d@);
            }
            return true;
        }
        i += 1;
    }
    proof {
        if wants_of(frames_view(frames@)).contains(d@) {
            let j = choose|j: int|
                0 <= j < frames_view(frames@).len() && frames_view(frames@)[j].want() == d@;
            assert(frames[j]@.want() != d@);
        }
    }
    false
}

/// The digests of the edges suspended on the work stack: the current
/// resolution path.
spec fn wants_of(frames: Seq<FrameView>) -> Set<Seq<u8>> {
    Set::new(|d: Seq<u8>| exists|i: int| 0 <= i < frames.len() && frames[i].want() == d)
}

proof fn lemma_wants_push(frames: Seq<FrameView>, f: FrameView)
    ensures
        wants_of(frames.push(f)) =~= wants_of(frames).insert(f.want()),
{
    assert forall|d: Seq<u8>| wants_of(frames.push(f)).contains(d) implies wants_of(
        frames,
    ).insert(f.want()).contains(d) by {
        let i = choose|i: int| 0 <= i < frames.push(f).len() && frames.push(f)[i].want() == d;
        if i < frames.len() {
            assert(frames[i].want() == d);
        }
    }
    assert forall|d: Seq<u8>| wants_of(frames).insert(f.want()).contains(d) implies wants_of(
        frames.push(f),
    ).contains(d) by {
        if d == f.want() {
            assert(frames.push(f)[frames.len() as int].want() == d);
        } else {
            let i = choose|i: int| 0 <= i < frames.len() && frames[i].want() == d;
            assert(frames.push(f)[i].want() == d);
        }
    }
}

/// What the work stack still computes, given the value the innermost step
/// just produced: each frame consumes the result from below, resolves what it
/// still awaits, and hands its own verdict further out.
spec fn unwind(
    graph: Map<Seq<u8>, NodeView>,
    frames: Seq<FrameView>,
    r: Result<Seq<u8>, ErrorView>,
) -> Result<Seq<u8>, ErrorView>
    decreases frames.len(),
{
    if frames.len() == 0 {
        r
    } else {
        let below = frames.drop_last();
        let next = match frames.last() {
            FrameView::AfterLeft { want, right } => match r {
                Err(e) => Err(e),
                Ok(lb) => match resolve_from(graph, right, wants_of(frames)) {
                    Err(e) => Err(e),
                    Ok(rb) => checked_content(want, lb + rb),
                },
            },
            FrameView::AfterRight { want, left_bytes } => match r {
                Err(e) => Err(e),
                Ok(rb) => checked_content(want, left_bytes + rb),
            },
        };
        unwind(graph, below, next)
    }
}

spec fn pow5(n: nat) -> nat
    decreases n,
{
    if n == 0 {
        1
    } else {
        5 * pow5((n - 1) as nat)
    }
}

proof fn lemma_pow5_pos(n: nat)
    ensures
        pow5(n) >= 1,
    decreases n,
{
    if n > 0 {
        lemma_pow5_pos((n - 1) as nat);
    }
}

/// What it can still cost to resolve one digest with `seen` on the path: a
/// bound on the loop steps of the resolution below it.
spec fn descend_cost(dom: Set<Seq<u8>>, seen: Set<Seq<u8>>) -> nat {
    pow5(dom.difference(seen).len())
}

/// What the suspended frames can still cost: a frame awaiting its right child
/// carries that child's whole descent.
spec fn frames_cost(dom: Set<Seq<u8>>, frames: Seq<FrameView>) -> nat
    decreases frames.len(),
{
    if frames.len() == 0 {
        0
    } else {
        frames_cost(dom, frames.drop_last()) + match frames.last() {
            FrameView::AfterLeft { .. } => 2 + descend_cost(dom, wants_of(frames)),
            FrameView::AfterRight { .. } => 1,
        }
    }
}

/// Putting a fresh digest on the path shrinks what a descent can cost by a
/// factor that pays for the edge's two children and its bookkeeping.
proof fn lemma_descend_cost_step(dom: Set<Seq<u8>>, seen: Set<Seq<u8>>, d: Seq<u8>)
    requires
        dom.finite(),
        seen.subset_of(dom),
        dom.contains(d),
        !seen.contains(d),
    ensures
        descend_cost(dom, seen) >= 5 * descend_cost(dom, seen.insert(d)),
        descend_cost(dom, seen.insert(d)) >= 1,
{
    lemma_len_subset(dom.difference(seen), dom);
    assert(dom.difference(seen.insert(d)) =~= dom.difference(seen).remove(d));
    axiom_set_remove_len(dom.difference(seen), d);
    assert(dom.difference(seen).contains(d));
    let n = dom.difference(seen).len();
    assert(n >= 1);
    assert(dom.difference(seen.insert(d)).len() == n - 1);
    assert(descend_cost(dom, seen) == pow5(n));
    assert(pow5(n) == 5 * pow5((n - 1) as nat));
    lemma_pow5_pos((n - 1) as nat);
}

impl Digistructor {
    /// The store seen as a mapping from digest to node.
    pub closed spec fn view(&self) -> Map<Seq<u8>, NodeView> {
        map_of(self.graph@)
    }

    /// Well-formedness: the nodes' declared digests are pairwise distinct.
    pub closed spec fn wf(&self) -> bool {
        distinct_digests(self.graph@)
    }

    /// An empty store.
    pub fn new() -> (r: Self)
        ensures
            r.wf(),
            r@ == Map::<Seq<u8>, NodeView>::empty(),
    {
        Digistructor { graph: Vec::new() }
    }

    /// Insert the node under its own declared digest, overwriting any node
    /// already registered for that digest. No verification is performed:
    /// checking is deferred to resolution time, so that untrusted or not yet
    /// needed nodes can be staged cheaply.
    pub fn add(&mut self, node: Node)
        requires
            old(self).wf(),
        ensures
            final(self).wf(),
            final(self)@ == old(self)@.insert(node@.digest(), node@),
    {
        let n = self.graph.len();
        let mut i: usize = 0;
        while i < n
            invariant
                0 <= i <= n,
                n == self.graph.len(),
                self == old(self),
                self.wf(),
                forall|j: int| 0 <= j < i ==> #[trigger] self.graph[j]@.digest() != node@.digest(),
            decreases n - i,
        {
            if digests_equal(self.graph[i].digest(), node.digest()) {
                proof {
                    lemma_map_of_update(self.graph@, i as int, node);
                }
                self.graph.set(i, node);
                return ;
            }
            i += 1;
        }
        proof {
            lemma_map_of_absent(self.graph@, node@.digest());
            assert(self.graph@.push(node).drop_last() =~= self.graph@);
            assert forall|a: int, b: int| 0 <= a < b < self.graph@.push(node).len() implies (
            #[trigger] self.graph@.push(node)[a]@.digest()) != (#[trigger] self.graph@.push(
                node,
            )[b]@.digest()) by {
                if b < self.graph@.len() {
                    assert(self.graph@[a]@.digest() != self.graph@[b]@.digest());
                } else {
                    assert(self.graph@.push(node)[b] == node);
                    assert(self.graph@[a]@.digest() != node@.digest());
                }
            }
        }
        self.graph.push(node);
    }

    /// Whether a node is registered for `want`. A membership test only: it
    /// does not say the node would verify.
    pub fn check(&self, want: &Vec<u8>) -> (r: bool)
        requires
            self.wf(),
        ensures
            r == self@.dom().contains(want@),
    {
        self.find(want).is_some()
    }

    /// The store maps only finitely many digests.
    pub proof fn lemma_dom_finite(&self)
        ensures
            self@.dom().finite(),
    {
        lemma_map_of_finite(self.graph@);
    }

    /// Resolve `want` to its verified bytes: look the digest up, reconstruct
    /// the node's content — a leaf's data, or the resolved left bytes
    /// followed by the resolved right bytes — and return it only if it hashes
    /// back to `want`. The store is read, never changed, and every node
    /// visited is re-verified on every call. The traversal keeps its own work
    /// stack, so a deep composition tree cannot grow the call stack.
    pub fn get(&self, want: &Vec<u8>) -> (r: Result<Vec<u8>, Error>)
        requires
            self.wf(),
        ensures
            result_view(r) == resolve(self@, want@),
    {
        proof {
            self.lemma_dom_finite();
        }
        let mut frames: Vec<Frame> = Vec::new();
        // `state` of None: descend into the digest `cur`; `state` of Some:
        // hand the finished result back to the innermost suspended frame.
        let mut cur: Vec<u8> = clone_bytes(want);
        let mut state: Option<Result<Vec<u8>, Error>> = None;
        proof {
            assert(frames_view(frames@) =~= Seq::<FrameView>::empty());
            assert(wants_of(frames_view(frames@)) =~= Set::<Seq<u8>>::empty());
        }
        while !(state.is_some() && frames.len() == 0)
            invariant
                self.wf(),
                self@.dom().finite(),
                wants_of(frames_view(frames@)).subset_of(self@.dom()),
                (match state {
                    None => unwind(
                        self@,
                        frames_view(frames@),
                        resolve_from(self@, cur@, wants_of(frames_view(frames@))),
                    ),
                    Some(r) => unwind(self@, frames_view(frames@), result_view(r)),
                }) == resolve(self@, want@),
            decreases frames_cost(self@.dom(), frames_view(frames@)) + (match state {
                None => descend_cost(self@.dom(), wants_of(frames_view(frames@))),
                Some(_) => 0nat,
            }),
        {
            let ghost fv = frames_view(frames@);
            let ghost dom = self@.dom();
            match state {
                None => {
                    proof {
                        lemma_pow5_pos(dom.difference(wants_of(fv)).len());
                    }
                    match self.find(&cur) {
                        None => {
                            state = Some(Err(Error::NotFound(clone_bytes(&cur))));
                        },
                        Some(node) => {
                            if frames_hold(&frames, &cur) {
                                state = Some(Err(Error::NotFound(clone_bytes(&cur))));
                            } else {
                                // The store keys every node by its own declared
                                // digest, so a retrieved node can never disagree
                                // with the lookup key.
                                assert(node@.digest() == cur@);
                                match node {
                                    Node::Raw(leaf) => {
                                        state = Some(
                                            check_content(&cur, clone_bytes(&leaf.data)),
                                        );
                                    },
                                    Node::Append(edge) => {
                                        let ghost d = cur@;
                                        let ghost lv = edge.left@;
                                        let ghost rv = edge.right@;
                                        let right = clone_bytes(&edge.right);
                                        let left = clone_bytes(&edge.left);
                                        proof {
                                            lemma_descend_cost_step(dom, wants_of(fv), d);
                                        }
                                        frames.push(Frame::AfterLeft { want: cur, right });
                                        cur = left;
                                        state = None;
                                        proof {
                                            let g = self@;
                                            let fv2 = frames_view(frames@);
                                            assert(frames@.last()@ == (FrameView::AfterLeft {
                                                want: d,
                                                right: rv,
                                            }));
                                            assert(fv2 =~= fv.push(frames@.last()@));
                                            lemma_wants_push(fv, frames@.last()@);
                                            let w2 = wants_of(fv2);
                                            assert(w2 =~= wants_of(fv).insert(d));
                                            let step = (match resolve_from(g, lv, w2) {
                                                Err(e) => Err::<Seq<u8>, ErrorView>(e),
                                                Ok(lb) => match resolve_from(g, rv, w2) {
                                                    Err(e) => Err(e),
                                                    Ok(rb) => checked_content(d, lb + rb),
                                                },
                                            });
                                            assert(resolve_from(g, d, wants_of(fv)) == step);
                                            assert(fv2.drop_last() =~= fv);
                                            assert(unwind(g, fv2, resolve_from(g, lv, w2))
                                                == unwind(g, fv, step));
                                        }
                                    },
                                }
                            }
                        },
                    }
                },
                Some(r) => {
                    let top = match frames.pop() {
                        Some(top) => top,
                        None => {
                            proof {
                                assert(false);
                            }
                            return r;
                        },
                    };
                    proof {
                        assert(fv.drop_last() =~= frames_view(frames@));
                        assert(fv.last() == top@);
                    }
                    match top {
                        Frame::AfterLeft { want: parent, right } => {
                            match r {
                                Err(e) => {
                                    let ghost ev = e@;
                                    state = Some(Err(e));
                                    proof {
                                        assert(fv.drop_last() =~= frames_view(frames@));
                                        assert(unwind(self@, fv, Err::<Seq<u8>, ErrorView>(ev))
                                            == unwind(
                                            self@,
                                            frames_view(frames@),
                                            Err::<Seq<u8>, ErrorView>(ev),
                                        ));
                                    }
                                },
                                Ok(lb) => {
                                    let ghost below = frames_view(frames@);
                                    let ghost d = parent@;
                                    let ghost rv = right@;
                                    let ghost lbv = lb@;
                                    proof {
                                        assert(below.push(fv.last()) =~= fv);
                                        lemma_wants_push(below, fv.last());
                                        assert(fv.last() == (FrameView::AfterLeft {
                                            want: d,
                                            right: rv,
                                        }));
                                        assert(wants_of(fv) =~= wants_of(below).insert(d));
                                    }
                                    frames.push(
                                        Frame::AfterRight { want: parent, left_bytes: lb },
                                    );
                                    cur = right;
                                    state = None;
                                    proof {
                                        let g = self@;
                                        let fv2 = frames_view(frames@);
                                        assert(frames@.last()@ == (FrameView::AfterRight {
                                            want: d,
                                            left_bytes: lbv,
                                        }));
                                        assert(fv2 =~= below.push(frames@.last()@));
                                        lemma_wants_push(below, frames@.last()@);
                                        assert(wants_of(fv2) =~= wants_of(fv));
                                        let step = (match resolve_from(g, rv, wants_of(fv)) {
                                            Err(e) => Err::<Seq<u8>, ErrorView>(e),
                                            Ok(rb) => checked_content(d, lbv + rb),
                                        });
                                        assert(fv.drop_last() =~= below);
                                        assert(unwind(g, fv, Ok::<Seq<u8>, ErrorView>(lbv))
                                            == unwind(g, below, step));
                                        assert(fv2.drop_last() =~= below);
                                        assert(resolve_from(g, cur@, wants_of(fv2))
                                            == resolve_from(g, rv, wants_of(fv)));
                                        assert(unwind(g, fv2, resolve_from(g, cur@, wants_of(fv2)))
                                            == unwind(g, below, step));
                                    }
                                },
                            }
                        },
                        Frame::AfterRight { want: parent, left_bytes } => {
                            match r {
                                Err(e) => {
                                    let ghost ev = e@;
                                    state = Some(Err(e));
                                    proof {
                                        assert(fv.drop_last() =~= frames_view(frames@));
                                        assert(unwind(self@, fv, Err::<Seq<u8>, ErrorView>(ev))
                                            == unwind(
                                            self@,
                                            frames_view(frames@),
                                            Err::<Seq<u8>, ErrorView>(ev),
                                        ));
                                    }
                                },
                                Ok(rb) => {
                                    let ghost d = parent@;
                                    let ghost lbv = left_bytes@;
                                    let ghost rbv = rb@;
                                    let mut content = left_bytes;
                                    let mut right_part = rb;
                                    content.append(&mut right_part);
                                    state = Some(check_content(&parent, content));
                                    proof {
                                        assert(fv.last() == (FrameView::AfterRight {
                                            want: d,
                                            left_bytes: lbv,
                                        }));
                                        assert(fv.drop_last() =~= frames_view(frames@));
                                        assert(unwind(self@, fv, Ok::<Seq<u8>, ErrorView>(rbv))
                                            == unwind(
                                            self@,
                                            frames_view(frames@),
                                            checked_content(d, lbv + rbv),
                                        ));
                                    }
                                },
                            }
                        },
                    }
                },
            }
        }
        match state {
            Some(r) => r,
            None => {
                proof {
                    assert(false);
                }
                Err(Error::NotFound(clone_bytes(want)))
            },
        }
    }

    /// Look a digest up in the store.
    fn find(&self, want: &Vec<u8>) -> (r: Option<&Node>)
        requires
            self.wf(),
        ensures
            match r {
                Some(node) => self@.dom().contains(want@) && node@ == self@[want@]
                    && node@.digest() == want@,
                None => !self@.dom().contains(want@),
            },
    {
        let n = self.graph.len();
        let mut i: usize = 0;
        while i < n
            invariant
                0 <= i <= n,
                n == self.graph.len(),
                self.wf(),
                self@ == map_of(self.graph@),
                forall|j: int| 0 <= j < i ==> #[trigger] self.graph[j]@.digest() != want@,
            decreases n - i,
        {
            let node = &self.graph[i];
            if digests_equal(node.digest(), want) {
                proof {
                    lemma_map_of_found(self.graph@, i as int);
                }
                return Some(node);
            }
            i += 1;
        }
        proof {
            lemma_map_of_absent(self.graph@, want@);
        }
        None
    }
}

} // verus!
