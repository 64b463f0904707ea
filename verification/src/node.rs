use vstd::prelude::*;
use vstd::slice::slice_to_vec;

use crate::digest::sha256;
use crate::digest::sha256_of;
use crate::digest::SHA256_MAX_INPUT;

verus! {

/// The recoverable failures of resolution.
///
/// `NotFound(digest)` says that the store holds no way to construct the
/// content behind `digest`: either no node is registered for it, or the only
/// recipes on offer cannot be carried out (a digest that recurs on its own
/// resolution path, or a content too large for the digest function). It
/// signals unavailability, never corruption.
///
/// `DigestMismatch(want, have)` says that a reconstructed content hashed to
/// `have` instead of the requested `want`: corruption, tampering, or an edge
/// whose declared digest was wrong.
#[derive(Debug)]
pub enum Error {
    DigestMismatch(Vec<u8>, Vec<u8>),
    NotFound(Vec<u8>),
}

/// The mathematical value of an `Error`.
pub enum ErrorView {
    DigestMismatch(Seq<u8>, Seq<u8>),
    NotFound(Seq<u8>),
}

impl View for Error {
    type V = ErrorView;

    open spec fn view(&self) -> ErrorView {
        match self {
            Error::DigestMismatch(want, have) => ErrorView::DigestMismatch(want@, have@),
            Error::NotFound(digest) => ErrorView::NotFound(digest@),
        }
    }
}

/// A node holding raw data. It is well formed when `digest` is the digest of
/// `data`, but the store checks that only at resolution time.
#[derive(Debug, Clone)]
pub struct Leaf {
    pub digest: Vec<u8>,
    pub data: Vec<u8>,
}

/// The mathematical value of a `Leaf`.
pub struct LeafView {
    pub digest: Seq<u8>,
    pub data: Seq<u8>,
}

impl View for Leaf {
    type V = LeafView;

    open spec fn view(&self) -> LeafView {
        LeafView { digest: self.digest@, data: self.data@ }
    }
}

/// A node representing the concatenation of two other nodes' resolved
/// content, left bytes first. It is well formed when `digest` is the digest
/// of the fully resolved concatenation; the store checks that only at
/// resolution time.
#[derive(Debug, Clone)]
pub struct AppendEdge {
    pub digest: Vec<u8>,
    pub left: Vec<u8>,
    pub right: Vec<u8>,
}

/// The mathematical value of an `AppendEdge`.
pub struct EdgeView {
    pub digest: Seq<u8>,
    pub left: Seq<u8>,
    pub right: Seq<u8>,
}

impl View for AppendEdge {
    type V = EdgeView;

    open spec fn view(&self) -> EdgeView {
        EdgeView { digest: self.digest@, left: self.left@, right: self.right@ }
    }
}

/// A node of the store: raw data, or the concatenation of two digests'
/// content.
#[derive(Debug, Clone)]
pub enum Node {
    Raw(Leaf),
    Append(AppendEdge),
}

/// The mathematical value of a `Node`.
pub enum NodeView {
    Raw(LeafView),
    Append(EdgeView),
}

impl View for Node {
    type V = NodeView;

    open spec fn view(&self) -> NodeView {
        match self {
            Node::Raw(leaf) => NodeView::Raw(leaf@),
            Node::Append(edge) => NodeView::Append(edge@),
        }
    }
}

/// Build the well-formed leaf for `content`: the data itself, keyed by the
/// 32-byte digest of that data.
pub fn raw(content: &[u8]) -> (r: Leaf)
    requires
        content@.len() < SHA256_MAX_INPUT,
    ensures
        r.digest@ == sha256_of(content@),
        r.digest@.len() == 32,
        r.data@ == content@,
{
    Leaf { digest: sha256(content), data: slice_to_vec(content) }
}

impl NodeView {
    /// The digest a node declares for itself; the store keys the node by it.
    pub open spec fn digest(self) -> Seq<u8> {
        match self {
            NodeView::Raw(leaf) => leaf.digest,
            NodeView::Append(edge) => edge.digest,
        }
    }
}

impl Node {
    /// The declared digest of the node, the key it is stored under.
    pub fn digest(&self) -> (r: &Vec<u8>)
        ensures
            r@ == self@.digest(),
    {
        match self {
            Node::Raw(leaf) => &leaf.digest,
            Node::Append(edge) => &edge.digest,
        }
    }
}

} // verus!
