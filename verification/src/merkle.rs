use vstd::prelude::*;
use vstd::string::StringExecFns;

use crate::error::{MerkleError, ERROR_EMPTY_INPUT, ERROR_NOT_POWER_OF_TWO};

verus! {

/// An arbitrary-length byte sequence.
pub type Bytes = Vec<u8>;

/// Raw bytes supplied by a caller: one record, or a concatenation of digests.
#[derive(Debug)]
pub struct Plaintext(pub Bytes);

impl View for Plaintext {
    type V = Seq<u8>;

    open spec fn view(&self) -> Seq<u8> {
        self.0@
    }
}

impl From<Bytes> for Plaintext {
    fn from(value: Bytes) -> (p: Plaintext) {
        Plaintext(value)
    }
}

impl vstd::std_specs::convert::FromSpecImpl<Bytes> for Plaintext {
    open spec fn obeys_from_spec() -> bool {
        true
    }

    open spec fn from_spec(v: Bytes) -> Plaintext {
        Plaintext(v)
    }
}

/// Fixed-length output of the hash function; equality is byte-wise.
#[derive(Debug)]
pub struct Digest(pub Bytes);

impl View for Digest {
    type V = Seq<u8>;

    open spec fn view(&self) -> Seq<u8> {
        self.0@
    }
}

impl From<Bytes> for Digest {
    fn from(value: Bytes) -> (d: Digest) {
        Digest(value)
    }
}

impl vstd::std_specs::convert::FromSpecImpl<Bytes> for Digest {
    open spec fn obeys_from_spec() -> bool {
        true
    }

    open spec fn from_spec(v: Bytes) -> Digest {
        Digest(v)
    }
}

/// The digest that the hash function assigns to a byte sequence.
pub uninterp spec fn sha256_of(bytes: Seq<u8>) -> Seq<u8>;

/// Relies on sha2::Sha256 (via the digest traits): a deterministic digest of
/// the input bytes alone, 32 bytes long.
#[verifier::external_body]
pub fn somehow_hash(x: &[u8]) -> (d: Digest)
    ensures
        d@ == sha256_of(x@),
        d@.len() == 32,
{
    let mut hasher = <sha2::Sha256 as sha2::Digest>::new();
    sha2::Digest::update(&mut hasher, x);
    Digest(sha2::Digest::finalize(hasher).to_vec())
}

/// The sixteen lowercase hexadecimal digit characters.
pub open spec fn hex_digits() -> Seq<char> {
    seq!['0', '1', '2', '3', '4', '5', '6', '7', '8', '9', 'a', 'b', 'c', 'd', 'e', 'f']
}

/// Lowercase hexadecimal text of a byte sequence: two digits per byte, high
/// nibble first, bytes in order.
pub open spec fn hex_of(bytes: Seq<u8>) -> Seq<char>
    decreases bytes.len(),
{
    if bytes.len() == 0 {
        Seq::empty()
    } else {
        seq![hex_digits()[bytes[0] as int / 16], hex_digits()[bytes[0] as int % 16]]
            + hex_of(bytes.skip(1))
    }
}

/// Relies on hex::encode: lowercase hexadecimal, two digits per byte with the
/// high nibble first, bytes in input order.
#[verifier::external_body]
fn hex_encode(bytes: &[u8]) -> (r: String)
    ensures
        r@ == hex_of(bytes@),
{
    hex::encode(bytes)
}

/// Byte-for-byte copy of a vector.
fn clone_bytes(v: &Vec<u8>) -> (r: Vec<u8>)
    ensures
        r@ == v@,
{
    let mut r: Vec<u8> = Vec::new();
    let mut i: usize = 0;
    while i < v.len()
        invariant
            i <= v@.len(),
            r@ == v@.take(i as int),
        decreases v@.len() - i,
    {
        let b = v[i];
        r.push(b);
        i += 1;
        proof {
            assert(r@ =~= v@.take(i as int));
        }
    }
    proof {
        assert(v@.take(v@.len() as int) =~= v@);
    }
    r
}

impl Digest {
    /// Canonical lowercase hexadecimal rendering of the digest bytes.
    pub fn to_hex(&self) -> (r: String)
        ensures
            r@ == hex_of(self@),
    {
        hex_encode(self.0.as_slice())
    }

    /// A fresh digest holding the same bytes.
    pub fn duplicate(&self) -> (d: Digest)
        ensures
            d@ == self@,
    {
        Digest(clone_bytes(&self.0))
    }
}

impl PartialEq for Digest {
    fn eq(&self, other: &Digest) -> bool {
        let r = self.0 == other.0;
        proof {
            if r {
                assert(self.0@ =~= other.0@);
            }
            if self.0@ == other.0@ {
                assert(forall|i: int| 0 <= i < self.0@.len() ==> self.0@[i] == other.0@[i]);
            }
        }
        r
    }
}

impl vstd::std_specs::cmp::PartialEqSpecImpl for Digest {
    open spec fn obeys_eq_spec() -> bool {
        true
    }

    open spec fn eq_spec(&self, other: &Digest) -> bool {
        self@ == other@
    }
}

/// The abstract shape and contents of a Merkle tree: a leaf holds one digest,
/// an internal node holds two ordered children.
pub enum TreeView {
    Leaf(Seq<u8>),
    Internal(Box<TreeView>, Box<TreeView>),
}

impl TreeView {
    /// The digest that summarises this subtree: a leaf's own digest, or the
    /// hash of the left child's digest concatenated with the right child's.
    pub open spec fn root_digest(self) -> Seq<u8>
        decreases self,
    {
        match self {
            TreeView::Leaf(d) => d,
            TreeView::Internal(l, r) => sha256_of((*l).root_digest() + (*r).root_digest()),
        }
    }

    /// Number of edges from the root down to a leaf along the left spine.
    pub open spec fn height(self) -> nat
        decreases self,
    {
        match self {
            TreeView::Leaf(_) => 0,
            TreeView::Internal(l, _) => 1 + (*l).height(),
        }
    }

    /// The leaf digests from left to right.
    pub open spec fn leaf_digests(self) -> Seq<Seq<u8>>
        decreases self,
    {
        match self {
            TreeView::Leaf(d) => seq![d],
            TreeView::Internal(l, r) => (*l).leaf_digests() + (*r).leaf_digests(),
        }
    }

    /// Completeness: both children of every internal node have equal height.
    pub open spec fn complete(self) -> bool
        decreases self,
    {
        match self {
            TreeView::Leaf(_) => true,
            TreeView::Internal(l, r) => {
                &&& (*l).height() == (*r).height()
                &&& (*l).complete()
                &&& (*r).complete()
            },
        }
    }

    /// Pre-order traversal: the node itself, then the left subtree, then the
    /// right subtree.
    pub open spec fn flattened(self) -> Seq<TreeView>
        decreases self,
    {
        match self {
            TreeView::Leaf(_) => seq![self],
            TreeView::Internal(l, r) => seq![self] + (*l).flattened() + (*r).flattened(),
        }
    }

    /// Parenthesised text of a tree: a leaf shows its digest in lowercase
    /// hexadecimal, an internal node shows its two children as "(left, right)".
    pub open spec fn rendered(self) -> Seq<char>
        decreases self,
    {
        match self {
            TreeView::Leaf(d) => hex_of(d),
            TreeView::Internal(l, r) => seq!['('] + (*l).rendered() + seq![',', ' ']
                + (*r).rendered() + seq![')'],
        }
    }

    /// The sibling digests met on the walk from leaf `i` up to the root, in
    /// leaf-to-root order.
    pub open spec fn sibling_path(self, i: int) -> Seq<Seq<u8>>
        decreases self,
    {
        match self {
            TreeView::Leaf(_) => Seq::empty(),
            TreeView::Internal(l, r) => {
                let half = (*l).leaf_digests().len() as int;
                if i < half {
                    (*l).sibling_path(i) + seq![(*r).root_digest()]
                } else {
                    (*r).sibling_path(i - half) + seq![(*l).root_digest()]
                }
            },
        }
    }

    /// Whether this tree accepts `proof` as evidence that a record with bytes
    /// `leaf` is a member: the proof has one entry per level, and recomputing
    /// the root from the record's digest at some leaf position that holds it
    /// reproduces the actual root digest.
    pub open spec fn accepts(self, leaf: Seq<u8>, proof: Seq<Seq<u8>>) -> bool {
        &&& proof.len() == self.height()
        &&& exists|i: int|
            0 <= i < self.leaf_digests().len()
                && (#[trigger] self.leaf_digests()[i]) == sha256_of(leaf)
                && reconstruct_from(sha256_of(leaf), i, proof) == self.root_digest()
    }
}

/// Walks a proof from the leaf level upward: at each level the current digest
/// is combined with the sibling digest, the side chosen by the low bit of the
/// leaf position at that level, and the position is halved.
pub open spec fn reconstruct_from(digest: Seq<u8>, index: int, proof: Seq<Seq<u8>>) -> Seq<u8>
    decreases proof.len(),
{
    if proof.len() == 0 {
        digest
    } else {
        let combined = if index % 2 == 0 {
            sha256_of(digest + proof[0])
        } else {
            sha256_of(proof[0] + digest)
        };
        reconstruct_from(combined, index / 2, proof.skip(1))
    }
}

/// The digests of an ordered record list, one per record.
pub open spec fn leaf_digests_of(records: Seq<Seq<u8>>) -> Seq<Seq<u8>> {
    Seq::new(records.len(), |i: int| sha256_of(records[i]))
}

/// The complete binary tree built over `digests` by pairwise combination:
/// a single digest is a leaf; otherwise the left half and the right half each
/// build a subtree.
pub open spec fn tree_of(digests: Seq<Seq<u8>>) -> TreeView
    decreases digests.len(),
{
    if digests.len() <= 1 {
        TreeView::Leaf(digests[0])
    } else {
        TreeView::Internal(
            Box::new(tree_of(digests.take(digests.len() as int / 2))),
            Box::new(tree_of(digests.skip(digests.len() as int / 2))),
        )
    }
}

/// Whether `n` is a power of two.
pub open spec fn spec_is_pow2(n: int) -> bool
    decreases n,
{
    if n <= 0 {
        false
    } else if n == 1 {
        true
    } else {
        n % 2 == 0 && spec_is_pow2(n / 2)
    }
}

/// Two raised to the power `k`.
pub open spec fn spec_pow2(k: nat) -> nat
    decreases k,
{
    if k == 0 {
        1
    } else {
        2 * spec_pow2((k - 1) as nat)
    }
}

/// The views of a sequence of digests.
pub open spec fn digest_views(ds: Seq<Digest>) -> Seq<Seq<u8>> {
    Seq::new(ds.len(), |i: int| ds[i]@)
}

/// The views of a sequence of byte vectors.
pub open spec fn byte_views(rs: Seq<Vec<u8>>) -> Seq<Seq<u8>> {
    Seq::new(rs.len(), |i: int| rs[i]@)
}

/// The views of a sequence of trees.
pub open spec fn tree_views(ts: Seq<MerkleTree>) -> Seq<TreeView> {
    Seq::new(ts.len(), |i: int| ts[i]@)
}

/// A binary Merkle hash tree: a leaf owns the digest of one record, an
/// internal node owns its two children exclusively.
#[derive(Debug)]
pub enum MerkleTree {
    Internal(Box<MerkleTree>, Box<MerkleTree>),
    Leaf(Digest),
}

impl MerkleTree {
    /// The abstract tree that this value represents.
    pub open spec fn as_view(self) -> TreeView
        decreases self,
    {
        match self {
            MerkleTree::Leaf(d) => TreeView::Leaf(d@),
            MerkleTree::Internal(l, r) => TreeView::Internal(
                Box::new((*l).as_view()),
                Box::new((*r).as_view()),
            ),
        }
    }
}

impl View for MerkleTree {
    type V = TreeView;

    open spec fn view(&self) -> TreeView {
        self.as_view()
    }
}

/// Concatenates two digests, left bytes then right bytes.
pub fn concat_digests(left: Digest, right: Digest) -> (p: Plaintext)
    ensures
        p@ == left@ + right@,
{
    let mut bytes = left.0;
    let mut rest = right.0;
    bytes.append(&mut rest);
    Plaintext(bytes)
}

/// Concatenates the root digests of two trees, left then right.
pub fn concat_trees(left: &MerkleTree, right: &MerkleTree) -> (p: Plaintext)
    ensures
        p@ == left@.root_digest() + right@.root_digest(),
{
    concat_digests(left.root(), right.root())
}

impl MerkleTree {
    /// Computes the root digest: a leaf returns its stored digest; an internal
    /// node hashes the concatenation of its children's roots, left then right.
    pub fn root(&self) -> (d: Digest)
        ensures
            d@ == self@.root_digest(),
        decreases *self,
    {
        match self {
            MerkleTree::Leaf(d) => d.duplicate(),
            MerkleTree::Internal(l, r) => {
                let a = l.root();
                let b = r.root();
                somehow_hash(concat_digests(a, b).0.as_slice())
            },
        }
    }

    /// Renders the tree as text: a leaf as its digest in lowercase
    /// hexadecimal, an internal node as "(left, right)".
    pub fn render(&self) -> (s: String)
        ensures
            s@ == self@.rendered(),
        decreases *self,
    {
        match self {
            MerkleTree::Leaf(d) => d.to_hex(),
            MerkleTree::Internal(l, r) => {
                let mut s = String::new();
                s.append("(");
                let left = l.render();
                s.append(left.as_str());
                s.append(", ");
                let right = r.render();
                s.append(right.as_str());
                s.append(")");
                proof {
                    reveal_strlit("(");
                    reveal_strlit(", ");
                    reveal_strlit(")");
                    assert("("@ =~= seq!['(']);
                    assert(", "@ =~= seq![',', ' ']);
                    assert(")"@ =~= seq![')']);
                    assert(s@ =~= self@.rendered());
                }
                s
            },
        }
    }

    /// The height of the tree: a leaf has height zero, an internal node one
    /// more than its left child.
    pub fn height(&self) -> (h: usize)
        requires
            self@.height() <= usize::MAX,
        ensures
            h == self@.height(),
        decreases *self,
    {
        match self {
            MerkleTree::Leaf(_) => 0,
            MerkleTree::Internal(l, _) => 1 + l.height(),
        }
    }
}

/// Decides whether `n` is a power of two by stripping factors of two.
fn is_power_of_two(n: usize) -> (b: bool)
    ensures
        b == spec_is_pow2(n as int),
{
    if n == 0 {
        return false;
    }
    let mut m = n;
    while m % 2 == 0
        invariant
            m >= 1,
            spec_is_pow2(n as int) == spec_is_pow2(m as int),
        decreases m,
    {
        m = m / 2;
    }
    m == 1
}

impl MerkleTree {
    /// One leaf per record, in order, each holding the record's digest.
    fn compute_leaves(records: &Vec<Bytes>) -> (leaves: Vec<MerkleTree>)
        ensures
            leaves@.len() == records@.len(),
            forall|j: int|
                0 <= j < leaves@.len() ==> (#[trigger] leaves@[j])@ == TreeView::Leaf(
                    sha256_of(records@[j]@),
                ),
    {
        let mut leaves: Vec<MerkleTree> = Vec::new();
        let mut i: usize = 0;
        while i < records.len()
            invariant
                i <= records@.len(),
                leaves@.len() == i,
                forall|j: int|
                    0 <= j < i ==> (#[trigger] leaves@[j])@ == TreeView::Leaf(
                        sha256_of(records@[j]@),
                    ),
            decreases records@.len() - i,
        {
            let d = somehow_hash(records[i].as_slice());
            leaves.push(MerkleTree::Leaf(d));
            i += 1;
        }
        leaves
    }

    /// Combines a level pairwise, left to right: consecutive pairs become
    /// internal nodes of the next level up.
    fn compute_next_level(level: Vec<MerkleTree>) -> (next: Vec<MerkleTree>)
        requires
            level@.len() % 2 == 0,
        ensures
            next@.len() == level@.len() / 2,
            forall|j: int|
                0 <= j < next@.len() ==> (#[trigger] next@[j])@ == TreeView::Internal(
                    Box::new(level@[2 * j]@),
                    Box::new(level@[2 * j + 1]@),
                ),
    {
        let ghost orig = level@;
        let mut rest = level;
        let mut next: Vec<MerkleTree> = Vec::new();
        while rest.len() >= 2
            invariant
                rest@.len() % 2 == 0,
                2 * next@.len() + rest@.len() == orig.len(),
                rest@ == orig.skip(2 * next@.len() as int),
                forall|j: int|
                    0 <= j < next@.len() ==> (#[trigger] next@[j])@ == TreeView::Internal(
                        Box::new(orig[2 * j]@),
                        Box::new(orig[2 * j + 1]@),
                    ),
            decreases rest@.len(),
        {
            let ghost done = next@.len() as int;
            let a = rest.remove(0);
            let b = rest.remove(0);
            next.push(MerkleTree::Internal(Box::new(a), Box::new(b)));
            proof {
                assert(a == orig[2 * done]);
                assert(b == orig[2 * done + 1]);
                assert(rest@ =~= orig.skip(2 * (done + 1)));
            }
        }
        next
    }

    /// Builds the complete Merkle tree over `records`, rejecting an empty
    /// list and any record count that is not a power of two.
    pub fn new(records: Vec<Bytes>) -> (result: Result<MerkleTree, MerkleError>)
        ensures
            spec_is_pow2(records@.len() as int) ==> (result matches Ok(t) && t@ == tree_of(
                leaf_digests_of(byte_views(records@)),
            )),
            !spec_is_pow2(records@.len() as int) ==> (result matches Err(e) && e.spec_code() == (
            if records@.len() == 0 {
                ERROR_EMPTY_INPUT
            } else {
                ERROR_NOT_POWER_OF_TWO
            })),
    {
        if records.len() == 0 {
            return Err(
                MerkleError::new(ERROR_EMPTY_INPUT, "no records supplied".to_owned(), None),
            );
        }
        if !is_power_of_two(records.len()) {
            return Err(
                MerkleError::new(
                    ERROR_NOT_POWER_OF_TWO,
                    "record count is not a power of two".to_owned(),
                    None,
                ),
            );
        }
        let ghost digests = leaf_digests_of(byte_views(records@));
        let mut level = Self::compute_leaves(&records);
        let ghost mut width: int = 1;
        proof {
            assert(digests.len() == level@.len());
            assert forall|j: int| 0 <= j < level@.len() implies (#[trigger] level@[j])@ == tree_of(
                digests.subrange(j * width, (j + 1) * width),
            ) by {
                let sub = digests.subrange(j * width, (j + 1) * width);
                assert(sub.len() == 1);
                assert(sub[0] == digests[j]);
                assert(digests[j] == sha256_of(byte_views(records@)[j]));
            }
        }
        while level.len() > 1
            invariant
                width >= 1,
                spec_is_pow2(level@.len() as int),
                level@.len() * width == digests.len(),
                forall|j: int|
                    0 <= j < level@.len() ==> (#[trigger] level@[j])@ == tree_of(
                        digests.subrange(j * width, (j + 1) * width),
                    ),
            decreases level@.len(),
        {
            let ghost old_level = level@;
            let ghost old_width = width;
            proof {
                assert(old_level.len() % 2 == 0) by {
                    assert(spec_is_pow2(old_level.len() as int));
                    assert(old_level.len() > 1);
                }
            }
            level = Self::compute_next_level(level);
            proof {
                width = 2 * width;
                assert(spec_is_pow2(level@.len() as int)) by {
                    assert(spec_is_pow2(old_level.len() as int));
                    assert(old_level.len() as int / 2 == level@.len() as int);
                }
                assert(level@.len() * width == digests.len()) by (nonlinear_arith)
                    requires
                        level@.len() == old_level.len() / 2,
                        old_level.len() % 2 == 0,
                        old_level.len() * old_width == digests.len(),
                        width == 2 * old_width,
                ;
                assert forall|j: int| 0 <= j < level@.len() implies (#[trigger] level@[j])@
                    == tree_of(digests.subrange(j * width, (j + 1) * width)) by {
                    let lo = j * width;
                    let hi = (j + 1) * width;
                    assert(0 <= lo && hi <= digests.len() && lo + 2 * old_width == hi)
                        by (nonlinear_arith)
                        requires
                            0 <= j < level@.len(),
                            width == 2 * old_width,
                            old_width >= 1,
                            lo == j * width,
                            hi == (j + 1) * width,
                            level@.len() * width == digests.len(),
                    ;
                    let sub = digests.subrange(lo, hi);
                    assert(sub.len() == 2 * old_width);
                    assert(sub.len() > 1);
                    assert(lo == 2 * j * old_width && lo + old_width == (2 * j + 1) * old_width
                        && hi == (2 * j + 2) * old_width) by (nonlinear_arith)
                        requires
                            width == 2 * old_width,
                            lo == j * width,
                            hi == (j + 1) * width,
                    ;
                    assert(sub.take(sub.len() as int / 2) =~= digests.subrange(
                        2 * j * old_width,
                        (2 * j + 1) * old_width,
                    ));
                    assert(sub.skip(sub.len() as int / 2) =~= digests.subrange(
                        (2 * j + 1) * old_width,
                        (2 * j + 2) * old_width,
                    ));
                    assert(old_level[2 * j]@ == tree_of(
                        digests.subrange(2 * j * old_width, (2 * j + 1) * old_width),
                    ));
                    assert(old_level[2 * j + 1]@ == tree_of(
                        digests.subrange((2 * j + 1) * old_width, (2 * j + 2) * old_width),
                    ));
                }
            }
        }
        let root = match level.pop() {
            Some(t) => t,
            None => {
                proof {
                    assert(false);
                }
                unreached()
            },
        };
        proof {
            assert(digests.subrange(0, width) =~= digests);
        }
        Ok(root)
    }

    /// A fresh tree with the same shape and the same digests.
    pub fn duplicate(&self) -> (t: MerkleTree)
        ensures
            t@ == self@,
        decreases *self,
    {
        match self {
            MerkleTree::Leaf(d) => MerkleTree::Leaf(d.duplicate()),
            MerkleTree::Internal(l, r) => MerkleTree::Internal(
                Box::new(l.duplicate()),
                Box::new(r.duplicate()),
            ),
        }
    }

    /// The number of leaves in the tree.
    pub fn leaf_count(&self) -> (n: usize)
        requires
            self@.leaf_digests().len() <= usize::MAX,
        ensures
            n == self@.leaf_digests().len(),
        decreases *self,
    {
        match self {
            MerkleTree::Leaf(_) => 1,
            MerkleTree::Internal(l, r) => l.leaf_count() + r.leaf_count(),
        }
    }

    /// The leaf digests from left to right.
    pub fn leaves(&self) -> (ds: Vec<Digest>)
        ensures
            digest_views(ds@) == self@.leaf_digests(),
        decreases *self,
    {
        match self {
            MerkleTree::Leaf(d) => {
                let mut ds: Vec<Digest> = Vec::new();
                ds.push(d.duplicate());
                proof {
                    assert(digest_views(ds@) =~= self@.leaf_digests());
                }
                ds
            },
            MerkleTree::Internal(l, r) => {
                let mut ds = l.leaves();
                let mut right = r.leaves();
                let ghost left_views = digest_views(ds@);
                let ghost right_views = digest_views(right@);
                ds.append(&mut right);
                proof {
                    assert(digest_views(ds@) =~= left_views + right_views);
                }
                ds
            },
        }
    }

    /// Produces the array representation of the tree: pre-order, the node
    /// first, then its left subtree, then its right subtree.
    pub fn flatten(root: MerkleTree) -> (nodes: Vec<MerkleTree>)
        ensures
            tree_views(nodes@) == root@.flattened(),
        decreases root,
    {
        let mut nodes: Vec<MerkleTree> = Vec::new();
        nodes.push(root.duplicate());
        match root {
            MerkleTree::Internal(l, r) => {
                let mut left_nodes = Self::flatten(*l);
                let mut right_nodes = Self::flatten(*r);
                let ghost first = tree_views(nodes@);
                let ghost left_views = tree_views(left_nodes@);
                let ghost right_views = tree_views(right_nodes@);
                nodes.append(&mut left_nodes);
                nodes.append(&mut right_nodes);
                proof {
                    assert(tree_views(nodes@) =~= first + left_views + right_views);
                }
                nodes
            },
            MerkleTree::Leaf(_) => {
                proof {
                    assert(tree_views(nodes@) =~= root@.flattened());
                }
                nodes
            },
        }
    }

    /// Derives the inclusion proof for the leaf at position `index` by walking
    /// from that leaf up to the root, collecting the sibling digest at each
    /// level in leaf-to-root order.
    pub fn proof_for(&self, index: usize) -> (p: Vec<Digest>)
        requires
            index < self@.leaf_digests().len(),
            self@.leaf_digests().len() <= usize::MAX,
        ensures
            digest_views(p@) == self@.sibling_path(index as int),
        decreases *self,
    {
        match self {
            MerkleTree::Leaf(_) => {
                let p: Vec<Digest> = Vec::new();
                proof {
                    assert(digest_views(p@) =~= self@.sibling_path(index as int));
                }
                p
            },
            MerkleTree::Internal(l, r) => {
                let half = l.leaf_count();
                if index < half {
                    let mut p = l.proof_for(index);
                    let ghost below = digest_views(p@);
                    p.push(r.root());
                    proof {
                        assert(digest_views(p@) =~= below + seq![r@.root_digest()]);
                    }
                    p
                } else {
                    let mut p = r.proof_for(index - half);
                    let ghost below = digest_views(p@);
                    p.push(l.root());
                    proof {
                        assert(digest_views(p@) =~= below + seq![l@.root_digest()]);
                    }
                    p
                }
            },
        }
    }

    /// Whether the tree's height equals `h`, decided by descending the left
    /// spine.
    fn has_height(&self, h: usize) -> (b: bool)
        ensures
            b == (self@.height() == h),
        decreases *self,
    {
        match self {
            MerkleTree::Leaf(_) => h == 0,
            MerkleTree::Internal(l, _) => h >= 1 && l.has_height(h - 1),
        }
    }

    /// Determines whether `leaf` is a member of the underlying record set,
    /// given an ordered list of sibling digests in leaf-to-root order: the
    /// proof must have one entry per level, the record's digest must occur
    /// among the leaves, and recomputing the root from that position must
    /// reproduce the tree's actual root digest.
    pub fn verify(&self, leaf: &Plaintext, proof: &Vec<Digest>) -> (res: bool)
        ensures
            res == self@.accepts(leaf@, digest_views(proof@)),
    {
        let candidate = somehow_hash(leaf.0.as_slice());
        if !self.has_height(proof.len()) {
            return false;
        }
        let leaf_digests = self.leaves();
        let root_digest = self.root();
        let ghost pseq = digest_views(proof@);
        let mut i: usize = 0;
        while i < leaf_digests.len()
            invariant
                digest_views(leaf_digests@) == self@.leaf_digests(),
                candidate@ == sha256_of(leaf@),
                root_digest@ == self@.root_digest(),
                pseq == digest_views(proof@),
                pseq.len() == self@.height(),
                i <= leaf_digests@.len(),
                forall|j: int|
                    0 <= j < i && (#[trigger] self@.leaf_digests()[j]) == candidate@
                        ==> reconstruct_from(candidate@, j, pseq) != self@.root_digest(),
            decreases leaf_digests@.len() - i,
        {
            let hit = leaf_digests[i] == candidate;
            proof {
                assert(leaf_digests@[i as int]@ == digest_views(leaf_digests@)[i as int]);
            }
            if hit {
                let mut current = candidate.duplicate();
                let mut idx = i;
                let mut lvl: usize = 0;
                proof {
                    assert(pseq.skip(0) =~= pseq);
                }
                while lvl < proof.len()
                    invariant
                        pseq == digest_views(proof@),
                        lvl <= pseq.len(),
                        reconstruct_from(candidate@, i as int, pseq) == reconstruct_from(
                            current@,
                            idx as int,
                            pseq.skip(lvl as int),
                        ),
                    decreases pseq.len() - lvl,
                {
                    let ghost before = pseq.skip(lvl as int);
                    let sibling = proof[lvl].duplicate();
                    proof {
                        assert(sibling@ == pseq[lvl as int]);
                        assert(before[0] == pseq[lvl as int]);
                        assert(before.skip(1) =~= pseq.skip(lvl as int + 1));
                    }
                    let combined = if idx % 2 == 0 {
                        somehow_hash(concat_digests(current, sibling).0.as_slice())
                    } else {
                        somehow_hash(concat_digests(sibling, current).0.as_slice())
                    };
                    current = combined;
                    idx = idx / 2;
                    lvl += 1;
                }
                proof {
                    assert(pseq.skip(pseq.len() as int) =~= Seq::<Seq<u8>>::empty());
                }
                let matched = current == root_digest;
                if matched {
                    proof {
                        assert(self@.leaf_digests()[i as int] == candidate@);
                        assert(reconstruct_from(sha256_of(leaf@), i as int, pseq)
                            == self@.root_digest());
                        assert(self@.accepts(leaf@, pseq));
                    }
                    return true;
                }
            }
            i += 1;
        }
        proof {
            assert(!self@.accepts(leaf@, pseq));
        }
        false
    }
}

} // verus!
