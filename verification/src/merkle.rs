//! The Merkle tree itself: nodes, tree construction with level padding,
//! inclusion-proof generation, and standalone proof verification.

use crate::crypto::{hash_combined, hash_value, leaf_hash, node_hash};
use vstd::arithmetic::div_mod::{
    lemma_basic_div, lemma_div_denominator, lemma_fundamental_div_mod,
    lemma_fundamental_div_mod_converse, lemma_mod_multiples_vanish,
};
use vstd::arithmetic::power2::{
    lemma2_to64, lemma_pow2_pos, lemma_pow2_strictly_increases, lemma_pow2_unfold, pow2,
};
use vstd::prelude::*;

verus! {

// ---------------------------------------------------------------------------
// The mathematical model: digests of a level, level reduction, the root
// digest of a data sequence, tree height, and proof verification.
// ---------------------------------------------------------------------------

/// The byte sequences of a list of blocks, in order.
pub open spec fn views_of(blocks: Seq<Vec<u8>>) -> Seq<Seq<u8>> {
    Seq::new(blocks.len(), |i: int| blocks[i]@)
}

/// The digests of the leaf level: one leaf hash per data block, in order.
pub open spec fn leaf_digests(data: Seq<Seq<u8>>) -> Seq<Seq<u8>> {
    Seq::new(data.len(), |i: int| leaf_hash(data[i]))
}

/// A level of odd length is made even by appending a duplicate of its last
/// digest; a level of even length is left alone.
pub open spec fn pad_even(level: Seq<Seq<u8>>) -> Seq<Seq<u8>> {
    if level.len() % 2 == 1 {
        level.push(level.last())
    } else {
        level
    }
}

/// Reduces a level of even length to the next level up: each adjacent pair
/// is combined into one parent digest, left sibling hashed first.
pub open spec fn combine_level(level: Seq<Seq<u8>>) -> Seq<Seq<u8>> {
    Seq::new(level.len() / 2, |i: int| node_hash(level[2 * i], level[2 * i + 1]))
}

/// The root digest of a non-empty level: pad the level to even length and
/// combine adjacent pairs until a single digest remains.
pub open spec fn level_root(level: Seq<Seq<u8>>) -> Seq<u8>
    recommends
        level.len() >= 1,
    decreases level.len(),
{
    if level.len() <= 1 {
        level[0]
    } else {
        level_root(combine_level(pad_even(level)))
    }
}

/// The root digest of the Merkle tree over a non-empty data sequence.
pub open spec fn merkle_root(data: Seq<Seq<u8>>) -> Seq<u8> {
    level_root(leaf_digests(data))
}

/// The height of the tree over `n` data blocks: the number of combination
/// levels, i.e. how often `n` must be halved (rounding up) to reach 1.
/// This equals the base-two logarithm of `n`, rounded up.
pub open spec fn tree_height(n: nat) -> nat
    decreases n,
{
    if n <= 1 {
        0
    } else {
        1 + tree_height((n + 1) / 2)
    }
}

/// The digest that proof verification reconstructs from a claimed leaf
/// digest, its index, and a list of sibling digests, bottom level first: at
/// each step the current digest is combined with the next sibling, on the
/// side that the parity of the running index dictates, and the index is
/// halved.
pub open spec fn reconstruct_digest(digest: Seq<u8>, index: nat, siblings: Seq<Seq<u8>>) -> Seq<u8>
    decreases siblings.len(),
{
    if siblings.len() == 0 {
        digest
    } else {
        let combined = if index % 2 == 0 {
            node_hash(digest, siblings[0])
        } else {
            node_hash(siblings[0], digest)
        };
        reconstruct_digest(combined, index / 2, siblings.skip(1))
    }
}

// ---------------------------------------------------------------------------
// Facts about the height and about reconstruction
// ---------------------------------------------------------------------------

/// The height of a tree over `n` blocks is large enough that every index
/// below `n` fits in it, small enough that half the bottom level does not,
/// and never exceeds `n` itself.
pub proof fn lemma_tree_height_bounds(n: nat)
    requires
        n >= 1,
    ensures
        n <= pow2(tree_height(n)),
        n >= 2 ==> pow2(tree_height(n)) <= 2 * n - 2,
        n >= 2 ==> pow2((tree_height(n) - 1) as nat) < n,
        tree_height(n) <= n,
    decreases n,
{
    if n <= 1 {
        lemma2_to64();
    } else {
        let m = (n + 1) / 2;
        assert(n <= 2 * m && 2 * m <= n + 1) by {
            lemma_fundamental_div_mod((n + 1) as int, 2);
        }
        lemma_tree_height_bounds(m);
        assert(tree_height(n) == 1 + tree_height(m));
        lemma_pow2_unfold(tree_height(n));
        assert(pow2(tree_height(n)) == 2 * pow2(tree_height(m)));
        assert(n <= 2 * pow2(tree_height(m)));
        if m >= 2 {
            lemma_pow2_unfold(tree_height(m));
        } else {
            lemma2_to64();
            assert(pow2(tree_height(m)) == 1);
        }
    }
}

/// Appending one sibling digest to a proof wraps the reconstructed digest
/// once more, on the side given by the bit of the index that the new level
/// examines.
proof fn lemma_reconstruct_push(digest: Seq<u8>, index: nat, siblings: Seq<Seq<u8>>, s: Seq<u8>)
    ensures
        reconstruct_digest(digest, index, siblings.push(s)) == if (index / pow2(siblings.len()))
            % 2 == 0 {
            node_hash(reconstruct_digest(digest, index, siblings), s)
        } else {
            node_hash(s, reconstruct_digest(digest, index, siblings))
        },
    decreases siblings.len(),
{
    if siblings.len() == 0 {
        let one = siblings.push(s);
        assert(one.skip(1) =~= Seq::<Seq<u8>>::empty());
        let combined = if index % 2 == 0 {
            node_hash(digest, s)
        } else {
            node_hash(s, digest)
        };
        assert(reconstruct_digest(combined, index / 2, one.skip(1)) == combined);
        assert(reconstruct_digest(digest, index, one) == combined);
        assert(index / pow2(0) == index) by {
            lemma2_to64();
            lemma_fundamental_div_mod_converse(index as int, 1, index as int, 0);
        }
    } else {
        let combined = if index % 2 == 0 {
            node_hash(digest, siblings[0])
        } else {
            node_hash(siblings[0], digest)
        };
        assert(siblings.push(s).skip(1) =~= siblings.skip(1).push(s));
        lemma_reconstruct_push(combined, index / 2, siblings.skip(1), s);
        assert((index / 2) / pow2((siblings.len() - 1) as nat) == index / pow2(siblings.len()))
            by {
            lemma_pow2_pos((siblings.len() - 1) as nat);
            lemma_pow2_unfold(siblings.len());
            lemma_div_denominator(index as int, 2, pow2((siblings.len() - 1) as nat) as int);
        }
    }
}

/// Reconstruction reads only the low bits of the index, one per sibling:
/// adding a multiple of `pow2(k)` to the index changes nothing as long as
/// the proof is at most `k` siblings long.
proof fn lemma_reconstruct_high_bits(
    digest: Seq<u8>,
    index: nat,
    c: nat,
    k: nat,
    siblings: Seq<Seq<u8>>,
)
    requires
        siblings.len() <= k,
    ensures
        reconstruct_digest(digest, (index + c * pow2(k)) as nat, siblings) == reconstruct_digest(
            digest,
            index,
            siblings,
        ),
    decreases siblings.len(),
{
    if siblings.len() > 0 {
        let shifted = (index + c * pow2(k)) as nat;
        let half = c * pow2((k - 1) as nat);
        lemma_pow2_unfold(k);
        assert(c * pow2(k) == 2 * half) by (nonlinear_arith)
            requires
                half == c * pow2((k - 1) as nat),
                pow2(k) == 2 * pow2((k - 1) as nat),
        ;
        assert(shifted % 2 == index % 2) by {
            lemma_mod_multiples_vanish(half as int, index as int, 2);
        }
        assert(shifted / 2 == index / 2 + half) by {
            lemma_fundamental_div_mod(index as int, 2);
            lemma_fundamental_div_mod_converse(
                shifted as int,
                2,
                index as int / 2 + half as int,
                index as int % 2,
            );
        }
        let combined = if index % 2 == 0 {
            node_hash(digest, siblings[0])
        } else {
            node_hash(siblings[0], digest)
        };
        lemma_reconstruct_high_bits(combined, index / 2, c, (k - 1) as nat, siblings.skip(1));
    }
}

/// Verification inverts generation, one subtree at a time: for any position
/// of a well-formed subtree, reconstructing from the leaf digest at that
/// position with the generated sibling list gives back the subtree's own
/// digest.
pub proof fn lemma_node_verify(node: MerkleNode, i: nat, h: nat)
    requires
        node.wf(h),
        i < pow2(h),
    ensures
        node.proof_digests(i, h).len() == h,
        reconstruct_digest(node.leaf_at(i, h), i, node.proof_digests(i, h)) == node.digest(),
    decreases h,
{
    if h > 0 {
        let left = *node.left->0;
        let right = *node.right->0;
        let half = pow2((h - 1) as nat);
        lemma_pow2_unfold(h);
        if i < half {
            lemma_node_verify(left, i, (h - 1) as nat);
            lemma_reconstruct_push(
                left.leaf_at(i, (h - 1) as nat),
                i,
                left.proof_digests(i, (h - 1) as nat),
                right.digest(),
            );
            assert(i / half == 0) by {
                lemma_basic_div(i as int, half as int);
            }
        } else {
            let i2 = (i - half) as nat;
            lemma_node_verify(right, i2, (h - 1) as nat);
            lemma_reconstruct_high_bits(
                right.leaf_at(i2, (h - 1) as nat),
                i2,
                1,
                (h - 1) as nat,
                right.proof_digests(i2, (h - 1) as nat),
            );
            lemma_reconstruct_push(
                right.leaf_at(i2, (h - 1) as nat),
                i,
                right.proof_digests(i2, (h - 1) as nat),
                left.digest(),
            );
            assert(i / half == 1) by {
                lemma_fundamental_div_mod_converse(i as int, half as int, 1, i2 as int);
            }
        }
    }
}

// ---------------------------------------------------------------------------
// Nodes
// ---------------------------------------------------------------------------

/// A node of the binary Merkle tree: a digest and, unless the node is a
/// leaf, exclusive ownership of its two children. No node has exactly one
/// child.
#[derive(Debug)]
pub struct MerkleNode {
    hash: Vec<u8>,
    left: Option<Box<MerkleNode>>,
    right: Option<Box<MerkleNode>>,
}

impl MerkleNode {
    /// The digest this node holds.
    pub closed spec fn digest(self) -> Seq<u8> {
        self.hash@
    }

    /// The left child, if the node has one.
    pub closed spec fn spec_left(self) -> Option<MerkleNode> {
        match self.left {
            Some(node) => Some(*node),
            None => None,
        }
    }

    /// The right child, if the node has one.
    pub closed spec fn spec_right(self) -> Option<MerkleNode> {
        match self.right {
            Some(node) => Some(*node),
            None => None,
        }
    }

    /// The node heads a well-formed subtree of height `h`: at height 0 it is
    /// a leaf; at greater heights it has two well-formed children of height
    /// `h - 1` and its digest is the hash of the children's digests, left
    /// child first.
    pub closed spec fn wf(self, h: nat) -> bool
        decreases h,
    {
        if h == 0 {
            self.left is None && self.right is None
        } else {
            &&& self.left is Some
            &&& self.right is Some
            &&& (*self.left->0).wf((h - 1) as nat)
            &&& (*self.right->0).wf((h - 1) as nat)
            &&& self.hash@ == node_hash((*self.left->0).digest(), (*self.right->0).digest())
        }
    }

    /// The digest of the leaf reached from this node by descending `h`
    /// levels towards position `i` of the subtree: positions below the
    /// half-size go left, the rest go right with the half-size subtracted.
    pub closed spec fn leaf_at(self, i: nat, h: nat) -> Seq<u8>
        decreases h,
    {
        if h == 0 {
            self.digest()
        } else if i < pow2((h - 1) as nat) {
            (*self.left->0).leaf_at(i, (h - 1) as nat)
        } else {
            (*self.right->0).leaf_at((i - pow2((h - 1) as nat)) as nat, (h - 1) as nat)
        }
    }

    /// The inclusion proof for position `i` of this subtree of height `h`:
    /// the sibling digests along the descent towards the leaf, ordered
    /// leaf-sibling first, root-sibling last.
    pub closed spec fn proof_digests(self, i: nat, h: nat) -> Seq<Seq<u8>>
        decreases h,
    {
        if h == 0 {
            Seq::empty()
        } else if i < pow2((h - 1) as nat) {
            (*self.left->0).proof_digests(i, (h - 1) as nat).push((*self.right->0).digest())
        } else {
            (*self.right->0).proof_digests((i - pow2((h - 1) as nat)) as nat, (h - 1) as nat).push(
                (*self.left->0).digest(),
            )
        }
    }

    /// The two nodes head structurally identical subtrees, digest for
    /// digest.
    pub closed spec fn same_tree(self, other: MerkleNode) -> bool
        decreases self,
    {
        &&& self.hash@ == other.hash@
        &&& (self.left is Some <==> other.left is Some)
        &&& (self.right is Some <==> other.right is Some)
        &&& (self.left is Some && other.left is Some ==> (*self.left->0).same_tree(
            *other.left->0,
        ))
        &&& (self.right is Some && other.right is Some ==> (*self.right->0).same_tree(
            *other.right->0,
        ))
    }

    /// Creates a new leaf node from a data block.
    pub fn new_leaf(data_block: &[u8]) -> (node: Self)
        ensures
            node.wf(0),
            node.digest() == leaf_hash(data_block@),
    {
        let hash = hash_value(data_block);
        MerkleNode { hash, left: None, right: None }
    }

    /// Creates a new node from two child nodes: its digest is the hash of
    /// the two children's digests concatenated in order, and it owns both.
    pub fn combine(merkle_left: MerkleNode, merkle_right: MerkleNode) -> (node: Self)
        ensures
            node.digest() == node_hash(merkle_left.digest(), merkle_right.digest()),
            node.spec_left() == Some(merkle_left),
            node.spec_right() == Some(merkle_right),
            forall|h: nat| merkle_left.wf(h) && merkle_right.wf(h) ==> #[trigger] node.wf(h + 1),
    {
        let hash = hash_combined(&merkle_left.hash, &merkle_right.hash);
        let node = MerkleNode {
            hash,
            left: Some(Box::new(merkle_left)),
            right: Some(Box::new(merkle_right)),
        };
        proof {
            assert forall|h: nat| merkle_left.wf(h) && merkle_right.wf(h) implies #[trigger] node.wf(
                h + 1,
            ) by {
            }
        }
        node
    }

    /// Returns the hash value of the node.
    pub fn get_hash(&self) -> (r: Vec<u8>)
        ensures
            r@ == self.digest(),
    {
        let r = self.hash.clone();
        proof {
            assert(r@ =~= self.hash@);
        }
        r
    }

    /// Returns a reference to the left child node, if it exists.
    pub fn left(&self) -> (r: Option<&MerkleNode>)
        ensures
            r is Some <==> self.spec_left() is Some,
            r is Some ==> *r->0 == self.spec_left()->0,
    {
        match &self.left {
            Some(node) => Some(&**node),
            None => None,
        }
    }

    /// Returns a reference to the right child node, if it exists.
    pub fn right(&self) -> (r: Option<&MerkleNode>)
        ensures
            r is Some <==> self.spec_right() is Some,
            r is Some ==> *r->0 == self.spec_right()->0,
    {
        match &self.right {
            Some(node) => Some(&**node),
            None => None,
        }
    }
}

impl Clone for MerkleNode {
    /// Returns a structurally identical copy of the subtree headed here,
    /// digest for digest.
    fn clone(&self) -> (res: Self)
        ensures
            res.same_tree(*self),
        decreases *self,
    {
        let hash = self.hash.clone();
        proof {
            assert(hash@ =~= self.hash@);
        }
        MerkleNode {
            hash,
            left: (match &self.left {
                Some(node) => Some(Box::new((&**node).clone())),
                None => None,
            }),
            right: (match &self.right {
                Some(node) => Some(Box::new((&**node).clone())),
                None => None,
            }),
        }
    }
}

// ---------------------------------------------------------------------------
// Levels of nodes, and bottom-up construction
// ---------------------------------------------------------------------------

/// The digests of a sequence of nodes, in order.
spec fn digests_of(nodes: Seq<MerkleNode>) -> Seq<Seq<u8>> {
    Seq::new(nodes.len(), |i: int| nodes[i].digest())
}

/// Every node of the sequence heads a well-formed subtree of height `h`.
spec fn wf_level(nodes: Seq<MerkleNode>, h: nat) -> bool {
    forall|j: int| 0 <= j < nodes.len() ==> (#[trigger] nodes[j]).wf(h)
}

/// Node `j` of a level at height `h` stands over data positions
/// `j * pow2(h)` up to (exclusive) `(j + 1) * pow2(h)`; wherever those
/// positions fall inside the data, the node's leaves hold the data's leaf
/// hashes.
spec fn covers(nodes: Seq<MerkleNode>, data: Seq<Seq<u8>>, h: nat) -> bool {
    forall|j: int, i: nat|
        0 <= j < nodes.len() && i < pow2(h) && j * pow2(h) + i < data.len()
            ==> #[trigger] nodes[j].leaf_at(i, h) == leaf_hash(data[j * pow2(h) + i])
}

/// A structurally identical copy is as well-formed as the original and
/// holds the same digest.
proof fn lemma_same_tree_wf(a: MerkleNode, b: MerkleNode, h: nat)
    requires
        a.same_tree(b),
        b.wf(h),
    ensures
        a.wf(h),
        a.digest() == b.digest(),
    decreases h,
{
    if h > 0 {
        lemma_same_tree_wf(*a.left->0, *b.left->0, (h - 1) as nat);
        lemma_same_tree_wf(*a.right->0, *b.right->0, (h - 1) as nat);
    }
}

impl MerkleNode {
    /// Builds one leaf node per data block, in order.
    fn create_leaves(data: &[Vec<u8>]) -> (leaves: Vec<MerkleNode>)
        ensures
            leaves.len() == data.len(),
            wf_level(leaves@, 0),
            covers(leaves@, views_of(data@), 0),
            digests_of(leaves@) == leaf_digests(views_of(data@)),
    {
        let ghost d = views_of(data@);
        let mut leaves: Vec<MerkleNode> = Vec::new();
        let mut k: usize = 0;
        while k < data.len()
            invariant
                k <= data.len(),
                leaves.len() == k,
                d == views_of(data@),
                forall|j: int| 0 <= j < k ==> (#[trigger] leaves@[j]).wf(0),
                forall|j: int| 0 <= j < k ==> (#[trigger] leaves@[j]).digest() == leaf_hash(d[j]),
            decreases data.len() - k,
        {
            let node = MerkleNode::new_leaf(data[k].as_slice());
            leaves.push(node);
            k += 1;
        }
        proof {
            lemma2_to64();
            assert(digests_of(leaves@) =~= leaf_digests(d));
            assert forall|j: int, i: nat|
                0 <= j < leaves@.len() && i < pow2(0) && j * pow2(0) + i < d.len() implies #[trigger] leaves@[j].leaf_at(i, 0) == leaf_hash(d[j * pow2(0) + i]) by {
                assert(i == 0);
                assert(j * pow2(0) + i == j);
            }
        }
        leaves
    }

    /// Combines a level of at least two nodes into the level above it: an
    /// odd level first duplicates its last node, then each adjacent pair is
    /// combined into a parent that owns both.
    fn next_merkle_level(
        current_level: Vec<MerkleNode>,
        Ghost(data): Ghost<Seq<Seq<u8>>>,
        Ghost(h): Ghost<nat>,
    ) -> (next_level: Vec<MerkleNode>)
        requires
            current_level.len() >= 2,
            wf_level(current_level@, h),
            covers(current_level@, data, h),
            current_level@.len() * pow2(h) >= data.len(),
        ensures
            next_level.len() == (current_level.len() + 1) / 2,
            wf_level(next_level@, h + 1),
            covers(next_level@, data, h + 1),
            next_level@.len() * pow2(h + 1) >= data.len(),
            level_root(digests_of(next_level@)) == level_root(digests_of(current_level@)),
    {
        let ghost orig = current_level@;
        let mut level = current_level;

        // Make the level even by appending a duplicate of its last node.
        if level.len() % 2 == 1 {
            let dup = level[level.len() - 1].clone();
            proof {
                lemma_same_tree_wf(dup, level@[level@.len() - 1], h);
            }
            level.push(dup);
        }
        let ghost padded = level@;
        proof {
            assert(digests_of(padded) =~= pad_even(digests_of(orig)));
            assert(padded.len() % 2 == 0);
            lemma_pow2_pos(h);
        }

        let mut next_level: Vec<MerkleNode> = Vec::new();
        while level.len() > 0
            invariant
                level.len() % 2 == 0,
                2 * next_level.len() + level.len() == padded.len(),
                level@ =~= padded.skip(2 * next_level.len() as int),
                wf_level(padded, h),
                forall|j: int|
                    0 <= j < next_level.len() ==> (#[trigger] next_level@[j]).spec_left()
                        == Some(padded[2 * j]) && next_level@[j].spec_right() == Some(
                        padded[2 * j + 1],
                    ) && next_level@[j].wf(h + 1) && next_level@[j].digest() == node_hash(
                        padded[2 * j].digest(),
                        padded[2 * j + 1].digest(),
                    ),
            decreases level.len(),
        {
            let left_node = level.remove(0);
            let right_node = level.remove(0);
            let ghost j = next_level@.len() as int;
            proof {
                assert(padded.skip(2 * j).len() >= 2);
                assert(left_node == padded.skip(2 * j)[0]);
                assert(right_node == padded.skip(2 * j)[1]);
                assert(padded.skip(2 * j)[0] == padded[2 * j]);
                assert(padded.skip(2 * j)[1] == padded[2 * j + 1]);
            }
            let new_node = MerkleNode::combine(left_node, right_node);
            next_level.push(new_node);
            proof {
                assert(level@ =~= padded.skip(2 * (j + 1)));
            }
        }

        proof {
            lemma_next_level_facts(next_level@, padded, orig, data, h);
        }
        next_level
    }
}

impl MerkleNode {
    /// Constructs the root node of the Merkle tree over a non-empty slice
    /// of data blocks: one leaf per block, then levels combined pairwise,
    /// an odd level first made even by duplicating its last node, until a
    /// single node remains.
    pub fn root_node_from(data: &[Vec<u8>]) -> (root: MerkleNode)
        requires
            data@.len() >= 1,
        ensures
            root.wf(tree_height(data@.len())),
            root.digest() == merkle_root(views_of(data@)),
            forall|i: nat|
                i < data@.len() ==> #[trigger] root.leaf_at(i, tree_height(data@.len()))
                    == leaf_hash(data@[i as int]@),
    {
        let ghost d = views_of(data@);
        let mut current_level = Self::create_leaves(data);
        let ghost mut h: nat = 0;
        proof {
            lemma2_to64();
        }
        while current_level.len() > 1
            invariant
                current_level.len() >= 1,
                wf_level(current_level@, h),
                covers(current_level@, d, h),
                current_level@.len() * pow2(h) >= d.len(),
                level_root(digests_of(current_level@)) == merkle_root(d),
                tree_height(current_level@.len() as nat) + h == tree_height(d.len()),
                d == views_of(data@),
                d.len() == data@.len(),
            decreases current_level.len(),
        {
            let ghost prev_len = current_level@.len() as nat;
            current_level = MerkleNode::next_merkle_level(current_level, Ghost(d), Ghost(h));
            proof {
                assert(tree_height(prev_len) == 1 + tree_height((prev_len + 1) / 2));
                h = h + 1;
            }
        }
        let ghost last_level = current_level@;
        let root = current_level.pop().unwrap();
        proof {
            assert(root == last_level[0]);
            assert(digests_of(last_level) =~= seq![root.digest()]);
            assert(level_root(digests_of(last_level)) == root.digest());
            assert(tree_height(1) == 0);
            assert(h == tree_height(data@.len()));
            assert forall|i: nat| i < data@.len() implies #[trigger] root.leaf_at(i, h)
                == leaf_hash(data@[i as int]@) by {
                assert(i < 1 * pow2(h));
                assert(i < pow2(h));
                assert(last_level[0].leaf_at(i, h) == leaf_hash(d[0 * pow2(h) + i as int]));
                assert(0 * pow2(h) + i as int == i);
            }
        }
        root
    }
}

/// After pairwise combination, the new level's digests are the combined
/// digests of the padded level below, the new level is well-formed one
/// height up, it still covers the data, and its root digest is unchanged.
proof fn lemma_next_level_facts(
    next: Seq<MerkleNode>,
    padded: Seq<MerkleNode>,
    orig: Seq<MerkleNode>,
    data: Seq<Seq<u8>>,
    h: nat,
)
    requires
        orig.len() >= 2,
        padded.len() % 2 == 0,
        2 * next.len() == padded.len(),
        digests_of(padded) == pad_even(digests_of(orig)),
        wf_level(orig, h),
        covers(orig, data, h),
        orig.len() * pow2(h) >= data.len(),
        wf_level(padded, h),
        orig.len() <= padded.len() <= orig.len() + 1,
        forall|j: int| 0 <= j < orig.len() ==> padded[j] == orig[j],
        forall|j: int|
            0 <= j < next.len() ==> (#[trigger] next[j]).spec_left() == Some(padded[2 * j])
                && next[j].spec_right() == Some(padded[2 * j + 1]) && next[j].wf(h + 1)
                && next[j].digest() == node_hash(
                padded[2 * j].digest(),
                padded[2 * j + 1].digest(),
            ),
    ensures
        wf_level(next, h + 1),
        covers(next, data, h + 1),
        next.len() * pow2(h + 1) >= data.len(),
        level_root(digests_of(next)) == level_root(digests_of(orig)),
{
    assert(digests_of(next) =~= combine_level(digests_of(padded)));
    assert(level_root(digests_of(orig)) == level_root(combine_level(pad_even(digests_of(orig)))));
    lemma_pow2_pos(h);
    lemma_pow2_unfold(h + 1);

    // The padded level still covers the data: the duplicate stands wholly
    // past the end of the data.
    assert(covers(padded, data, h)) by {
        assert forall|j: int, i: nat|
            0 <= j < padded.len() && i < pow2(h) && j * pow2(h) + i < data.len() implies #[trigger] padded[j].leaf_at(i, h) == leaf_hash(data[j * pow2(h) + i]) by {
            if j < orig.len() {
                assert(orig[j].leaf_at(i, h) == leaf_hash(data[j * pow2(h) + i]));
            } else {
                assert(false) by (nonlinear_arith)
                    requires
                        j >= orig.len(),
                        orig.len() * pow2(h) >= data.len(),
                        i < pow2(h),
                        j * pow2(h) + i < data.len(),
                        pow2(h) > 0,
                ;
            }
        }
    }

    assert forall|j: int, i: nat|
        0 <= j < next.len() && i < pow2(h + 1) && j * pow2(h + 1) + i < data.len() implies #[trigger] next[j].leaf_at(i, h + 1) == leaf_hash(data[j * pow2(h + 1) + i]) by {
        if i < pow2(h) {
            assert(j * pow2(h + 1) + i == (2 * j) * pow2(h) + i) by (nonlinear_arith)
                requires
                    pow2(h + 1) == 2 * pow2(h),
            ;
            assert(padded[2 * j].leaf_at(i, h) == leaf_hash(data[(2 * j) * pow2(h) + i]));
            assert(next[j].leaf_at(i, h + 1) == padded[2 * j].leaf_at(i, h));
        } else {
            let i2 = (i - pow2(h)) as nat;
            assert(j * pow2(h + 1) + i == (2 * j + 1) * pow2(h) + i2) by (nonlinear_arith)
                requires
                    pow2(h + 1) == 2 * pow2(h),
                    i2 == i - pow2(h),
            ;
            assert(padded[2 * j + 1].leaf_at(i2, h) == leaf_hash(data[(2 * j + 1) * pow2(h) + i2]));
            assert(next[j].leaf_at(i, h + 1) == padded[2 * j + 1].leaf_at(i2, h));
        }
    }

    assert(next.len() * pow2(h + 1) >= data.len()) by (nonlinear_arith)
        requires
            2 * next.len() == padded.len(),
            padded.len() >= orig.len(),
            orig.len() * pow2(h) >= data.len(),
            pow2(h + 1) == 2 * pow2(h),
            pow2(h) > 0,
    ;
}

// ---------------------------------------------------------------------------
// The tree
// ---------------------------------------------------------------------------

/// Construction refused: a tree cannot be built over zero data blocks,
/// since there is no valid empty-tree digest.
#[derive(Clone, Copy, Debug, PartialEq, Eq, Structural)]
pub enum ConstructionError {
    EmptyInput,
}

/// The Merkle tree: the root of the node hierarchy and a copy of the data
/// blocks it was built from. The data is kept to validate inclusion-proof
/// requests and to compute the tree height; it is never changed after
/// construction.
#[derive(Debug)]
pub struct MerkleTree {
    root: MerkleNode,
    data: Vec<Vec<u8>>,
}

impl View for MerkleTree {
    type V = Seq<Seq<u8>>;

    /// A tree is abstractly the ordered sequence of data blocks it was
    /// built over.
    closed spec fn view(&self) -> Seq<Seq<u8>> {
        views_of(self.data@)
    }
}

impl MerkleTree {
    /// The digest at the root of the tree.
    pub closed spec fn spec_root_digest(self) -> Seq<u8> {
        self.root.digest()
    }

    /// The sibling digests of the inclusion proof for position `index`.
    pub closed spec fn spec_proof(self, index: nat) -> Seq<Seq<u8>> {
        self.root.proof_digests(index, tree_height(self@.len()))
    }

    /// Every tree that construction can hand out satisfies this: the data
    /// is non-empty, the node hierarchy is well-formed at the tree's
    /// height, its root digest is the Merkle root of the data, and its
    /// leaves hold the data's leaf hashes in order. It is enforced as a
    /// type invariant, so no caller ever has to establish it; proof
    /// functions that take a tree as a ghost value assume it explicitly.
    #[verifier::type_invariant]
    pub closed spec fn well_formed(self) -> bool {
        &&& self@.len() >= 1
        &&& self.root.wf(tree_height(self@.len()))
        &&& self.root.digest() == merkle_root(self@)
        &&& forall|i: nat|
            i < self@.len() ==> #[trigger] self.root.leaf_at(i, tree_height(self@.len()))
                == leaf_hash(self@[i as int])
    }

    /// Builds the tree over the given blocks, one leaf per block, in
    /// order. Zero blocks are refused: there is no valid empty tree.
    pub fn new(data: &[Vec<u8>]) -> (result: Result<MerkleTree, ConstructionError>)
        ensures
            result is Ok <==> data@.len() >= 1,
            result matches Ok(tree) ==> tree@ == views_of(data@),
            result matches Err(e) ==> e == ConstructionError::EmptyInput,
    {
        if data.len() == 0 {
            return Err(ConstructionError::EmptyInput);
        }
        let root = MerkleNode::root_node_from(data);
        let mut blocks: Vec<Vec<u8>> = Vec::new();
        let mut k: usize = 0;
        while k < data.len()
            invariant
                k <= data.len(),
                blocks.len() == k,
                forall|j: int| 0 <= j < k ==> (#[trigger] blocks@[j])@ == data@[j]@,
            decreases data.len() - k,
        {
            let block = data[k].clone();
            proof {
                assert(block@ =~= data@[k as int]@);
            }
            blocks.push(block);
            k += 1;
        }
        proof {
            assert(views_of(blocks@) =~= views_of(data@));
        }
        Ok(MerkleTree { root, data: blocks })
    }

    /// Returns the digest at the root of the tree.
    pub fn root_hash(&self) -> (r: Vec<u8>)
        ensures
            r@ == merkle_root(self@),
    {
        proof {
            use_type_invariant(self);
        }
        self.root.get_hash()
    }

    /// Returns a copy of the root node of the tree.
    pub fn get_root_node(&self) -> (r: MerkleNode)
        ensures
            r.wf(tree_height(self@.len())),
            r.digest() == merkle_root(self@),
    {
        proof {
            use_type_invariant(self);
        }
        let r = self.root.clone();
        proof {
            lemma_same_tree_wf(r, self.root, tree_height(self@.len()));
        }
        r
    }

    /// Returns the height of the tree: the base-two logarithm of the
    /// number of data blocks, rounded up, which is also the number of
    /// combination levels the construction performed.
    pub fn get_tree_height(&self) -> (height: usize)
        ensures
            height == tree_height(self@.len()),
    {
        proof {
            use_type_invariant(self);
            lemma_tree_height_bounds(self@.len());
        }
        let mut m = self.data.len();
        let mut height: usize = 0;
        while m > 1
            invariant
                m >= 1,
                tree_height(m as nat) + height == tree_height(self@.len()),
                tree_height(self@.len()) <= self@.len() <= usize::MAX,
            decreases m,
        {
            let ghost prev = m as nat;
            proof {
                lemma_fundamental_div_mod(m as int, 2);
                if m % 2 == 0 {
                    lemma_fundamental_div_mod_converse((m + 1) as int, 2, m as int / 2, 1);
                } else {
                    lemma_fundamental_div_mod_converse((m + 1) as int, 2, m as int / 2 + 1, 0);
                }
                assert((prev + 1) / 2 == m as nat / 2 + m as nat % 2);
                assert(tree_height(prev) == 1 + tree_height((prev + 1) / 2));
            }
            m = m / 2 + m % 2;
            height = height + 1;
        }
        height
    }
}

// ---------------------------------------------------------------------------
// Inclusion proofs and their verification
// ---------------------------------------------------------------------------

/// Compares two byte strings for exact equality.
fn eq_bytes(a: &[u8], b: &[u8]) -> (r: bool)
    ensures
        r == (a@ == b@),
{
    if a.len() != b.len() {
        return false;
    }
    let mut k: usize = 0;
    while k < a.len()
        invariant
            k <= a.len(),
            a@.len() == b@.len(),
            forall|j: int| 0 <= j < k ==> a@[j] == b@[j],
        decreases a.len() - k,
    {
        if a[k] != b[k] {
            return false;
        }
        k += 1;
    }
    proof {
        assert(a@ =~= b@);
    }
    true
}

/// Computes a power of two that fits the machine word.
fn pow2_usize(e: usize) -> (r: usize)
    requires
        pow2(e as nat) <= usize::MAX,
    ensures
        r == pow2(e as nat),
{
    proof {
        lemma2_to64();
    }
    let mut r: usize = 1;
    let mut k: usize = 0;
    while k < e
        invariant
            k <= e,
            r == pow2(k as nat),
            pow2(e as nat) <= usize::MAX,
        decreases e - k,
    {
        proof {
            lemma_pow2_unfold((k + 1) as nat);
            if k + 1 < e {
                lemma_pow2_strictly_increases((k + 1) as nat, e as nat);
            }
        }
        r = r * 2;
        k = k + 1;
    }
    r
}

impl MerkleTree {
    /// Given a value and its position in the data, returns the ordered
    /// list of sibling digests that proves the value's inclusion — bottom
    /// level first — or nothing if the data at that position is not the
    /// given value. An out-of-bounds position can match no value, so it
    /// also yields nothing.
    pub fn inclusion_proof(&self, index: usize, value: &[u8]) -> (result: Option<Vec<Vec<u8>>>)
        ensures
            result is Some <==> (index < self@.len() && value@ == self@[index as int]),
            result matches Some(proof) ==> {
                &&& views_of(proof@) == self.spec_proof(index as nat)
                &&& proof@.len() == tree_height(self@.len())
                &&& reconstruct_digest(leaf_hash(value@), index as nat, views_of(proof@))
                    == merkle_root(self@)
            },
    {
        proof {
            use_type_invariant(self);
        }
        if index >= self.data.len() {
            return None;
        }
        if !eq_bytes(value, self.data[index].as_slice()) {
            return None;
        }
        let height = self.get_tree_height();
        proof {
            lemma_tree_height_bounds(self@.len());
            lemma_node_verify(self.root, index as nat, tree_height(self@.len()));
        }
        let proof_vec = Self::merkle_proof(&self.root, index, height);
        Some(proof_vec)
    }

    /// Recursive helper that generates the inclusion proof: the proof that
    /// a position is in a subtree is the proof that it is in one of the two
    /// child subtrees, followed by the digest of that child's sibling.
    fn merkle_proof(root_node: &MerkleNode, index: usize, tree_height: usize) -> (proof: Vec<
        Vec<u8>,
    >)
        requires
            root_node.wf(tree_height as nat),
            (index as nat) < pow2(tree_height as nat),
            tree_height > 0 ==> pow2((tree_height - 1) as nat) < usize::MAX,
        ensures
            views_of(proof@) == root_node.proof_digests(index as nat, tree_height as nat),
        decreases tree_height,
    {
        match (root_node.left(), root_node.right()) {
            (Some(left), Some(right)) => {
                proof {
                    assert(tree_height as nat > 0);
                    lemma_pow2_unfold(tree_height as nat);
                    if tree_height >= 2 {
                        lemma_pow2_strictly_increases(
                            (tree_height - 2) as nat,
                            (tree_height - 1) as nat,
                        );
                    }
                }
                let half_size = pow2_usize(tree_height - 1);
                if index < half_size {
                    let mut proof_vec = Self::merkle_proof(left, index, tree_height - 1);
                    let sibling = right.get_hash();
                    let ghost before = proof_vec@;
                    proof_vec.push(sibling);
                    proof {
                        assert(views_of(proof_vec@) =~= views_of(before).push(right.digest()));
                    }
                    proof_vec
                } else {
                    let mut proof_vec = Self::merkle_proof(
                        right,
                        index - half_size,
                        tree_height - 1,
                    );
                    let sibling = left.get_hash();
                    let ghost before = proof_vec@;
                    proof_vec.push(sibling);
                    proof {
                        assert(views_of(proof_vec@) =~= views_of(before).push(left.digest()));
                    }
                    proof_vec
                }
            }
            _ => {
                proof {
                    assert(tree_height as nat == 0);
                    assert(views_of(Seq::<Vec<u8>>::empty()) =~= Seq::<Seq<u8>>::empty());
                }
                Vec::new()
            },
        }
    }
}

/// Verifies a Merkle proof that the leaf at `index` holds the value
/// `data`: starting from the hash of the claimed value, each sibling
/// digest in turn is concatenated on the side that the parity of the
/// running index dictates and the pair is hashed, and the final digest is
/// compared with the given root hash.
pub fn verify_proof(index: usize, data: &[u8], proof: Vec<Vec<u8>>, root_hash: Vec<u8>) -> (valid:
    bool)
    ensures
        valid == (reconstruct_digest(leaf_hash(data@), index as nat, views_of(proof@))
            == root_hash@),
{
    let mut computed_hash = hash_value(data);
    let mut current_index = index;
    let ghost all = views_of(proof@);
    proof {
        assert(all.skip(0) =~= all);
    }
    let mut k: usize = 0;
    while k < proof.len()
        invariant
            k <= proof.len(),
            all == views_of(proof@),
            reconstruct_digest(leaf_hash(data@), index as nat, all) == reconstruct_digest(
                computed_hash@,
                current_index as nat,
                all.skip(k as int),
            ),
        decreases proof.len() - k,
    {
        let sibling_hash = &proof[k];
        if current_index % 2 == 0 {
            computed_hash = hash_combined(&computed_hash, sibling_hash);
        } else {
            computed_hash = hash_combined(sibling_hash, &computed_hash);
        }
        current_index = current_index / 2;
        proof {
            assert(all.skip(k as int)[0] == proof@[k as int]@);
            assert(all.skip(k as int).skip(1) =~= all.skip(k as int + 1));
        }
        k = k + 1;
    }
    proof {
        assert(all.skip(proof.len() as int) =~= Seq::<Seq<u8>>::empty());
    }
    eq_bytes(computed_hash.as_slice(), root_hash.as_slice())
}

// ---------------------------------------------------------------------------
// Laws
// ---------------------------------------------------------------------------

/// Determinism: two trees built over the same ordered data hold the same
/// root digest.
pub proof fn lemma_determinism(t1: MerkleTree, t2: MerkleTree)
    requires
        t1.well_formed(),
        t2.well_formed(),
        t1@ == t2@,
    ensures
        t1.spec_root_digest() == t2.spec_root_digest(),
{
}

/// Round trip: for a value that stands at a valid position of the tree's
/// data, the generated inclusion proof is one sibling digest per level, and
/// reconstructing from the value's leaf hash with that proof gives back
/// exactly the tree's root digest — so verification succeeds.
pub proof fn lemma_round_trip(tree: MerkleTree, index: nat)
    requires
        tree.well_formed(),
        index < tree@.len(),
    ensures
        tree.spec_proof(index).len() == tree_height(tree@.len()),
        reconstruct_digest(leaf_hash(tree@[index as int]), index, tree.spec_proof(index))
            == merkle_root(tree@),
{
    lemma_tree_height_bounds(tree@.len());
    lemma_node_verify(tree.root, index, tree_height(tree@.len()));
}

/// A tampered root digest is rejected: an honest proof for a value in the
/// tree reconstructs the tree's own root digest, so verification against
/// any other claimed root digest fails.
pub proof fn lemma_tampered_root_rejected(tree: MerkleTree, index: nat, claimed: Seq<u8>)
    requires
        tree.well_formed(),
        index < tree@.len(),
        claimed != merkle_root(tree@),
    ensures
        reconstruct_digest(leaf_hash(tree@[index as int]), index, tree.spec_proof(index))
            != claimed,
{
    lemma_round_trip(tree, index);
}

} // verus!
