//! A k-ary Merkle tree with Keccak-256 node hashing.
//!
//! The mathematical model works on levels of 32-byte hashes: level 0
//! holds the hashed leaves, and each higher level hashes chunks of `k`
//! siblings, padding a short final chunk by repeating its last hash.
//! `commit` is proved to build exactly that model, `open` to return
//! the sibling hashes the model prescribes, and `verify` to recompute
//! the fold of a claimed leaf against the root.
use crate::bytes::{append_bytes32, clone_bytes};
use crate::hash::{keccak256, keccak_of};
use vstd::arithmetic::div_mod::{lemma_div_denominator, lemma_fundamental_div_mod};
use vstd::arithmetic::power::{lemma_pow0, lemma_pow_adds, lemma_pow_positive, lemma_pow1, pow};
use vstd::pervasive::unreached;
use vstd::prelude::*;

verus! {

/// The Keccak hashes of the committed values: level 0 of the tree.
pub open spec fn leaf_hashes(values: Seq<Seq<u8>>) -> Seq<Seq<u8>> {
    Seq::new(values.len(), |i: int| keccak_of(values[i]))
}

/// `n / k` rounded up.
pub open spec fn ceil_div(n: nat, k: nat) -> nat {
    ((n + k - 1) / (k as int)) as nat
}

/// A chunk of at most `k` sibling hashes, padded to exactly `k` by
/// repeating the last hash present.
pub open spec fn pad_chunk(c: Seq<Seq<u8>>, k: nat) -> Seq<Seq<u8>> {
    c + Seq::new((k - c.len()) as nat, |i: int| c.last())
}

/// The concatenation of a sequence of hashes.
pub open spec fn flatten_hashes(c: Seq<Seq<u8>>) -> Seq<u8>
    decreases c.len(),
{
    if c.len() == 0 {
        Seq::empty()
    } else {
        flatten_hashes(c.drop_last()) + c.last()
    }
}

/// The `j`-th chunk of up to `k` consecutive hashes of a level.
pub open spec fn chunk_of(hs: Seq<Seq<u8>>, k: nat, j: int) -> Seq<Seq<u8>> {
    hs.subrange(
        j * k,
        if (j + 1) * k <= hs.len() {
            (j + 1) * k
        } else {
            hs.len() as int
        },
    )
}

/// The hash of the internal node over a chunk of child hashes.
pub open spec fn parent_hash(c: Seq<Seq<u8>>, k: nat) -> Seq<u8> {
    keccak_of(flatten_hashes(pad_chunk(c, k)))
}

/// One level up: every chunk of `k` siblings becomes a parent hash.
pub open spec fn level_up(hs: Seq<Seq<u8>>, k: nat) -> Seq<Seq<u8>> {
    Seq::new(ceil_div(hs.len(), k), |j: int| parent_hash(chunk_of(hs, k, j), k))
}

/// Level `l` of the tree built over `lh` (level 0 is `lh` itself).
pub open spec fn level(lh: Seq<Seq<u8>>, k: nat, l: nat) -> Seq<Seq<u8>>
    decreases l,
{
    if l == 0 {
        lh
    } else {
        level_up(level(lh, k, (l - 1) as nat), k)
    }
}

/// The level at which a tree over `n` leaf hashes forms its root: the
/// builder keeps grouping until at most `k` nodes remain, then makes
/// one parent of them all.
pub open spec fn root_depth(n: nat, k: nat) -> nat
    decreases n via root_depth_decreases
{
    if n <= k || k < 2 || n == 0 {
        1
    } else {
        1 + root_depth(ceil_div(n, k), k)
    }
}

#[via_fn]
proof fn root_depth_decreases(n: nat, k: nat) {
    if !(n <= k || k < 2 || n == 0) {
        lemma_ceil_div_shrinks(n, k);
    }
}

/// For `n > k >= 2`, a level has strictly fewer parents than nodes.
pub proof fn lemma_ceil_div_shrinks(n: nat, k: nat)
    requires
        k >= 2,
        n > k,
    ensures
        1 <= ceil_div(n, k) < n,
{
    assert(1 <= (n + k - 1) / (k as int) < n) by (nonlinear_arith)
        requires
            k >= 2,
            n > k,
    ;
}

/// A node of the Merkle tree.
#[derive(Debug)]
pub enum Node {
    Internal { children: Vec<Node>, hash: [u8; 32] },
    Leaf { value: Option<Vec<u8>>, hash: [u8; 32] },
}

/// The hash stored in a node.
pub open spec fn node_hash(n: Node) -> Seq<u8> {
    match n {
        Node::Internal { children, hash } => hash@,
        Node::Leaf { value, hash } => hash@,
    }
}

/// The hashes of a sequence of nodes.
pub open spec fn hashes_of(nodes: Seq<Node>) -> Seq<Seq<u8>> {
    Seq::new(nodes.len(), |i: int| node_hash(nodes[i]))
}

/// Whether a node carries the leaf tag.
pub open spec fn node_is_leaf(n: Node) -> bool {
    n is Leaf
}

/// The node at position `j` of level `l` of the tree over `values`:
/// its hash is the model's, its children are the chunk of the level
/// below padded with copies of the chunk's last hash, and at level 0
/// it is a leaf carrying `values[j]`.
pub open spec fn good_node(n: Node, values: Seq<Seq<u8>>, k: nat, l: nat, j: int) -> bool
    decreases l,
{
    let lv = level(leaf_hashes(values), k, l);
    0 <= j < lv.len() && node_hash(n) == lv[j] && if l == 0 {
        match n {
            Node::Leaf { value, hash } => value matches Some(v) && v@ == values[j],
            Node::Internal { children, hash } => false,
        }
    } else {
        match n {
            Node::Internal { children, hash } => {
                let below = level(leaf_hashes(values), k, (l - 1) as nat);
                children@.len() == k && forall|c: int|
                    0 <= c < k ==> if j * k + c < below.len() {
                        good_node(#[trigger] children@[c], values, k, (l - 1) as nat, j * k + c)
                    } else {
                        node_hash(children@[c]) == chunk_of(below, k, j).last() && node_is_leaf(
                            children@[c],
                        ) == node_is_leaf(children@[below.len() - j * k - 1])
                    }
            },
            Node::Leaf { value, hash } => false,
        }
    }
}

/// A k-ary Merkle tree. `commit` fills `root` and `height`;
/// `committed` records, in ghost state, the values the tree was built
/// over, so that contracts can speak of them.
pub struct MerkleTree {
    pub root: Option<Node>,
    pub height: Option<usize>,
    pub k: usize,
    pub committed: Ghost<Option<Seq<Seq<u8>>>>,
}

/// The ordered sibling hashes that authenticate one leaf.
#[derive(Debug, Clone)]
pub struct MerkleProof {
    pub hashes: Vec<[u8; 32]>,
}

impl MerkleProof {
    /// The proof as a sequence of 32-byte hashes.
    pub open spec fn view_hashes(&self) -> Seq<Seq<u8>> {
        Seq::new(self.hashes@.len(), |i: int| self.hashes@[i]@)
    }
}

impl MerkleTree {
    /// The values this tree was committed over.
    pub open spec fn vals(&self) -> Seq<Seq<u8>> {
        match self.committed@ {
            Some(vs) => vs,
            None => Seq::empty(),
        }
    }

    /// Structural soundness: after `commit`, the root is the model's
    /// root node and the stored height is `ceil(log_k n)`, phrased by
    /// its powers.
    pub open spec fn wf(&self) -> bool {
        self.k >= 2 && match self.committed@ {
            None => self.root is None && self.height is None,
            Some(vs) => {
                &&& vs.len() >= 1
                &&& match self.root {
                    Some(rt) => good_node(
                        rt,
                        vs,
                        self.k as nat,
                        root_depth(vs.len(), self.k as nat),
                        0,
                    ),
                    None => false,
                }
                &&& match self.height {
                    Some(h) => {
                        &&& pow(self.k as int, h as nat) >= vs.len()
                        &&& h >= 1 ==> pow(self.k as int, (h - 1) as nat) < vs.len()
                        &&& h == 0 ==> vs.len() <= 1
                    },
                    None => false,
                }
            },
        }
    }

    /// An empty tree of arity `k`.
    pub fn setup(k: usize) -> (r: MerkleTree)
        requires
            k >= 2,
        ensures
            r.wf(),
            r.k == k,
            r.committed@ is None,
            r.root is None,
            r.height is None,
    {
        MerkleTree { root: None, height: None, k, committed: Ghost(None) }
    }

    /// The hash of the root node, once committed.
    pub fn root_hash(&self) -> (r: Option<[u8; 32]>)
        ensures
            match self.root {
                Some(rt) => r matches Some(h) && h@ == node_hash(rt),
                None => r is None,
            },
    {
        match &self.root {
            Some(Node::Internal { hash, .. }) => Some(*hash),
            Some(Node::Leaf { hash, .. }) => Some(*hash),
            None => None,
        }
    }
}

/// The byte strings that a vector of values denotes.
pub open spec fn views_of(values: Seq<Vec<u8>>) -> Seq<Seq<u8>> {
    Seq::new(values.len(), |i: int| values[i]@)
}

impl MerkleTree {
    /// Hashes every value into a leaf, groups chunks of `k` siblings
    /// into internal nodes level by level, and stores the root and
    /// the height `ceil(log_k n)`.
    pub fn commit(&mut self, values: &Vec<Vec<u8>>)
        requires
            old(self).k >= 2,
            values@.len() >= 1,
        ensures
            final(self).k == old(self).k,
            final(self).committed@ == Some(views_of(values@)),
            final(self).wf(),
    {
        let ghost vals = views_of(values@);
        let k = self.k;
        let mut nodes: Vec<Node> = Vec::new();
        let mut i: usize = 0;
        while i < values.len()
            invariant
                i <= values@.len(),
                k >= 2,
                vals == views_of(values@),
                nodes@.len() == i,
                forall|j: int| 0 <= j < i ==> good_node(#[trigger] nodes@[j], vals, k as nat, 0, j),
            decreases values@.len() - i,
        {
            let stored = clone_bytes(&values[i]);
            let hash = keccak256(&values[i]);
            nodes.push(Node::Leaf { value: Some(stored), hash });
            i = i + 1;
        }
        let ghost mut l: nat = 0nat;
        while nodes.len() > k
            invariant
                k >= 2,
                nodes@.len() >= 1,
                vals.len() >= 1,
                nodes@.len() == level(leaf_hashes(vals), k as nat, l).len(),
                forall|j: int|
                    0 <= j < nodes@.len() ==> good_node(#[trigger] nodes@[j], vals, k as nat, l, j),
                root_depth(vals.len(), k as nat) == l + root_depth(nodes@.len(), k as nat),
            decreases nodes@.len(),
        {
            proof {
                assert(root_depth(nodes@.len(), k as nat) == 1 + root_depth(
                    ceil_div(nodes@.len(), k as nat),
                    k as nat,
                ));
                lemma_ceil_div_shrinks(nodes@.len(), k as nat);
            }
            nodes = MerkleTree::build_level(nodes, k, Ghost(vals), Ghost(l));
            proof {
                l = l + 1;
            }
        }
        let ghost count = nodes@.len();
        proof {
            assert(0 * k == 0);
            assert(ceil_div(count, k as nat) >= 1 && count <= (0 + 1) * k) by (nonlinear_arith)
                requires
                    k >= 2,
                    1 <= count <= k,
            ;
        }
        let root = MerkleTree::make_parent(nodes, k, Ghost(vals), Ghost(l), Ghost(0));
        let h = ceil_log_base(k, values.len());
        self.root = Some(root);
        self.height = Some(h);
        self.committed = Ghost(Some(vals));
        proof {
            assert(root_depth(count, k as nat) == 1);
            assert(root_depth(vals.len(), k as nat) == l + 1);
        }
    }

    /// One level of tree building: each chunk of `k` nodes becomes an
    /// internal parent.
    fn build_level(
        nodes: Vec<Node>,
        k: usize,
        Ghost(vals): Ghost<Seq<Seq<u8>>>,
        Ghost(l): Ghost<nat>,
    ) -> (r: Vec<Node>)
        requires
            k >= 2,
            nodes@.len() >= 1,
            nodes@.len() == level(leaf_hashes(vals), k as nat, l).len(),
            forall|j: int|
                0 <= j < nodes@.len() ==> good_node(#[trigger] nodes@[j], vals, k as nat, l, j),
        ensures
            r@.len() == level(leaf_hashes(vals), k as nat, l + 1).len(),
            r@.len() == ceil_div(nodes@.len(), k as nat),
            forall|j: int|
                0 <= j < r@.len() ==> good_node(#[trigger] r@[j], vals, k as nat, l + 1, j),
    {
        let ghost lv = level(leaf_hashes(vals), k as nat, l);
        let ghost total = nodes@;
        let mut rest = nodes;
        let mut parents: Vec<Node> = Vec::new();
        let ghost mut j: int = 0;
        proof {
            assert(0 * k == 0);
            assert(rest@ =~= total.subrange(0, total.len() as int));
        }
        while rest.len() > 0
            invariant
                k >= 2,
                lv == level(leaf_hashes(vals), k as nat, l),
                total.len() == lv.len(),
                forall|t: int|
                    0 <= t < total.len() ==> good_node(#[trigger] total[t], vals, k as nat, l, t),
                0 <= j,
                parents@.len() == j,
                rest@.len() > 0 ==> j * k + rest@.len() == total.len() && rest@ == total.subrange(
                    j * k,
                    total.len() as int,
                ),
                rest@.len() == 0 ==> j == ceil_div(total.len(), k as nat),
                forall|t: int|
                    0 <= t < parents@.len() ==> good_node(
                        #[trigger] parents@[t],
                        vals,
                        k as nat,
                        l + 1,
                        t,
                    ),
            decreases rest@.len(),
        {
            let take = if k < rest.len() {
                k
            } else {
                rest.len()
            };
            let ghost before = rest@;
            let tail = rest.split_off(take);
            let chunk = rest;
            rest = tail;
            proof {
                assert((j + 1) * k == j * k + k) by (nonlinear_arith);
                assert(chunk@ =~= total.subrange(j * k, j * k + take));
                assert(rest@ =~= total.subrange(j * k + take, total.len() as int));
                assert(forall|c: int| 0 <= c < take ==> chunk@[c] == total[j * k + c]);
                lemma_chunk_count(total.len(), k as nat, j as nat, take as nat);
            }
            let parent = MerkleTree::make_parent(chunk, k, Ghost(vals), Ghost(l), Ghost(j));
            parents.push(parent);
            proof {
                j = j + 1;
                if rest@.len() == 0 {
                    assert(j * k >= total.len());
                    assert(j == ceil_div(total.len(), k as nat));
                }
            }
        }
        proof {
            assert(level(leaf_hashes(vals), k as nat, l + 1).len() == ceil_div(
                lv.len(),
                k as nat,
            ));
        }
        parents
    }

    /// Builds the internal node over one chunk of siblings.
    fn make_parent(
        chunk: Vec<Node>,
        k: usize,
        Ghost(vals): Ghost<Seq<Seq<u8>>>,
        Ghost(l): Ghost<nat>,
        Ghost(j): Ghost<int>,
    ) -> (r: Node)
        requires
            k >= 2,
            1 <= chunk@.len() <= k,
            j >= 0,
            j * k + chunk@.len() <= level(leaf_hashes(vals), k as nat, l).len(),
            chunk@.len() == k || j * k + chunk@.len() == level(
                leaf_hashes(vals),
                k as nat,
                l,
            ).len(),
            j < ceil_div(level(leaf_hashes(vals), k as nat, l).len(), k as nat),
            forall|c: int|
                0 <= c < chunk@.len() ==> good_node(
                    #[trigger] chunk@[c],
                    vals,
                    k as nat,
                    l,
                    j * k + c,
                ),
        ensures
            good_node(r, vals, k as nat, l + 1, j),
    {
        let ghost lv = level(leaf_hashes(vals), k as nat, l);
        let ghost m = chunk@.len() as int;
        proof {
            assert((j + 1) * k == j * k + k) by (nonlinear_arith);
            assert(forall|c: int|
                0 <= c < m ==> node_hash(#[trigger] chunk@[c]) == lv[j * k + c]);
            assert(hashes_of(chunk@) =~= chunk_of(lv, k as nat, j));
        }
        let children = MerkleTree::extend_nodes(chunk, k);
        let hash = MerkleTree::hash_nodes(&children);
        proof {
            assert(hashes_of(children@) =~= pad_chunk(chunk_of(lv, k as nat, j), k as nat));
            assert(level(leaf_hashes(vals), k as nat, l + 1)[j] == parent_hash(
                chunk_of(lv, k as nat, j),
                k as nat,
            ));
        }
        let r = Node::Internal { children, hash };
        proof {
            assert forall|c: int| 0 <= c < k implies if j * k + c < lv.len() {
                good_node(#[trigger] children@[c], vals, k as nat, l, j * k + c)
            } else {
                node_hash(children@[c]) == chunk_of(lv, k as nat, j).last()
            } by {
                if c < m {
                    assert(children@[c] == chunk@[c]);
                    assert(good_node(chunk@[c], vals, k as nat, l, j * k + c));
                } else {
                    assert(m < k && j * k + m == lv.len());
                    assert(j * k + c >= lv.len());
                    assert(node_hash(children@[c]) == node_hash(chunk@[m - 1]));
                    assert(chunk_of(lv, k as nat, j).last() == hashes_of(chunk@).last());
                }
            }
            assert(good_node(r, vals, k as nat, l + 1, j));
        }
        r
    }

    /// Pads a chunk of fewer than `k` siblings to exactly `k`, by
    /// repeating the last sibling's hash under its tag.
    fn extend_nodes(chunk: Vec<Node>, k: usize) -> (r: Vec<Node>)
        requires
            1 <= chunk@.len() <= k,
        ensures
            r@.len() == k,
            forall|c: int| 0 <= c < chunk@.len() ==> r@[c] == chunk@[c],
            forall|c: int|
                chunk@.len() <= c < k ==> node_hash(#[trigger] r@[c]) == node_hash(
                    chunk@[chunk@.len() - 1],
                ) && node_is_leaf(r@[c]) == node_is_leaf(chunk@[chunk@.len() - 1]),
    {
        let m = chunk.len();
        let (is_leaf, last_hash): (bool, [u8; 32]) = match &chunk[m - 1] {
            Node::Leaf { value, hash } => (true, *hash),
            Node::Internal { children, hash } => (false, *hash),
        };
        let mut out = chunk;
        let mut c: usize = m;
        while c < k
            invariant
                m >= 1,
                m <= c <= k,
                out@.len() == c,
                forall|t: int| 0 <= t < m ==> out@[t] == chunk@[t],
                forall|t: int|
                    m <= t < c ==> node_hash(#[trigger] out@[t]) == node_hash(chunk@[m - 1])
                        && node_is_leaf(out@[t]) == node_is_leaf(chunk@[m - 1]),
                last_hash@ == node_hash(chunk@[m - 1]),
                is_leaf == node_is_leaf(chunk@[m - 1]),
            decreases k - c,
        {
            if is_leaf {
                out.push(Node::Leaf { value: None, hash: last_hash });
            } else {
                out.push(Node::Internal { children: Vec::new(), hash: last_hash });
            }
            c = c + 1;
        }
        out
    }

    /// Keccak-256 over the concatenated child hashes.
    fn hash_nodes(nodes: &Vec<Node>) -> (r: [u8; 32])
        ensures
            r@ == keccak_of(flatten_hashes(hashes_of(nodes@))),
    {
        let mut buf: Vec<u8> = Vec::new();
        let mut i: usize = 0;
        while i < nodes.len()
            invariant
                i <= nodes@.len(),
                buf@ == flatten_hashes(hashes_of(nodes@).take(i as int)),
            decreases nodes@.len() - i,
        {
            let h: &[u8; 32] = match &nodes[i] {
                Node::Internal { children, hash } => hash,
                Node::Leaf { value, hash } => hash,
            };
            let ghost before = buf@;
            let mut b: usize = 0;
            while b < 32
                invariant
                    b <= 32,
                    h@ == node_hash(nodes@[i as int]),
                    i < nodes@.len(),
                    buf@ == before + h@.take(b as int),
                decreases 32 - b,
            {
                buf.push(h[b]);
                proof {
                    assert(buf@ =~= before + h@.take(b + 1));
                }
                b = b + 1;
            }
            proof {
                assert(buf@ =~= before + node_hash(nodes@[i as int]));
                let hs = hashes_of(nodes@);
                assert(hs.take(i + 1).drop_last() =~= hs.take(i as int));
                assert(buf@ == flatten_hashes(hs.take(i + 1)));
            }
            i = i + 1;
        }
        proof {
            assert(hashes_of(nodes@).take(nodes@.len() as int) =~= hashes_of(nodes@));
        }
        keccak256(&buf)
    }
}

/// The chunk index times `k` stays within the level while chunks
/// remain, and the last chunk ends exactly at the level's end.
pub open spec fn ceil_div_bounds(n: nat, k: nat, j: nat, take: nat) -> bool {
    j < ceil_div(n, k) && (take == k ==> (j + 1) * k <= n) && ((j + 1) * k >= n ==> j + 1
        == ceil_div(n, k))
}

pub proof fn lemma_chunk_count(n: nat, k: nat, j: nat, take: nat)
    requires
        k >= 2,
        j * k < n,
        take == if k < n - j * k {
            k as int
        } else {
            n - j * k
        },
    ensures
        ceil_div_bounds(n, k, j, take),
{
    assert(j < ceil_div(n, k) && (take == k ==> (j + 1) * k <= n) && ((j + 1) * k >= n ==> j + 1
        == ceil_div(n, k))) by (nonlinear_arith)
        requires
            k >= 2,
            j * k < n,
            take == if k < n - j * k {
                k as int
            } else {
                n - j * k
            },
    ;
}

/// The sibling hashes beside the path node at level `l`: the padded
/// chunk around `index / k^l`, in ascending slot order, with the
/// on-path slot removed.
pub open spec fn sibs_at(vs: Seq<Seq<u8>>, k: nat, index: int, l: nat) -> Seq<Seq<u8>> {
    let lv = level(leaf_hashes(vs), k, l);
    let idx = index / pow(k as int, l);
    let j = idx / (k as int);
    let c = idx % (k as int);
    let padded = pad_chunk(chunk_of(lv, k, j), k);
    padded.take(c) + padded.skip(c + 1)
}

/// The proof hashes for `m` consecutive levels starting at level `l`,
/// lowest level first: what `open` returns with `l == 0` and
/// `m == height`.
pub open spec fn proof_from(vs: Seq<Seq<u8>>, k: nat, index: int, l: nat, m: nat) -> Seq<Seq<u8>>
    decreases m,
{
    if m == 0 {
        Seq::empty()
    } else {
        sibs_at(vs, k, index, l) + proof_from(vs, k, index, (l + 1) as nat, (m - 1) as nat)
    }
}

/// One verification step: the current hash is slotted at position `c`
/// among `k - 1` siblings and the concatenation is hashed.
pub open spec fn step_hash(sibs: Seq<Seq<u8>>, c: int, cur: Seq<u8>) -> Seq<u8> {
    keccak_of(flatten_hashes(sibs.take(c) + seq![cur] + sibs.skip(c)))
}

/// The hash that `m` verification steps starting at level `l` compute
/// from `cur`, consuming `k - 1` proof hashes per step.
pub open spec fn fold_from(
    pf: Seq<Seq<u8>>,
    k: nat,
    index: int,
    l: nat,
    cur: Seq<u8>,
    m: nat,
) -> Seq<u8>
    decreases m,
{
    if m == 0 {
        cur
    } else {
        let c = (index / pow(k as int, l)) % (k as int);
        fold_from(
            pf.skip(k - 1),
            k,
            index,
            (l + 1) as nat,
            step_hash(pf.take(k - 1), c, cur),
            (m - 1) as nat,
        )
    }
}

/// The on-path index stays inside its level.
proof fn lemma_path_index_in_level(vs: Seq<Seq<u8>>, k: nat, index: int, l: nat)
    requires
        k >= 2,
        0 <= index < vs.len(),
    ensures
        index / pow(k as int, l) < level(leaf_hashes(vs), k, l).len(),
        index / pow(k as int, l) >= 0,
    decreases l,
{
    lemma_pow_positive(k as int, l);
    if l == 0 {
        lemma_pow0(k as int);
    } else {
        lemma_path_index_in_level(vs, k, index, (l - 1) as nat);
        let p = pow(k as int, (l - 1) as nat);
        lemma_pow_positive(k as int, (l - 1) as nat);
        lemma_pow_adds(k as int, (l - 1) as nat, 1);
        lemma_pow1(k as int);
        lemma_div_denominator(index, p, k as int);
        let a = index / p;
        let n_prev = level(leaf_hashes(vs), k, (l - 1) as nat).len();
        assert(a / (k as int) < ceil_div(n_prev, k) && a / (k as int) >= 0) by (nonlinear_arith)
            requires
                k >= 2,
                0 <= a < n_prev,
        ;
        assert(index / pow(k as int, l) == a / (k as int));
    }
}

/// One verification step at level `l` lifts the on-path hash to the
/// on-path hash one level up.
proof fn lemma_step(vs: Seq<Seq<u8>>, k: nat, index: int, l: nat)
    requires
        k >= 2,
        0 <= index < vs.len(),
    ensures
        ({
            let lv = level(leaf_hashes(vs), k, l);
            let idx = index / pow(k as int, l);
            let c = idx % (k as int);
            step_hash(sibs_at(vs, k, index, l), c, lv[idx]) == level(
                leaf_hashes(vs),
                k,
                (l + 1) as nat,
            )[index / pow(k as int, (l + 1) as nat)]
        }),
{
    let lv = level(leaf_hashes(vs), k, l);
    let idx = index / pow(k as int, l);
    let j = idx / (k as int);
    let c = idx % (k as int);
    lemma_path_index_in_level(vs, k, index, l);
    lemma_path_index_in_level(vs, k, index, (l + 1) as nat);
    lemma_pow_positive(k as int, l);
    lemma_pow_adds(k as int, l, 1);
    lemma_pow1(k as int);
    lemma_div_denominator(index, pow(k as int, l), k as int);
    assert(index / pow(k as int, (l + 1) as nat) == j);
    assert(0 <= c < k && idx == j * k + c) by {
        lemma_fundamental_div_mod(idx, k as int);
    }
    assert((j + 1) * k == j * k + k) by (nonlinear_arith);
    let padded = pad_chunk(chunk_of(lv, k, j), k);
    let chunk = chunk_of(lv, k, j);
    assert(chunk.len() >= 1 && c < chunk.len() && chunk[c] == lv[idx] && padded.len() == k) by {
        assert(j * k <= idx && idx < lv.len() && idx < j * k + k);
    }
    assert(padded[c] == lv[idx]);
    let sibs = padded.take(c) + padded.skip(c + 1);
    let assembled = sibs.take(c) + seq![lv[idx]] + sibs.skip(c);
    assert(assembled =~= padded);
    assert(level(leaf_hashes(vs), k, (l + 1) as nat)[j] == parent_hash(chunk, k));
}

/// Folding the proof hashes for `m` levels lifts the on-path hash at
/// level `l` to the on-path hash at level `l + m`.
proof fn lemma_fold_levels(vs: Seq<Seq<u8>>, k: nat, index: int, l: nat, m: nat)
    requires
        k >= 2,
        0 <= index < vs.len(),
    ensures
        fold_from(
            proof_from(vs, k, index, l, m),
            k,
            index,
            l,
            level(leaf_hashes(vs), k, l)[index / pow(k as int, l)],
            m,
        ) == level(leaf_hashes(vs), k, (l + m) as nat)[index / pow(k as int, (l + m) as nat)],
    decreases m,
{
    if m > 0 {
        let pf = proof_from(vs, k, index, l, m);
        let sibs = sibs_at(vs, k, index, l);
        let rest = proof_from(vs, k, index, (l + 1) as nat, (m - 1) as nat);
        let idx = index / pow(k as int, l);
        let c = idx % (k as int);
        lemma_path_index_in_level(vs, k, index, l);
        assert(0 <= c < k) by {
            lemma_fundamental_div_mod(idx, k as int);
        }
        assert(sibs.len() == k - 1) by {
            let lv = level(leaf_hashes(vs), k, l);
            let j = idx / (k as int);
            assert(pad_chunk(chunk_of(lv, k, j), k).len() == k) by {
                assert((j + 1) * k == j * k + k) by (nonlinear_arith);
                assert(j * k <= idx && idx < j * k + k) by {
                    lemma_fundamental_div_mod(idx, k as int);
                    vstd::arithmetic::div_mod::lemma_mod_bound(idx, k as int);
                    assert((k as int) * j == j * k) by (nonlinear_arith);
                }
            }
        }
        assert(pf.take(k - 1) =~= sibs);
        assert(pf.skip(k - 1) =~= rest);
        lemma_step(vs, k, index, l);
        lemma_fold_levels(vs, k, index, (l + 1) as nat, (m - 1) as nat);
    }
}

/// Appending the next level's siblings extends a proof by one level.
proof fn lemma_proof_from_snoc(vs: Seq<Seq<u8>>, k: nat, index: int, l: nat, m: nat)
    ensures
        proof_from(vs, k, index, l, (m + 1) as nat) == proof_from(vs, k, index, l, m) + sibs_at(
            vs,
            k,
            index,
            (l + m) as nat,
        ),
    decreases m,
{
    if m == 0 {
        assert(proof_from(vs, k, index, l, 1) == sibs_at(vs, k, index, l) + proof_from(
            vs,
            k,
            index,
            (l + 1) as nat,
            0,
        ));
        assert(proof_from(vs, k, index, (l + 1) as nat, 0) == Seq::<Seq<u8>>::empty());
        assert(proof_from(vs, k, index, l, 0) == Seq::<Seq<u8>>::empty());
        assert(proof_from(vs, k, index, l, 1) =~= proof_from(vs, k, index, l, 0) + sibs_at(
            vs,
            k,
            index,
            l,
        ));
    } else {
        lemma_proof_from_snoc(vs, k, index, (l + 1) as nat, (m - 1) as nat);
        assert(proof_from(vs, k, index, l, (m + 1) as nat) =~= proof_from(vs, k, index, l, m)
            + sibs_at(vs, k, index, (l + m) as nat));
    }
}

/// Completeness: for a committed vector and an index in range, the
/// verification fold of the proof that `open` is specified to return,
/// started from the leaf hash, reproduces the root hash.
pub proof fn lemma_merkle_completeness(vs: Seq<Seq<u8>>, k: nat, index: int)
    requires
        k >= 2,
        vs.len() >= 1,
        0 <= index < vs.len(),
    ensures
        ({
            let h = root_depth(vs.len(), k);
            fold_from(
                proof_from(vs, k, index, 0, h),
                k,
                index,
                0,
                keccak_of(vs[index]),
                h,
            ) == level(leaf_hashes(vs), k, h)[0]
        }),
{
    let h = root_depth(vs.len(), k);
    lemma_pow0(k as int);
    lemma_fold_levels(vs, k, index, 0, h);
    lemma_root_level_len(vs, k);
    lemma_path_index_in_level(vs, k, index, h);
}

/// `root_depth` is the least exponent whose power of `k` covers `n`.
proof fn lemma_root_depth_pow(n: nat, k: nat)
    requires
        k >= 2,
        n >= 2,
    ensures
        pow(k as int, root_depth(n, k)) >= n,
        pow(k as int, (root_depth(n, k) - 1) as nat) < n,
    decreases n,
{
    lemma_pow0(k as int);
    lemma_pow1(k as int);
    if n <= k {
    } else {
        let m = ceil_div(n, k);
        assert(2 <= m < n && (k as int) * m >= n && (k as int) * m <= n + k - 1)
            by (nonlinear_arith)
            requires
                k >= 2,
                n > k,
                m == (n + k - 1) / (k as int),
        ;
        lemma_root_depth_pow(m, k);
        let rm = root_depth(m, k);
        lemma_pow_positive(k as int, (rm - 1) as nat);
        lemma_pow_adds(k as int, rm, 1);
        assert(pow(k as int, (rm + 1) as nat) == pow(k as int, rm) * k);
        assert(pow(k as int, rm) * k >= n) by (nonlinear_arith)
            requires
                pow(k as int, rm) >= m,
                (k as int) * m >= n,
                k >= 2,
                m >= 2,
        ;
        lemma_pow_adds(k as int, (rm - 1) as nat, 1);
        assert(pow(k as int, rm) == pow(k as int, (rm - 1) as nat) * k);
        assert(pow(k as int, (rm - 1) as nat) * k < n) by (nonlinear_arith)
            requires
                pow(k as int, (rm - 1) as nat) < m,
                pow(k as int, (rm - 1) as nat) >= 1,
                (k as int) * m <= n + k - 1,
                k >= 2,
                m >= 2,
        ;
    }
}

/// A height that satisfies the stored power bounds is `root_depth`.
pub proof fn lemma_height_is_root_depth(n: nat, k: nat, h: nat)
    requires
        k >= 2,
        n >= 2,
        pow(k as int, h) >= n,
        h >= 1 ==> pow(k as int, (h - 1) as nat) < n,
        h == 0 ==> n <= 1,
    ensures
        h == root_depth(n, k),
{
    let rd = root_depth(n, k);
    lemma_root_depth_pow(n, k);
    if h < rd {
        vstd::arithmetic::power::lemma_pow_increases(k, h, (rd - 1) as nat);
    } else if h > rd {
        vstd::arithmetic::power::lemma_pow_increases(k, rd, (h - 1) as nat);
    }
}

/// The root level holds exactly one hash.
proof fn lemma_root_level_len(vs: Seq<Seq<u8>>, k: nat)
    requires
        k >= 2,
        vs.len() >= 1,
    ensures
        level(leaf_hashes(vs), k, root_depth(vs.len(), k)).len() == 1,
    decreases vs.len(),
{
    lemma_level_len_step(vs, k, 0, root_depth(vs.len(), k));
}

/// Level lengths follow `ceil_div`, and the root level has length 1.
proof fn lemma_level_len_step(vs: Seq<Seq<u8>>, k: nat, l: nat, m: nat)
    requires
        k >= 2,
        level(leaf_hashes(vs), k, l).len() >= 1,
        m == root_depth(level(leaf_hashes(vs), k, l).len(), k),
    ensures
        level(leaf_hashes(vs), k, (l + m) as nat).len() == 1,
    decreases m,
{
    let n = level(leaf_hashes(vs), k, l).len();
    if n <= k {
        assert(m == 1);
        assert(level(leaf_hashes(vs), k, (l + 1) as nat).len() == ceil_div(n, k));
        assert(ceil_div(n, k) == 1) by (nonlinear_arith)
            requires
                k >= 2,
                1 <= n <= k,
        ;
    } else {
        assert(level(leaf_hashes(vs), k, (l + 1) as nat).len() == ceil_div(n, k));
        lemma_ceil_div_shrinks(n, k);
        lemma_level_len_step(vs, k, (l + 1) as nat, (m - 1) as nat);
    }
}

/// The hashes a group vector denotes.
pub open spec fn group_view(g: Vec<[u8; 32]>) -> Seq<Seq<u8>> {
    Seq::new(g@.len(), |i: int| g@[i]@)
}

impl MerkleTree {
    /// Returns the value at `index` and the sibling hashes along its
    /// path, ordered leaf level first, ascending within each level.
    /// A single-value tree is excluded: its height is zero, so the
    /// walk would end on the internal root with no leaf to return.
    pub fn open(&self, index: usize) -> (r: (Vec<u8>, MerkleProof))
        requires
            self.wf(),
            self.committed@ is Some,
            self.vals().len() >= 2,
            index < self.vals().len(),
        ensures
            r.0@ == self.vals()[index as int],
            r.1.view_hashes() == proof_from(
                self.vals(),
                self.k as nat,
                index as int,
                0,
                root_depth(self.vals().len(), self.k as nat),
            ),
            r.1.hashes@.len() == (self.k - 1) * root_depth(self.vals().len(), self.k as nat),
    {
        let ghost vs = self.vals();
        let k = self.k;
        let h = self.height.unwrap();
        proof {
            lemma_height_is_root_depth(vs.len(), k as nat, h as nat);
        }
        let path = compute_path(index, h, k);
        let current_root = match &self.root {
            Some(rt) => rt,
            None => unreached(),
        };
        let mut current: &Node = current_root;
        let mut groups: Vec<Vec<[u8; 32]>> = Vec::new();
        let mut d: usize = 0;
        proof {
            lemma_pow0(k as int);
            assert(index as int / pow(k as int, h as nat) == 0) by {
                lemma_path_index_in_level(vs, k as nat, index as int, h as nat);
                lemma_root_level_len(vs, k as nat);
            }
        }
        while d < h
            invariant
                k >= 2,
                d <= h,
                index < vs.len(),
                vs.len() >= 1,
                h == root_depth(vs.len(), k as nat),
                path@.len() == h,
                forall|t: int|
                    0 <= t < h ==> path@[t] == (index as int / pow(k as int, (h - 1 - t) as nat))
                        % (k as int),
                good_node(
                    *current,
                    vs,
                    k as nat,
                    (h - d) as nat,
                    index as int / pow(k as int, (h - d) as nat),
                ),
                groups@.len() == d,
                forall|t: int| 0 <= t < d ==> #[trigger] groups@[t]@.len() == k - 1,
                forall|t: int|
                    0 <= t < d ==> group_view(#[trigger] groups@[t]) == sibs_at(
                        vs,
                        k as nat,
                        index as int,
                        (h - 1 - t) as nat,
                    ),
            decreases h - d,
        {
            let ghost l = (h - d) as nat;
            let ghost idx = index as int / pow(k as int, l);
            let ghost below = level(leaf_hashes(vs), k as nat, (l - 1) as nat);
            let ghost idx_below = index as int / pow(k as int, (l - 1) as nat);
            proof {
                lemma_path_index_in_level(vs, k as nat, index as int, l);
                lemma_path_index_in_level(vs, k as nat, index as int, (l - 1) as nat);
                lemma_pow_positive(k as int, (l - 1) as nat);
                lemma_pow_adds(k as int, (l - 1) as nat, 1);
                lemma_pow1(k as int);
                lemma_div_denominator(index as int, pow(k as int, (l - 1) as nat), k as int);
                assert(idx_below / (k as int) == idx);
                lemma_fundamental_div_mod(idx_below, k as int);
                assert((idx + 1) * k == idx * k + k) by (nonlinear_arith);
            }
            let c = path[d];
            proof {
                assert(c == idx_below % (k as int));
                assert(idx * k + c == idx_below);
            }
            match current {
                Node::Internal { children, hash } => {
                    let ghost chunk = chunk_of(below, k as nat, idx);
                    let ghost padded = pad_chunk(chunk, k as nat);
                    proof {
                        assert(idx * k <= idx_below && idx_below < below.len());
                        assert(chunk.len() >= 1 && chunk.len() <= k);
                        assert(padded.len() == k);
                        assert forall|t: int| 0 <= t < k implies node_hash(
                            #[trigger] children@[t],
                        ) == padded[t] by {
                            if idx * k + t < below.len() {
                                assert(good_node(
                                    children@[t],
                                    vs,
                                    k as nat,
                                    (l - 1) as nat,
                                    idx * k + t,
                                ));
                                assert(t < chunk.len());
                                assert(padded[t] == below[idx * k + t]);
                            } else {
                                assert(node_hash(children@[t]) == chunk.last());
                                assert(t >= chunk.len());
                            }
                        }
                    }
                    let mut group: Vec<[u8; 32]> = Vec::new();
                    let mut t: usize = 0;
                    proof {
                        assert(group_view(group) =~= padded.take(0));
                    }
                    while t < k
                        invariant
                            k >= 2,
                            t <= k,
                            c < k,
                            children@.len() == k,
                            padded.len() == k,
                            forall|u: int|
                                0 <= u < k ==> node_hash(#[trigger] children@[u]) == padded[u],
                            group_view(group) == if t <= c {
                                padded.take(t as int)
                            } else {
                                padded.take(c as int) + padded.subrange(c + 1, t as int)
                            },
                        decreases k - t,
                    {
                        let ghost gold = group@;
                        let ghost gvold = group_view(group);
                        let ghost otarget = if t <= c {
                            padded.take(t as int)
                        } else {
                            padded.take(c as int) + padded.subrange(c + 1, t as int)
                        };
                        let ghost target = if t + 1 <= c {
                            padded.take(t + 1)
                        } else {
                            padded.take(c as int) + padded.subrange(c + 1, t + 1)
                        };
                        if t != c {
                            let hh: [u8; 32] = match &children[t] {
                                Node::Internal { children: cc, hash: hx } => *hx,
                                Node::Leaf { value: vv, hash: hx } => *hx,
                            };
                            proof {
                                assert(hh@ == node_hash(children@[t as int]));
                                assert(hh@ == padded[t as int]);
                            }
                            group.push(hh);
                            proof {
                                assert(group@ == gold.push(hh));
                                assert(gvold == otarget);
                                assert(gold.len() == otarget.len());
                                assert forall|i: int|
                                    0 <= i < group@.len() implies #[trigger] group@[i]@ == target[i] by {
                                    if i < gold.len() {
                                        assert(group@[i] == gold[i]);
                                        assert(gvold[i] == gold[i]@);
                                        assert(otarget[i] == target[i]);
                                    } else {
                                        assert(group@[i] == hh);
                                        assert(target[i] == padded[t as int]);
                                    }
                                }
                                assert(group_view(group) =~= target);
                            }
                        } else {
                            proof {
                                assert(gvold == otarget);
                                assert(group_view(group) =~= target);
                            }
                        }
                        t = t + 1;
                    }
                    proof {
                        assert(group_view(group) =~= padded.take(c as int) + padded.skip(c + 1));
                        assert(group_view(group) == sibs_at(
                            vs,
                            k as nat,
                            index as int,
                            (l - 1) as nat,
                        ));
                        assert(group@.len() == k - 1);
                    }
                    groups.push(group);
                    proof {
                        assert(idx_below < below.len());
                    }
                    current = &children[c];
                },
                Node::Leaf { value, hash } => {
                    proof {
                        assert(false);
                    }
                },
            }
            d = d + 1;
        }
        proof {
            lemma_pow0(k as int);
        }
        let value = match current {
            Node::Leaf { value: Some(v), hash } => clone_bytes(v),
            _ => unreached(),
        };
        let mut hashes: Vec<[u8; 32]> = Vec::new();
        let mut t: usize = 0;
        while t < h
            invariant
                k >= 2,
                t <= h,
                h == groups@.len(),
                forall|u: int| 0 <= u < h ==> #[trigger] groups@[u]@.len() == k - 1,
                forall|u: int|
                    0 <= u < h ==> group_view(#[trigger] groups@[u]) == sibs_at(
                        vs,
                        k as nat,
                        index as int,
                        (h - 1 - u) as nat,
                    ),
                hashes@.len() == t * (k - 1),
                Seq::new(hashes@.len(), |i: int| hashes@[i]@) == proof_from(
                    vs,
                    k as nat,
                    index as int,
                    0,
                    t as nat,
                ),
            decreases h - t,
        {
            let ghost before = Seq::new(hashes@.len(), |i: int| hashes@[i]@);
            let g = &groups[h - 1 - t];
            let mut u: usize = 0;
            proof {
                assert(Seq::new(hashes@.len(), |i: int| hashes@[i]@) =~= before + group_view(
                    *g,
                ).take(0));
            }
            while u < g.len()
                invariant
                    u <= g@.len(),
                    hashes@.len() == before.len() + u,
                    Seq::new(hashes@.len(), |i: int| hashes@[i]@) =~= before + group_view(
                        *g,
                    ).take(u as int),
                decreases g@.len() - u,
            {
                let ghost hold = hashes@;
                let ghost hvold = Seq::new(hashes@.len(), |i: int| hashes@[i]@);
                hashes.push(g[u]);
                proof {
                    assert(hashes@ == hold.push(g@[u as int]));
                    let hv = Seq::new(hashes@.len(), |i: int| hashes@[i]@);
                    assert forall|i: int|
                        0 <= i < hashes@.len() implies #[trigger] hv[i] == (before + group_view(
                        *g,
                    ).take(u + 1))[i] by {
                        if i < hold.len() {
                            assert(hashes@[i] == hold[i]);
                            assert(hvold[i] == hold[i]@);
                        } else {
                            assert(hashes@[i] == g@[u as int]);
                            assert(group_view(*g).take(u + 1)[i - before.len()] == g@[u as int]@);
                        }
                    }
                    assert(hv =~= before + group_view(*g).take(u + 1));
                }
                u = u + 1;
            }
            proof {
                assert(group_view(*g).take(g@.len() as int) =~= group_view(*g));
                lemma_proof_from_snoc(vs, k as nat, index as int, 0, t as nat);
                assert(Seq::new(hashes@.len(), |i: int| hashes@[i]@) =~= proof_from(
                    vs,
                    k as nat,
                    index as int,
                    0,
                    (t + 1) as nat,
                ));
                assert((t + 1) * (k - 1) == t * (k - 1) + (k - 1)) by (nonlinear_arith);
            }
            t = t + 1;
        }
        let pf = MerkleProof { hashes };
        proof {
            assert(pf.view_hashes() =~= Seq::new(pf.hashes@.len(), |i: int| pf.hashes@[i]@));
            assert(pf.hashes@.len() == (h as int) * (k - 1));
            assert((h as int) * (k - 1) == (k - 1) * (h as int)) by (nonlinear_arith);
        }
        (value, pf)
    }

    /// Recomputes the root from a claimed value and proof: hash the
    /// value, then fold one level per digit, consuming `k - 1` proof
    /// hashes per level; accept exactly when the fold meets the root.
    pub fn verify(&self, index: usize, value: &Vec<u8>, proof: &MerkleProof) -> (r: bool)
        requires
            self.wf(),
            self.committed@ is Some,
        ensures
            r == ({
                let vs = self.vals();
                let k = self.k as nat;
                let h = self.height.unwrap() as nat;
                proof.view_hashes().len() >= (k - 1) * h && fold_from(
                    proof.view_hashes(),
                    k,
                    index as int,
                    0,
                    keccak_of(value@),
                    h,
                ) == node_hash(self.root.unwrap())
            }),
    {
        let ghost vs = self.vals();
        let k = self.k;
        let h = self.height.unwrap();
        let path = compute_path(index, h, k);
        let ghost pv = proof.view_hashes();
        let ghost start = keccak_of(value@);
        let ghost goal = fold_from(pv, k as nat, index as int, 0, start, h as nat);
        let mut cur: [u8; 32] = keccak256(value);
        let mut pos: usize = 0;
        let mut l: usize = 0;
        proof {
            assert(pv.skip(0) =~= pv);
        }
        while l < h
            invariant
                k >= 2,
                k == self.k,
                self.height == Some(h),
                self.root is Some,
                l <= h,
                path@.len() == h,
                forall|t: int|
                    0 <= t < h ==> path@[t] == (index as int / pow(k as int, (h - 1 - t) as nat))
                        % (k as int),
                pos == l * (k - 1),
                pos <= proof.hashes@.len(),
                pv == proof.view_hashes(),
                fold_from(pv.skip(pos as int), k as nat, index as int, l as nat, cur@, (h
                    - l) as nat) == goal,
            decreases h - l,
        {
            if proof.hashes.len() - pos < k - 1 {
                proof {
                    assert((k - 1) * (h as int) >= (l + 1) * (k - 1)) by (nonlinear_arith)
                        requires
                            k >= 2,
                            l < h,
                    ;
                    assert((l + 1) * (k - 1) == l * (k - 1) + (k - 1)) by (nonlinear_arith);
                    assert(pv.len() < (k - 1) * (h as int));
                }
                return false;
            }
            let c = path[h - 1 - l];
            let ghost sibs = pv.subrange(pos as int, pos + (k - 1));
            let ghost assembled = sibs.take(c as int) + seq![cur@] + sibs.skip(c as int);
            proof {
                assert(c < k) by {
                    lemma_fundamental_div_mod(
                        index as int / pow(k as int, l as nat),
                        k as int,
                    );
                }
            }
            let mut buf: Vec<u8> = Vec::new();
            let mut slot: usize = 0;
            while slot < k
                invariant
                    k >= 2,
                    slot <= k,
                    c < k,
                    pos + (k - 1) <= proof.hashes@.len(),
                    proof.hashes@.len() <= usize::MAX,
                    pv == proof.view_hashes(),
                    sibs == pv.subrange(pos as int, pos + (k - 1)),
                    assembled == sibs.take(c as int) + seq![cur@] + sibs.skip(c as int),
                    assembled.len() == k,
                    buf@ == flatten_hashes(assembled.take(slot as int)),
                decreases k - slot,
            {
                let ghost bb = buf@;
                if slot == c {
                    append_bytes32(&mut buf, &cur);
                    proof {
                        assert(assembled[slot as int] == cur@);
                    }
                } else {
                    let off = if slot < c {
                        slot
                    } else {
                        slot - 1
                    };
                    assert(off < k - 1);
                    append_bytes32(&mut buf, &proof.hashes[pos + off]);
                    proof {
                        assert(assembled[slot as int] == sibs[off as int]);
                        assert(sibs[off as int] == pv[pos + off]);
                    }
                }
                proof {
                    assert(assembled.take(slot + 1).drop_last() =~= assembled.take(slot as int));
                    assert(buf@ == flatten_hashes(assembled.take(slot + 1)));
                }
                slot = slot + 1;
            }
            proof {
                assert(assembled.take(k as int) =~= assembled);
            }
            let next = keccak256(&buf);
            proof {
                let rem = pv.skip(pos as int);
                assert(rem.take(k - 1) =~= sibs);
                assert(rem.skip(k - 1) =~= pv.skip(pos + (k - 1)));
                assert(next@ == step_hash(sibs, c as int, cur@));
                assert((l + 1) * (k - 1) == l * (k - 1) + (k - 1)) by (nonlinear_arith);
            }
            cur = next;
            pos = pos + (k - 1);
            l = l + 1;
        }
        proof {
            assert(pv.len() >= (k - 1) * (h as int)) by (nonlinear_arith)
                requires
                    pos == (h as int) * (k - 1),
                    pos <= pv.len(),
            ;
        }
        let root_hash: &[u8; 32] = match &self.root {
            Some(Node::Internal { children, hash }) => hash,
            Some(Node::Leaf { value: vv, hash }) => hash,
            None => unreached(),
        };
        crate::bytes::bytes32_eq(&cur, root_hash)
    }
}

/// The base-`width` digits of `index`, most significant first, padded
/// with leading zeros to `height` digits.
pub fn compute_path(index: usize, height: usize, width: usize) -> (r: Vec<usize>)
    requires
        width >= 2,
    ensures
        r@.len() == height,
        forall|d: int|
            0 <= d < height ==> r@[d] == (index as int / pow(width as int, (height - 1 - d) as nat))
                % (width as int),
{
    let mut path: Vec<usize> = Vec::new();
    let mut z: usize = 0;
    while z < height
        invariant
            z <= height,
            path@.len() == z,
        decreases height - z,
    {
        path.push(0);
        z = z + 1;
    }
    let mut n: usize = index;
    let mut i: usize = height;
    proof {
        lemma_pow0(width as int);
    }
    while i > 0
        invariant
            width >= 2,
            i <= height,
            path@.len() == height,
            n == index as int / pow(width as int, (height - i) as nat),
            forall|d: int|
                i <= d < height ==> path@[d] == (index as int / pow(
                    width as int,
                    (height - 1 - d) as nat,
                )) % (width as int),
        decreases i,
    {
        proof {
            lemma_pow_positive(width as int, (height - i) as nat);
            lemma_pow_adds(width as int, (height - i) as nat, 1);
            lemma_pow1(width as int);
            lemma_div_denominator(
                index as int,
                pow(width as int, (height - i) as nat),
                width as int,
            );
            assert(pow(width as int, ((height - i) + 1) as nat) == pow(
                width as int,
                (height - i) as nat,
            ) * width);
        }
        i = i - 1;
        path.set(i, n % width);
        n = n / width;
    }
    path
}

/// A full proof carries `k - 1` hashes per level.
proof fn lemma_proof_from_len(vs: Seq<Seq<u8>>, k: nat, index: int, l: nat, m: nat)
    requires
        k >= 2,
        0 <= index < vs.len(),
    ensures
        proof_from(vs, k, index, l, m).len() == m * (k - 1),
    decreases m,
{
    if m == 0 {
        assert(0 * (k - 1) == 0) by (nonlinear_arith);
    } else {
        lemma_proof_from_len(vs, k, index, (l + 1) as nat, (m - 1) as nat);
        let idx = index / pow(k as int, l);
        lemma_path_index_in_level(vs, k, index, l);
        let j = idx / (k as int);
        assert(pad_chunk(chunk_of(level(leaf_hashes(vs), k, l), k, j), k).len() == k) by {
            assert((j + 1) * k == j * k + k) by (nonlinear_arith);
            lemma_fundamental_div_mod(idx, k as int);
        }
        assert(0 <= idx % (k as int) < k) by {
            lemma_fundamental_div_mod(idx, k as int);
        }
        assert(sibs_at(vs, k, index, l).len() == k - 1);
        assert(m * (k - 1) == (m - 1) * (k - 1) + (k - 1)) by (nonlinear_arith);
    }
}

/// Completeness against the executable contracts: for a committed
/// tree, a proof with the hashes `open` is specified to return, for
/// the committed value at an index in range, satisfies exactly what
/// `verify` is specified to accept.
pub proof fn lemma_open_verifies(t: MerkleTree, index: int, value: Vec<u8>, pf: MerkleProof)
    requires
        t.wf(),
        t.committed@ is Some,
        t.vals().len() >= 2,
        0 <= index < t.vals().len(),
        value@ == t.vals()[index],
        pf.view_hashes() == proof_from(
            t.vals(),
            t.k as nat,
            index,
            0,
            root_depth(t.vals().len(), t.k as nat),
        ),
    ensures
        ({
            let k = t.k as nat;
            let h = t.height.unwrap() as nat;
            pf.view_hashes().len() >= (k - 1) * h && fold_from(
                pf.view_hashes(),
                k,
                index,
                0,
                keccak_of(value@),
                h,
            ) == node_hash(t.root.unwrap())
        }),
{
    let vs = t.vals();
    let k = t.k as nat;
    let h = t.height.unwrap() as nat;
    let rd = root_depth(vs.len(), k);
    lemma_height_is_root_depth(vs.len(), k, h);
    lemma_proof_from_len(vs, k, index, 0, rd);
    lemma_merkle_completeness(vs, k, index);
    lemma_root_level_len(vs, k);
    assert(node_hash(t.root.unwrap()) == level(leaf_hashes(vs), k, rd)[0]);
    assert((k - 1) * h == h * (k - 1)) by (nonlinear_arith);
}

/// Root determinism: two trees committed over the same values with
/// the same arity carry the same root hash.
pub proof fn lemma_merkle_root_determinism(t1: MerkleTree, t2: MerkleTree, vs: Seq<Seq<u8>>)
    requires
        t1.wf(),
        t2.wf(),
        t1.k == t2.k,
        t1.committed@ == Some(vs),
        t2.committed@ == Some(vs),
    ensures
        node_hash(t1.root.unwrap()) == node_hash(t2.root.unwrap()),
{
    let k = t1.k as nat;
    assert(node_hash(t1.root.unwrap()) == level(leaf_hashes(vs), k, root_depth(vs.len(), k))[0]);
    assert(node_hash(t2.root.unwrap()) == level(leaf_hashes(vs), k, root_depth(vs.len(), k))[0]);
}

/// Path arithmetic: the digits recompose to the index. For any
/// `i < w^h`, the base-`w` digits of `i`, most significant first,
/// weighted by falling powers of `w`, sum back to `i`.
pub proof fn lemma_path_recomposition(i: int, h: nat, w: nat)
    requires
        w >= 2,
        0 <= i < pow(w as int, h),
    ensures
        path_weighted_sum(i, h, w) == i,
    decreases h,
{
    lemma_pow0(w as int);
    if h == 0 {
        assert(i == 0);
    } else {
        let p = pow(w as int, (h - 1) as nat);
        lemma_pow_positive(w as int, (h - 1) as nat);
        lemma_pow_adds(w as int, (h - 1) as nat, 1);
        lemma_pow1(w as int);
        assert(pow(w as int, h) == p * w);
        lemma_fundamental_div_mod(i, p);
        assert(i == p * (i / p) + i % p);
        assert(0 <= i % p < p) by {
            vstd::arithmetic::div_mod::lemma_mod_bound(i, p);
        }
        assert(i / p < w) by (nonlinear_arith)
            requires
                p >= 1,
                i < p * w,
                i >= 0,
                i == p * (i / p) + i % p,
                0 <= i % p < p,
        ;
        assert((i / p) % (w as int) == i / p) by {
            vstd::arithmetic::div_mod::lemma_small_mod((i / p) as nat, w);
        }
        lemma_path_recomposition(i % p, (h - 1) as nat, w);
        assert(forall|d: int|
            1 <= d < h ==> #[trigger] digit_at(i % p, (h - 1) as nat, w, d - 1) == digit_at(
                i,
                h,
                w,
                d,
            )) by {
            assert forall|d: int| 1 <= d < h implies #[trigger] digit_at(
                i % p,
                (h - 1) as nat,
                w,
                d - 1,
            ) == digit_at(i, h, w, d) by {
                let q = pow(w as int, (h - 1 - d) as nat);
                lemma_pow_positive(w as int, (h - 1 - d) as nat);
                lemma_mod_div_digit(i, p, q, w, (d) as int, (h) as int);
            }
        }
        lemma_weighted_sum_step(i, h, w);
    }
}

/// The most significant digit plus the recomposed tail.
pub open spec fn path_weighted_sum(i: int, h: nat, w: nat) -> int
    decreases h,
{
    if h == 0 {
        0
    } else {
        digit_at(i, h, w, 0) * pow(w as int, (h - 1) as nat) + path_weighted_sum(
            i % pow(w as int, (h - 1) as nat),
            (h - 1) as nat,
            w,
        )
    }
}

/// Digit `d` (most significant first) of `i` in base `w` width `h`.
pub open spec fn digit_at(i: int, h: nat, w: nat, d: int) -> int {
    (i / pow(w as int, (h - 1 - d) as nat)) % (w as int)
}

proof fn lemma_weighted_sum_step(i: int, h: nat, w: nat)
    requires
        w >= 2,
        h >= 1,
        0 <= i < pow(w as int, h),
        path_weighted_sum(i % pow(w as int, (h - 1) as nat), (h - 1) as nat, w) == i % pow(
            w as int,
            (h - 1) as nat,
        ),
        digit_at(i, h, w, 0) == i / pow(w as int, (h - 1) as nat),
    ensures
        path_weighted_sum(i, h, w) == i,
{
    let p = pow(w as int, (h - 1) as nat);
    lemma_pow_positive(w as int, (h - 1) as nat);
    lemma_fundamental_div_mod(i, p);
    assert((i / p) * p == p * (i / p)) by (nonlinear_arith);
}

proof fn lemma_mod_div_digit(i: int, p: int, q: int, w: nat, d: int, h: int)
    requires
        w >= 2,
        q >= 1,
        1 <= d < h,
        p == pow(w as int, (h - 1) as nat),
        q == pow(w as int, (h - 1 - d) as nat),
        i >= 0,
    ensures
        ((i % p) / q) % (w as int) == (i / q) % (w as int),
{
    lemma_pow_positive(w as int, (h - 1) as nat);
    lemma_pow_adds(w as int, (h - 1 - d) as nat, d as nat);
    assert(p == q * pow(w as int, d as nat));
    lemma_fundamental_div_mod(i, p);
    let a = i / p;
    let b = i % p;
    vstd::arithmetic::div_mod::lemma_mod_bound(i, p);
    assert(i == p * a + b);
    let m = pow(w as int, d as nat);
    lemma_pow_positive(w as int, d as nat);
    assert((q * m * a + b) / q == m * a + b / q) by (nonlinear_arith)
        requires
            q >= 1,
            b >= 0,
            a >= 0,
            m >= 1,
    ;
    assert(i / q == m * a + b / q) by {
        assert(p * a == q * m * a) by (nonlinear_arith)
            requires
                p == q * m,
        ;
    }
    lemma_pow_adds(w as int, 1, (d - 1) as nat);
    lemma_pow1(w as int);
    assert(m == w * pow(w as int, (d - 1) as nat));
    assert(m * a == (w as int) * (pow(w as int, (d - 1) as nat) * a)) by (nonlinear_arith)
        requires
            m == w * pow(w as int, (d - 1) as nat),
    ;
    vstd::arithmetic::div_mod::lemma_mod_multiples_vanish(
        pow(w as int, (d - 1) as nat) * a,
        b / q,
        w as int,
    );
}

/// `ceil(log_base n)`: the least `h` with `base^h >= n`.
pub fn ceil_log_base(base: usize, n: usize) -> (r: usize)
    requires
        base >= 2,
        n >= 1,
    ensures
        pow(base as int, r as nat) >= n,
        r >= 1 ==> pow(base as int, (r - 1) as nat) < n,
        r == 0 ==> n <= 1,
{
    let mut h: usize = 0;
    let mut p: u128 = 1;
    proof {
        lemma_pow0(base as int);
        vstd::arithmetic::power2::lemma2_to64();
    }
    while p < n as u128
        invariant
            base >= 2,
            n >= 1,
            p == pow(base as int, h as nat),
            h >= 1 ==> pow(base as int, (h - 1) as nat) < n,
            p >= 1,
            h <= 64,
            vstd::arithmetic::power2::pow2(h as nat) <= p,
        decreases
                if p < n as u128 {
                    n as int - p as int
                } else {
                    0int
                },
    {
        proof {
            lemma_pow_adds(base as int, h as nat, 1);
            lemma_pow1(base as int);
            vstd::arithmetic::power2::lemma2_to64();
            if h >= 64 {
                assert(p >= 0x1_0000_0000_0000_0000);
                assert(false);
            }
            vstd::arithmetic::power2::lemma_pow2_unfold((h + 1) as nat);
            assert(p * base >= 2 * p && 2 * p > p && p * base >= 2 * vstd::arithmetic::power2::pow2(
                h as nat,
            )) by (nonlinear_arith)
                requires
                    base >= 2,
                    p >= 1,
                    vstd::arithmetic::power2::pow2(h as nat) <= p,
            ;
            assert(p * (base as u128) < 0x10000_0000_0000_0000_0000_0000_0000_0000)
                by (nonlinear_arith)
                requires
                    p < 0x1_0000_0000_0000_0000,
                    base < 0x1_0000_0000_0000_0000,
            ;
        }
        p = p * (base as u128);
        h = h + 1;
    }
    h
}

} // verus!
