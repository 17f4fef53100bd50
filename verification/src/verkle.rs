//! The Verkle tree: a width-ary vector commitment whose internal
//! nodes are KZG commitments to the polynomial interpolating their
//! children's hashes, and whose openings are aggregated multiproofs
//! along the root-to-leaf path.
//!
//! The model mirrors the Merkle module: level `l` holds the hash
//! scalars of the nodes at that level, each internal node owning the
//! chunk of the level below, without padding — a short final chunk is
//! zero-padded implicitly by the inverse FFT.
use crate::curve::{domain_element, domain_element_of, domain_ifft, ifft_of, msm_of, next_pow2,
    G1Pt};
use crate::field::{canon_scalar, lemma_canon_scalar, Scalar};
use crate::hash::keccak256;
use crate::kzg::{CommitKey, VerifyKey, KZG};
use crate::merkle::{ceil_div, compute_path, root_depth};
use crate::multiproof::{accepts_spec, divisions_exact, prove_ok, KZGMultiproof};
use crate::poly::{all_wf, clone_poly, vals_of};
use crate::transcript::{absorb_g1, absorb_g1_spec, challenge_of};
use crate::Error;
use vstd::arithmetic::div_mod::lemma_fundamental_div_mod;
use vstd::arithmetic::power::{lemma_pow0, lemma_pow1, lemma_pow_adds, lemma_pow_increases, lemma_pow_positive, pow};
use vstd::pervasive::unreached;
use vstd::prelude::*;

verus! {

/// The hash of a leaf: Keccak over the scalar's canonical bytes,
/// reduced into the field.
pub open spec fn hash_fr_spec(s: Scalar) -> nat {
    challenge_of(s.bytes@)
}

/// The hash of a commitment: Keccak over its nonzero elements,
/// reduced into the field.
pub open spec fn hash_g1_spec(p: G1Pt) -> nat {
    challenge_of(absorb_g1_spec(Seq::empty(), p))
}

/// Level 0 of the tree: the hashes of the committed scalars.
pub open spec fn vleaf_hashes(values: Seq<Scalar>) -> Seq<nat> {
    Seq::new(values.len(), |i: int| hash_fr_spec(values[i]))
}

/// The `j`-th chunk of up to `w` consecutive hashes of a level.
pub open spec fn vchunk_of(hs: Seq<nat>, w: nat, j: int) -> Seq<nat> {
    hs.subrange(
        j * w,
        if (j + 1) * w <= hs.len() {
            (j + 1) * w
        } else {
            hs.len() as int
        },
    )
}

/// The polynomial of an internal node: the inverse FFT of its
/// children's hashes over the width-sized domain.
pub open spec fn vnode_poly(w: nat, child_hashes: Seq<nat>) -> Seq<nat> {
    ifft_of(w, child_hashes)
}

/// The commitment of an internal node.
pub open spec fn vnode_com(powers: Seq<G1Pt>, w: nat, child_hashes: Seq<nat>) -> G1Pt {
    msm_of(
        powers.take(vnode_poly(w, child_hashes).len() as int),
        vnode_poly(w, child_hashes),
    )
}

/// The hash of an internal node over a chunk of child hashes.
pub open spec fn vparent_hash(powers: Seq<G1Pt>, w: nat, child_hashes: Seq<nat>) -> nat {
    hash_g1_spec(vnode_com(powers, w, child_hashes))
}

/// One level up: every chunk of `w` siblings becomes a parent hash.
pub open spec fn vlevel_up(powers: Seq<G1Pt>, w: nat, hs: Seq<nat>) -> Seq<nat> {
    Seq::new(ceil_div(hs.len(), w), |j: int| vparent_hash(powers, w, vchunk_of(hs, w, j)))
}

/// Level `l` of the tree built over `lh`.
pub open spec fn vlevel(powers: Seq<G1Pt>, w: nat, lh: Seq<nat>, l: nat) -> Seq<nat>
    decreases l,
{
    if l == 0 {
        lh
    } else {
        vlevel_up(powers, w, vlevel(powers, w, lh, (l - 1) as nat))
    }
}

/// A node of the Verkle tree.
#[derive(Debug)]
pub enum Node {
    Internal { children: Vec<Node>, value: G1Pt, poly: Vec<Scalar> },
    Leaf { value: Scalar },
}

/// The hash scalar a node contributes to its parent's polynomial.
pub open spec fn vnode_hash(n: Node) -> nat {
    match n {
        Node::Internal { children, value, poly } => hash_g1_spec(value),
        Node::Leaf { value } => hash_fr_spec(value),
    }
}

/// The node at position `j` of level `l` of the tree over `values`:
/// at level 0 a leaf holding `values[j]`; above, an internal node
/// holding the chunk of real children, the interpolated polynomial
/// and its commitment.
pub open spec fn good_vnode(
    n: Node,
    values: Seq<Scalar>,
    w: nat,
    powers: Seq<G1Pt>,
    l: nat,
    j: int,
) -> bool
    decreases l,
{
    let lv = vlevel(powers, w, vleaf_hashes(values), l);
    0 <= j < lv.len() && if l == 0 {
        match n {
            Node::Leaf { value } => value == values[j] && value.wf(),
            Node::Internal { children, value, poly } => false,
        }
    } else {
        match n {
            Node::Internal { children, value, poly } => {
                let below = vlevel(powers, w, vleaf_hashes(values), (l - 1) as nat);
                let chunk = vchunk_of(below, w, j);
                &&& children@.len() == chunk.len()
                &&& all_wf(poly@)
                &&& vals_of(poly@) == vnode_poly(w, chunk)
                &&& poly@.len() == next_pow2(w)
                &&& forall|i: int|
                    0 <= i < chunk.len() ==> crate::poly::peval_spec(
                        vnode_poly(w, chunk),
                        #[trigger] domain_element_of(w, i as nat),
                    ) == chunk[i]
                &&& value == vnode_com(powers, w, chunk)
                &&& value.wf()
                &&& forall|c: int|
                    0 <= c < children@.len() ==> good_vnode(
                        #[trigger] children@[c],
                        values,
                        w,
                        powers,
                        (l - 1) as nat,
                        j * w + c,
                    )
            },
            Node::Leaf { value } => false,
        }
    }
}

/// The base-`w` digit of `index` at position `l`.
pub open spec fn digit_of(index: int, w: nat, l: nat) -> int {
    (index / pow(w as int, l)) % (w as int)
}

/// The position of the on-path node at level `l`, accumulated from
/// the `h - l` lowest digits the walk consumes below the root.
pub open spec fn walk_idx(index: int, w: nat, h: nat, l: nat) -> int
    decreases h - l,
{
    if l >= h {
        0
    } else {
        walk_idx(index, w, h, (l + 1) as nat) * w + digit_of(index, w, l)
    }
}

/// The chunk of child hashes under the on-path node at step `d` of
/// the walk (`d == 0` at the root).
pub open spec fn path_chunk(
    values: Seq<Scalar>,
    w: nat,
    powers: Seq<G1Pt>,
    index: int,
    h: nat,
    d: int,
) -> Seq<nat> {
    vchunk_of(
        vlevel(powers, w, vleaf_hashes(values), (h - 1 - d) as nat),
        w,
        walk_idx(index, w, h, (h - d) as nat),
    )
}

/// The polynomials the opening hands to the multiproof engine.
pub open spec fn opolys(values: Seq<Scalar>, w: nat, powers: Seq<G1Pt>, index: int, h: nat) -> Seq<
    Seq<nat>,
> {
    Seq::new(h, |d: int| ifft_of(w, path_chunk(values, w, powers, index, h, d)))
}

/// The commitments along the path, root first.
pub open spec fn ocoms(values: Seq<Scalar>, w: nat, powers: Seq<G1Pt>, index: int, h: nat) -> Seq<
    G1Pt,
> {
    Seq::new(h, |d: int| vnode_com(powers, w, path_chunk(values, w, powers, index, h, d)))
}

/// The domain points along the path: the root of unity raised to
/// each digit.
pub open spec fn opoints(w: nat, index: int, h: nat) -> Seq<Scalar> {
    Seq::new(
        h,
        |d: int| canon_scalar(domain_element_of(w, digit_of(index, w, (h - 1 - d) as nat) as nat)),
    )
}

/// The claimed values along the path: the hash of each on-path child.
pub open spec fn ovalues(values: Seq<Scalar>, w: nat, powers: Seq<G1Pt>, index: int, h: nat) -> Seq<
    Scalar,
> {
    Seq::new(
        h,
        |d: int|
            canon_scalar(
                vlevel(powers, w, vleaf_hashes(values), (h - 1 - d) as nat)[walk_idx(
                    index,
                    w,
                    h,
                    (h - 1 - d) as nat,
                )],
            ),
    )
}

/// The values the verifier rebuilds: the hash of each next
/// commitment down, and the hash of the claimed leaf at the end.
pub open spec fn ver_values(coms: Seq<G1Pt>, value: Scalar, h: int) -> Seq<Scalar> {
    Seq::new(
        h as nat,
        |d: int|
            if d < h - 1 {
                canon_scalar(hash_g1_spec(coms[d + 1]))
            } else {
                canon_scalar(hash_fr_spec(value))
            },
    )
}

/// For an index within the tree's range, the walk lands exactly on
/// that index: the digits recompose what they decomposed.
pub proof fn lemma_walk_idx_identity(index: int, w: nat, h: nat)
    requires
        w >= 2,
        0 <= index < pow(w as int, h),
    ensures
        walk_idx(index, w, h, 0) == index,
{
    vstd::arithmetic::power::lemma_pow0(w as int);
    lemma_walk_idx_div(index, w, h, 0);
}

/// The walk position at level `l` is the index shifted down by `l`
/// digits.
proof fn lemma_walk_idx_div(index: int, w: nat, h: nat, l: nat)
    requires
        w >= 2,
        0 <= index < pow(w as int, h),
        l <= h,
    ensures
        walk_idx(index, w, h, l) == index / pow(w as int, l),
    decreases h - l,
{
    lemma_pow_positive(w as int, l);
    if l == h {
        vstd::arithmetic::div_mod::lemma_basic_div(index, pow(w as int, l));
    } else {
        lemma_walk_idx_div(index, w, h, (l + 1) as nat);
        lemma_pow_positive(w as int, (l + 1) as nat);
        vstd::arithmetic::power::lemma_pow_adds(w as int, l, 1);
        vstd::arithmetic::power::lemma_pow1(w as int);
        vstd::arithmetic::div_mod::lemma_div_denominator(index, pow(w as int, l), w as int);
        let a = index / pow(w as int, l);
        lemma_fundamental_div_mod(a, w as int);
        assert(a == (a / (w as int)) * w + a % (w as int));
        assert((a / (w as int)) * w == w * (a / (w as int))) by (nonlinear_arith);
    }
}

/// A walk position within range at the leaves stays within range at
/// every level.
proof fn lemma_walk_idx_in_vlevel(
    values: Seq<Scalar>,
    w: nat,
    powers: Seq<G1Pt>,
    index: int,
    h: nat,
    l: nat,
)
    requires
        w >= 2,
        index >= 0,
        l <= h,
        0 <= walk_idx(index, w, h, 0) < values.len(),
    ensures
        0 <= walk_idx(index, w, h, l) < vlevel(powers, w, vleaf_hashes(values), l).len(),
    decreases l,
{
    if l > 0 {
        lemma_walk_idx_in_vlevel(values, w, powers, index, h, (l - 1) as nat);
        let below_len = vlevel(powers, w, vleaf_hashes(values), (l - 1) as nat).len();
        let cur = walk_idx(index, w, h, l);
        let c = digit_of(index, w, (l - 1) as nat);
        assert(0 <= c < w) by {
            lemma_pow_positive(w as int, (l - 1) as nat);
            lemma_fundamental_div_mod(index / pow(w as int, (l - 1) as nat), w as int);
        }
        assert(walk_idx(index, w, h, (l - 1) as nat) == cur * w + c);
        assert(vlevel(powers, w, vleaf_hashes(values), l).len() == ceil_div(below_len, w));
        assert(0 <= cur && cur < ceil_div(below_len, w)) by (nonlinear_arith)
            requires
                w >= 2,
                0 <= c < w,
                0 <= cur * w + c < below_len,
                ceil_div(below_len, w) == ((below_len + w - 1) / (w as int)) as nat,
        ;
    }
}

/// Transcript agreement: for an opening of a committed value at an
/// index in range, the values the verifier rebuilds from the honest
/// path commitments and the claimed leaf are exactly the values the
/// prover opened. Both sides therefore absorb identical bytes and
/// squeeze identical challenges; only the pairing check itself rests
/// on the curve.
pub proof fn lemma_verkle_transcript_agreement(
    values: Seq<Scalar>,
    w: nat,
    powers: Seq<G1Pt>,
    index: int,
    h: nat,
)
    requires
        w >= 2,
        h >= 1,
        index >= 0,
        0 <= walk_idx(index, w, h, 0) < values.len(),
    ensures
        ver_values(
            ocoms(values, w, powers, index, h),
            values[walk_idx(index, w, h, 0)],
            h as int,
        ) == ovalues(values, w, powers, index, h),
{
    let coms = ocoms(values, w, powers, index, h);
    let vv = ver_values(coms, values[walk_idx(index, w, h, 0)], h as int);
    let ov = ovalues(values, w, powers, index, h);
    assert forall|d: int| 0 <= d < h implies vv[d] == ov[d] by {
        let l = (h - 1 - d) as nat;
        lemma_walk_idx_in_vlevel(values, w, powers, index, h, l);
        if d < h - 1 {
            assert(vlevel(powers, w, vleaf_hashes(values), l) == vlevel_up(
                powers,
                w,
                vlevel(powers, w, vleaf_hashes(values), (l - 1) as nat),
            ));
            assert(vlevel(powers, w, vleaf_hashes(values), l)[walk_idx(index, w, h, l)]
                == vparent_hash(powers, w, path_chunk(values, w, powers, index, h, d + 1)));
            assert(coms[d + 1] == vnode_com(powers, w, path_chunk(values, w, powers, index, h, d
                + 1)));
        } else {
            assert(vlevel(powers, w, vleaf_hashes(values), 0)[walk_idx(index, w, h, 0)]
                == hash_fr_spec(values[walk_idx(index, w, h, 0)]));
        }
    }
    assert(vv =~= ov);
}

/// A walk position past its level's end stays past the end all the
/// way down to the leaves.
proof fn lemma_walk_overflow(
    values: Seq<Scalar>,
    w: nat,
    powers: Seq<G1Pt>,
    index: int,
    h: nat,
    l: nat,
)
    requires
        w >= 2,
        index >= 0,
        l <= h,
        walk_idx(index, w, h, l) >= vlevel(powers, w, vleaf_hashes(values), l).len(),
    ensures
        walk_idx(index, w, h, 0) >= vleaf_hashes(values).len(),
    decreases l,
{
    if l > 0 {
        let below_len = vlevel(powers, w, vleaf_hashes(values), (l - 1) as nat).len();
        let cur = walk_idx(index, w, h, l);
        let c = digit_of(index, w, (l - 1) as nat);
        assert(c >= 0) by {
            lemma_pow_positive(w as int, (l - 1) as nat);
            lemma_fundamental_div_mod(index / pow(w as int, (l - 1) as nat), w as int);
        }
        assert(vlevel(powers, w, vleaf_hashes(values), l) == vlevel_up(
            powers,
            w,
            vlevel(powers, w, vleaf_hashes(values), (l - 1) as nat),
        ));
        assert(vlevel(powers, w, vleaf_hashes(values), l).len() == ceil_div(below_len, w));
        assert(walk_idx(index, w, h, (l - 1) as nat) == cur * w + c);
        assert(cur * w >= below_len) by (nonlinear_arith)
            requires
                w >= 2,
                cur >= (below_len + w - 1) / (w as int),
                below_len >= 0,
        ;
        lemma_walk_overflow(values, w, powers, index, h, (l - 1) as nat);
    }
}

/// The opening proof: the on-path commitments, root first, and the
/// aggregated multiproof.
#[derive(Debug)]
pub struct Proof {
    pub coms: Vec<G1Pt>,
    pub multi_proof: crate::multiproof::Proof,
}

/// The commit and verify keys come from one trusted setup: the
/// commit key holds the powers of a single fresh nonzero secret `b`
/// over the generator, and the verify key holds that generator, the
/// identity as blinding element, and `h`, `b h` in the other group.
pub open spec fn keys_of_one_secret(ck: CommitKey, vk: VerifyKey, width: int) -> bool {
    exists|b: nat|
        {
            &&& b != 0
            &&& b < crate::field::fr_mod()
            &&& #[trigger] ck_matches_secret(ck, b)
            &&& vk.g == crate::curve::g1_gen_mul_of(crate::field::fr_pow_spec(b, 0))
            &&& vk.gamma_g.inf
            &&& crate::bytes::be_val(vk.gamma_g.x@) == 0
            &&& crate::bytes::be_val(vk.gamma_g.y@) == 0
            &&& vk.h == crate::curve::g2_gen_mul_of(1)
            &&& vk.beta_h == crate::curve::g2_gen_mul_of(b)
        }
}

/// The commit key's powers are `[g, b g, b^2 g, ...]`.
pub open spec fn ck_matches_secret(ck: CommitKey, b: nat) -> bool {
    forall|i: int|
        0 <= i < ck.powers_of_g@.len() ==> #[trigger] ck.powers_of_g@[i]
            == crate::curve::g1_gen_mul_of(crate::field::fr_pow_spec(b, i as nat))
}

/// A Verkle tree. `commit` fills `root` and `height`; `committed`
/// records, in ghost state, the committed scalars.
pub struct VerkleTree {
    pub root: Option<Node>,
    pub height: Option<usize>,
    pub width: usize,
    pub ck: CommitKey,
    pub vk: VerifyKey,
    pub committed: Ghost<Option<Seq<Scalar>>>,
}

impl VerkleTree {
    /// The scalars this tree was committed over.
    pub open spec fn vals(&self) -> Seq<Scalar> {
        match self.committed@ {
            Some(vs) => vs,
            None => Seq::empty(),
        }
    }

    /// The commit key's powers.
    pub open spec fn powers(&self) -> Seq<G1Pt> {
        self.ck.powers_of_g@
    }

    /// Structural soundness: the width-sized domain fits under the
    /// key, and after `commit` the root is the model's root node and
    /// the height is `ceil(log_width n)`.
    pub open spec fn wf(&self) -> bool {
        &&& 2 <= self.width
        &&& self.width <= 0x10000000
        &&& next_pow2(self.width as nat) <= self.powers().len()
        &&& self.powers().len() >= 1
        &&& match self.committed@ {
            None => self.root is None && self.height is None,
            Some(vs) => {
                &&& vs.len() >= 1
                &&& vs.len() <= usize::MAX
                &&& all_wf(vs)
                &&& match self.root {
                    Some(rt) => good_vnode(
                        rt,
                        vs,
                        self.width as nat,
                        self.powers(),
                        root_depth(vs.len(), self.width as nat),
                        0,
                    ),
                    None => false,
                }
                &&& match self.height {
                    Some(h) => {
                        &&& pow(self.width as int, h as nat) >= vs.len()
                        &&& h >= 1 ==> pow(self.width as int, (h - 1) as nat) < vs.len()
                        &&& h == 0 ==> vs.len() <= 1
                    },
                    None => false,
                }
            },
        }
    }

    /// Runs the KZG setup for degree `width` and trims it, producing
    /// an empty tree that owns the commit and verify keys.
    pub fn setup(width: usize, seed: u64) -> (r: VerkleTree)
        requires
            2 <= width,
            width <= 0x10000000,
            next_pow2(width as nat) <= width + 1,
        ensures
            r.wf(),
            r.width == width,
            r.committed@ is None,
            r.root is None,
            r.height is None,
            r.powers().len() == width + 1,
            keys_of_one_secret(r.ck, r.vk, width as int),
    {
        let pp = match KZG::setup(width, false, seed) {
            Ok(pp) => pp,
            Err(_) => unreached(),
        };
        let (ck, vk) = match KZG::trim(pp, width) {
            Ok(pair) => pair,
            Err(_) => unreached(),
        };
        proof {
            let b = choose|b: nat| b != 0 && b < crate::field::fr_mod() && pp.matches_secret(b);
            assert(pp.matches_secret(b));
            assert(ck_matches_secret(ck, b)) by {
                assert(forall|i: int|
                    0 <= i < ck.powers_of_g@.len() ==> #[trigger] ck.powers_of_g@[i]
                        == pp.powers_of_g@[i]);
            }
            assert(vk.g == pp.powers_of_g@[0]);
            assert(keys_of_one_secret(ck, vk, width as int)) by {
                assert(b != 0 && b < crate::field::fr_mod() && ck_matches_secret(ck, b));
            }
        }
        VerkleTree { root: None, height: None, width, ck, vk, committed: Ghost(None) }
    }

    /// The hash of a commitment, as lifted into the transcript.
    pub fn hash_g1(g1: &G1Pt) -> (r: Scalar)
        ensures
            r.wf(),
            r.val() == hash_g1_spec(*g1),
    {
        let mut buf: Vec<u8> = Vec::new();
        proof {
            assert(buf@ =~= Seq::<u8>::empty());
        }
        absorb_g1(&mut buf, g1);
        crate::transcript::squeeze(&buf)
    }

    /// The hash of a leaf scalar.
    pub fn hash_fr(fr: &Scalar) -> (r: Scalar)
        ensures
            r.wf(),
            r.val() == hash_fr_spec(*fr),
    {
        let mut buf: Vec<u8> = Vec::new();
        crate::bytes::append_bytes32(&mut buf, &fr.bytes);
        proof {
            assert(buf@ =~= fr.bytes@);
        }
        let digest = keccak256(&buf);
        let mut v: Vec<u8> = Vec::new();
        crate::bytes::append_bytes32(&mut v, &digest);
        proof {
            assert(v@ =~= digest@);
        }
        Scalar::from_be_bytes_mod_order(&v)
    }

    /// The hash of the root node.
    pub fn root_hash(&self) -> (r: Scalar)
        requires
            self.wf(),
            self.committed@ is Some,
        ensures
            r.wf(),
            r.val() == vlevel(
                self.powers(),
                self.width as nat,
                vleaf_hashes(self.vals()),
                root_depth(self.vals().len(), self.width as nat),
            )[0],
    {
        match &self.root {
            Some(Node::Internal { children, value, poly }) => {
                proof {
                    let lv = vlevel(
                        self.powers(),
                        self.width as nat,
                        vleaf_hashes(self.vals()),
                        root_depth(self.vals().len(), self.width as nat),
                    );
                    assert(root_depth(self.vals().len(), self.width as nat) >= 1);
                }
                Self::hash_g1(value)
            },
            Some(Node::Leaf { value }) => {
                proof {
                    assert(false);
                }
                unreached()
            },
            None => unreached(),
        }
    }

    /// Wraps each scalar in a leaf, then groups chunks of `width`
    /// siblings into committed internal nodes level by level.
    pub fn commit(&mut self, values: &Vec<Scalar>)
        requires
            old(self).wf(),
            values@.len() >= 1,
            all_wf(values@),
        ensures
            final(self).wf(),
            final(self).width == old(self).width,
            final(self).ck == old(self).ck,
            final(self).vk == old(self).vk,
            final(self).committed@ == Some(values@),
    {
        let ghost vals = values@;
        let w = self.width;
        let mut nodes: Vec<Node> = Vec::new();
        let mut i: usize = 0;
        while i < values.len()
            invariant
                i <= values@.len(),
                all_wf(values@),
                nodes@.len() == i,
                w == self.width,
                self == old(self),
                forall|j: int|
                    0 <= j < i ==> good_vnode(
                        #[trigger] nodes@[j],
                        values@,
                        w as nat,
                        self.powers(),
                        0,
                        j,
                    ),
            decreases values@.len() - i,
        {
            nodes.push(Node::Leaf { value: values[i] });
            i = i + 1;
        }
        let ghost mut l: nat = 0nat;
        while nodes.len() > w
            invariant
                old(self).wf(),
                w == self.width,
                self == old(self),
                nodes@.len() >= 1,
                vals.len() >= 1,
                vals == values@,
                all_wf(vals),
                nodes@.len() == vlevel(self.powers(), w as nat, vleaf_hashes(vals), l).len(),
                forall|j: int|
                    0 <= j < nodes@.len() ==> good_vnode(
                        #[trigger] nodes@[j],
                        vals,
                        w as nat,
                        self.powers(),
                        l,
                        j,
                    ),
                root_depth(vals.len(), w as nat) == l + root_depth(nodes@.len(), w as nat),
            decreases nodes@.len(),
        {
            proof {
                assert(root_depth(nodes@.len(), w as nat) == 1 + root_depth(
                    ceil_div(nodes@.len(), w as nat),
                    w as nat,
                ));
                crate::merkle::lemma_ceil_div_shrinks(nodes@.len(), w as nat);
            }
            nodes = Self::build_vlevel(nodes, w, &self.ck, Ghost(vals), Ghost(l));
            proof {
                l = l + 1;
            }
        }
        let ghost count = nodes@.len();
        proof {
            assert(0 * w == 0);
            assert(ceil_div(count, w as nat) >= 1 && count <= (0 + 1) * w) by (nonlinear_arith)
                requires
                    w >= 2,
                    1 <= count <= w,
            ;
        }
        let root = Self::make_vparent(nodes, w, &self.ck, Ghost(vals), Ghost(l), Ghost(0));
        let h = crate::merkle::ceil_log_base(w, values.len());
        self.root = Some(root);
        self.height = Some(h);
        self.committed = Ghost(Some(vals));
        proof {
            assert(root_depth(count, w as nat) == 1);
            assert(root_depth(vals.len(), w as nat) == l + 1);
        }
    }

    /// One level of tree building.
    fn build_vlevel(
        nodes: Vec<Node>,
        w: usize,
        ck: &CommitKey,
        Ghost(vals): Ghost<Seq<Scalar>>,
        Ghost(l): Ghost<nat>,
    ) -> (r: Vec<Node>)
        requires
            2 <= w <= 0x10000000,
            next_pow2(w as nat) <= ck.powers_of_g@.len(),
            nodes@.len() >= 1,
            nodes@.len() == vlevel(ck.powers_of_g@, w as nat, vleaf_hashes(vals), l).len(),
            forall|j: int|
                0 <= j < nodes@.len() ==> good_vnode(
                    #[trigger] nodes@[j],
                    vals,
                    w as nat,
                    ck.powers_of_g@,
                    l,
                    j,
                ),
        ensures
            r@.len() == vlevel(ck.powers_of_g@, w as nat, vleaf_hashes(vals), l + 1).len(),
            r@.len() == ceil_div(nodes@.len(), w as nat),
            forall|j: int|
                0 <= j < r@.len() ==> good_vnode(
                    #[trigger] r@[j],
                    vals,
                    w as nat,
                    ck.powers_of_g@,
                    l + 1,
                    j,
                ),
    {
        let ghost lv = vlevel(ck.powers_of_g@, w as nat, vleaf_hashes(vals), l);
        let ghost total = nodes@;
        let mut rest = nodes;
        let mut parents: Vec<Node> = Vec::new();
        let ghost mut j: int = 0;
        proof {
            assert(0 * w == 0);
            assert(rest@ =~= total.subrange(0, total.len() as int));
        }
        while rest.len() > 0
            invariant
                2 <= w <= 0x10000000,
                next_pow2(w as nat) <= ck.powers_of_g@.len(),
                lv == vlevel(ck.powers_of_g@, w as nat, vleaf_hashes(vals), l),
                total.len() == lv.len(),
                forall|t: int|
                    0 <= t < total.len() ==> good_vnode(
                        #[trigger] total[t],
                        vals,
                        w as nat,
                        ck.powers_of_g@,
                        l,
                        t,
                    ),
                0 <= j,
                parents@.len() == j,
                rest@.len() > 0 ==> j * w + rest@.len() == total.len() && rest@ == total.subrange(
                    j * w,
                    total.len() as int,
                ),
                rest@.len() == 0 ==> j == ceil_div(total.len(), w as nat),
                forall|t: int|
                    0 <= t < parents@.len() ==> good_vnode(
                        #[trigger] parents@[t],
                        vals,
                        w as nat,
                        ck.powers_of_g@,
                        l + 1,
                        t,
                    ),
            decreases rest@.len(),
        {
            let take = if w < rest.len() {
                w
            } else {
                rest.len()
            };
            let tail = rest.split_off(take);
            let chunk = rest;
            rest = tail;
            proof {
                assert((j + 1) * w == j * w + w) by (nonlinear_arith);
                assert(chunk@ =~= total.subrange(j * w, j * w + take));
                assert(rest@ =~= total.subrange(j * w + take, total.len() as int));
                assert(forall|c: int| 0 <= c < take ==> chunk@[c] == total[j * w + c]);
                crate::merkle::lemma_chunk_count(total.len(), w as nat, j as nat, take as nat);
            }
            let parent = Self::make_vparent(chunk, w, ck, Ghost(vals), Ghost(l), Ghost(j));
            parents.push(parent);
            proof {
                j = j + 1;
                if rest@.len() == 0 {
                    assert(j * w >= total.len());
                    assert(j == ceil_div(total.len(), w as nat));
                }
            }
        }
        proof {
            assert(vlevel(ck.powers_of_g@, w as nat, vleaf_hashes(vals), l + 1).len() == ceil_div(
                lv.len(),
                w as nat,
            ));
        }
        parents
    }

    /// Builds the internal node over one chunk of siblings: hash the
    /// children, interpolate, commit.
    fn make_vparent(
        chunk: Vec<Node>,
        w: usize,
        ck: &CommitKey,
        Ghost(vals): Ghost<Seq<Scalar>>,
        Ghost(l): Ghost<nat>,
        Ghost(j): Ghost<int>,
    ) -> (r: Node)
        requires
            2 <= w <= 0x10000000,
            next_pow2(w as nat) <= ck.powers_of_g@.len(),
            1 <= chunk@.len() <= w,
            j >= 0,
            j * w + chunk@.len() <= vlevel(ck.powers_of_g@, w as nat, vleaf_hashes(vals), l).len(),
            chunk@.len() == w || j * w + chunk@.len() == vlevel(
                ck.powers_of_g@,
                w as nat,
                vleaf_hashes(vals),
                l,
            ).len(),
            j < ceil_div(vlevel(ck.powers_of_g@, w as nat, vleaf_hashes(vals), l).len(), w as nat),
            forall|c: int|
                0 <= c < chunk@.len() ==> good_vnode(
                    #[trigger] chunk@[c],
                    vals,
                    w as nat,
                    ck.powers_of_g@,
                    l,
                    j * w + c,
                ),
        ensures
            good_vnode(r, vals, w as nat, ck.powers_of_g@, l + 1, j),
    {
        let ghost lv = vlevel(ck.powers_of_g@, w as nat, vleaf_hashes(vals), l);
        let ghost m = chunk@.len() as int;
        proof {
            assert((j + 1) * w == j * w + w) by (nonlinear_arith);
            assert(vchunk_of(lv, w as nat, j).len() == m);
        }
        let evals = Self::gen_evals_from_nodes(&chunk, Ghost(vals), Ghost(w as nat), Ghost(
            ck.powers_of_g@,
        ), Ghost(l), Ghost(j));
        proof {
            assert(vals_of(evals@) =~= vchunk_of(lv, w as nat, j));
            crate::curve::lemma_next_pow2_ge(w as nat);
        }
        let poly = domain_ifft(w, &evals);
        let com = KZG::commit(ck, &poly);
        let r = Node::Internal { children: chunk, value: com, poly };
        proof {
            assert(vlevel(ck.powers_of_g@, w as nat, vleaf_hashes(vals), l + 1)[j] == vparent_hash(
                ck.powers_of_g@,
                w as nat,
                vchunk_of(lv, w as nat, j),
            ));
            assert(good_vnode(r, vals, w as nat, ck.powers_of_g@, l + 1, j));
        }
        r
    }

    /// Whether `index` lies at or beyond `width^height`, the span the
    /// `height` path digits address. The height bounds any committed
    /// length, so such an index is outside the committed vector.
    fn index_out_of_range(index: usize, width: usize, h: usize, Ghost(n): Ghost<nat>) -> (r: bool)
        requires
            2 <= width <= 0x10000000,
            h >= 1,
            pow(width as int, h as nat) >= n,
            pow(width as int, (h - 1) as nat) < n,
            n <= usize::MAX,
        ensures
            r == (index as int >= pow(width as int, h as nat)),
            r ==> index as int >= n,
    {
        let mut p: u128 = 1;
        let mut i: usize = 0;
        proof {
            lemma_pow0(width as int);
        }
        while i < h
            invariant
                2 <= width <= 0x10000000,
                h >= 1,
                i <= h,
                pow(width as int, (h - 1) as nat) < n,
                n <= usize::MAX,
                p == pow(width as int, i as nat),
            decreases h - i,
        {
            proof {
                lemma_pow_increases(width as nat, i as nat, (h - 1) as nat);
                lemma_pow_adds(width as int, i as nat, 1);
                lemma_pow1(width as int);
                assert(pow(width as int, i as nat) * (width as int)
                    < 0x10000_0000_0000_0000_0000_0000_0000_0000) by (nonlinear_arith)
                    requires
                        0 <= pow(width as int, i as nat) < 0x1_0000_0000_0000_0000,
                        0 < width <= 0x10000000,
                ;
            }
            p = p * (width as u128);
            i = i + 1;
        }
        (index as u128) >= p
    }

    /// Opens the tree at `index`: walks the root-to-leaf path, hands
    /// the polynomials, commitments, domain points and child hashes
    /// along the path to the multiproof engine, and returns the leaf
    /// scalar with the path commitments and the aggregated proof.
    /// On a committed tree every in-range index opens successfully —
    /// the interpolation law of the node polynomials makes all the
    /// witness divisions exact — unless the squeezed evaluation point
    /// collides with a path point, the one abort the transcript
    /// design admits.
    pub fn open(&self, index: usize) -> (r: Result<(Scalar, Proof), Error>)
        requires
            self.wf(),
        ensures
            ({
                let w = self.width as nat;
                let h = match self.height {
                    Some(h) => h as nat,
                    None => 0nat,
                };
                let n = self.vals().len() as int;
                match r {
                    Ok((v, pf)) => {
                        &&& self.committed@ is Some
                        &&& h >= 1
                        &&& index < n
                        &&& v == self.vals()[index as int]
                        &&& pf.coms@ == ocoms(self.vals(), w, self.powers(), index as int, h)
                        &&& pf.coms@.len() == h
                        &&& prove_ok(
                            self.powers(),
                            opolys(self.vals(), w, self.powers(), index as int, h),
                            ocoms(self.vals(), w, self.powers(), index as int, h),
                            opoints(w, index as int, h),
                            ovalues(self.vals(), w, self.powers(), index as int, h),
                            pf.multi_proof,
                        )
                    },
                    Err(Error::UncommittedTree) => self.committed@ is None,
                    Err(Error::DegreeIsZero) => self.committed@ is Some && h == 0,
                    Err(Error::InvalidIndex) => self.committed@ is Some && h >= 1 && index >= n,
                    Err(Error::InvalidTranscript) => self.committed@ is Some && h >= 1 && index
                        < n && {
                        let polys = opolys(self.vals(), w, self.powers(), index as int, h);
                        let zs = opoints(w, index as int, h);
                        let ys = ovalues(self.vals(), w, self.powers(), index as int, h);
                        let coms = ocoms(self.vals(), w, self.powers(), index as int, h);
                        let rv = crate::multiproof::r_of(coms, zs, ys);
                        let g = crate::multiproof::witness_of(polys, zs, ys, rv, h as int);
                        !crate::multiproof::no_collision(
                            zs,
                            crate::multiproof::t_of(
                                crate::curve::msm_of(self.powers().take(g.len() as int), g),
                                rv,
                            ),
                            h as int,
                        )
                    },
                    _ => false,
                }
            }),
    {
        let ghost w = self.width as nat;
        let ghost powers = self.powers();
        let ghost vals = self.vals();
        let width = self.width;
        let h = match self.height {
            Some(h) => h,
            None => {
                return Err(Error::UncommittedTree);
            },
        };
        if h == 0 {
            return Err(Error::DegreeIsZero);
        }
        proof {
            lemma_pow_positive(width as int, (h - 1) as nat);
            assert(vals.len() >= 2);
            crate::merkle::lemma_height_is_root_depth(vals.len(), w, h as nat);
        }
        if Self::index_out_of_range(index, width, h, Ghost(vals.len())) {
            return Err(Error::InvalidIndex);
        }
        proof {
            lemma_walk_idx_identity(index as int, w, h as nat);
        }
        let path = compute_path(index, h, width);
        let current_root = match &self.root {
            Some(rt) => rt,
            None => unreached(),
        };
        let mut current: &Node = current_root;
        let mut polysv: Vec<Vec<Scalar>> = Vec::new();
        let mut comsv: Vec<G1Pt> = Vec::new();
        let mut pointsv: Vec<Scalar> = Vec::new();
        let mut valuesv: Vec<Scalar> = Vec::new();
        let mut d: usize = 0;
        while d < h
            invariant
                2 <= width <= 0x10000000,
                width == self.width,
                w == width as nat,
                powers == self.powers(),
                vals == self.vals(),
                next_pow2(w) <= powers.len(),
                d <= h,
                h >= 1,
                self.height == Some(h),
                self.committed@ is Some,
                vals.len() >= 1,
                h as nat == root_depth(vals.len(), w),
                walk_idx(index as int, w, h as nat, 0) == index as int,
                path@.len() == h,
                forall|t: int|
                    0 <= t < h ==> path@[t] == (index as int / pow(width as int, (h - 1
                        - t) as nat)) % (width as int),
                good_vnode(
                    *current,
                    vals,
                    w,
                    powers,
                    (h - d) as nat,
                    walk_idx(index as int, w, h as nat, (h - d) as nat),
                ),
                polysv@.len() == d,
                comsv@.len() == d,
                pointsv@.len() == d,
                valuesv@.len() == d,
                crate::multiproof::polys_vals(polysv@) == opolys(
                    vals,
                    w,
                    powers,
                    index as int,
                    h as nat,
                ).take(d as int),
                forall|t: int|
                    0 <= t < d ==> all_wf((#[trigger] polysv@[t])@) && polysv@[t]@.len()
                        == next_pow2(w),
                comsv@ == ocoms(vals, w, powers, index as int, h as nat).take(d as int),
                pointsv@ == opoints(w, index as int, h as nat).take(d as int),
                valuesv@ == ovalues(vals, w, powers, index as int, h as nat).take(d as int),
                all_wf(pointsv@),
                all_wf(valuesv@),
                divisions_exact(
                    crate::multiproof::polys_vals(polysv@),
                    pointsv@,
                    valuesv@,
                    d as int,
                ),
            decreases h - d,
        {
            let ghost l = (h - d) as nat;
            let ghost idx = walk_idx(index as int, w, h as nat, l);
            let ghost below = vlevel(powers, w, vleaf_hashes(vals), (l - 1) as nat);
            let c = path[d];
            proof {
                assert(c == digit_of(index as int, w, (l - 1) as nat));
                assert(c < width) by {
                    lemma_fundamental_div_mod(
                        index as int / pow(width as int, (l - 1) as nat),
                        width as int,
                    );
                }
                assert(walk_idx(index as int, w, h as nat, (l - 1) as nat) == idx * w + c);
                assert((idx + 1) * w == idx * w + w) by (nonlinear_arith);
            }
            match current {
                Node::Internal { children, value, poly } => {
                    let ghost chunk = vchunk_of(below, w, idx);
                    proof {
                        assert(good_vnode(*current, vals, w, powers, l, idx));
                        assert(0 <= idx < vlevel(powers, w, vleaf_hashes(vals), l).len());
                        assert(vlevel(powers, w, vleaf_hashes(vals), l).len() == ceil_div(
                            below.len(),
                            w,
                        ));
                        assert(idx * w <= below.len()) by (nonlinear_arith)
                            requires
                                w >= 2,
                                0 <= idx,
                                below.len() >= 0,
                                idx < ((below.len() + w - 1) / (w as int)) as nat,
                        ;
                        assert(children@.len() == chunk.len());
                        assert(chunk.len() <= w);
                    }
                    if c >= children.len() {
                        proof {
                            assert(idx * w + c >= below.len());
                            assert(walk_idx(index as int, w, h as nat, (l - 1) as nat) >= vlevel(
                                powers,
                                w,
                                vleaf_hashes(vals),
                                (l - 1) as nat,
                            ).len());
                            lemma_walk_overflow(vals, w, powers, index as int, h as nat, (l
                                - 1) as nat);
                            assert(walk_idx(index as int, w, h as nat, 0) >= vals.len());
                        }
                        return Err(Error::InvalidIndex);
                    }
                    proof {
                        assert(idx * w + c < below.len());
                        assert(good_vnode(
                            children@[c as int],
                            vals,
                            w,
                            powers,
                            (l - 1) as nat,
                            idx * w + c,
                        ));
                    }
                    polysv.push(clone_poly(poly));
                    comsv.push(*value);
                    pointsv.push(domain_element(width, c));
                    let child = &children[c];
                    let hv = match child {
                        Node::Internal { children: c2, value: v2, poly: p2 } => Self::hash_g1(v2),
                        Node::Leaf { value: v2 } => Self::hash_fr(v2),
                    };
                    proof {
                        assert(hv.val() == below[idx * w + c]) by {
                            if l - 1 == 0 {
                                assert(vleaf_hashes(vals)[idx * w + c] == hash_fr_spec(
                                    vals[idx * w + c],
                                ));
                            }
                        }
                        lemma_canon_scalar(hv);
                        let pt = pointsv@[d as int];
                        lemma_canon_scalar(pt);
                        assert(crate::multiproof::polys_vals(polysv@) =~= opolys(
                            vals,
                            w,
                            powers,
                            index as int,
                            h as nat,
                        ).take(d + 1));
                        assert(comsv@ =~= ocoms(vals, w, powers, index as int, h as nat).take(
                            d + 1,
                        ));
                        assert(pointsv@ =~= opoints(w, index as int, h as nat).take(d + 1));
                    }
                    valuesv.push(hv);
                    proof {
                        assert(valuesv@ =~= ovalues(vals, w, powers, index as int, h as nat).take(
                            d + 1,
                        ));
                        let pvals = vals_of(polysv@[d as int]@);
                        let z = pointsv@[d as int].val();
                        assert(pvals == vnode_poly(w, chunk));
                        assert(z == domain_element_of(w, c as nat));
                        assert(chunk[c as int] == below[idx * w + c]);
                        assert(crate::poly::peval_spec(pvals, z) == hv.val()) by {
                            assert(crate::poly::peval_spec(
                                vnode_poly(w, chunk),
                                domain_element_of(w, c as nat),
                            ) == chunk[c as int]);
                        }
                        assert forall|i: int| 0 <= i < pvals.len() implies #[trigger] pvals[i]
                            < crate::field::fr_mod() by {
                            assert(polysv@[d as int]@[i].wf());
                        }
                        crate::poly::lemma_shifted_root(pvals, hv.val(), z);
                        assert forall|t: int|
                            0 <= t < d + 1 implies crate::poly::peval_spec(
                            crate::multiproof::shifted_j(
                                crate::multiproof::polys_vals(polysv@),
                                valuesv@,
                                t,
                            ),
                            (#[trigger] pointsv@[t]).val(),
                        ) == 0 by {
                            if t < d {
                                assert(crate::multiproof::polys_vals(polysv@)[t]
                                    == crate::multiproof::polys_vals(polysv@.take(d as int))[t]);
                            }
                        }
                        assert(divisions_exact(
                            crate::multiproof::polys_vals(polysv@),
                            pointsv@,
                            valuesv@,
                            d + 1,
                        ));
                    }
                    current = child;
                },
                Node::Leaf { value } => {
                    proof {
                        assert(false);
                    }
                },
            }
            d = d + 1;
        }
        let final_value: Scalar = match current {
            Node::Leaf { value } => *value,
            Node::Internal { children, value, poly } => {
                proof {
                    assert(false);
                }
                unreached()
            },
        };
        proof {
            assert(crate::multiproof::polys_vals(polysv@) =~= opolys(
                vals,
                w,
                powers,
                index as int,
                h as nat,
            ));
            assert(comsv@ =~= ocoms(vals, w, powers, index as int, h as nat));
            assert(pointsv@ =~= opoints(w, index as int, h as nat));
            assert(valuesv@ =~= ovalues(vals, w, powers, index as int, h as nat));
        }
        let multi_proof = match KZGMultiproof::prove(&self.ck, &polysv, &comsv, &pointsv, &valuesv) {
            Ok(pf) => pf,
            Err(e) => {
                proof {
                    assert(e != Error::DegreeIsZero);
                    assert(e != Error::DivisionRemainder);
                }
                return Err(Error::InvalidTranscript);
            },
        };
        Ok((final_value, Proof { coms: comsv, multi_proof }))
    }

    /// Verifies an opening: recomputes the path digits and the domain
    /// points, rebuilds the claimed child-hash values from the proof
    /// commitments and the claimed leaf, and runs the multiproof
    /// verifier.
    pub fn verify(&self, index: usize, value: &Scalar, proof: &Proof) -> (r: Result<bool, Error>)
        requires
            self.wf(),
            value.wf(),
        ensures
            ({
                let w = self.width as nat;
                let h = match self.height {
                    Some(h) => h as nat,
                    None => 0nat,
                };
                match r {
                    Ok(b) => {
                        &&& self.committed@ is Some
                        &&& h >= 1
                        &&& index < pow(self.width as int, h)
                        &&& (proof.coms@.len() != h ==> b == false)
                        &&& (proof.coms@.len() == h ==> b == accepts_spec(
                            self.vk,
                            proof.coms@,
                            opoints(w, index as int, h),
                            ver_values(proof.coms@, *value, h as int),
                            proof.multi_proof,
                        ))
                    },
                    Err(Error::UncommittedTree) => self.committed@ is None,
                    Err(Error::DegreeIsZero) => self.committed@ is Some && h == 0,
                    Err(Error::InvalidIndex) => self.committed@ is Some && h >= 1 && index as int
                        >= pow(self.width as int, h),
                    Err(Error::InvalidTranscript) => self.committed@ is Some && h >= 1 && index
                        < pow(self.width as int, h) && proof.coms@.len() == h,
                    _ => false,
                }
            }),
    {
        let width = self.width;
        let ghost w = self.width as nat;
        let ghost vals = self.vals();
        let h = match self.height {
            Some(h) => h,
            None => {
                return Err(Error::UncommittedTree);
            },
        };
        if h == 0 {
            return Err(Error::DegreeIsZero);
        }
        proof {
            lemma_pow_positive(width as int, (h - 1) as nat);
        }
        if Self::index_out_of_range(index, width, h, Ghost(vals.len())) {
            return Err(Error::InvalidIndex);
        }
        if proof.coms.len() != h {
            return Ok(false);
        }
        let path = compute_path(index, h, width);
        let mut pointsv: Vec<Scalar> = Vec::new();
        let mut d: usize = 0;
        while d < h
            invariant
                2 <= width <= 0x10000000,
                d <= h,
                path@.len() == h,
                forall|t: int|
                    0 <= t < h ==> path@[t] == (index as int / pow(width as int, (h - 1
                        - t) as nat)) % (width as int),
                pointsv@.len() == d,
                pointsv@ == opoints(width as nat, index as int, h as nat).take(d as int),
                all_wf(pointsv@),
            decreases h - d,
        {
            let c = path[d];
            proof {
                assert(c == digit_of(index as int, width as nat, (h - 1 - d) as nat));
                assert(c < width) by {
                    lemma_fundamental_div_mod(
                        index as int / pow(width as int, (h - 1 - d) as nat),
                        width as int,
                    );
                }
            }
            let pt = domain_element(width, c);
            proof {
                lemma_canon_scalar(pt);
            }
            pointsv.push(pt);
            proof {
                assert(pointsv@ =~= opoints(width as nat, index as int, h as nat).take(d + 1));
            }
            d = d + 1;
        }
        let mut valuesv: Vec<Scalar> = Vec::new();
        let mut i: usize = 1;
        while i < h
            invariant
                1 <= i <= h,
                proof.coms@.len() == h,
                valuesv@.len() == i - 1,
                value.wf(),
                valuesv@ == ver_values(proof.coms@, *value, h as int).take(i - 1),
                all_wf(valuesv@),
            decreases h - i,
        {
            let hv = Self::hash_g1(&proof.coms[i]);
            proof {
                lemma_canon_scalar(hv);
            }
            valuesv.push(hv);
            proof {
                assert(valuesv@ =~= ver_values(proof.coms@, *value, h as int).take(i as int));
            }
            i = i + 1;
        }
        let hv = Self::hash_fr(value);
        proof {
            lemma_canon_scalar(hv);
        }
        valuesv.push(hv);
        proof {
            assert(pointsv@ =~= opoints(width as nat, index as int, h as nat));
            assert(valuesv@ =~= ver_values(proof.coms@, *value, h as int));
        }
        match KZGMultiproof::verify(&self.vk, &proof.coms, &pointsv, &valuesv, &proof.multi_proof) {
            Ok(b) => Ok(b),
            Err(e) => {
                proof {
                    assert(e != Error::DegreeIsZero);
                }
                Err(Error::InvalidTranscript)
            },
        }
    }

    /// Root determinism: two trees committed over the same scalars
    /// with the same width and the same commit key carry the same
    /// root hash.
    pub proof fn lemma_verkle_root_determinism(t1: VerkleTree, t2: VerkleTree, vs: Seq<Scalar>)
        requires
            t1.wf(),
            t2.wf(),
            t1.width == t2.width,
            t1.powers() == t2.powers(),
            t1.committed@ == Some(vs),
            t2.committed@ == Some(vs),
        ensures
            vnode_hash(t1.root.unwrap()) == vnode_hash(t2.root.unwrap()),
    {
        let w = t1.width as nat;
        let rd = root_depth(vs.len(), w);
        assert(rd >= 1);
        assert(vnode_hash(t1.root.unwrap()) == vlevel(t1.powers(), w, vleaf_hashes(vs), rd)[0]) by {
            assert(good_vnode(t1.root.unwrap(), vs, w, t1.powers(), rd, 0));
        }
        assert(vnode_hash(t2.root.unwrap()) == vlevel(t2.powers(), w, vleaf_hashes(vs), rd)[0]) by {
            assert(good_vnode(t2.root.unwrap(), vs, w, t2.powers(), rd, 0));
        }
    }

    /// The hashes of a chunk of sibling nodes, in order.
    fn gen_evals_from_nodes(
        chunk: &Vec<Node>,
        Ghost(vals): Ghost<Seq<Scalar>>,
        Ghost(w): Ghost<nat>,
        Ghost(powers): Ghost<Seq<G1Pt>>,
        Ghost(l): Ghost<nat>,
        Ghost(j): Ghost<int>,
    ) -> (r: Vec<Scalar>)
        requires
            forall|c: int|
                0 <= c < chunk@.len() ==> good_vnode(
                    #[trigger] chunk@[c],
                    vals,
                    w,
                    powers,
                    l,
                    j * w + c,
                ),
        ensures
            r@.len() == chunk@.len(),
            all_wf(r@),
            forall|c: int|
                0 <= c < r@.len() ==> (#[trigger] r@[c]).val() == vlevel(
                    powers,
                    w,
                    vleaf_hashes(vals),
                    l,
                )[j * w + c],
    {
        let mut evals: Vec<Scalar> = Vec::new();
        let mut c: usize = 0;
        while c < chunk.len()
            invariant
                c <= chunk@.len(),
                forall|t: int|
                    0 <= t < chunk@.len() ==> good_vnode(
                        #[trigger] chunk@[t],
                        vals,
                        w,
                        powers,
                        l,
                        j * w + t,
                    ),
                evals@.len() == c,
                all_wf(evals@),
                forall|t: int|
                    0 <= t < c ==> (#[trigger] evals@[t]).val() == vlevel(
                        powers,
                        w,
                        vleaf_hashes(vals),
                        l,
                    )[j * w + t],
            decreases chunk@.len() - c,
        {
            let hv = match &chunk[c] {
                Node::Internal { children, value, poly } => Self::hash_g1(value),
                Node::Leaf { value } => Self::hash_fr(value),
            };
            proof {
                assert(good_vnode(chunk@[c as int], vals, w, powers, l, j * w + c));
                assert(hv.val() == vlevel(powers, w, vleaf_hashes(vals), l)[j * w + c]);
            }
            evals.push(hv);
            c = c + 1;
        }
        evals
    }
}

} // verus!
