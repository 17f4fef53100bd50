//! Big-endian byte strings and the integers they denote.
use vstd::arithmetic::power::{lemma_pow1, lemma_pow_adds, lemma_pow_positive, pow};
use vstd::prelude::*;

verus! {

/// The natural number that a big-endian byte string denotes.
pub open spec fn be_val(s: Seq<u8>) -> nat
    decreases s.len(),
{
    if s.len() == 0 {
        0
    } else {
        (be_val(s.drop_last()) * 256 + s.last()) as nat
    }
}

/// Two byte strings of equal length with the same value are equal:
/// big-endian notation is positional.
pub proof fn lemma_be_val_injective(a: Seq<u8>, b: Seq<u8>)
    requires
        a.len() == b.len(),
        be_val(a) == be_val(b),
    ensures
        a == b,
    decreases a.len(),
{
    if a.len() > 0 {
        assert(be_val(a) % 256 == a.last() && be_val(b) % 256 == b.last()) by {
            lemma_mod_of_scaled_sum(be_val(a.drop_last()), a.last() as nat);
            lemma_mod_of_scaled_sum(be_val(b.drop_last()), b.last() as nat);
        }
        assert(be_val(a.drop_last()) == be_val(b.drop_last())) by {
            lemma_div_of_scaled_sum(be_val(a.drop_last()), a.last() as nat);
            lemma_div_of_scaled_sum(be_val(b.drop_last()), b.last() as nat);
        }
        lemma_be_val_injective(a.drop_last(), b.drop_last());
        assert(a =~= a.drop_last().push(a.last()));
        assert(b =~= b.drop_last().push(b.last()));
    } else {
        assert(a =~= b);
    }
}

proof fn lemma_mod_of_scaled_sum(q: nat, r: nat)
    requires
        r < 256,
    ensures
        (q * 256 + r) % 256 == r,
{
    assert((q * 256 + r) % 256 == r) by (nonlinear_arith)
        requires
            r < 256,
    ;
}

proof fn lemma_div_of_scaled_sum(q: nat, r: nat)
    requires
        r < 256,
    ensures
        (q * 256 + r) / 256 == q,
{
    assert((q * 256 + r) / 256 == q) by (nonlinear_arith)
        requires
            r < 256,
    ;
}

/// A byte string of zeros denotes zero.
pub proof fn lemma_all_zero_val(s: Seq<u8>)
    requires
        forall|j: int| 0 <= j < s.len() ==> s[j] == 0,
    ensures
        be_val(s) == 0,
    decreases s.len(),
{
    if s.len() > 0 {
        lemma_all_zero_val(s.drop_last());
    }
}

/// A byte string with a nonzero byte denotes a nonzero value.
pub proof fn lemma_nonzero_byte_nonzero_val(s: Seq<u8>, i: int)
    requires
        0 <= i < s.len(),
        s[i] != 0,
    ensures
        be_val(s) != 0,
    decreases s.len(),
{
    if i == s.len() - 1 {
    } else {
        lemma_nonzero_byte_nonzero_val(s.drop_last(), i);
    }
}

/// Copies a byte string.
pub fn clone_bytes(v: &Vec<u8>) -> (r: Vec<u8>)
    ensures
        r@ == v@,
{
    let mut out: Vec<u8> = Vec::new();
    let mut i: usize = 0;
    while i < v.len()
        invariant
            i <= v.len(),
            out@ == v@.subrange(0, i as int),
        decreases v.len() - i,
    {
        out.push(v[i]);
        i = i + 1;
    }
    assert(out@ =~= v@);
    out
}

/// Compares two 32-byte hashes for equality.
pub fn bytes32_eq(a: &[u8; 32], b: &[u8; 32]) -> (r: bool)
    ensures
        r == (a@ == b@),
{
    let mut i: usize = 0;
    while i < 32
        invariant
            i <= 32,
            forall|j: int| 0 <= j < i ==> a@[j] == b@[j],
        decreases 32 - i,
    {
        if a[i] != b[i] {
            return false;
        }
        i = i + 1;
    }
    assert(a@ =~= b@);
    true
}

/// Whether a 32-byte string denotes zero.
pub fn bytes32_is_zero(a: &[u8; 32]) -> (r: bool)
    ensures
        r == (be_val(a@) == 0),
{
    let mut i: usize = 0;
    while i < 32
        invariant
            i <= 32,
            forall|j: int| 0 <= j < i ==> a@[j] == 0,
        decreases 32 - i,
    {
        if a[i] != 0 {
            proof {
                lemma_nonzero_byte_nonzero_val(a@, i as int);
            }
            return false;
        }
        i = i + 1;
    }
    proof {
        lemma_all_zero_val(a@);
    }
    true
}

/// Appends the bytes of a 32-byte hash to `dst`.
pub fn append_bytes32(dst: &mut Vec<u8>, src: &[u8; 32])
    ensures
        final(dst)@ == old(dst)@ + src@,
{
    let mut i: usize = 0;
    while i < 32
        invariant
            i <= 32,
            dst@ == old(dst)@ + src@.take(i as int),
        decreases 32 - i,
    {
        dst.push(src[i]);
        proof {
            assert(dst@ =~= old(dst)@ + src@.take(i + 1));
        }
        i = i + 1;
    }
    assert(dst@ =~= old(dst)@ + src@);
}

/// The first 32 bytes of `value` as a fixed-size array.
pub fn to_bytes32_array(value: &Vec<u8>) -> (r: [u8; 32])
    requires
        value@.len() >= 32,
    ensures
        r@ == value@.subrange(0, 32),
{
    let mut out: [u8; 32] = [0u8; 32];
    let mut i: usize = 0;
    while i < 32
        invariant
            i <= 32,
            value@.len() >= 32,
            forall|j: int| 0 <= j < i ==> out@[j] == value@[j],
        decreases 32 - i,
    {
        out[i] = value[i];
        i = i + 1;
    }
    assert(out@ =~= value@.subrange(0, 32));
    out
}

} // verus!
