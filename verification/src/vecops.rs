//! Elementwise vector arithmetic over scalar bit patterns.
//!
//! Every operation is stated as a sequence-level spec function and implemented
//! by a verified loop over the scalar kernel. Binary operations demand equal
//! lengths; the reduction folds from the left starting at zero, exactly as
//! summing a vector one element at a time does.
use vstd::prelude::*;
use crate::scalar::{
    add_bits, sub_bits, mul_bits, div_bits, pow_bits, exp_bits, ln_bits, sin_bits, cos_bits,
    neg_bits, scalar_add, scalar_sub, scalar_mul, scalar_div, scalar_pow, scalar_exp, scalar_ln,
    scalar_sin, scalar_cos, scalar_neg, ONE_BITS, ZERO_BITS,
};

verus! {

/// Elementwise sum of two equally long vectors.
pub open spec fn seq_add(a: Seq<u32>, b: Seq<u32>) -> Seq<u32> {
    Seq::new(a.len(), |i: int| add_bits(a[i], b[i]))
}

/// Elementwise difference of two equally long vectors.
pub open spec fn seq_sub(a: Seq<u32>, b: Seq<u32>) -> Seq<u32> {
    Seq::new(a.len(), |i: int| sub_bits(a[i], b[i]))
}

/// Elementwise product of two equally long vectors.
pub open spec fn seq_mul(a: Seq<u32>, b: Seq<u32>) -> Seq<u32> {
    Seq::new(a.len(), |i: int| mul_bits(a[i], b[i]))
}

/// Elementwise quotient of two equally long vectors.
pub open spec fn seq_div(a: Seq<u32>, b: Seq<u32>) -> Seq<u32> {
    Seq::new(a.len(), |i: int| div_bits(a[i], b[i]))
}

/// Elementwise power of two equally long vectors.
pub open spec fn seq_pow(a: Seq<u32>, b: Seq<u32>) -> Seq<u32> {
    Seq::new(a.len(), |i: int| pow_bits(a[i], b[i]))
}

/// Elementwise exponential.
pub open spec fn seq_exp(a: Seq<u32>) -> Seq<u32> {
    Seq::new(a.len(), |i: int| exp_bits(a[i]))
}

/// Elementwise natural logarithm.
pub open spec fn seq_ln(a: Seq<u32>) -> Seq<u32> {
    Seq::new(a.len(), |i: int| ln_bits(a[i]))
}

/// Elementwise sine.
pub open spec fn seq_sin(a: Seq<u32>) -> Seq<u32> {
    Seq::new(a.len(), |i: int| sin_bits(a[i]))
}

/// Elementwise cosine.
pub open spec fn seq_cos(a: Seq<u32>) -> Seq<u32> {
    Seq::new(a.len(), |i: int| cos_bits(a[i]))
}

/// Elementwise negation.
pub open spec fn seq_neg(a: Seq<u32>) -> Seq<u32> {
    Seq::new(a.len(), |i: int| neg_bits(a[i]))
}

/// A vector of zeros of the given length.
pub open spec fn zeros(n: nat) -> Seq<u32> {
    Seq::new(n, |i: int| ZERO_BITS)
}

/// A vector of ones of the given length.
pub open spec fn ones(n: nat) -> Seq<u32> {
    Seq::new(n, |i: int| ONE_BITS)
}

/// Every element equal to the given scalar.
pub open spec fn splat(n: nat, x: u32) -> Seq<u32> {
    Seq::new(n, |i: int| x)
}

/// The left-to-right sum of a vector, starting from zero.
pub open spec fn sum_bits(s: Seq<u32>) -> u32
    decreases s.len(),
{
    if s.len() == 0 {
        ZERO_BITS
    } else {
        add_bits(sum_bits(s.drop_last()), s.last())
    }
}

pub fn vec_add(a: &Vec<u32>, b: &Vec<u32>) -> (r: Vec<u32>)
    requires
        a@.len() == b@.len(),
    ensures
        r@ == seq_add(a@, b@),
{
    let mut out: Vec<u32> = Vec::new();
    let mut i: usize = 0;
    while i < a.len()
        invariant
            i <= a@.len(),
            a@.len() == b@.len(),
            out@ == seq_add(a@, b@).take(i as int),
        decreases a@.len() - i,
    {
        out.push(scalar_add(a[i], b[i]));
        proof {
            assert(out@ =~= seq_add(a@, b@).take(i + 1));
        }
        i += 1;
    }
    proof {
        assert(out@ =~= seq_add(a@, b@));
    }
    out
}

pub fn vec_sub(a: &Vec<u32>, b: &Vec<u32>) -> (r: Vec<u32>)
    requires
        a@.len() == b@.len(),
    ensures
        r@ == seq_sub(a@, b@),
{
    let mut out: Vec<u32> = Vec::new();
    let mut i: usize = 0;
    while i < a.len()
        invariant
            i <= a@.len(),
            a@.len() == b@.len(),
            out@ == seq_sub(a@, b@).take(i as int),
        decreases a@.len() - i,
    {
        out.push(scalar_sub(a[i], b[i]));
        proof {
            assert(out@ =~= seq_sub(a@, b@).take(i + 1));
        }
        i += 1;
    }
    proof {
        assert(out@ =~= seq_sub(a@, b@));
    }
    out
}

pub fn vec_mul(a: &Vec<u32>, b: &Vec<u32>) -> (r: Vec<u32>)
    requires
        a@.len() == b@.len(),
    ensures
        r@ == seq_mul(a@, b@),
{
    let mut out: Vec<u32> = Vec::new();
    let mut i: usize = 0;
    while i < a.len()
        invariant
            i <= a@.len(),
            a@.len() == b@.len(),
            out@ == seq_mul(a@, b@).take(i as int),
        decreases a@.len() - i,
    {
        out.push(scalar_mul(a[i], b[i]));
        proof {
            assert(out@ =~= seq_mul(a@, b@).take(i + 1));
        }
        i += 1;
    }
    proof {
        assert(out@ =~= seq_mul(a@, b@));
    }
    out
}

pub fn vec_div(a: &Vec<u32>, b: &Vec<u32>) -> (r: Vec<u32>)
    requires
        a@.len() == b@.len(),
    ensures
        r@ == seq_div(a@, b@),
{
    let mut out: Vec<u32> = Vec::new();
    let mut i: usize = 0;
    while i < a.len()
        invariant
            i <= a@.len(),
            a@.len() == b@.len(),
            out@ == seq_div(a@, b@).take(i as int),
        decreases a@.len() - i,
    {
        out.push(scalar_div(a[i], b[i]));
        proof {
            assert(out@ =~= seq_div(a@, b@).take(i + 1));
        }
        i += 1;
    }
    proof {
        assert(out@ =~= seq_div(a@, b@));
    }
    out
}

pub fn vec_pow(a: &Vec<u32>, b: &Vec<u32>) -> (r: Vec<u32>)
    requires
        a@.len() == b@.len(),
    ensures
        r@ == seq_pow(a@, b@),
{
    let mut out: Vec<u32> = Vec::new();
    let mut i: usize = 0;
    while i < a.len()
        invariant
            i <= a@.len(),
            a@.len() == b@.len(),
            out@ == seq_pow(a@, b@).take(i as int),
        decreases a@.len() - i,
    {
        out.push(scalar_pow(a[i], b[i]));
        proof {
            assert(out@ =~= seq_pow(a@, b@).take(i + 1));
        }
        i += 1;
    }
    proof {
        assert(out@ =~= seq_pow(a@, b@));
    }
    out
}

pub fn vec_exp(a: &Vec<u32>) -> (r: Vec<u32>)
    ensures
        r@ == seq_exp(a@),
{
    let mut out: Vec<u32> = Vec::new();
    let mut i: usize = 0;
    while i < a.len()
        invariant
            i <= a@.len(),
            out@ == seq_exp(a@).take(i as int),
        decreases a@.len() - i,
    {
        out.push(scalar_exp(a[i]));
        proof {
            assert(out@ =~= seq_exp(a@).take(i + 1));
        }
        i += 1;
    }
    proof {
        assert(out@ =~= seq_exp(a@));
    }
    out
}

pub fn vec_ln(a: &Vec<u32>) -> (r: Vec<u32>)
    ensures
        r@ == seq_ln(a@),
{
    let mut out: Vec<u32> = Vec::new();
    let mut i: usize = 0;
    while i < a.len()
        invariant
            i <= a@.len(),
            out@ == seq_ln(a@).take(i as int),
        decreases a@.len() - i,
    {
        out.push(scalar_ln(a[i]));
        proof {
            assert(out@ =~= seq_ln(a@).take(i + 1));
        }
        i += 1;
    }
    proof {
        assert(out@ =~= seq_ln(a@));
    }
    out
}

pub fn vec_sin(a: &Vec<u32>) -> (r: Vec<u32>)
    ensures
        r@ == seq_sin(a@),
{
    let mut out: Vec<u32> = Vec::new();
    let mut i: usize = 0;
    while i < a.len()
        invariant
            i <= a@.len(),
            out@ == seq_sin(a@).take(i as int),
        decreases a@.len() - i,
    {
        out.push(scalar_sin(a[i]));
        proof {
            assert(out@ =~= seq_sin(a@).take(i + 1));
        }
        i += 1;
    }
    proof {
        assert(out@ =~= seq_sin(a@));
    }
    out
}

pub fn vec_cos(a: &Vec<u32>) -> (r: Vec<u32>)
    ensures
        r@ == seq_cos(a@),
{
    let mut out: Vec<u32> = Vec::new();
    let mut i: usize = 0;
    while i < a.len()
        invariant
            i <= a@.len(),
            out@ == seq_cos(a@).take(i as int),
        decreases a@.len() - i,
    {
        out.push(scalar_cos(a[i]));
        proof {
            assert(out@ =~= seq_cos(a@).take(i + 1));
        }
        i += 1;
    }
    proof {
        assert(out@ =~= seq_cos(a@));
    }
    out
}

pub fn vec_neg(a: &Vec<u32>) -> (r: Vec<u32>)
    ensures
        r@ == seq_neg(a@),
{
    let mut out: Vec<u32> = Vec::new();
    let mut i: usize = 0;
    while i < a.len()
        invariant
            i <= a@.len(),
            out@ == seq_neg(a@).take(i as int),
        decreases a@.len() - i,
    {
        out.push(scalar_neg(a[i]));
        proof {
            assert(out@ =~= seq_neg(a@).take(i + 1));
        }
        i += 1;
    }
    proof {
        assert(out@ =~= seq_neg(a@));
    }
    out
}

/// Every element set to the given scalar.
pub fn vec_splat(n: usize, x: u32) -> (r: Vec<u32>)
    ensures
        r@ == splat(n as nat, x),
{
    let mut out: Vec<u32> = Vec::new();
    let mut i: usize = 0;
    while i < n
        invariant
            i <= n,
            out@ == splat(n as nat, x).take(i as int),
        decreases n - i,
    {
        out.push(x);
        proof {
            assert(out@ =~= splat(n as nat, x).take(i + 1));
        }
        i += 1;
    }
    proof {
        assert(out@ =~= splat(n as nat, x));
    }
    out
}

pub fn vec_zeros(n: usize) -> (r: Vec<u32>)
    ensures
        r@ == zeros(n as nat),
{
    let r = vec_splat(n, ZERO_BITS);
    proof {
        assert(r@ =~= zeros(n as nat));
    }
    r
}

pub fn vec_ones(n: usize) -> (r: Vec<u32>)
    ensures
        r@ == ones(n as nat),
{
    let r = vec_splat(n, ONE_BITS);
    proof {
        assert(r@ =~= ones(n as nat));
    }
    r
}

/// Left-to-right sum of the elements, starting from zero.
pub fn vec_sum(a: &Vec<u32>) -> (r: u32)
    ensures
        r == sum_bits(a@),
{
    let mut acc: u32 = ZERO_BITS;
    let mut i: usize = 0;
    while i < a.len()
        invariant
            i <= a@.len(),
            acc == sum_bits(a@.take(i as int)),
        decreases a@.len() - i,
    {
        acc = scalar_add(acc, a[i]);
        proof {
            assert(a@.take(i + 1).drop_last() =~= a@.take(i as int));
            assert(a@.take(i + 1).last() == a@[i as int]);
        }
        i += 1;
    }
    proof {
        assert(a@.take(a@.len() as int) =~= a@);
    }
    acc
}

/// A verified copy of a vector of scalars.
pub fn vec_dup(a: &Vec<u32>) -> (r: Vec<u32>)
    ensures
        r@ == a@,
{
    let mut out: Vec<u32> = Vec::new();
    let mut i: usize = 0;
    while i < a.len()
        invariant
            i <= a@.len(),
            out@ == a@.take(i as int),
        decreases a@.len() - i,
    {
        out.push(a[i]);
        proof {
            assert(out@ =~= a@.take(i + 1));
        }
        i += 1;
    }
    proof {
        assert(out@ =~= a@);
    }
    out
}

} // verus!
