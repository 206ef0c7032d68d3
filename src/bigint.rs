use vstd::arithmetic::power::pow;
use vstd::prelude::*;

use dashu::integer::IBig;
use rand::Rng;

verus! {

/// Value of little-endian base-256 digits.
pub open spec fn le_value(b: Seq<u8>) -> nat
    decreases b.len(),
{
    if b.len() == 0 {
        0
    } else {
        b[0] as nat + 256 * le_value(b.drop_first())
    }
}

/// Value of a little-endian two's complement byte string: negative exactly when the
/// top bit of the last byte is set; the empty string stands for zero.
pub open spec fn signed_value(b: Seq<u8>) -> int {
    if b.len() > 0 && b.last() >= 128 {
        le_value(b) - pow(256, b.len())
    } else {
        le_value(b) as int
    }
}

/// An arbitrary-precision signed integer, held as little-endian two's complement bytes.
#[derive(Debug)]
pub struct BigInteger {
    bytes: Vec<u8>,
}

impl View for BigInteger {
    type V = int;

    closed spec fn view(&self) -> int {
        signed_value(self.bytes@)
    }
}

/// Relies on `IBig::from_le_bytes`, `+` and `IBig::to_le_bytes`: exact sum.
#[verifier::external_body]
pub(crate) fn ibig_add(a: &BigInteger, b: &BigInteger) -> (r: BigInteger)
    ensures
        r@ == a@ + b@,
{
    let sum = IBig::from_le_bytes(&a.bytes) + IBig::from_le_bytes(&b.bytes);
    BigInteger { bytes: sum.to_le_bytes().into_vec() }
}

/// Relies on `IBig::from_le_bytes`, `-` and `IBig::to_le_bytes`: exact difference.
#[verifier::external_body]
pub(crate) fn ibig_sub(a: &BigInteger, b: &BigInteger) -> (r: BigInteger)
    ensures
        r@ == a@ - b@,
{
    let diff = IBig::from_le_bytes(&a.bytes) - IBig::from_le_bytes(&b.bytes);
    BigInteger { bytes: diff.to_le_bytes().into_vec() }
}

/// Relies on `IBig::from_le_bytes`, `IBig * usize` and `IBig::to_le_bytes`: exact product.
#[verifier::external_body]
pub(crate) fn ibig_mul_usize(a: &BigInteger, n: usize) -> (r: BigInteger)
    ensures
        r@ == a@ * n,
{
    let product = IBig::from_le_bytes(&a.bytes) * n;
    BigInteger { bytes: product.to_le_bytes().into_vec() }
}

/// Relies on `IBig::from_le_bytes` and `IBig`'s `<`: numeric order.
#[verifier::external_body]
pub(crate) fn ibig_lt(a: &BigInteger, b: &BigInteger) -> (r: bool)
    ensures
        r == (a@ < b@),
{
    IBig::from_le_bytes(&a.bytes) < IBig::from_le_bytes(&b.bytes)
}

/// Relies on `Rng::gen_range` over `IBig::ZERO..bound`, which dashu samples uniformly: a
/// value in `[0, bound)` (it panics on an empty range).
#[verifier::external_body]
pub(crate) fn draw_below(rng: &mut rand::rngs::StdRng, bound: &BigInteger) -> (r: BigInteger)
    requires
        bound@ > 0,
    ensures
        0 <= r@ < bound@,
{
    let drawn = rng.gen_range(IBig::ZERO..IBig::from_le_bytes(&bound.bytes));
    BigInteger { bytes: drawn.to_le_bytes().into_vec() }
}

/// Relies on `IBig::from_le_bytes` and `IBig`'s `==`: numeric equality.
#[verifier::external_body]
fn ibig_eq(a: &BigInteger, b: &BigInteger) -> (r: bool)
    ensures
        r == (a@ == b@),
{
    IBig::from_le_bytes(&a.bytes) == IBig::from_le_bytes(&b.bytes)
}

proof fn lemma_le_value_push(b: Seq<u8>, x: u8)
    ensures
        le_value(b.push(x)) == le_value(b) + x * pow(256, b.len()),
    decreases b.len(),
{
    vstd::arithmetic::power::lemma_pow0(256);
    if b.len() == 0 {
        assert(b.push(x).drop_first() =~= Seq::<u8>::empty());
        assert(le_value(b.push(x).drop_first()) == 0);
        assert(b.push(x)[0] == x);
    } else {
        let rest = b.drop_first();
        assert(b.push(x).drop_first() =~= rest.push(x));
        lemma_le_value_push(rest, x);
        vstd::arithmetic::power::lemma_pow_adds(256, 1, rest.len());
        vstd::arithmetic::power::lemma_pow1(256);
        let p = pow(256, rest.len());
        assert(pow(256, b.len()) == 256 * p);
        assert(le_value(b.push(x)) == b[0] + 256 * le_value(rest.push(x)));
        assert(le_value(rest.push(x)) == le_value(rest) + x * p);
        assert(256 * (le_value(rest) + x * p) == 256 * le_value(rest) + x * (256 * p)) by (nonlinear_arith);
    }
}

impl Clone for BigInteger {
    fn clone(&self) -> (r: Self)
        ensures
            r@ == self@,
    {
        BigInteger { bytes: self.bytes.clone() }
    }
}

impl PartialEq for BigInteger {
    fn eq(&self, other: &Self) -> (r: bool) {
        ibig_eq(self, other)
    }
}

impl vstd::std_specs::cmp::PartialEqSpecImpl for BigInteger {
    open spec fn obeys_eq_spec() -> bool {
        true
    }

    open spec fn eq_spec(&self, other: &Self) -> bool {
        self@ == other@
    }
}

impl BigInteger {
    /// The number 0.
    pub fn zero() -> (r: BigInteger)
        ensures
            r@ == 0,
    {
        BigInteger { bytes: Vec::new() }
    }

    /// Little-endian two's complement bytes of the value.
    pub fn to_le_bytes(&self) -> (r: Vec<u8>)
        ensures
            signed_value(r@) == self@,
    {
        self.bytes.clone()
    }

    /// The number that little-endian two's complement bytes stand for.
    pub fn from_le_bytes(bytes: Vec<u8>) -> (r: BigInteger)
        ensures
            r@ == signed_value(bytes@),
    {
        BigInteger { bytes }
    }

    /// The number `n`, written into bytes digit by digit.
    pub fn from_usize(n: usize) -> (r: BigInteger)
        ensures
            r@ == n,
    {
        let mut bytes: Vec<u8> = Vec::new();
        let mut rest: usize = n;
        proof {
            vstd::arithmetic::power::lemma_pow0(256);
        }
        while rest > 0
            invariant
                le_value(bytes@) + pow(256, bytes@.len()) * rest == n,
            decreases rest,
        {
            let digit = (rest % 256) as u8;
            let ghost before = bytes@;
            let ghost p = pow(256, before.len());
            proof {
                lemma_le_value_push(before, digit);
                vstd::arithmetic::power::lemma_pow_adds(256, before.len(), 1);
                vstd::arithmetic::power::lemma_pow1(256);
                vstd::arithmetic::div_mod::lemma_fundamental_div_mod(rest as int, 256);
                assert(p * rest == digit * p + (p * 256) * (rest / 256)) by (nonlinear_arith)
                    requires
                        rest == 256 * (rest / 256) + digit,
                ;
            }
            bytes.push(digit);
            rest = rest / 256;
            assert(bytes@ == before.push(digit));
        }
        if bytes.len() > 0 && bytes[bytes.len() - 1] >= 128 {
            proof {
                lemma_le_value_push(bytes@, 0);
            }
            bytes.push(0);
        }
        BigInteger { bytes }
    }
}

} // verus!
