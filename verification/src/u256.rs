//! Unsigned 256-bit integers, kept as big-endian bytes without leading zeros.
use crate::digits::{
    add_digits, be_value, canonical, compare_same_length, divmod_digits, lemma_be_all_ff, lemma_be_bound,
    lemma_be_first_difference, lemma_be_injective, lemma_be_longer, lemma_be_lower_bound, lemma_be_skip_step, lemma_be_push, lemma_be_set_step,
    lemma_canonical_len, lemma_pow256_8, lemma_pow256_monotone, lemma_pow256_positive, mul_digits, pow256,
    sub_digits, trim, zero_vec,
};
use std::cmp::Ordering;
use vstd::arithmetic::power::pow;
use vstd::prelude::*;

verus! {

/// The largest value a `U256` holds: `2^256 - 1`.
pub open spec fn u256_max() -> nat {
    (pow256(32) - 1) as nat
}

/// Why encoded bytes were not accepted as a value.
#[derive(Debug, PartialEq, Eq, Structural, Clone, Copy)]
pub enum DecodeError {
    /// A number began with a zero byte.
    LeadingZero,
    /// An address did not have twenty bytes.
    AddressSize,
}

/// A 256-bit unsigned integer as big-endian bytes; the empty sequence is zero.
pub struct U256 {
    data: Vec<u8>,
}

impl U256 {
    /// The bytes held.
    pub closed spec fn bytes(&self) -> Seq<u8> {
        self.data@
    }

    /// The number the bytes denote.
    pub open spec fn value(&self) -> nat {
        be_value(self.bytes())
    }

    /// No leading zero byte and at most 32 bytes: the form every operation
    /// of this module produces.
    pub open spec fn wf(&self) -> bool {
        canonical(self.bytes()) && self.bytes().len() <= 32
    }

    pub proof fn lemma_wf_bound(&self)
        requires
            self.wf(),
        ensures
            self.value() <= u256_max(),
    {
        lemma_be_bound(self.bytes());
        lemma_pow256_monotone(self.bytes().len(), 32);
    }

    /// Two well-formed values are equal exactly when their bytes are.
    pub proof fn lemma_value_eq(&self, other: &U256)
        requires
            self.wf(),
            other.wf(),
            self.value() == other.value(),
        ensures
            self.bytes() == other.bytes(),
    {
        let s = self.bytes();
        let t = other.bytes();
        if s.len() < t.len() {
            lemma_be_longer(s, t);
        } else if t.len() < s.len() {
            lemma_be_longer(t, s);
        } else {
            lemma_be_injective(s, t);
        }
    }

    /// A well-formed value below `256^k` has at most `k` bytes.
    pub proof fn lemma_len_bound(&self, k: nat)
        requires
            self.wf(),
            self.value() < pow256(k),
        ensures
            self.bytes().len() <= k,
    {
        lemma_canonical_len(self.bytes(), k);
    }

    fn from_digits(v: Vec<u8>) -> (r: U256)
        requires
            canonical(v@),
            be_value(v@) <= u256_max(),
        ensures
            r.bytes() == v@,
            r.wf(),
    {
        proof {
            lemma_pow256_positive(32);
            lemma_canonical_len(v@, 32);
        }
        U256 { data: v }
    }

    /// Wraps the given big-endian bytes as they are.
    pub fn new(v: Vec<u8>) -> (r: U256)
        ensures
            r.bytes() == v@,
    {
        U256 { data: v }
    }

    /// Accepts the bytes of an encoded number unless the first is zero; a
    /// leading zero byte is refused.
    pub fn decode_value(v: Vec<u8>) -> (r: Result<U256, DecodeError>)
        ensures
            match r {
                Ok(u) => canonical(v@) && u.bytes() == v@,
                Err(e) => !canonical(v@) && e == DecodeError::LeadingZero,
            },
    {
        if v.len() > 0 && v[0] == 0 {
            Err(DecodeError::LeadingZero)
        } else {
            Ok(U256 { data: v })
        }
    }

    /// The bytes, big-endian.
    pub fn as_slice(&self) -> (r: &[u8])
        ensures
            r@ == self.bytes(),
    {
        self.data.as_slice()
    }

    pub fn zero() -> (r: U256)
        ensures
            r.bytes() == Seq::<u8>::empty(),
            r.value() == 0,
            r.wf(),
    {
        U256 { data: Vec::new() }
    }

    pub fn one() -> (r: U256)
        ensures
            r.bytes() == seq![1u8],
            r.value() == 1,
            r.wf(),
    {
        let mut v: Vec<u8> = Vec::new();
        v.push(1);
        proof {
            lemma_be_push(Seq::<u8>::empty(), 1);
            assert(Seq::<u8>::empty().push(1) =~= seq![1u8]);
        }
        U256 { data: v }
    }

    /// `2^256 - 1`, as 32 bytes `0xff`.
    pub fn max() -> (r: U256)
        ensures
            r.value() == u256_max(),
            r.bytes().len() == 32,
            r.wf(),
    {
        let mut v: Vec<u8> = Vec::new();
        let mut i: usize = 0;
        while i < 32
            invariant
                i <= 32,
                v.len() == i,
                forall|j: int| 0 <= j < v.len() ==> v@[j] == 0xff,
            decreases 32 - i,
        {
            v.push(0xff);
            i = i + 1;
        }
        proof {
            lemma_be_all_ff(v@);
        }
        U256 { data: v }
    }

    /// Whether no byte is held; for a well-formed value, whether it is zero.
    pub fn is_zero(&self) -> (r: bool)
        ensures
            r == (self.bytes().len() == 0),
            self.wf() ==> (r == (self.value() == 0)),
    {
        proof {
            if self.wf() && self.bytes().len() > 0 {
                lemma_be_lower_bound(self.bytes());
                lemma_pow256_positive((self.bytes().len() - 1) as nat);
            }
        }
        self.data.len() == 0
    }

    /// The value as a `u64`; at most 8 bytes may be held.
    pub fn u64(&self) -> (r: u64)
        requires
            self.bytes().len() <= 8,
        ensures
            r == self.value(),
    {
        let mut r: u64 = 0;
        let mut i: usize = 0;
        proof {
            assert(self.data@.take(0) =~= Seq::<u8>::empty());
        }
        while i < self.data.len()
            invariant
                i <= self.data.len(),
                self.data.len() <= 8,
                r == be_value(self.data@.take(i as int)),
            decreases self.data.len() - i,
        {
            proof {
                assert(self.data@.take(i + 1) =~= self.data@.take(i as int).push(self.data@[i as int]));
                lemma_be_push(self.data@.take(i as int), self.data@[i as int]);
                lemma_be_bound(self.data@.take(i + 1));
                lemma_pow256_monotone((i + 1) as nat, 8);
                lemma_pow256_8();
            }
            r = r * 256 + self.data[i] as u64;
            i = i + 1;
        }
        proof {
            assert(self.data@.take(self.data.len() as int) =~= self.data@);
        }
        r
    }

    /// The value `o`, with no leading zero byte.
    pub fn from_u64(o: u64) -> (r: U256)
        ensures
            r.value() == o,
            r.wf(),
    {
        let v = u64_to_be_bytes(o);
        let t = trim(&v);
        proof {
            lemma_pow256_monotone(8, 32);
            lemma_be_bound(v@);
        }
        U256::from_digits(t)
    }

    /// A copy with the same bytes.
    pub fn clone(&self) -> (r: U256)
        ensures
            r.bytes() == self.bytes(),
    {
        let mut v: Vec<u8> = Vec::new();
        let mut i: usize = 0;
        while i < self.data.len()
            invariant
                i <= self.data.len(),
                v@ == self.data@.take(i as int),
            decreases self.data.len() - i,
        {
            v.push(self.data[i]);
            i = i + 1;
            assert(v@ =~= self.data@.take(i as int));
        }
        assert(v@ =~= self.data@);
        U256 { data: v }
    }

    /// Checked addition; the sum must not exceed `2^256 - 1`.
    pub fn add(&self, other: &U256) -> (r: U256)
        requires
            self.wf(),
            other.wf(),
            self.value() + other.value() <= u256_max(),
        ensures
            r.value() == self.value() + other.value(),
            r.wf(),
    {
        let c = add_digits(&self.data, &other.data);
        U256::from_digits(c)
    }

    /// Checked subtraction; `other` must not exceed `self`.
    pub fn sub(&self, other: &U256) -> (r: U256)
        requires
            self.wf(),
            other.wf(),
            other.value() <= self.value(),
        ensures
            r.value() == self.value() - other.value(),
            r.wf(),
    {
        let (c, _borrow) = sub_digits(&self.data, &other.data);
        proof {
            self.lemma_wf_bound();
        }
        U256::from_digits(c)
    }

    /// Checked multiplication; the product must not exceed `2^256 - 1`.
    pub fn mul(&self, other: &U256) -> (r: U256)
        requires
            self.wf(),
            other.wf(),
            self.value() * other.value() <= u256_max(),
        ensures
            r.value() == self.value() * other.value(),
            r.wf(),
    {
        let c = mul_digits(&self.data, &other.data);
        U256::from_digits(c)
    }

    /// Integer division, rounding down; `other` must not be zero.
    pub fn div(&self, other: &U256) -> (r: U256)
        requires
            self.wf(),
            other.wf(),
            other.value() != 0,
        ensures
            r.value() == self.value() / other.value(),
            r.wf(),
    {
        let (q, rem) = divmod_digits(&self.data, &other.data);
        proof {
            self.lemma_wf_bound();
            lemma_div_unique(self.value() as int, other.value() as int, be_value(q@) as int, be_value(rem@) as int);
        }
        U256::from_digits(q)
    }

    /// The remainder of integer division; `other` must not be zero.
    pub fn rem(&self, other: &U256) -> (r: U256)
        requires
            self.wf(),
            other.wf(),
            other.value() != 0,
        ensures
            r.value() == self.value() % other.value(),
            r.wf(),
    {
        let (q, rem) = divmod_digits(&self.data, &other.data);
        proof {
            other.lemma_wf_bound();
            lemma_div_unique(self.value() as int, other.value() as int, be_value(q@) as int, be_value(rem@) as int);
        }
        U256::from_digits(rem)
    }

    /// `self` raised to `o` by repeated checked multiplication.
    pub fn pow(&self, o: u64) -> (r: U256)
        requires
            self.wf(),
            pow(self.value() as int, o as nat) <= u256_max(),
        ensures
            r.value() == pow(self.value() as int, o as nat),
            r.wf(),
    {
        let mut ret = U256::one();
        let mut k: u64 = 0;
        proof {
            vstd::arithmetic::power::lemma_pow0(self.value() as int);
        }
        while k < o
            invariant
                k <= o,
                self.wf(),
                ret.wf(),
                ret.value() == pow(self.value() as int, k as nat),
                pow(self.value() as int, o as nat) <= u256_max(),
            decreases o - k,
        {
            proof {
                let v = self.value() as int;
                reveal(pow);
                assert(pow(v, (k + 1) as nat) == v * pow(v, k as nat));
                if v > 0 {
                    vstd::arithmetic::power::lemma_pow_increases(v as nat, (k + 1) as nat, o as nat);
                } else {
                    vstd::arithmetic::power::lemma0_pow((k + 1) as nat);
                }
                assert(ret.value() * self.value() == v * pow(v, k as nat)) by (nonlinear_arith)
                    requires
                        ret.value() == pow(v, k as nat),
                        v == self.value(),
                ;
            }
            ret = ret.mul(self);
            k = k + 1;
        }
        ret
    }

    /// Whether `self + other` fits in 256 bits.
    pub fn fits_add(&self, other: &U256) -> (r: bool)
        requires
            self.wf(),
            other.wf(),
        ensures
            r == (self.value() + other.value() <= u256_max()),
    {
        proof {
            other.lemma_wf_bound();
        }
        self.le(&U256::max().sub(other))
    }

    /// Whether `self * other` fits in 256 bits.
    pub fn fits_mul(&self, other: &U256) -> (r: bool)
        requires
            self.wf(),
            other.wf(),
        ensures
            r == (self.value() * other.value() <= u256_max()),
    {
        if other.is_zero() {
            assert(self.value() * other.value() == 0) by (nonlinear_arith)
                requires
                    other.value() == 0,
            ;
            return true;
        }
        let limit = U256::max().div(other);
        let r = self.le(&limit);
        proof {
            let a = self.value() as int;
            let b = other.value() as int;
            let m = u256_max() as int;
            vstd::arithmetic::div_mod::lemma_fundamental_div_mod(m, b);
            vstd::arithmetic::div_mod::lemma_mod_bound(m, b);
            if a <= m / b {
                assert(a * b <= (m / b) * b) by (nonlinear_arith)
                    requires
                        a <= m / b,
                        b > 0,
                ;
                assert((m / b) * b == b * (m / b)) by (nonlinear_arith);
            } else {
                assert(a * b >= (m / b + 1) * b) by (nonlinear_arith)
                    requires
                        a >= m / b + 1,
                        b > 0,
                ;
                assert((m / b + 1) * b == b * (m / b) + b) by (nonlinear_arith);
            }
        }
        r
    }

    /// Byte-wise equality, as `==` compares.
    pub fn equals(&self, other: &U256) -> (r: bool)
        ensures
            r == (self.bytes() == other.bytes()),
            (self.wf() && other.wf()) ==> (r == (self.value() == other.value())),
    {
        let r = if self.data.len() != other.data.len() {
            false
        } else {
            compare_same_length(&self.data, &other.data) == 0
        };
        proof {
            if self.wf() && other.wf() && self.value() == other.value() {
                self.lemma_value_eq(other);
            }
        }
        r
    }

    /// Ordering by length, then byte by byte; on well-formed values this is
    /// the order of the numbers.
    pub fn compare(&self, other: &U256) -> (r: Ordering)
        ensures
            (r == Ordering::Equal) == (self.bytes() == other.bytes()),
            (r == Ordering::Less) == bytes_before(self.bytes(), other.bytes()),
            (r == Ordering::Greater) == bytes_before(other.bytes(), self.bytes()),
            (self.wf() && other.wf()) ==> match r {
                Ordering::Less => self.value() < other.value(),
                Ordering::Equal => self.value() == other.value(),
                Ordering::Greater => self.value() > other.value(),
            },
    {
        if self.data.len() > other.data.len() {
            proof {
                if other.wf() && self.wf() {
                    lemma_be_longer(other.bytes(), self.bytes());
                }
            }
            return Ordering::Greater;
        }
        if self.data.len() < other.data.len() {
            proof {
                if other.wf() && self.wf() {
                    lemma_be_longer(self.bytes(), other.bytes());
                }
            }
            return Ordering::Less;
        }
        let c = compare_same_length(&self.data, &other.data);
        if c > 0 {
            Ordering::Greater
        } else if c < 0 {
            Ordering::Less
        } else {
            Ordering::Equal
        }
    }

    /// `self < other` as `<` compares.
    pub fn lt(&self, other: &U256) -> (r: bool)
        ensures
            r == bytes_before(self.bytes(), other.bytes()),
            (self.wf() && other.wf()) ==> (r == (self.value() < other.value())),
    {
        match self.compare(other) {
            Ordering::Less => true,
            _ => false,
        }
    }

    /// `self <= other` as `<=` compares.
    pub fn le(&self, other: &U256) -> (r: bool)
        ensures
            r == !bytes_before(other.bytes(), self.bytes()),
            (self.wf() && other.wf()) ==> (r == (self.value() <= other.value())),
    {
        match self.compare(other) {
            Ordering::Greater => false,
            _ => true,
        }
    }

    /// `self > other` as `>` compares.
    pub fn gt(&self, other: &U256) -> (r: bool)
        ensures
            r == bytes_before(other.bytes(), self.bytes()),
            (self.wf() && other.wf()) ==> (r == (self.value() > other.value())),
    {
        match self.compare(other) {
            Ordering::Greater => true,
            _ => false,
        }
    }

    /// `self >= other` as `>=` compares.
    pub fn ge(&self, other: &U256) -> (r: bool)
        ensures
            r == !bytes_before(self.bytes(), other.bytes()),
            (self.wf() && other.wf()) ==> (r == (self.value() >= other.value())),
    {
        match self.compare(other) {
            Ordering::Less => false,
            _ => true,
        }
    }
}

/// The order in which `compare` puts byte sequences: shorter first, and
/// among sequences of one length the smaller value first.
pub open spec fn bytes_before(a: Seq<u8>, b: Seq<u8>) -> bool {
    a.len() < b.len() || (a.len() == b.len() && be_value(a) < be_value(b))
}

/// The overflow check after a wrapping addition: the result is below an
/// operand.
pub fn add_over_flow(left: &U256, right: &U256, out: &U256) -> (r: bool)
    requires
        left.wf(),
        right.wf(),
        out.wf(),
    ensures
        r == (out.value() < left.value() || out.value() < right.value()),
{
    out.lt(left) || out.lt(right)
}

/// The underflow check before a subtraction: `right > left`.
pub fn sub_over_flow(left: &U256, right: &U256, out: &U256) -> (r: bool)
    requires
        left.wf(),
        right.wf(),
    ensures
        r == (right.value() > left.value()),
{
    right.gt(left)
}

/// The overflow check after a wrapping multiplication: dividing the result
/// by a nonzero `left` does not give `right` back.
pub fn mul_over_flow(left: &U256, right: &U256, out: &U256) -> (r: bool)
    requires
        left.wf(),
        right.wf(),
        out.wf(),
    ensures
        r == (left.value() != 0 && out.value() / left.value() != right.value()),
{
    if left.is_zero() {
        false
    } else {
        !out.div(left).equals(right)
    }
}

/// The check on a division: the divisor is zero.
pub fn div_over_flow(left: &U256, right: &U256, out: &U256) -> (r: bool)
    requires
        right.wf(),
    ensures
        r == (right.value() == 0),
{
    right.is_zero()
}

/// With wrapping addition modulo `2^256`, the addition check reports exactly
/// the sums that do not fit.
pub proof fn lemma_add_over_flow_exact(l: nat, r: nat)
    requires
        l <= u256_max(),
        r <= u256_max(),
    ensures
        ({
            let out = (l + r) % pow256(32);
            (out < l || out < r) == (l + r > u256_max())
        }),
{
    let m = pow256(32);
    lemma_pow256_positive(32);
    if l + r < m {
        vstd::arithmetic::div_mod::lemma_small_mod(l + r, m);
    } else {
        lemma_div_unique((l + r) as int, m as int, 1, (l + r - m) as int);
    }
}

/// With wrapping multiplication modulo `2^256`, the multiplication check
/// reports exactly the products that do not fit.
pub proof fn lemma_mul_over_flow_exact(l: nat, r: nat)
    requires
        l <= u256_max(),
        r <= u256_max(),
    ensures
        ({
            let out = (l * r) % pow256(32);
            (l != 0 && out / l != r) == (l * r > u256_max())
        }),
{
    let m = pow256(32);
    lemma_pow256_positive(32);
    let out = (l * r) % m;
    vstd::arithmetic::div_mod::lemma_mod_bound((l * r) as int, m as int);
    if l * r < m {
        vstd::arithmetic::div_mod::lemma_small_mod(l * r, m);
        if l != 0 {
            vstd::arithmetic::div_mod::lemma_div_by_multiple(r as int, l as int);
            assert(r * l == l * r) by (nonlinear_arith);
        }
    } else {
        if l != 0 && out / l == r {
            vstd::arithmetic::div_mod::lemma_fundamental_div_mod(out as int, l as int);
            vstd::arithmetic::div_mod::lemma_mod_bound(out as int, l as int);
            assert(l * (out / l) <= out);
            assert(false);
        }
        if l == 0 {
            assert(l * r == 0);
        }
    }
}

/// `q` and `r` are the quotient and remainder when `a == q * b + r`, `0 <= r < b`.
pub proof fn lemma_div_unique(a: int, b: int, q: int, r: int)
    requires
        b > 0,
        a == q * b + r,
        0 <= r < b,
    ensures
        q == a / b,
        r == a % b,
{
    vstd::arithmetic::div_mod::lemma_fundamental_div_mod_converse(a, b, q, r);
}

/// The eight big-endian bytes of a `u64`.
pub open spec fn u64_be(x: u64) -> Seq<u8> {
    Seq::new(8, |i: int| ((x as nat / pow256((7 - i) as nat)) % 256) as u8)
}

/// The big-endian bytes of `x` denote `x`.
pub proof fn lemma_u64_be_value(x: u64)
    ensures
        be_value(u64_be(x)) == x,
{
    lemma_u64_be_suffix(x, 8);
    assert(u64_be(x).skip(0) =~= u64_be(x));
    lemma_pow256_8();
    vstd::arithmetic::div_mod::lemma_small_mod(x as nat, pow256(8));
}

proof fn lemma_u64_be_suffix(x: u64, k: nat)
    requires
        k <= 8,
    ensures
        be_value(u64_be(x).skip(8 - k)) == x as nat % pow256(k),
    decreases k,
{
    let s = u64_be(x);
    if k == 0 {
        assert(s.skip(8) =~= Seq::<u8>::empty());
        assert(x as nat % 1 == 0);
    } else {
        let k1 = (k - 1) as nat;
        lemma_u64_be_suffix(x, k1);
        let j = 8 - k;
        lemma_be_skip_step(s, j);
        let p = pow256(k1);
        lemma_pow256_positive(k1);
        assert(pow256(k) == p * 256);
        assert((7 - j) as nat == k1);
        vstd::arithmetic::div_mod::lemma_mod_breakdown(x as int, p as int, 256);
        assert(s[j] as nat * p == p * s[j] as nat) by (nonlinear_arith);
    }
}

/// The eight big-endian bytes of `x`, as `u64::to_be_bytes` gives them.
pub fn u64_to_be_bytes(x: u64) -> (r: Vec<u8>)
    ensures
        r@ == u64_be(x),
        be_value(r@) == x,
{
    let mut out = zero_vec(8);
    let mut y: u64 = x;
    let mut k: usize = 0;
    proof {
        assert(out@.skip(8) =~= Seq::<u8>::empty());
        assert(pow256(0) == 1);
        assert(x as nat % 1 == 0);
        assert(x as nat / 1 == x);
    }
    while k < 8
        invariant
            k <= 8,
            out.len() == 8,
            y == x as nat / pow256(k as nat),
            forall|j: int| 8 - k <= j < 8 ==> out@[j] == u64_be(x)[j],
            be_value(out@.skip(8 - k)) == x as nat % pow256(k as nat),
        decreases 8 - k,
    {
        let j: usize = 7 - k;
        let d: u8 = (y % 256) as u8;
        let ghost old_out = out@;
        out.set(j, d);
        proof {
            let p = pow256(k as nat);
            lemma_pow256_positive(k as nat);
            assert(pow256((k + 1) as nat) == p * 256);
            vstd::arithmetic::div_mod::lemma_div_denominator(x as int, p as int, 256);
            vstd::arithmetic::div_mod::lemma_mod_breakdown(x as int, p as int, 256);
            lemma_be_set_step(old_out, out@, j as int, d);
            assert(old_out.skip(j + 1) == old_out.skip(8 - k));
            assert((8 - j - 1) as nat == k as nat);
            assert(d == (x as nat / p) % 256);
            assert(be_value(out@.skip(j as int)) == d * p + x as nat % p);
            assert(d * p == p * d) by (nonlinear_arith);
            assert(be_value(out@.skip(j as int)) == x as nat % pow256((k + 1) as nat));
            assert(out@[j as int] == u64_be(x)[j as int]);
        }
        y = y / 256;
        k = k + 1;
    }
    proof {
        assert(out@.skip(0) =~= out@);
        assert(out@ =~= u64_be(x));
        lemma_pow256_8();
        vstd::arithmetic::div_mod::lemma_small_mod(x as nat, pow256(8));
    }
    out
}

} // verus!
