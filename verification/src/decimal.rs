//! Decimal text of `U256` values.
use crate::u256::{u256_max, U256};
use vstd::prelude::*;
use vstd::string::StringSliceAdditionalSpecFns;

verus! {

/// The ASCII decimal digits of `n`, most significant first; `"0"` for zero.
pub open spec fn dec_digits(n: nat) -> Seq<u8>
    decreases n,
{
    if n < 10 {
        seq![(48 + n) as u8]
    } else {
        dec_digits(n / 10).push((48 + n % 10) as u8)
    }
}

/// The characters of ASCII bytes.
pub open spec fn ascii_chars(s: Seq<u8>) -> Seq<char> {
    s.map_values(|b: u8| b as char)
}

/// `String::from_utf8` on ASCII bytes: the string of the same characters.
#[verifier::external_body]
fn ascii_string(bytes: Vec<u8>) -> (r: String)
    requires
        forall|i: int| 0 <= i < bytes.len() ==> bytes@[i] < 128,
    ensures
        r@ == ascii_chars(bytes@),
{
    String::from_utf8(bytes).unwrap_or_default()
}

pub proof fn lemma_dec_digits_ascii(n: nat)
    ensures
        dec_digits(n).len() >= 1,
        forall|i: int| 0 <= i < dec_digits(n).len() ==> 48 <= #[trigger] dec_digits(n)[i] < 58,
    decreases n,
{
    if n >= 10 {
        lemma_dec_digits_ascii(n / 10);
    }
}

/// The decimal digits of `v`.
pub fn decimal_digits(v: &U256) -> (r: Vec<u8>)
    requires
        v.wf(),
    ensures
        r@ == dec_digits(v.value()),
{
    let ten = U256::from_u64(10);
    let mut x = v.clone();
    // digits found so far, least significant first
    let mut rev: Vec<u8> = Vec::new();
    proof {
        v.lemma_wf_bound();
    }
    while x.ge(&ten)
        invariant
            x.wf(),
            ten.wf(),
            ten.value() == 10,
            dec_digits(v.value()) == dec_digits(x.value()) + rev@.reverse(),
        decreases x.value(),
    {
        let q = x.div(&ten);
        let r = x.rem(&ten);
        proof {
            crate::digits::lemma_pow256_8();
            r.lemma_len_bound(8);
        }
        let d = r.u64();
        let ghost old_rev = rev@;
        rev.push((48 + d) as u8);
        proof {
            assert(rev@.reverse() =~= seq![(48 + d) as u8] + old_rev.reverse());
            assert(dec_digits(x.value()) == dec_digits(q.value()).push((48 + d) as u8));
            assert(dec_digits(q.value()).push((48 + d) as u8) + old_rev.reverse() =~= dec_digits(q.value())
                + rev@.reverse());
        }
        x = q;
    }
    proof {
        crate::digits::lemma_pow256_8();
        x.lemma_len_bound(8);
    }
    let d = x.u64();
    let ghost old_rev = rev@;
    rev.push((48 + d) as u8);
    proof {
        assert(rev@.reverse() =~= seq![(48 + d) as u8] + old_rev.reverse());
    }
    let mut out: Vec<u8> = Vec::new();
    let mut i: usize = rev.len();
    while i > 0
        invariant
            i <= rev.len(),
            out@ == rev@.reverse().take((rev.len() - i) as int),
        decreases i,
    {
        i = i - 1;
        out.push(rev[i]);
        assert(out@ =~= rev@.reverse().take((rev.len() - i) as int));
    }
    assert(out@ =~= rev@.reverse());
    out
}

impl U256 {
    /// The decimal text of the value.
    pub fn to_string(&self) -> (r: String)
        requires
            self.wf(),
        ensures
            r@ == ascii_chars(dec_digits(self.value())),
    {
        let digits = decimal_digits(self);
        proof {
            lemma_dec_digits_ascii(self.value());
        }
        ascii_string(digits)
    }
}

/// `s` without the `'0'` characters at its end.
pub open spec fn strip_trailing_zeros(s: Seq<u8>) -> Seq<u8>
    decreases s.len(),
{
    if s.len() > 0 && s.last() == 48 {
        strip_trailing_zeros(s.drop_last())
    } else {
        s
    }
}

/// `s` with `'0'` characters in front up to length `len`.
pub open spec fn zero_padded(s: Seq<u8>, len: nat) -> Seq<u8> {
    if s.len() >= len {
        s
    } else {
        Seq::new((len - s.len()) as nat, |i: int| 48u8) + s
    }
}

/// `v` scaled down by `10^d`: its integer part, then, if any fractional
/// digit is not zero, a point and the `d` fractional digits without their
/// trailing zeros.
pub open spec fn decimal_spec(v: nat, d: nat) -> Seq<u8> {
    if v == 0 {
        seq![48u8]
    } else {
        let all = zero_padded(dec_digits(v), d + 1);
        let split = all.len() - d;
        let frac = strip_trailing_zeros(all.skip(split));
        if frac.len() == 0 {
            all.take(split)
        } else {
            all.take(split) + seq![46u8] + frac
        }
    }
}

/// `v` as a decimal number with `decimals` fractional digits, trailing
/// zeros of the fraction dropped.
pub fn decimal(v: &U256, decimals: u32) -> (r: String)
    requires
        v.wf(),
        decimals < usize::MAX,
    ensures
        r@ == ascii_chars(decimal_spec(v.value(), decimals as nat)),
{
    if v.is_zero() {
        let mut z: Vec<u8> = Vec::new();
        z.push(48);
        assert(z@ =~= seq![48u8]);
        return ascii_string(z);
    }
    let ds = decimal_digits(v);
    let d = decimals as usize;
    let ghost dn = decimals as nat;
    proof {
        lemma_dec_digits_ascii(v.value());
    }
    let mut all: Vec<u8> = Vec::new();
    if ds.len() <= d {
        let pad = d - ds.len() + 1;
        let mut i: usize = 0;
        while i < pad
            invariant
                i <= pad,
                all@ == Seq::new(i as nat, |j: int| 48u8),
            decreases pad - i,
        {
            all.push(48);
            i = i + 1;
            assert(all@ =~= Seq::new(i as nat, |j: int| 48u8));
        }
    }
    crate::digits::append_bytes(&mut all, ds.as_slice());
    let ghost padded = zero_padded(dec_digits(v.value()), dn + 1);
    proof {
        if ds.len() <= d {
            assert(all@ =~= padded);
        } else {
            assert(all@ =~= padded);
        }
        assert forall|i: int| 0 <= i < all.len() implies 48 <= #[trigger] all@[i] < 58 by {
            if ds.len() <= d && i < (d - ds.len() + 1) {
            } else {
                let k = i - (all.len() - ds.len());
                assert(all@[i] == dec_digits(v.value())[k]);
            }
        }
    }
    let n = all.len();
    let split = n - d;
    let mut e: usize = n;
    proof {
        assert(all@.skip(split as int) =~= all@.subrange(split as int, n as int));
    }
    while e > split && all[e - 1] == 48
        invariant
            split <= e <= n,
            n == all.len(),
            strip_trailing_zeros(all@.skip(split as int)) == strip_trailing_zeros(
                all@.subrange(split as int, e as int),
            ),
        decreases e,
    {
        proof {
            let sub = all@.subrange(split as int, e as int);
            assert(sub.drop_last() =~= all@.subrange(split as int, e - 1));
        }
        e = e - 1;
    }
    let ghost frac = all@.subrange(split as int, e as int);
    proof {
        assert(strip_trailing_zeros(frac) == frac);
    }
    let mut out: Vec<u8> = Vec::new();
    let mut i: usize = 0;
    while i < split
        invariant
            i <= split,
            split <= n,
            n == all.len(),
            out@ == all@.take(i as int),
        decreases split - i,
    {
        out.push(all[i]);
        i = i + 1;
        assert(out@ =~= all@.take(i as int));
    }
    if e > split {
        out.push(46);
        let mut j: usize = split;
        let ghost head = out@;
        while j < e
            invariant
                split <= j <= e,
                e <= n,
                n == all.len(),
                out@ == head + all@.subrange(split as int, j as int),
            decreases e - j,
        {
            out.push(all[j]);
            j = j + 1;
            assert(out@ =~= head + all@.subrange(split as int, j as int));
        }
        assert(out@ =~= all@.take(split as int) + seq![46u8] + frac);
    }
    proof {
        assert forall|k: int| 0 <= k < out.len() implies #[trigger] out@[k] < 128 by {
            if k < split {
                assert(out@[k] == all@[k]);
            } else if k > split {
                assert(out@[k] == all@[k - 1]);
            }
        }
    }
    ascii_string(out)
}

/// `10^n`.
pub open spec fn pow10(n: nat) -> nat
    decreases n,
{
    if n == 0 {
        1
    } else {
        10 * pow10((n - 1) as nat)
    }
}

/// The number that `U256::from_str` reads from the bytes `s`: each byte less
/// `b'0'` taken as a base-ten digit, the last byte the least significant.
pub open spec fn decimal_value(s: Seq<u8>) -> nat
    decreases s.len(),
{
    if s.len() == 0 {
        0
    } else {
        decimal_value(s.drop_last()) * 10 + (s.last() - 48) as nat
    }
}

/// Every byte is at least `b'0'`.
pub open spec fn digit_bytes(s: Seq<u8>) -> bool {
    forall|i: int| 0 <= i < s.len() ==> #[trigger] s[i] >= 48
}

proof fn lemma_decimal_concat(s: Seq<u8>, t: Seq<u8>)
    requires
        digit_bytes(s + t),
    ensures
        decimal_value(s + t) == decimal_value(s) * pow10(t.len()) + decimal_value(t),
    decreases t.len(),
{
    if t.len() == 0 {
        assert(s + t =~= s);
        assert(pow10(0) == 1);
        assert(decimal_value(t) == 0);
        assert(decimal_value(s) * pow10(t.len()) == decimal_value(s) * 1);
    } else {
        let t0 = t.drop_last();
        assert((s + t).drop_last() =~= s + t0);
        assert(digit_bytes(s + t0)) by {
            assert forall|i: int| 0 <= i < (s + t0).len() implies #[trigger] (s + t0)[i] >= 48 by {
                assert((s + t0)[i] == (s + t)[i]);
            }
        }
        lemma_decimal_concat(s, t0);
        assert((s + t).last() == t.last());
        let a = decimal_value(s);
        let p = pow10(t0.len());
        let b = decimal_value(t0);
        let x = (t.last() - 48) as nat;
        assert((a * p + b) * 10 + x == a * (10 * p) + (b * 10 + x)) by (nonlinear_arith);
        assert(decimal_value(s + t) == decimal_value(s + t0) * 10 + x);
        assert(decimal_value(t) == b * 10 + x);
        assert(pow10(t.len()) == 10 * p);
    }
}

proof fn lemma_pow10_monotone(m: nat, n: nat)
    requires
        m <= n,
    ensures
        1 <= pow10(m) <= pow10(n),
    decreases n,
{
    if n > 0 && m < n {
        lemma_pow10_monotone(m, (n - 1) as nat);
    } else if n > 0 {
        lemma_pow10_monotone((n - 1) as nat, (n - 1) as nat);
    }
}

impl U256 {
    /// Reads a decimal number: every byte less `b'0'` is taken as a digit,
    /// the last the least significant. The place value is multiplied by ten
    /// once per byte, so the bytes must be at least `b'0'`, at most 77 of
    /// them, and the number must fit in 256 bits.
    pub fn from_str(s: &str) -> (r: Result<U256, &'static str>)
        requires
            digit_bytes(s.spec_bytes()),
            s.spec_bytes().len() <= 77,
            decimal_value(s.spec_bytes()) <= u256_max(),
        ensures
            r matches Ok(u) && u.wf() && u.value() == decimal_value(s.spec_bytes()),
    {
        let bytes = s.as_bytes();
        let n = bytes.len();
        let ghost b = bytes@;
        let mut r = U256::zero();
        let mut base = U256::one();
        let ten = U256::from_u64(10);
        let mut j: usize = n;
        proof {
            assert(b.skip(n as int) =~= Seq::<u8>::empty());
            crate::utils::lemma_u256_max_value();
            lemma_pow10_monotone(0, 77);
            reveal_with_fuel(pow10, 78);
        }
        while j > 0
            invariant
                j <= n,
                n == b.len(),
                n <= 77,
                b == bytes@,
                digit_bytes(b),
                decimal_value(b) <= u256_max(),
                pow10(77) < u256_max(),
                r.wf(),
                base.wf(),
                ten.wf(),
                ten.value() == 10,
                r.value() == decimal_value(b.skip(j as int)),
                base.value() == pow10((n - j) as nat),
            decreases j,
        {
            let i = j - 1;
            let c = bytes[i];
            let d = U256::from_u64((c - 48) as u64);
            proof {
                assert(b =~= b.take(i as int) + b.skip(i as int));
                lemma_decimal_concat(b.take(i as int), b.skip(i as int));
                assert(b.skip(i as int) =~= seq![c] + b.skip(j as int));
                lemma_decimal_concat(seq![c], b.skip(j as int));
                assert(seq![c].drop_last() =~= Seq::<u8>::empty());
                assert(decimal_value(Seq::<u8>::empty()) == 0);
                assert(seq![c].last() == c);
                assert(decimal_value(seq![c]) == (c - 48) as nat);
                let hi = decimal_value(b.take(i as int));
                let p = pow10((n - i) as nat);
                let low = decimal_value(b.skip(i as int));
                assert(hi * p >= 0) by (nonlinear_arith);
                assert(low <= decimal_value(b));
                assert(d.value() * base.value() == (c - 48) as nat * pow10((n - j) as nat));
                lemma_pow10_monotone((n - i) as nat, 77);
                assert(pow10((n - i) as nat) == 10 * pow10((n - j) as nat));
            }
            r = r.add(&d.mul(&base));
            base = base.mul(&ten);
            j = i;
        }
        proof {
            assert(b.skip(0) =~= b);
        }
        Ok(r)
    }
}

} // verus!
