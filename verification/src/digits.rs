//! Natural numbers written as big-endian base-256 digit sequences, and the
//! schoolbook algorithms on them.
use vstd::prelude::*;

verus! {

/// `256^n`.
pub open spec fn pow256(n: nat) -> nat
    decreases n,
{
    if n == 0 {
        1
    } else {
        256 * pow256((n - 1) as nat)
    }
}

/// The value of a big-endian base-256 digit sequence.
pub open spec fn be_value(s: Seq<u8>) -> nat
    decreases s.len(),
{
    if s.len() == 0 {
        0
    } else {
        be_value(s.drop_last()) * 256 + s.last() as nat
    }
}

/// A digit sequence with no leading zero byte.
pub open spec fn canonical(s: Seq<u8>) -> bool {
    s.len() == 0 || s[0] != 0
}

pub proof fn lemma_pow256_positive(n: nat)
    ensures
        pow256(n) >= 1,
    decreases n,
{
    if n > 0 {
        lemma_pow256_positive((n - 1) as nat);
    }
}

pub proof fn lemma_pow256_monotone(m: nat, n: nat)
    requires
        m <= n,
    ensures
        pow256(m) <= pow256(n),
    decreases n,
{
    if m < n {
        lemma_pow256_monotone(m, (n - 1) as nat);
        lemma_pow256_positive((n - 1) as nat);
    }
}

pub proof fn lemma_be_push(s: Seq<u8>, d: u8)
    ensures
        be_value(s.push(d)) == be_value(s) * 256 + d,
{
    assert(s.push(d).drop_last() =~= s);
}

pub proof fn lemma_be_bound(s: Seq<u8>)
    ensures
        be_value(s) < pow256(s.len()),
    decreases s.len(),
{
    if s.len() > 0 {
        let t = s.drop_last();
        lemma_be_bound(t);
        let v = be_value(t);
        let p = pow256(t.len());
        assert(v * 256 + s.last() < p * 256) by (nonlinear_arith)
            requires
                v < p,
                s.last() < 256,
        ;
    }
}

/// The value of a concatenation.
pub proof fn lemma_be_concat(s: Seq<u8>, t: Seq<u8>)
    ensures
        be_value(s + t) == be_value(s) * pow256(t.len()) + be_value(t),
    decreases t.len(),
{
    if t.len() == 0 {
        assert(s + t =~= s);
        assert(pow256(0) == 1);
        assert(be_value(t) == 0);
        assert(be_value(s) * pow256(t.len()) == be_value(s) * 1);
    } else {
        let t0 = t.drop_last();
        lemma_be_concat(s, t0);
        assert((s + t).drop_last() =~= s + t0);
        assert((s + t).last() == t.last());
        assert(be_value(s + t) == be_value(s + t0) * 256 + t.last());
        assert(be_value(t) == be_value(t0) * 256 + t.last());
        assert(pow256(t.len()) == 256 * pow256(t0.len()));
        let a = be_value(s);
        let p = pow256(t0.len());
        let b = be_value(t0);
        let x = t.last();
        assert((a * p + b) * 256 + x == a * (256 * p) + (b * 256 + x)) by (nonlinear_arith);
        assert(be_value(s + t0) == a * p + b);
        assert(be_value(s + t) == (a * p + b) * 256 + x);
    }
}

/// A digit followed by a tail.
pub proof fn lemma_be_prepend(d: u8, t: Seq<u8>)
    ensures
        be_value(seq![d] + t) == d * pow256(t.len()) + be_value(t),
{
    lemma_be_concat(seq![d], t);
    assert(seq![d].drop_last() =~= Seq::<u8>::empty());
    assert(be_value(Seq::<u8>::empty()) == 0);
    assert(be_value(seq![d]) == d);
}

pub open spec fn zeros(n: nat) -> Seq<u8> {
    Seq::new(n, |i: int| 0u8)
}

pub proof fn lemma_be_zeros(n: nat)
    ensures
        be_value(zeros(n)) == 0,
    decreases n,
{
    if n > 0 {
        lemma_be_zeros((n - 1) as nat);
        assert(zeros(n).drop_last() =~= zeros((n - 1) as nat));
    }
}

/// Leading zeros do not change the value.
pub proof fn lemma_be_zero_prefix(n: nat, t: Seq<u8>)
    ensures
        be_value(zeros(n) + t) == be_value(t),
{
    lemma_be_concat(zeros(n), t);
    lemma_be_zeros(n);
}

/// A canonical sequence of length `n > 0` is at least `256^(n-1)`.
pub proof fn lemma_be_lower_bound(s: Seq<u8>)
    requires
        s.len() > 0,
        s[0] != 0,
    ensures
        be_value(s) >= pow256((s.len() - 1) as nat),
{
    let t = s.drop_first();
    assert(s =~= seq![s[0]] + t);
    lemma_be_prepend(s[0], t);
    let p = pow256(t.len());
    assert(s[0] * p >= p) by (nonlinear_arith)
        requires
            s[0] >= 1,
            p >= 0,
    ;
}

/// A canonical sequence whose value is below `256^k` has at most `k` digits.
pub proof fn lemma_canonical_len(s: Seq<u8>, k: nat)
    requires
        canonical(s),
        be_value(s) < pow256(k),
    ensures
        s.len() <= k,
{
    if s.len() > k {
        lemma_be_lower_bound(s);
        lemma_pow256_monotone(k, (s.len() - 1) as nat);
    }
}


/// `s` with leading zeros up to length `n`.
pub open spec fn padded(s: Seq<u8>, n: nat) -> Seq<u8> {
    zeros((n - s.len()) as nat) + s
}

pub proof fn lemma_padded(s: Seq<u8>, n: nat)
    requires
        s.len() <= n,
    ensures
        padded(s, n).len() == n,
        be_value(padded(s, n)) == be_value(s),
{
    lemma_be_zero_prefix((n - s.len()) as nat, s);
}

/// Splitting off the leading digit of a suffix.
pub proof fn lemma_be_skip_step(s: Seq<u8>, j: int)
    requires
        0 <= j < s.len(),
    ensures
        be_value(s.skip(j)) == s[j] * pow256((s.len() - j - 1) as nat) + be_value(s.skip(j + 1)),
{
    assert(s.skip(j) =~= seq![s[j]] + s.skip(j + 1));
    lemma_be_prepend(s[j], s.skip(j + 1));
}

/// Writing digit `d` at position `j` extends the known suffix by one digit.
pub proof fn lemma_be_set_step(old_s: Seq<u8>, new_s: Seq<u8>, j: int, d: u8)
    requires
        0 <= j < old_s.len(),
        new_s == old_s.update(j, d),
    ensures
        be_value(new_s.skip(j)) == d * pow256((old_s.len() - j - 1) as nat) + be_value(
            old_s.skip(j + 1),
        ),
{
    assert(new_s.skip(j + 1) =~= old_s.skip(j + 1));
    lemma_be_skip_step(new_s, j);
}

/// The byte at position `j` of `s` padded to length `n`.
fn padded_digit(s: &Vec<u8>, n: usize, j: usize) -> (d: u8)
    requires
        s.len() <= n,
        j < n,
    ensures
        d == padded(s@, n as nat)[j as int],
{
    let off = n - s.len();
    if j >= off {
        s[j - off]
    } else {
        0
    }
}

pub fn zero_vec(n: usize) -> (v: Vec<u8>)
    ensures
        v@ == zeros(n as nat),
{
    let mut v: Vec<u8> = Vec::new();
    let mut i: usize = 0;
    while i < n
        invariant
            i <= n,
            v@ == zeros(i as nat),
        decreases n - i,
    {
        v.push(0);
        i = i + 1;
        assert(v@ =~= zeros(i as nat));
    }
    v
}

/// Drops leading zero bytes.
pub fn trim(v: &Vec<u8>) -> (r: Vec<u8>)
    ensures
        be_value(r@) == be_value(v@),
        canonical(r@),
        r.len() <= v.len(),
        canonical(v@) ==> r@ == v@,
{
    let n = v.len();
    let mut k: usize = 0;
    while k < n && v[k] == 0
        invariant
            k <= n,
            n == v.len(),
            v@.take(k as int) == zeros(k as nat),
        decreases n - k,
    {
        k = k + 1;
        assert(v@.take(k as int) =~= zeros(k as nat));
    }
    let mut r: Vec<u8> = Vec::new();
    let mut i: usize = k;
    while i < n
        invariant
            k <= i <= n,
            n == v.len(),
            r@ == v@.subrange(k as int, i as int),
        decreases n - i,
    {
        r.push(v[i]);
        i = i + 1;
        assert(r@ =~= v@.subrange(k as int, i as int));
    }
    proof {
        assert(r@ =~= v@.skip(k as int));
        assert(v@ =~= zeros(k as nat) + v@.skip(k as int));
        lemma_be_zero_prefix(k as nat, v@.skip(k as int));
        if canonical(v@) && v.len() > 0 {
            assert(k == 0);
            assert(r@ =~= v@);
        }
    }
    r
}

proof fn lemma_add_step(da: nat, db: nat, carry: nat, s: nat, d: nat, c2: nat, p: nat, o: nat, ra: nat, rb: nat)
    requires
        s == da + db + carry,
        d == s % 256,
        c2 == s / 256,
        o + carry * p == ra + rb,
    ensures
        d * p + o + c2 * (256 * p) == (da * p + ra) + (db * p + rb),
{
    assert(s == d + 256 * c2);
    assert(d * p + c2 * (256 * p) == (d + 256 * c2) * p) by (nonlinear_arith);
    assert((da + db + carry) * p == da * p + db * p + carry * p) by (nonlinear_arith);
}

/// The sum of two digit sequences.
pub fn add_digits(a: &Vec<u8>, b: &Vec<u8>) -> (c: Vec<u8>)
    requires
        a.len() < 0x4000_0000,
        b.len() < 0x4000_0000,
    ensures
        be_value(c@) == be_value(a@) + be_value(b@),
        canonical(c@),
        c.len() <= if a.len() >= b.len() { a.len() + 1 } else { b.len() + 1 },
{
    let n: usize = if a.len() >= b.len() { a.len() + 1 } else { b.len() + 1 };
    let ghost pa = padded(a@, n as nat);
    let ghost pb = padded(b@, n as nat);
    proof {
        lemma_padded(a@, n as nat);
        lemma_padded(b@, n as nat);
    }
    let mut out = zero_vec(n);
    let mut carry: u8 = 0;
    let mut i: usize = n;
    proof {
        assert(out@.skip(n as int) =~= Seq::<u8>::empty());
        assert(pa.skip(n as int) =~= Seq::<u8>::empty());
        assert(pb.skip(n as int) =~= Seq::<u8>::empty());
    }
    while i > 0
        invariant
            out.len() == n,
            i <= n,
            carry <= 1,
            pa.len() == n,
            pb.len() == n,
            pa == padded(a@, n as nat),
            pb == padded(b@, n as nat),
            a.len() < n,
            b.len() < n,
            be_value(out@.skip(i as int)) + carry * pow256((n - i) as nat) == be_value(
                pa.skip(i as int),
            ) + be_value(pb.skip(i as int)),
        decreases i,
    {
        let j = i - 1;
        let da = padded_digit(a, n, j);
        let db = padded_digit(b, n, j);
        let s: u16 = da as u16 + db as u16 + carry as u16;
        let d: u8 = (s % 256) as u8;
        let c2: u8 = (s / 256) as u8;
        let ghost old_out = out@;
        out.set(j, d);
        proof {
            let p = pow256((n - i) as nat);
            lemma_be_set_step(old_out, out@, j as int, d);
            lemma_be_skip_step(pa, j as int);
            lemma_be_skip_step(pb, j as int);
            assert(old_out.skip(i as int) == old_out.skip(j + 1));
            assert(pow256((n - j) as nat) == 256 * p);
            lemma_add_step(
                da as nat,
                db as nat,
                carry as nat,
                s as nat,
                d as nat,
                c2 as nat,
                p,
                be_value(old_out.skip(i as int)),
                be_value(pa.skip(i as int)),
                be_value(pb.skip(i as int)),
            );
        }
        carry = c2;
        i = j;
    }
    proof {
        assert(out@.skip(0) =~= out@);
        assert(pa.skip(0) =~= pa);
        assert(pb.skip(0) =~= pb);
        lemma_be_bound(a@);
        lemma_be_bound(b@);
        lemma_pow256_monotone(a.len() as nat, (n - 1) as nat);
        lemma_pow256_monotone(b.len() as nat, (n - 1) as nat);
        assert(pow256(n as nat) == 256 * pow256((n - 1) as nat));
        if carry == 1 {
            assert(false);
        }
    }
    trim(&out)
}

proof fn lemma_sub_step(
    da: int,
    db: int,
    borrow: int,
    d: int,
    b2: int,
    p: int,
    o: int,
    ra: int,
    rb: int,
)
    requires
        d - 256 * b2 == da - db - borrow,
        o - borrow * p == ra - rb,
    ensures
        d * p + o - b2 * (256 * p) == (da * p + ra) - (db * p + rb),
{
    assert(d * p - b2 * (256 * p) == (d - 256 * b2) * p) by (nonlinear_arith);
    assert((da - db - borrow) * p == da * p - db * p - borrow * p) by (nonlinear_arith);
}

/// The difference `a - b`, with whether it borrowed (that is, whether `a < b`).
pub fn sub_digits(a: &Vec<u8>, b: &Vec<u8>) -> (res: (Vec<u8>, bool))
    requires
        a.len() < 0x4000_0000,
        b.len() < 0x4000_0000,
    ensures
        res.1 <==> be_value(a@) < be_value(b@),
        !res.1 ==> be_value(res.0@) == be_value(a@) - be_value(b@),
        canonical(res.0@),
        res.0.len() <= if a.len() >= b.len() { a.len() } else { b.len() },
{
    let n: usize = if a.len() >= b.len() { a.len() } else { b.len() };
    let ghost pa = padded(a@, n as nat);
    let ghost pb = padded(b@, n as nat);
    proof {
        lemma_padded(a@, n as nat);
        lemma_padded(b@, n as nat);
    }
    let mut out = zero_vec(n);
    let mut borrow: u8 = 0;
    let mut i: usize = n;
    proof {
        assert(out@.skip(n as int) =~= Seq::<u8>::empty());
        assert(pa.skip(n as int) =~= Seq::<u8>::empty());
        assert(pb.skip(n as int) =~= Seq::<u8>::empty());
    }
    while i > 0
        invariant
            out.len() == n,
            i <= n,
            borrow <= 1,
            pa.len() == n,
            pb.len() == n,
            pa == padded(a@, n as nat),
            pb == padded(b@, n as nat),
            a.len() <= n,
            b.len() <= n,
            be_value(out@.skip(i as int)) - borrow * pow256((n - i) as nat) == be_value(
                pa.skip(i as int),
            ) - be_value(pb.skip(i as int)),
        decreases i,
    {
        let j = i - 1;
        let da = padded_digit(a, n, j);
        let db = padded_digit(b, n, j);
        let d: u8;
        let b2: u8;
        if (da as u16) >= (db as u16) + (borrow as u16) {
            d = da - db - borrow;
            b2 = 0;
        } else {
            d = ((da as u16) + 256 - (db as u16) - (borrow as u16)) as u8;
            b2 = 1;
        }
        let ghost old_out = out@;
        out.set(j, d);
        proof {
            let p = pow256((n - i) as nat);
            lemma_be_set_step(old_out, out@, j as int, d);
            lemma_be_skip_step(pa, j as int);
            lemma_be_skip_step(pb, j as int);
            assert(old_out.skip(i as int) == old_out.skip(j + 1));
            assert(pow256((n - j) as nat) == 256 * p);
            lemma_sub_step(
                da as int,
                db as int,
                borrow as int,
                d as int,
                b2 as int,
                p as int,
                be_value(old_out.skip(i as int)) as int,
                be_value(pa.skip(i as int)) as int,
                be_value(pb.skip(i as int)) as int,
            );
        }
        borrow = b2;
        i = j;
    }
    proof {
        assert(out@.skip(0) =~= out@);
        assert(pa.skip(0) =~= pa);
        assert(pb.skip(0) =~= pb);
        lemma_be_bound(out@);
    }
    (trim(&out), borrow == 1)
}

proof fn lemma_mul_small_step(
    da: nat,
    m: nat,
    carry: nat,
    s: nat,
    d: nat,
    c2: nat,
    p: nat,
    o: nat,
    ra: nat,
)
    requires
        s == da * m + carry,
        d == s % 256,
        c2 == s / 256,
        o + carry * p == ra * m,
    ensures
        d * p + o + c2 * (256 * p) == (da * p + ra) * m,
{
    assert(s == d + 256 * c2);
    assert(d * p + c2 * (256 * p) == (d + 256 * c2) * p) by (nonlinear_arith);
    assert((da * m + carry) * p == da * p * m + carry * p) by (nonlinear_arith);
    assert((da * p + ra) * m == da * p * m + ra * m) by (nonlinear_arith);
}

/// The product of a digit sequence and a single digit.
pub fn mul_digit(a: &Vec<u8>, m: u8) -> (c: Vec<u8>)
    requires
        a.len() < 0x4000_0000,
    ensures
        be_value(c@) == be_value(a@) * m,
        canonical(c@),
        c.len() <= a.len() + 1,
{
    let n: usize = a.len() + 1;
    let ghost pa = padded(a@, n as nat);
    proof {
        lemma_padded(a@, n as nat);
    }
    let mut out = zero_vec(n);
    let mut carry: u8 = 0;
    let mut i: usize = n;
    proof {
        assert(out@.skip(n as int) =~= Seq::<u8>::empty());
        assert(pa.skip(n as int) =~= Seq::<u8>::empty());
    }
    while i > 0
        invariant
            out.len() == n,
            i <= n,
            pa.len() == n,
            pa == padded(a@, n as nat),
            a.len() < n,
            be_value(out@.skip(i as int)) + carry * pow256((n - i) as nat) == be_value(
                pa.skip(i as int),
            ) * m,
        decreases i,
    {
        let j = i - 1;
        let da = padded_digit(a, n, j);
        assert((da as u32) * (m as u32) <= 255 * 255) by (nonlinear_arith)
            requires
                da <= 255,
                m <= 255,
        ;
        let s: u32 = (da as u32) * (m as u32) + carry as u32;
        let d: u8 = (s % 256) as u8;
        let c2: u8 = (s / 256) as u8;
        let ghost old_out = out@;
        out.set(j, d);
        proof {
            let p = pow256((n - i) as nat);
            lemma_be_set_step(old_out, out@, j as int, d);
            lemma_be_skip_step(pa, j as int);
            assert(old_out.skip(i as int) == old_out.skip(j + 1));
            assert(pow256((n - j) as nat) == 256 * p);
            lemma_mul_small_step(
                da as nat,
                m as nat,
                carry as nat,
                s as nat,
                d as nat,
                c2 as nat,
                p,
                be_value(old_out.skip(i as int)),
                be_value(pa.skip(i as int)),
            );
        }
        carry = c2;
        i = j;
    }
    proof {
        assert(out@.skip(0) =~= out@);
        assert(pa.skip(0) =~= pa);
        lemma_be_bound(a@);
        let v = be_value(a@);
        let q = pow256(a.len() as nat);
        assert(pow256(n as nat) == 256 * q);
        assert(v * m < 256 * q) by (nonlinear_arith)
            requires
                v < q,
                m <= 255,
        ;
        if carry > 0 {
            assert(carry * (256 * q) >= 256 * q) by (nonlinear_arith)
                requires
                    carry >= 1,
            ;
            assert(false);
        }
    }
    trim(&out)
}

/// `s` followed by one zero digit.
fn shift_digit(s: &Vec<u8>) -> (r: Vec<u8>)
    ensures
        r@ == s@.push(0),
        be_value(r@) == be_value(s@) * 256,
{
    let mut r: Vec<u8> = Vec::new();
    let mut i: usize = 0;
    while i < s.len()
        invariant
            i <= s.len(),
            r@ == s@.take(i as int),
        decreases s.len() - i,
    {
        r.push(s[i]);
        i = i + 1;
        assert(r@ =~= s@.take(i as int));
    }
    assert(r@ =~= s@);
    r.push(0);
    proof {
        lemma_be_push(s@, 0);
    }
    r
}

/// The product of two digit sequences.
pub fn mul_digits(a: &Vec<u8>, b: &Vec<u8>) -> (c: Vec<u8>)
    requires
        a.len() < 0x1000_0000,
        b.len() < 0x1000_0000,
    ensures
        be_value(c@) == be_value(a@) * be_value(b@),
        canonical(c@),
{
    let mut c: Vec<u8> = Vec::new();
    let mut i: usize = 0;
    proof {
        assert(b@.take(0) =~= Seq::<u8>::empty());
        assert(be_value(b@.take(0)) == 0);
        assert(be_value(c@) == 0);
        assert(be_value(a@) * 0 == 0);
    }
    while i < b.len()
        invariant
            i <= b.len(),
            a.len() < 0x1000_0000,
            b.len() < 0x1000_0000,
            c.len() <= a.len() + 2 * i + 1,
            canonical(c@),
            be_value(c@) == be_value(a@) * be_value(b@.take(i as int)),
        decreases b.len() - i,
    {
        let shifted = shift_digit(&c);
        let part = mul_digit(a, b[i]);
        let next = add_digits(&shifted, &part);
        proof {
            assert(b@.take(i + 1) =~= b@.take(i as int).push(b[i as int]));
            lemma_be_push(b@.take(i as int), b[i as int]);
            let va = be_value(a@);
            let vb = be_value(b@.take(i as int));
            let d = b[i as int];
            assert(va * vb * 256 + va * d == va * (vb * 256 + d)) by (nonlinear_arith);
        }
        c = next;
        i = i + 1;
    }
    proof {
        assert(b@.take(b.len() as int) =~= b@);
    }
    c
}

/// Quotient and remainder: `a == q * b + r` with `r < b`.
pub fn divmod_digits(a: &Vec<u8>, b: &Vec<u8>) -> (res: (Vec<u8>, Vec<u8>))
    requires
        a.len() < 0x1000_0000,
        b.len() < 0x1000_0000,
        be_value(b@) > 0,
    ensures
        be_value(a@) == be_value(res.0@) * be_value(b@) + be_value(res.1@),
        be_value(res.1@) < be_value(b@),
        canonical(res.0@),
        canonical(res.1@),
{
    let ghost bv = be_value(b@);
    let mut q: Vec<u8> = Vec::new();
    let mut r: Vec<u8> = Vec::new();
    let mut i: usize = 0;
    proof {
        assert(a@.take(0) =~= Seq::<u8>::empty());
        lemma_be_bound(b@);
    }
    while i < a.len()
        invariant
            i <= a.len(),
            a.len() < 0x1000_0000,
            b.len() < 0x1000_0000,
            bv == be_value(b@),
            bv > 0,
            bv < pow256(b.len() as nat),
            q.len() == i,
            canonical(r@),
            r.len() <= b.len(),
            be_value(r@) < bv,
            be_value(a@.take(i as int)) == be_value(q@) * bv + be_value(r@),
        decreases a.len() - i,
    {
        let ghost r_prev = be_value(r@);
        let mut pushed = r.clone();
        proof {
            assert(pushed@ =~= r@);
        }
        pushed.push(a[i]);
        proof {
            lemma_be_push(r@, a[i as int]);
        }
        let mut rem = trim(&pushed);
        let ghost r0 = be_value(rem@);
        proof {
            assert(r0 == r_prev * 256 + a[i as int]);
            assert(r_prev * 256 + a[i as int] < 256 * bv) by (nonlinear_arith)
                requires
                    r_prev < bv,
                    a[i as int] < 256,
            ;
        }
        let mut digit: u8 = 0;
        loop
            invariant_except_break
                canonical(rem@),
                rem.len() <= b.len() + 1,
                be_value(rem@) + digit * bv == r0,
                digit <= 255,
                r0 < 256 * bv,
                bv == be_value(b@),
                bv > 0,
                b.len() < 0x1000_0000,
            ensures
                canonical(rem@),
                be_value(rem@) + digit * bv == r0,
                be_value(rem@) < bv,
                rem.len() <= b.len() + 1,
            decreases 256 - digit,
        {
            let (diff, borrow) = sub_digits(&rem, b);
            if borrow {
                break;
            }
            proof {
                let rv = be_value(rem@);
                assert((digit + 1) * bv < 256 * bv) by (nonlinear_arith)
                    requires
                        rv >= bv,
                        rv + digit * bv == r0,
                        r0 < 256 * bv,
                ;
                assert(digit + 1 < 256) by (nonlinear_arith)
                    requires
                        (digit + 1) * bv < 256 * bv,
                        bv > 0,
                ;
                assert((digit + 1) * bv == digit * bv + bv) by (nonlinear_arith);
            }
            rem = diff;
            digit = digit + 1;
        }
        proof {
            lemma_canonical_len(rem@, b.len() as nat);
        }
        let ghost q_prev = be_value(q@);
        let ghost old_q = q@;
        q.push(digit);
        proof {
            lemma_be_push(old_q, digit);
            assert(q@ == old_q.push(digit));
            assert(a@.take(i + 1) =~= a@.take(i as int).push(a[i as int]));
            lemma_be_push(a@.take(i as int), a[i as int]);
            let rv = be_value(rem@);
            assert((q_prev * bv + r_prev) * 256 + a[i as int] == (q_prev * 256 + digit) * bv + rv)
                by (nonlinear_arith)
                requires
                    r0 == r_prev * 256 + a[i as int],
                    rv + digit * bv == r0,
            ;
        }
        r = rem;
        i = i + 1;
    }
    proof {
        assert(a@.take(a.len() as int) =~= a@);
    }
    (trim(&q), r)
}

/// Division by a single nonzero digit: `a == q * m + r` with `r < m`.
pub fn div_digit(a: &Vec<u8>, m: u8) -> (res: (Vec<u8>, u8))
    requires
        m > 0,
    ensures
        be_value(a@) == be_value(res.0@) * m + res.1,
        res.1 < m,
        canonical(res.0@),
        res.0.len() <= a.len(),
{
    let mut q: Vec<u8> = Vec::new();
    let mut r: u8 = 0;
    let mut i: usize = 0;
    proof {
        assert(a@.take(0) =~= Seq::<u8>::empty());
        assert(be_value(q@) * m == 0) by (nonlinear_arith)
            requires
                be_value(q@) == 0,
        ;
    }
    while i < a.len()
        invariant
            i <= a.len(),
            m > 0,
            q.len() == i,
            r < m,
            be_value(a@.take(i as int)) == be_value(q@) * m + r,
        decreases a.len() - i,
    {
        let t: u32 = (r as u32) * 256 + (a[i] as u32);
        assert(t < 256 * (m as u32)) by (nonlinear_arith)
            requires
                t == r * 256 + a[i as int],
                r < m,
                a[i as int] < 256,
        ;
        let d: u8 = (t / (m as u32)) as u8;
        let r2: u8 = (t % (m as u32)) as u8;
        proof {
            assert(t / (m as u32) < 256) by (nonlinear_arith)
                requires
                    t < 256 * m,
                    m > 0,
            ;
            assert(t == d * m + r2) by (nonlinear_arith)
                requires
                    d == t / (m as u32),
                    r2 == t % (m as u32),
                    m > 0,
            ;
            let ghost qv = be_value(q@);
            assert(a@.take(i + 1) =~= a@.take(i as int).push(a[i as int]));
            lemma_be_push(a@.take(i as int), a[i as int]);
            lemma_be_push(q@, d);
            assert((qv * m + r) * 256 + a[i as int] == (qv * 256 + d) * m + r2) by (nonlinear_arith)
                requires
                    t == r * 256 + a[i as int],
                    t == d * m + r2,
            ;
        }
        q.push(d);
        r = r2;
        i = i + 1;
    }
    proof {
        assert(a@.take(a.len() as int) =~= a@);
    }
    (trim(&q), r)
}

/// First differing digit decides the order of two sequences of one length.
pub proof fn lemma_be_first_difference(s: Seq<u8>, t: Seq<u8>, i: int)
    requires
        s.len() == t.len(),
        0 <= i < s.len(),
        s.take(i) == t.take(i),
        s[i] < t[i],
    ensures
        be_value(s) < be_value(t),
{
    let k = (s.len() - i - 1) as nat;
    assert(s =~= s.take(i + 1) + s.skip(i + 1));
    assert(t =~= t.take(i + 1) + t.skip(i + 1));
    lemma_be_concat(s.take(i + 1), s.skip(i + 1));
    lemma_be_concat(t.take(i + 1), t.skip(i + 1));
    assert(s.take(i + 1) =~= s.take(i).push(s[i]));
    assert(t.take(i + 1) =~= t.take(i).push(t[i]));
    lemma_be_push(s.take(i), s[i]);
    lemma_be_push(t.take(i), t[i]);
    lemma_be_bound(s.skip(i + 1));
    let c = be_value(s.take(i));
    let p = pow256(k);
    let rs = be_value(s.skip(i + 1));
    let rt = be_value(t.skip(i + 1));
    let x = s[i] as nat;
    let y = t[i] as nat;
    assert((c * 256 + x) * p + rs < (c * 256 + y) * p + rt) by (nonlinear_arith)
        requires
            rs < p,
            x < y,
            rt >= 0,
    ;
}

/// Between canonical sequences, the longer one is the larger.
pub proof fn lemma_be_longer(s: Seq<u8>, t: Seq<u8>)
    requires
        canonical(t),
        s.len() < t.len(),
    ensures
        be_value(s) < be_value(t),
{
    lemma_be_bound(s);
    lemma_be_lower_bound(t);
    lemma_pow256_monotone(s.len(), (t.len() - 1) as nat);
}

/// The value of `n` bytes `0xff`.
pub proof fn lemma_be_all_ff(s: Seq<u8>)
    requires
        forall|i: int| 0 <= i < s.len() ==> s[i] == 0xff,
    ensures
        be_value(s) + 1 == pow256(s.len()),
    decreases s.len(),
{
    if s.len() > 0 {
        lemma_be_all_ff(s.drop_last());
    }
}

pub proof fn lemma_pow256_8()
    ensures
        pow256(8) == 0x1_0000_0000_0000_0000,
{
    reveal_with_fuel(pow256, 9);
}

/// Compares two sequences of one length digit by digit from the front.
pub fn compare_same_length(a: &Vec<u8>, b: &Vec<u8>) -> (r: i8)
    requires
        a.len() == b.len(),
    ensures
        (r == 0) == (a@ == b@),
        r < 0 ==> be_value(a@) < be_value(b@),
        r > 0 ==> be_value(a@) > be_value(b@),
{
    let mut i: usize = 0;
    while i < a.len()
        invariant
            i <= a.len(),
            a.len() == b.len(),
            a@.take(i as int) == b@.take(i as int),
        decreases a.len() - i,
    {
        if a[i] > b[i] {
            proof {
                lemma_be_first_difference(b@, a@, i as int);
            }
            return 1;
        }
        if a[i] < b[i] {
            proof {
                lemma_be_first_difference(a@, b@, i as int);
            }
            return -1;
        }
        i = i + 1;
        assert(a@.take(i as int) =~= b@.take(i as int));
    }
    assert(a@ =~= a@.take(i as int));
    assert(b@ =~= b@.take(i as int));
    0
}

/// Sequences of one length with one value are the same sequence.
pub proof fn lemma_be_injective(s: Seq<u8>, t: Seq<u8>)
    requires
        s.len() == t.len(),
        be_value(s) == be_value(t),
    ensures
        s == t,
    decreases s.len(),
{
    if s.len() > 0 {
        let a = be_value(s.drop_last());
        let b = be_value(t.drop_last());
        let x = s.last() as int;
        let y = t.last() as int;
        assert(a * 256 + x == b * 256 + y);
        assert(x == y && a == b) by (nonlinear_arith)
            requires
                a * 256 + x == b * 256 + y,
                0 <= x < 256,
                0 <= y < 256,
                a >= 0,
                b >= 0,
        ;
        lemma_be_injective(s.drop_last(), t.drop_last());
        assert(s =~= s.drop_last().push(s.last()));
        assert(t =~= t.drop_last().push(t.last()));
    } else {
        assert(s =~= t);
    }
}

/// Whether two byte sequences are the same.
pub fn bytes_equal(a: &[u8], b: &[u8]) -> (r: bool)
    ensures
        r == (a@ == b@),
{
    if a.len() != b.len() {
        return false;
    }
    let mut i: usize = 0;
    while i < a.len()
        invariant
            i <= a.len(),
            a.len() == b.len(),
            a@.take(i as int) == b@.take(i as int),
        decreases a.len() - i,
    {
        if a[i] != b[i] {
            assert(a@[i as int] != b@[i as int]);
            return false;
        }
        i = i + 1;
        assert(a@.take(i as int) =~= b@.take(i as int));
    }
    assert(a@ =~= a@.take(i as int));
    assert(b@ =~= b@.take(i as int));
    true
}

/// A vector holding the bytes of `a`.
pub fn copy_bytes(a: &[u8]) -> (r: Vec<u8>)
    ensures
        r@ == a@,
{
    let mut r: Vec<u8> = Vec::new();
    let mut i: usize = 0;
    while i < a.len()
        invariant
            i <= a.len(),
            r@ == a@.take(i as int),
        decreases a.len() - i,
    {
        r.push(a[i]);
        i = i + 1;
        assert(r@ =~= a@.take(i as int));
    }
    assert(r@ =~= a@);
    r
}

/// Appends the bytes of `b` to `a`.
pub fn append_bytes(a: &mut Vec<u8>, b: &[u8])
    ensures
        final(a)@ == old(a)@ + b@,
{
    let mut i: usize = 0;
    while i < b.len()
        invariant
            i <= b.len(),
            a@ == old(a)@ + b@.take(i as int),
        decreases b.len() - i,
    {
        a.push(b[i]);
        i = i + 1;
        assert(a@ =~= old(a)@ + b@.take(i as int));
    }
    assert(b@.take(i as int) =~= b@);
}

} // verus!
