//! The speaking-rate percentage `round(100 * 1.1^rate_adj)`, computed
//! exactly with decimal digit strings.
use vstd::prelude::*;
use vstd::arithmetic::div_mod::{
    lemma_div_denominator,
    lemma_fundamental_div_mod,
    lemma_fundamental_div_mod_converse,
};

verus! {

/// `b` to the power `e`.
pub open spec fn pw(b: nat, e: nat) -> nat
    decreases e,
{
    if e == 0 {
        1
    } else {
        b * pw(b, (e - 1) as nat)
    }
}

/// `a / b` rounded to the nearest integer, halves rounded up.
pub open spec fn round_ratio(a: nat, b: nat) -> nat {
    ((2 * a + b) / (2 * b)) as nat
}

/// `100 * 1.1^r` rounded to the nearest integer, as an exact rational:
/// `100 * 11^r / 10^r` for `r >= 0`, `100 * 10^-r / 11^-r` below.
pub open spec fn exact_rate(r: int) -> nat {
    if r >= 0 {
        round_ratio(100 * pw(11, r as nat), pw(10, r as nat))
    } else {
        round_ratio(100 * pw(10, (-r) as nat), pw(11, (-r) as nat))
    }
}

/// The SSML rate percentage for a SAPI `RateAdj`: `100 * 1.1^r` rounded,
/// at least 1, and `u32::MAX` where it does not fit.
pub open spec fn spec_rate_percent(r: int) -> u32 {
    let v = exact_rate(r);
    if v == 0 {
        1
    } else if v > u32::MAX {
        u32::MAX
    } else {
        v as u32
    }
}

/// The value of a little-endian string of decimal digits.
pub open spec fn le_value(s: Seq<u8>) -> nat
    decreases s.len(),
{
    if s.len() == 0 {
        0
    } else {
        (s[0] + 10 * le_value(s.drop_first())) as nat
    }
}

/// Every entry is a decimal digit.
pub open spec fn small_digits(s: Seq<u8>) -> bool {
    forall|i: int| 0 <= i < s.len() ==> #[trigger] s[i] < 10
}

const CAP: u64 = 4294967296;

proof fn lemma_pw_pos(b: nat, e: nat)
    requires
        b >= 1,
    ensures
        pw(b, e) >= 1,
    decreases e,
{
    if e > 0 {
        lemma_pw_pos(b, (e - 1) as nat);
        assert(b * pw(b, (e - 1) as nat) >= 1) by (nonlinear_arith)
            requires
                b >= 1,
                pw(b, (e - 1) as nat) >= 1,
        ;
    }
}

proof fn lemma_pw_le(e: nat)
    ensures
        pw(10, e) <= pw(11, e),
    decreases e,
{
    if e > 0 {
        lemma_pw_le((e - 1) as nat);
        lemma_pw_pos(10, (e - 1) as nat);
        let a = pw(10, (e - 1) as nat);
        let b = pw(11, (e - 1) as nat);
        assert(10 * a <= 11 * b) by (nonlinear_arith)
            requires
                a <= b,
                a >= 1,
        ;
    }
}

proof fn lemma_le_push(s: Seq<u8>, d: u8)
    ensures
        le_value(s.push(d)) == le_value(s) + pw(10, s.len()) * d,
    decreases s.len(),
{
    if s.len() == 0 {
        assert(s.push(d).drop_first() =~= Seq::<u8>::empty());
        assert(le_value(Seq::<u8>::empty()) == 0);
        assert(le_value(s) == 0);
        assert(pw(10, 0) == 1);
        assert(le_value(s.push(d)) == d);
    } else {
        assert(s.push(d).drop_first() =~= s.drop_first().push(d));
        lemma_le_push(s.drop_first(), d);
        let p = pw(10, (s.len() - 1) as nat);
        let l = le_value(s.drop_first());
        assert(pw(10, s.len()) == 10 * p);
        assert(s.push(d)[0] == s[0]);
        assert(le_value(s.push(d)) == s[0] + 10 * le_value(s.drop_first().push(d)));
        assert(10 * (l + p * d) == 10 * l + (10 * p) * d) by (nonlinear_arith);
    }
}

proof fn lemma_le_bound(s: Seq<u8>)
    requires
        small_digits(s),
    ensures
        le_value(s) < pw(10, s.len()),
    decreases s.len(),
{
    if s.len() > 0 {
        let t = s.drop_first();
        assert(small_digits(t)) by {
            assert forall|i: int| 0 <= i < t.len() implies #[trigger] t[i] < 10 by {
                assert(t[i] == s[i + 1]);
            }
        }
        lemma_le_bound(t);
        assert(s[0] < 10);
    }
}

proof fn lemma_le_skip(s: Seq<u8>, j: int)
    requires
        0 <= j < s.len(),
    ensures
        le_value(s.skip(j)) == s[j] + 10 * le_value(s.skip(j + 1)),
{
    assert(s.skip(j).drop_first() =~= s.skip(j + 1));
}

proof fn lemma_le_split(s: Seq<u8>, k: int)
    requires
        0 <= k <= s.len(),
    ensures
        le_value(s) == le_value(s.take(k)) + pw(10, k as nat) * le_value(s.skip(k)),
    decreases k,
{
    if k == 0 {
        assert(s.take(0) =~= Seq::<u8>::empty());
        assert(s.skip(0) =~= s);
        assert(le_value(Seq::<u8>::empty()) == 0);
        assert(pw(10, 0) == 1);
        assert(1 * le_value(s) == le_value(s));
    } else {
        lemma_le_split(s, k - 1);
        assert(s.take(k) =~= s.take(k - 1).push(s[k - 1]));
        lemma_le_push(s.take(k - 1), s[k - 1]);
        lemma_le_skip(s, k - 1);
        let p = pw(10, (k - 1) as nat);
        let h = le_value(s.skip(k));
        let d = s[k - 1] as nat;
        let lo1 = le_value(s.take(k - 1));
        assert(pw(10, k as nat) == 10 * p);
        assert(le_value(s) == lo1 + p * le_value(s.skip(k - 1)));
        assert(le_value(s.skip(k - 1)) == d + 10 * h);
        assert(le_value(s.take(k)) == lo1 + p * d);
        assert(p * (d + 10 * h) == p * d + (10 * p) * h) by (nonlinear_arith);
    }
}

proof fn lemma_le_skip_mono(s: Seq<u8>, lo: int, j: int)
    requires
        0 <= lo <= j <= s.len(),
    ensures
        le_value(s.skip(j)) <= le_value(s.skip(lo)),
{
    let t = s.skip(lo);
    lemma_le_split(t, j - lo);
    assert(t.skip(j - lo) =~= s.skip(j));
    lemma_pw_pos(10, (j - lo) as nat);
    let p = pw(10, (j - lo) as nat);
    let h = le_value(s.skip(j));
    assert(p * h >= h) by (nonlinear_arith)
        requires
            p >= 1,
    ;
}

/// `v * m` as little-endian decimal digits.
fn mul_small(v: &Vec<u8>, m: u32) -> (out: Vec<u8>)
    requires
        1 <= m <= 100,
        small_digits(v@),
    ensures
        small_digits(out@),
        le_value(out@) == le_value(v@) * m,
{
    let mut out: Vec<u8> = Vec::new();
    let mut carry: u32 = 0;
    let mut i: usize = 0;
    assert(v@.take(0) =~= Seq::<u8>::empty());
    assert(le_value(Seq::<u8>::empty()) == 0);
    while i < v.len()
        invariant
            1 <= m <= 100,
            small_digits(v@),
            i <= v@.len(),
            out@.len() == i,
            small_digits(out@),
            carry < m,
            le_value(v@.take(i as int)) * m == le_value(out@) + pw(10, i as nat) * carry,
        decreases v.len() - i,
    {
        let d = v[i];
        assert(v@[i as int] < 10);
        assert(d as u32 * m <= 900) by (nonlinear_arith)
            requires
                d < 10,
                m <= 100,
        ;
        let x: u32 = d as u32 * m + carry;
        assert(x / 10 < m) by (nonlinear_arith)
            requires
                x == d * m + carry,
                d < 10,
                carry < m,
        ;
        let ghost old_out = out@;
        out.push((x % 10) as u8);
        proof {
            assert(v@.take(i + 1) =~= v@.take(i as int).push(d));
            lemma_le_push(v@.take(i as int), d);
            lemma_le_push(old_out, (x % 10) as u8);
            let p = pw(10, i as nat);
            let a = le_value(v@.take(i as int));
            assert((a + p * d) * m == a * m + p * (d * m)) by (nonlinear_arith);
            assert(p * x == p * (d * m) + p * carry) by (nonlinear_arith)
                requires
                    x == d * m + carry,
            ;
            assert(pw(10, (i + 1) as nat) == 10 * p);
            assert(p * x == p * (x % 10) + (10 * p) * (x / 10)) by (nonlinear_arith)
                requires
                    x == (x / 10) * 10 + x % 10,
            ;
            assert forall|j: int| 0 <= j < out@.len() implies #[trigger] out@[j] < 10 by {
                if j < i {
                    assert(out@[j] == old_out[j]);
                }
            }
        }
        carry = x / 10;
        i = i + 1;
    }
    assert(v@.take(v@.len() as int) =~= v@);
    while carry > 0
        invariant
            small_digits(out@),
            le_value(v@) * m == le_value(out@) + pw(10, out@.len()) * carry,
        decreases carry,
    {
        let ghost old_out = out@;
        out.push((carry % 10) as u8);
        proof {
            lemma_le_push(old_out, (carry % 10) as u8);
            let p = pw(10, old_out.len());
            assert(p * carry == p * (carry % 10) + (10 * p) * (carry / 10)) by (nonlinear_arith)
                requires
                    carry == (carry / 10) * 10 + carry % 10,
            ;
            assert forall|j: int| 0 <= j < out@.len() implies #[trigger] out@[j] < 10 by {
                if j < old_out.len() {
                    assert(out@[j] == old_out[j]);
                }
            }
        }
        carry = carry / 10;
    }
    out
}

/// `v / m`, rounded down, as little-endian decimal digits.
fn div_small(v: &Vec<u8>, m: u32) -> (out: Vec<u8>)
    requires
        1 <= m <= 100,
        small_digits(v@),
    ensures
        small_digits(out@),
        le_value(out@) == le_value(v@) / (m as nat),
{
    let n = v.len();
    let mut q: Vec<u8> = Vec::new();
    let mut k: usize = 0;
    while k < n
        invariant
            k <= n,
            q@.len() == k,
            small_digits(q@),
        decreases n - k,
    {
        q.push(0);
        k = k + 1;
    }
    let mut rem: u32 = 0;
    let mut i: usize = n;
    assert(v@.skip(n as int) =~= Seq::<u8>::empty());
    assert(q@.skip(n as int) =~= Seq::<u8>::empty());
    assert(le_value(Seq::<u8>::empty()) == 0);
    assert(m * 0 == 0) by (nonlinear_arith);
    while i > 0
        invariant
            1 <= m <= 100,
            n == v@.len(),
            small_digits(v@),
            q@.len() == n,
            small_digits(q@),
            i <= n,
            rem < m,
            le_value(v@.skip(i as int)) == m * le_value(q@.skip(i as int)) + rem,
        decreases i,
    {
        let d = v[i - 1];
        assert(v@[i - 1] < 10);
        let x: u32 = rem * 10 + d as u32;
        assert(x / m < 10) by (nonlinear_arith)
            requires
                x == rem * 10 + d,
                d < 10,
                rem < m,
                m >= 1,
        ;
        let ghost old_q = q@;
        q.set(i - 1, (x / m) as u8);
        proof {
            lemma_le_skip(v@, i - 1);
            lemma_le_skip(q@, i - 1);
            assert(q@.skip(i as int) =~= old_q.skip(i as int));
            let big_q = le_value(old_q.skip(i as int));
            lemma_fundamental_div_mod(x as int, m as int);
            assert(d + 10 * (m * big_q + rem) == m * ((x / m) + 10 * big_q) + x % m)
                by (nonlinear_arith)
                requires
                    x == rem * 10 + d,
                    x == m * (x / m) + x % m,
            ;
            assert forall|j: int| 0 <= j < q@.len() implies #[trigger] q@[j] < 10 by {
                if j != i - 1 {
                    assert(q@[j] == old_q[j]);
                }
            }
        }
        rem = x % m;
        i = i - 1;
    }
    assert(v@.skip(0) =~= v@);
    assert(q@.skip(0) =~= q@);
    proof {
        let lq = le_value(q@);
        assert(m * lq == lq * m) by (nonlinear_arith);
        lemma_fundamental_div_mod_converse(
            le_value(v@) as int,
            m as int,
            le_value(q@) as int,
            rem as int,
        );
    }
    q
}

/// The value of the digits of `v` from position `lo` up, or `CAP` where
/// that value is at least `CAP`.
fn capped_value_from(v: &Vec<u8>, lo: usize) -> (r: u64)
    requires
        lo <= v@.len(),
        small_digits(v@),
    ensures
        le_value(v@.skip(lo as int)) < CAP ==> r == le_value(v@.skip(lo as int)),
        le_value(v@.skip(lo as int)) >= CAP ==> r == CAP,
{
    let mut j: usize = v.len();
    let mut acc: u64 = 0;
    assert(v@.skip(j as int) =~= Seq::<u8>::empty());
    while j > lo
        invariant
            lo <= j <= v@.len(),
            small_digits(v@),
            acc < CAP,
            acc == le_value(v@.skip(j as int)),
        decreases j,
    {
        let d = v[j - 1];
        assert(d < 10);
        proof {
            lemma_le_skip(v@, j - 1);
        }
        let next: u64 = acc * 10 + d as u64;
        if next >= CAP {
            proof {
                lemma_le_skip_mono(v@, lo as int, j - 1);
            }
            return CAP;
        }
        acc = next;
        j = j - 1;
    }
    acc
}

/// Rounding a digit string shifted right by `r` places: the digits from
/// `r` up, plus one where the first digit dropped is 5 or more.
proof fn lemma_round_shift(s: Seq<u8>, r: nat)
    requires
        small_digits(s),
        r < s.len(),
    ensures
        round_ratio(le_value(s), pw(10, r)) == le_value(s.skip(r as int)) + (if r > 0 && s[r
            - 1] >= 5 {
            1nat
        } else {
            0nat
        }),
{
    let p = pw(10, r);
    lemma_pw_pos(10, r);
    lemma_le_split(s, r as int);
    let t = s.take(r as int);
    assert(small_digits(t)) by {
        assert forall|i: int| 0 <= i < t.len() implies #[trigger] t[i] < 10 by {
            assert(t[i] == s[i]);
        }
    }
    lemma_le_bound(t);
    let low = le_value(t);
    let hi = le_value(s.skip(r as int));
    let up: bool = r > 0 && s[r - 1] >= 5;
    assert(up <==> 2 * low >= p) by {
        if r > 0 {
            let t1 = s.take(r - 1);
            assert(t =~= t1.push(s[r - 1]));
            lemma_le_push(t1, s[r - 1]);
            assert(small_digits(t1)) by {
                assert forall|i: int| 0 <= i < t1.len() implies #[trigger] t1[i] < 10 by {
                    assert(t1[i] == s[i]);
                }
            }
            lemma_le_bound(t1);
            let q = pw(10, (r - 1) as nat);
            let d = s[r - 1] as nat;
            assert(p == 10 * q);
            assert(low == le_value(t1) + q * d);
            assert(d >= 5 ==> q * d >= 5 * q) by (nonlinear_arith);
            assert(d < 5 ==> q * d <= 4 * q) by (nonlinear_arith)
                requires
                    q >= 1,
            ;
        } else {
            assert(t =~= Seq::<u8>::empty());
        }
    }
    let bump: nat = if up {
        1
    } else {
        0
    };
    let rem: int = if up {
        2 * low - p
    } else {
        (2 * low + p) as int
    };
    assert(0 <= rem < 2 * p);
    if up {
        assert(2 * (low + p * hi) + p == (hi + 1) * (2 * p) + rem) by (nonlinear_arith)
            requires
                rem == 2 * low - p,
        ;
    } else {
        assert(2 * (low + p * hi) + p == hi * (2 * p) + rem) by (nonlinear_arith)
            requires
                rem == 2 * low + p,
        ;
    }
    lemma_fundamental_div_mod_converse(
        (2 * (low + p * hi) + p) as int,
        (2 * p) as int,
        (hi + bump) as int,
        rem,
    );
}

/// Rounding `a / b` is halving, rounded up, the floor of `2a / b`.
proof fn lemma_round_via_double(a: nat, b: nat)
    requires
        b > 0,
    ensures
        round_ratio(a, b) == ((2 * a) / b + 1) / 2,
{
    let q = (2 * a) / b;
    let s = (2 * a) % b;
    assert(2 * a == q * b + s && 0 <= s < b) by (nonlinear_arith)
        requires
            q == (2 * a) / b,
            s == (2 * a) % b,
            b > 0,
    ;
    let t = (q + 1) / 2;
    let rem: int = (q + 1 - 2 * t) * b + s;
    assert(2 * a + b == t * (2 * b) + rem) by (nonlinear_arith)
        requires
            2 * a == q * b + s,
            rem == (q + 1 - 2 * t) * b + s,
    ;
    assert(0 <= rem < 2 * b) by (nonlinear_arith)
        requires
            t == (q + 1) / 2,
            rem == (q + 1 - 2 * t) * b + s,
            0 <= s < b,
            q >= 0,
    ;
    lemma_fundamental_div_mod_converse((2 * a + b) as int, (2 * b) as int, t as int, rem);
}

proof fn lemma_pw_add(b: nat, x: nat, y: nat)
    ensures
        pw(b, x + y) == pw(b, x) * pw(b, y),
    decreases y,
{
    if y > 0 {
        lemma_pw_add(b, x, (y - 1) as nat);
        assert(pw(b, x + y) == b * pw(b, (x + y - 1) as nat));
        let p = pw(b, x);
        let q = pw(b, (y - 1) as nat);
        assert(pw(b, (x + y - 1) as nat) == p * q);
        assert(pw(b, y) == b * q);
        assert(b * (p * q) == p * (b * q)) by (nonlinear_arith);
    } else {
        assert(pw(b, y) == 1);
        assert(pw(b, x) * 1 == pw(b, x));
    }
}

/// Far enough above zero the rate no longer fits in a `u32`.
proof fn lemma_rate_large(r: nat)
    requires
        r >= 200,
    ensures
        100 * pw(11, r) >= CAP * pw(10, r),
    decreases r,
{
    if r == 200 {
        assert(pw(11, 20) == 672749994932560009201nat) by {
            reveal_with_fuel(pw, 21);
        }
        assert(pw(10, 20) == 100000000000000000000nat) by {
            reveal_with_fuel(pw, 21);
        }
        lemma_pw_add(11, 20, 20);
        assert(pw(11, 40) == 452592555681759518058893560348969204658401nat);
        lemma_pw_add(11, 40, 40);
        assert(pw(11, 80) == 204840021458546589812482594366668142542429986589197318528619143395036962199099876801nat);
        lemma_pw_add(11, 80, 80);
        assert(pw(11, 160) == 41959434391137827383599616413062734234385253952307713759192486076840633894747383171680769040812663479969046479448282296393018400636585431393468057723398066173377993601nat);
        lemma_pw_add(11, 160, 40);
        assert(pw(11, 200) == 18990527646046182421218204639541163405858322400098778481272514561037626461679891407506620665933284558135881805238401044949435868367905913020005911442340062387227375955664576836341689587626164144676307968892001nat);
        lemma_pw_add(10, 20, 20);
        assert(pw(10, 40) == 10000000000000000000000000000000000000000nat);
        lemma_pw_add(10, 40, 40);
        assert(pw(10, 80) == 100000000000000000000000000000000000000000000000000000000000000000000000000000000nat);
        lemma_pw_add(10, 80, 80);
        assert(pw(10, 160) == 10000000000000000000000000000000000000000000000000000000000000000000000000000000000000000000000000000000000000000000000000000000000000000000000000000000000000000nat);
        lemma_pw_add(10, 160, 40);
        assert(pw(10, 200) == 100000000000000000000000000000000000000000000000000000000000000000000000000000000000000000000000000000000000000000000000000000000000000000000000000000000000000000000000000000000000000000000000000000000nat);
        assert(100 * pw(11, 200) >= CAP * pw(10, 200));
    } else {
        lemma_rate_large((r - 1) as nat);
        let a = pw(11, (r - 1) as nat);
        let b = pw(10, (r - 1) as nat);
        assert(100 * (11 * a) >= CAP * (10 * b)) by (nonlinear_arith)
            requires
                100 * a >= CAP * b,
        ;
    }
}

/// Far enough below zero the rate rounds to zero.
proof fn lemma_rate_small(m: nat)
    requires
        m >= 60,
    ensures
        200 * pw(10, m) < pw(11, m),
    decreases m,
{
    if m == 60 {
        assert(pw(11, 20) == 672749994932560009201nat) by {
            reveal_with_fuel(pw, 21);
        }
        assert(pw(10, 20) == 100000000000000000000nat) by {
            reveal_with_fuel(pw, 21);
        }
        lemma_pw_add(11, 20, 20);
        lemma_pw_add(11, 40, 20);
        lemma_pw_add(10, 20, 20);
        lemma_pw_add(10, 40, 20);
        assert(200 * pw(10, 60) < pw(11, 60));
    } else {
        lemma_rate_small((m - 1) as nat);
        let a = pw(10, (m - 1) as nat);
        let b = pw(11, (m - 1) as nat);
        assert(200 * (10 * a) < 11 * b) by (nonlinear_arith)
            requires
                200 * a < b,
        ;
    }
}

proof fn lemma_le_div(y: int, k: int, z: int)
    requires
        k > 0,
        y * k <= z,
    ensures
        y <= z / k,
{
    lemma_fundamental_div_mod(z, k);
    let q = z / k;
    assert(y <= q) by (nonlinear_arith)
        requires
            y * k <= z,
            z == k * q + z % k,
            z % k < k,
            k > 0,
    ;
}

/// Rounding preserves the order of ratios.
proof fn lemma_round_mono(a: nat, b: nat, c: nat, d: nat)
    requires
        b > 0,
        d > 0,
        a * d <= c * b,
    ensures
        round_ratio(a, b) <= round_ratio(c, d),
{
    let x: int = ((2 * a + b) / (2 * b)) as int;
    lemma_fundamental_div_mod((2 * a + b) as int, (2 * b) as int);
    assert(x * (2 * b) <= 2 * a + b) by (nonlinear_arith)
        requires
            2 * a + b == (2 * b) * x + (2 * a + b) % (2 * b),
            (2 * a + b) % (2 * b) >= 0,
    ;
    assert(x * (2 * d) <= 2 * c + d) by (nonlinear_arith)
        requires
            x * (2 * b) <= 2 * a + b,
            a * d <= c * b,
            b > 0,
            d > 0,
    ;
    lemma_le_div(x, (2 * d) as int, (2 * c + d) as int);
}

/// A faster SAPI rate never gives a slower SSML rate.
pub proof fn lemma_rate_percent_monotone(r: int)
    ensures
        spec_rate_percent(r) <= spec_rate_percent(r + 1),
{
    if r >= 0 {
        let a = pw(11, r as nat);
        let b = pw(10, r as nat);
        lemma_pw_pos(10, r as nat);
        assert(pw(11, (r + 1) as nat) == 11 * a);
        assert(pw(10, (r + 1) as nat) == 10 * b);
        assert((100 * a) * (10 * b) <= (100 * (11 * a)) * b) by (nonlinear_arith);
        lemma_round_mono(100 * a, b, 100 * (11 * a), 10 * b);
    } else if r == -1 {
        assert(pw(10, 1) == 10 && pw(11, 1) == 11 && pw(10, 0) == 1 && pw(11, 0) == 1) by {
            reveal_with_fuel(pw, 2);
        }
        lemma_round_mono(100 * 10, 11, 100 * 1, 1);
    } else {
        let m = (-r - 1) as nat;
        let a = pw(10, m);
        let b = pw(11, m);
        lemma_pw_pos(11, m);
        assert(pw(10, (m + 1) as nat) == 10 * a);
        assert(pw(11, (m + 1) as nat) == 11 * b);
        assert((100 * (10 * a)) * b <= (100 * a) * (11 * b)) by (nonlinear_arith);
        lemma_round_mono(100 * (10 * a), 11 * b, 100 * a, b);
    }
}

/// The SSML rate is at least 1 and never decreases as the SAPI rate grows.
pub proof fn lemma_rate_percent_ordered(a: int, b: int)
    requires
        a <= b,
    ensures
        1 <= spec_rate_percent(a) <= spec_rate_percent(b),
    decreases b - a,
{
    if a < b {
        lemma_rate_percent_ordered(a, b - 1);
        lemma_rate_percent_monotone(b - 1);
    }
}

/// Convert a SAPI `RateAdj` into an SSML `rate="N%"` value:
/// `100 * 1.1^rate_adj`, rounded, at least 1.
pub fn rate_percent(rate_adj: i32) -> (p: u32)
    ensures
        p == spec_rate_percent(rate_adj as int),
{
    if rate_adj > 200 {
        proof {
            let r = rate_adj as nat;
            lemma_rate_large(r);
            lemma_pw_pos(10, r);
            let a = 100 * pw(11, r);
            let b = pw(10, r);
            assert((2 * a + b) / (2 * b) >= CAP) by (nonlinear_arith)
                requires
                    a >= CAP * b,
                    b >= 1,
            ;
        }
        return u32::MAX;
    }
    if rate_adj < -59 {
        proof {
            let m = (-rate_adj) as nat;
            lemma_rate_small(m);
            lemma_pw_pos(11, m);
            lemma_round_via_double(100 * pw(10, m), pw(11, m));
            assert((2 * (100 * pw(10, m))) / pw(11, m) == 0) by (nonlinear_arith)
                requires
                    200 * pw(10, m) < pw(11, m),
            ;
        }
        return 1;
    }
    if rate_adj >= 0 {
        let r = rate_adj as usize;
        let mut v: Vec<u8> = Vec::new();
        v.push(0);
        v.push(0);
        v.push(1);
        proof {
            reveal_with_fuel(le_value, 4);
            assert(v@.drop_first().drop_first().drop_first() =~= Seq::<u8>::empty());
            assert(le_value(v@) == 100);
        }
        let mut k: usize = 0;
        while k < r
            invariant
                k <= r,
                small_digits(v@),
                le_value(v@) == 100 * pw(11, k as nat),
            decreases r - k,
        {
            v = mul_small(&v, 11);
            k = k + 1;
        }
        while v.len() <= r
            invariant
                small_digits(v@),
                le_value(v@) == 100 * pw(11, r as nat),
            decreases r + 1 - v.len(),
        {
            let ghost old_v = v@;
            v.push(0);
            proof {
                lemma_le_push(old_v, 0);
                assert forall|j: int| 0 <= j < v@.len() implies #[trigger] v@[j] < 10 by {
                    if j < old_v.len() {
                        assert(v@[j] == old_v[j]);
                    }
                }
            }
        }
        let hi = capped_value_from(&v, r);
        let bump: u64 = if r > 0 && v[r - 1] >= 5 {
            1
        } else {
            0
        };
        proof {
            lemma_round_shift(v@, r as nat);
        }
        let total = hi + bump;
        if total > u32::MAX as u64 {
            u32::MAX
        } else if total == 0 {
            1
        } else {
            total as u32
        }
    } else {
        let m = (0 - rate_adj) as usize;
        let mut v: Vec<u8> = Vec::new();
        let mut k: usize = 0;
        while k < m + 2
            invariant
                1 <= m <= 59,
                k <= m + 2,
                v@.len() == k,
                small_digits(v@),
                le_value(v@) == 0,
            decreases m + 2 - k,
        {
            let ghost old_v = v@;
            v.push(0);
            proof {
                lemma_le_push(old_v, 0);
                assert forall|j: int| 0 <= j < v@.len() implies #[trigger] v@[j] < 10 by {
                    if j < old_v.len() {
                        assert(v@[j] == old_v[j]);
                    }
                }
            }
            k = k + 1;
        }
        let ghost zeros = v@;
        v.push(2);
        let ghost n: nat = 200 * pw(10, m as nat);
        proof {
            lemma_le_push(zeros, 2);
            assert(pw(10, (m + 2) as nat) == 100 * pw(10, m as nat)) by {
                reveal_with_fuel(pw, 3);
                assert(pw(10, (m + 2) as nat) == 10 * pw(10, (m + 1) as nat));
                assert(pw(10, (m + 1) as nat) == 10 * pw(10, m as nat));
            }
            assert(le_value(v@) == n);
            assert forall|j: int| 0 <= j < v@.len() implies #[trigger] v@[j] < 10 by {
                if j < zeros.len() {
                    assert(v@[j] == zeros[j]);
                }
            }
        }
        let mut k: usize = 0;
        assert(pw(11, 0) == 1);
        assert(n / 1 == n);
        while k < m
            invariant
                k <= m,
                small_digits(v@),
                le_value(v@) == n / pw(11, k as nat),
            decreases m - k,
        {
            v = div_small(&v, 11);
            proof {
                lemma_pw_pos(11, k as nat);
                lemma_div_denominator(n as int, pw(11, k as nat) as int, 11);
                assert(pw(11, (k + 1) as nat) == 11 * pw(11, k as nat));
                assert(pw(11, k as nat) * 11 == 11 * pw(11, k as nat));
            }
            k = k + 1;
        }
        let q = capped_value_from(&v, 0);
        proof {
            assert(v@.skip(0) =~= v@);
            let b = pw(11, m as nat);
            lemma_pw_pos(11, m as nat);
            lemma_pw_le(m as nat);
            assert(n / b <= 200) by (nonlinear_arith)
                requires
                    n == 200 * pw(10, m as nat),
                    pw(10, m as nat) <= b,
                    b >= 1,
            ;
            lemma_round_via_double(100 * pw(10, m as nat), b);
            assert(2 * (100 * pw(10, m as nat)) == n);
        }
        let rounded = (q + 1) / 2;
        if rounded == 0 {
            1
        } else {
            rounded as u32
        }
    }
}

} // verus!
