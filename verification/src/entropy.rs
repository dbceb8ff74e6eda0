use vstd::prelude::*;
use vstd::arithmetic::div_mod::{
    lemma_div_is_ordered, lemma_div_multiples_vanish, lemma_multiply_divide_le,
    lemma_multiply_divide_lt, lemma_div_pos_is_pos,
};

use crate::feature::Label;

verus! {

// Entropy is computed in exact binary fixed point: one bit of entropy is
// `ENTROPY_ONE` units. All arithmetic below is integer arithmetic; the
// base-two logarithm is computed to sixteen fractional bits by repeated
// squaring, truncating each square back to thirty-two fractional bits.
pub const ENTROPY_ONE: u64 = 65536;

/// The denominator after repeatedly doubling `den` until `num < 2 * den`.
pub open spec fn norm_den(num: int, den: int) -> int
    decreases num - den when 1 <= den <= num
{
    if num < 2 * den {
        den
    } else {
        norm_den(num, 2 * den)
    }
}

/// How many doublings `norm_den` performs: the integer part of log2(num/den).
pub open spec fn norm_count(num: int, den: int) -> int
    decreases num - den when 1 <= den <= num
{
    if num < 2 * den {
        0
    } else {
        1 + norm_count(num, 2 * den)
    }
}

/// `k` rounds of squaring a ratio held in thirty-two fractional bits,
/// accumulating one output bit per round into `acc`.
pub open spec fn frac_go(x: int, k: nat, acc: int) -> int
    decreases k
{
    if k == 0 {
        acc
    } else {
        let y = (x * x) / 0x1_0000_0000;
        if y >= 0x2_0000_0000 {
            frac_go(y / 2, (k - 1) as nat, 2 * acc + 1)
        } else {
            frac_go(y, (k - 1) as nat, 2 * acc)
        }
    }
}

/// log2(num/den) in fixed point: the integer part from normalization, then
/// sixteen fractional bits from repeated squaring.
pub open spec fn lg2_fixed_spec(num: int, den: int) -> int
    recommends
        1 <= den <= num,
        num < 0x1_0000_0000,
{
    norm_count(num, den) * 65536 + frac_go((num * 0x1_0000_0000) / norm_den(num, den), 16, 0)
}

/// Computes `lg2_fixed_spec`: log2(num/den) with sixteen fractional bits.
pub fn lg2_fixed(num: u64, den: u64) -> (r: u64)
    requires
        1 <= den <= num,
        num < 0x1_0000_0000,
    ensures
        r == lg2_fixed_spec(num as int, den as int),
        r < 0x200000,
{
    let mut d: u64 = den;
    let mut cnt: u64 = 0;
    proof {
        assert(den >> 0u64 == den) by (bit_vector);
    }
    while num >= 2 * d
        invariant
            1 <= d <= num,
            num < 0x1_0000_0000,
            d >> cnt >= 1,
            cnt <= 31,
            norm_den(num as int, d as int) == norm_den(num as int, den as int),
            cnt + norm_count(num as int, d as int) == norm_count(num as int, den as int),
        decreases num - d,
    {
        proof {
            let d0 = d;
            let c0 = cnt;
            assert((((2 * d0) as u64) >> ((c0 + 1) as u64)) >= 1 && ((c0 + 1) as u64) <= 31)
                by (bit_vector)
                requires
                    d0 >> c0 >= 1,
                    c0 <= 31,
                    ((2 * d0) as u64) == 2 * d0,
                    2 * d0 < 0x1_0000_0000,
            ;
        }
        d = 2 * d;
        cnt = cnt + 1;
    }
    proof {
        assert(norm_den(num as int, d as int) == d as int);
        assert(norm_count(num as int, d as int) == 0);
    }
    let x_init: u64 = (((num as u128) * 0x1_0000_0000u128) / (d as u128)) as u64;
    proof {
        let n: int = num as int;
        let dd: int = d as int;
        assert(n * 0x1_0000_0000 >= dd * 0x1_0000_0000) by (nonlinear_arith)
            requires n >= dd;
        lemma_div_is_ordered(dd * 0x1_0000_0000, n * 0x1_0000_0000, dd);
        lemma_div_multiples_vanish(0x1_0000_0000, dd);
        assert((dd * 0x1_0000_0000) / dd == 0x1_0000_0000);
        assert(n * 0x1_0000_0000 < dd * 0x2_0000_0000) by (nonlinear_arith)
            requires n < 2 * dd;
        lemma_multiply_divide_lt(n * 0x1_0000_0000, dd, 0x2_0000_0000);
        assert(x_init as int == (n * 0x1_0000_0000) / dd);
    }
    let ghost x0: int = x_init as int;
    let mut x: u64 = x_init;
    let mut acc: u64 = 0;
    let mut i: u64 = 0;
    proof {
        assert((1u64 << 0u64) == 1u64) by (bit_vector);
    }
    while i < 16
        invariant
            i <= 16,
            0x1_0000_0000 <= x < 0x2_0000_0000,
            acc < (1u64 << i),
            i <= 16 ==> (1u64 << i) <= 65536,
            frac_go(x0, 16, 0) == frac_go(x as int, (16 - i) as nat, acc as int),
        decreases 16 - i,
    {
        proof {
            let xi: int = x as int;
            assert(xi * xi >= 0x1_0000_0000int * 0x1_0000_0000) by (nonlinear_arith)
                requires xi >= 0x1_0000_0000;
            assert(xi * xi < 0x2_0000_0000int * 0x2_0000_0000) by (nonlinear_arith)
                requires 0 <= xi < 0x2_0000_0000;
        }
        let y: u64 = (((x as u128) * (x as u128)) / 0x1_0000_0000u128) as u64;
        proof {
            let xi: int = x as int;
            lemma_div_is_ordered(0x1_0000_0000int * 0x1_0000_0000, xi * xi, 0x1_0000_0000);
            lemma_div_multiples_vanish(0x1_0000_0000, 0x1_0000_0000);
            lemma_multiply_divide_lt(xi * xi, 0x1_0000_0000, 0x4_0000_0000);
            assert(y as int == (xi * xi) / 0x1_0000_0000);
            let a0 = acc;
            let i0 = i;
            assert(((2 * a0 + 1) as u64) < (1u64 << ((i0 + 1) as u64))
                && (1u64 << ((i0 + 1) as u64)) <= 65536u64)
                by (bit_vector)
                requires
                    a0 < (1u64 << i0),
                    i0 <= 15,
                    (1u64 << i0) <= 65536u64,
            ;
        }
        if y >= 0x2_0000_0000 {
            acc = 2 * acc + 1;
            x = y / 2;
        } else {
            acc = 2 * acc;
            x = y;
        }
        i = i + 1;
    }
    proof {
        assert(frac_go(x as int, 0, acc as int) == acc as int);
        assert(acc < 65536);
    }
    cnt * 65536 + acc
}

/// One entropy contribution in fixed point: (part/whole) * log2(whole/part),
/// or zero when `part` is zero (a class with no occurrences contributes
/// nothing).
pub open spec fn entropy_term_spec(part: int, whole: int) -> int
    recommends
        0 <= part <= whole,
        1 <= whole,
{
    if part <= 0 {
        0
    } else {
        (part * lg2_fixed_spec(whole, part)) / whole
    }
}

/// Computes `entropy_term_spec`.
pub fn entropy_term(part: u64, whole: u64) -> (r: u64)
    requires
        part <= whole,
        1 <= whole,
        whole < 0x1_0000_0000,
    ensures
        r == entropy_term_spec(part as int, whole as int),
        r < 0x200000,
{
    if part == 0 {
        return 0;
    }
    let lg = lg2_fixed(whole, part);
    proof {
        let p: int = part as int;
        let l: int = lg as int;
        assert(p * l < 0x20_0000_0000_0000) by (nonlinear_arith)
            requires 0 <= p < 0x1_0000_0000, 0 <= l < 0x200000;
    }
    let r: u64 = (((part as u128) * (lg as u128)) / (whole as u128)) as u64;
    proof {
        let p: int = part as int;
        let w: int = whole as int;
        let l: int = lg as int;
        assert(p * l <= w * l) by (nonlinear_arith)
            requires p <= w, l >= 0;
        assert(w * l == l * w) by (nonlinear_arith);
        lemma_multiply_divide_le(p * l, w, l);
        assert(p * l >= 0) by (nonlinear_arith)
            requires p >= 0, l >= 0;
        lemma_div_pos_is_pos(p * l, w);
        assert(r as int == (p * l) / w);
    }
    r
}

/// The distinct values of `s`, in order of first occurrence.
pub open spec fn dedup_seq<A>(s: Seq<A>) -> Seq<A>
    decreases s.len()
{
    if s.len() == 0 {
        Seq::empty()
    } else {
        let d = dedup_seq(s.drop_last());
        if d.contains(s.last()) {
            d
        } else {
            d.push(s.last())
        }
    }
}

/// How many elements of `s` equal `x`.
pub open spec fn count_eq<A>(s: Seq<A>, x: A) -> int
    decreases s.len()
{
    if s.len() == 0 {
        0
    } else {
        count_eq(s.drop_last(), x) + if s.last() == x { 1int } else { 0int }
    }
}

/// Sum of the fixed-point entropy contributions of the values listed in `d`.
pub open spec fn entropy_sum<A>(s: Seq<A>, d: Seq<A>) -> int
    decreases d.len()
{
    if d.len() == 0 {
        0
    } else {
        entropy_sum(s, d.drop_last()) + entropy_term_spec(
            count_eq(s, d.last()),
            s.len() as int,
        )
    }
}

/// Shannon entropy of a sequence, in fixed point (`ENTROPY_ONE` units per
/// bit): the sum, over the distinct values of `s`, of each value's
/// contribution (count/len) * log2(len/count).
pub open spec fn spec_entropy<A>(s: Seq<A>) -> int {
    entropy_sum(s, dedup_seq(s))
}

/// A count of equal elements never exceeds the length.
pub proof fn lemma_count_le<A>(s: Seq<A>, x: A)
    ensures
        0 <= count_eq(s, x) <= s.len(),
    decreases s.len(),
{
    if s.len() > 0 {
        lemma_count_le(s.drop_last(), x);
    }
}

/// An element occurs in `s` exactly when its count is positive.
pub proof fn lemma_count_contains<A>(s: Seq<A>, x: A)
    ensures
        count_eq(s, x) >= 1 <==> s.contains(x),
    decreases s.len(),
{
    if s.len() > 0 {
        lemma_count_contains(s.drop_last(), x);
        lemma_count_le(s.drop_last(), x);
        if s.last() == x {
            assert(s[s.len() - 1] == x);
            assert(s.contains(x));
        } else {
            if s.contains(x) {
                let i = choose|i: int| 0 <= i < s.len() && s[i] == x;
                assert(s.drop_last()[i] == x);
                assert(s.drop_last().contains(x));
            }
            if count_eq(s, x) >= 1 {
                let i = choose|i: int| 0 <= i < s.drop_last().len() && s.drop_last()[i] == x;
                assert(s[i] == x);
                assert(s.contains(x));
            }
        }
    }
}

/// Deduplication keeps exactly the values that occur.
pub proof fn lemma_dedup_contains<A>(s: Seq<A>, x: A)
    ensures
        dedup_seq(s).contains(x) <==> s.contains(x),
    decreases s.len(),
{
    if s.len() > 0 {
        lemma_dedup_contains(s.drop_last(), x);
        let d = dedup_seq(s.drop_last());
        if s.last() == x {
            assert(s[s.len() - 1] == x);
            assert(s.contains(x));
            if !d.contains(x) {
                assert(dedup_seq(s)[d.len() as int] == x);
                assert(dedup_seq(s).contains(x));
            }
        } else {
            if s.contains(x) {
                let i = choose|i: int| 0 <= i < s.len() && s[i] == x;
                assert(s.drop_last()[i] == x);
                assert(s.drop_last().contains(x));
                if d.contains(x) {
                    let k = choose|k: int| 0 <= k < d.len() && d[k] == x;
                    if !d.contains(s.last()) {
                        assert(dedup_seq(s)[k] == x);
                    }
                    assert(dedup_seq(s).contains(x));
                }
            }
            if dedup_seq(s).contains(x) {
                let k = choose|k: int| 0 <= k < dedup_seq(s).len() && dedup_seq(s)[k] == x;
                if !d.contains(s.last()) && k == d.len() {
                    assert(dedup_seq(s)[k] == s.last());
                    assert(false);
                }
                assert(d[k] == x);
                assert(d.contains(x));
                let i = choose|i: int| 0 <= i < s.drop_last().len() && s.drop_last()[i] == x;
                assert(s[i] == x);
                assert(s.contains(x));
            }
        }
    }
}

/// Deduplication never lengthens a sequence.
pub proof fn lemma_dedup_len<A>(s: Seq<A>)
    ensures
        0 <= dedup_seq(s).len() <= s.len(),
    decreases s.len(),
{
    if s.len() > 0 {
        lemma_dedup_len(s.drop_last());
    }
}

/// The distinct labels of `labels`, in order of first occurrence.
pub fn distinct_labels<L: Label>(labels: &Vec<L>) -> (d: Vec<L>)
    ensures
        d@ == dedup_seq(labels@),
{
    let mut d: Vec<L> = Vec::new();
    let n = labels.len();
    let mut i: usize = 0;
    while i < n
        invariant
            i <= n,
            n == labels.len(),
            d@ == dedup_seq(labels@.take(i as int)),
        decreases n - i,
    {
        let x = labels[i];
        let dl = d.len();
        let mut found = false;
        let mut j: usize = 0;
        while j < dl
            invariant
                j <= dl,
                dl == d.len(),
                found <==> exists|k: int| 0 <= k < j && d@[k] == x,
            decreases dl - j,
        {
            if d[j].eq_label(&x) {
                found = true;
            }
            j = j + 1;
        }
        proof {
            assert(found <==> d@.contains(x));
            assert(labels@.take(i + 1).drop_last() =~= labels@.take(i as int));
            assert(labels@.take(i + 1).last() == labels@[i as int]);
        }
        if !found {
            d.push(x);
        }
        i = i + 1;
    }
    proof {
        assert(labels@.take(n as int) =~= labels@);
    }
    d
}

/// How many labels of `labels` equal `x`.
pub fn count_matching<L: Label>(labels: &Vec<L>, x: &L) -> (c: u64)
    requires
        labels.len() < 0x1_0000_0000,
    ensures
        c == count_eq(labels@, *x),
{
    let mut c: u64 = 0;
    let n = labels.len();
    let mut i: usize = 0;
    while i < n
        invariant
            i <= n,
            n == labels.len(),
            labels.len() < 0x1_0000_0000,
            c <= i,
            c == count_eq(labels@.take(i as int), *x),
        decreases n - i,
    {
        proof {
            assert(labels@.take(i + 1).drop_last() =~= labels@.take(i as int));
            assert(labels@.take(i + 1).last() == labels@[i as int]);
        }
        if labels[i].eq_label(x) {
            c = c + 1;
        }
        i = i + 1;
    }
    proof {
        assert(labels@.take(n as int) =~= labels@);
    }
    c
}

/// Shannon entropy of a sequence of labels, in fixed point: `ENTROPY_ONE`
/// units are one bit. Returns exactly `spec_entropy` of the sequence.
pub fn entropy_binary<L: Label>(labels: &Vec<L>) -> (r: u64)
    requires
        labels.len() < 0x1_0000_0000,
    ensures
        r == spec_entropy(labels@),
{
    let d = distinct_labels(labels);
    proof {
        lemma_dedup_len(labels@);
    }
    let n = labels.len() as u64;
    let dl = d.len();
    let mut sum: u64 = 0;
    let mut j: usize = 0;
    while j < dl
        invariant
            j <= dl,
            dl == d.len(),
            d@ == dedup_seq(labels@),
            d.len() <= labels.len(),
            labels.len() < 0x1_0000_0000,
            n == labels.len(),
            sum <= (j as int) * 0x200000,
            sum == entropy_sum(labels@, d@.take(j as int)),
        decreases dl - j,
    {
        proof {
            lemma_count_le(labels@, d@[j as int]);
            assert(d@.take(j + 1).drop_last() =~= d@.take(j as int));
            assert(d@.take(j + 1).last() == d@[j as int]);
        }
        let c = count_matching(labels, &d[j]);
        let t = entropy_term(c, n);
        sum = sum + t;
        j = j + 1;
    }
    proof {
        assert(d@.take(dl as int) =~= d@);
    }
    sum
}

/// The normalization count is never negative.
proof fn lemma_norm_count_nonneg(num: int, den: int)
    requires
        1 <= den <= num,
    ensures
        norm_count(num, den) >= 0,
    decreases num - den,
{
    if num >= 2 * den {
        lemma_norm_count_nonneg(num, 2 * den);
    }
}

/// Squaring rounds never drive the bit accumulator negative.
proof fn lemma_frac_go_nonneg(x: int, k: nat, acc: int)
    requires
        acc >= 0,
    ensures
        frac_go(x, k, acc) >= 0,
    decreases k,
{
    if k > 0 {
        let y = (x * x) / 0x1_0000_0000;
        assert(x * x >= 0) by (nonlinear_arith);
        lemma_div_pos_is_pos(x * x, 0x1_0000_0000);
        if y >= 0x2_0000_0000 {
            lemma_frac_go_nonneg(y / 2, (k - 1) as nat, 2 * acc + 1);
        } else {
            lemma_frac_go_nonneg(y, (k - 1) as nat, 2 * acc);
        }
    }
}

/// The fixed-point log2 of a ratio of at least one is never negative.
pub proof fn lemma_lg2_nonneg(num: int, den: int)
    requires
        1 <= den <= num,
    ensures
        lg2_fixed_spec(num, den) >= 0,
{
    lemma_norm_count_nonneg(num, den);
    lemma_frac_go_nonneg((num * 0x1_0000_0000) / norm_den(num, den), 16, 0);
}

/// No entropy contribution is negative.
pub proof fn lemma_entropy_term_nonneg(part: int, whole: int)
    requires
        0 <= part <= whole,
    ensures
        entropy_term_spec(part, whole) >= 0,
{
    if part >= 1 {
        lemma_lg2_nonneg(whole, part);
        let l = lg2_fixed_spec(whole, part);
        assert(part * l >= 0) by (nonlinear_arith)
            requires part >= 0, l >= 0;
        lemma_div_pos_is_pos(part * l, whole);
    }
}

/// A sum of entropy contributions over any list of values is never negative.
pub proof fn lemma_entropy_sum_nonneg<A>(s: Seq<A>, d: Seq<A>)
    ensures
        entropy_sum(s, d) >= 0,
    decreases d.len(),
{
    if d.len() > 0 {
        lemma_entropy_sum_nonneg(s, d.drop_last());
        lemma_count_le(s, d.last());
        lemma_entropy_term_nonneg(count_eq(s, d.last()), s.len() as int);
    }
}

/// Entropy is never negative.
pub proof fn lemma_entropy_nonneg<A>(s: Seq<A>)
    ensures
        spec_entropy(s) >= 0,
{
    lemma_entropy_sum_nonneg(s, dedup_seq(s));
}

/// Sixteen squaring rounds on an exact ratio of one produce no bits.
proof fn lemma_frac_one(k: nat)
    ensures
        frac_go(0x1_0000_0000, k, 0) == 0,
    decreases k,
{
    if k > 0 {
        lemma_div_multiples_vanish(0x1_0000_0000, 0x1_0000_0000);
        assert((0x1_0000_0000int * 0x1_0000_0000) / 0x1_0000_0000 == 0x1_0000_0000);
        lemma_frac_one((k - 1) as nat);
    }
}

/// The fixed-point log2 of a ratio of one is exactly zero.
pub proof fn lemma_lg2_equal(v: int)
    requires
        1 <= v < 0x1_0000_0000,
    ensures
        lg2_fixed_spec(v, v) == 0,
{
    assert(norm_den(v, v) == v);
    assert(norm_count(v, v) == 0);
    lemma_div_multiples_vanish(0x1_0000_0000, v);
    assert((v * 0x1_0000_0000) / v == 0x1_0000_0000);
    lemma_frac_one(16);
}

/// The fixed-point log2 of a ratio of exactly two is exactly one bit.
pub proof fn lemma_lg2_double(c: int)
    requires
        1 <= c,
        2 * c < 0x1_0000_0000,
    ensures
        lg2_fixed_spec(2 * c, c) == 65536,
{
    assert(norm_den(2 * c, c) == norm_den(2 * c, 2 * c));
    assert(norm_den(2 * c, 2 * c) == 2 * c);
    assert(norm_count(2 * c, c) == 1 + norm_count(2 * c, 2 * c));
    assert(norm_count(2 * c, 2 * c) == 0);
    lemma_div_multiples_vanish(0x1_0000_0000, 2 * c);
    assert(((2 * c) * 0x1_0000_0000) / (2 * c) == 0x1_0000_0000);
    lemma_frac_one(16);
}

/// Entropy of a sequence holding a single distinct value is exactly zero,
/// whatever its length.
pub proof fn lemma_entropy_uniform<A>(s: Seq<A>)
    requires
        1 <= s.len() < 0x1_0000_0000,
        forall|i: int| 0 <= i < s.len() ==> #[trigger] s[i] == s[0],
    ensures
        spec_entropy(s) == 0,
{
    lemma_dedup_uniform(s);
    lemma_count_uniform(s);
    let d = dedup_seq(s);
    let n = s.len() as int;
    let e = Seq::<A>::empty();
    assert(entropy_sum(s, e) == 0);
    assert(d.drop_last() =~= e);
    assert(d.last() == s[0]);
    assert(entropy_sum(s, d) == entropy_sum(s, e) + entropy_term_spec(count_eq(s, s[0]), n));
    assert(spec_entropy(s) == entropy_term_spec(n, n));
    lemma_lg2_equal(n);
    assert(n * 0 == 0) by (nonlinear_arith);
    vstd::arithmetic::div_mod::lemma_div_of0(n);
}

/// Deduplicating a uniform sequence leaves its one value.
proof fn lemma_dedup_uniform<A>(s: Seq<A>)
    requires
        s.len() >= 1,
        forall|i: int| 0 <= i < s.len() ==> #[trigger] s[i] == s[0],
    ensures
        dedup_seq(s) == seq![s[0]],
    decreases s.len(),
{
    if s.len() == 1 {
        assert(dedup_seq(s.drop_last()) =~= Seq::<A>::empty());
        assert(dedup_seq(s) =~= seq![s[0]]);
    } else {
        lemma_dedup_uniform(s.drop_last());
        assert(seq![s[0]][0] == s[0]);
        assert(seq![s[0]].contains(s.last()));
        assert(dedup_seq(s) == seq![s[0]]);
    }
}

/// Every element of a uniform sequence counts toward its one value.
proof fn lemma_count_uniform<A>(s: Seq<A>)
    requires
        s.len() >= 1,
        forall|i: int| 0 <= i < s.len() ==> #[trigger] s[i] == s[0],
    ensures
        count_eq(s, s[0]) == s.len(),
    decreases s.len(),
{
    if s.len() == 1 {
        assert(count_eq(s.drop_last(), s[0]) == 0);
        assert(s.last() == s[0]);
    } else {
        assert(forall|i: int| 0 <= i < s.drop_last().len() ==> #[trigger] s.drop_last()[i] == s[i]);
        lemma_count_uniform(s.drop_last());
        assert(s.drop_last()[0] == s[0]);
        assert(s.last() == s[0]);
    }
}

/// When every element is `a` or `b`, the two counts add up to the length.
proof fn lemma_count_two<A>(s: Seq<A>, a: A, b: A)
    requires
        a != b,
        forall|i: int| 0 <= i < s.len() ==> #[trigger] s[i] == a || s[i] == b,
    ensures
        count_eq(s, a) + count_eq(s, b) == s.len(),
    decreases s.len(),
{
    if s.len() > 0 {
        lemma_count_two(s.drop_last(), a, b);
    }
}

/// Deduplicating a sequence over two values that both occur gives the two
/// values, in order of first occurrence.
proof fn lemma_dedup_two<A>(s: Seq<A>, a: A, b: A)
    requires
        a != b,
        forall|i: int| 0 <= i < s.len() ==> #[trigger] s[i] == a || s[i] == b,
        count_eq(s, a) >= 1,
        count_eq(s, b) >= 1,
    ensures
        dedup_seq(s) == seq![a, b] || dedup_seq(s) == seq![b, a],
    decreases s.len(),
{
    lemma_count_le(s, a);
    lemma_count_le(s, b);
    let p = s.drop_last();
    let x = s.last();
    if count_eq(p, a) >= 1 && count_eq(p, b) >= 1 {
        lemma_dedup_two(p, a, b);
        assert(seq![a, b][0] == a && seq![a, b][1] == b);
        assert(seq![b, a][0] == b && seq![b, a][1] == a);
        assert(dedup_seq(p).contains(x));
    } else if count_eq(p, a) >= 1 {
        lemma_count_contains(p, b);
        assert(!p.contains(b));
        assert(forall|i: int| 0 <= i < p.len() ==> #[trigger] p[i] == a);
        lemma_count_contains(p, a);
        assert(p.len() >= 1 && p[0] == a);
        lemma_dedup_uniform(p);
        assert(x == b);
        assert(forall|k: int| 0 <= k < seq![a].len() ==> #[trigger] seq![a][k] == a);
        assert(!seq![a].contains(b));
        assert(dedup_seq(s) =~= seq![a, b]);
    } else if count_eq(p, b) >= 1 {
        lemma_count_contains(p, a);
        assert(!p.contains(a));
        assert(forall|i: int| 0 <= i < p.len() ==> #[trigger] p[i] == b);
        lemma_count_contains(p, b);
        assert(p.len() >= 1 && p[0] == b);
        lemma_dedup_uniform(p);
        assert(x == a);
        assert(forall|k: int| 0 <= k < seq![b].len() ==> #[trigger] seq![b][k] == b);
        assert(!seq![b].contains(a));
        assert(dedup_seq(s) =~= seq![b, a]);
    } else {
        lemma_count_contains(p, a);
        lemma_count_contains(p, b);
        if p.len() > 0 {
            assert(p[0] == a || p[0] == b);
            assert(p.contains(p[0]));
            assert(false);
        }
        assert(count_eq(s, a) + count_eq(s, b) <= 1 + 0);
        assert(false);
    }
}

/// Entropy of a sequence split exactly in half between two distinct values
/// is exactly one bit, whatever its length.
pub proof fn lemma_entropy_balanced<A>(s: Seq<A>, a: A, b: A)
    requires
        a != b,
        forall|i: int| 0 <= i < s.len() ==> #[trigger] s[i] == a || s[i] == b,
        count_eq(s, a) == count_eq(s, b),
        count_eq(s, a) >= 1,
        s.len() < 0x1_0000_0000,
    ensures
        spec_entropy(s) == 65536,
{
    lemma_count_two(s, a, b);
    lemma_dedup_two(s, a, b);
    let c = count_eq(s, a);
    let n = s.len() as int;
    assert(n == 2 * c);
    lemma_lg2_double(c);
    assert(c * 65536 == (2 * c) * 32768) by (nonlinear_arith);
    lemma_div_multiples_vanish(32768, 2 * c);
    assert((c * 65536) / (2 * c) == 32768);
    let d = dedup_seq(s);
    let e = Seq::<A>::empty();
    assert(entropy_sum(s, e) == 0);
    if d == seq![a, b] {
        assert(d.drop_last() =~= seq![a]);
        assert(seq![a].drop_last() =~= e);
        assert(d.last() == b && seq![a].last() == a);
        assert(entropy_sum(s, seq![a]) == entropy_sum(s, e) + entropy_term_spec(count_eq(s, a), n));
        assert(entropy_sum(s, d) == entropy_sum(s, seq![a]) + entropy_term_spec(count_eq(s, b), n));
        assert(spec_entropy(s) == entropy_term_spec(c, n) + entropy_term_spec(c, n));
    } else {
        assert(d == seq![b, a]);
        assert(d.drop_last() =~= seq![b]);
        assert(seq![b].drop_last() =~= e);
        assert(d.last() == a && seq![b].last() == b);
        assert(entropy_sum(s, seq![b]) == entropy_sum(s, e) + entropy_term_spec(count_eq(s, b), n));
        assert(entropy_sum(s, d) == entropy_sum(s, seq![b]) + entropy_term_spec(count_eq(s, a), n));
        assert(spec_entropy(s) == entropy_term_spec(c, n) + entropy_term_spec(c, n));
    }
    assert(entropy_term_spec(c, n) == 32768);
}

} // verus!
