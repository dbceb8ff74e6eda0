use vstd::prelude::*;

use crate::feature::{Feature, FeatureIdx, FeatureVector, Label};
use crate::entropy::{
    count_eq, dedup_seq, entropy_term_spec, spec_entropy, entropy_term, entropy_binary,
    distinct_labels, count_matching, lemma_count_le, lemma_dedup_len, lemma_count_contains,
    lemma_dedup_contains,
};

verus! {

/// Why construction failed: the training set was empty, or a subset holding
/// more than one distinct label offered no split candidate at all.
#[derive(Debug)]
pub enum BuildError {
    InvalidInput,
}

/// A node of a binary decision tree: either an internal test owning two
/// children (left holds the instances strictly below the threshold), or a
/// leaf carrying the predicted label.
pub enum DNode<T: FeatureVector, L: Label> {
    Internal {
        ftr_idx: T::FeatureIdx,
        thresh: T::Feature,
        lchild: Box<DNode<T, L>>,
        rchild: Box<DNode<T, L>>,
    },
    Leaf { label: L },
}

/// A binary decision tree: a single root node, immutable once built.
pub struct DTree<T: FeatureVector, L: Label> {
    root: Box<DNode<T, L>>,
}

/// The label reached by deterministic traversal: at each internal node,
/// descend left when the instance's feature value at the node's index is
/// strictly below the node's threshold, right otherwise, until a leaf.
pub open spec fn spec_decide<T: FeatureVector, L: Label>(n: DNode<T, L>, inst: T) -> L
    decreases n,
{
    match n {
        DNode::Leaf { label } => label,
        DNode::Internal { ftr_idx, thresh, lchild, rchild } => {
            if inst.feature_spec(ftr_idx).lt_spec(thresh) {
                spec_decide(*lchild, inst)
            } else {
                spec_decide(*rchild, inst)
            }
        },
    }
}

/// The labels of a training sequence, in order.
pub open spec fn labels_of<T: FeatureVector, L: Label>(s: Seq<(T, L)>) -> Seq<L>
    decreases s.len(),
{
    if s.len() == 0 {
        Seq::empty()
    } else {
        labels_of(s.drop_last()).push(s.last().1)
    }
}

/// The labels of `s` are its pairs' second components.
pub proof fn lemma_labels_of<T: FeatureVector, L: Label>(s: Seq<(T, L)>)
    ensures
        labels_of(s).len() == s.len(),
        forall|i: int| 0 <= i < s.len() ==> labels_of(s)[i] == #[trigger] s[i].1,
    decreases s.len(),
{
    if s.len() > 0 {
        lemma_labels_of(s.drop_last());
        assert forall|i: int| 0 <= i < s.len() implies labels_of(s)[i] == #[trigger] s[i].1 by {
            if i < s.len() - 1 {
                assert(s.drop_last()[i] == s[i]);
                assert(labels_of(s.drop_last())[i] == s.drop_last()[i].1);
            } else {
                assert(labels_of(s)[i] == s.last().1);
            }
        }
    }
}

/// Whether every pair of `s` carries one and the same label.
pub open spec fn is_pure<T: FeatureVector, L: Label>(s: Seq<(T, L)>) -> bool {
    forall|i: int| 0 <= i < s.len() ==> #[trigger] s[i].1 == s[0].1
}

/// The pairs of `s` whose feature at `idx` is strictly below `t`, in order.
pub open spec fn below_seq<T: FeatureVector, L: Label>(
    s: Seq<(T, L)>,
    idx: T::FeatureIdx,
    t: T::Feature,
) -> Seq<(T, L)>
    decreases s.len(),
{
    if s.len() == 0 {
        Seq::empty()
    } else {
        let p = below_seq(s.drop_last(), idx, t);
        if s.last().0.feature_spec(idx).lt_spec(t) {
            p.push(s.last())
        } else {
            p
        }
    }
}

/// The pairs of `s` whose feature at `idx` is not below `t`, in order.
pub open spec fn above_seq<T: FeatureVector, L: Label>(
    s: Seq<(T, L)>,
    idx: T::FeatureIdx,
    t: T::Feature,
) -> Seq<(T, L)>
    decreases s.len(),
{
    if s.len() == 0 {
        Seq::empty()
    } else {
        let p = above_seq(s.drop_last(), idx, t);
        if s.last().0.feature_spec(idx).lt_spec(t) {
            p
        } else {
            p.push(s.last())
        }
    }
}

/// The two sides of a split partition the subset.
pub proof fn lemma_partition_len<T: FeatureVector, L: Label>(
    s: Seq<(T, L)>,
    idx: T::FeatureIdx,
    t: T::Feature,
)
    ensures
        below_seq(s, idx, t).len() + above_seq(s, idx, t).len() == s.len(),
    decreases s.len(),
{
    if s.len() > 0 {
        lemma_partition_len(s.drop_last(), idx, t);
    }
}

/// A threshold observed in the subset leaves its own instance on the upper
/// side, so the lower side is a strict subset.
pub proof fn lemma_below_smaller<T: FeatureVector, L: Label>(
    s: Seq<(T, L)>,
    idx: T::FeatureIdx,
    t: T::Feature,
    k: int,
)
    requires
        0 <= k < s.len(),
        s[k].0.feature_spec(idx) == t,
    ensures
        below_seq(s, idx, t).len() < s.len(),
    decreases s.len(),
{
    T::Feature::lt_irreflexive(t);
    lemma_partition_len(s.drop_last(), idx, t);
    if k == s.len() - 1 {
        assert(!s.last().0.feature_spec(idx).lt_spec(t));
    } else {
        assert(s.drop_last()[k] == s[k]);
        lemma_below_smaller(s.drop_last(), idx, t, k);
    }
}

impl<T: FeatureVector, L: Label> DTree<T, L> {
    /// The root node of the tree.
    pub closed spec fn spec_root(self) -> DNode<T, L> {
        *self.root
    }

    /// Read-only access to the root node.
    pub fn root(&self) -> (r: &DNode<T, L>)
        ensures
            *r == self.spec_root(),
    {
        &*self.root
    }

    /// Classifies an instance by iterative traversal from the root; returns
    /// exactly the label of the leaf that deterministic traversal reaches.
    pub fn decide(&self, test_inst: &T) -> (r: L)
        ensures
            r == spec_decide(self.spec_root(), *test_inst),
    {
        let mut curr: &DNode<T, L> = &*self.root;
        loop
            invariant
                spec_decide(*curr, *test_inst) == spec_decide(self.spec_root(), *test_inst),
            decreases *curr,
        {
            match curr {
                DNode::Internal { ftr_idx, thresh, lchild, rchild } => {
                    let f = test_inst.get_feature(ftr_idx);
                    if f.is_lt(thresh) {
                        curr = &**lchild;
                    } else {
                        curr = &**rchild;
                    }
                },
                DNode::Leaf { label } => {
                    return *label;
                },
            }
        }
    }
}

/// Whether all labels in `pairs` are identical.
pub fn all_same_label<T: FeatureVector, L: Label>(pairs: &Vec<(T, L)>) -> (r: bool)
    requires
        pairs.len() >= 1,
    ensures
        r == is_pure(pairs@),
{
    let first = pairs[0].1;
    let n = pairs.len();
    let mut pure = true;
    let mut i: usize = 0;
    while i < n
        invariant
            i <= n,
            n == pairs.len(),
            pairs.len() >= 1,
            first == pairs@[0].1,
            pure <==> (forall|k: int| 0 <= k < i ==> #[trigger] pairs@[k].1 == pairs@[0].1),
        decreases n - i,
    {
        if !pairs[i].1.eq_label(&first) {
            pure = false;
        }
        i = i + 1;
    }
    pure
}

/// Splits `pairs` into the instances strictly below the threshold at `idx`
/// and the rest, keeping the input order on both sides.
pub fn partition<T: FeatureVector, L: Label>(
    pairs: &Vec<(T, L)>,
    idx: &T::FeatureIdx,
    t: &T::Feature,
) -> (r: (Vec<(T, L)>, Vec<(T, L)>))
    ensures
        r.0@ == below_seq(pairs@, *idx, *t),
        r.1@ == above_seq(pairs@, *idx, *t),
{
    let mut below: Vec<(T, L)> = Vec::new();
    let mut above: Vec<(T, L)> = Vec::new();
    let n = pairs.len();
    let mut i: usize = 0;
    while i < n
        invariant
            i <= n,
            n == pairs.len(),
            below@ == below_seq(pairs@.take(i as int), *idx, *t),
            above@ == above_seq(pairs@.take(i as int), *idx, *t),
        decreases n - i,
    {
        proof {
            assert(pairs@.take(i + 1).drop_last() =~= pairs@.take(i as int));
            assert(pairs@.take(i + 1).last() == pairs@[i as int]);
        }
        let p = pairs[i];
        let f = p.0.get_feature(idx);
        if f.is_lt(t) {
            below.push(p);
        } else {
            above.push(p);
        }
        i = i + 1;
    }
    proof {
        assert(pairs@.take(n as int) =~= pairs@);
    }
    (below, above)
}

/// How many pairs of `s` carry label `lab` and sit strictly below `t` at `idx`.
pub open spec fn below_label_count<T: FeatureVector, L: Label>(
    s: Seq<(T, L)>,
    idx: T::FeatureIdx,
    t: T::Feature,
    lab: L,
) -> int
    decreases s.len(),
{
    if s.len() == 0 {
        0
    } else {
        below_label_count(s.drop_last(), idx, t, lab) + if s.last().1 == lab
            && s.last().0.feature_spec(idx).lt_spec(t) {
            1int
        } else {
            0int
        }
    }
}

/// No label has more instances below a threshold than instances at all.
pub proof fn lemma_below_label_le<T: FeatureVector, L: Label>(
    s: Seq<(T, L)>,
    idx: T::FeatureIdx,
    t: T::Feature,
    lab: L,
)
    ensures
        0 <= below_label_count(s, idx, t, lab) <= count_eq(labels_of(s), lab),
    decreases s.len(),
{
    if s.len() > 0 {
        lemma_below_label_le(s.drop_last(), idx, t, lab);
        assert(labels_of(s).drop_last() =~= labels_of(s.drop_last()));
        assert(labels_of(s).last() == s.last().1);
    }
}

/// Sum, over the labels listed in `d`, of the conditional entropy
/// contribution of the split (idx, t).
pub open spec fn cond_sum<T: FeatureVector, L: Label>(
    s: Seq<(T, L)>,
    idx: T::FeatureIdx,
    t: T::Feature,
    d: Seq<L>,
) -> int
    decreases d.len(),
{
    if d.len() == 0 {
        0
    } else {
        cond_sum(s, idx, t, d.drop_last()) + entropy_term_spec(
            below_label_count(s, idx, t, d.last()),
            count_eq(labels_of(s), d.last()),
        )
    }
}

/// The conditional entropy term of a candidate split, in fixed point: for
/// each distinct label present, the contribution
/// (n_below/n_tot) * log2(n_tot/n_below) of the fraction of that label's
/// instances lying strictly below the threshold.
pub open spec fn spec_cond_entropy<T: FeatureVector, L: Label>(
    s: Seq<(T, L)>,
    idx: T::FeatureIdx,
    t: T::Feature,
) -> int {
    cond_sum(s, idx, t, dedup_seq(labels_of(s)))
}

/// The labels of the training pairs, in order.
pub fn collect_labels<T: FeatureVector, L: Label>(pairs: &Vec<(T, L)>) -> (r: Vec<L>)
    ensures
        r@ == labels_of(pairs@),
{
    let mut r: Vec<L> = Vec::new();
    let n = pairs.len();
    let mut i: usize = 0;
    while i < n
        invariant
            i <= n,
            n == pairs.len(),
            r@ == labels_of(pairs@.take(i as int)),
        decreases n - i,
    {
        proof {
            assert(pairs@.take(i + 1).drop_last() =~= pairs@.take(i as int));
            assert(pairs@.take(i + 1).last() == pairs@[i as int]);
        }
        let p = pairs[i];
        r.push(p.1);
        i = i + 1;
    }
    proof {
        assert(pairs@.take(n as int) =~= pairs@);
    }
    r
}

/// How many instances carry label `lab` and lie strictly below `t` at `idx`.
fn below_label_matching<T: FeatureVector, L: Label>(
    pairs: &Vec<(T, L)>,
    idx: &T::FeatureIdx,
    t: &T::Feature,
    lab: &L,
) -> (c: u64)
    requires
        pairs.len() < 0x1_0000_0000,
    ensures
        c == below_label_count(pairs@, *idx, *t, *lab),
{
    let mut c: u64 = 0;
    let n = pairs.len();
    let mut i: usize = 0;
    while i < n
        invariant
            i <= n,
            n == pairs.len(),
            pairs.len() < 0x1_0000_0000,
            c <= i,
            c == below_label_count(pairs@.take(i as int), *idx, *t, *lab),
        decreases n - i,
    {
        proof {
            assert(pairs@.take(i + 1).drop_last() =~= pairs@.take(i as int));
            assert(pairs@.take(i + 1).last() == pairs@[i as int]);
        }
        let p = pairs[i];
        if p.1.eq_label(lab) {
            let f = p.0.get_feature(idx);
            if f.is_lt(t) {
                c = c + 1;
            }
        }
        i = i + 1;
    }
    proof {
        assert(pairs@.take(n as int) =~= pairs@);
    }
    c
}

/// How many instances lie strictly below `t` at `idx`.
pub fn below_count<T: FeatureVector, L: Label>(
    pairs: &Vec<(T, L)>,
    idx: &T::FeatureIdx,
    t: &T::Feature,
) -> (c: u64)
    requires
        pairs.len() < 0x1_0000_0000,
    ensures
        c == below_seq(pairs@, *idx, *t).len(),
{
    let mut c: u64 = 0;
    let n = pairs.len();
    let mut i: usize = 0;
    while i < n
        invariant
            i <= n,
            n == pairs.len(),
            pairs.len() < 0x1_0000_0000,
            c <= i,
            c == below_seq(pairs@.take(i as int), *idx, *t).len(),
        decreases n - i,
    {
        proof {
            assert(pairs@.take(i + 1).drop_last() =~= pairs@.take(i as int));
            assert(pairs@.take(i + 1).last() == pairs@[i as int]);
        }
        let p = pairs[i];
        let f = p.0.get_feature(idx);
        if f.is_lt(t) {
            c = c + 1;
        }
        i = i + 1;
    }
    proof {
        assert(pairs@.take(n as int) =~= pairs@);
    }
    c
}

/// Computes `spec_cond_entropy`: the conditional entropy term of the
/// candidate split (idx, t) over the training pairs.
pub fn cond_entropy<T: FeatureVector, L: Label>(
    pairs: &Vec<(T, L)>,
    idx: &T::FeatureIdx,
    t: &T::Feature,
) -> (r: u64)
    requires
        pairs.len() < 0x1_0000_0000,
    ensures
        r == spec_cond_entropy(pairs@, *idx, *t),
        r <= pairs@.len() * 0x200000,
{
    let labels = collect_labels(pairs);
    proof {
        lemma_labels_of(pairs@);
        lemma_dedup_len(labels@);
    }
    let d = distinct_labels(&labels);
    let dl = d.len();
    let mut sum: u64 = 0;
    let mut j: usize = 0;
    while j < dl
        invariant
            j <= dl,
            dl == d.len(),
            labels@ == labels_of(pairs@),
            labels.len() == pairs.len(),
            d@ == dedup_seq(labels@),
            d.len() <= labels.len(),
            pairs.len() < 0x1_0000_0000,
            sum <= (j as int) * 0x200000,
            sum == cond_sum(pairs@, *idx, *t, d@.take(j as int)),
        decreases dl - j,
    {
        proof {
            lemma_count_le(labels@, d@[j as int]);
            lemma_below_label_le(pairs@, *idx, *t, d@[j as int]);
            assert(d@.contains(d@[j as int]));
            lemma_dedup_contains(labels@, d@[j as int]);
            lemma_count_contains(labels@, d@[j as int]);
            assert(count_eq(labels@, d@[j as int]) >= 1);
            assert(d@.take(j + 1).drop_last() =~= d@.take(j as int));
            assert(d@.take(j + 1).last() == d@[j as int]);
        }
        let lab = d[j];
        let tot = count_matching(&labels, &lab);
        let bel = below_label_matching(pairs, idx, t, &lab);
        let term = entropy_term(bel, tot);
        sum = sum + term;
        j = j + 1;
    }
    proof {
        assert(d@.take(dl as int) =~= d@);
        assert(sum <= pairs@.len() * 0x200000);
    }
    sum
}

/// The information-gain-ratio score of a candidate split, in fixed point:
/// the floor of ((h - c) * 65536) / h, where `h` is the label entropy of the
/// whole subset and `c` the conditional term of the split. A perfectly
/// discriminating split (c == 0) scores 65536; the score falls as the
/// conditional term grows, and is negative once the term exceeds the
/// reference entropy.
pub open spec fn spec_gain_ratio<T: FeatureVector, L: Label>(
    s: Seq<(T, L)>,
    idx: T::FeatureIdx,
    t: T::Feature,
) -> int
    recommends
        spec_entropy(labels_of(s)) > 0,
{
    let h = spec_entropy(labels_of(s));
    let c = spec_cond_entropy(s, idx, t);
    if c <= h {
        ((h - c) * 65536) / h
    } else {
        -(((c - h) * 65536 + h - 1) / h)
    }
}

/// Computes `spec_gain_ratio`: the information-gain-ratio score of the
/// candidate split (idx, t). Requires an impure subset (nonzero label
/// entropy), since a label-pure subset is terminal and offers no reference
/// entropy to divide by.
pub fn info_gain_ratio_binary<T: FeatureVector, L: Label>(
    pairs: &Vec<(T, L)>,
    idx: &T::FeatureIdx,
    t: &T::Feature,
) -> (r: i128)
    requires
        pairs.len() < 0x1_0000_0000,
        spec_entropy(labels_of(pairs@)) != 0,
    ensures
        r == spec_gain_ratio(pairs@, *idx, *t),
{
    let labels = collect_labels(pairs);
    proof {
        lemma_labels_of(pairs@);
    }
    let h = entropy_binary(&labels);
    let c = cond_entropy(pairs, idx, t);
    if c <= h {
        let diff = h - c;
        proof {
            let hd = h as int;
            let df = diff as int;
            assert(df * 65536 <= hd * 65536) by (nonlinear_arith)
                requires 0 <= df <= hd;
            vstd::arithmetic::div_mod::lemma_multiply_divide_le(df * 65536, hd, 65536);
            vstd::arithmetic::div_mod::lemma_div_pos_is_pos(df * 65536, hd);
            assert(df * 65536 >= 0) by (nonlinear_arith)
                requires df >= 0;
        }
        let q: u128 = ((diff as u128) * 65536) / (h as u128);
        q as i128
    } else {
        let over = c - h;
        proof {
            let hd = h as int;
            let ov = over as int;
            assert(ov * 65536 >= 0) by (nonlinear_arith)
                requires ov >= 0;
            vstd::arithmetic::div_mod::lemma_div_pos_is_pos(ov * 65536 + hd - 1, hd);
        }
        let q: u128 = ((over as u128) * 65536 + (h as u128) - 1) / (h as u128);
        proof {
            let hd = h as int;
            let ov = over as int;
            vstd::arithmetic::div_mod::lemma_div_nonincreasing(ov * 65536 + hd - 1, hd);
            assert(q <= ov * 65536 + hd - 1);
        }
        -(q as i128)
    }
}

/// A proper split candidate: a feature position together with a threshold
/// observed in the subset at that position, whose lower side is nonempty.
/// (The upper side of an observed threshold is always nonempty, because the
/// instance the threshold was read from is not strictly below it.)
pub open spec fn is_candidate<T: FeatureVector, L: Label>(
    s: Seq<(T, L)>,
    idxs: Seq<T::FeatureIdx>,
    pos: int,
    t: T::Feature,
) -> bool {
    &&& 0 <= pos < idxs.len()
    &&& exists|k: int| 0 <= k < s.len() && (#[trigger] s[k].0.feature_spec(idxs[pos])) == t
    &&& below_seq(s, idxs[pos], t).len() >= 1
}

/// Candidate order: lower conditional entropy term first (equivalently,
/// higher gain ratio), then lower feature position, then lower threshold.
pub open spec fn cand_le<T: FeatureVector, L: Label>(
    s: Seq<(T, L)>,
    idxs: Seq<T::FeatureIdx>,
    pos1: int,
    t1: T::Feature,
    pos2: int,
    t2: T::Feature,
) -> bool {
    let c1 = spec_cond_entropy(s, idxs[pos1], t1);
    let c2 = spec_cond_entropy(s, idxs[pos2], t2);
    ||| c1 < c2
    ||| (c1 == c2 && pos1 < pos2)
    ||| (c1 == c2 && pos1 == pos2 && (t1 == t2 || t1.lt_spec(t2)))
}

/// The best split candidate: proper, and at or before every proper candidate
/// in the candidate order.
pub open spec fn is_best_candidate<T: FeatureVector, L: Label>(
    s: Seq<(T, L)>,
    idxs: Seq<T::FeatureIdx>,
    pos: int,
    t: T::Feature,
) -> bool {
    &&& is_candidate(s, idxs, pos, t)
    &&& forall|p2: int, t2: T::Feature|
        #[trigger] is_candidate(s, idxs, p2, t2) ==> cand_le(s, idxs, pos, t, p2, t2)
}

/// The candidate order is transitive.
proof fn lemma_cand_le_trans<T: FeatureVector, L: Label>(
    s: Seq<(T, L)>,
    idxs: Seq<T::FeatureIdx>,
    p1: int,
    t1: T::Feature,
    p2: int,
    t2: T::Feature,
    p3: int,
    t3: T::Feature,
)
    requires
        cand_le(s, idxs, p1, t1, p2, t2),
        cand_le(s, idxs, p2, t2, p3, t3),
    ensures
        cand_le(s, idxs, p1, t1, p3, t3),
{
    let c1 = spec_cond_entropy(s, idxs[p1], t1);
    let c2 = spec_cond_entropy(s, idxs[p2], t2);
    let c3 = spec_cond_entropy(s, idxs[p3], t3);
    if c1 == c2 && c2 == c3 && p1 == p2 && p2 == p3 {
        if t1 != t2 && t2 != t3 && t1.lt_spec(t2) && t2.lt_spec(t3) {
            T::Feature::lt_transitive(t1, t2, t3);
        }
    }
}

/// There is at most one best candidate.
pub proof fn lemma_best_unique<T: FeatureVector, L: Label>(
    s: Seq<(T, L)>,
    idxs: Seq<T::FeatureIdx>,
    p1: int,
    t1: T::Feature,
    p2: int,
    t2: T::Feature,
)
    requires
        is_best_candidate(s, idxs, p1, t1),
        is_best_candidate(s, idxs, p2, t2),
    ensures
        p1 == p2,
        t1 == t2,
{
    assert(cand_le(s, idxs, p1, t1, p2, t2));
    assert(cand_le(s, idxs, p2, t2, p1, t1));
    if t1 != t2 {
        if t1.lt_spec(t2) && t2.lt_spec(t1) {
            T::Feature::lt_transitive(t1, t2, t1);
            T::Feature::lt_irreflexive(t1);
        }
    }
}

/// The candidates examined so far by the search: every candidate at a
/// position before `i`, and those at position `i` whose threshold was
/// already read from one of the first `j` instances.
spec fn seen_candidate<T: FeatureVector, L: Label>(
    s: Seq<(T, L)>,
    idxs: Seq<T::FeatureIdx>,
    i: int,
    j: int,
    p: int,
    t: T::Feature,
) -> bool {
    &&& is_candidate(s, idxs, p, t)
    &&& (p < i || (p == i && exists|k: int|
        0 <= k < j && (#[trigger] s[k].0.feature_spec(idxs[p])) == t))
}

/// The search invariant: the best candidate so far beats everything seen.
spec fn search_inv<T: FeatureVector, L: Label>(
    s: Seq<(T, L)>,
    idxs: Seq<T::FeatureIdx>,
    best: Option<(usize, T::Feature)>,
    best_cond: u64,
    i: int,
    j: int,
) -> bool {
    match best {
        Some(pt) => {
            &&& pt.0 as int <= i
            &&& is_candidate(s, idxs, pt.0 as int, pt.1)
            &&& best_cond == spec_cond_entropy(s, idxs[pt.0 as int], pt.1)
            &&& forall|p: int, t: T::Feature|
                #[trigger] seen_candidate(s, idxs, i, j, p, t)
                    ==> cand_le(s, idxs, pt.0 as int, pt.1, p, t)
        },
        None => forall|p: int, t: T::Feature| !(#[trigger] seen_candidate(s, idxs, i, j, p, t)),
    }
}

/// A nonempty lower side holds an instance strictly below the threshold.
proof fn lemma_below_member<T: FeatureVector, L: Label>(
    s: Seq<(T, L)>,
    idx: T::FeatureIdx,
    t: T::Feature,
)
    requires
        below_seq(s, idx, t).len() >= 1,
    ensures
        exists|a: int| 0 <= a < s.len() && (#[trigger] s[a].0.feature_spec(idx)).lt_spec(t),
    decreases s.len(),
{
    if s.len() > 0 {
        if s.last().0.feature_spec(idx).lt_spec(t) {
            assert(0 <= s.len() - 1 < s.len() && s[s.len() - 1].0.feature_spec(idx).lt_spec(t));
        } else {
            lemma_below_member(s.drop_last(), idx, t);
            let a = choose|a: int|
                0 <= a < s.drop_last().len() && (#[trigger] s.drop_last()[a].0.feature_spec(
                    idx,
                )).lt_spec(t);
            assert(s[a] == s.drop_last()[a]);
            assert(s[a].0.feature_spec(idx).lt_spec(t));
        }
    }
}

/// `lab` is a most frequent label of `s`, and the least such label in the
/// tie-breaking order.
pub open spec fn is_majority_label<T: FeatureVector, L: Label>(s: Seq<(T, L)>, lab: L) -> bool {
    let ls = labels_of(s);
    &&& count_eq(ls, lab) >= 1
    &&& forall|l2: L| #[trigger] count_eq(ls, l2) <= count_eq(ls, lab)
    &&& forall|l2: L|
        #[trigger] count_eq(ls, l2) == count_eq(ls, lab) && l2 != lab ==> lab.order_spec(l2)
}

/// There is at most one majority label.
pub proof fn lemma_majority_unique<T: FeatureVector, L: Label>(s: Seq<(T, L)>, m1: L, m2: L)
    requires
        is_majority_label(s, m1),
        is_majority_label(s, m2),
    ensures
        m1 == m2,
{
    if m1 != m2 {
        let ls = labels_of(s);
        assert(count_eq(ls, m1) <= count_eq(ls, m2));
        assert(count_eq(ls, m2) <= count_eq(ls, m1));
        assert(m1.order_spec(m2) && m2.order_spec(m1));
        L::order_transitive(m1, m2, m1);
        L::order_irreflexive(m1);
    }
}

/// The canonical majority label of a nonempty training sequence.
pub open spec fn majority_of<T: FeatureVector, L: Label>(s: Seq<(T, L)>) -> L {
    choose|lab: L| is_majority_label(s, lab)
}

/// The canonical best split candidate: its feature position and threshold.
pub open spec fn best_candidate_of<T: FeatureVector, L: Label>(
    s: Seq<(T, L)>,
    idxs: Seq<T::FeatureIdx>,
) -> (int, T::Feature) {
    choose|pt: (int, T::Feature)| is_best_candidate(s, idxs, pt.0, pt.1)
}

/// The most frequent label among those listed in `d`, ties broken by the
/// label order, smallest first.
spec fn best_label_in<L: Label>(ls: Seq<L>, d: Seq<L>) -> L
    recommends
        d.len() >= 1,
    decreases d.len(),
{
    if d.len() <= 1 {
        d[0]
    } else {
        let b = best_label_in(ls, d.drop_last());
        let x = d.last();
        if count_eq(ls, x) > count_eq(ls, b) || (count_eq(ls, x) == count_eq(ls, b)
            && x.order_spec(b)) {
            x
        } else {
            b
        }
    }
}

/// `best_label_in` picks a listed label that beats every listed label.
proof fn lemma_best_label_in<L: Label>(ls: Seq<L>, d: Seq<L>)
    requires
        d.len() >= 1,
    ensures
        d.contains(best_label_in(ls, d)),
        forall|k: int|
            0 <= k < d.len() ==> count_eq(ls, #[trigger] d[k]) <= count_eq(
                ls,
                best_label_in(ls, d),
            ),
        forall|k: int|
            0 <= k < d.len() ==> (count_eq(ls, #[trigger] d[k]) == count_eq(
                ls,
                best_label_in(ls, d),
            ) && d[k] != best_label_in(ls, d) ==> best_label_in(ls, d).order_spec(d[k])),
    decreases d.len(),
{
    if d.len() == 1 {
        assert(best_label_in(ls, d) == d[0]);
        assert(d.contains(d[0]));
    } else {
        lemma_best_label_in(ls, d.drop_last());
        let b = best_label_in(ls, d.drop_last());
        let x = d.last();
        let w = best_label_in(ls, d);
        assert(forall|k: int| 0 <= k < d.len() - 1 ==> d.drop_last()[k] == #[trigger] d[k]);
        if d.drop_last().contains(b) {
            let kb = choose|kb: int| 0 <= kb < d.drop_last().len() && d.drop_last()[kb] == b;
            assert(d[kb] == b);
            assert(d.contains(b));
        }
        assert(d[d.len() - 1] == x);
        assert(d.contains(x));
        if count_eq(ls, x) > count_eq(ls, b) || (count_eq(ls, x) == count_eq(ls, b)
            && x.order_spec(b)) {
            assert(w == x);
            assert forall|k: int|
                0 <= k < d.len() implies count_eq(ls, #[trigger] d[k]) <= count_eq(ls, w) by {
                if k < d.len() - 1 {
                    assert(count_eq(ls, d[k]) <= count_eq(ls, b));
                }
            }
            assert forall|k: int|
                0 <= k < d.len() && count_eq(ls, #[trigger] d[k]) == count_eq(ls, w) && d[k]
                    != w implies w.order_spec(d[k]) by {
                if k < d.len() - 1 {
                    if d[k] == b {
                        assert(x.order_spec(b));
                    } else {
                        assert(count_eq(ls, d[k]) == count_eq(ls, b));
                        assert(b.order_spec(d[k]));
                        assert(x.order_spec(b));
                        L::order_transitive(x, b, d[k]);
                    }
                }
            }
        } else {
            assert(w == b);
            if count_eq(ls, x) == count_eq(ls, b) && x != b {
                L::order_connected(x, b);
            }
        }
    }
}

/// Some label of a nonempty training sequence is its majority label.
pub proof fn lemma_majority_exists<T: FeatureVector, L: Label>(s: Seq<(T, L)>)
    requires
        s.len() >= 1,
    ensures
        exists|lab: L| is_majority_label(s, lab),
{
    lemma_labels_of(s);
    let ls = labels_of(s);
    assert(ls[0] == s[0].1);
    assert(ls.contains(ls[0]));
    lemma_dedup_contains(ls, ls[0]);
    let d = dedup_seq(ls);
    assert(d.len() >= 1);
    lemma_best_label_in(ls, d);
    let w = best_label_in(ls, d);
    lemma_dedup_contains(ls, w);
    lemma_count_contains(ls, w);
    assert(count_eq(ls, w) >= 1);
    assert forall|l2: L| #[trigger] count_eq(ls, l2) <= count_eq(ls, w) by {
        lemma_count_le(ls, l2);
        if count_eq(ls, l2) >= 1 {
            lemma_count_contains(ls, l2);
            lemma_dedup_contains(ls, l2);
            let q = choose|q: int| 0 <= q < d.len() && d[q] == l2;
            assert(count_eq(ls, d[q]) <= count_eq(ls, w));
        }
    }
    assert forall|l2: L|
        #[trigger] count_eq(ls, l2) == count_eq(ls, w) && l2 != w implies w.order_spec(l2) by {
        lemma_count_contains(ls, l2);
        lemma_dedup_contains(ls, l2);
        let q = choose|q: int| 0 <= q < d.len() && d[q] == l2;
        assert(count_eq(ls, d[q]) == count_eq(ls, w) && d[q] != w);
    }
    assert(is_majority_label(s, w));
}

/// The majority label of a nonempty training sequence: the most frequent
/// label, ties broken by the fixed label order, smallest first.
pub fn majority_label<T: FeatureVector, L: Label>(pairs: &Vec<(T, L)>) -> (r: L)
    requires
        1 <= pairs.len() < 0x1_0000_0000,
    ensures
        is_majority_label(pairs@, r),
{
    let labels = collect_labels(pairs);
    proof {
        lemma_labels_of(pairs@);
        assert(labels@[0] == pairs@[0].1);
        assert(labels@.contains(labels@[0]));
        lemma_dedup_contains(labels@, labels@[0]);
        lemma_dedup_len(labels@);
    }
    let d = distinct_labels(&labels);
    let mut best = d[0];
    let mut best_cnt = count_matching(&labels, &best);
    let dl = d.len();
    let mut k: usize = 1;
    proof {
        assert(d@.take(1int)[0] == d@[0]);
        assert(d@.take(1int).contains(best));
    }
    while k < dl
        invariant
            1 <= k <= dl,
            dl == d.len(),
            labels@ == labels_of(pairs@),
            labels.len() == pairs.len(),
            pairs.len() < 0x1_0000_0000,
            d@ == dedup_seq(labels@),
            best_cnt == count_eq(labels@, best),
            d@.take(k as int).contains(best),
            forall|q: int|
                0 <= q < k ==> count_eq(labels@, #[trigger] d@[q]) <= count_eq(labels@, best),
            forall|q: int|
                0 <= q < k ==> (count_eq(labels@, #[trigger] d@[q]) == count_eq(labels@, best)
                    && d@[q] != best ==> best.order_spec(d@[q])),
        decreases dl - k,
    {
        let cand = d[k];
        let cnt = count_matching(&labels, &cand);
        let ghost old_best = best;
        let ghost old_cnt = best_cnt;
        if cnt > best_cnt || (cnt == best_cnt && cand.lt_label(&best)) {
            proof {
                assert forall|q: int|
                    0 <= q < k && count_eq(labels@, #[trigger] d@[q]) == count_eq(labels@, cand)
                        && d@[q] != cand implies cand.order_spec(d@[q]) by {
                    if d@[q] == old_best {
                        assert(cand.order_spec(old_best));
                    } else {
                        assert(old_best.order_spec(d@[q]));
                        assert(cand.order_spec(old_best));
                        L::order_transitive(cand, old_best, d@[q]);
                    }
                }
            }
            best = cand;
            best_cnt = cnt;
        } else {
            proof {
                if cnt == old_cnt && cand != old_best {
                    L::order_connected(cand, old_best);
                }
            }
        }
        proof {
            if best == old_best {
                let w = choose|w: int| 0 <= w < k && d@.take(k as int)[w] == old_best;
                assert(d@.take(k + 1)[w] == old_best);
                assert(d@.take(k + 1).contains(best));
            } else {
                assert(d@.take(k + 1)[k as int] == d@[k as int]);
                assert(d@.take(k + 1).contains(best));
            }
        }
        k = k + 1;
    }
    proof {
        assert(d@.take(dl as int) =~= d@);
        let w = choose|w: int| 0 <= w < d@.len() && d@[w] == best;
        lemma_dedup_contains(labels@, best);
        lemma_count_contains(labels@, best);
        assert(count_eq(labels@, best) >= 1);
        assert forall|l2: L| #[trigger] count_eq(labels@, l2) <= count_eq(labels@, best) by {
            lemma_count_le(labels@, l2);
            if count_eq(labels@, l2) >= 1 {
                lemma_count_contains(labels@, l2);
                lemma_dedup_contains(labels@, l2);
                let q = choose|q: int| 0 <= q < d@.len() && d@[q] == l2;
                assert(count_eq(labels@, d@[q]) <= count_eq(labels@, best));
            }
        }
        assert forall|l2: L|
            #[trigger] count_eq(labels@, l2) == count_eq(labels@, best) && l2
                != best implies best.order_spec(l2) by {
            lemma_count_contains(labels@, l2);
            lemma_dedup_contains(labels@, l2);
            let q = choose|q: int| 0 <= q < d@.len() && d@[q] == l2;
            assert(count_eq(labels@, d@[q]) == count_eq(labels@, best) && d@[q] != best);
        }
    }
    best
}

impl<T: FeatureVector, L: Label> DTree<T, L> {
    /// Scores every proper split candidate of `pairs` over the feature
    /// positions `idxs` — every observed threshold whose lower side is
    /// nonempty — and returns the best: the lowest conditional entropy term,
    /// which is the highest gain ratio, ties broken by lowest feature
    /// position, then lowest threshold. Returns `None` when no proper
    /// candidate exists (every feature is constant on `pairs`).
    pub fn determine_candidate_split(
        pairs: &Vec<(T, L)>,
        idxs: &Vec<T::FeatureIdx>,
    ) -> (r: Option<(usize, T::Feature)>)
        requires
            pairs.len() < 0x1_0000_0000,
        ensures
            match r {
                Some(pt) => pt.0 < idxs@.len() && is_best_candidate(
                    pairs@,
                    idxs@,
                    pt.0 as int,
                    pt.1,
                ),
                None => forall|p: int, t: T::Feature| !is_candidate(pairs@, idxs@, p, t),
            },
    {
        let n = pairs.len();
        let ni = idxs.len();
        let mut best: Option<(usize, T::Feature)> = None;
        let mut best_cond: u64 = 0;
        let mut i: usize = 0;
        while i < ni
            invariant
                i <= ni,
                ni == idxs.len(),
                n == pairs.len(),
                pairs.len() < 0x1_0000_0000,
                search_inv(pairs@, idxs@, best, best_cond, i as int, 0),
            decreases ni - i,
        {
            let idx = idxs[i];
            let mut j: usize = 0;
            while j < n
                invariant
                    j <= n,
                    i < ni,
                    ni == idxs.len(),
                    n == pairs.len(),
                    pairs.len() < 0x1_0000_0000,
                    idx == idxs@[i as int],
                    search_inv(pairs@, idxs@, best, best_cond, i as int, j as int),
                decreases n - j,
            {
                let pj = pairs[j];
                let t = pj.0.get_feature(&idx);
                let bl = below_count(pairs, &idx, &t);
                let ghost old_best = best;
                let ghost old_cond = best_cond;
                if bl >= 1 {
                    let c = cond_entropy(pairs, &idx, &t);
                    proof {
                        assert(pairs@[j as int].0.feature_spec(idxs@[i as int]) == t);
                        assert(is_candidate(pairs@, idxs@, i as int, t));
                    }
                    let do_replace: bool = match best {
                        None => true,
                        Some(pt) => c < best_cond || (c == best_cond && pt.0 == i && t.is_lt(
                            &pt.1,
                        )),
                    };
                    if do_replace {
                        best = Some((i, t));
                        best_cond = c;
                    }
                    proof {
                        let s = pairs@;
                        let ix = idxs@;
                        let ii = i as int;
                        let jj = j as int;
                        match old_best {
                            None => {
                                match best {
                                    Some(npt) => {
                                        assert(npt.0 as int == ii && npt.1 == t);
                                        assert forall|p: int, t2: T::Feature|
                                            #[trigger] seen_candidate(s, ix, ii, jj + 1, p, t2)
                                                implies cand_le(s, ix, ii, t, p, t2) by {
                                            assert(!seen_candidate(s, ix, ii, jj, p, t2));
                                            assert(p == ii);
                                            let k = choose|k: int|
                                                0 <= k < jj + 1 && (#[trigger] s[k].0.feature_spec(
                                                    ix[p],
                                                )) == t2;
                                            assert(k == jj);
                                            assert(t2 == t);
                                        }
                                    },
                                    None => {
                                        assert(false);
                                    },
                                }
                            },
                            Some(pt) => {
                                if do_replace {
                                    assert(cand_le(s, ix, ii, t, pt.0 as int, pt.1));
                                    assert forall|p: int, t2: T::Feature|
                                        #[trigger] seen_candidate(s, ix, ii, jj + 1, p, t2)
                                            implies cand_le(s, ix, ii, t, p, t2) by {
                                        if seen_candidate(s, ix, ii, jj, p, t2) {
                                            assert(cand_le(s, ix, pt.0 as int, pt.1, p, t2));
                                            lemma_cand_le_trans(
                                                s,
                                                ix,
                                                ii,
                                                t,
                                                pt.0 as int,
                                                pt.1,
                                                p,
                                                t2,
                                            );
                                        } else {
                                            assert(p == ii);
                                            let k = choose|k: int|
                                                0 <= k < jj + 1 && (#[trigger] s[k].0.feature_spec(
                                                    ix[p],
                                                )) == t2;
                                            assert(k == jj);
                                            assert(t2 == t);
                                        }
                                    }
                                } else {
                                    assert(!(c < old_cond));
                                    if c == old_cond && pt.0 as int == ii && t != pt.1 {
                                        T::Feature::lt_connected(t, pt.1);
                                    }
                                    assert(cand_le(s, ix, pt.0 as int, pt.1, ii, t));
                                    assert forall|p: int, t2: T::Feature|
                                        #[trigger] seen_candidate(s, ix, ii, jj + 1, p, t2)
                                            implies cand_le(s, ix, pt.0 as int, pt.1, p, t2) by {
                                        if !seen_candidate(s, ix, ii, jj, p, t2) {
                                            assert(p == ii);
                                            let k = choose|k: int|
                                                0 <= k < jj + 1 && (#[trigger] s[k].0.feature_spec(
                                                    ix[p],
                                                )) == t2;
                                            assert(k == jj);
                                            assert(t2 == t);
                                        }
                                    }
                                }
                            },
                        }
                    }
                } else {
                    proof {
                        let s = pairs@;
                        let ix = idxs@;
                        let ii = i as int;
                        let jj = j as int;
                        assert(pairs@[j as int].0.feature_spec(idxs@[i as int]) == t);
                        assert(below_seq(s, ix[ii], t).len() == 0);
                        assert forall|p: int, t2: T::Feature|
                            #[trigger] seen_candidate(s, ix, ii, jj + 1, p, t2)
                                implies seen_candidate(s, ix, ii, jj, p, t2) by {
                            if !seen_candidate(s, ix, ii, jj, p, t2) {
                                assert(p == ii);
                                let k = choose|k: int|
                                    0 <= k < jj + 1 && (#[trigger] s[k].0.feature_spec(ix[p]))
                                        == t2;
                                assert(k == jj);
                                assert(t2 == t);
                                assert(!is_candidate(s, ix, p, t2));
                            }
                        }
                    }
                }
                j = j + 1;
            }
            proof {
                let s = pairs@;
                let ix = idxs@;
                let ii = i as int;
                assert forall|p: int, t2: T::Feature|
                    #[trigger] seen_candidate(s, ix, ii + 1, 0, p, t2) implies seen_candidate(
                    s,
                    ix,
                    ii,
                    n as int,
                    p,
                    t2,
                ) by {
                    if p == ii {
                        assert(is_candidate(s, ix, p, t2));
                        let k = choose|k: int|
                            0 <= k < s.len() && (#[trigger] s[k].0.feature_spec(ix[p])) == t2;
                        assert(0 <= k < n as int && s[k].0.feature_spec(ix[p]) == t2);
                    }
                }
            }
            i = i + 1;
        }
        proof {
            let s = pairs@;
            let ix = idxs@;
            match best {
                Some(pt) => {
                    assert forall|p: int, t2: T::Feature|
                        #[trigger] is_candidate(s, ix, p, t2) implies cand_le(
                        s,
                        ix,
                        pt.0 as int,
                        pt.1,
                        p,
                        t2,
                    ) by {
                        assert(seen_candidate(s, ix, ni as int, 0, p, t2));
                    }
                    assert(is_best_candidate(s, ix, pt.0 as int, pt.1));
                },
                None => {
                    assert forall|p: int, t2: T::Feature| !is_candidate(s, ix, p, t2) by {
                        if is_candidate(s, ix, p, t2) {
                            assert(seen_candidate(s, ix, ni as int, 0, p, t2));
                            assert(false);
                        }
                    }
                },
            }
        }
        best
    }
}

/// Whether `n` is exactly the node that the construction procedure yields on
/// the subset `s` over the feature positions `idxs`: a leaf with the common
/// label when `s` is label-pure; otherwise a leaf with the majority label
/// when no proper split candidate exists; otherwise an internal node testing
/// the best candidate, whose children are built from the two sides of that
/// split. No node matches an empty subset, nor an impure subset with no
/// feature positions at all: those are construction errors.
pub open spec fn matches_build<T: FeatureVector, L: Label>(
    s: Seq<(T, L)>,
    idxs: Seq<T::FeatureIdx>,
    n: DNode<T, L>,
) -> bool
    decreases n,
{
    if s.len() == 0 {
        false
    } else if is_pure(s) {
        n == (DNode::<T, L>::Leaf { label: s[0].1 })
    } else if idxs.len() == 0 {
        false
    } else if !(exists|p: int, t: T::Feature| is_candidate(s, idxs, p, t)) {
        n == (DNode::<T, L>::Leaf { label: majority_of(s) })
    } else {
        match n {
            DNode::Leaf { .. } => false,
            DNode::Internal { ftr_idx, thresh, lchild, rchild } => {
                let pt = best_candidate_of(s, idxs);
                &&& ftr_idx == idxs[pt.0]
                &&& thresh == pt.1
                &&& matches_build(below_seq(s, ftr_idx, thresh), idxs, *lchild)
                &&& matches_build(above_seq(s, ftr_idx, thresh), idxs, *rchild)
            },
        }
    }
}

impl<T: FeatureVector, L: Label> DTree<T, L> {
    /// Builds the node for one subset: a leaf when the subset is pure or no
    /// proper candidate splits it, an internal node over the best candidate
    /// otherwise, recursing into both sides. Fails exactly when an impure
    /// subset has no feature positions to draw candidates from.
    fn build_node(pairs: &Vec<(T, L)>, idxs: &Vec<T::FeatureIdx>) -> (r: Result<
        DNode<T, L>,
        BuildError,
    >)
        requires
            1 <= pairs.len() < 0x1_0000_0000,
        ensures
            match r {
                Ok(n) => matches_build(pairs@, idxs@, n),
                Err(_) => idxs@.len() == 0 && !is_pure(pairs@),
            },
        decreases pairs.len(),
    {
        if all_same_label(pairs) {
            let p0 = pairs[0];
            return Ok(DNode::Leaf { label: p0.1 });
        }
        if idxs.len() == 0 {
            return Err(BuildError::InvalidInput);
        }
        match Self::determine_candidate_split(pairs, idxs) {
            None => {
                let lab = majority_label(pairs);
                proof {
                    assert forall|p: int, t: T::Feature|
                        !#[trigger] is_best_candidate(pairs@, idxs@, p, t) by {
                        assert(!is_candidate(pairs@, idxs@, p, t));
                    }
                    assert(is_majority_label(pairs@, lab));
                    assert(is_majority_label(pairs@, majority_of(pairs@)));
                    lemma_majority_unique(pairs@, lab, majority_of(pairs@));
                }
                Ok(DNode::Leaf { label: lab })
            },
            Some((pos, t)) => {
                proof {
                    let s = pairs@;
                    let ix = idxs@;
                    let ptw: (int, T::Feature) = (pos as int, t);
                    assert(is_best_candidate(s, ix, ptw.0, ptw.1));
                    assert(exists|pt: (int, T::Feature)| is_best_candidate(s, ix, pt.0, pt.1));
                    let ptc = best_candidate_of(s, ix);
                    assert(is_best_candidate(s, ix, ptc.0, ptc.1));
                    lemma_best_unique(s, ix, ptc.0, ptc.1, pos as int, t);
                    let k = choose|k: int|
                        0 <= k < s.len() && (#[trigger] s[k].0.feature_spec(ix[pos as int])) == t;
                    lemma_below_smaller(s, ix[pos as int], t, k);
                    lemma_partition_len(s, ix[pos as int], t);
                }
                let idx = idxs[pos];
                let halves = partition(pairs, &idx, &t);
                let below = halves.0;
                let above = halves.1;
                let ln = match Self::build_node(&below, idxs) {
                    Ok(nn) => nn,
                    Err(e) => {
                        return Err(e);
                    },
                };
                let rn = match Self::build_node(&above, idxs) {
                    Ok(nn) => nn,
                    Err(e) => {
                        return Err(e);
                    },
                };
                proof {
                    assert(exists|p: int, t2: T::Feature| is_candidate(pairs@, idxs@, p, t2));
                }
                Ok(
                    DNode::Internal {
                        ftr_idx: idx,
                        thresh: t,
                        lchild: Box::new(ln),
                        rchild: Box::new(rn),
                    },
                )
            },
        }
    }

    /// Learns a decision tree from labeled training pairs. Succeeds exactly
    /// when the training set is nonempty and either some feature index
    /// exists or the set is already label-pure; the resulting tree is
    /// exactly the one the deterministic construction procedure yields.
    pub fn build(training: &Vec<(T, L)>) -> (r: Result<Self, BuildError>)
        requires
            training.len() < 0x1_0000_0000,
        ensures
            match r {
                Ok(tree) => training.len() >= 1 && (T::FeatureIdx::all_indices().len() >= 1
                    || is_pure(training@)) && matches_build(
                    training@,
                    T::FeatureIdx::all_indices(),
                    tree.spec_root(),
                ),
                Err(_) => !(training.len() >= 1 && (T::FeatureIdx::all_indices().len() >= 1
                    || is_pure(training@))),
            },
    {
        if training.len() == 0 {
            return Err(BuildError::InvalidInput);
        }
        let idxs = T::FeatureIdx::enumerate();
        match Self::build_node(training, &idxs) {
            Ok(n) => Ok(DTree { root: Box::new(n) }),
            Err(e) => Err(e),
        }
    }
}

/// Whether `n` is the node the construction procedure yields under
/// stopping options: as `matches_build`, except that an impure subset also
/// becomes a leaf with its majority label once no further split levels
/// remain (`depth <= 0`) or the subset is no larger than `min_sz`.
pub open spec fn matches_build_opt<T: FeatureVector, L: Label>(
    s: Seq<(T, L)>,
    idxs: Seq<T::FeatureIdx>,
    n: DNode<T, L>,
    depth: int,
    min_sz: int,
) -> bool
    decreases n,
{
    if s.len() == 0 {
        false
    } else if is_pure(s) {
        n == (DNode::<T, L>::Leaf { label: s[0].1 })
    } else if idxs.len() == 0 {
        false
    } else if depth <= 0 || s.len() <= min_sz {
        n == (DNode::<T, L>::Leaf { label: majority_of(s) })
    } else if !(exists|p: int, t: T::Feature| is_candidate(s, idxs, p, t)) {
        n == (DNode::<T, L>::Leaf { label: majority_of(s) })
    } else {
        match n {
            DNode::Leaf { .. } => false,
            DNode::Internal { ftr_idx, thresh, lchild, rchild } => {
                let pt = best_candidate_of(s, idxs);
                &&& ftr_idx == idxs[pt.0]
                &&& thresh == pt.1
                &&& matches_build_opt(below_seq(s, ftr_idx, thresh), idxs, *lchild, depth - 1, min_sz)
                &&& matches_build_opt(above_seq(s, ftr_idx, thresh), idxs, *rchild, depth - 1, min_sz)
            },
        }
    }
}

impl<T: FeatureVector, L: Label> DTree<T, L> {
    /// Builds the node for one subset under the stopping options, as
    /// `build_node` with two more ways to reach a majority leaf.
    fn build_node_opt(
        pairs: &Vec<(T, L)>,
        idxs: &Vec<T::FeatureIdx>,
        depth: u64,
        min_sz: u64,
    ) -> (r: Result<DNode<T, L>, BuildError>)
        requires
            1 <= pairs.len() < 0x1_0000_0000,
        ensures
            match r {
                Ok(n) => matches_build_opt(pairs@, idxs@, n, depth as int, min_sz as int),
                Err(_) => idxs@.len() == 0 && !is_pure(pairs@),
            },
        decreases pairs.len(),
    {
        if all_same_label(pairs) {
            let p0 = pairs[0];
            return Ok(DNode::Leaf { label: p0.1 });
        }
        if idxs.len() == 0 {
            return Err(BuildError::InvalidInput);
        }
        if depth == 0 || pairs.len() as u64 <= min_sz {
            let lab = majority_label(pairs);
            proof {
                assert(is_majority_label(pairs@, lab));
                assert(is_majority_label(pairs@, majority_of(pairs@)));
                lemma_majority_unique(pairs@, lab, majority_of(pairs@));
            }
            return Ok(DNode::Leaf { label: lab });
        }
        match Self::determine_candidate_split(pairs, idxs) {
            None => {
                let lab = majority_label(pairs);
                proof {
                    assert(is_majority_label(pairs@, lab));
                    assert(is_majority_label(pairs@, majority_of(pairs@)));
                    lemma_majority_unique(pairs@, lab, majority_of(pairs@));
                }
                Ok(DNode::Leaf { label: lab })
            },
            Some((pos, t)) => {
                proof {
                    let s = pairs@;
                    let ix = idxs@;
                    let ptw: (int, T::Feature) = (pos as int, t);
                    assert(is_best_candidate(s, ix, ptw.0, ptw.1));
                    assert(exists|pt: (int, T::Feature)| is_best_candidate(s, ix, pt.0, pt.1));
                    let ptc = best_candidate_of(s, ix);
                    assert(is_best_candidate(s, ix, ptc.0, ptc.1));
                    lemma_best_unique(s, ix, ptc.0, ptc.1, pos as int, t);
                    let k = choose|k: int|
                        0 <= k < s.len() && (#[trigger] s[k].0.feature_spec(ix[pos as int])) == t;
                    lemma_below_smaller(s, ix[pos as int], t, k);
                    lemma_partition_len(s, ix[pos as int], t);
                }
                let idx = idxs[pos];
                let halves = partition(pairs, &idx, &t);
                let below = halves.0;
                let above = halves.1;
                let ln = match Self::build_node_opt(&below, idxs, depth - 1, min_sz) {
                    Ok(nn) => nn,
                    Err(e) => {
                        return Err(e);
                    },
                };
                let rn = match Self::build_node_opt(&above, idxs, depth - 1, min_sz) {
                    Ok(nn) => nn,
                    Err(e) => {
                        return Err(e);
                    },
                };
                proof {
                    assert(exists|p: int, t2: T::Feature| is_candidate(pairs@, idxs@, p, t2));
                }
                Ok(
                    DNode::Internal {
                        ftr_idx: idx,
                        thresh: t,
                        lchild: Box::new(ln),
                        rchild: Box::new(rn),
                    },
                )
            },
        }
    }

    /// Learns a decision tree as `build` does, but with the construction-time
    /// stopping options: no more than `max_depth` levels of internal nodes,
    /// and no splitting of a subset of `min_size` instances or fewer. A
    /// subset still impure when a limit strikes becomes a leaf carrying its
    /// majority label. Succeeds and fails exactly as `build` does.
    pub fn build_with_options(
        training: &Vec<(T, L)>,
        max_depth: u64,
        min_size: u64,
    ) -> (r: Result<Self, BuildError>)
        requires
            training.len() < 0x1_0000_0000,
        ensures
            match r {
                Ok(tree) => training.len() >= 1 && (T::FeatureIdx::all_indices().len() >= 1
                    || is_pure(training@)) && matches_build_opt(
                    training@,
                    T::FeatureIdx::all_indices(),
                    tree.spec_root(),
                    max_depth as int,
                    min_size as int,
                ),
                Err(_) => !(training.len() >= 1 && (T::FeatureIdx::all_indices().len() >= 1
                    || is_pure(training@))),
            },
    {
        if training.len() == 0 {
            return Err(BuildError::InvalidInput);
        }
        let idxs = T::FeatureIdx::enumerate();
        match Self::build_node_opt(training, &idxs, max_depth, min_size) {
            Ok(n) => Ok(DTree { root: Box::new(n) }),
            Err(e) => Err(e),
        }
    }
}

/// With depth to spare for every instance and no size floor, the stopping
/// options never strike: construction with them yields exactly the default
/// tree.
pub proof fn lemma_build_opt_default<T: FeatureVector, L: Label>(
    s: Seq<(T, L)>,
    idxs: Seq<T::FeatureIdx>,
    n: DNode<T, L>,
    depth: int,
)
    requires
        depth >= s.len(),
    ensures
        matches_build_opt(s, idxs, n, depth, 0) == matches_build(s, idxs, n),
    decreases n,
{
    if s.len() >= 1 && !is_pure(s) && idxs.len() >= 1 && (exists|p: int, t: T::Feature|
        is_candidate(s, idxs, p, t)) {
        match n {
            DNode::Leaf { .. } => {},
            DNode::Internal { ftr_idx, thresh, lchild, rchild } => {
                let pt = best_candidate_of(s, idxs);
                if ftr_idx == idxs[pt.0] && thresh == pt.1 {
                    let b = below_seq(s, ftr_idx, thresh);
                    let a = above_seq(s, ftr_idx, thresh);
                    lemma_partition_len(s, ftr_idx, thresh);
                    if b.len() < s.len() {
                        lemma_build_opt_default(b, idxs, *lchild, depth - 1);
                    } else {
                        assert(a.len() == 0);
                        assert(!matches_build(a, idxs, *rchild));
                        assert(!matches_build_opt(a, idxs, *rchild, depth - 1, 0));
                    }
                    if a.len() < s.len() {
                        lemma_build_opt_default(a, idxs, *rchild, depth - 1);
                    } else {
                        assert(b.len() == 0);
                        assert(!matches_build(b, idxs, *lchild));
                        assert(!matches_build_opt(b, idxs, *lchild, depth - 1, 0));
                    }
                }
            },
        }
    }
}

/// The construction procedure is deterministic: two nodes built from the
/// same subset over the same feature positions are one and the same tree, so
/// classifying any instance through either gives the same label.
pub proof fn lemma_build_deterministic<T: FeatureVector, L: Label>(
    s: Seq<(T, L)>,
    idxs: Seq<T::FeatureIdx>,
    n1: DNode<T, L>,
    n2: DNode<T, L>,
)
    requires
        matches_build(s, idxs, n1),
        matches_build(s, idxs, n2),
    ensures
        n1 == n2,
    decreases n1,
{
    if s.len() >= 1 && !is_pure(s) && idxs.len() >= 1 && (exists|p: int, t: T::Feature|
        is_candidate(s, idxs, p, t)) {
        match n1 {
            DNode::Leaf { .. } => {
                assert(false);
            },
            DNode::Internal { ftr_idx: f1, thresh: t1, lchild: l1, rchild: r1 } => {
                match n2 {
                    DNode::Leaf { .. } => {
                        assert(false);
                    },
                    DNode::Internal { ftr_idx: f2, thresh: t2, lchild: l2, rchild: r2 } => {
                        lemma_build_deterministic(below_seq(s, f1, t1), idxs, *l1, *l2);
                        lemma_build_deterministic(above_seq(s, f1, t1), idxs, *r1, *r2);
                    },
                }
            },
        }
    }
}

/// A training set holding one distinct label, of any positive size, builds
/// to a tree that is a single leaf carrying that label.
pub proof fn lemma_build_pure_leaf<T: FeatureVector, L: Label>(
    s: Seq<(T, L)>,
    idxs: Seq<T::FeatureIdx>,
    n: DNode<T, L>,
)
    requires
        s.len() >= 1,
        is_pure(s),
        matches_build(s, idxs, n),
    ensures
        n == (DNode::<T, L>::Leaf { label: s[0].1 }),
{
}

/// Where every feature is constant across the subset, no candidate threshold
/// separates anything: the builder falls back to a leaf carrying the
/// majority label instead of recursing forever.
pub proof fn lemma_build_constant_leaf<T: FeatureVector, L: Label>(
    s: Seq<(T, L)>,
    idxs: Seq<T::FeatureIdx>,
    n: DNode<T, L>,
)
    requires
        s.len() >= 1,
        !is_pure(s),
        forall|p: int, a: int, b: int|
            0 <= p < idxs.len() && 0 <= a < s.len() && 0 <= b < s.len() ==> (
            #[trigger] s[a].0.feature_spec(idxs[p])) == (#[trigger] s[b].0.feature_spec(idxs[p])),
        matches_build(s, idxs, n),
    ensures
        n == (DNode::<T, L>::Leaf { label: majority_of(s) }),
        is_majority_label(s, majority_of(s)),
{
    assert forall|p: int, t: T::Feature| !#[trigger] is_candidate(s, idxs, p, t) by {
        if is_candidate(s, idxs, p, t) {
            let k = choose|k: int|
                0 <= k < s.len() && (#[trigger] s[k].0.feature_spec(idxs[p])) == t;
            lemma_below_member(s, idxs[p], t);
            let a = choose|a: int|
                0 <= a < s.len() && (#[trigger] s[a].0.feature_spec(idxs[p])).lt_spec(t);
            assert(s[a].0.feature_spec(idxs[p]) == s[k].0.feature_spec(idxs[p]));
            T::Feature::lt_irreflexive(t);
        }
    }
    lemma_majority_exists::<T, L>(s);
    let w = choose|lab: L| is_majority_label(s, lab);
    lemma_majority_unique(s, w, majority_of(s));
}

/// A split that keeps each label wholly on one side contributes no
/// conditional entropy over the listed labels.
proof fn lemma_cond_sum_zero<T: FeatureVector, L: Label>(
    s: Seq<(T, L)>,
    idx: T::FeatureIdx,
    t: T::Feature,
    d: Seq<L>,
)
    requires
        s.len() < 0x1_0000_0000,
        forall|lab: L|
            #[trigger] below_label_count(s, idx, t, lab) == 0 || below_label_count(s, idx, t, lab)
                == count_eq(labels_of(s), lab),
        forall|k: int| 0 <= k < d.len() ==> count_eq(labels_of(s), #[trigger] d[k]) >= 1,
    ensures
        cond_sum(s, idx, t, d) == 0,
    decreases d.len(),
{
    if d.len() > 0 {
        assert(forall|k: int| 0 <= k < d.len() - 1 ==> d.drop_last()[k] == #[trigger] d[k]);
        lemma_cond_sum_zero(s, idx, t, d.drop_last());
        let lab = d.last();
        assert(d[d.len() - 1] == lab);
        let c = count_eq(labels_of(s), lab);
        lemma_labels_of(s);
        lemma_count_le(labels_of(s), lab);
        if below_label_count(s, idx, t, lab) == c {
            crate::entropy::lemma_lg2_equal(c);
            vstd::arithmetic::div_mod::lemma_div_of0(c);
            assert(entropy_term_spec(c, c) == 0);
        }
    }
}

/// A perfectly discriminating split — one that puts every label's instances
/// wholly on one side — has a conditional entropy term of exactly zero and
/// the maximal gain ratio, exactly one bit's worth (65536 in fixed point).
pub proof fn lemma_pure_split_max_score<T: FeatureVector, L: Label>(
    s: Seq<(T, L)>,
    idx: T::FeatureIdx,
    t: T::Feature,
)
    requires
        1 <= s.len() < 0x1_0000_0000,
        spec_entropy(labels_of(s)) != 0,
        forall|lab: L|
            #[trigger] below_label_count(s, idx, t, lab) == 0 || below_label_count(s, idx, t, lab)
                == count_eq(labels_of(s), lab),
    ensures
        spec_cond_entropy(s, idx, t) == 0,
        spec_gain_ratio(s, idx, t) == 65536,
{
    lemma_labels_of(s);
    let ls = labels_of(s);
    let d = dedup_seq(ls);
    assert forall|k: int| 0 <= k < d.len() implies count_eq(ls, #[trigger] d[k]) >= 1 by {
        assert(d.contains(d[k]));
        lemma_dedup_contains(ls, d[k]);
        lemma_count_contains(ls, d[k]);
    }
    lemma_cond_sum_zero(s, idx, t, d);
    crate::entropy::lemma_entropy_nonneg(ls);
    let h = spec_entropy(ls);
    vstd::arithmetic::div_mod::lemma_div_multiples_vanish(65536, h);
    assert((h * 65536) / h == 65536);
}

/// An instance strictly below the threshold appears on the lower side.
proof fn lemma_below_has<T: FeatureVector, L: Label>(
    s: Seq<(T, L)>,
    idx: T::FeatureIdx,
    t: T::Feature,
    k: int,
)
    requires
        0 <= k < s.len(),
        s[k].0.feature_spec(idx).lt_spec(t),
    ensures
        below_seq(s, idx, t).contains(s[k]),
    decreases s.len(),
{
    let b = below_seq(s, idx, t);
    if k == s.len() - 1 {
        assert(b[b.len() - 1] == s[k]);
        assert(b.contains(s[k]));
    } else {
        assert(s.drop_last()[k] == s[k]);
        lemma_below_has(s.drop_last(), idx, t, k);
        let bp = below_seq(s.drop_last(), idx, t);
        let j = choose|j: int| 0 <= j < bp.len() && bp[j] == s[k];
        assert(b[j] == s[k]);
        assert(b.contains(s[k]));
    }
}

/// An instance not below the threshold appears on the upper side.
proof fn lemma_above_has<T: FeatureVector, L: Label>(
    s: Seq<(T, L)>,
    idx: T::FeatureIdx,
    t: T::Feature,
    k: int,
)
    requires
        0 <= k < s.len(),
        !s[k].0.feature_spec(idx).lt_spec(t),
    ensures
        above_seq(s, idx, t).contains(s[k]),
    decreases s.len(),
{
    let a = above_seq(s, idx, t);
    if k == s.len() - 1 {
        assert(a[a.len() - 1] == s[k]);
        assert(a.contains(s[k]));
    } else {
        assert(s.drop_last()[k] == s[k]);
        lemma_above_has(s.drop_last(), idx, t, k);
        let ap = above_seq(s.drop_last(), idx, t);
        let j = choose|j: int| 0 <= j < ap.len() && ap[j] == s[k];
        assert(a[j] == s[k]);
        assert(a.contains(s[k]));
    }
}

/// Every pair on the lower side of a split comes from the subset.
proof fn lemma_below_from<T: FeatureVector, L: Label>(
    s: Seq<(T, L)>,
    idx: T::FeatureIdx,
    t: T::Feature,
    j: int,
)
    requires
        0 <= j < below_seq(s, idx, t).len(),
    ensures
        exists|k: int| 0 <= k < s.len() && below_seq(s, idx, t)[j] == #[trigger] s[k],
    decreases s.len(),
{
    if s.len() > 0 {
        let bp = below_seq(s.drop_last(), idx, t);
        if j < bp.len() {
            lemma_below_from(s.drop_last(), idx, t, j);
            let k = choose|k: int| 0 <= k < s.drop_last().len() && bp[j] == s.drop_last()[k];
            assert(below_seq(s, idx, t)[j] == bp[j]);
            assert(below_seq(s, idx, t)[j] == s[k]);
        } else {
            assert(below_seq(s, idx, t)[j] == s[s.len() - 1]);
        }
    }
}

/// Every pair on the upper side of a split comes from the subset.
proof fn lemma_above_from<T: FeatureVector, L: Label>(
    s: Seq<(T, L)>,
    idx: T::FeatureIdx,
    t: T::Feature,
    j: int,
)
    requires
        0 <= j < above_seq(s, idx, t).len(),
    ensures
        exists|k: int| 0 <= k < s.len() && above_seq(s, idx, t)[j] == #[trigger] s[k],
    decreases s.len(),
{
    if s.len() > 0 {
        let ap = above_seq(s.drop_last(), idx, t);
        if j < ap.len() {
            lemma_above_from(s.drop_last(), idx, t, j);
            let k = choose|k: int| 0 <= k < s.drop_last().len() && ap[j] == s.drop_last()[k];
            assert(above_seq(s, idx, t)[j] == ap[j]);
            assert(above_seq(s, idx, t)[j] == s[k]);
        } else {
            assert(above_seq(s, idx, t)[j] == s[s.len() - 1]);
        }
    }
}

/// Classifying an instance drawn from the training subset a tree was built
/// on yields a label that occurs in that subset: at a pure leaf the common
/// label, at a fallback leaf the majority label, and through every internal
/// node the instance follows the same side it was partitioned into.
pub proof fn lemma_decide_label_from_training<T: FeatureVector, L: Label>(
    s: Seq<(T, L)>,
    idxs: Seq<T::FeatureIdx>,
    n: DNode<T, L>,
    k: int,
)
    requires
        matches_build(s, idxs, n),
        0 <= k < s.len(),
    ensures
        exists|m: int| 0 <= m < s.len() && spec_decide(n, s[k].0) == #[trigger] s[m].1,
    decreases n,
{
    if is_pure(s) {
        assert(spec_decide(n, s[k].0) == s[0].1);
        assert(0 <= 0 < s.len() && spec_decide(n, s[k].0) == s[0].1);
    } else if !(exists|p: int, t: T::Feature| is_candidate(s, idxs, p, t)) {
        lemma_majority_exists::<T, L>(s);
        let w = choose|lab: L| is_majority_label(s, lab);
        lemma_majority_unique(s, w, majority_of(s));
        lemma_count_contains(labels_of(s), majority_of(s));
        lemma_labels_of(s);
        let i = choose|i: int|
            0 <= i < labels_of(s).len() && labels_of(s)[i] == majority_of(s);
        assert(s[i].1 == majority_of(s));
        assert(0 <= i < s.len() && spec_decide(n, s[k].0) == s[i].1);
    } else {
        match n {
            DNode::Leaf { .. } => {
                assert(false);
            },
            DNode::Internal { ftr_idx, thresh, lchild, rchild } => {
                if s[k].0.feature_spec(ftr_idx).lt_spec(thresh) {
                    let b = below_seq(s, ftr_idx, thresh);
                    lemma_below_has(s, ftr_idx, thresh, k);
                    let kb = choose|kb: int| 0 <= kb < b.len() && b[kb] == s[k];
                    lemma_decide_label_from_training(b, idxs, *lchild, kb);
                    let m = choose|m: int|
                        0 <= m < b.len() && spec_decide(*lchild, b[kb].0) == b[m].1;
                    lemma_below_from(s, ftr_idx, thresh, m);
                    let km = choose|km: int| 0 <= km < s.len() && b[m] == s[km];
                    assert(spec_decide(n, s[k].0) == spec_decide(*lchild, s[k].0));
                    assert(0 <= km < s.len() && spec_decide(n, s[k].0) == s[km].1);
                } else {
                    let a = above_seq(s, ftr_idx, thresh);
                    lemma_above_has(s, ftr_idx, thresh, k);
                    let ka = choose|ka: int| 0 <= ka < a.len() && a[ka] == s[k];
                    lemma_decide_label_from_training(a, idxs, *rchild, ka);
                    let m = choose|m: int|
                        0 <= m < a.len() && spec_decide(*rchild, a[ka].0) == a[m].1;
                    lemma_above_from(s, ftr_idx, thresh, m);
                    let km = choose|km: int| 0 <= km < s.len() && a[m] == s[km];
                    assert(spec_decide(n, s[k].0) == spec_decide(*rchild, s[k].0));
                    assert(0 <= km < s.len() && spec_decide(n, s[k].0) == s[km].1);
                }
            },
        }
    }
}

} // verus!
