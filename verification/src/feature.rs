use vstd::prelude::*;

verus! {

/// A feature value: copyable and totally ordered. The order is given as a
/// specification-level strict order `lt_spec` together with an executable
/// comparison `is_lt` that decides it; implementors must prove that the
/// order is irreflexive, transitive and connected (total on distinct values).
pub trait Feature: Sized + Copy {
    /// Strict order on feature values.
    spec fn lt_spec(self, other: Self) -> bool;

    /// Decides the strict order.
    fn is_lt(&self, other: &Self) -> (r: bool)
        ensures
            r == self.lt_spec(*other),
    ;

    /// No value is strictly below itself.
    proof fn lt_irreflexive(a: Self)
        ensures
            !a.lt_spec(a),
    ;

    /// The strict order is transitive.
    proof fn lt_transitive(a: Self, b: Self, c: Self)
        requires
            a.lt_spec(b),
            b.lt_spec(c),
        ensures
            a.lt_spec(c),
    ;

    /// Any two distinct values are ordered one way or the other.
    proof fn lt_connected(a: Self, b: Self)
        requires
            a != b,
        ensures
            a.lt_spec(b) || b.lt_spec(a),
    ;
}

/// A class label: copyable, with decidable equality and a fixed total order
/// used to break ties deterministically (smallest value first).
pub trait Label: Sized + Copy {
    /// Strict order on labels, used for deterministic tie-breaking.
    spec fn order_spec(self, other: Self) -> bool;

    /// Decides equality of labels.
    fn eq_label(&self, other: &Self) -> (r: bool)
        ensures
            r == (*self == *other),
    ;

    /// Decides the strict tie-breaking order.
    fn lt_label(&self, other: &Self) -> (r: bool)
        ensures
            r == self.order_spec(*other),
    ;

    /// No label is strictly before itself.
    proof fn order_irreflexive(a: Self)
        ensures
            !a.order_spec(a),
    ;

    /// The tie-breaking order is transitive.
    proof fn order_transitive(a: Self, b: Self, c: Self)
        requires
            a.order_spec(b),
            b.order_spec(c),
        ensures
            a.order_spec(c),
    ;

    /// Any two distinct labels are ordered one way or the other.
    proof fn order_connected(a: Self, b: Self)
        requires
            a != b,
        ensures
            a.order_spec(b) || b.order_spec(a),
    ;
}

/// A finite, enumerable set of feature indices. `all_indices` is the
/// specification-level list of every index; `enumerate` produces it.
pub trait FeatureIdx: Sized + Copy {
    /// Every index, in the fixed enumeration order.
    spec fn all_indices() -> Seq<Self>;

    /// Produces every index, in the fixed enumeration order.
    fn enumerate() -> (r: Vec<Self>)
        ensures
            r@ == Self::all_indices(),
    ;
}

/// A feature vector: a read-only record from which a feature value can be
/// fetched by index. `feature_spec` is the mathematical content of the
/// vector; `get_feature` reads it.
pub trait FeatureVector: Sized + Copy {
    type Feature: Feature;

    type FeatureIdx: FeatureIdx;

    /// The feature value stored at the given index.
    spec fn feature_spec(self, idx: Self::FeatureIdx) -> Self::Feature;

    /// Reads the feature value at the given index.
    fn get_feature(&self, idx: &Self::FeatureIdx) -> (r: Self::Feature)
        ensures
            r == self.feature_spec(*idx),
    ;
}

impl Feature for u64 {
    open spec fn lt_spec(self, other: Self) -> bool {
        self < other
    }

    fn is_lt(&self, other: &Self) -> (r: bool) {
        *self < *other
    }

    proof fn lt_irreflexive(a: Self) {
    }

    proof fn lt_transitive(a: Self, b: Self, c: Self) {
    }

    proof fn lt_connected(a: Self, b: Self) {
    }
}

impl Label for u64 {
    open spec fn order_spec(self, other: Self) -> bool {
        self < other
    }

    fn eq_label(&self, other: &Self) -> (r: bool) {
        *self == *other
    }

    fn lt_label(&self, other: &Self) -> (r: bool) {
        *self < *other
    }

    proof fn order_irreflexive(a: Self) {
    }

    proof fn order_transitive(a: Self, b: Self, c: Self) {
    }

    proof fn order_connected(a: Self, b: Self) {
    }
}

impl Label for bool {
    open spec fn order_spec(self, other: Self) -> bool {
        !self && other
    }

    fn eq_label(&self, other: &Self) -> (r: bool) {
        *self == *other
    }

    fn lt_label(&self, other: &Self) -> (r: bool) {
        !*self && *other
    }

    proof fn order_irreflexive(a: Self) {
    }

    proof fn order_transitive(a: Self, b: Self, c: Self) {
    }

    proof fn order_connected(a: Self, b: Self) {
    }
}

/// The two positions of a two-feature vector.
#[derive(Clone, Copy, PartialEq, Eq, Hash)]
pub enum TwoTupleIdx {
    X1,
    X2,
}

impl FeatureIdx for TwoTupleIdx {
    open spec fn all_indices() -> Seq<Self> {
        seq![TwoTupleIdx::X1, TwoTupleIdx::X2]
    }

    fn enumerate() -> (r: Vec<Self>) {
        let mut v: Vec<TwoTupleIdx> = Vec::new();
        v.push(TwoTupleIdx::X1);
        v.push(TwoTupleIdx::X2);
        proof {
            assert(v@ =~= Self::all_indices());
        }
        v
    }
}

/// A feature vector of exactly two feature values.
#[derive(Clone, Copy)]
pub struct TwoTuple<F: Feature> {
    pub x1: F,
    pub x2: F,
}

impl<F: Feature> FeatureVector for TwoTuple<F> {
    type Feature = F;

    type FeatureIdx = TwoTupleIdx;

    open spec fn feature_spec(self, idx: TwoTupleIdx) -> F {
        match idx {
            TwoTupleIdx::X1 => self.x1,
            TwoTupleIdx::X2 => self.x2,
        }
    }

    fn get_feature(&self, idx: &TwoTupleIdx) -> (r: F) {
        match idx {
            TwoTupleIdx::X1 => self.x1,
            TwoTupleIdx::X2 => self.x2,
        }
    }
}

} // verus!
