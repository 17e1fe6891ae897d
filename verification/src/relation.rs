use vstd::prelude::*;
use crate::validator::{spec_valid, steps_in_range, validate};

verus! {

/// A binary relation over values of type `T` (with `W` left free for a
/// result or witness type), described by the formal properties it claims.
/// The three property queries are pure and constant for a given relation,
/// and each is pinned to a spec-level counterpart.
pub trait Relation<T, W> {
    /// Whether the relation claims reflexivity.
    spec fn spec_reflexive(&self) -> bool;

    /// Whether the relation claims symmetry.
    spec fn spec_symetric(&self) -> bool;

    /// Whether the relation claims transitivity.
    spec fn spec_transitive(&self) -> bool;

    /// What the relation itself computes on a pair of values.
    spec fn spec_operation(&self, a: T, b: T) -> bool;

    fn operation(&self, a: T, b: T) -> (r: bool)
        ensures
            r == self.spec_operation(a, b),
    ;

    fn is_transitive(&self) -> (b: bool)
        ensures
            b == self.spec_transitive(),
    ;

    fn is_reflexive(&self) -> (b: bool)
        ensures
            b == self.spec_reflexive(),
    ;

    fn is_symetric(&self) -> (b: bool)
        ensures
            b == self.spec_symetric(),
    ;

    /// A relation is an equivalence exactly when it is reflexive,
    /// symmetric and transitive.
    fn is_equivalence(&self) -> (b: bool)
        ensures
            b == (self.spec_reflexive() && self.spec_symetric() && self.spec_transitive()),
    {
        self.is_symetric() && self.is_reflexive() && self.is_transitive()
    }

    /// Tests whether the ordered reasoning steps, e.g. [(1, 2), (3, 4)]
    /// where the numbers stand for unknown variables, are justified for
    /// this relation over `nvariables` variables.
    fn valid(&self, reasoning: Vec<(usize, usize)>, nvariables: usize) -> (b: bool)
        requires
            steps_in_range(reasoning@, nvariables),
        ensures
            b == spec_valid(
                self.spec_reflexive(),
                self.spec_symetric(),
                self.spec_transitive(),
                reasoning@,
                nvariables,
            ),
    {
        validate(
            self.is_reflexive(),
            self.is_symetric(),
            self.is_transitive(),
            &reasoning,
            nvariables,
        )
    }
}

/// Logical conjunction: reflexive, symmetric and transitive, hence an
/// equivalence.
pub struct And;

impl Relation<bool, bool> for And {
    open spec fn spec_reflexive(&self) -> bool {
        true
    }

    open spec fn spec_symetric(&self) -> bool {
        true
    }

    open spec fn spec_transitive(&self) -> bool {
        true
    }

    open spec fn spec_operation(&self, a: bool, b: bool) -> bool {
        a && b
    }

    fn operation(&self, a: bool, b: bool) -> (r: bool) {
        a && b
    }

    fn is_transitive(&self) -> (b: bool) {
        true
    }

    fn is_reflexive(&self) -> (b: bool) {
        true
    }

    fn is_symetric(&self) -> (b: bool) {
        true
    }
}

/// Numeric strict order: transitive, but neither reflexive nor
/// symmetric.
pub struct Greater;

impl Relation<i64, i64> for Greater {
    open spec fn spec_reflexive(&self) -> bool {
        false
    }

    open spec fn spec_symetric(&self) -> bool {
        false
    }

    open spec fn spec_transitive(&self) -> bool {
        true
    }

    open spec fn spec_operation(&self, a: i64, b: i64) -> bool {
        a > b
    }

    fn operation(&self, a: i64, b: i64) -> (r: bool) {
        a > b
    }

    fn is_reflexive(&self) -> (b: bool) {
        false
    }

    fn is_symetric(&self) -> (b: bool) {
        false
    }

    fn is_transitive(&self) -> (b: bool) {
        true
    }
}

} // verus!
