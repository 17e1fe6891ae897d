use vstd::prelude::*;

verus! {

/// The facts accepted so far: a set of ordered pairs `(from, to)` of
/// variable identifiers, each meaning "`from` relates to `to`".
///
/// Backed by a vector that holds each pair at most once, so that it
/// abstracts to a finite set of pairs; insertion order is irrelevant to
/// the abstraction but kept for deterministic traversal.
pub struct FactSet {
    pairs: Vec<(usize, usize)>,
}

impl View for FactSet {
    type V = Set<(usize, usize)>;

    closed spec fn view(&self) -> Set<(usize, usize)> {
        self.pairs@.to_set()
    }
}

impl FactSet {
    /// The pairs in insertion order; each occurs exactly once when the
    /// set is well formed.
    pub closed spec fn seq(&self) -> Seq<(usize, usize)> {
        self.pairs@
    }

    /// Well-formedness: the backing vector holds no pair twice.
    pub closed spec fn wf(&self) -> bool {
        self.pairs@.no_duplicates()
    }

    pub fn new() -> (s: Self)
        ensures
            s@ == Set::<(usize, usize)>::empty(),
            s.wf(),
    {
        let s = FactSet { pairs: Vec::new() };
        proof {
            assert(s.pairs@.to_set() =~= Set::<(usize, usize)>::empty());
        }
        s
    }

    pub fn contains(&self, f: (usize, usize)) -> (b: bool)
        ensures
            b == self@.contains(f),
    {
        let mut j: usize = 0;
        while j < self.pairs.len()
            invariant
                j <= self.pairs@.len(),
                forall|k: int| 0 <= k < j ==> self.pairs@[k] != f,
            decreases self.pairs@.len() - j,
        {
            let p = self.pairs[j];
            if p.0 == f.0 && p.1 == f.1 {
                assert(self.pairs@[j as int] == f);
                assert(self.pairs@.contains(f));
                return true;
            }
            j += 1;
        }
        assert(!self.pairs@.contains(f));
        false
    }

    /// Adds a fact; adding one already present leaves the set unchanged.
    pub fn insert(&mut self, f: (usize, usize))
        requires
            old(self).wf(),
        ensures
            final(self)@ == old(self)@.insert(f),
            final(self).wf(),
    {
        if !self.contains(f) {
            self.pairs.push(f);
            proof {
                assert forall|x: (usize, usize)|
                    self.pairs@.to_set().contains(x) <==> old(self)@.insert(f).contains(x) by {
                    if self.pairs@.contains(x) {
                        let i = choose|i: int| 0 <= i < self.pairs@.len() && self.pairs@[i] == x;
                        if i < old(self).pairs@.len() {
                            assert(old(self).pairs@[i] == x);
                            assert(old(self).pairs@.contains(x));
                        } else {
                            assert(x == f);
                        }
                    }
                    if old(self).pairs@.contains(x) {
                        let i = choose|i: int|
                            0 <= i < old(self).pairs@.len() && old(self).pairs@[i] == x;
                        assert(self.pairs@[i] == x);
                        assert(self.pairs@.contains(x));
                    }
                    if x == f {
                        assert(self.pairs@[self.pairs@.len() - 1] == f);
                        assert(self.pairs@.contains(f));
                    }
                }
                assert(self.pairs@.to_set() =~= old(self)@.insert(f));
                assert forall|i: int, j: int|
                    0 <= i < self.pairs@.len() && 0 <= j < self.pairs@.len() && i != j
                        implies self.pairs@[i] != self.pairs@[j] by {
                    if i == self.pairs@.len() - 1 {
                        assert(old(self).pairs@[j] == self.pairs@[j]);
                        assert(old(self).pairs@.contains(self.pairs@[j]));
                    } else if j == self.pairs@.len() - 1 {
                        assert(old(self).pairs@[i] == self.pairs@[i]);
                        assert(old(self).pairs@.contains(self.pairs@[i]));
                    }
                }
            }
        } else {
            proof {
                assert(old(self)@.insert(f) =~= old(self)@);
            }
        }
    }

    /// The facts as directed edges, for traversal.
    pub fn edges(&self) -> (r: &Vec<(usize, usize)>)
        ensures
            r@ == self.seq(),
            r@.to_set() == self@,
    {
        &self.pairs
    }
}

} // verus!
