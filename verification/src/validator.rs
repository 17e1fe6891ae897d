use vstd::prelude::*;
use crate::facts::FactSet;
use crate::path::{find_path, reachable};

verus! {

/// Both components of every step lie in `[0, n)`.
pub open spec fn steps_in_range(steps: Seq<(usize, usize)>, n: usize) -> bool {
    forall|i: int| 0 <= i < steps.len() ==> (#[trigger] steps[i]).0 < n && steps[i].1 < n
}

/// A step whose variables are both already constrained must be justified
/// by one of the relation's declared properties: reflexivity justifies
/// anything, symmetry justifies a pair whose reverse is already an
/// accepted fact, and transitivity justifies a pair whose second
/// component is reachable from its first through the accepted facts.
pub open spec fn justified(
    reflexive: bool,
    symetric: bool,
    transitive: bool,
    facts: Set<(usize, usize)>,
    f: (usize, usize),
) -> bool {
    ||| reflexive
    ||| (symetric && facts.contains((f.1, f.0)))
    ||| (transitive && reachable(facts, f.0, f.1))
}

/// Whether a single step is accepted: it is already an accepted fact, or
/// it mentions a variable not constrained by any earlier fact (a new
/// axiom), or it is justified by the relation's properties.
pub open spec fn step_ok(
    reflexive: bool,
    symetric: bool,
    transitive: bool,
    facts: Set<(usize, usize)>,
    constrained: Seq<bool>,
    f: (usize, usize),
) -> bool {
    ||| facts.contains(f)
    ||| !constrained[f.0 as int]
    ||| !constrained[f.1 as int]
    ||| justified(reflexive, symetric, transitive, facts, f)
}

/// The fact set after an accepted step: a step already present changes
/// nothing; a new one is inserted, together with its reverse when the
/// relation is symmetric.
pub open spec fn facts_after(
    symetric: bool,
    facts: Set<(usize, usize)>,
    f: (usize, usize),
) -> Set<(usize, usize)> {
    if facts.contains(f) {
        facts
    } else if symetric {
        facts.insert(f).insert((f.1, f.0))
    } else {
        facts.insert(f)
    }
}

/// The constrained flags after an accepted step: a step already present
/// changes nothing; a new one marks both of its variables.
pub open spec fn flags_after(
    facts: Set<(usize, usize)>,
    constrained: Seq<bool>,
    f: (usize, usize),
) -> Seq<bool> {
    if facts.contains(f) {
        constrained
    } else {
        constrained.update(f.0 as int, true).update(f.1 as int, true)
    }
}

/// Whether every step of `steps` is accepted in turn, starting from the
/// given accepted facts and constrained flags.
pub open spec fn valid_from(
    reflexive: bool,
    symetric: bool,
    transitive: bool,
    facts: Set<(usize, usize)>,
    constrained: Seq<bool>,
    steps: Seq<(usize, usize)>,
) -> bool
    decreases steps.len(),
{
    if steps.len() == 0 {
        true
    } else if !step_ok(reflexive, symetric, transitive, facts, constrained, steps[0]) {
        false
    } else {
        valid_from(
            reflexive,
            symetric,
            transitive,
            facts_after(symetric, facts, steps[0]),
            flags_after(facts, constrained, steps[0]),
            steps.skip(1),
        )
    }
}

/// What validation returns: an equivalence relation accepts any sequence
/// outright; otherwise the steps are checked in turn against an initially
/// empty fact set and all-false constrained flags of length `n`.
pub open spec fn spec_valid(
    reflexive: bool,
    symetric: bool,
    transitive: bool,
    steps: Seq<(usize, usize)>,
    n: usize,
) -> bool {
    if reflexive && symetric && transitive {
        true
    } else {
        valid_from(
            reflexive,
            symetric,
            transitive,
            Set::empty(),
            Seq::new(n as nat, |i: int| false),
            steps,
        )
    }
}

/// Checks whether the ordered reasoning steps are justified for a
/// relation with the given properties, over `nvariables` variables.
#[verifier::loop_isolation(false)]
pub fn validate(
    reflexive: bool,
    symetric: bool,
    transitive: bool,
    reasoning: &Vec<(usize, usize)>,
    nvariables: usize,
) -> (b: bool)
    requires
        steps_in_range(reasoning@, nvariables),
    ensures
        b == spec_valid(reflexive, symetric, transitive, reasoning@, nvariables),
{
    if reflexive && symetric && transitive {
        return true;
    }
    let ghost steps = reasoning@;
    let ghost flags0 = Seq::new(nvariables as nat, |i: int| false);
    let mut facts = FactSet::new();
    let mut constrained: Vec<bool> = Vec::new();
    let mut k: usize = 0;
    while k < nvariables
        invariant
            k <= nvariables,
            constrained@.len() == k,
            forall|i: int| 0 <= i < k ==> constrained@[i] == false,
        decreases nvariables - k,
    {
        constrained.push(false);
        k += 1;
    }
    proof {
        assert(constrained@ =~= flags0);
        assert(steps.skip(0) =~= steps);
    }
    let mut idx: usize = 0;
    while idx < reasoning.len()
        invariant
            idx <= steps.len(),
            facts.wf(),
            constrained@.len() == nvariables,
            valid_from(reflexive, symetric, transitive, facts@, constrained@,
                steps.skip(idx as int))
                == valid_from(reflexive, symetric, transitive, Set::empty(), flags0, steps),
        decreases steps.len() - idx,
    {
        let step = reasoning[idx];
        let ghost facts0 = facts@;
        let ghost constrained0 = constrained@;
        let ghost rem = steps.skip(idx as int);
        proof {
            assert(rem[0] == steps[idx as int]);
            assert(rem.skip(1) =~= steps.skip(idx as int + 1));
        }
        if !facts.contains(step) {
            let accept: bool;
            if !constrained[step.0] || !constrained[step.1] {
                // A variable not constrained yet: the step is a new axiom.
                accept = true;
            } else {
                let mut found = false;
                if reflexive {
                    found = true;
                }
                if symetric && !found {
                    if facts.contains((step.1, step.0)) {
                        found = true;
                    }
                }
                if transitive && !found {
                    if find_path(step.0, step.1, &facts) >= 0 {
                        found = true;
                    }
                }
                proof {
                    assert(found == justified(reflexive, symetric, transitive, facts0, step));
                }
                accept = found;
            }
            if !accept {
                proof {
                    assert(!step_ok(reflexive, symetric, transitive, facts0, constrained0, step));
                    assert(!valid_from(reflexive, symetric, transitive, facts0, constrained0,
                        rem));
                }
                return false;
            }
            facts.insert(step);
            if symetric {
                facts.insert((step.1, step.0));
            }
            constrained[step.0] = true;
            constrained[step.1] = true;
            proof {
                assert(facts@ == facts_after(symetric, facts0, step));
                assert(constrained@ == flags_after(facts0, constrained0, step));
            }
        } else {
            proof {
                assert(facts@ == facts_after(symetric, facts0, step));
                assert(constrained@ == flags_after(facts0, constrained0, step));
            }
        }
        proof {
            assert(step_ok(reflexive, symetric, transitive, facts0, constrained0, step));
            assert(valid_from(reflexive, symetric, transitive, facts0, constrained0, rem)
                == valid_from(reflexive, symetric, transitive, facts@, constrained@,
                    rem.skip(1)));
        }
        idx += 1;
    }
    proof {
        assert(steps.skip(steps.len() as int) =~= Seq::<(usize, usize)>::empty());
    }
    true
}

} // verus!
