use vstd::prelude::*;
use crate::validator::{facts_after, flags_after, spec_valid, step_ok, valid_from};

verus! {

/// A relation with all three properties accepts every sequence of steps
/// over any number of variables: the equivalence shortcut.
pub proof fn lemma_equivalence_accepts_all(steps: Seq<(usize, usize)>, n: usize)
    ensures
        spec_valid(true, true, true, steps, n),
{
}

/// Processing a fact that is already accepted is skipped: it changes
/// neither the outcome nor the running state.
pub proof fn lemma_known_fact_skipped(
    reflexive: bool,
    symetric: bool,
    transitive: bool,
    facts: Set<(usize, usize)>,
    constrained: Seq<bool>,
    f: (usize, usize),
    rest: Seq<(usize, usize)>,
)
    requires
        facts.contains(f),
    ensures
        valid_from(reflexive, symetric, transitive, facts, constrained, seq![f] + rest)
            == valid_from(reflexive, symetric, transitive, facts, constrained, rest),
{
    let s = seq![f] + rest;
    assert(s[0] == f);
    assert(s.skip(1) =~= rest);
    assert(step_ok(reflexive, symetric, transitive, facts, constrained, f));
    assert(facts_after(symetric, facts, f) == facts);
    assert(flags_after(facts, constrained, f) == constrained);
}

/// An accepted step never removes a fact.
pub proof fn lemma_facts_grow(
    symetric: bool,
    facts: Set<(usize, usize)>,
    f: (usize, usize),
    g: (usize, usize),
)
    requires
        facts.contains(f),
    ensures
        facts_after(symetric, facts, g).contains(f),
{
}

/// Re-submitting a fact that the running state already holds, after any
/// further steps, never changes the outcome.
pub proof fn lemma_resubmit_later_noop(
    reflexive: bool,
    symetric: bool,
    transitive: bool,
    facts: Set<(usize, usize)>,
    constrained: Seq<bool>,
    f: (usize, usize),
    mid: Seq<(usize, usize)>,
    rest: Seq<(usize, usize)>,
)
    requires
        facts.contains(f),
    ensures
        valid_from(reflexive, symetric, transitive, facts, constrained, mid + (seq![f] + rest))
            == valid_from(reflexive, symetric, transitive, facts, constrained, mid + rest),
    decreases mid.len(),
{
    if mid.len() == 0 {
        assert(mid + (seq![f] + rest) =~= seq![f] + rest);
        assert(mid + rest =~= rest);
        lemma_known_fact_skipped(reflexive, symetric, transitive, facts, constrained, f, rest);
    } else {
        let g = mid[0];
        let lhs = mid + (seq![f] + rest);
        let rhs = mid + rest;
        assert(lhs[0] == g && rhs[0] == g);
        if step_ok(reflexive, symetric, transitive, facts, constrained, g) {
            assert(lhs.skip(1) =~= mid.skip(1) + (seq![f] + rest));
            assert(rhs.skip(1) =~= mid.skip(1) + rest);
            lemma_facts_grow(symetric, facts, f, g);
            lemma_resubmit_later_noop(
                reflexive,
                symetric,
                transitive,
                facts_after(symetric, facts, g),
                flags_after(facts, constrained, g),
                f,
                mid.skip(1),
                rest,
            );
        }
    }
}

/// Idempotence of acceptance: re-submitting a fact that already appears
/// among the earlier steps as a later step never changes the outcome.
pub proof fn lemma_resubmission_idempotent(
    reflexive: bool,
    symetric: bool,
    transitive: bool,
    facts: Set<(usize, usize)>,
    constrained: Seq<bool>,
    pre: Seq<(usize, usize)>,
    f: (usize, usize),
    rest: Seq<(usize, usize)>,
)
    requires
        pre.contains(f),
    ensures
        valid_from(reflexive, symetric, transitive, facts, constrained, pre + (seq![f] + rest))
            == valid_from(reflexive, symetric, transitive, facts, constrained, pre + rest),
    decreases pre.len(),
{
    let g = pre[0];
    let lhs = pre + (seq![f] + rest);
    let rhs = pre + rest;
    assert(lhs[0] == g && rhs[0] == g);
    if step_ok(reflexive, symetric, transitive, facts, constrained, g) {
        let facts2 = facts_after(symetric, facts, g);
        let flags2 = flags_after(facts, constrained, g);
        assert(lhs.skip(1) =~= pre.skip(1) + (seq![f] + rest));
        assert(rhs.skip(1) =~= pre.skip(1) + rest);
        if pre.skip(1).contains(f) {
            lemma_resubmission_idempotent(
                reflexive,
                symetric,
                transitive,
                facts2,
                flags2,
                pre.skip(1),
                f,
                rest,
            );
        } else {
            assert(f == g) by {
                let i = choose|i: int| 0 <= i < pre.len() && pre[i] == f;
                if i > 0 {
                    assert(pre.skip(1)[i - 1] == f);
                    assert(pre.skip(1).contains(f));
                }
            }
            assert(facts2.contains(f));
            lemma_resubmit_later_noop(
                reflexive,
                symetric,
                transitive,
                facts2,
                flags2,
                f,
                pre.skip(1),
                rest,
            );
        }
    }
}

/// The fact set is closed under pair reversal.
pub open spec fn sym_closed(facts: Set<(usize, usize)>) -> bool {
    forall|a: usize, b: usize| #[trigger] facts.contains((a, b)) ==> facts.contains((b, a))
}

/// With a symmetric relation, accepting a pair puts the pair and its
/// reverse in the fact set, and keeps the set closed under reversal.
pub proof fn lemma_symmetric_step_reversible(facts: Set<(usize, usize)>, f: (usize, usize))
    requires
        sym_closed(facts),
    ensures
        facts_after(true, facts, f).contains(f),
        facts_after(true, facts, f).contains((f.1, f.0)),
        sym_closed(facts_after(true, facts, f)),
{
    let after = facts_after(true, facts, f);
    assert(f == (f.0, f.1));
    if facts.contains(f) {
        assert(facts.contains((f.0, f.1)));
        assert(facts.contains((f.1, f.0)));
    } else {
        assert forall|a: usize, b: usize| #[trigger] after.contains((a, b))
            implies after.contains((b, a)) by {
            if facts.contains((a, b)) {
                assert(facts.contains((b, a)));
            } else if (a, b) == f {
                assert(after.contains((f.1, f.0)));
            } else {
                assert((a, b) == (f.1, f.0));
                assert(after.contains((f.0, f.1)));
            }
        }
    }
}

/// The fact set reached after a run of steps, each handled as an
/// accepted step would be.
pub open spec fn run_facts(
    symetric: bool,
    facts: Set<(usize, usize)>,
    steps: Seq<(usize, usize)>,
) -> Set<(usize, usize)>
    decreases steps.len(),
{
    if steps.len() == 0 {
        facts
    } else {
        run_facts(symetric, facts_after(symetric, facts, steps[0]), steps.skip(1))
    }
}

/// With a symmetric relation the fact set stays closed under reversal
/// after every step: once `(a, b)` is accepted, `(b, a)` is a fact too.
pub proof fn lemma_symmetric_run_closed(facts: Set<(usize, usize)>, steps: Seq<(usize, usize)>)
    requires
        sym_closed(facts),
    ensures
        sym_closed(run_facts(true, facts, steps)),
    decreases steps.len(),
{
    if steps.len() > 0 {
        lemma_symmetric_step_reversible(facts, steps[0]);
        lemma_symmetric_run_closed(facts_after(true, facts, steps[0]), steps.skip(1));
    }
}

/// Variable `v` occurs in some accepted fact.
pub open spec fn mentioned(facts: Set<(usize, usize)>, v: usize) -> bool {
    exists|p: (usize, usize)| #[trigger] facts.contains(p) && (p.0 == v || p.1 == v)
}

/// The constrained flags track the facts: a variable's flag is set
/// exactly when the variable occurs in some accepted fact.
pub open spec fn flags_track(facts: Set<(usize, usize)>, constrained: Seq<bool>) -> bool {
    forall|v: usize|
        v < constrained.len()
            ==> ((#[trigger] constrained[v as int]) <==> mentioned(facts, v))
}

/// The starting state tracks: no flag is set and no variable is
/// mentioned by the empty fact set.
pub proof fn lemma_flags_track_init(n: usize)
    ensures
        flags_track(Set::empty(), Seq::new(n as nat, |i: int| false)),
{
}

/// One accepted step keeps the flags tracking the facts.
pub proof fn lemma_flags_track_step(
    symetric: bool,
    facts: Set<(usize, usize)>,
    constrained: Seq<bool>,
    f: (usize, usize),
)
    requires
        flags_track(facts, constrained),
        f.0 < constrained.len(),
        f.1 < constrained.len(),
    ensures
        flags_track(facts_after(symetric, facts, f), flags_after(facts, constrained, f)),
{
    if !facts.contains(f) {
        let facts2 = facts_after(symetric, facts, f);
        let flags2 = flags_after(facts, constrained, f);
        assert(f == (f.0, f.1));
        assert forall|v: usize| v < flags2.len()
            implies ((#[trigger] flags2[v as int]) <==> mentioned(facts2, v)) by {
            if v == f.0 || v == f.1 {
                assert(facts2.contains(f));
                assert(mentioned(facts2, v));
            } else {
                assert(flags2[v as int] == constrained[v as int]);
                if mentioned(facts2, v) {
                    let p = choose|p: (usize, usize)|
                        facts2.contains(p) && (p.0 == v || p.1 == v);
                    assert(p != f && p != (f.1, f.0));
                    assert(facts.contains(p));
                    assert(mentioned(facts, v));
                }
                if mentioned(facts, v) {
                    let p = choose|p: (usize, usize)|
                        facts.contains(p) && (p.0 == v || p.1 == v);
                    assert(facts2.contains(p));
                    assert(mentioned(facts2, v));
                }
            }
        }
    }
}

/// The constrained flags reached after a run of steps.
pub open spec fn run_flags(
    symetric: bool,
    facts: Set<(usize, usize)>,
    constrained: Seq<bool>,
    steps: Seq<(usize, usize)>,
) -> Seq<bool>
    decreases steps.len(),
{
    if steps.len() == 0 {
        constrained
    } else {
        run_flags(
            symetric,
            facts_after(symetric, facts, steps[0]),
            flags_after(facts, constrained, steps[0]),
            steps.skip(1),
        )
    }
}

/// At every point of a run over in-range steps, a variable's flag is set
/// exactly when it occurs in some fact accepted so far.
pub proof fn lemma_flags_track_run(
    symetric: bool,
    facts: Set<(usize, usize)>,
    constrained: Seq<bool>,
    steps: Seq<(usize, usize)>,
)
    requires
        flags_track(facts, constrained),
        forall|i: int| 0 <= i < steps.len()
            ==> (#[trigger] steps[i]).0 < constrained.len()
                && steps[i].1 < constrained.len(),
    ensures
        flags_track(
            run_facts(symetric, facts, steps),
            run_flags(symetric, facts, constrained, steps),
        ),
    decreases steps.len(),
{
    if steps.len() > 0 {
        lemma_flags_track_step(symetric, facts, constrained, steps[0]);
        let flags2 = flags_after(facts, constrained, steps[0]);
        assert(flags2.len() == constrained.len());
        assert forall|i: int| 0 <= i < steps.skip(1).len()
            implies (#[trigger] steps.skip(1)[i]).0 < flags2.len()
                && steps.skip(1)[i].1 < flags2.len() by {
            assert(steps.skip(1)[i] == steps[i + 1]);
        }
        lemma_flags_track_run(
            symetric,
            facts_after(symetric, facts, steps[0]),
            flags2,
            steps.skip(1),
        );
    }
}

} // verus!
