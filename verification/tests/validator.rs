use reasoning::{find_path, path_exists, validate, And, FactSet, Greater, Relation};

#[test]
fn find_path_test() {
    let mut a = FactSet::new();
    a.insert((1, 2));
    a.insert((2, 3));
    a.insert((3, 4));
    assert!(find_path(1, 4, &a) == 3);
    assert!(find_path(4, 1, &a) == -1);
}

#[test]
fn is_equivalence() {
    assert!(And.is_equivalence());
    assert!(Greater.is_equivalence() == false);
}

#[test]
fn valid() {
    // Test if this holds: a && b, b && a, b && c, c && b
    let valid_reasoning = vec![(0, 1), (1, 0), (1, 2), (2, 1)];
    assert!(And.valid(valid_reasoning, 3));
    // a > b, b > c, a > c
    let valid_reasoning_2 = vec![(0, 1), (1, 2), (0, 2)];
    assert!(Greater.valid(valid_reasoning_2, 3));
}

#[test]
fn invalid() {
    // test if this holds (it should not): a > b, b > a
    let invalid_reasoning = vec![(0, 1), (1, 0)];
    assert!(Greater.valid(invalid_reasoning, 2) == false);
}

#[test]
fn path_exists_follows_edges() {
    let mut a = FactSet::new();
    a.insert((1, 2));
    a.insert((2, 3));
    a.insert((3, 4));
    assert!(path_exists(1, 4, &a));
    assert!(!path_exists(4, 1, &a));
}

#[test]
fn find_path_trivial_and_empty() {
    let empty = FactSet::new();
    // A variable reaches itself before any edge is followed.
    assert!(find_path(5, 5, &empty) == 0);
    // Nothing else is reachable in an empty graph.
    assert!(find_path(0, 1, &empty) == -1);
}

#[test]
fn fact_set_deduplicates() {
    let mut a = FactSet::new();
    a.insert((1, 2));
    a.insert((1, 2));
    a.insert((2, 1));
    assert!(a.contains((1, 2)));
    assert!(a.contains((2, 1)));
    assert!(!a.contains((1, 1)));
}

#[test]
fn equivalence_shortcut_accepts_anything() {
    // All three properties hold, so any sequence over any n is accepted.
    assert!(validate(true, true, true, &vec![(0, 1), (1, 0), (0, 1)], 2));
    assert!(validate(true, true, true, &vec![], 0));
    assert!(And.valid(vec![(0, 2), (2, 0), (1, 1)], 3));
}

#[test]
fn empty_reasoning_is_valid() {
    assert!(validate(false, false, false, &vec![], 0));
    assert!(Greater.valid(vec![], 4));
}

#[test]
fn reflexive_relation_justifies_constrained_steps() {
    // (1, 0) has both variables constrained; reflexivity justifies it.
    assert!(validate(true, false, false, &vec![(0, 1), (1, 0)], 2));
}

#[test]
fn symmetric_relation_accepts_reverse() {
    // After accepting (0, 1) the reverse (1, 0) is already a fact.
    assert!(validate(false, true, false, &vec![(0, 1), (1, 0)], 2));
}

#[test]
fn unconstrained_variable_starts_new_axiom() {
    // Each step introduces a fresh variable, so all are accepted even
    // though the relation claims no properties.
    assert!(validate(false, false, false, &vec![(0, 1), (1, 2), (2, 3)], 4));
}

#[test]
fn unjustified_step_rejected() {
    // (2, 0) is not reachable from the accepted facts {(0,1), (1,2)}.
    assert!(!validate(false, false, true, &vec![(0, 1), (1, 2), (2, 0)], 3));
    // With no properties at all, any step over constrained variables fails.
    assert!(!validate(false, false, false, &vec![(0, 1), (1, 0)], 2));
}

#[test]
fn resubmitting_accepted_fact_changes_nothing() {
    // A duplicated step is skipped: the outcome matches the run without it.
    let with_dup = vec![(0, 1), (1, 2), (0, 1), (0, 2)];
    let without = vec![(0, 1), (1, 2), (0, 2)];
    assert!(validate(false, false, true, &with_dup, 3) == validate(false, false, true, &without, 3));
    let failing_with_dup = vec![(0, 1), (0, 1), (1, 0)];
    let failing = vec![(0, 1), (1, 0)];
    assert!(
        validate(false, false, true, &failing_with_dup, 2)
            == validate(false, false, true, &failing, 2)
    );
}

#[test]
fn operations_compute() {
    assert!(And.operation(true, true));
    assert!(!And.operation(true, false));
    assert!(Greater.operation(3, 2));
    assert!(!Greater.operation(2, 3));
}
