use vstd::prelude::*;
use crate::facts::FactSet;

verus! {

/// `p` is a walk through the directed graph read off a fact set:
/// consecutive elements are joined by an edge.
pub open spec fn is_path(g: Set<(usize, usize)>, p: Seq<usize>) -> bool {
    forall|i: int| 0 <= i < p.len() - 1 ==> g.contains((#[trigger] p[i], p[i + 1]))
}

/// `to` can be reached from `from` by following zero or more edges of `g`.
pub open spec fn reachable(g: Set<(usize, usize)>, from: usize, to: usize) -> bool {
    exists|p: Seq<usize>|
        #[trigger] is_path(g, p) && p.len() >= 1 && p[0] == from && p.last() == to
}

/// Every variable reaches itself by the empty walk.
pub proof fn lemma_reachable_self(g: Set<(usize, usize)>, x: usize)
    ensures
        reachable(g, x, x),
{
    let p = seq![x];
    assert(is_path(g, p) && p.len() >= 1 && p[0] == x && p.last() == x);
}

/// Reachability extends along an edge.
pub proof fn lemma_reachable_extend(g: Set<(usize, usize)>, a: usize, b: usize, c: usize)
    requires
        reachable(g, a, b),
        g.contains((b, c)),
    ensures
        reachable(g, a, c),
{
    let p = choose|p: Seq<usize>|
        is_path(g, p) && p.len() >= 1 && p[0] == a && p.last() == b;
    let q = p.push(c);
    assert forall|i: int| 0 <= i < q.len() - 1 implies g.contains((#[trigger] q[i], q[i + 1])) by {
        if i < p.len() - 1 {
            assert(g.contains((p[i], p[i + 1])));
            assert(q[i] == p[i] && q[i + 1] == p[i + 1]);
        } else {
            assert(q[i] == p.last() && q[i + 1] == c);
        }
    }
    assert(is_path(g, q) && q.len() >= 1 && q[0] == a && q.last() == c);
}

/// Every element of a walk that starts inside an edge-closed set stays
/// inside it.
proof fn lemma_path_stays_in(g: Set<(usize, usize)>, s: Set<usize>, p: Seq<usize>, i: int)
    requires
        is_path(g, p),
        p.len() >= 1,
        s.contains(p[0]),
        forall|a: usize, b: usize| s.contains(a) && #[trigger] g.contains((a, b)) ==> s.contains(b),
        0 <= i < p.len(),
    ensures
        s.contains(p[i]),
    decreases i,
{
    if i > 0 {
        lemma_path_stays_in(g, s, p, i - 1);
        assert(g.contains((p[i - 1], p[i])));
    }
}

/// A set that contains `from` and is closed under following edges, yet
/// misses `to`, witnesses that `to` is unreachable from `from`.
pub proof fn lemma_closed_set_blocks(g: Set<(usize, usize)>, s: Set<usize>, from: usize, to: usize)
    requires
        s.contains(from),
        forall|a: usize, b: usize| s.contains(a) && #[trigger] g.contains((a, b)) ==> s.contains(b),
        !s.contains(to),
    ensures
        !reachable(g, from, to),
{
    if reachable(g, from, to) {
        let p = choose|p: Seq<usize>|
            is_path(g, p) && p.len() >= 1 && p[0] == from && p.last() == to;
        lemma_path_stays_in(g, s, p, p.len() - 1);
    }
}

/// Every variable that occurs in one of the listed edges.
pub open spec fn node_set(s: Seq<(usize, usize)>) -> Set<usize>
    decreases s.len(),
{
    if s.len() == 0 {
        Set::empty()
    } else {
        node_set(s.drop_last()).insert(s.last().0).insert(s.last().1)
    }
}

proof fn lemma_node_set_finite(s: Seq<(usize, usize)>)
    ensures
        node_set(s).finite(),
    decreases s.len(),
{
    if s.len() > 0 {
        lemma_node_set_finite(s.drop_last());
    }
}

proof fn lemma_node_set_covers(s: Seq<(usize, usize)>, i: int)
    requires
        0 <= i < s.len(),
    ensures
        node_set(s).contains(s[i].0),
        node_set(s).contains(s[i].1),
    decreases s.len(),
{
    if i < s.len() - 1 {
        lemma_node_set_covers(s.drop_last(), i);
        assert(s.drop_last()[i] == s[i]);
    }
}

fn contains_node(v: &Vec<usize>, x: usize) -> (b: bool)
    ensures
        b == v@.contains(x),
{
    let mut j: usize = 0;
    while j < v.len()
        invariant
            j <= v@.len(),
            forall|k: int| 0 <= k < j ==> v@[k] != x,
        decreases v@.len() - j,
    {
        if v[j] == x {
            assert(v@.contains(x));
            return true;
        }
        j += 1;
    }
    assert(!v@.contains(x));
    false
}

/// Depth-first search over the facts read as directed edges, with an
/// explicit stack; each variable is expanded at most once.
///
/// Returns a non-negative step count when `to` is reachable from `from`
/// and -1 otherwise. The count is a best-effort measure of the traversal,
/// not a shortest-path distance: callers should rely on the sign alone,
/// which the contract pins down.
#[verifier::loop_isolation(false)]
#[verifier::rlimit(100)]
pub fn find_path(from: usize, to: usize, graph: &FactSet) -> (r: i64)
    ensures
        r >= -1,
        (r >= 0) <==> reachable(graph@, from, to),
{
    let edges = graph.edges();
    let ghost g = graph@;
    let ghost cand = node_set(edges@).insert(from);
    proof {
        lemma_node_set_finite(edges@);
    }
    let mut stack: Vec<usize> = Vec::new();
    let mut visited: Vec<usize> = Vec::new();
    let mut depth: i64 = 0;
    stack.push(from);
    proof {
        lemma_reachable_self(g, from);
        assert(stack@[0] == from);
        assert(stack@.contains(from));
    }
    while stack.len() > 0
        invariant
            forall|k: int| 0 <= k < stack@.len() ==> reachable(g, from, #[trigger] stack@[k]),
            forall|k: int| 0 <= k < stack@.len() ==> cand.contains(#[trigger] stack@[k]),
            forall|k: int| 0 <= k < visited@.len() ==> cand.contains(#[trigger] visited@[k]),
            forall|a: usize, b: usize|
                visited@.contains(a) && #[trigger] g.contains((a, b)) ==> visited@.contains(b)
                    || stack@.contains(b),
            visited@.contains(from) || stack@.contains(from),
            !visited@.contains(to),
            depth >= 0,
        decreases cand.difference(visited@.to_set()).len(), stack@.len(),
    {
        let ghost stack0 = stack@;
        let ghost visited0 = visited@;
        let visit = stack.pop().unwrap();
        assert(reachable(g, from, visit));
        if visit == to {
            return depth;
        }
        if depth < i64::MAX {
            depth = depth + 1;
        }
        if !contains_node(&visited, visit) {
            visited.push(visit);
            proof {
                assert(visited@[visited@.len() - 1] == visit);
                assert(visited@.contains(visit));
            }
            let ghost base = stack@;
            let mut j: usize = 0;
            while j < edges.len()
                invariant
                    j <= edges@.len(),
                    stack@.len() >= base.len(),
                    stack@.subrange(0, base.len() as int) == base,
                    forall|k: int| 0 <= k < stack@.len()
                        ==> reachable(g, from, #[trigger] stack@[k]),
                    forall|k: int| 0 <= k < stack@.len() ==> cand.contains(#[trigger] stack@[k]),
                    forall|j0: int| 0 <= j0 < j && (#[trigger] edges@[j0]).0 == visit
                        ==> stack@.contains(edges@[j0].1),
                decreases edges@.len() - j,
            {
                let e = edges[j];
                let ghost stack_before = stack@;
                if e.0 == visit {
                    proof {
                        assert(edges@.contains(e));
                        assert(g.contains(e));
                        assert(e == (e.0, e.1));
                        lemma_reachable_extend(g, from, visit, e.1);
                        lemma_node_set_covers(edges@, j as int);
                    }
                    stack.push(e.1);
                }
                proof {
                    assert forall|j0: int|
                        0 <= j0 < j + 1 && (#[trigger] edges@[j0]).0 == visit
                            implies stack@.contains(edges@[j0].1) by {
                        if j0 < j {
                            assert(stack_before.contains(edges@[j0].1));
                            let i = choose|i: int|
                                0 <= i < stack_before.len() && stack_before[i] == edges@[j0].1;
                            assert(stack@[i] == edges@[j0].1);
                        } else {
                            assert(stack@[stack@.len() - 1] == e.1);
                        }
                    }
                    assert(stack@.subrange(0, base.len() as int) =~= base);
                }
                j += 1;
            }
            proof {
                // The popped variable was new: the unvisited part of the
                // candidate set shrinks, which bounds the traversal.
                assert(cand.contains(visit));
                assert(!visited0.to_set().contains(visit));
                cand.lemma_set_insert_diff_decreases(visited0.to_set(), visit);
                assert forall|x: usize|
                    visited@.to_set().contains(x) <==> visited0.to_set().insert(visit).contains(x)
                    by {
                    if visited@.contains(x) {
                        let i = choose|i: int|
                            0 <= i < visited@.len() && visited@[i] == x;
                        if i < visited0.len() {
                            assert(visited0[i] == x);
                            assert(visited0.contains(x));
                        }
                    }
                    if visited0.contains(x) {
                        let i = choose|i: int|
                            0 <= i < visited0.len() && visited0[i] == x;
                        assert(visited@[i] == x);
                        assert(visited@.contains(x));
                    }
                    if x == visit {
                        assert(visited@[visited@.len() - 1] == visit);
                        assert(visited@.contains(visit));
                    }
                }
                assert(visited@.to_set() =~= visited0.to_set().insert(visit));
                // The edge-closure invariant is restored for the grown set.
                assert forall|a: usize, b: usize|
                    visited@.contains(a) && #[trigger] g.contains((a, b))
                        implies visited@.contains(b) || stack@.contains(b) by {
                    if a == visit {
                        assert(edges@.to_set().contains((visit, b)));
                        assert(edges@.contains((visit, b)));
                        let j0 = choose|j0: int|
                            0 <= j0 < edges@.len() && edges@[j0] == (visit, b);
                        assert(edges@[j0].0 == visit && edges@[j0].1 == b);
                        assert(stack@.contains(b));
                    } else {
                        assert(visited@.to_set().contains(a));
                        assert(visited0.contains(a) || a == visit);
                        assert(visited0.contains(a));
                        assert(visited0.contains(b) || stack0.contains(b));
                        if visited0.contains(b) {
                            let i = choose|i: int|
                                0 <= i < visited0.len() && visited0[i] == b;
                            assert(visited@[i] == b);
                            assert(visited@.contains(b));
                        } else {
                            let i = choose|i: int|
                                0 <= i < stack0.len() && stack0[i] == b;
                            if i < stack0.len() - 1 {
                                assert(base[i] == b);
                                assert(stack@[i] == b);
                                assert(stack@.contains(b));
                            } else {
                                assert(b == visit);
                                assert(visited@.contains(visit));
                            }
                        }
                    }
                }
                // The starting variable is still covered.
                if visited0.contains(from) {
                    let i = choose|i: int|
                        0 <= i < visited0.len() && visited0[i] == from;
                    assert(visited@[i] == from);
                    assert(visited@.contains(from));
                } else {
                    let i = choose|i: int| 0 <= i < stack0.len() && stack0[i] == from;
                    if i < stack0.len() - 1 {
                        assert(base[i] == from);
                        assert(stack@[i] == from);
                        assert(stack@.contains(from));
                    } else {
                        assert(visited@.contains(visit));
                    }
                }
                // `to` was never expanded.
                assert forall|i: int| 0 <= i < visited@.len() implies visited@[i] != to by {
                    if i < visited0.len() {
                        assert(visited0[i] != to);
                    }
                }
            }
        } else {
            proof {
                // Re-popping an expanded variable: the stack shrinks and
                // everything else is untouched.
                if visited0.contains(from) {
                } else {
                    let i = choose|i: int| 0 <= i < stack0.len() && stack0[i] == from;
                    if i < stack0.len() - 1 {
                        assert(stack@[i] == from);
                        assert(stack@.contains(from));
                    } else {
                        assert(visited@.contains(visit));
                    }
                }
                assert forall|a: usize, b: usize|
                    visited@.contains(a) && #[trigger] g.contains((a, b))
                        implies visited@.contains(b) || stack@.contains(b) by {
                    assert(visited0.contains(b) || stack0.contains(b));
                    if !visited0.contains(b) {
                        let i = choose|i: int| 0 <= i < stack0.len() && stack0[i] == b;
                        if i < stack0.len() - 1 {
                            assert(stack@[i] == b);
                            assert(stack@.contains(b));
                        } else {
                            assert(b == visit);
                            assert(visited@.contains(visit));
                        }
                    }
                }
            }
        }
    }
    proof {
        let s = visited@.to_set();
        assert(s.contains(from));
        assert forall|a: usize, b: usize|
            s.contains(a) && #[trigger] g.contains((a, b)) implies s.contains(b) by {
            assert(visited@.contains(b) || stack@.contains(b));
        }
        assert(!s.contains(to));
        lemma_closed_set_blocks(g, s, from, to);
    }
    -1
}

/// Whether the facts, read as directed edges, connect `from` to `to`.
pub fn path_exists(from: usize, to: usize, facts: &FactSet) -> (b: bool)
    ensures
        b == reachable(facts@, from, to),
{
    find_path(from, to, facts) >= 0
}

} // verus!
