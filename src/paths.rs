use vstd::prelude::*;

use crate::graph::{parents_ok, tour, walk, Visit};

verus! {

/// How many visits in `s` are visits of node `m`.
pub open spec fn occurrences(s: Seq<Visit>, m: int) -> nat
    decreases s.len(),
{
    if s.len() == 0 {
        0
    } else {
        occurrences(s.drop_last(), m) + if s.last().node == m {
            1nat
        } else {
            0nat
        }
    }
}

/// The number of paths to `m` that start with one of node `n`'s parent
/// entries from position `j` on.
pub open spec fn walk_paths<T>(ps: Seq<Seq<(T, usize)>>, n: int, j: int, m: int) -> nat
    decreases n, ps[n].len() - j,
{
    if 0 <= n < ps.len() && 0 <= j < ps[n].len() && 0 <= ps[n][j].1 < n {
        let p = ps[n][j].1 as int;
        (if p == m {
            1nat
        } else {
            0nat
        }) + walk_paths(ps, p, 0, m) + walk_paths(ps, n, j + 1, m)
    } else {
        0
    }
}

/// The number of paths from node `n` to node `m` along parent entries, the
/// empty path included when the two are the same node. Two entries that name
/// the same parent give two paths.
pub open spec fn path_count<T>(ps: Seq<Seq<(T, usize)>>, n: int, m: int) -> nat {
    (if n == m {
        1nat
    } else {
        0nat
    }) + walk_paths(ps, n, 0, m)
}

proof fn lemma_occurrences_add(a: Seq<Visit>, b: Seq<Visit>, m: int)
    ensures
        occurrences(a + b, m) == occurrences(a, m) + occurrences(b, m),
    decreases b.len(),
{
    if b.len() == 0 {
        assert(a + b =~= a);
    } else {
        assert((a + b).drop_last() =~= a + b.drop_last());
        lemma_occurrences_add(a, b.drop_last(), m);
    }
}

proof fn lemma_occurrences_one(v: Visit, m: int)
    ensures
        occurrences(seq![v], m) == if v.node == m {
            1nat
        } else {
            0nat
        },
{
    assert(seq![v].drop_last() =~= Seq::<Visit>::empty());
    assert(occurrences(Seq::<Visit>::empty(), m) == 0);
    assert(seq![v].last() == v);
}

proof fn lemma_walk_occurrences<T>(
    ps: Seq<Seq<(T, usize)>>,
    n: int,
    j: int,
    at: int,
    base: int,
    m: int,
)
    requires
        0 <= m,
    ensures
        occurrences(walk(ps, n, j, at, base), m) == walk_paths(ps, n, j, m),
    decreases n, ps[n].len() - j,
{
    if 0 <= n < ps.len() && 0 <= j < ps[n].len() && 0 <= ps[n][j].1 < n {
        let p = ps[n][j].1 as int;
        let v = Visit { node: p as usize, via: Some((at as usize, j as usize)) };
        let below = walk(ps, p, 0, base, base + 1);
        let sub = seq![v] + below;
        let rest = walk(ps, n, j + 1, at, base + sub.len());
        lemma_walk_occurrences(ps, p, 0, base, base + 1, m);
        lemma_walk_occurrences(ps, n, j + 1, at, base + sub.len(), m);
        lemma_occurrences_one(v, m);
        lemma_occurrences_add(seq![v], below, m);
        lemma_occurrences_add(sub, rest, m);
    } else {
        assert(walk(ps, n, j, at, base) =~= Seq::<Visit>::empty());
    }
}

proof fn lemma_no_path_upward<T>(ps: Seq<Seq<(T, usize)>>, n: int, j: int, m: int)
    requires
        parents_ok(ps),
        n <= m,
    ensures
        walk_paths(ps, n, j, m) == 0,
    decreases n, ps[n].len() - j,
{
    if 0 <= n < ps.len() && 0 <= j < ps[n].len() && 0 <= ps[n][j].1 < n {
        let p = ps[n][j].1 as int;
        lemma_no_path_upward(ps, p, 0, m);
        lemma_no_path_upward(ps, n, j + 1, m);
    }
}

/// Gradients are summed over paths: the reverse traversal from `root` visits
/// each node `m` exactly once for every path from `root` to `m`, so every
/// path adds its own contribution to `m`'s gradient.
pub proof fn lemma_tour_visits_per_path<T>(ps: Seq<Seq<(T, usize)>>, root: int, m: int)
    requires
        0 <= root <= usize::MAX,
        0 <= m,
    ensures
        occurrences(tour(ps, root), m) == path_count(ps, root, m),
{
    let v = Visit { node: root as usize, via: None };
    lemma_occurrences_one(v, m);
    lemma_walk_occurrences(ps, root, 0, 0, 1, m);
    lemma_occurrences_add(seq![v], walk(ps, root, 0, 0, 1), m);
}

/// A node used as both operands of another, as `x` in `f = x * x`, is reached
/// from `f` along two paths: the traversal from `f` visits it twice, once
/// through each entry, and so adds two contributions to its gradient.
pub proof fn lemma_shared_operand_visited_twice<T>(ps: Seq<Seq<(T, usize)>>, f: int, x: int)
    requires
        parents_ok(ps),
        0 <= f < ps.len(),
        f <= usize::MAX,
        ps[f].len() == 2,
        ps[f][0].1 == x,
        ps[f][1].1 == x,
    ensures
        occurrences(tour(ps, f), x) == 2,
        tour(ps, f)[1] == (Visit { node: x as usize, via: Some((0, 0)) }),
{
    assert(ps[f][0].1 < f);
    lemma_tour_visits_per_path(ps, f, x);
    lemma_no_path_upward(ps, x, 0, x);
    assert(walk_paths(ps, f, 2, x) == 0);
    assert(walk_paths(ps, f, 1, x) == 1);
    assert(walk_paths(ps, f, 0, x) == 2);
}

} // verus!
