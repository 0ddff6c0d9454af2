use vstd::prelude::*;

verus! {

/// One step of the reverse traversal: the node visited, and for every visit
/// but the first, the index of the visit it was reached from together with
/// the position of the edge taken in that node's parent list.
#[derive(Clone, Copy, Debug, PartialEq, Eq)]
pub struct Visit {
    pub node: usize,
    pub via: Option<(usize, usize)>,
}

/// The edges of every node are acyclic: each parent index is smaller than the
/// index of the node that names it.
pub open spec fn parents_ok<T>(ps: Seq<Seq<(T, usize)>>) -> bool {
    forall|i: int, j: int|
        0 <= i < ps.len() && 0 <= j < ps[i].len() ==> (#[trigger] ps[i][j]).1 < i
}

/// The visits made below node `n` (whose own visit has index `at`) through its
/// parent entries from position `j` on, when the first of them gets index `base`.
/// Each parent is visited, then everything below it, before the next parent.
pub open spec fn walk<T>(ps: Seq<Seq<(T, usize)>>, n: int, j: int, at: int, base: int) -> Seq<
    Visit,
>
    decreases n, ps[n].len() - j,
{
    if 0 <= n < ps.len() && 0 <= j < ps[n].len() && 0 <= ps[n][j].1 < n {
        let p = ps[n][j].1 as int;
        let sub = seq![Visit { node: p as usize, via: Some((at as usize, j as usize)) }] + walk(
            ps,
            p,
            0,
            base,
            base + 1,
        );
        sub + walk(ps, n, j + 1, at, base + sub.len())
    } else {
        seq![]
    }
}

/// The whole reverse traversal from `root`: the root itself, then every node
/// once for each path that leads to it from the root.
pub open spec fn tour<T>(ps: Seq<Seq<(T, usize)>>, root: int) -> Seq<Visit> {
    seq![Visit { node: root as usize, via: None }] + walk(ps, root, 0, 0, 1)
}

/// Visit `k` of `s` is reached through an edge that exists: it names an
/// earlier visit and a parent entry of that visit's node whose parent is the
/// node of visit `k`.
pub open spec fn step_ok<T>(ps: Seq<Seq<(T, usize)>>, s: Seq<Visit>, k: int) -> bool {
    match s[k].via {
        Some((at, j)) => {
            &&& at < k
            &&& s[at as int].node < ps.len()
            &&& j < ps[s[at as int].node as int].len()
            &&& ps[s[at as int].node as int][j as int].1 == s[k].node
        },
        None => false,
    }
}

/// `s` is a schedule for a reverse traversal from `root`: it starts at the
/// root, names only nodes of the graph, and every later visit follows an
/// edge from an earlier one. Computing the contributions in order along `s`
/// therefore only ever reads contributions that are already known.
pub open spec fn schedule_ok<T>(ps: Seq<Seq<(T, usize)>>, s: Seq<Visit>, root: int) -> bool {
    &&& s.len() >= 1
    &&& s[0] == (Visit { node: root as usize, via: None })
    &&& forall|k: int| 0 <= k < s.len() ==> (#[trigger] s[k]).node < ps.len()
    &&& forall|k: int| 1 <= k < s.len() ==> #[trigger] step_ok(ps, s, k)
}

/// Every parent list of `ps` has a length that a `usize` can count.
pub open spec fn lists_fit<T>(ps: Seq<Seq<(T, usize)>>) -> bool {
    forall|i: int| 0 <= i < ps.len() ==> (#[trigger] ps[i]).len() <= usize::MAX
}

proof fn lemma_walk_steps<T>(
    ps: Seq<Seq<(T, usize)>>,
    n: int,
    j: int,
    at: int,
    base: int,
    full: Seq<Visit>,
)
    requires
        parents_ok(ps),
        lists_fit(ps),
        full.len() <= usize::MAX,
        0 <= n < ps.len(),
        0 <= j,
        0 <= at < base,
        full[at].node == n,
        base + walk(ps, n, j, at, base).len() <= full.len(),
        full.subrange(base, base + walk(ps, n, j, at, base).len()) == walk(ps, n, j, at, base),
    ensures
        forall|k: int|
            base <= k < base + walk(ps, n, j, at, base).len() ==> {
                &&& #[trigger] step_ok(ps, full, k)
                &&& full[k].node < n
            },
    decreases n, ps[n].len() - j,
{
    let w = walk(ps, n, j, at, base);
    if 0 <= n < ps.len() && 0 <= j < ps[n].len() && 0 <= ps[n][j].1 < n {
        let p = ps[n][j].1 as int;
        let v = Visit { node: p as usize, via: Some((at as usize, j as usize)) };
        let below = walk(ps, p, 0, base, base + 1);
        let sub = seq![v] + below;
        let rest = walk(ps, n, j + 1, at, base + sub.len());
        assert(w == sub + rest);
        assert(full[base] == w[0]);
        assert(full.subrange(base + 1, base + 1 + below.len()) =~= below) by {
            assert forall|i: int| 0 <= i < below.len() implies full[base + 1 + i] == below[i] by {
                assert(full[base + 1 + i] == w[1 + i]);
            }
        }
        assert(full.subrange(base + sub.len(), base + sub.len() + rest.len()) =~= rest) by {
            assert forall|i: int| 0 <= i < rest.len() implies full[base + sub.len() + i] == rest[i] by {
                assert(full[base + sub.len() + i] == w[sub.len() + i]);
            }
        }
        lemma_walk_steps(ps, p, 0, base, base + 1, full);
        lemma_walk_steps(ps, n, j + 1, at, base + sub.len(), full);
        assert forall|k: int| base <= k < base + w.len() implies {
            &&& #[trigger] step_ok(ps, full, k)
            &&& full[k].node < n
        } by {
            if k == base {
                assert(full[k] == v);
            }
        }
    }
}

proof fn lemma_tour_schedule<T>(ps: Seq<Seq<(T, usize)>>, root: int)
    requires
        parents_ok(ps),
        lists_fit(ps),
        tour(ps, root).len() <= usize::MAX,
        0 <= root < ps.len(),
        root <= usize::MAX,
    ensures
        schedule_ok(ps, tour(ps, root), root),
{
    let s = tour(ps, root);
    let w = walk(ps, root, 0, 0, 1);
    assert(s.subrange(1, 1 + w.len() as int) =~= w);
    lemma_walk_steps(ps, root, 0, 0, 1, s);
    assert forall|k: int| 0 <= k < s.len() implies s[k].node < ps.len() by {
        if k > 0 {
            assert(step_ok(ps, s, k));
        } else {
            assert(s[0] == Visit { node: root as usize, via: None });
        }
    }
}

/// An arena of scalar nodes. Node `i` holds a value, an accumulated gradient
/// and its parents: pairs of a coefficient (the local partial derivative,
/// fixed when the node was made) and the index of an earlier node.
pub struct Graph<T> {
    values: Vec<T>,
    grads: Vec<T>,
    parents: Vec<Vec<(T, usize)>>,
    zero: T,
}

impl<T: Copy> Graph<T> {
    pub closed spec fn values(&self) -> Seq<T> {
        self.values@
    }

    pub closed spec fn grads(&self) -> Seq<T> {
        self.grads@
    }

    pub closed spec fn parent_lists(&self) -> Seq<Seq<(T, usize)>> {
        self.parents@.map_values(|p: Vec<(T, usize)>| p@)
    }

    /// The value that gradients start from and are reset to.
    pub closed spec fn zero(&self) -> T {
        self.zero
    }

    pub open spec fn len(&self) -> nat {
        self.values().len()
    }

    /// Every node has a value, a gradient and a parent list, and parents
    /// come before the nodes that name them.
    pub open spec fn wf(&self) -> bool {
        &&& self.grads().len() == self.len()
        &&& self.parent_lists().len() == self.len()
        &&& parents_ok(self.parent_lists())
        &&& lists_fit(self.parent_lists())
    }

    /// An empty graph whose gradients start at `zero`.
    pub fn new(zero: T) -> (g: Self)
        ensures
            g.wf(),
            g.len() == 0,
            g.parent_lists().len() == 0,
            g.grads().len() == 0,
            g.zero() == zero,
    {
        Graph { values: Vec::new(), grads: Vec::new(), parents: Vec::new(), zero }
    }

    pub fn size(&self) -> (r: usize)
        requires
            self.wf(),
        ensures
            r == self.len(),
    {
        self.values.len()
    }

    /// A new leaf holding `value`, its gradient at zero. Earlier nodes are untouched.
    pub fn leaf(&mut self, value: T) -> (id: usize)
        requires
            old(self).wf(),
        ensures
            final(self).wf(),
            id == old(self).len(),
            final(self).values() == old(self).values().push(value),
            final(self).grads() == old(self).grads().push(old(self).zero()),
            final(self).parent_lists() == old(self).parent_lists().push(seq![]),
            final(self).zero() == old(self).zero(),
    {
        let id = self.values.len();
        self.values.push(value);
        self.grads.push(self.zero);
        self.parents.push(Vec::new());
        assert(self.parent_lists() =~= old(self).parent_lists().push(seq![]));
        id
    }

    /// A new node computed from earlier nodes: `value` is its value, and each
    /// entry of `parents` a coefficient and the index of an operand. Returns
    /// `None`, and leaves the graph as it was, when some index names no node
    /// of the graph.
    pub fn node(&mut self, value: T, parents: Vec<(T, usize)>) -> (r: Option<usize>)
        requires
            old(self).wf(),
        ensures
            final(self).wf(),
            final(self).zero() == old(self).zero(),
            (forall|j: int| 0 <= j < parents@.len() ==> (#[trigger] parents@[j]).1 < old(self).len())
                <==> r.is_some(),
            r.is_some() ==> {
                &&& r == Some(old(self).len() as usize)
                &&& final(self).values() == old(self).values().push(value)
                &&& final(self).grads() == old(self).grads().push(old(self).zero())
                &&& final(self).parent_lists() == old(self).parent_lists().push(parents@)
            },
            r.is_none() ==> *final(self) == *old(self),
    {
        let n = self.values.len();
        let mut k: usize = 0;
        while k < parents.len()
            invariant
                k <= parents@.len(),
                *self == *old(self),
                self.wf(),
                n == self.len(),
                forall|j: int| 0 <= j < k ==> (#[trigger] parents@[j]).1 < n,
            decreases parents@.len() - k,
        {
            if parents[k].1 >= n {
                return None;
            }
            k = k + 1;
        }
        let ghost ps = parents@;
        self.values.push(value);
        self.grads.push(self.zero);
        self.parents.push(parents);
        assert(self.parent_lists() =~= old(self).parent_lists().push(ps));
        Some(n)
    }

    /// The value of node `i`.
    pub fn value(&self, i: usize) -> (r: T)
        requires
            self.wf(),
            i < self.len(),
        ensures
            r == self.values()[i as int],
    {
        self.values[i]
    }

    /// The gradient accumulated at node `i`.
    pub fn grad(&self, i: usize) -> (r: T)
        requires
            self.wf(),
            i < self.len(),
        ensures
            r == self.grads()[i as int],
    {
        self.grads[i]
    }

    /// Overwrites the value of node `i`. No other value, no gradient and no
    /// edge changes: nodes made from `i` keep the value they were made with.
    pub fn set_value(&mut self, i: usize, v: T)
        requires
            old(self).wf(),
            i < old(self).len(),
        ensures
            final(self).wf(),
            final(self).values() == old(self).values().update(i as int, v),
            final(self).grads() == old(self).grads(),
            final(self).parent_lists() == old(self).parent_lists(),
            final(self).zero() == old(self).zero(),
    {
        self.values.set(i, v);
    }

    /// Overwrites the gradient of node `i`, and nothing else.
    pub fn set_grad(&mut self, i: usize, v: T)
        requires
            old(self).wf(),
            i < old(self).len(),
        ensures
            final(self).wf(),
            final(self).grads() == old(self).grads().update(i as int, v),
            final(self).values() == old(self).values(),
            final(self).parent_lists() == old(self).parent_lists(),
            final(self).zero() == old(self).zero(),
    {
        self.grads.set(i, v);
    }

    /// The number of parent entries of node `i` (zero for a leaf).
    pub fn arity(&self, i: usize) -> (r: usize)
        requires
            self.wf(),
            i < self.len(),
        ensures
            r == self.parent_lists()[i as int].len(),
    {
        self.parents[i].len()
    }

    /// Entry `j` of node `i`'s parents: the coefficient and the parent's index.
    pub fn parent(&self, i: usize, j: usize) -> (r: (T, usize))
        requires
            self.wf(),
            i < self.len(),
            j < self.parent_lists()[i as int].len(),
        ensures
            r == self.parent_lists()[i as int][j as int],
            r.1 < i,
    {
        self.parents[i][j]
    }

    /// Appends to `out` the visits below node `n` through its parent entries
    /// from position `j` on, node `n` itself being visit `at`.
    fn walk_into(&self, n: usize, j: usize, at: usize, out: &mut Vec<Visit>)
        requires
            self.wf(),
            n < self.len(),
            j <= self.parent_lists()[n as int].len(),
        ensures
            final(out)@ == old(out)@ + walk(self.parent_lists(), n as int, j as int, at as int, old(out)@.len() as int),
        decreases n, self.parent_lists()[n as int].len() - j,
    {
        let ghost ps = self.parent_lists();
        if j < self.parents[n].len() {
            assert(ps[n as int][j as int] == self.parents@[n as int]@[j as int]);
            let p = self.parents[n][j].1;
            assert(p < n);
            let base = out.len();
            out.push(Visit { node: p, via: Some((at, j)) });
            self.walk_into(p, 0, base, out);
            let ghost sub = seq![Visit { node: p, via: Some((at, j)) }] + walk(ps, p as int, 0, base as int, base + 1);
            assert(out@ =~= old(out)@ + sub);
            self.walk_into(n, j + 1, at, out);
            assert(out@ =~= old(out)@ + walk(ps, n as int, j as int, at as int, old(out)@.len() as int));
        } else {
            assert(out@ =~= old(out)@ + walk(ps, n as int, j as int, at as int, old(out)@.len() as int));
        }
    }

    /// The reverse traversal from `root`, as the list of visits it makes: the
    /// root first; then, for each parent entry in order, the parent and all
    /// the visits below it. A node reached along several paths is visited once
    /// per path.
    pub fn tour(&self, root: usize) -> (r: Vec<Visit>)
        requires
            self.wf(),
            root < self.len(),
        ensures
            r@ == tour(self.parent_lists(), root as int),
            schedule_ok(self.parent_lists(), r@, root as int),
    {
        let mut out: Vec<Visit> = Vec::new();
        out.push(Visit { node: root, via: None });
        self.walk_into(root, 0, 0, &mut out);
        assert(out@ =~= tour(self.parent_lists(), root as int));
        // `len` returns a `usize`, which bounds the number of visits.
        let count = out.len();
        proof {
            assert(count == out@.len());
            lemma_tour_schedule(self.parent_lists(), root as int);
        }
        out
    }

    /// Sets the gradient of every node back to zero. Values and edges stay.
    pub fn clear_grads(&mut self)
        requires
            old(self).wf(),
        ensures
            final(self).wf(),
            final(self).grads() == Seq::new(old(self).len(), |i: int| old(self).zero()),
            final(self).values() == old(self).values(),
            final(self).parent_lists() == old(self).parent_lists(),
            final(self).zero() == old(self).zero(),
    {
        let n = self.grads.len();
        let mut i: usize = 0;
        while i < n
            invariant
                i <= n,
                n == old(self).len(),
                self.wf(),
                self.values() == old(self).values(),
                self.parent_lists() == old(self).parent_lists(),
                self.zero() == old(self).zero(),
                self.grads().len() == n,
                forall|k: int| 0 <= k < i ==> self.grads()[k] == self.zero(),
            decreases n - i,
        {
            let z = self.zero;
            self.grads.set(i, z);
            i = i + 1;
        }
        assert(self.grads() =~= Seq::new(old(self).len(), |i: int| old(self).zero()));
    }

    /// Drops every node from index `len` on. The nodes kept are unchanged; no
    /// kept node can name a dropped one, since parents come first.
    pub fn truncate(&mut self, len: usize)
        requires
            old(self).wf(),
        ensures
            final(self).wf(),
            len <= old(self).len() ==> {
                &&& final(self).values() == old(self).values().subrange(0, len as int)
                &&& final(self).grads() == old(self).grads().subrange(0, len as int)
                &&& final(self).parent_lists() == old(self).parent_lists().subrange(0, len as int)
            },
            len > old(self).len() ==> *final(self) == *old(self),
            final(self).zero() == old(self).zero(),
    {
        if len <= self.values.len() {
            self.values.truncate(len);
            self.grads.truncate(len);
            self.parents.truncate(len);
            assert(self.parent_lists() =~= old(self).parent_lists().subrange(0, len as int));
        }
    }
}

/// Values and coefficients are frozen when a node is made: overwriting the
/// value of node `a` (as `set_value` does) changes neither the value nor the
/// parent entries of any other node `c`, in particular of one built from `a`.
pub proof fn lemma_set_value_keeps_other_nodes<T: Copy>(
    before: Graph<T>,
    after: Graph<T>,
    a: int,
    v: T,
    c: int,
)
    requires
        before.wf(),
        0 <= a < before.len(),
        0 <= c < before.len(),
        c != a,
        after.values() == before.values().update(a, v),
        after.parent_lists() == before.parent_lists(),
    ensures
        after.values()[c] == before.values()[c],
        after.parent_lists()[c] == before.parent_lists()[c],
        after.len() == before.len(),
{
}

/// Resetting leaves nothing behind: once `clear_grads` has run, the graph
/// holds exactly what a graph with the same values and edges whose gradients
/// were never touched holds, so a traversal run next starts from the same
/// state as a first one.
pub proof fn lemma_cleared_graph_is_fresh<T: Copy>(
    before: Graph<T>,
    cleared: Graph<T>,
    fresh: Graph<T>,
)
    requires
        before.wf(),
        cleared.grads() == Seq::new(before.len(), |i: int| before.zero()),
        cleared.values() == before.values(),
        cleared.parent_lists() == before.parent_lists(),
        fresh.wf(),
        fresh.values() == before.values(),
        fresh.parent_lists() == before.parent_lists(),
        fresh.zero() == before.zero(),
        forall|i: int| 0 <= i < fresh.len() ==> #[trigger] fresh.grads()[i] == fresh.zero(),
    ensures
        cleared.grads() == fresh.grads(),
        cleared.values() == fresh.values(),
        cleared.parent_lists() == fresh.parent_lists(),
{
    assert(cleared.grads() =~= fresh.grads());
}

} // verus!
