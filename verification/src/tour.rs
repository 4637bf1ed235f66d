//! Tours through a complete graph of `n` nodes, built one node at a time.
use vstd::prelude::*;
use vstd::set_lib::*;

verus! {

/// `s` lists nodes of a graph of `n` nodes, each at most once.
pub open spec fn is_simple_path(s: Seq<usize>, n: nat) -> bool {
    &&& forall|k: int| 0 <= k < s.len() ==> #[trigger] s[k] < n
    &&& s.no_duplicates()
}

/// `s` visits every node of a graph of `n` nodes exactly once.
pub open spec fn is_permutation(s: Seq<usize>, n: nat) -> bool {
    &&& is_simple_path(s, n)
    &&& s.len() == n
}

/// The `k`-th edge of the path `s`: from its `k`-th node to the next one.
pub open spec fn path_edge(s: Seq<usize>, k: int) -> (usize, usize) {
    (s[k], s[k + 1])
}

/// The `k`-th edge of the closed tour `s`: the last node leads back to the first.
pub open spec fn tour_edge(s: Seq<usize>, k: int) -> (usize, usize) {
    (s[k], s[(k + 1) % (s.len() as int)])
}

/// The `k`-th edge of a path leaves the path's `k`-th node and enters its
/// `(k + 1)`-th node, so each edge starts where the one before it ends.
pub proof fn lemma_path_edges_follow_the_path(s: Seq<usize>, k: int)
    requires
        0 <= k,
        k + 1 < s.len(),
    ensures
        path_edge(s, k).0 == s[k],
        path_edge(s, k).1 == s[k + 1],
        s.contains(path_edge(s, k).0),
        s.contains(path_edge(s, k).1),
        k + 2 < s.len() ==> path_edge(s, k).1 == path_edge(s, k + 1).0,
{
    assert(s[k] == path_edge(s, k).0);
    assert(s[k + 1] == path_edge(s, k).1);
}

/// The `k`-th edge of a closed tour leaves the tour's `k`-th node; it enters the
/// next node, and the last edge returns to the first node. Consecutive edges
/// share their node.
pub proof fn lemma_tour_edges_close_the_tour(s: Seq<usize>, k: int)
    requires
        s.len() > 1,
        0 <= k < s.len(),
    ensures
        tour_edge(s, k).0 == s[k],
        k + 1 < s.len() ==> tour_edge(s, k).1 == s[k + 1],
        k + 1 == s.len() ==> tour_edge(s, k).1 == s[0],
        s.contains(tour_edge(s, k).0),
        s.contains(tour_edge(s, k).1),
        k + 1 < s.len() ==> tour_edge(s, k).1 == tour_edge(s, k + 1).0,
{
    let len = s.len() as int;
    if k + 1 < len {
        assert((k + 1) % len == k + 1) by (nonlinear_arith)
            requires 0 <= k, k + 1 < len;
        assert(s[k + 1] == tour_edge(s, k).1);
    } else {
        assert((k + 1) % len == 0) by (nonlinear_arith)
            requires k + 1 == len, len > 1;
        assert(s[0] == tour_edge(s, k).1);
    }
    assert(s[k] == tour_edge(s, k).0);
}

/// The nodes of `0..n` as a set of integers.
pub open spec fn node_set(n: nat) -> Set<int> {
    set_int_range(0, n as int)
}

/// A simple path of `n` nodes through a graph of `n` nodes contains every node:
/// a completed tour is a permutation of the graph's nodes.
pub proof fn lemma_permutation_covers_all_nodes(s: Seq<usize>, n: nat)
    requires
        is_permutation(s, n),
    ensures
        forall|j: usize| j < n ==> #[trigger] s.contains(j),
{
    let ints = s.map_values(|x: usize| x as int);
    assert(ints.no_duplicates()) by {
        assert forall|a: int, b: int|
            0 <= a < ints.len() && 0 <= b < ints.len() && a != b implies ints[a] != ints[b] by {
            assert(s[a] != s[b]);
        }
    }
    ints.unique_seq_to_set();
    lemma_int_range(0, n as int);
    assert(ints.to_set().subset_of(node_set(n))) by {
        assert forall|x: int| ints.to_set().contains(x) implies node_set(n).contains(x) by {
            let k = choose|k: int| 0 <= k < ints.len() && ints[k] == x;
            assert(s[k] < n);
        }
    }
    lemma_subset_equality(ints.to_set(), node_set(n));
    assert forall|j: usize| j < n implies #[trigger] s.contains(j) by {
        assert(node_set(n).contains(j as int));
        assert(ints.to_set().contains(j as int));
        let k = choose|k: int| 0 <= k < ints.len() && ints[k] == j as int;
        assert(s[k] == j);
    }
}

/// A simple path through a graph of `n` nodes that misses no node has all `n` nodes.
pub proof fn lemma_covering_path_is_complete(s: Seq<usize>, n: nat)
    requires
        n <= usize::MAX,
        is_simple_path(s, n),
        forall|j: usize| j < n ==> #[trigger] s.contains(j),
    ensures
        s.len() == n,
{
    let ints = s.map_values(|x: usize| x as int);
    assert(ints.no_duplicates()) by {
        assert forall|a: int, b: int|
            0 <= a < ints.len() && 0 <= b < ints.len() && a != b implies ints[a] != ints[b] by {
            assert(s[a] != s[b]);
        }
    }
    ints.unique_seq_to_set();
    lemma_int_range(0, n as int);
    assert(ints.to_set() =~= node_set(n)) by {
        assert forall|x: int| ints.to_set().contains(x) implies node_set(n).contains(x) by {
            let k = choose|k: int| 0 <= k < ints.len() && ints[k] == x;
            assert(s[k] < n);
        }
        assert forall|x: int| node_set(n).contains(x) implies ints.to_set().contains(x) by {
            assert(0 <= x < n);
            let j = x as usize;
            assert(s.contains(j));
            let k = choose|k: int| 0 <= k < s.len() && s[k] == j;
            assert(ints[k] == x);
        }
    }
}

/// The partial tour of one ant: the nodes it has visited so far, in order,
/// starting from its start node. The ant stands on the last node of the tour.
pub struct TourBuilder {
    n: usize,
    visited: Vec<bool>,
    tour: Vec<usize>,
}

impl View for TourBuilder {
    type V = Seq<usize>;

    /// The nodes visited so far, in the order of the visits.
    closed spec fn view(&self) -> Seq<usize> {
        self.tour@
    }
}

impl TourBuilder {
    /// The number of nodes of the graph the ant walks.
    pub closed spec fn node_count(&self) -> nat {
        self.n as nat
    }

    /// The visited flags agree with the tour, and the tour is a nonempty simple path.
    pub closed spec fn wf(&self) -> bool {
        &&& self.visited.len() == self.n
        &&& self.tour.len() >= 1
        &&& is_simple_path(self.tour@, self.n as nat)
        &&& forall|j: int| 0 <= j < self.n ==> (#[trigger] self.visited[j] <==> self.tour@.contains(j as usize))
    }

    /// An ant placed on `start` in a graph of `n` nodes; `start` is its only visited node.
    pub fn new(n: usize, start: usize) -> (b: Self)
        requires
            start < n,
        ensures
            b.wf(),
            b.node_count() == n,
            b@ == seq![start],
    {
        let mut visited: Vec<bool> = Vec::new();
        let mut j: usize = 0;
        while j < n
            invariant
                j <= n,
                start < n,
                visited.len() == j,
                forall|k: int| 0 <= k < j ==> visited[k] == (k == start),
            decreases n - j,
        {
            visited.push(j == start);
            j = j + 1;
        }
        let mut tour: Vec<usize> = Vec::new();
        tour.push(start);
        let b = TourBuilder { n, visited, tour };
        assert forall|k: int| 0 <= k < n implies (#[trigger] b.visited[k] <==> b.tour@.contains(k as usize)) by {
            if b.tour@.contains(k as usize) {
                let i = choose|i: int| 0 <= i < b.tour@.len() && b.tour@[i] == k as usize;
                assert(i == 0);
            }
            if k == start {
                assert(b.tour@[0] == start);
            }
        }
        b
    }

    /// The number of nodes of the graph.
    pub fn n(&self) -> (r: usize)
        ensures
            r == self.node_count(),
    {
        self.n
    }

    /// The node the ant stands on: the last one it visited.
    pub fn current(&self) -> (r: usize)
        requires
            self.wf(),
        ensures
            r == self@.last(),
            r < self.node_count(),
    {
        self.tour[self.tour.len() - 1]
    }

    /// The number of nodes visited so far.
    pub fn len(&self) -> (r: usize)
        ensures
            r == self@.len(),
    {
        self.tour.len()
    }

    /// Whether node `j` has been visited.
    pub fn is_visited(&self, j: usize) -> (r: bool)
        requires
            self.wf(),
            j < self.node_count(),
        ensures
            r == self@.contains(j),
    {
        self.visited[j]
    }

    /// Whether every node of the graph has been visited.
    pub fn is_complete(&self) -> (r: bool)
        requires
            self.wf(),
        ensures
            r == (self@.len() == self.node_count()),
            r ==> is_permutation(self@, self.node_count()),
            r <==> forall|j: usize| j < self.node_count() ==> #[trigger] self@.contains(j),
    {
        proof {
            if self@.len() == self.node_count() {
                lemma_permutation_covers_all_nodes(self@, self.node_count());
            }
            if forall|j: usize| j < self.node_count() ==> #[trigger] self@.contains(j) {
                lemma_covering_path_is_complete(self@, self.node_count());
            }
        }
        self.tour.len() == self.n
    }

    /// The nodes the ant may move to next: every node not yet visited, in
    /// increasing order. The current node is visited, so it is never a candidate.
    pub fn candidates(&self) -> (r: Vec<usize>)
        requires
            self.wf(),
        ensures
            forall|k: int| 0 <= k < r.len() ==> #[trigger] r[k] < self.node_count(),
            forall|a: int, b: int| 0 <= a < b < r.len() ==> r[a] < r[b],
            forall|j: usize| j < self.node_count() ==> (r@.contains(j) <==> !self@.contains(j)),
            r.len() == 0 <==> self@.len() == self.node_count(),
    {
        let mut r: Vec<usize> = Vec::new();
        let mut j: usize = 0;
        while j < self.n
            invariant
                self.wf(),
                j <= self.n,
                forall|k: int| 0 <= k < r.len() ==> #[trigger] r[k] < j,
                forall|a: int, b: int| 0 <= a < b < r.len() ==> r[a] < r[b],
                forall|i: usize| i < j ==> (r@.contains(i) <==> !self@.contains(i)),
            decreases self.n - j,
        {
            let ghost old_r = r@;
            if !self.visited[j] {
                r.push(j);
                assert forall|i: usize| i < j + 1 implies (r@.contains(i) <==> !self@.contains(i)) by {
                    if i < j {
                        if r@.contains(i) {
                            let k = choose|k: int| 0 <= k < r@.len() && r@[k] == i;
                            if k < old_r.len() {
                                assert(old_r.contains(i));
                            }
                        }
                        if old_r.contains(i) {
                            let k = choose|k: int| 0 <= k < old_r.len() && old_r[k] == i;
                            assert(r@[k] == i);
                        }
                    } else {
                        assert(r@[r@.len() - 1] == i);
                    }
                }
            } else {
                assert forall|i: usize| i < j + 1 implies (r@.contains(i) <==> !self@.contains(i)) by {
                    if i == j {
                        if r@.contains(i) {
                            let k = choose|k: int| 0 <= k < r@.len() && r@[k] == i;
                            assert(r[k] < j);
                        }
                    }
                }
            }
            j = j + 1;
        }
        proof {
            if r.len() == 0 {
                assert forall|i: usize| i < self.node_count() implies #[trigger] self@.contains(i) by {
                    assert(!r@.contains(i));
                }
                lemma_covering_path_is_complete(self@, self.node_count());
            }
            if self@.len() == self.node_count() {
                lemma_permutation_covers_all_nodes(self@, self.node_count());
                if r.len() > 0 {
                    assert(r@.contains(r[0]));
                    assert(self@.contains(r[0]));
                }
            }
        }
        r
    }

    /// Moves the ant to the unvisited node `next`, which joins the end of the tour.
    pub fn advance(&mut self, next: usize)
        requires
            old(self).wf(),
            next < old(self).node_count(),
            !old(self)@.contains(next),
        ensures
            final(self).wf(),
            final(self).node_count() == old(self).node_count(),
            final(self)@ == old(self)@.push(next),
    {
        let ghost old_tour = self.tour@;
        self.visited.set(next, true);
        self.tour.push(next);
        proof {
            assert forall|a: int, b: int|
                0 <= a < self.tour@.len() && 0 <= b < self.tour@.len() && a != b
                implies self.tour@[a] != self.tour@[b] by {
                if a == old_tour.len() as int && b < old_tour.len() {
                    assert(old_tour.contains(old_tour[b]));
                } else if b == old_tour.len() as int && a < old_tour.len() {
                    assert(old_tour.contains(old_tour[a]));
                }
            }
            assert forall|j: int| 0 <= j < self.n implies (#[trigger] self.visited[j] <==> self.tour@.contains(j as usize)) by {
                if j == next as int {
                    assert(self.tour@[self.tour@.len() - 1] == next);
                } else {
                    if self.tour@.contains(j as usize) {
                        let k = choose|k: int| 0 <= k < self.tour@.len() && self.tour@[k] == j as usize;
                        assert(old_tour[k] == j as usize);
                    }
                    if old_tour.contains(j as usize) {
                        let k = choose|k: int| 0 <= k < old_tour.len() && old_tour[k] == j as usize;
                        assert(self.tour@[k] == j as usize);
                    }
                }
            }
        }
    }

    /// The tour walked so far.
    pub fn into_tour(self) -> (r: Vec<usize>)
        ensures
            r@ == self@,
    {
        self.tour
    }
}

/// The nodes `0, 1, .., n - 1` in order: the tour that visits the nodes as they are numbered.
pub fn identity_tour(n: usize) -> (r: Vec<usize>)
    ensures
        r.len() == n,
        forall|k: int| 0 <= k < n ==> #[trigger] r[k] == k,
        is_permutation(r@, n as nat),
{
    let mut r: Vec<usize> = Vec::new();
    let mut i: usize = 0;
    while i < n
        invariant
            i <= n,
            r.len() == i,
            forall|k: int| 0 <= k < i ==> #[trigger] r[k] == k,
        decreases n - i,
    {
        r.push(i);
        i = i + 1;
    }
    r
}

/// The consecutive pairs of `path`: the edges it walks, first to last.
pub fn path_windows(path: &[usize]) -> (r: Vec<(usize, usize)>)
    ensures
        path.len() == 0 ==> r.len() == 0,
        path.len() > 0 ==> r.len() == path.len() - 1,
        forall|k: int| 0 <= k < r.len() ==> #[trigger] r[k] == path_edge(path@, k),
        forall|k: int| 0 <= k < r.len() ==> (#[trigger] r[k]).0 == path[k] && r[k].1 == path[k + 1],
        forall|k: int| 0 <= k < r.len() ==> path@.contains((#[trigger] r[k]).0) && path@.contains(r[k].1),
        forall|k: int| 0 <= k && k + 1 < r.len() ==> (#[trigger] r[k]).1 == r[k + 1].0,
{
    let mut r: Vec<(usize, usize)> = Vec::new();
    if path.len() == 0 {
        return r;
    }
    let mut k: usize = 0;
    while k + 1 < path.len()
        invariant
            path.len() > 0,
            k < path.len(),
            r.len() == k,
            forall|i: int| 0 <= i < k ==> #[trigger] r[i] == path_edge(path@, i),
            forall|i: int| 0 <= i < k ==> (#[trigger] r[i]).0 == path[i] && r[i].1 == path[i + 1],
        decreases path.len() - k,
    {
        r.push((path[k], path[k + 1]));
        k = k + 1;
    }
    assert forall|i: int| 0 <= i < r.len() implies path@.contains((#[trigger] r[i]).0) && path@.contains(r[i].1) by {
        assert(path@[i] == r[i].0);
        assert(path@[i + 1] == r[i].1);
    }
    r
}

/// The edges of `tour` read as a closed tour: its consecutive pairs, then the
/// edge from its last node back to its first. A tour of at most one node has no edges.
pub fn tour_edges(tour: &[usize]) -> (r: Vec<(usize, usize)>)
    ensures
        tour.len() <= 1 ==> r.len() == 0,
        tour.len() > 1 ==> r.len() == tour.len(),
        forall|k: int| 0 <= k < r.len() ==> #[trigger] r[k] == tour_edge(tour@, k),
        forall|k: int| 0 <= k && k + 1 < r.len() ==> (#[trigger] r[k]).0 == tour[k] && r[k].1 == tour[k + 1],
        tour.len() > 1 ==> r[tour.len() - 1] == (tour[tour.len() - 1], tour[0]),
        forall|k: int| 0 <= k < r.len() ==> tour@.contains((#[trigger] r[k]).0) && tour@.contains(r[k].1),
        forall|k: int| 0 <= k && k + 1 < r.len() ==> (#[trigger] r[k]).1 == r[k + 1].0,
{
    let mut r = path_windows(tour);
    if tour.len() > 1 {
        let last = tour[tour.len() - 1];
        r.push((last, tour[0]));
        assert forall|k: int| 0 <= k < r.len() implies #[trigger] r[k] == tour_edge(tour@, k) by {
            let len = tour@.len() as int;
            if k < len - 1 {
                assert((k + 1) % len == k + 1) by (nonlinear_arith)
                    requires 0 <= k < len - 1;
            } else {
                assert((k + 1) % len == 0) by (nonlinear_arith)
                    requires k == len - 1, len > 1;
            }
        }
        assert forall|k: int| 0 <= k < r.len() implies tour@.contains((#[trigger] r[k]).0) && tour@.contains(r[k].1) by {
            assert(tour@[k] == r[k].0);
            if k + 1 < r.len() {
                assert(tour@[k + 1] == r[k].1);
            } else {
                assert(tour@[0] == r[k].1);
            }
        }
    }
    r
}

} // verus!
