//! The pheromone matrix: one trail level per ordered pair of nodes.
use vstd::prelude::*;

verus! {

/// An `n` by `n` matrix of trail levels of type `T`, with the evaporation
/// rate `rho` that the colony applies to it.
#[derive(Clone, Debug)]
pub struct PheromoneMatrix<T> {
    trails: Vec<Vec<T>>,
    n: usize,
    rho: T,
}

impl<T> View for PheromoneMatrix<T> {
    type V = Seq<Seq<T>>;

    /// The rows of the matrix.
    closed spec fn view(&self) -> Seq<Seq<T>> {
        self.trails@.map_values(|row: Vec<T>| row@)
    }
}

/// `m` with the cell in row `i`, column `j` set to `v`.
pub open spec fn update_cell<T>(m: Seq<Seq<T>>, i: int, j: int, v: T) -> Seq<Seq<T>> {
    m.update(i, m[i].update(j, v))
}

/// `f` gives one result for each argument: whatever it returns for `x` is the same value.
pub open spec fn is_deterministic<T, F: Fn(T) -> T>(f: F) -> bool {
    forall|x: T, a: T, b: T| f.ensures((x,), a) && f.ensures((x,), b) ==> a == b
}

impl<T: Copy> PheromoneMatrix<T> {
    /// The number of nodes.
    pub closed spec fn size(&self) -> nat {
        self.n as nat
    }

    /// The evaporation rate.
    pub closed spec fn rate(&self) -> T {
        self.rho
    }

    /// The matrix is square, with `size()` rows of `size()` cells.
    pub closed spec fn wf(&self) -> bool {
        &&& self.trails.len() == self.n
        &&& forall|i: int| 0 <= i < self.n ==> (#[trigger] self.trails[i]).len() == self.n
    }

    /// The level on the edge from node `i` to node `j`.
    pub open spec fn cell(&self, i: int, j: int) -> T {
        self@[i][j]
    }

    /// The level from `i` to `j` equals the level from `j` to `i`, for all nodes.
    pub open spec fn is_symmetric(&self) -> bool {
        forall|i: int, j: int| 0 <= i < self.size() && 0 <= j < self.size()
            ==> #[trigger] self.cell(i, j) == self.cell(j, i)
    }

    proof fn lemma_view_shape(&self)
        requires
            self.wf(),
        ensures
            self@.len() == self.size(),
            forall|i: int| 0 <= i < self.size() ==> (#[trigger] self@[i]).len() == self.size(),
    {
        assert forall|i: int| 0 <= i < self.size() implies (#[trigger] self@[i]).len() == self.size() by {
            assert(self@[i] == self.trails[i]@);
        }
    }

    /// An `n` by `n` matrix with every level `initial` and evaporation rate `rho`.
    pub fn new(n: usize, initial: T, rho: T) -> (m: Self)
        ensures
            m.wf(),
            m.size() == n,
            m.rate() == rho,
            m@.len() == n,
            forall|i: int| 0 <= i < n ==> (#[trigger] m@[i]).len() == n,
            forall|i: int, j: int| 0 <= i < n && 0 <= j < n ==> m.cell(i, j) == initial,
            m.is_symmetric(),
    {
        let mut trails: Vec<Vec<T>> = Vec::new();
        let mut i: usize = 0;
        while i < n
            invariant
                i <= n,
                trails.len() == i,
                forall|a: int| 0 <= a < i ==> (#[trigger] trails[a])@ == Seq::new(n as nat, |b: int| initial),
            decreases n - i,
        {
            let mut row: Vec<T> = Vec::new();
            let mut j: usize = 0;
            while j < n
                invariant
                    j <= n,
                    row.len() == j,
                    forall|b: int| 0 <= b < j ==> #[trigger] row[b] == initial,
                decreases n - j,
            {
                row.push(initial);
                j = j + 1;
            }
            assert(row@ =~= Seq::new(n as nat, |b: int| initial));
            trails.push(row);
            i = i + 1;
        }
        PheromoneMatrix { trails, n, rho }
    }

    /// The number of nodes.
    pub fn n(&self) -> (r: usize)
        ensures
            r == self.size(),
    {
        self.n
    }

    /// The evaporation rate.
    pub fn rho(&self) -> (r: T)
        ensures
            r == self.rate(),
    {
        self.rho
    }

    /// The level on the edge from node `i` to node `j`.
    pub fn get(&self, i: usize, j: usize) -> (r: T)
        requires
            self.wf(),
            i < self.size(),
            j < self.size(),
        ensures
            r == self.cell(i as int, j as int),
    {
        self.trails[i][j]
    }

    fn set_cell(&mut self, i: usize, j: usize, v: T)
        requires
            old(self).wf(),
            i < old(self).size(),
            j < old(self).size(),
        ensures
            final(self).wf(),
            final(self).size() == old(self).size(),
            final(self).rate() == old(self).rate(),
            final(self)@ == update_cell(old(self)@, i as int, j as int, v),
    {
        let ghost old_view = self@;
        let mut row: Vec<T> = Vec::new();
        std::mem::swap(&mut row, &mut self.trails[i]);
        row.set(j, v);
        std::mem::swap(&mut row, &mut self.trails[i]);
        proof {
            assert(self@ =~= update_cell(old_view, i as int, j as int, v)) by {
                assert forall|a: int| 0 <= a < self.n implies #[trigger] self@[a] == update_cell(old_view, i as int, j as int, v)[a] by {
                    if a == i as int {
                        assert(self@[a] =~= old_view[a].update(j as int, v));
                    }
                }
            }
        }
    }

    /// Sets the level of the edge between `i` and `j` to `val` in both
    /// directions: the cells `(i, j)` and `(j, i)` both hold `val`, and no
    /// other cell changes.
    pub fn set(&mut self, i: usize, j: usize, val: T)
        requires
            old(self).wf(),
            i < old(self).size(),
            j < old(self).size(),
        ensures
            final(self).wf(),
            final(self).size() == old(self).size(),
            final(self).rate() == old(self).rate(),
            final(self)@ == update_cell(update_cell(old(self)@, i as int, j as int, val), j as int, i as int, val),
            final(self).cell(i as int, j as int) == val,
            final(self).cell(j as int, i as int) == val,
            forall|a: int, b: int|
                0 <= a < final(self).size() && 0 <= b < final(self).size()
                && !(a == i && b == j) && !(a == j && b == i)
                ==> final(self).cell(a, b) == old(self).cell(a, b),
            old(self).is_symmetric() ==> final(self).is_symmetric(),
    {
        let ghost prev: PheromoneMatrix<T> = *self;
        proof { self.lemma_view_shape(); }
        self.set_cell(i, j, val);
        proof { self.lemma_view_shape(); }
        self.set_cell(j, i, val);
        proof {
            self.lemma_view_shape();
            assert forall|a: int, b: int|
                0 <= a < self.size() && 0 <= b < self.size()
                && !(a == i && b == j) && !(a == j && b == i)
                implies self.cell(a, b) == prev.cell(a, b) by {
                if a != i && a != j {
                    assert(self@[a] == prev@[a]);
                }
            }
            if prev.is_symmetric() {
                assert forall|a: int, b: int| 0 <= a < self.size() && 0 <= b < self.size()
                    implies #[trigger] self.cell(a, b) == self.cell(b, a) by {
                    if !((a == i && b == j) || (a == j && b == i)) {
                        assert(prev.cell(a, b) == prev.cell(b, a));
                    }
                }
            }
        }
    }

    /// Applies `f` to the level of the edge from `i` to `j`, then to the level
    /// of the edge from `j` to `i`. Where `i == j` the one cell gets `f` twice.
    /// No other cell changes.
    pub fn update_pair<F: Fn(T) -> T>(&mut self, i: usize, j: usize, f: F)
        requires
            old(self).wf(),
            i < old(self).size(),
            j < old(self).size(),
            forall|x: T| f.requires((x,)),
        ensures
            final(self).wf(),
            final(self).size() == old(self).size(),
            final(self).rate() == old(self).rate(),
            i != j ==> f.ensures((old(self).cell(i as int, j as int),), final(self).cell(i as int, j as int)),
            i != j ==> f.ensures((old(self).cell(j as int, i as int),), final(self).cell(j as int, i as int)),
            i == j ==> exists|once: T|
                f.ensures((old(self).cell(i as int, i as int),), once)
                && f.ensures((once,), final(self).cell(i as int, i as int)),
            forall|a: int, b: int|
                0 <= a < final(self).size() && 0 <= b < final(self).size()
                && !(a == i && b == j) && !(a == j && b == i)
                ==> final(self).cell(a, b) == old(self).cell(a, b),
            old(self).is_symmetric() && is_deterministic(f) ==> final(self).is_symmetric(),
    {
        let ghost prev: PheromoneMatrix<T> = *self;
        proof { self.lemma_view_shape(); }
        let ghost old_cell = self.cell(i as int, j as int);
        let first = f(self.trails[i][j]);
        self.set_cell(i, j, first);
        proof { self.lemma_view_shape(); }
        let second = f(self.trails[j][i]);
        self.set_cell(j, i, second);
        proof {
            self.lemma_view_shape();
            if i == j {
                assert(f.ensures((old_cell,), first) && f.ensures((first,), self.cell(i as int, i as int)));
            }
            assert forall|a: int, b: int|
                0 <= a < self.size() && 0 <= b < self.size()
                && !(a == i && b == j) && !(a == j && b == i)
                implies self.cell(a, b) == prev.cell(a, b) by {
                if a != i && a != j {
                    assert(self@[a] == prev@[a]);
                }
            }
            if prev.is_symmetric() && is_deterministic(f) {
                assert forall|a: int, b: int| 0 <= a < self.size() && 0 <= b < self.size()
                    implies #[trigger] self.cell(a, b) == self.cell(b, a) by {
                    if (a == i && b == j) || (a == j && b == i) {
                        if i != j {
                            assert(prev.cell(i as int, j as int) == prev.cell(j as int, i as int));
                            assert(f.ensures((prev.cell(i as int, j as int),), self.cell(i as int, j as int)));
                            assert(f.ensures((prev.cell(i as int, j as int),), self.cell(j as int, i as int)));
                        }
                    } else {
                        assert(prev.cell(a, b) == prev.cell(b, a));
                    }
                }
            }
        }
    }

    /// Applies `f` to every level of the matrix.
    pub fn map_cells<F: Fn(T) -> T>(&mut self, f: F)
        requires
            old(self).wf(),
            forall|x: T| f.requires((x,)),
        ensures
            final(self).wf(),
            final(self).size() == old(self).size(),
            final(self).rate() == old(self).rate(),
            forall|a: int, b: int| 0 <= a < final(self).size() && 0 <= b < final(self).size()
                ==> f.ensures((old(self).cell(a, b),), #[trigger] final(self).cell(a, b)),
            old(self).is_symmetric() && is_deterministic(f) ==> final(self).is_symmetric(),
    {
        let ghost start = self@;
        proof { self.lemma_view_shape(); }
        let n = self.n;
        let mut i: usize = 0;
        while i < n
            invariant
                n == self.size(),
                self.wf(),
                self.rate() == old(self).rate(),
                i <= n,
                start == old(self)@,
                start.len() == n,
                forall|a: int| 0 <= a < n ==> (#[trigger] start[a]).len() == n,
                forall|x: T| f.requires((x,)),
                forall|a: int, b: int| 0 <= a < i && 0 <= b < n
                    ==> f.ensures((start[a][b],), #[trigger] self.cell(a, b)),
                forall|a: int, b: int| i <= a < n && 0 <= b < n ==> #[trigger] self.cell(a, b) == start[a][b],
            decreases n - i,
        {
            let mut j: usize = 0;
            while j < n
                invariant
                    n == self.size(),
                    self.wf(),
                    self.rate() == old(self).rate(),
                    i < n,
                    j <= n,
                    start == old(self)@,
                    start.len() == n,
                    forall|a: int| 0 <= a < n ==> (#[trigger] start[a]).len() == n,
                    forall|x: T| f.requires((x,)),
                    forall|a: int, b: int| 0 <= a < i && 0 <= b < n
                        ==> f.ensures((start[a][b],), #[trigger] self.cell(a, b)),
                    forall|b: int| 0 <= b < j ==> f.ensures((start[i as int][b],), #[trigger] self.cell(i as int, b)),
                    forall|b: int| j <= b < n ==> #[trigger] self.cell(i as int, b) == start[i as int][b],
                    forall|a: int, b: int| i < a < n && 0 <= b < n ==> #[trigger] self.cell(a, b) == start[a][b],
                decreases n - j,
            {
                proof { self.lemma_view_shape(); }
                let ghost before = self@;
                let ghost prev: PheromoneMatrix<T> = *self;
                let v = f(self.trails[i][j]);
                self.set_cell(i, j, v);
                proof {
                    self.lemma_view_shape();
                    assert forall|a: int, b: int| 0 <= a < n && 0 <= b < n implies
                        #[trigger] self.cell(a, b) == (if a == i && b == j { v } else { before[a][b] }) by {
                        if a != i {
                            assert(self@[a] == before[a]);
                        }
                    }
                    assert forall|a: int, b: int| 0 <= a < i && 0 <= b < n
                        implies f.ensures((start[a][b],), #[trigger] self.cell(a, b)) by {
                        assert(prev.cell(a, b) == before[a][b]);
                    }
                    assert forall|b: int| 0 <= b < j + 1
                        implies f.ensures((start[i as int][b],), #[trigger] self.cell(i as int, b)) by {
                        assert(prev.cell(i as int, b) == before[i as int][b]);
                    }
                    assert forall|b: int| j + 1 <= b < n
                        implies #[trigger] self.cell(i as int, b) == start[i as int][b] by {
                        assert(prev.cell(i as int, b) == before[i as int][b]);
                    }
                    assert forall|a: int, b: int| i < a < n && 0 <= b < n
                        implies #[trigger] self.cell(a, b) == start[a][b] by {
                        assert(prev.cell(a, b) == before[a][b]);
                    }
                }
                j = j + 1;
            }
            i = i + 1;
        }
        proof {
            if old(self).is_symmetric() && is_deterministic(f) {
                assert forall|a: int, b: int| 0 <= a < self.size() && 0 <= b < self.size()
                    implies #[trigger] self.cell(a, b) == self.cell(b, a) by {
                    assert(start[a][b] == old(self).cell(a, b));
                    assert(old(self).cell(a, b) == old(self).cell(b, a));
                    assert(f.ensures((start[a][b],), self.cell(a, b)));
                    assert(f.ensures((start[b][a],), self.cell(b, a)));
                }
            }
        }
    }
}

} // verus!
