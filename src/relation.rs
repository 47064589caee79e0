//! The mathematical model of a relation matrix and of its properties.
use vstd::prelude::*;

use crate::Matrix;

verus! {

/// The cells of a matrix, row by row.
pub open spec fn grid(m: &Matrix) -> Seq<Seq<u8>> {
    Seq::new(m@.len(), |i: int| m@[i]@)
}

/// Every row has as many cells as there are rows.
pub open spec fn is_square(g: Seq<Seq<u8>>) -> bool {
    forall|i: int| 0 <= i < g.len() ==> #[trigger] g[i].len() == g.len()
}

/// Every cell holds 0 or 1.
pub open spec fn is_boolean(g: Seq<Seq<u8>>) -> bool {
    forall|i: int, j: int|
        0 <= i < g.len() && 0 <= j < g[i].len() ==> #[trigger] g[i][j] == 0 || g[i][j] == 1
}

/// A well-formed relation matrix: square, with 0/1 cells.
pub open spec fn is_relation_matrix(g: Seq<Seq<u8>>) -> bool {
    is_square(g) && is_boolean(g)
}

/// `i` is related to `j`.
pub open spec fn related(g: Seq<Seq<u8>>, i: int, j: int) -> bool {
    g[i][j] == 1
}

/// Every element is related to itself.
pub open spec fn reflexive(g: Seq<Seq<u8>>) -> bool {
    forall|i: int| 0 <= i < g.len() ==> #[trigger] related(g, i, i)
}

/// No element is related to itself.
pub open spec fn irreflexive(g: Seq<Seq<u8>>) -> bool {
    forall|i: int| 0 <= i < g.len() ==> #[trigger] g[i][i] == 0
}

/// Every pair is related in both directions or in neither.
pub open spec fn symmetric(g: Seq<Seq<u8>>) -> bool {
    forall|i: int, j: int| 0 <= i < g.len() && 0 <= j < g.len() ==> #[trigger] g[i][j] == g[j][i]
}

/// No two distinct elements are related in both directions.
pub open spec fn antisymmetric(g: Seq<Seq<u8>>) -> bool {
    forall|i: int, j: int|
        0 <= i < g.len() && 0 <= j < g.len() && i != j ==> !(#[trigger] related(g, i, j)
            && related(g, j, i))
}

/// Whenever `i` is related to `j` and `j` to `k`, `i` is related to `k`.
pub open spec fn transitive(g: Seq<Seq<u8>>) -> bool {
    forall|i: int, j: int, k: int|
        0 <= i < g.len() && 0 <= j < g.len() && 0 <= k < g.len() && #[trigger] related(g, i, j)
            && #[trigger] related(g, j, k) ==> related(g, i, k)
}

/// Every two distinct elements are related in at least one direction.
pub open spec fn connected(g: Seq<Seq<u8>>) -> bool {
    forall|i: int, j: int|
        0 <= i < g.len() && 0 <= j < g.len() && i != j ==> #[trigger] related(g, i, j)
            || related(g, j, i)
}

/// Reflexive, symmetric and transitive.
pub open spec fn equivalence(g: Seq<Seq<u8>>) -> bool {
    reflexive(g) && symmetric(g) && transitive(g)
}

/// Every cell set in `small` is set in `big`.
pub open spec fn contains(big: Seq<Seq<u8>>, small: Seq<Seq<u8>>) -> bool {
    forall|i: int, j: int|
        0 <= i < small.len() && 0 <= j < small.len() && #[trigger] related(small, i, j)
            ==> related(big, i, j)
}

/// `p` is a walk of at least one step along the relation.
pub open spec fn is_walk(g: Seq<Seq<u8>>, p: Seq<int>) -> bool {
    &&& p.len() >= 2
    &&& forall|t: int| 0 <= t < p.len() ==> 0 <= #[trigger] p[t] < g.len()
    &&& forall|t: int| 0 <= t < p.len() - 1 ==> #[trigger] related(g, p[t], p[t + 1])
}

/// `j` can be reached from `i` in one or more steps.
pub open spec fn reachable(g: Seq<Seq<u8>>, i: int, j: int) -> bool {
    exists|p: Seq<int>| #[trigger] is_walk(g, p) && p[0] == i && p.last() == j
}

/// Reads the cell in row `i`, column `j` of a square matrix.
pub fn cell(m: &Matrix, i: usize, j: usize) -> (r: u8)
    requires
        is_square(grid(m)),
        i < m@.len(),
        j < m@.len(),
    ensures
        r == grid(m)[i as int][j as int],
{
    assert(grid(m)[i as int].len() == m@.len());
    m[i][j]
}

/// The matrix of size `n` with no cell set.
pub open spec fn zero_matrix(n: nat) -> Seq<Seq<u8>> {
    Seq::new(n, |i: int| Seq::new(n, |j: int| 0u8))
}

/// The matrix of size `n` with every cell set.
pub open spec fn ones_matrix(n: nat) -> Seq<Seq<u8>> {
    Seq::new(n, |i: int| Seq::new(n, |j: int| 1u8))
}

} // verus!
