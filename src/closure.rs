//! Reflexive, symmetric and transitive closures of a relation. Each returns a
//! new matrix and leaves its argument untouched.
use vstd::prelude::*;

use crate::relation::{
    cell, contains, grid, is_relation_matrix, is_square, is_walk, reachable, related, transitive,
};
use crate::Matrix;

verus! {

/// The relation with every element also related to itself.
pub open spec fn reflexive_closure_of(g: Seq<Seq<u8>>) -> Seq<Seq<u8>> {
    Seq::new(g.len(), |i: int| Seq::new(g.len(), |j: int| if i == j { 1u8 } else { g[i][j] }))
}

/// The relation with every pair also related in the other direction.
pub open spec fn symmetric_closure_of(g: Seq<Seq<u8>>) -> Seq<Seq<u8>> {
    Seq::new(
        g.len(),
        |i: int|
            Seq::new(
                g.len(),
                |j: int|
                    if related(g, i, j) || related(g, j, i) {
                        1u8
                    } else {
                        0u8
                    },
            ),
    )
}

/// The smallest transitive relation containing `g`: `i` is related to `j`
/// exactly when `j` can be reached from `i`.
pub open spec fn transitive_closure_of(g: Seq<Seq<u8>>) -> Seq<Seq<u8>> {
    Seq::new(
        g.len(),
        |i: int|
            Seq::new(
                g.len(),
                |j: int|
                    if reachable(g, i, j) {
                        1u8
                    } else {
                        0u8
                    },
            ),
    )
}

/// The smallest equivalence relation containing `g`.
pub open spec fn full_closure_of(g: Seq<Seq<u8>>) -> Seq<Seq<u8>> {
    transitive_closure_of(symmetric_closure_of(reflexive_closure_of(g)))
}

/// A cell-for-cell copy of a square matrix.
fn copy_matrix(matrix: &Matrix) -> (r: Matrix)
    requires
        is_square(grid(matrix)),
    ensures
        grid(&r) == grid(matrix),
{
    let n = matrix.len();
    let mut result: Matrix = Vec::new();
    for i in 0..n
        invariant
            n == matrix@.len(),
            is_square(grid(matrix)),
            result@.len() == i,
            forall|a: int| 0 <= a < i ==> #[trigger] result@[a]@ == grid(matrix)[a],
    {
        let mut row: Vec<u8> = Vec::new();
        for j in 0..n
            invariant
                n == matrix@.len(),
                i < n,
                is_square(grid(matrix)),
                row@.len() == j,
                forall|b: int| 0 <= b < j ==> #[trigger] row@[b] == grid(matrix)[i as int][b],
        {
            row.push(cell(matrix, i, j));
        }
        proof {
            assert(row@ =~= grid(matrix)[i as int]);
        }
        result.push(row);
    }
    proof {
        assert(grid(&result) =~= grid(matrix));
    }
    result
}

/// Sets every diagonal cell.
pub fn reflexive_closure(matrix: &Matrix) -> (r: Matrix)
    requires
        is_relation_matrix(grid(matrix)),
    ensures
        grid(&r) == reflexive_closure_of(grid(matrix)),
{
    let mut result = copy_matrix(matrix);
    let n = result.len();
    proof {
        assert(grid(&result).len() == n);
        assert forall|a: int| 0 <= a < n implies #[trigger] result@[a]@ == grid(matrix)[a] by {
            assert(grid(&result)[a] == result@[a]@);
        }
    }
    for i in 0..n
        invariant
            n == matrix@.len(),
            result@.len() == n,
            is_square(grid(matrix)),
            forall|a: int| 0 <= a < n ==> #[trigger] result@[a]@.len() == n,
            forall|a: int, b: int| 0 <= a < n && 0 <= b < n ==> #[trigger] result@[a]@[b] == if a == b && a < i { 1u8 } else { grid(matrix)[a][b] },
    {
        result[i][i] = 1;
    }
    proof {
        assert(grid(&result) =~~= reflexive_closure_of(grid(matrix)));
    }
    result
}

/// Sets the mirror image of every set cell.
pub fn symmetric_closure(matrix: &Matrix) -> (r: Matrix)
    requires
        is_relation_matrix(grid(matrix)),
    ensures
        grid(&r) == symmetric_closure_of(grid(matrix)),
{
    let ghost g = grid(matrix);
    let mut result = copy_matrix(matrix);
    let n = result.len();
    proof {
        assert(grid(&result).len() == n);
        assert forall|a: int| 0 <= a < n implies #[trigger] result@[a]@ == g[a] by {
            assert(grid(&result)[a] == result@[a]@);
        }
    }
    for i in 0..n
        invariant
            n == g.len(),
            is_relation_matrix(g),
            result@.len() == n,
            forall|a: int| 0 <= a < n ==> #[trigger] result@[a]@.len() == n,
            forall|a: int, b: int|
                0 <= a < n && 0 <= b < n ==> #[trigger] result@[a]@[b] == if related(g, a, b) || (
                related(g, b, a) && b < i) {
                    1u8
                } else {
                    g[a][b]
                },
    {
        for j in 0..n
            invariant
                i < n,
                n == g.len(),
                is_relation_matrix(g),
                result@.len() == n,
                forall|a: int| 0 <= a < n ==> #[trigger] result@[a]@.len() == n,
                forall|a: int, b: int|
                    0 <= a < n && 0 <= b < n ==> #[trigger] result@[a]@[b] == if related(g, a, b)
                        || (related(g, b, a) && (b < i || (b == i && a < j))) {
                        1u8
                    } else {
                        g[a][b]
                    },
        {
            if result[i][j] == 1 {
                result[j][i] = 1;
            }
        }
    }
    proof {
        assert forall|a: int, b: int| 0 <= a < n && 0 <= b < n implies #[trigger] result@[a]@[b]
            == symmetric_closure_of(g)[a][b] by {
            assert(g[a].len() == n);
            assert(g[a][b] == 0 || g[a][b] == 1);
        }
        assert(grid(&result) =~~= symmetric_closure_of(g));
    }
    result
}

/// The reflexive closure of a relation matrix is a relation matrix of the same size.
pub proof fn lemma_reflexive_closure_valid(g: Seq<Seq<u8>>)
    requires
        is_relation_matrix(g),
    ensures
        is_relation_matrix(reflexive_closure_of(g)),
        reflexive_closure_of(g).len() == g.len(),
{
    let c = reflexive_closure_of(g);
    assert forall|i: int| 0 <= i < c.len() implies #[trigger] c[i].len() == c.len() by {}
    assert forall|i: int, j: int| 0 <= i < c.len() && 0 <= j < c[i].len() implies #[trigger] c[i][j]
        == 0 || c[i][j] == 1 by {
        assert(g[i].len() == g.len());
        assert(g[i][j] == 0 || g[i][j] == 1);
    }
}

/// The symmetric closure of a relation matrix is a relation matrix of the same size.
pub proof fn lemma_symmetric_closure_valid(g: Seq<Seq<u8>>)
    requires
        is_relation_matrix(g),
    ensures
        is_relation_matrix(symmetric_closure_of(g)),
        symmetric_closure_of(g).len() == g.len(),
{
    let c = symmetric_closure_of(g);
    assert forall|i: int| 0 <= i < c.len() implies #[trigger] c[i].len() == c.len() by {}
}

/// The transitive closure is a relation matrix of the same size.
pub proof fn lemma_transitive_closure_valid(g: Seq<Seq<u8>>)
    ensures
        is_relation_matrix(transitive_closure_of(g)),
        transitive_closure_of(g).len() == g.len(),
{
    let c = transitive_closure_of(g);
    assert forall|i: int| 0 <= i < c.len() implies #[trigger] c[i].len() == c.len() by {}
}

/// One round of the closure: pairs linked through `k` become related.
spec fn fw_step(b: Seq<Seq<u8>>, k: int) -> Seq<Seq<u8>> {
    Seq::new(
        b.len(),
        |i: int|
            Seq::new(
                b.len(),
                |j: int|
                    if related(b, i, k) && related(b, k, j) {
                        1u8
                    } else {
                        b[i][j]
                    },
            ),
    )
}

/// Every related pair of `r` is reachable in `g`.
spec fn sound(g: Seq<Seq<u8>>, r: Seq<Seq<u8>>) -> bool {
    forall|i: int, j: int|
        0 <= i < r.len() && 0 <= j < r.len() && #[trigger] related(r, i, j) ==> reachable(g, i, j)
}

/// `r` is closed under composition through every element below `k`.
spec fn closed_through(r: Seq<Seq<u8>>, k: int) -> bool {
    forall|i: int, j: int, w: int|
        0 <= i < r.len() && 0 <= j < r.len() && 0 <= w < k && w < r.len() && #[trigger] related(
            r,
            i,
            w,
        ) && #[trigger] related(r, w, j) ==> related(r, i, j)
}

/// What holds of the matrix after the rounds for the elements below `k`.
spec fn fw_invariant(g: Seq<Seq<u8>>, r: Seq<Seq<u8>>, k: int) -> bool {
    &&& is_relation_matrix(r)
    &&& r.len() == g.len()
    &&& contains(r, g)
    &&& sound(g, r)
    &&& closed_through(r, k)
}

/// Each related pair is a walk of one step.
pub proof fn lemma_edge_reachable(g: Seq<Seq<u8>>, i: int, j: int)
    requires
        0 <= i < g.len(),
        0 <= j < g.len(),
        related(g, i, j),
    ensures
        reachable(g, i, j),
{
    let p = seq![i, j];
    assert(is_walk(g, p));
}

/// Two walks that meet can be joined.
pub proof fn lemma_reachable_trans(g: Seq<Seq<u8>>, i: int, k: int, j: int)
    requires
        reachable(g, i, k),
        reachable(g, k, j),
    ensures
        reachable(g, i, j),
{
    let p1 = choose|p: Seq<int>| #[trigger] is_walk(g, p) && p[0] == i && p.last() == k;
    let p2 = choose|p: Seq<int>| #[trigger] is_walk(g, p) && p[0] == k && p.last() == j;
    let p = p1 + p2.subrange(1, p2.len() as int);
    assert forall|t: int| 0 <= t < p.len() - 1 implies #[trigger] related(g, p[t], p[t + 1]) by {
        if t < p1.len() - 1 {
            assert(related(g, p1[t], p1[t + 1]));
        } else if t == p1.len() - 1 {
            let z: int = 0;
            assert(related(g, p2[z], p2[z + 1]));
        } else {
            let u = t - p1.len() + 1;
            assert(related(g, p2[u], p2[u + 1]));
        }
    }
    assert forall|t: int| 0 <= t < p.len() implies 0 <= #[trigger] p[t] < g.len() by {
        if t < p1.len() {
            assert(0 <= p1[t] < g.len());
        } else {
            let u = t - p1.len() + 1;
            assert(0 <= p2[u] < g.len());
        }
    }
    assert(p.last() == p2.last());
    assert(is_walk(g, p));
}

/// The two ends of a walk are related in any transitive relation containing it.
pub proof fn lemma_walk_in_transitive(g: Seq<Seq<u8>>, r: Seq<Seq<u8>>, p: Seq<int>)
    requires
        r.len() == g.len(),
        contains(r, g),
        transitive(r),
        is_walk(g, p),
    ensures
        related(r, p[0], p.last()),
    decreases p.len(),
{
    let l = p.len() - 1;
    let t = l - 1;
    assert(related(g, p[t], p[t + 1]));
    assert(0 <= p[l - 1] < g.len() && 0 <= p[l] < g.len());
    if p.len() > 2 {
        let q = p.drop_last();
        assert forall|t: int| 0 <= t < q.len() - 1 implies #[trigger] related(g, q[t], q[t + 1]) by {
            assert(related(g, p[t], p[t + 1]));
        }
        assert forall|t: int| 0 <= t < q.len() implies 0 <= #[trigger] q[t] < g.len() by {
            assert(0 <= p[t] < g.len());
        }
        lemma_walk_in_transitive(g, r, q);
        assert(0 <= p[0] < g.len());
        assert(related(r, p[0], p[l - 1]));
        assert(related(r, p[l - 1], p[l]));
    }
}

/// Before any round, the matrix itself meets the round invariant.
proof fn lemma_fw_start(g: Seq<Seq<u8>>)
    requires
        is_relation_matrix(g),
    ensures
        fw_invariant(g, g, 0),
{
    assert forall|i: int, j: int|
        0 <= i < g.len() && 0 <= j < g.len() && #[trigger] related(g, i, j) implies reachable(
        g,
        i,
        j,
    ) by {
        lemma_edge_reachable(g, i, j);
    }
}

/// A round through `k` extends the invariant to the elements up to `k`.
proof fn lemma_fw_step(g: Seq<Seq<u8>>, b: Seq<Seq<u8>>, k: int)
    requires
        fw_invariant(g, b, k),
        0 <= k < b.len(),
    ensures
        fw_invariant(g, fw_step(b, k), k + 1),
{
    let s = fw_step(b, k);
    let n = b.len();
    assert forall|i: int| 0 <= i < n implies #[trigger] s[i].len() == n by {}
    assert forall|i: int, j: int| 0 <= i < n && 0 <= j < s[i].len() implies #[trigger] s[i][j] == 0
        || s[i][j] == 1 by {
        assert(b[i].len() == n);
        assert(b[i][j] == 0 || b[i][j] == 1);
    }
    // Row and column `k` are left as they were.
    assert forall|a: int| 0 <= a < n implies #[trigger] related(s, a, k) == related(b, a, k)
        && related(s, k, a) == related(b, k, a) by {
        assert(b[a].len() == n && b[k].len() == n);
    }
    assert forall|i: int, j: int|
        0 <= i < n && 0 <= j < n && #[trigger] related(b, i, j) implies related(s, i, j) by {}
    assert forall|i: int, j: int|
        0 <= i < n && 0 <= j < n && #[trigger] related(s, i, j) implies reachable(g, i, j) by {
        if !related(b, i, j) {
            lemma_reachable_trans(g, i, k, j);
        }
    }
    assert forall|i: int, j: int, w: int|
        0 <= i < n && 0 <= j < n && 0 <= w < k + 1 && w < n && #[trigger] related(s, i, w)
            && #[trigger] related(s, w, j) implies related(s, i, j) by {
        if w < k {
            if related(b, i, w) && related(b, w, j) {
            } else if related(b, i, w) {
                // w reaches j through k
                assert(related(b, w, k) && related(b, k, j));
                assert(related(b, i, k));
            } else if related(b, w, j) {
                assert(related(b, i, k) && related(b, k, w));
                assert(related(b, k, j));
            } else {
                assert(related(b, i, k) && related(b, k, j));
            }
        } else {
            assert(related(b, i, k) && related(b, k, j));
        }
    }
}

/// After the rounds for all elements, the matrix is the transitive closure.
proof fn lemma_fw_done(g: Seq<Seq<u8>>, r: Seq<Seq<u8>>)
    requires
        is_relation_matrix(g),
        fw_invariant(g, r, r.len() as int),
    ensures
        r =~~= transitive_closure_of(g),
{
    let n = g.len();
    let c = transitive_closure_of(g);
    assert(transitive(r));
    assert forall|i: int, j: int| 0 <= i < n && 0 <= j < n implies #[trigger] r[i][j] == c[i][j] by {
        assert(r[i].len() == n);
        assert(r[i][j] == 0 || r[i][j] == 1);
        if reachable(g, i, j) {
            let p = choose|p: Seq<int>| #[trigger] is_walk(g, p) && p[0] == i && p.last() == j;
            lemma_walk_in_transitive(g, r, p);
        } else {
            assert(!related(r, i, j));
        }
    }
    assert forall|i: int| 0 <= i < n implies #[trigger] r[i] =~= c[i] by {
        assert(r[i].len() == n);
        assert forall|j: int| 0 <= j < n implies r[i][j] == #[trigger] c[i][j] by {
            assert(r[i][j] == c[i][j]);
        }
    }
}

/// The reachability relation of `matrix`, computed by the Floyd-Warshall rule
/// on the matrix being built: every intermediate element `k` in turn links
/// each `i` related to `k` with each `j` that `k` is related to.
pub fn transitive_closure(matrix: &Matrix) -> (r: Matrix)
    requires
        is_relation_matrix(grid(matrix)),
    ensures
        grid(&r) == transitive_closure_of(grid(matrix)),
{
    let ghost g = grid(matrix);
    let mut result = copy_matrix(matrix);
    let n = result.len();
    proof {
        assert(grid(&result).len() == n);
        assert forall|a: int| 0 <= a < n implies #[trigger] result@[a]@.len() == n by {
            assert(grid(&result)[a] == result@[a]@);
        }
        lemma_fw_start(g);
    }
    for k in 0..n
        invariant
            n == g.len(),
            g == grid(matrix),
            is_relation_matrix(g),
            result@.len() == n,
            forall|a: int| 0 <= a < n ==> #[trigger] result@[a]@.len() == n,
            fw_invariant(g, grid(&result), k as int),
    {
        let ghost before = grid(&result);
        proof {
            lemma_fw_step(g, before, k as int);
            assert forall|a: int| 0 <= a < n implies #[trigger] before[a] == result@[a]@ by {}
        }
        let ghost after = fw_step(before, k as int);
        for i in 0..n
            invariant
                k < n,
                n == g.len(),
                before.len() == n,
                after == fw_step(before, k as int),
                fw_invariant(g, after, k + 1),
                result@.len() == n,
                forall|a: int| 0 <= a < n ==> #[trigger] result@[a]@.len() == n,
                forall|a: int, b: int|
                    0 <= a < n && 0 <= b < n ==> #[trigger] result@[a]@[b] == if a < i {
                        after[a][b]
                    } else {
                        before[a][b]
                    },
        {
            for j in 0..n
                invariant
                    k < n,
                    i < n,
                    n == g.len(),
                    before.len() == n,
                    after == fw_step(before, k as int),
                    fw_invariant(g, after, k + 1),
                    result@.len() == n,
                    forall|a: int| 0 <= a < n ==> #[trigger] result@[a]@.len() == n,
                    forall|a: int, b: int|
                        0 <= a < n && 0 <= b < n ==> #[trigger] result@[a]@[b] == if a < i || (a
                            == i && b < j) {
                            after[a][b]
                        } else {
                            before[a][b]
                        },
            {
                proof {
                    assert(after[i as int][k as int] == before[i as int][k as int]);
                    assert(after[k as int][j as int] == before[k as int][j as int]);
                    assert(after[i as int][j as int] == if related(before, i as int, k as int)
                        && related(before, k as int, j as int) {
                        1u8
                    } else {
                        before[i as int][j as int]
                    });
                }
                if result[i][k] == 1 && result[k][j] == 1 {
                    result[i][j] = 1;
                }
            }
        }
        proof {
            assert(grid(&result) =~~= after);
        }
    }
    proof {
        lemma_fw_done(g, grid(&result));
    }
    result
}

/// The transitive closure of the symmetric closure of the reflexive closure:
/// the smallest equivalence relation containing `matrix`.
pub fn full_closure(matrix: &Matrix) -> (r: Matrix)
    requires
        is_relation_matrix(grid(matrix)),
    ensures
        grid(&r) == full_closure_of(grid(matrix)),
{
    let reflexive = reflexive_closure(matrix);
    proof {
        lemma_reflexive_closure_valid(grid(matrix));
    }
    let symmetric = symmetric_closure(&reflexive);
    proof {
        lemma_symmetric_closure_valid(grid(&reflexive));
    }
    transitive_closure(&symmetric)
}

} // verus!
