//! The pairs and triples that keep a relation from being symmetric or transitive.
use vstd::prelude::*;

use crate::relation::{cell, grid, is_relation_matrix, related};
use crate::Matrix;

verus! {

/// `a` comes before `b` in row-major order.
pub open spec fn pair_before(a: (usize, usize), b: (usize, usize)) -> bool {
    a.0 < b.0 || (a.0 == b.0 && a.1 < b.1)
}

/// `a` comes before `b` in lexicographic order.
pub open spec fn triple_before(a: (usize, usize, usize), b: (usize, usize, usize)) -> bool {
    a.0 < b.0 || (a.0 == b.0 && (a.1 < b.1 || (a.1 == b.1 && a.2 < b.2)))
}

/// Cell `i`, `j` differs from its mirror image.
pub open spec fn symmetry_violation(g: Seq<Seq<u8>>, i: int, j: int) -> bool {
    g[i][j] != g[j][i]
}

/// `i` is related to `j` and `j` to `k`, but `i` is not related to `k`.
pub open spec fn transitivity_violation(g: Seq<Seq<u8>>, i: int, j: int, k: int) -> bool {
    related(g, i, j) && related(g, j, k) && !related(g, i, k)
}

/// `s` lists every symmetry violation of `g` once, in row-major order.
pub open spec fn lists_symmetry_violations(g: Seq<Seq<u8>>, s: Seq<(usize, usize)>) -> bool {
    &&& forall|t: int, u: int| 0 <= t < u < s.len() ==> pair_before(#[trigger] s[t], #[trigger] s[u])
    &&& forall|t: int|
        0 <= t < s.len() ==> (#[trigger] s[t].0 as int) < g.len() && (s[t].1 as int) < g.len()
            && symmetry_violation(g, s[t].0 as int, s[t].1 as int)
    &&& forall|i: int, j: int|
        0 <= i < g.len() && 0 <= j < g.len() && #[trigger] symmetry_violation(g, i, j)
            ==> s.contains((i as usize, j as usize))
}

/// `s` lists every transitivity violation of `g` once, in lexicographic order.
pub open spec fn lists_transitivity_violations(
    g: Seq<Seq<u8>>,
    s: Seq<(usize, usize, usize)>,
) -> bool {
    &&& forall|t: int, u: int|
        0 <= t < u < s.len() ==> triple_before(#[trigger] s[t], #[trigger] s[u])
    &&& forall|t: int|
        0 <= t < s.len() ==> (#[trigger] s[t].0 as int) < g.len() && (s[t].1 as int) < g.len()
            && (s[t].2 as int) < g.len() && transitivity_violation(
            g,
            s[t].0 as int,
            s[t].1 as int,
            s[t].2 as int,
        )
    &&& forall|i: int, j: int, k: int|
        0 <= i < g.len() && 0 <= j < g.len() && 0 <= k < g.len() && #[trigger] transitivity_violation(
            g,
            i,
            j,
            k,
        ) ==> s.contains((i as usize, j as usize, k as usize))
}

/// The cells that differ from their mirror image, in row-major order.
pub fn symmetry_violations(matrix: &Matrix) -> (r: Vec<(usize, usize)>)
    requires
        is_relation_matrix(grid(matrix)),
    ensures
        lists_symmetry_violations(grid(matrix), r@),
{
    let ghost g = grid(matrix);
    let n = matrix.len();
    let mut found: Vec<(usize, usize)> = Vec::new();
    for i in 0..n
        invariant
            n == g.len(),
            g == grid(matrix),
            is_relation_matrix(g),
            forall|t: int, u: int|
                0 <= t < u < found@.len() ==> pair_before(#[trigger] found@[t], #[trigger] found@[u]),
            forall|t: int|
                0 <= t < found@.len() ==> (#[trigger] found@[t].0 as int) < i && (found@[t].1 as int)
                    < n && symmetry_violation(g, found@[t].0 as int, found@[t].1 as int),
            forall|a: int, b: int|
                0 <= a < i && 0 <= b < n && #[trigger] symmetry_violation(g, a, b)
                    ==> found@.contains((a as usize, b as usize)),
    {
        for j in 0..n
            invariant
                i < n,
                n == g.len(),
                g == grid(matrix),
                is_relation_matrix(g),
                forall|t: int, u: int|
                    0 <= t < u < found@.len() ==> pair_before(
                        #[trigger] found@[t],
                        #[trigger] found@[u],
                    ),
                forall|t: int|
                    0 <= t < found@.len() ==> pair_before(#[trigger] found@[t], (i, j)) && (
                    found@[t].1 as int) < n && symmetry_violation(
                        g,
                        found@[t].0 as int,
                        found@[t].1 as int,
                    ),
                forall|a: int, b: int|
                    0 <= a < n && 0 <= b < n && (a < i || (a == i && b < j))
                        && #[trigger] symmetry_violation(g, a, b) ==> found@.contains(
                        (a as usize, b as usize),
                    ),
        {
            if cell(matrix, i, j) != cell(matrix, j, i) {
                let ghost before = found@;
                found.push((i, j));
                proof {
                    assert forall|a: int, b: int|
                        0 <= a < n && 0 <= b < n && (a < i || (a == i && b <= j))
                            && #[trigger] symmetry_violation(g, a, b) implies found@.contains(
                        (a as usize, b as usize),
                    ) by {
                        if a == i && b == j {
                            assert(found@[before.len() as int] == (i, j));
                        } else {
                            let t = choose|t: int|
                                0 <= t < before.len() && before[t] == (a as usize, b as usize);
                            assert(found@[t] == before[t]);
                        }
                    }
                }
            }
        }
    }
    found
}

/// The triples `i`, `j`, `k` where `i` is related to `j` and `j` to `k` but
/// `i` not to `k`, in lexicographic order.
pub fn transitivity_violations(matrix: &Matrix) -> (r: Vec<(usize, usize, usize)>)
    requires
        is_relation_matrix(grid(matrix)),
    ensures
        lists_transitivity_violations(grid(matrix), r@),
{
    let ghost g = grid(matrix);
    let n = matrix.len();
    let mut found: Vec<(usize, usize, usize)> = Vec::new();
    for i in 0..n
        invariant
            n == g.len(),
            g == grid(matrix),
            is_relation_matrix(g),
            forall|t: int, u: int|
                0 <= t < u < found@.len() ==> triple_before(#[trigger] found@[t], #[trigger] found@[u]),
            forall|t: int|
                0 <= t < found@.len() ==> (#[trigger] found@[t].0 as int) < i && (found@[t].1 as int)
                    < n && (found@[t].2 as int) < n && transitivity_violation(
                    g,
                    found@[t].0 as int,
                    found@[t].1 as int,
                    found@[t].2 as int,
                ),
            forall|a: int, b: int, c: int|
                0 <= a < i && 0 <= b < n && 0 <= c < n && #[trigger] transitivity_violation(g, a, b, c)
                    ==> found@.contains((a as usize, b as usize, c as usize)),
    {
        for j in 0..n
            invariant
                i < n,
                n == g.len(),
                g == grid(matrix),
                is_relation_matrix(g),
                forall|t: int, u: int|
                    0 <= t < u < found@.len() ==> triple_before(
                        #[trigger] found@[t],
                        #[trigger] found@[u],
                    ),
                forall|t: int|
                    0 <= t < found@.len() ==> triple_before(#[trigger] found@[t], (i, j, 0)) && (
                    found@[t].1 as int) < n && (found@[t].2 as int) < n && transitivity_violation(
                        g,
                        found@[t].0 as int,
                        found@[t].1 as int,
                        found@[t].2 as int,
                    ),
                forall|a: int, b: int, c: int|
                    0 <= a < n && 0 <= b < n && 0 <= c < n && (a < i || (a == i && b < j))
                        && #[trigger] transitivity_violation(g, a, b, c) ==> found@.contains(
                        (a as usize, b as usize, c as usize),
                    ),
        {
            for k in 0..n
                invariant
                    i < n,
                    j < n,
                    n == g.len(),
                    g == grid(matrix),
                    is_relation_matrix(g),
                    forall|t: int, u: int|
                        0 <= t < u < found@.len() ==> triple_before(
                            #[trigger] found@[t],
                            #[trigger] found@[u],
                        ),
                    forall|t: int|
                        0 <= t < found@.len() ==> triple_before(#[trigger] found@[t], (i, j, k)) && (
                        found@[t].1 as int) < n && (found@[t].2 as int) < n
                            && transitivity_violation(
                            g,
                            found@[t].0 as int,
                            found@[t].1 as int,
                            found@[t].2 as int,
                        ),
                    forall|a: int, b: int, c: int|
                        0 <= a < n && 0 <= b < n && 0 <= c < n && (a < i || (a == i && b < j) || (a
                            == i && b == j && c < k)) && #[trigger] transitivity_violation(g, a, b, c)
                            ==> found@.contains((a as usize, b as usize, c as usize)),
            {
                if cell(matrix, i, j) == 1 && cell(matrix, j, k) == 1 && cell(matrix, i, k) != 1 {
                    let ghost before = found@;
                    found.push((i, j, k));
                    proof {
                        assert forall|a: int, b: int, c: int|
                            0 <= a < n && 0 <= b < n && 0 <= c < n && (a < i || (a == i && b < j) || (
                            a == i && b == j && c <= k)) && #[trigger] transitivity_violation(
                                g,
                                a,
                                b,
                                c,
                            ) implies found@.contains((a as usize, b as usize, c as usize)) by {
                            if a == i && b == j && c == k {
                                assert(found@[before.len() as int] == (i, j, k));
                            } else {
                                let t = choose|t: int|
                                    0 <= t < before.len() && before[t] == (
                                    a as usize,
                                    b as usize,
                                    c as usize,
                                );
                                assert(found@[t] == before[t]);
                            }
                        }
                    }
                }
            }
        }
    }
    found
}

} // verus!
