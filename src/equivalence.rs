//! Decision procedures for the properties of a relation.
use vstd::prelude::*;

use crate::relation::{
    antisymmetric, cell, connected, equivalence, grid, irreflexive, is_relation_matrix, reflexive,
    related, symmetric, transitive,
};
use crate::Matrix;

verus! {

/// Whether every element is related to itself.
pub fn is_reflexive(matrix: &Matrix) -> (r: bool)
    requires
        is_relation_matrix(grid(matrix)),
    ensures
        r == reflexive(grid(matrix)),
{
    let n = matrix.len();
    for i in 0..n
        invariant
            n == matrix@.len(),
            is_relation_matrix(grid(matrix)),
            forall|a: int| 0 <= a < i ==> #[trigger] related(grid(matrix), a, a),
    {
        if cell(matrix, i, i) != 1 {
            assert(!related(grid(matrix), i as int, i as int));
            return false;
        }
    }
    true
}

/// Whether every pair is related in both directions or in neither.
pub fn is_symmetric(matrix: &Matrix) -> (r: bool)
    requires
        is_relation_matrix(grid(matrix)),
    ensures
        r == symmetric(grid(matrix)),
{
    let ghost g = grid(matrix);
    let n = matrix.len();
    for i in 0..n
        invariant
            n == g.len(),
            g == grid(matrix),
            is_relation_matrix(g),
            forall|a: int, b: int| 0 <= a < i && 0 <= b < n ==> #[trigger] g[a][b] == g[b][a],
    {
        for j in 0..n
            invariant
                i < n,
                n == g.len(),
                g == grid(matrix),
                is_relation_matrix(g),
                forall|a: int, b: int| 0 <= a < i && 0 <= b < n ==> #[trigger] g[a][b] == g[b][a],
                forall|b: int| 0 <= b < j ==> #[trigger] g[i as int][b] == g[b][i as int],
        {
            if cell(matrix, i, j) != cell(matrix, j, i) {
                return false;
            }
        }
    }
    true
}

/// Whether no pair `i`, `j` with `j`, `k` lacks `i`, `k`.
pub fn is_transitive(matrix: &Matrix) -> (r: bool)
    requires
        is_relation_matrix(grid(matrix)),
    ensures
        r == transitive(grid(matrix)),
{
    let ghost g = grid(matrix);
    let n = matrix.len();
    for i in 0..n
        invariant
            n == g.len(),
            g == grid(matrix),
            is_relation_matrix(g),
            forall|a: int, b: int, c: int|
                0 <= a < i && 0 <= b < n && 0 <= c < n && #[trigger] related(g, a, b)
                    && #[trigger] related(g, b, c) ==> related(g, a, c),
    {
        for j in 0..n
            invariant
                i < n,
                n == g.len(),
                g == grid(matrix),
                is_relation_matrix(g),
                forall|a: int, b: int, c: int|
                    0 <= a < i && 0 <= b < n && 0 <= c < n && #[trigger] related(g, a, b)
                        && #[trigger] related(g, b, c) ==> related(g, a, c),
                forall|b: int, c: int|
                    0 <= b < j && 0 <= c < n && #[trigger] related(g, i as int, b)
                        && #[trigger] related(g, b, c) ==> related(g, i as int, c),
        {
            for k in 0..n
                invariant
                    i < n,
                    j < n,
                    n == g.len(),
                    g == grid(matrix),
                    is_relation_matrix(g),
                    forall|a: int, b: int, c: int|
                        0 <= a < i && 0 <= b < n && 0 <= c < n && #[trigger] related(g, a, b)
                            && #[trigger] related(g, b, c) ==> related(g, a, c),
                    forall|b: int, c: int|
                        0 <= b < j && 0 <= c < n && #[trigger] related(g, i as int, b)
                            && #[trigger] related(g, b, c) ==> related(g, i as int, c),
                    forall|c: int|
                        0 <= c < k && related(g, i as int, j as int) && #[trigger] related(
                            g,
                            j as int,
                            c,
                        ) ==> related(g, i as int, c),
            {
                if cell(matrix, i, j) == 1 && cell(matrix, j, k) == 1 && cell(matrix, i, k) != 1 {
                    assert(related(g, i as int, j as int) && related(g, j as int, k as int));
                    return false;
                }
            }
        }
    }
    true
}

/// Whether the relation is reflexive, symmetric and transitive.
pub fn is_equivalence_relation(matrix: &Matrix) -> (r: bool)
    requires
        is_relation_matrix(grid(matrix)),
    ensures
        r == equivalence(grid(matrix)),
{
    is_reflexive(matrix) && is_symmetric(matrix) && is_transitive(matrix)
}

/// Whether no two distinct elements are related in both directions.
pub fn is_antisymmetric(matrix: &Matrix) -> (r: bool)
    requires
        is_relation_matrix(grid(matrix)),
    ensures
        r == antisymmetric(grid(matrix)),
{
    let ghost g = grid(matrix);
    let n = matrix.len();
    for i in 0..n
        invariant
            n == g.len(),
            g == grid(matrix),
            is_relation_matrix(g),
            forall|a: int, b: int|
                0 <= a < i && 0 <= b < n && a != b ==> !(#[trigger] related(g, a, b) && related(
                    g,
                    b,
                    a,
                )),
    {
        for j in 0..n
            invariant
                i < n,
                n == g.len(),
                g == grid(matrix),
                is_relation_matrix(g),
                forall|a: int, b: int|
                    0 <= a < i && 0 <= b < n && a != b ==> !(#[trigger] related(g, a, b)
                        && related(g, b, a)),
                forall|b: int|
                    0 <= b < j && i != b ==> !(#[trigger] related(g, i as int, b) && related(
                        g,
                        b,
                        i as int,
                    )),
        {
            if i != j && cell(matrix, i, j) == 1 && cell(matrix, j, i) == 1 {
                assert(related(g, i as int, j as int));
                return false;
            }
        }
    }
    true
}

/// Whether no element is related to itself.
pub fn is_irreflexive(matrix: &Matrix) -> (r: bool)
    requires
        is_relation_matrix(grid(matrix)),
    ensures
        r == irreflexive(grid(matrix)),
{
    let ghost g = grid(matrix);
    let n = matrix.len();
    for i in 0..n
        invariant
            n == g.len(),
            g == grid(matrix),
            is_relation_matrix(g),
            forall|a: int| 0 <= a < i ==> #[trigger] g[a][a] == 0,
    {
        if cell(matrix, i, i) != 0 {
            return false;
        }
    }
    true
}

/// Whether every two distinct elements are related in at least one direction.
pub fn is_connected_relation(matrix: &Matrix) -> (r: bool)
    requires
        is_relation_matrix(grid(matrix)),
    ensures
        r == connected(grid(matrix)),
{
    let ghost g = grid(matrix);
    let n = matrix.len();
    for i in 0..n
        invariant
            n == g.len(),
            g == grid(matrix),
            is_relation_matrix(g),
            forall|a: int, b: int|
                0 <= a < i && 0 <= b < n && a != b ==> #[trigger] related(g, a, b) || related(
                    g,
                    b,
                    a,
                ),
    {
        for j in 0..n
            invariant
                i < n,
                n == g.len(),
                g == grid(matrix),
                is_relation_matrix(g),
                forall|a: int, b: int|
                    0 <= a < i && 0 <= b < n && a != b ==> #[trigger] related(g, a, b)
                        || related(g, b, a),
                forall|b: int|
                    0 <= b < j && i != b ==> #[trigger] related(g, i as int, b) || related(
                        g,
                        b,
                        i as int,
                    ),
        {
            if i != j && !(cell(matrix, i, j) == 1 || cell(matrix, j, i) == 1) {
                assert(!related(g, i as int, j as int));
                return false;
            }
        }
    }
    true
}

/// The six properties of a relation.
#[derive(Clone, Copy, Debug, PartialEq, Eq, Structural)]
pub struct PropertyReport {
    pub reflexive: bool,
    pub symmetric: bool,
    pub transitive: bool,
    pub antisymmetric: bool,
    pub irreflexive: bool,
    pub connected: bool,
}

/// The kinds of relation that a combination of properties makes.
#[derive(Clone, Copy, Debug, PartialEq, Eq, Structural)]
pub enum RelationClass {
    /// Reflexive, symmetric and transitive.
    Equivalence,
    /// Antisymmetric and transitive.
    PartialOrder,
    /// Irreflexive, symmetric and transitive.
    StrictPartialOrder,
    /// Irreflexive, antisymmetric and transitive.
    LinearOrder,
    /// Reflexive, antisymmetric, transitive and connected.
    TotalOrder,
}

pub open spec fn report_of(g: Seq<Seq<u8>>) -> PropertyReport {
    PropertyReport {
        reflexive: reflexive(g),
        symmetric: symmetric(g),
        transitive: transitive(g),
        antisymmetric: antisymmetric(g),
        irreflexive: irreflexive(g),
        connected: connected(g),
    }
}

/// `label` when `holds`, else nothing.
pub open spec fn label_if(holds: bool, label: RelationClass) -> Seq<RelationClass> {
    if holds {
        seq![label]
    } else {
        Seq::empty()
    }
}

/// The kinds that the properties in `p` make, in declaration order.
pub open spec fn labels(p: PropertyReport) -> Seq<RelationClass> {
    label_if(p.reflexive && p.symmetric && p.transitive, RelationClass::Equivalence) + label_if(
        p.antisymmetric && p.transitive,
        RelationClass::PartialOrder,
    ) + label_if(p.irreflexive && p.symmetric && p.transitive, RelationClass::StrictPartialOrder)
        + label_if(p.irreflexive && p.antisymmetric && p.transitive, RelationClass::LinearOrder)
        + label_if(
        p.reflexive && p.antisymmetric && p.transitive && p.connected,
        RelationClass::TotalOrder,
    )
}

/// Decides all six properties.
pub fn analyze_properties(matrix: &Matrix) -> (r: PropertyReport)
    requires
        is_relation_matrix(grid(matrix)),
    ensures
        r == report_of(grid(matrix)),
{
    PropertyReport {
        reflexive: is_reflexive(matrix),
        symmetric: is_symmetric(matrix),
        transitive: is_transitive(matrix),
        antisymmetric: is_antisymmetric(matrix),
        irreflexive: is_irreflexive(matrix),
        connected: is_connected_relation(matrix),
    }
}

/// The kinds of relation that `matrix` is, in declaration order.
pub fn classify(matrix: &Matrix) -> (r: Vec<RelationClass>)
    requires
        is_relation_matrix(grid(matrix)),
    ensures
        r@ == labels(report_of(grid(matrix))),
{
    let p = analyze_properties(matrix);
    let mut r: Vec<RelationClass> = Vec::new();
    if p.reflexive && p.symmetric && p.transitive {
        r.push(RelationClass::Equivalence);
    }
    let ghost s1 = r@;
    if p.antisymmetric && p.transitive {
        r.push(RelationClass::PartialOrder);
    }
    let ghost s2 = r@;
    if p.irreflexive && p.symmetric && p.transitive {
        r.push(RelationClass::StrictPartialOrder);
    }
    let ghost s3 = r@;
    if p.irreflexive && p.antisymmetric && p.transitive {
        r.push(RelationClass::LinearOrder);
    }
    let ghost s4 = r@;
    if p.reflexive && p.antisymmetric && p.transitive && p.connected {
        r.push(RelationClass::TotalOrder);
    }
    proof {
        assert(s1 =~= label_if(p.reflexive && p.symmetric && p.transitive, RelationClass::Equivalence));
        assert(s2 =~= s1 + label_if(p.antisymmetric && p.transitive, RelationClass::PartialOrder));
        assert(s3 =~= s2 + label_if(p.irreflexive && p.symmetric && p.transitive, RelationClass::StrictPartialOrder));
        assert(s4 =~= s3 + label_if(p.irreflexive && p.antisymmetric && p.transitive, RelationClass::LinearOrder));
        assert(r@ =~= s4 + label_if(p.reflexive && p.antisymmetric && p.transitive && p.connected, RelationClass::TotalOrder));
    }
    r
}

} // verus!
