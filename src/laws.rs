//! General facts about the properties, closures and classes of relations.
use vstd::prelude::*;

use crate::classes::{
    covered_before, in_some_class, is_class_listing, is_representative, lists_classes,
};
use crate::closure::{
    full_closure_of, lemma_edge_reachable, lemma_reachable_trans, lemma_reflexive_closure_valid,
    lemma_symmetric_closure_valid, lemma_walk_in_transitive, reflexive_closure_of,
    symmetric_closure_of, transitive_closure_of,
};
use crate::relation::{
    antisymmetric, connected, contains, equivalence, irreflexive, is_relation_matrix, is_walk,
    ones_matrix, reachable, reflexive, related, symmetric, transitive, zero_matrix,
};

verus! {

/// The empty relation is symmetric, transitive, irreflexive and antisymmetric;
/// on a nonempty set it is not reflexive, and on two or more elements it is
/// not connected.
pub proof fn lemma_zero_matrix_properties(n: nat)
    ensures
        is_relation_matrix(zero_matrix(n)),
        symmetric(zero_matrix(n)),
        transitive(zero_matrix(n)),
        irreflexive(zero_matrix(n)),
        antisymmetric(zero_matrix(n)),
        n >= 1 ==> !reflexive(zero_matrix(n)),
        n >= 2 ==> !connected(zero_matrix(n)),
{
    let g = zero_matrix(n);
    assert forall|i: int| 0 <= i < g.len() implies #[trigger] g[i].len() == g.len() by {}
    if n >= 1 {
        assert(!related(g, 0, 0));
    }
    if n >= 2 {
        assert(!related(g, 0, 1) && !related(g, 1, 0));
    }
}

/// The full relation is reflexive, symmetric, transitive, connected, and so an
/// equivalence relation.
pub proof fn lemma_ones_matrix_properties(n: nat)
    ensures
        is_relation_matrix(ones_matrix(n)),
        reflexive(ones_matrix(n)),
        symmetric(ones_matrix(n)),
        transitive(ones_matrix(n)),
        connected(ones_matrix(n)),
        equivalence(ones_matrix(n)),
{
    let g = ones_matrix(n);
    assert forall|i: int| 0 <= i < g.len() implies #[trigger] g[i].len() == g.len() by {}
}

/// The full relation on a nonempty set has exactly one class, represented by
/// the first element and holding every element.
pub proof fn lemma_ones_matrix_single_class(n: nat, c: Seq<(usize, Seq<usize>)>)
    requires
        n >= 1,
        lists_classes(ones_matrix(n), c),
    ensures
        c.len() == 1,
        c[0].0 == 0,
        forall|x: usize| #[trigger] c[0].1.contains(x) <==> (x as int) < n,
{
    let g = ones_matrix(n);
    assert(!covered_before(g, c, 0));
    assert(is_representative(c, 0));
    let t0 = choose|t: int| 0 <= t < c.len() && #[trigger] c[t].0 == 0;
    assert forall|t: int| 0 <= t < c.len() implies #[trigger] c[t].0 == 0 by {
        let x = c[t].0 as int;
        assert(x < n);
        assert(is_representative(c, x));
        if x > 0 {
            assert(related(g, c[t0].0 as int, x));
            assert(covered_before(g, c, x));
        }
    }
    if c.len() > 1 {
        assert(c[0].0 < c[1].0);
    }
    assert forall|x: usize| #[trigger] c[0].1.contains(x) <==> (x as int) < n by {
        if (x as int) < n {
            assert(related(g, 0, x as int));
        }
        if c[0].1.contains(x) {
            let t = choose|t: int| 0 <= t < c[0].1.len() && c[0].1[t] == x;
            assert((c[0].1[t] as int) < g.len());
        }
    }
}

/// Closing reflexively a second time changes nothing.
pub proof fn lemma_reflexive_closure_idempotent(g: Seq<Seq<u8>>)
    requires
        is_relation_matrix(g),
    ensures
        reflexive_closure_of(reflexive_closure_of(g)) == reflexive_closure_of(g),
{
    assert(reflexive_closure_of(reflexive_closure_of(g)) =~~= reflexive_closure_of(g));
}

/// Closing symmetrically a second time changes nothing.
pub proof fn lemma_symmetric_closure_idempotent(g: Seq<Seq<u8>>)
    requires
        is_relation_matrix(g),
    ensures
        symmetric_closure_of(symmetric_closure_of(g)) == symmetric_closure_of(g),
{
    assert(symmetric_closure_of(symmetric_closure_of(g)) =~~= symmetric_closure_of(g));
}

/// Every pair related in `g` stays related in its transitive closure.
pub proof fn lemma_transitive_closure_contains(g: Seq<Seq<u8>>)
    requires
        is_relation_matrix(g),
    ensures
        contains(transitive_closure_of(g), g),
{
    let c = transitive_closure_of(g);
    assert forall|i: int, j: int|
        0 <= i < g.len() && 0 <= j < g.len() && #[trigger] related(g, i, j) implies related(
        c,
        i,
        j,
    ) by {
        lemma_edge_reachable(g, i, j);
    }
}

/// The transitive closure is transitive.
pub proof fn lemma_transitive_closure_is_transitive(g: Seq<Seq<u8>>)
    requires
        is_relation_matrix(g),
    ensures
        transitive(transitive_closure_of(g)),
{
    let c = transitive_closure_of(g);
    assert forall|i: int, j: int, k: int|
        0 <= i < c.len() && 0 <= j < c.len() && 0 <= k < c.len() && #[trigger] related(c, i, j)
            && #[trigger] related(c, j, k) implies related(c, i, k) by {
        lemma_reachable_trans(g, i, j, k);
    }
}

/// Closing transitively a second time changes nothing.
pub proof fn lemma_transitive_closure_idempotent(g: Seq<Seq<u8>>)
    requires
        is_relation_matrix(g),
    ensures
        transitive_closure_of(transitive_closure_of(g)) == transitive_closure_of(g),
{
    let c = transitive_closure_of(g);
    let cc = transitive_closure_of(c);
    lemma_transitive_closure_is_transitive(g);
    assert forall|i: int, j: int| 0 <= i < c.len() && 0 <= j < c.len() implies #[trigger] cc[i][j]
        == c[i][j] by {
        if reachable(c, i, j) {
            let p = choose|p: Seq<int>| #[trigger] is_walk(c, p) && p[0] == i && p.last() == j;
            assert(contains(c, c));
            lemma_walk_in_transitive(c, c, p);
        }
        if related(c, i, j) {
            lemma_edge_reachable(c, i, j);
        }
    }
    assert(cc =~~= c);
}

/// The classes of an equivalence relation partition the set: no element lies
/// in two listed classes, and the listed classes hold exactly the elements.
pub proof fn lemma_classes_partition(g: Seq<Seq<u8>>, c: Seq<(usize, Seq<usize>)>)
    requires
        is_relation_matrix(g),
        equivalence(g),
        lists_classes(g, c),
    ensures
        forall|a: int, b: int, x: usize|
            0 <= a < c.len() && 0 <= b < c.len() && a != b ==> !(#[trigger] c[a].1.contains(x)
                && #[trigger] c[b].1.contains(x)),
        forall|x: usize| #[trigger] in_some_class(c, x) <==> (x as int) < g.len(),
{
    assert forall|a: int, b: int, x: usize|
        0 <= a < c.len() && 0 <= b < c.len() && a != b implies !(#[trigger] c[a].1.contains(x)
        && #[trigger] c[b].1.contains(x)) by {
        if c[a].1.contains(x) && c[b].1.contains(x) {
            let (lo, hi) = if a < b { (a, b) } else { (b, a) };
            assert(c[lo].0 < c[hi].0);
            let tl = choose|t: int| 0 <= t < c[lo].1.len() && c[lo].1[t] == x;
            let th = choose|t: int| 0 <= t < c[hi].1.len() && c[hi].1[t] == x;
            assert(related(g, c[lo].0 as int, c[lo].1[tl] as int));
            assert(related(g, c[hi].0 as int, c[hi].1[th] as int));
            let rl = c[lo].0 as int;
            let rh = c[hi].0 as int;
            assert(related(g, x as int, rh));
            assert(related(g, rl, rh));
            assert(covered_before(g, c, rh));
            assert(is_representative(c, rh));
        }
    }
    assert forall|x: usize| #[trigger] in_some_class(c, x) <==> (x as int) < g.len() by {
        if (x as int) < g.len() {
            if is_representative(c, x as int) {
                let t = choose|t: int| 0 <= t < c.len() && #[trigger] c[t].0 == x as int;
                assert(related(g, x as int, x as int));
                assert(c[t].1.contains(x));
            } else {
                let t = choose|t: int|
                    0 <= t < c.len() && (#[trigger] c[t].0 as int) < x && related(g, c[t].0 as int, x as int);
                assert(c[t].1.contains(x));
            }
        }
        if in_some_class(c, x) {
            let t = choose|t: int| 0 <= t < c.len() && #[trigger] c[t].1.contains(x);
            let u = choose|u: int| 0 <= u < c[t].1.len() && c[t].1[u] == x;
            assert(is_class_listing(g, c[t].0 as int, c[t].1));
            assert((c[t].1[u] as int) < g.len());
        }
    }
}

/// In a symmetric relation every walk can be taken backwards.
pub proof fn lemma_reachable_reverse(g: Seq<Seq<u8>>, i: int, j: int)
    requires
        is_relation_matrix(g),
        symmetric(g),
        reachable(g, i, j),
    ensures
        reachable(g, j, i),
{
    let p = choose|p: Seq<int>| #[trigger] is_walk(g, p) && p[0] == i && p.last() == j;
    let l = p.len();
    let q = Seq::new(l, |t: int| p[l - 1 - t]);
    assert forall|t: int| 0 <= t < q.len() implies 0 <= #[trigger] q[t] < g.len() by {
        assert(0 <= p[l - 1 - t] < g.len());
    }
    assert forall|t: int| 0 <= t < q.len() - 1 implies #[trigger] related(g, q[t], q[t + 1]) by {
        let u = l - 2 - t;
        assert(related(g, p[u], p[u + 1]));
        assert(0 <= p[u] < g.len() && 0 <= p[u + 1] < g.len());
        assert(g[p[u]][p[u + 1]] == g[p[u + 1]][p[u]]);
    }
    assert(is_walk(g, q));
}

/// The full closure is an equivalence relation.
pub proof fn lemma_full_closure_is_equivalence(g: Seq<Seq<u8>>)
    requires
        is_relation_matrix(g),
    ensures
        is_relation_matrix(full_closure_of(g)),
        full_closure_of(g).len() == g.len(),
        equivalence(full_closure_of(g)),
        contains(full_closure_of(g), g),
{
    let r = reflexive_closure_of(g);
    lemma_reflexive_closure_valid(g);
    let s = symmetric_closure_of(r);
    lemma_symmetric_closure_valid(r);
    let c = transitive_closure_of(s);
    crate::closure::lemma_transitive_closure_valid(s);
    lemma_transitive_closure_contains(s);
    lemma_transitive_closure_is_transitive(s);
    assert forall|i: int| 0 <= i < c.len() implies #[trigger] related(c, i, i) by {
        assert(related(r, i, i));
        assert(related(s, i, i));
    }
    assert(symmetric(s)) by {
        assert forall|i: int, j: int| 0 <= i < s.len() && 0 <= j < s.len() implies #[trigger] s[i][j]
            == s[j][i] by {}
    }
    assert forall|i: int, j: int| 0 <= i < c.len() && 0 <= j < c.len() implies #[trigger] c[i][j]
        == c[j][i] by {
        if reachable(s, i, j) {
            lemma_reachable_reverse(s, i, j);
        }
        if reachable(s, j, i) {
            lemma_reachable_reverse(s, j, i);
        }
    }
    assert forall|i: int, j: int|
        0 <= i < g.len() && 0 <= j < g.len() && #[trigger] related(g, i, j) implies related(
        c,
        i,
        j,
    ) by {
        assert(g[i].len() == g.len());
        assert(related(r, i, j));
        assert(related(s, i, j));
    }
}

} // verus!
