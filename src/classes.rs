//! Equivalence classes: the elements that one element is related to, and the
//! partition of the whole set that they form.
use vstd::prelude::*;

use crate::closure::{full_closure, full_closure_of};
use crate::laws::lemma_full_closure_is_equivalence;
use crate::relation::{cell, grid, is_relation_matrix, related};
use crate::Matrix;

verus! {

/// `s` lists, in strictly increasing order, exactly the elements that `e` is related to.
pub open spec fn is_class_listing(g: Seq<Seq<u8>>, e: int, s: Seq<usize>) -> bool {
    &&& forall|t: int, u: int| 0 <= t < u < s.len() ==> #[trigger] s[t] < #[trigger] s[u]
    &&& forall|t: int|
        0 <= t < s.len() ==> (#[trigger] s[t] as int) < g.len() && related(g, e, s[t] as int)
    &&& forall|x: int| 0 <= x < g.len() && #[trigger] related(g, e, x) ==> s.contains(x as usize)
}

/// A listing of classes as (representative, members) pairs.
pub open spec fn class_view(r: Seq<(usize, Vec<usize>)>) -> Seq<(usize, Seq<usize>)> {
    Seq::new(r.len(), |t: int| (r[t].0, r[t].1@))
}

/// `x` is the representative of one of the listed classes.
pub open spec fn is_representative(c: Seq<(usize, Seq<usize>)>, x: int) -> bool {
    exists|t: int| 0 <= t < c.len() && #[trigger] c[t].0 == x
}

/// `x` belongs to the class of some listed representative below `x`.
pub open spec fn covered_before(g: Seq<Seq<u8>>, c: Seq<(usize, Seq<usize>)>, x: int) -> bool {
    exists|t: int| 0 <= t < c.len() && (#[trigger] c[t].0 as int) < x && related(g, c[t].0 as int, x)
}

/// `x` is a member of one of the listed classes.
pub open spec fn in_some_class(c: Seq<(usize, Seq<usize>)>, x: usize) -> bool {
    exists|t: int| 0 <= t < c.len() && #[trigger] c[t].1.contains(x)
}

/// `c` is what the scan in ascending order produces: each element not yet in
/// a listed class starts a new class, listed with all its members.
pub open spec fn lists_classes(g: Seq<Seq<u8>>, c: Seq<(usize, Seq<usize>)>) -> bool {
    &&& forall|t: int, u: int| 0 <= t < u < c.len() ==> #[trigger] c[t].0 < #[trigger] c[u].0
    &&& forall|t: int|
        0 <= t < c.len() ==> (#[trigger] c[t].0 as int) < g.len() && is_class_listing(
            g,
            c[t].0 as int,
            c[t].1,
        )
    &&& forall|x: int|
        0 <= x < g.len() ==> (#[trigger] is_representative(c, x) <==> !covered_before(g, c, x))
}

/// The elements that `element` is related to, in ascending order.
pub fn get_equivalence_class(matrix: &Matrix, element: usize) -> (r: Vec<usize>)
    requires
        is_relation_matrix(grid(matrix)),
        element < matrix@.len(),
    ensures
        is_class_listing(grid(matrix), element as int, r@),
{
    let ghost g = grid(matrix);
    let n = matrix.len();
    let mut class: Vec<usize> = Vec::new();
    for i in 0..n
        invariant
            n == g.len(),
            g == grid(matrix),
            is_relation_matrix(g),
            element < n,
            forall|t: int, u: int| 0 <= t < u < class@.len() ==> #[trigger] class@[t] < #[trigger] class@[u],
            forall|t: int|
                0 <= t < class@.len() ==> (#[trigger] class@[t] as int) < i && related(
                    g,
                    element as int,
                    class@[t] as int,
                ),
            forall|x: int| 0 <= x < i && #[trigger] related(g, element as int, x) ==> class@.contains(x as usize),
    {
        if cell(matrix, element, i) == 1 {
            let ghost old_class = class@;
            class.push(i);
            proof {
                assert forall|x: int| 0 <= x <= i && #[trigger] related(g, element as int, x) implies class@.contains(x as usize) by {
                    if x < i {
                        let t = choose|t: int| 0 <= t < old_class.len() && old_class[t] == x as usize;
                        assert(class@[t] == x as usize);
                    } else {
                        assert(class@[old_class.len() as int] == i);
                    }
                }
            }
        }
    }
    class
}

/// `x` is among the first `m` items of `s`.
spec fn in_prefix(s: Seq<usize>, m: int, x: int) -> bool {
    exists|t: int| 0 <= t < m && #[trigger] s[t] == x
}

/// `x` belongs to the class of some listed representative.
spec fn covered(g: Seq<Seq<u8>>, c: Seq<(usize, Seq<usize>)>, x: int) -> bool {
    exists|t: int| 0 <= t < c.len() && related(g, #[trigger] c[t].0 as int, x)
}

/// Scans the elements in ascending order; each one that no listed class holds
/// yet is listed with its class, as that class's representative.
pub fn all_equivalence_classes(matrix: &Matrix) -> (r: Vec<(usize, Vec<usize>)>)
    requires
        is_relation_matrix(grid(matrix)),
    ensures
        lists_classes(grid(matrix), class_view(r@)),
{
    let ghost g = grid(matrix);
    let n = matrix.len();
    let mut processed: Vec<bool> = Vec::new();
    for x in 0..n
        invariant
            processed@.len() == x,
            forall|y: int| 0 <= y < x ==> !#[trigger] processed@[y],
    {
        processed.push(false);
    }
    let mut result: Vec<(usize, Vec<usize>)> = Vec::new();
    for i in 0..n
        invariant
            n == g.len(),
            g == grid(matrix),
            is_relation_matrix(g),
            processed@.len() == n,
            forall|x: int|
                0 <= x < n ==> #[trigger] processed@[x] == covered(g, class_view(result@), x),
            forall|t: int|
                0 <= t < result@.len() ==> (#[trigger] class_view(result@)[t].0 as int) < i
                    && is_class_listing(g, class_view(result@)[t].0 as int, class_view(result@)[t].1),
            forall|t: int, u: int|
                0 <= t < u < result@.len() ==> #[trigger] class_view(result@)[t].0
                    < #[trigger] class_view(result@)[u].0,
            forall|x: int|
                0 <= x < i ==> (#[trigger] is_representative(class_view(result@), x)
                    <==> !covered_before(g, class_view(result@), x)),
    {
        let ghost c = class_view(result@);
        if !processed[i] {
            let class = get_equivalence_class(matrix, i);
            let ghost before_marks = processed@;
            for m in 0..class.len()
                invariant
                    n == g.len(),
                    processed@.len() == n,
                    is_class_listing(g, i as int, class@),
                    forall|x: int|
                        0 <= x < n ==> #[trigger] processed@[x] == (before_marks[x] || in_prefix(
                            class@,
                            m as int,
                            x,
                        )),
            {
                assert(class@[m as int] < n);
                processed.set(class[m], true);
                proof {
                    assert forall|x: int| 0 <= x < n implies #[trigger] processed@[x] == (
                    before_marks[x] || in_prefix(class@, m + 1, x)) by {
                        if in_prefix(class@, m + 1, x) && x != class@[m as int] {
                            let t = choose|t: int| 0 <= t < m + 1 && #[trigger] class@[t] == x;
                            assert(in_prefix(class@, m as int, x));
                        }
                        if x == class@[m as int] {
                            assert(in_prefix(class@, m + 1, x));
                        }
                    }
                }
            }
            proof {
                assert forall|x: int| 0 <= x < n implies #[trigger] processed@[x] == (before_marks[x]
                    || class@.contains(x as usize)) by {
                    if in_prefix(class@, class@.len() as int, x) {
                        let t = choose|t: int| 0 <= t < class@.len() && #[trigger] class@[t] == x;
                        assert(class@[t] == x as usize);
                    }
                    if class@.contains(x as usize) {
                        let t = choose|t: int| 0 <= t < class@.len() && class@[t] == x as usize;
                        assert(class@[t] == x);
                    }
                }
            }
            result.push((i, class));
            proof {
                let c2 = class_view(result@);
                assert(c2 =~= c.push((i, c2[c.len() as int].1)));
                assert(c2[c.len() as int].0 == i);
                assert forall|x: int| 0 <= x < n implies #[trigger] processed@[x] == covered(g, c2, x) by {
                    if processed@[x] {
                        if before_marks[x] {
                            let t = choose|t: int| 0 <= t < c.len() && related(g, #[trigger] c[t].0 as int, x);
                            assert(c2[t] == c[t]);
                        } else {
                            let t = choose|t: int| 0 <= t < class@.len() && class@[t] == x as usize;
                            assert(related(g, i as int, class@[t] as int));
                            assert(related(g, c2[c.len() as int].0 as int, x));
                        }
                    }
                    if covered(g, c2, x) {
                        let t = choose|t: int| 0 <= t < c2.len() && related(g, #[trigger] c2[t].0 as int, x);
                        if t < c.len() {
                            assert(c2[t] == c[t]);
                            assert(covered(g, c, x));
                        } else {
                            assert(related(g, i as int, x));
                            assert(class@.contains(x as usize));
                        }
                    }
                }
                assert forall|x: int| 0 <= x < i + 1 implies (#[trigger] is_representative(c2, x)
                    <==> !covered_before(g, c2, x)) by {
                    if is_representative(c2, x) && x < i {
                        let t = choose|t: int| 0 <= t < c2.len() && #[trigger] c2[t].0 == x;
                        assert(c2[t] == c[t]);
                        assert(is_representative(c, x));
                    }
                    if covered_before(g, c2, x) {
                        let t = choose|t: int| 0 <= t < c2.len() && (#[trigger] c2[t].0 as int) < x && related(g, c2[t].0 as int, x);
                        assert(c2[t] == c[t]);
                        assert(covered_before(g, c, x));
                        if x == i {
                            assert(covered(g, c, x));
                        }
                    }
                    if is_representative(c, x) {
                        let t = choose|t: int| 0 <= t < c.len() && #[trigger] c[t].0 == x;
                        assert(c2[t] == c[t]);
                    }
                    if covered_before(g, c, x) {
                        let t = choose|t: int| 0 <= t < c.len() && (#[trigger] c[t].0 as int) < x && related(g, c[t].0 as int, x);
                        assert(c2[t] == c[t]);
                    }
                    if x == i {
                        assert(c2[c.len() as int].0 == i);
                    }
                }
            }
        } else {
            proof {
                let t = choose|t: int| 0 <= t < c.len() && related(g, #[trigger] c[t].0 as int, i as int);
                assert(covered_before(g, c, i as int));
                assert forall|x: int| 0 <= x < i + 1 implies (#[trigger] is_representative(c, x)
                    <==> !covered_before(g, c, x)) by {
                    if x == i && is_representative(c, x) {
                        let t = choose|t: int| 0 <= t < c.len() && #[trigger] c[t].0 == x;
                    }
                }
            }
        }
    }
    result
}

/// The weakly connected components: the sets of elements joined by arrows
/// taken in either direction. They are the classes of the full closure, each
/// listed under its smallest element, with its members in ascending order.
pub fn weakly_connected_components(matrix: &Matrix) -> (r: Vec<(usize, Vec<usize>)>)
    requires
        is_relation_matrix(grid(matrix)),
    ensures
        lists_classes(full_closure_of(grid(matrix)), class_view(r@)),
{
    let closed = full_closure(matrix);
    proof {
        lemma_full_closure_is_equivalence(grid(matrix));
    }
    all_equivalence_classes(&closed)
}

} // verus!
