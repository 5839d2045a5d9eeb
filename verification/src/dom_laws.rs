//! What being in document order, with no node a child twice, means for the
//! parts of a document: the parts that hang from two children of one node
//! share no node.

use vstd::prelude::*;
use crate::dom::{
    lemma_contains_concat, lemma_preorder_kids_step, preorder, preorder_kids, shape_wf,
};

verus! {

/// A node hangs from itself.
pub proof fn lemma_preorder_has_root(shape: Seq<Seq<usize>>, d: int)
    requires
        0 <= d < shape.len(),
    ensures
        preorder(shape, d).contains(d),
{
    assert(preorder(shape, d)[0] == d);
}

/// What hangs from one of the first `count` children of a node is among
/// what hangs from those children together.
pub proof fn lemma_preorder_kids_has(shape: Seq<Seq<usize>>, d: int, count: nat, k: int, x: int)
    requires
        shape_wf(shape),
        0 <= d < shape.len(),
        0 <= k < count <= shape[d].len(),
        preorder(shape, shape[d][k] as int).contains(x),
    ensures
        preorder_kids(shape, d, count).contains(x),
    decreases count,
{
    lemma_preorder_kids_step(shape, d, count - 1);
    lemma_contains_concat(
        preorder_kids(shape, d, (count - 1) as nat),
        preorder(shape, shape[d][count - 1] as int),
        x,
    );
    if k < count - 1 {
        lemma_preorder_kids_has(shape, d, (count - 1) as nat, k, x);
    }
}

/// What hangs from a child of a node hangs from the node.
pub proof fn lemma_preorder_sub(shape: Seq<Seq<usize>>, d: int, k: int, x: int)
    requires
        shape_wf(shape),
        0 <= d < shape.len(),
        0 <= k < shape[d].len(),
        preorder(shape, shape[d][k] as int).contains(x),
    ensures
        preorder(shape, d).contains(x),
{
    lemma_preorder_kids_has(shape, d, shape[d].len(), k, x);
    lemma_contains_concat(seq![d], preorder_kids(shape, d, shape[d].len()), x);
}

/// What is among what hangs from the first `count` children of a node hangs
/// from one of them.
pub proof fn lemma_preorder_kids_member(shape: Seq<Seq<usize>>, d: int, count: nat, x: int) -> (k:
    int)
    requires
        shape_wf(shape),
        0 <= d < shape.len(),
        count <= shape[d].len(),
        preorder_kids(shape, d, count).contains(x),
    ensures
        0 <= k < count,
        preorder(shape, shape[d][k] as int).contains(x),
    decreases count,
{
    if count == 0 {
        assert(preorder_kids(shape, d, 0).len() == 0);
        0
    } else {
        lemma_preorder_kids_step(shape, d, count - 1);
        lemma_contains_concat(
            preorder_kids(shape, d, (count - 1) as nat),
            preorder(shape, shape[d][count - 1] as int),
            x,
        );
        if preorder(shape, shape[d][count - 1] as int).contains(x) {
            count - 1
        } else {
            lemma_preorder_kids_member(shape, d, (count - 1) as nat, x)
        }
    }
}

/// Every node that hangs from a node, but the node itself, hangs from one
/// of its children.
pub proof fn lemma_preorder_member(shape: Seq<Seq<usize>>, d: int, x: int) -> (k: int)
    requires
        shape_wf(shape),
        0 <= d < shape.len(),
        preorder(shape, d).contains(x),
        x != d,
    ensures
        0 <= k < shape[d].len(),
        preorder(shape, shape[d][k] as int).contains(x),
{
    lemma_contains_concat(seq![d], preorder_kids(shape, d, shape[d].len()), x);
    if seq![d].contains(x) {
        let a = choose|a: int| 0 <= a < seq![d].len() && seq![d][a] == x;
        assert(false);
    }
    lemma_preorder_kids_member(shape, d, shape[d].len(), x)
}

/// What hangs from a node stands at or after it in the arena.
pub proof fn lemma_preorder_ge(shape: Seq<Seq<usize>>, d: int, x: int)
    requires
        shape_wf(shape),
        0 <= d < shape.len(),
        preorder(shape, d).contains(x),
    ensures
        d <= x < shape.len(),
    decreases shape.len() - d,
{
    if x != d {
        let k = lemma_preorder_member(shape, d, x);
        assert(d < shape[d][k] < shape.len());
        lemma_preorder_ge(shape, shape[d][k] as int, x);
    }
}

/// A node that hangs from node `c`, and is not `c`, is the child of a node
/// that hangs from `c`.
pub proof fn lemma_parent_in_part(shape: Seq<Seq<usize>>, c: int, x: int) -> (found: (int, int))
    requires
        shape_wf(shape),
        0 <= c < shape.len(),
        preorder(shape, c).contains(x),
        x != c,
    ensures
        preorder(shape, c).contains(found.0),
        0 <= found.0 < shape.len(),
        0 <= found.1 < shape[found.0].len(),
        shape[found.0][found.1] == x,
    decreases shape.len() - c,
{
    let k = lemma_preorder_member(shape, c, x);
    let kid = shape[c][k] as int;
    assert(c < shape[c][k] < shape.len());
    if x == kid {
        lemma_preorder_has_root(shape, c);
        (c, k)
    } else {
        let found = lemma_parent_in_part(shape, kid, x);
        lemma_preorder_sub(shape, c, k, found.0);
        found
    }
}

/// No node hangs from two children of one node.
pub proof fn lemma_siblings_apart(shape: Seq<Seq<usize>>, d: int, k1: int, k2: int, x: int)
    requires
        shape_wf(shape),
        0 <= d < shape.len(),
        0 <= k1 < shape[d].len(),
        0 <= k2 < shape[d].len(),
        k1 != k2,
        preorder(shape, shape[d][k1] as int).contains(x),
    ensures
        !preorder(shape, shape[d][k2] as int).contains(x),
    decreases x,
{
    let c1 = shape[d][k1] as int;
    let c2 = shape[d][k2] as int;
    assert(d < shape[d][k1] < shape.len());
    assert(d < shape[d][k2] < shape.len());
    assert(c1 != c2);
    if preorder(shape, c2).contains(x) {
        lemma_preorder_ge(shape, c1, x);
        if x == c1 {
            let (p, k) = lemma_parent_in_part(shape, c2, x);
            lemma_preorder_ge(shape, c2, p);
            assert(shape[p][k] == shape[d][k1]);
        } else if x == c2 {
            let (p, k) = lemma_parent_in_part(shape, c1, x);
            lemma_preorder_ge(shape, c1, p);
            assert(shape[p][k] == shape[d][k2]);
        } else {
            let (p1, a) = lemma_parent_in_part(shape, c1, x);
            let (p2, b) = lemma_parent_in_part(shape, c2, x);
            assert(shape[p1][a] == shape[p2][b]);
            assert(p1 < shape[p1][a]);
            lemma_siblings_apart(shape, d, k1, k2, p1);
        }
    }
}

/// Two runs without a repeated node that share no node give, put together,
/// a run without a repeated node.
pub proof fn lemma_concat_no_duplicates(a: Seq<int>, b: Seq<int>)
    requires
        a.no_duplicates(),
        b.no_duplicates(),
        forall|x: int| !(a.contains(x) && b.contains(x)),
    ensures
        (a + b).no_duplicates(),
{
    assert forall|i: int, j: int| 0 <= i < j < (a + b).len() implies (a + b)[i] != (a + b)[j] by {
        if i < a.len() && j >= a.len() {
            assert(a.contains(a[i]));
            assert(b.contains(b[j - a.len()]));
        }
    }
}

} // verus!
