//! What a walk over the tree leaves in each box, stated box by box.
//!
//! A top-down walk leaves in the root what a visit makes of it, and in every
//! other box what a visit makes of the box as its parent's visit left it. A
//! bottom-up walk leaves in every box what its parent's visit makes of it,
//! given the box as its own visit left it.

use vstd::prelude::*;
use crate::flow::{
    first_of, kids_of, lemma_first_le, lemma_kid_parts, lemma_parts_tile, links_wf, Flow,
    FlowLinks,
};
use crate::traversal::{
    apply_visit, gather, is_kid, lemma_kids_rise, lemma_post_frame, lemma_post_kids_frame,
    lemma_pre_frame, lemma_pre_kids_frame, lemma_visit_frame, post_kids, post_process_spec,
    post_spec, post_visit, pre_kids, pre_process_spec, pre_spec, pre_visit,
    PostorderFlowTraversal, PreorderFlowTraversal,
};

verus! {

/// The part of the tree that hangs from a box of the part that hangs from
/// box `i` starts no earlier than the part of `i`.
pub proof fn lemma_first_nested(links: Seq<FlowLinks>, i: int, p: int)
    requires
        links_wf(links),
        0 <= i < links.len(),
        first_of(links, i) <= p <= i,
    ensures
        first_of(links, i) <= first_of(links, p),
    decreases i,
{
    if p < i {
        let k = lemma_parts_tile(links, i, p);
        lemma_kid_parts(links, i, k);
        lemma_first_nested(links, kids_of(links, i)[k] as int, p);
    }
}

/// A box that lies in the part of the tree that hangs from a child of box
/// `i`, and is not that child, is no child of `i`.
pub proof fn lemma_inner_not_kid(links: Seq<FlowLinks>, i: int, k: int, x: int)
    requires
        links_wf(links),
        0 <= i < links.len(),
        0 <= k < kids_of(links, i).len(),
        first_of(links, kids_of(links, i)[k] as int) <= x < kids_of(links, i)[k],
    ensures
        !is_kid(links, i, x),
{
    let kids = kids_of(links, i);
    lemma_kids_rise(links, i);
    lemma_kid_parts(links, i, k);
    if is_kid(links, i, x) {
        let a = choose|a: int| 0 <= a < kids.len() && #[trigger] kids[a] == x;
        if a < k {
            if a < k - 1 {
                assert(kids[a] < kids[k - 1]);
            }
            assert(false);
        } else if a > k {
            assert(kids[k] < kids[a]);
            assert(false);
        }
    }
}

/// The children of a box of the part of the tree that hangs from box `i` lie
/// in that part, before the box.
pub proof fn lemma_kid_in_part(links: Seq<FlowLinks>, i: int, p: int, m: int)
    requires
        links_wf(links),
        0 <= i < links.len(),
        first_of(links, i) <= p <= i,
        0 <= m < kids_of(links, p).len(),
    ensures
        first_of(links, i) <= kids_of(links, p)[m] < p,
        first_of(links, i) <= first_of(links, kids_of(links, p)[m] as int),
{
    lemma_first_le(links, i);
    lemma_first_nested(links, i, p);
    lemma_kid_parts(links, p, m);
}

/// Whether in `after` every child of a box from `lo` to `hi` holds what a
/// visit makes of the child as its parent's visit left it: the parent taken
/// from `after`, the child as it was in `before`.
pub open spec fn pre_closed<T: PreorderFlowTraversal>(
    op: &T,
    links: Seq<FlowLinks>,
    before: Seq<Flow>,
    after: Seq<Flow>,
    lo: int,
    hi: int,
) -> bool {
    forall|p: int, m: int|
        lo <= p <= hi && 0 <= m < kids_of(links, p).len() ==> after[#[trigger] kids_of(
            links,
            p,
        )[m] as int] == op.own_spec(op.kid_spec(after[p], before[kids_of(links, p)[m] as int]))
}

/// What a top-down walk of the part of the tree that hangs from box `i`
/// leaves in the boxes of that part.
pub proof fn lemma_pre_closed<T: PreorderFlowTraversal>(
    op: &T,
    links: Seq<FlowLinks>,
    flows: Seq<Flow>,
    i: int,
)
    requires
        links_wf(links),
        flows.len() == links.len(),
        0 <= i < links.len(),
    ensures
        pre_spec(op, links, flows, i)[i] == op.own_spec(flows[i]),
        pre_closed(op, links, flows, pre_spec(op, links, flows, i), first_of(links, i), i),
    decreases i, 1nat, 0nat,
{
    let kids = kids_of(links, i);
    let result = pre_process_spec(op, flows[i], gather(flows, kids));
    let v = pre_visit(op, links, flows, i);
    assert(v == apply_visit(links, flows, i, result));
    lemma_visit_frame(links, flows, i, result);
    lemma_pre_kids_closed(op, links, v, i, kids.len());
    lemma_pre_kids_frame(op, links, v, i, kids.len());
    lemma_kids_rise(links, i);
    lemma_first_le(links, i);
    let r = pre_spec(op, links, flows, i);
    assert(r == pre_kids(op, links, v, i, kids.len()));
    if kids.len() > 0 {
        lemma_kid_parts(links, i, kids.len() - 1);
    }
    assert(r[i] == v[i]);
    assert forall|p: int, m: int|
        first_of(links, i) <= p <= i && 0 <= m < kids_of(links, p).len() implies r[#[trigger] kids_of(
        links,
        p,
    )[m] as int] == op.own_spec(op.kid_spec(r[p], flows[kids_of(links, p)[m] as int])) by {
        let x = kids_of(links, p)[m] as int;
        if p == i {
            assert(0 <= kids[m] < i);
            assert(v[x] == result.1[m]);
            assert(result.1[m] == op.kid_spec(op.own_spec(flows[i]), gather(flows, kids)[m]));
            assert(r[x] == op.own_spec(v[x]));
        } else {
            let k = lemma_parts_tile(links, i, p);
            lemma_kid_parts(links, i, k);
            lemma_kid_in_part(links, kids[k] as int, p, m);
            lemma_inner_not_kid(links, i, k, x);
            assert(v[x] == flows[x]);
            assert(first_of(links, i) <= p <= kids[kids.len() - 1]);
        }
    }
}

/// What top-down walks of the parts of the tree that hang from the first `k`
/// children of box `i` leave in the boxes of those parts.
pub proof fn lemma_pre_kids_closed<T: PreorderFlowTraversal>(
    op: &T,
    links: Seq<FlowLinks>,
    flows: Seq<Flow>,
    i: int,
    k: nat,
)
    requires
        links_wf(links),
        flows.len() == links.len(),
        0 <= i < links.len(),
        k <= kids_of(links, i).len(),
    ensures
        forall|m: int|
            0 <= m < k ==> pre_kids(op, links, flows, i, k)[#[trigger] kids_of(links, i)[m] as int]
                == op.own_spec(flows[kids_of(links, i)[m] as int]),
        k > 0 ==> pre_closed(
            op,
            links,
            flows,
            pre_kids(op, links, flows, i, k),
            first_of(links, i),
            kids_of(links, i)[k - 1] as int,
        ),
    decreases i, 0nat, k,
{
    if k > 0 {
        let kids = kids_of(links, i);
        let before = pre_kids(op, links, flows, i, (k - 1) as nat);
        let c = kids[k - 1] as int;
        let t = pre_kids(op, links, flows, i, k);
        lemma_kids_rise(links, i);
        assert(0 <= kids[k - 1] < i);
        assert(t == pre_spec(op, links, before, c));
        lemma_pre_kids_closed(op, links, flows, i, (k - 1) as nat);
        lemma_pre_kids_frame(op, links, flows, i, (k - 1) as nat);
        lemma_kid_parts(links, i, k - 1);
        lemma_pre_closed(op, links, before, c);
        lemma_pre_frame(op, links, before, c);
        if k > 1 {
            lemma_kid_parts(links, i, k - 2);
        }
        assert forall|m: int| 0 <= m < k implies t[#[trigger] kids[m] as int] == op.own_spec(
            flows[kids[m] as int],
        ) by {
            if m < k - 1 {
                if m < k - 2 {
                    assert(kids[m] < kids[k - 2]);
                }
                assert(0 <= kids[m] < i);
                assert(t[kids[m] as int] == before[kids[m] as int]);
            } else {
                assert(before[c] == flows[c]);
            }
        }
        assert forall|p: int, m: int|
            first_of(links, i) <= p <= c && 0 <= m < kids_of(links, p).len() implies t[#[trigger] kids_of(
            links,
            p,
        )[m] as int] == op.own_spec(op.kid_spec(t[p], flows[kids_of(links, p)[m] as int])) by {
            let x = kids_of(links, p)[m] as int;
            lemma_first_le(links, i);
            if p >= first_of(links, c) {
                lemma_kid_in_part(links, c, p, m);
                assert(before[x] == flows[x]);
            } else {
                lemma_kid_parts(links, p, m);
                assert(t[p] == before[p]);
                assert(t[x] == before[x]);
            }
        }
    }
}

/// A box as a bottom-up visit leaves it, or as it was where the pass does
/// not visit it.
pub open spec fn own_step<T: PostorderFlowTraversal>(op: &T, flow: Flow, kids: Seq<Flow>) -> Flow {
    if op.should_process_spec(flow) {
        op.own_spec(flow, kids)
    } else {
        flow
    }
}

/// The first `n` boxes, each as the pass leaves it when the box itself has
/// been visited and its parent has not: the box as it was in `flows`,
/// rewritten by its own visit, which sees the children in that same state.
pub open spec fn post_own<T: PostorderFlowTraversal>(
    op: &T,
    links: Seq<FlowLinks>,
    flows: Seq<Flow>,
    n: nat,
) -> Seq<Flow>
    decreases n,
{
    if n == 0 {
        Seq::empty()
    } else {
        let prev = post_own(op, links, flows, (n - 1) as nat);
        prev.push(own_step(op, flows[n - 1], gather(prev, kids_of(links, n - 1))))
    }
}

/// What the visit to box `p` makes of its child `m`, given the boxes as
/// their own visits left them; the child as its own visit left it, where the
/// pass does not visit `p`.
pub open spec fn placed<T: PostorderFlowTraversal>(
    op: &T,
    links: Seq<FlowLinks>,
    flows: Seq<Flow>,
    own: Seq<Flow>,
    p: int,
    m: int,
) -> Flow {
    if op.should_process_spec(flows[p]) {
        op.kid_spec(flows[p], gather(own, kids_of(links, p)), m)
    } else {
        own[kids_of(links, p)[m] as int]
    }
}

/// Whether in `after` every child of a box from `lo` to `hi` holds what its
/// parent's visit makes of it.
pub open spec fn post_closed<T: PostorderFlowTraversal>(
    op: &T,
    links: Seq<FlowLinks>,
    before: Seq<Flow>,
    after: Seq<Flow>,
    lo: int,
    hi: int,
) -> bool {
    forall|p: int, m: int|
        lo <= p <= hi && 0 <= m < kids_of(links, p).len() ==> after[#[trigger] kids_of(
            links,
            p,
        )[m] as int] == placed(op, links, before, post_own(op, links, before, before.len()), p, m)
}

/// The state of a box after its own visit does not depend on how many boxes
/// after it are looked at.
pub proof fn lemma_post_own_prefix<T: PostorderFlowTraversal>(
    op: &T,
    links: Seq<FlowLinks>,
    flows: Seq<Flow>,
    n: nat,
    j: int,
)
    requires
        0 <= j < n,
    ensures
        post_own(op, links, flows, n).len() == n,
        post_own(op, links, flows, (j + 1) as nat).len() == j + 1,
        post_own(op, links, flows, n)[j] == post_own(op, links, flows, (j + 1) as nat)[j],
    decreases n,
{
    lemma_post_own_len(op, links, flows, n);
    lemma_post_own_len(op, links, flows, (j + 1) as nat);
    if j + 1 < n {
        lemma_post_own_len(op, links, flows, (n - 1) as nat);
        lemma_post_own_prefix(op, links, flows, (n - 1) as nat, j);
    }
}

proof fn lemma_post_own_len<T: PostorderFlowTraversal>(
    op: &T,
    links: Seq<FlowLinks>,
    flows: Seq<Flow>,
    n: nat,
)
    ensures
        post_own(op, links, flows, n).len() == n,
    decreases n,
{
    if n > 0 {
        lemma_post_own_len(op, links, flows, (n - 1) as nat);
    }
}

/// The state of a box after its own visit is what the visit makes of the
/// box as it was, given its children after their own visits.
pub proof fn lemma_post_own_at<T: PostorderFlowTraversal>(
    op: &T,
    links: Seq<FlowLinks>,
    flows: Seq<Flow>,
    j: int,
)
    requires
        links_wf(links),
        flows.len() == links.len(),
        0 <= j < links.len(),
    ensures
        post_own(op, links, flows, flows.len()).len() == flows.len(),
        post_own(op, links, flows, flows.len())[j] == own_step(
            op,
            flows[j],
            gather(post_own(op, links, flows, flows.len()), kids_of(links, j)),
        ),
{
    let n = flows.len();
    let kids = kids_of(links, j);
    let all = post_own(op, links, flows, n);
    let upto = post_own(op, links, flows, j as nat);
    lemma_post_own_prefix(op, links, flows, n, j);
    lemma_post_own_len(op, links, flows, j as nat);
    lemma_kids_rise(links, j);
    assert(post_own(op, links, flows, (j + 1) as nat)[j] == own_step(
        op,
        flows[j],
        gather(upto, kids),
    ));
    assert forall|m: int| 0 <= m < kids.len() implies upto[#[trigger] kids[m] as int]
        == all[kids[m] as int] by {
        let c = kids[m] as int;
        assert(0 <= kids[m] < j);
        lemma_post_own_prefix(op, links, flows, j as nat, c);
        lemma_post_own_prefix(op, links, flows, n, c);
    }
    assert(gather(upto, kids) =~= gather(all, kids));
}

/// The state of a box after its own visit depends on nothing but the boxes
/// of the part of the tree that hangs from it.
pub proof fn lemma_post_own_agree<T: PostorderFlowTraversal>(
    op: &T,
    links: Seq<FlowLinks>,
    a: Seq<Flow>,
    b: Seq<Flow>,
    lo: int,
    j: int,
)
    requires
        links_wf(links),
        a.len() == links.len(),
        b.len() == links.len(),
        0 <= j < links.len(),
        0 <= lo <= first_of(links, j),
        forall|x: int| lo <= x <= j ==> a[x] == b[x],
    ensures
        post_own(op, links, a, a.len())[j] == post_own(op, links, b, b.len())[j],
    decreases j,
{
    let kids = kids_of(links, j);
    let own_a = post_own(op, links, a, a.len());
    let own_b = post_own(op, links, b, b.len());
    lemma_post_own_at(op, links, a, j);
    lemma_post_own_at(op, links, b, j);
    lemma_kids_rise(links, j);
    assert forall|m: int| 0 <= m < kids.len() implies own_a[#[trigger] kids[m] as int]
        == own_b[kids[m] as int] by {
        assert(0 <= kids[m] < j);
        lemma_kid_parts(links, j, m);
        lemma_post_own_agree(op, links, a, b, lo, kids[m] as int);
    }
    assert(gather(own_a, kids) =~= gather(own_b, kids));
    lemma_first_le(links, j);
}

/// What a bottom-up walk of the part of the tree that hangs from box `i`
/// leaves in the boxes of that part.
pub proof fn lemma_post_closed<T: PostorderFlowTraversal>(
    op: &T,
    links: Seq<FlowLinks>,
    flows: Seq<Flow>,
    i: int,
)
    requires
        links_wf(links),
        flows.len() == links.len(),
        0 <= i < links.len(),
    ensures
        post_spec(op, links, flows, i)[i] == post_own(op, links, flows, flows.len())[i],
        post_closed(op, links, flows, post_spec(op, links, flows, i), first_of(links, i), i),
    decreases i, 1nat, 0nat,
{
    let kids = kids_of(links, i);
    let own = post_own(op, links, flows, flows.len());
    let t = post_kids(op, links, flows, i, kids.len());
    let r = post_spec(op, links, flows, i);
    let result = post_process_spec(op, t[i], gather(t, kids));
    assert(r == post_visit(op, links, t, i));
    lemma_post_kids_closed(op, links, flows, i, kids.len());
    lemma_post_kids_frame(op, links, flows, i, kids.len());
    lemma_visit_frame(links, t, i, result);
    lemma_kids_rise(links, i);
    lemma_first_le(links, i);
    lemma_post_own_at(op, links, flows, i);
    if kids.len() > 0 {
        lemma_kid_parts(links, i, kids.len() - 1);
    }
    assert(t[i] == flows[i]);
    assert forall|m: int| 0 <= m < kids.len() implies #[trigger] gather(t, kids)[m] == gather(
        own,
        kids,
    )[m] by {
        assert(t[kids[m] as int] == own[kids[m] as int]);
    }
    assert(gather(t, kids) =~= gather(own, kids));
    assert(r[i] == own[i]);
    assert forall|p: int, m: int|
        first_of(links, i) <= p <= i && 0 <= m < kids_of(links, p).len() implies r[#[trigger] kids_of(
        links,
        p,
    )[m] as int] == placed(op, links, flows, own, p, m) by {
        let x = kids_of(links, p)[m] as int;
        if p == i {
            assert(0 <= kids[m] < i);
            assert(t[x] == own[x]);
            if op.should_process_spec(flows[i]) {
                assert(r[x] == result.1[m]);
            }
        } else {
            let k = lemma_parts_tile(links, i, p);
            lemma_kid_parts(links, i, k);
            lemma_kid_in_part(links, kids[k] as int, p, m);
            lemma_inner_not_kid(links, i, k, x);
            assert(r[x] == t[x]);
            assert(first_of(links, i) <= p <= kids[kids.len() - 1]);
        }
    }
}

/// What bottom-up walks of the parts of the tree that hang from the first
/// `k` children of box `i` leave in the boxes of those parts.
pub proof fn lemma_post_kids_closed<T: PostorderFlowTraversal>(
    op: &T,
    links: Seq<FlowLinks>,
    flows: Seq<Flow>,
    i: int,
    k: nat,
)
    requires
        links_wf(links),
        flows.len() == links.len(),
        0 <= i < links.len(),
        k <= kids_of(links, i).len(),
    ensures
        forall|m: int|
            0 <= m < k ==> post_kids(op, links, flows, i, k)[#[trigger] kids_of(links, i)[m] as int]
                == post_own(op, links, flows, flows.len())[kids_of(links, i)[m] as int],
        k > 0 ==> post_closed(
            op,
            links,
            flows,
            post_kids(op, links, flows, i, k),
            first_of(links, i),
            kids_of(links, i)[k - 1] as int,
        ),
    decreases i, 0nat, k,
{
    if k > 0 {
        let kids = kids_of(links, i);
        let own = post_own(op, links, flows, flows.len());
        let before = post_kids(op, links, flows, i, (k - 1) as nat);
        let own_b = post_own(op, links, before, before.len());
        let c = kids[k - 1] as int;
        let t = post_kids(op, links, flows, i, k);
        lemma_kids_rise(links, i);
        assert(0 <= kids[k - 1] < i);
        assert(t == post_spec(op, links, before, c));
        lemma_post_kids_closed(op, links, flows, i, (k - 1) as nat);
        lemma_post_kids_frame(op, links, flows, i, (k - 1) as nat);
        lemma_kid_parts(links, i, k - 1);
        lemma_post_closed(op, links, before, c);
        lemma_post_frame(op, links, before, c);
        lemma_first_le(links, i);
        if k > 1 {
            lemma_kid_parts(links, i, k - 2);
        }
        assert forall|x: int| first_of(links, c) <= x <= c implies before[x] == flows[x] by {}
        assert forall|j: int| first_of(links, c) <= j <= c implies own_b[j] == own[j] by {
            lemma_first_nested(links, c, j);
            lemma_post_own_agree(op, links, before, flows, first_of(links, c), j);
        }
        assert forall|m: int| 0 <= m < k implies t[#[trigger] kids[m] as int] == own[kids[m] as int] by {
            if m < k - 1 {
                if m < k - 2 {
                    assert(kids[m] < kids[k - 2]);
                }
                assert(0 <= kids[m] < i);
                assert(t[kids[m] as int] == before[kids[m] as int]);
            }
        }
        assert forall|p: int, m: int|
            first_of(links, i) <= p <= c && 0 <= m < kids_of(links, p).len() implies t[#[trigger] kids_of(
            links,
            p,
        )[m] as int] == placed(op, links, flows, own, p, m) by {
            let x = kids_of(links, p)[m] as int;
            let pk = kids_of(links, p);
            if p >= first_of(links, c) {
                lemma_kid_in_part(links, c, p, m);
                assert forall|a: int| 0 <= a < pk.len() implies #[trigger] gather(own_b, pk)[a]
                    == gather(own, pk)[a] by {
                    lemma_kid_in_part(links, c, p, a);
                }
                assert(gather(own_b, pk) =~= gather(own, pk));
                assert(before[p] == flows[p]);
                assert(t[x] == placed(op, links, before, own_b, p, m));
            } else {
                lemma_kid_parts(links, p, m);
                assert(t[x] == before[x]);
            }
        }
    }
}

/// Where the visits of a bottom-up pass leave the children of the box
/// visited as they are, the walk leaves every box as its own visit left it.
pub proof fn lemma_post_keeps_kids<T: PostorderFlowTraversal>(
    op: &T,
    links: Seq<FlowLinks>,
    flows: Seq<Flow>,
)
    requires
        links_wf(links),
        flows.len() == links.len(),
        forall|flow: Flow, kids: Seq<Flow>, m: int|
            0 <= m < kids.len() ==> #[trigger] op.kid_spec(flow, kids, m) == kids[m],
    ensures
        post_spec(op, links, flows, links.len() - 1) == post_own(op, links, flows, flows.len()),
{
    let root = links.len() - 1;
    let r = post_spec(op, links, flows, root);
    let own = post_own(op, links, flows, flows.len());
    lemma_post_closed(op, links, flows, root);
    lemma_post_frame(op, links, flows, root);
    lemma_post_own_len(op, links, flows, flows.len());
    assert forall|j: int| 0 <= j < flows.len() implies r[j] == own[j] by {
        if j < root {
            let k = lemma_parts_tile(links, root, j);
            lemma_part_owner(links, root, j);
            let (p, m) = choose|p: int, m: int|
                0 <= p <= root && 0 <= m < kids_of(links, p).len() && #[trigger] kids_of(links, p)[m]
                    == j;
            assert(r[kids_of(links, p)[m] as int] == placed(op, links, flows, own, p, m));
            assert(gather(own, kids_of(links, p))[m] == own[j]);
        }
    }
    assert(r =~= own);
}

/// Every box of the part of the tree that hangs from box `i`, but `i`
/// itself, is a child of a box of that part.
pub proof fn lemma_part_owner(links: Seq<FlowLinks>, i: int, j: int)
    requires
        links_wf(links),
        0 <= i < links.len(),
        first_of(links, i) <= j < i,
    ensures
        exists|p: int, m: int|
            first_of(links, i) <= p <= i && 0 <= m < kids_of(links, p).len() && #[trigger] kids_of(
                links,
                p,
            )[m] == j,
    decreases i,
{
    let k = lemma_parts_tile(links, i, j);
    let c = kids_of(links, i)[k] as int;
    lemma_kid_parts(links, i, k);
    lemma_first_le(links, i);
    if j == c {
        assert(kids_of(links, i)[k] == j);
    } else {
        lemma_part_owner(links, c, j);
        let (p, m) = choose|p: int, m: int|
            first_of(links, c) <= p <= c && 0 <= m < kids_of(links, p).len() && #[trigger] kids_of(
                links,
                p,
            )[m] == j;
        assert(first_of(links, i) <= p <= i);
    }
}

/// Where every visit of a top-down pass leaves a box and its children in
/// some relation to what they were, and the relation carries over from step
/// to step, the walk leaves every box in that relation to what it was.
pub proof fn lemma_pre_keeps<T: PreorderFlowTraversal>(
    op: &T,
    links: Seq<FlowLinks>,
    flows: Seq<Flow>,
    rel: spec_fn(Flow, Flow) -> bool,
    j: int,
)
    requires
        links_wf(links),
        flows.len() == links.len(),
        0 <= j < flows.len(),
        forall|f: Flow| #[trigger] rel(f, op.own_spec(f)),
        forall|p: Flow, k: Flow| #[trigger] rel(k, op.kid_spec(p, k)),
        forall|a: Flow, b: Flow, c: Flow| #[trigger] rel(a, b) && #[trigger] rel(b, c) ==> rel(a, c),
    ensures
        rel(flows[j], pre_spec(op, links, flows, links.len() - 1)[j]),
{
    let root = links.len() - 1;
    let after = pre_spec(op, links, flows, root);
    lemma_pre_closed(op, links, flows, root);
    if j < root {
        lemma_part_owner(links, root, j);
        let (p, m) = choose|p: int, m: int|
            0 <= p <= root && 0 <= m < kids_of(links, p).len() && #[trigger] kids_of(links, p)[m]
                == j;
        let moved = op.kid_spec(after[p], flows[j]);
        assert(after[kids_of(links, p)[m] as int] == op.own_spec(moved));
        assert(rel(flows[j], moved));
        assert(rel(moved, op.own_spec(moved)));
    }
}

/// Where every visit of a bottom-up pass leaves a box and its children in
/// some relation to what they were, every box is in that relation to itself,
/// and the relation carries over from step to step, the walk leaves every
/// box in that relation to what it was.
pub proof fn lemma_post_keeps<T: PostorderFlowTraversal>(
    op: &T,
    links: Seq<FlowLinks>,
    flows: Seq<Flow>,
    rel: spec_fn(Flow, Flow) -> bool,
    j: int,
)
    requires
        links_wf(links),
        flows.len() == links.len(),
        0 <= j < flows.len(),
        forall|f: Flow| #[trigger] rel(f, f),
        forall|f: Flow, kids: Seq<Flow>| #[trigger] rel(f, op.own_spec(f, kids)),
        forall|f: Flow, kids: Seq<Flow>, m: int|
            0 <= m < kids.len() ==> rel(kids[m], #[trigger] op.kid_spec(f, kids, m)),
        forall|a: Flow, b: Flow, c: Flow| #[trigger] rel(a, b) && #[trigger] rel(b, c) ==> rel(a, c),
    ensures
        rel(flows[j], post_own(op, links, flows, flows.len())[j]),
        rel(flows[j], post_spec(op, links, flows, links.len() - 1)[j]),
{
    let root = links.len() - 1;
    let after = post_spec(op, links, flows, root);
    let own = post_own(op, links, flows, flows.len());
    lemma_post_closed(op, links, flows, root);
    lemma_post_own_at(op, links, flows, j);
    assert(rel(flows[j], own[j]));
    if j < root {
        lemma_part_owner(links, root, j);
        let (p, m) = choose|p: int, m: int|
            0 <= p <= root && 0 <= m < kids_of(links, p).len() && #[trigger] kids_of(links, p)[m]
                == j;
        let seen = gather(own, kids_of(links, p));
        assert(after[kids_of(links, p)[m] as int] == placed(op, links, flows, own, p, m));
        assert(seen[m] == own[j]);
        if op.should_process_spec(flows[p]) {
            assert(rel(seen[m], op.kid_spec(flows[p], seen, m)));
        }
    }
}

} // verus!
