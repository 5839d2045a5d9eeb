//! Walks over the tree of boxes.
//!
//! A pass is a visit made to every box in turn. A visit sees one box and its
//! children and may rewrite them; it sees nothing else. A top-down walk
//! visits a box before the boxes below it, a bottom-up walk after them; both
//! take a box's children in document order.

use vstd::prelude::*;
use crate::flow::{
    first_of, kids_of, lemma_first_le, lemma_kid_parts, links_wf, node_wf, Flow, FlowLinks,
    FlowTree,
};
use crate::traversal_laws::{
    lemma_post_closed, lemma_pre_closed, post_closed, post_own, pre_closed,
};

verus! {

/// A pass that visits each box before the boxes below it. A visit rewrites
/// the box from the box alone, and each of its children from the rewritten
/// box and the child.
pub trait PreorderFlowTraversal {
    /// What a visit makes of the box visited.
    spec fn own_spec(&self, flow: Flow) -> Flow;

    /// What a visit makes of a child of the box visited, given what it made
    /// of the box.
    spec fn kid_spec(&self, parent: Flow, kid: Flow) -> Flow;

    /// Visits a box, given its children in document order.
    fn process(&self, flow: &mut Flow, kids: &mut Vec<Flow>)
        ensures
            *final(flow) == self.own_spec(*old(flow)),
            final(kids)@.len() == old(kids)@.len(),
            forall|m: int|
                0 <= m < old(kids)@.len() ==> #[trigger] final(kids)@[m] == self.kid_spec(
                    *final(flow),
                    old(kids)@[m],
                ),
    ;
}

/// A pass that visits each box after the boxes below it. A visit rewrites
/// the box and its children from what they were when the visit began.
pub trait PostorderFlowTraversal {
    /// Whether the pass visits a box at all. The boxes below a box that is
    /// passed over are still walked.
    spec fn should_process_spec(&self, flow: Flow) -> bool;

    /// What a visit makes of the box visited, given its children.
    spec fn own_spec(&self, flow: Flow, kids: Seq<Flow>) -> Flow;

    /// What a visit makes of child `m` of the box visited, given the box and
    /// its children as they were before the visit.
    spec fn kid_spec(&self, flow: Flow, kids: Seq<Flow>, m: int) -> Flow;

    fn should_process(&self, flow: &Flow) -> (b: bool)
        ensures
            b == self.should_process_spec(*flow),
    ;

    /// Visits a box, given its children in document order.
    fn process(&self, flow: &mut Flow, kids: &mut Vec<Flow>)
        ensures
            *final(flow) == self.own_spec(*old(flow), old(kids)@),
            final(kids)@.len() == old(kids)@.len(),
            forall|m: int|
                0 <= m < old(kids)@.len() ==> #[trigger] final(kids)@[m] == self.kid_spec(
                    *old(flow),
                    old(kids)@,
                    m,
                ),
    ;
}

/// What a top-down visit makes of a box and of its children.
pub open spec fn pre_process_spec<T: PreorderFlowTraversal>(op: &T, flow: Flow, kids: Seq<Flow>) -> (
    Flow,
    Seq<Flow>,
) {
    (
        op.own_spec(flow),
        Seq::new(kids.len(), |m: int| op.kid_spec(op.own_spec(flow), kids[m])),
    )
}

/// What a bottom-up visit makes of a box and of its children.
pub open spec fn post_process_spec<T: PostorderFlowTraversal>(
    op: &T,
    flow: Flow,
    kids: Seq<Flow>,
) -> (Flow, Seq<Flow>) {
    (op.own_spec(flow, kids), Seq::new(kids.len(), |m: int| op.kid_spec(flow, kids, m)))
}

/// The records at the places `idx`, in the order of `idx`.
pub open spec fn gather(flows: Seq<Flow>, idx: Seq<usize>) -> Seq<Flow> {
    Seq::new(idx.len(), |k: int| flows[idx[k] as int])
}

/// `flows` with the first `k` of `vals` written to the places that `idx`
/// names for them.
pub open spec fn scatter(flows: Seq<Flow>, idx: Seq<usize>, vals: Seq<Flow>, k: nat) -> Seq<Flow>
    decreases k,
{
    if k == 0 {
        flows
    } else {
        scatter(flows, idx, vals, (k - 1) as nat).update(idx[k - 1] as int, vals[k - 1])
    }
}

/// `flows` after a visit to box `i` that made `result` of the box and its
/// children.
pub open spec fn apply_visit(
    links: Seq<FlowLinks>,
    flows: Seq<Flow>,
    i: int,
    result: (Flow, Seq<Flow>),
) -> Seq<Flow> {
    scatter(flows.update(i, result.0), kids_of(links, i), result.1, kids_of(links, i).len())
}

/// `flows` after a top-down visit to box `i`.
pub open spec fn pre_visit<T: PreorderFlowTraversal>(
    op: &T,
    links: Seq<FlowLinks>,
    flows: Seq<Flow>,
    i: int,
) -> Seq<Flow> {
    apply_visit(links, flows, i, pre_process_spec(op, flows[i], gather(flows, kids_of(links, i))))
}

/// `flows` after a top-down walk of the part of the tree that hangs from box
/// `i`: the box is visited, then the parts that hang from its children are
/// walked in document order.
pub open spec fn pre_spec<T: PreorderFlowTraversal>(
    op: &T,
    links: Seq<FlowLinks>,
    flows: Seq<Flow>,
    i: int,
) -> Seq<Flow>
    decreases i, 1nat, 0nat,
{
    if 0 <= i < links.len() {
        pre_kids(op, links, pre_visit(op, links, flows, i), i, kids_of(links, i).len())
    } else {
        flows
    }
}

/// `flows` after top-down walks of the parts of the tree that hang from the
/// first `k` children of box `i`.
pub open spec fn pre_kids<T: PreorderFlowTraversal>(
    op: &T,
    links: Seq<FlowLinks>,
    flows: Seq<Flow>,
    i: int,
    k: nat,
) -> Seq<Flow>
    decreases i, 0nat, k,
{
    if k == 0 {
        flows
    } else {
        let before = pre_kids(op, links, flows, i, (k - 1) as nat);
        let kid = kids_of(links, i)[k - 1];
        if 0 <= kid < i {
            pre_spec(op, links, before, kid as int)
        } else {
            before
        }
    }
}

/// `flows` after a bottom-up visit to box `i`, if the pass visits it.
pub open spec fn post_visit<T: PostorderFlowTraversal>(
    op: &T,
    links: Seq<FlowLinks>,
    flows: Seq<Flow>,
    i: int,
) -> Seq<Flow> {
    if op.should_process_spec(flows[i]) {
        apply_visit(
            links,
            flows,
            i,
            post_process_spec(op, flows[i], gather(flows, kids_of(links, i))),
        )
    } else {
        flows
    }
}

/// `flows` after a bottom-up walk of the part of the tree that hangs from
/// box `i`: the parts that hang from its children are walked in document
/// order, then the box is visited.
pub open spec fn post_spec<T: PostorderFlowTraversal>(
    op: &T,
    links: Seq<FlowLinks>,
    flows: Seq<Flow>,
    i: int,
) -> Seq<Flow>
    decreases i, 1nat, 0nat,
{
    if 0 <= i < links.len() {
        post_visit(op, links, post_kids(op, links, flows, i, kids_of(links, i).len()), i)
    } else {
        flows
    }
}

/// `flows` after bottom-up walks of the parts of the tree that hang from the
/// first `k` children of box `i`.
pub open spec fn post_kids<T: PostorderFlowTraversal>(
    op: &T,
    links: Seq<FlowLinks>,
    flows: Seq<Flow>,
    i: int,
    k: nat,
) -> Seq<Flow>
    decreases i, 0nat, k,
{
    if k == 0 {
        flows
    } else {
        let before = post_kids(op, links, flows, i, (k - 1) as nat);
        let kid = kids_of(links, i)[k - 1];
        if 0 <= kid < i {
            post_spec(op, links, before, kid as int)
        } else {
            before
        }
    }
}

/// Whether box `j` is one of the children of box `i`.
pub open spec fn is_kid(links: Seq<FlowLinks>, i: int, j: int) -> bool {
    exists|m: int| 0 <= m < kids_of(links, i).len() && #[trigger] kids_of(links, i)[m] == j
}

/// Writing records back changes no place but those written to.
pub proof fn lemma_scatter_miss(flows: Seq<Flow>, idx: Seq<usize>, vals: Seq<Flow>, k: nat, j: int)
    requires
        k <= idx.len(),
        forall|a: int| 0 <= a < idx.len() ==> #[trigger] idx[a] < flows.len(),
        forall|m: int| 0 <= m < k ==> #[trigger] idx[m] != j,
    ensures
        scatter(flows, idx, vals, k).len() == flows.len(),
        0 <= j < flows.len() ==> scatter(flows, idx, vals, k)[j] == flows[j],
    decreases k,
{
    if k > 0 {
        lemma_scatter_miss(flows, idx, vals, (k - 1) as nat, j);
        assert(idx[k - 1] != j);
        assert(idx[k - 1] < flows.len());
    }
}

/// After records were written back, each place written to holds what was
/// written, as long as the places are named in rising order.
pub proof fn lemma_scatter_hit(flows: Seq<Flow>, idx: Seq<usize>, vals: Seq<Flow>, k: nat, m: int)
    requires
        k <= idx.len(),
        0 <= m < k,
        forall|a: int, b: int| 0 <= a < b < idx.len() ==> idx[a] < idx[b],
        forall|a: int| 0 <= a < idx.len() ==> #[trigger] idx[a] < flows.len(),
    ensures
        scatter(flows, idx, vals, k).len() == flows.len(),
        scatter(flows, idx, vals, k)[idx[m] as int] == vals[m],
    decreases k,
{
    let prev = scatter(flows, idx, vals, (k - 1) as nat);
    assert(idx[k - 1] < flows.len());
    assert(idx[m] < flows.len());
    if m < k - 1 {
        lemma_scatter_hit(flows, idx, vals, (k - 1) as nat, m);
        assert(idx[m] < idx[k - 1]);
    } else {
        assert forall|a: int| 0 <= a < k - 1 implies #[trigger] idx[a] != idx[k - 1] by {
            assert(idx[a] < idx[k - 1]);
        }
        lemma_scatter_miss(flows, idx, vals, (k - 1) as nat, idx[k - 1] as int);
    }
}

/// The children of a box are named in rising order and lie in the arena.
pub proof fn lemma_kids_rise(links: Seq<FlowLinks>, i: int)
    requires
        links_wf(links),
        0 <= i < links.len(),
    ensures
        forall|a: int, b: int|
            0 <= a < b < kids_of(links, i).len() ==> kids_of(links, i)[a] < kids_of(links, i)[b],
        forall|a: int|
            0 <= a < kids_of(links, i).len() ==> 0 <= #[trigger] kids_of(links, i)[a] < i,
{
    let kids = kids_of(links, i);
    assert(node_wf(links, i));
    assert forall|a: int, b: int| 0 <= a < b < kids.len() implies kids[a] < kids[b] by {
        lemma_kids_rise_between(links, i, a, b);
    }
}

proof fn lemma_kids_rise_between(links: Seq<FlowLinks>, i: int, a: int, b: int)
    requires
        links_wf(links),
        0 <= i < links.len(),
        0 <= a < b < kids_of(links, i).len(),
    ensures
        kids_of(links, i)[a] < kids_of(links, i)[b],
    decreases b - a,
{
    lemma_kid_parts(links, i, b);
    if a < b - 1 {
        lemma_kids_rise_between(links, i, a, b - 1);
    }
}

/// A visit to box `i` changes no record but those of the box and of its
/// children, and leaves in those what the visit made of them.
pub proof fn lemma_visit_frame(
    links: Seq<FlowLinks>,
    flows: Seq<Flow>,
    i: int,
    result: (Flow, Seq<Flow>),
)
    requires
        links_wf(links),
        flows.len() == links.len(),
        0 <= i < links.len(),
    ensures
        apply_visit(links, flows, i, result).len() == flows.len(),
        forall|j: int|
            0 <= j < flows.len() && j != i && !is_kid(links, i, j) ==> #[trigger] apply_visit(
                links,
                flows,
                i,
                result,
            )[j] == flows[j],
        forall|m: int|
            0 <= m < kids_of(links, i).len() ==> apply_visit(links, flows, i, result)[#[trigger] kids_of(
                links,
                i,
            )[m] as int] == result.1[m],
        apply_visit(links, flows, i, result)[i] == result.0,
{
    let kids = kids_of(links, i);
    let start = flows.update(i, result.0);
    lemma_kids_rise(links, i);
    let r = apply_visit(links, flows, i, result);
    assert(r == scatter(start, kids, result.1, kids.len()));
    assert forall|a: int| 0 <= a < kids.len() implies #[trigger] kids[a] < start.len() by {
        assert(0 <= kids[a] < i);
    }
    assert forall|m: int| 0 <= m < kids.len() implies #[trigger] kids[m] != i by {
        assert(0 <= kids[m] < i);
    }
    lemma_scatter_miss(start, kids, result.1, kids.len(), i);
    assert forall|j: int| 0 <= j < flows.len() && j != i && !is_kid(links, i, j) implies r[j]
        == flows[j] by {
        assert forall|m: int| 0 <= m < kids.len() implies #[trigger] kids[m] != j by {
            if kids[m] == j {
                assert(is_kid(links, i, j));
            }
        }
        lemma_scatter_miss(start, kids, result.1, kids.len(), j);
    }
    assert forall|m: int| 0 <= m < kids.len() implies r[#[trigger] kids[m] as int]
        == result.1[m] by {
        lemma_scatter_hit(start, kids, result.1, kids.len(), m);
    }
}

/// A top-down walk of the part of the tree that hangs from box `i` changes
/// no record outside that part.
pub proof fn lemma_pre_frame<T: PreorderFlowTraversal>(
    op: &T,
    links: Seq<FlowLinks>,
    flows: Seq<Flow>,
    i: int,
)
    requires
        links_wf(links),
        flows.len() == links.len(),
        0 <= i < links.len(),
    ensures
        pre_spec(op, links, flows, i).len() == flows.len(),
        forall|j: int|
            0 <= j < flows.len() && !(first_of(links, i) <= j <= i) ==> pre_spec(
                op,
                links,
                flows,
                i,
            )[j] == flows[j],
    decreases i, 1nat, 0nat,
{
    let kids = kids_of(links, i);
    let visited = pre_visit(op, links, flows, i);
    lemma_visit_frame(
        links,
        flows,
        i,
        pre_process_spec(op, flows[i], gather(flows, kids_of(links, i))),
    );
    assert(visited == apply_visit(
        links,
        flows,
        i,
        pre_process_spec(op, flows[i], gather(flows, kids_of(links, i))),
    ));
    lemma_pre_kids_frame(op, links, visited, i, kids.len());
    let r = pre_spec(op, links, flows, i);
    assert forall|j: int| 0 <= j < flows.len() && !(first_of(links, i) <= j <= i) implies r[j]
        == flows[j] by {
        if is_kid(links, i, j) {
            let m = choose|m: int| 0 <= m < kids.len() && #[trigger] kids[m] == j;
            lemma_kid_parts(links, i, m);
        }
        lemma_first_le(links, i);
        if kids.len() > 0 {
            lemma_kid_parts(links, i, kids.len() - 1);
        }
        assert(visited[j] == flows[j]);
    }
}

/// Top-down walks of the parts of the tree that hang from the first `k`
/// children of box `i` change no record outside those parts.
pub proof fn lemma_pre_kids_frame<T: PreorderFlowTraversal>(
    op: &T,
    links: Seq<FlowLinks>,
    flows: Seq<Flow>,
    i: int,
    k: nat,
)
    requires
        links_wf(links),
        flows.len() == links.len(),
        0 <= i < links.len(),
        k <= kids_of(links, i).len(),
    ensures
        pre_kids(op, links, flows, i, k).len() == flows.len(),
        forall|j: int|
            0 <= j < flows.len() && !(k > 0 && first_of(links, i) <= j <= kids_of(links, i)[k - 1])
                ==> pre_kids(op, links, flows, i, k)[j] == flows[j],
    decreases i, 0nat, k,
{
    if k > 0 {
        let before = pre_kids(op, links, flows, i, (k - 1) as nat);
        let kid = kids_of(links, i)[k - 1];
        lemma_pre_kids_frame(op, links, flows, i, (k - 1) as nat);
        lemma_kid_parts(links, i, k - 1);
        lemma_pre_frame(op, links, before, kid as int);
        if k > 1 {
            lemma_kid_parts(links, i, k - 2);
        }
    }
}

/// A bottom-up walk of the part of the tree that hangs from box `i` changes
/// no record outside that part.
pub proof fn lemma_post_frame<T: PostorderFlowTraversal>(
    op: &T,
    links: Seq<FlowLinks>,
    flows: Seq<Flow>,
    i: int,
)
    requires
        links_wf(links),
        flows.len() == links.len(),
        0 <= i < links.len(),
    ensures
        post_spec(op, links, flows, i).len() == flows.len(),
        forall|j: int|
            0 <= j < flows.len() && !(first_of(links, i) <= j <= i) ==> post_spec(
                op,
                links,
                flows,
                i,
            )[j] == flows[j],
    decreases i, 1nat, 0nat,
{
    let kids = kids_of(links, i);
    let walked = post_kids(op, links, flows, i, kids.len());
    lemma_post_kids_frame(op, links, flows, i, kids.len());
    lemma_visit_frame(
        links,
        walked,
        i,
        post_process_spec(op, walked[i], gather(walked, kids_of(links, i))),
    );
    let r = post_spec(op, links, flows, i);
    assert forall|j: int| 0 <= j < flows.len() && !(first_of(links, i) <= j <= i) implies r[j]
        == flows[j] by {
        if is_kid(links, i, j) {
            let m = choose|m: int| 0 <= m < kids.len() && #[trigger] kids[m] == j;
            lemma_kid_parts(links, i, m);
        }
        lemma_first_le(links, i);
        if kids.len() > 0 {
            lemma_kid_parts(links, i, kids.len() - 1);
        }
    }
}

/// Bottom-up walks of the parts of the tree that hang from the first `k`
/// children of box `i` change no record outside those parts.
pub proof fn lemma_post_kids_frame<T: PostorderFlowTraversal>(
    op: &T,
    links: Seq<FlowLinks>,
    flows: Seq<Flow>,
    i: int,
    k: nat,
)
    requires
        links_wf(links),
        flows.len() == links.len(),
        0 <= i < links.len(),
        k <= kids_of(links, i).len(),
    ensures
        post_kids(op, links, flows, i, k).len() == flows.len(),
        forall|j: int|
            0 <= j < flows.len() && !(k > 0 && first_of(links, i) <= j <= kids_of(links, i)[k - 1])
                ==> post_kids(op, links, flows, i, k)[j] == flows[j],
    decreases i, 0nat, k,
{
    if k > 0 {
        let before = post_kids(op, links, flows, i, (k - 1) as nat);
        let kid = kids_of(links, i)[k - 1];
        lemma_post_kids_frame(op, links, flows, i, (k - 1) as nat);
        lemma_kid_parts(links, i, k - 1);
        lemma_post_frame(op, links, before, kid as int);
        if k > 1 {
            lemma_kid_parts(links, i, k - 2);
        }
    }
}

impl FlowTree {
    /// Copies out the records of the children of box `i`.
    fn gather_kids(&self, i: usize) -> (kids: Vec<Flow>)
        requires
            self.wf(),
            i < self.links@.len(),
        ensures
            kids@ == gather(self.flows@, kids_of(self.links@, i as int)),
    {
        let mut kids: Vec<Flow> = Vec::new();
        let n: usize = self.links[i].children.len();
        let mut k: usize = 0;
        proof {
            lemma_kids_rise(self.links@, i as int);
        }
        while k < n
            invariant
                self.wf(),
                i < self.links@.len(),
                n == kids_of(self.links@, i as int).len(),
                0 <= k <= n,
                kids@.len() == k,
                forall|a: int|
                    0 <= a < n ==> 0 <= #[trigger] kids_of(self.links@, i as int)[a] < i,
                forall|m: int|
                    0 <= m < k ==> kids@[m] == self.flows@[kids_of(self.links@, i as int)[m] as int],
            decreases n - k,
        {
            let c: usize = self.links[i].children[k];
            kids.push(self.flows[c]);
            k += 1;
        }
        proof {
            assert(kids@ =~= gather(self.flows@, kids_of(self.links@, i as int)));
        }
        kids
    }

    /// Writes `kids` back as the records of the children of box `i`.
    fn scatter_kids(&mut self, i: usize, kids: &Vec<Flow>)
        requires
            old(self).wf(),
            i < old(self).links@.len(),
            kids@.len() == kids_of(old(self).links@, i as int).len(),
        ensures
            final(self).links == old(self).links,
            final(self).flows@ == scatter(
                old(self).flows@,
                kids_of(old(self).links@, i as int),
                kids@,
                kids@.len(),
            ),
            final(self).flows@.len() == old(self).flows@.len(),
    {
        let n: usize = self.links[i].children.len();
        let mut k: usize = 0;
        proof {
            lemma_kids_rise(self.links@, i as int);
        }
        while k < n
            invariant
                self.links == old(self).links,
                self.flows@.len() == old(self).flows@.len(),
                old(self).wf(),
                i < self.links@.len(),
                n == kids_of(self.links@, i as int).len(),
                n == kids@.len(),
                0 <= k <= n,
                forall|a: int|
                    0 <= a < n ==> 0 <= #[trigger] kids_of(self.links@, i as int)[a] < i,
                self.flows@ == scatter(
                    old(self).flows@,
                    kids_of(self.links@, i as int),
                    kids@,
                    k as nat,
                ),
            decreases n - k,
        {
            let c: usize = self.links[i].children[k];
            self.flows[c] = kids[k];
            k += 1;
        }
    }

    /// Walks the whole tree top-down, visiting each box before the boxes
    /// below it.
    pub fn traverse_preorder<T: PreorderFlowTraversal>(&mut self, traversal: &T)
        requires
            old(self).wf(),
        ensures
            final(self).wf(),
            final(self).links == old(self).links,
            final(self).flows@ == pre_spec(
                traversal,
                old(self).links@,
                old(self).flows@,
                old(self).root_spec(),
            ),
            final(self).flows@[old(self).root_spec()] == traversal.own_spec(
                old(self).flows@[old(self).root_spec()],
            ),
            pre_closed(
                traversal,
                old(self).links@,
                old(self).flows@,
                final(self).flows@,
                0,
                old(self).root_spec(),
            ),
    {
        let root: usize = self.links.len() - 1;
        proof {
            lemma_pre_closed(traversal, self.links@, self.flows@, root as int);
        }
        self.traverse_preorder_from(traversal, root);
    }

    fn traverse_preorder_from<T: PreorderFlowTraversal>(&mut self, traversal: &T, i: usize)
        requires
            old(self).wf(),
            i < old(self).links@.len(),
        ensures
            final(self).wf(),
            final(self).links == old(self).links,
            final(self).flows@ == pre_spec(traversal, old(self).links@, old(self).flows@, i as int),
        decreases i,
    {
        let mut flow: Flow = self.flows[i];
        let mut kids: Vec<Flow> = self.gather_kids(i);
        let ghost given = kids@;
        traversal.process(&mut flow, &mut kids);
        proof {
            assert(kids@ =~= pre_process_spec(traversal, old(self).flows@[i as int], given).1);
        }
        self.flows[i] = flow;
        self.scatter_kids(i, &kids);
        let ghost visited = self.flows@;
        let n: usize = self.links[i].children.len();
        let mut k: usize = 0;
        proof {
            lemma_kids_rise(self.links@, i as int);
        }
        while k < n
            invariant
                self.wf(),
                self.links == old(self).links,
                i < self.links@.len(),
                n == kids_of(self.links@, i as int).len(),
                0 <= k <= n,
                forall|a: int|
                    0 <= a < n ==> 0 <= #[trigger] kids_of(self.links@, i as int)[a] < i,
                self.flows@ == pre_kids(traversal, self.links@, visited, i as int, k as nat),
            decreases n - k,
        {
            let c: usize = self.links[i].children[k];
            self.traverse_preorder_from(traversal, c);
            k += 1;
        }
    }

    /// Walks the whole tree bottom-up, visiting each box after the boxes
    /// below it.
    pub fn traverse_postorder<T: PostorderFlowTraversal>(&mut self, traversal: &T)
        requires
            old(self).wf(),
        ensures
            final(self).wf(),
            final(self).links == old(self).links,
            final(self).flows@ == post_spec(
                traversal,
                old(self).links@,
                old(self).flows@,
                old(self).root_spec(),
            ),
            final(self).flows@[old(self).root_spec()] == post_own(
                traversal,
                old(self).links@,
                old(self).flows@,
                old(self).flows@.len(),
            )[old(self).root_spec()],
            post_closed(
                traversal,
                old(self).links@,
                old(self).flows@,
                final(self).flows@,
                0,
                old(self).root_spec(),
            ),
    {
        let root: usize = self.links.len() - 1;
        proof {
            lemma_post_closed(traversal, self.links@, self.flows@, root as int);
        }
        self.traverse_postorder_from(traversal, root);
    }

    fn traverse_postorder_from<T: PostorderFlowTraversal>(&mut self, traversal: &T, i: usize)
        requires
            old(self).wf(),
            i < old(self).links@.len(),
        ensures
            final(self).wf(),
            final(self).links == old(self).links,
            final(self).flows@ == post_spec(traversal, old(self).links@, old(self).flows@, i as int),
        decreases i,
    {
        let n: usize = self.links[i].children.len();
        let mut k: usize = 0;
        proof {
            lemma_kids_rise(self.links@, i as int);
        }
        while k < n
            invariant
                self.wf(),
                self.links == old(self).links,
                i < self.links@.len(),
                n == kids_of(self.links@, i as int).len(),
                0 <= k <= n,
                forall|a: int|
                    0 <= a < n ==> 0 <= #[trigger] kids_of(self.links@, i as int)[a] < i,
                self.flows@ == post_kids(
                    traversal,
                    self.links@,
                    old(self).flows@,
                    i as int,
                    k as nat,
                ),
            decreases n - k,
        {
            let c: usize = self.links[i].children[k];
            self.traverse_postorder_from(traversal, c);
            k += 1;
        }
        let mut flow: Flow = self.flows[i];
        if traversal.should_process(&flow) {
            let mut kids: Vec<Flow> = self.gather_kids(i);
            let ghost given = kids@;
            let ghost found = flow;
            traversal.process(&mut flow, &mut kids);
            proof {
                assert(kids@ =~= post_process_spec(traversal, found, given).1);
            }
            self.flows[i] = flow;
            self.scatter_kids(i, &kids);
        }
    }
}

} // verus!
