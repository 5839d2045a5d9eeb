//! Building the tree of boxes from a styled document.
//!
//! A node gets a box when the cascade has settled a style for it and the
//! style does not hide it. A node without a box is passed over together with
//! everything below it. The boxes are made bottom-up: a node's box is made
//! after the boxes of its children, which it takes as its own children.

use vstd::prelude::*;
use crate::dom::{
    damage_of, lemma_contains_concat, preorder, shape_of, shape_wf, style_of, Document, Node,
};
use crate::dom_laws::{
    lemma_concat_no_duplicates, lemma_preorder_ge, lemma_preorder_has_root, lemma_preorder_sub,
    lemma_siblings_apart,
};
use crate::flow::{first_of, kids_of, links_wf, node_wf, Flow, FlowFlags, FlowLinks, FlowTree};
use crate::incremental::RestyleDamage;
use crate::style::Display;

verus! {

/// What building the box of one node gave.
#[derive(Clone, Copy, Debug, PartialEq, Eq, Structural)]
pub enum ConstructionResult {
    /// The node has no box.
    NoConstructionResult,
    /// The node's box, by its place in the arena.
    FlowConstructionResult(usize),
}

/// The boxes made so far.
pub struct FlowConstructor {
    pub flows: Vec<Flow>,
    pub links: Vec<FlowLinks>,
}

/// Whether a node gets a box.
pub open spec fn participates(node: Node) -> bool {
    match style_of(node) {
        Some(style) => style.display != Display::Hidden,
        None => false,
    }
}

/// The box of node `d` as it is made.
pub open spec fn initial_flow(nodes: Seq<Node>, d: int) -> Flow {
    Flow::new_spec(d as usize, style_of(nodes[d]).unwrap(), damage_of(nodes[d]))
}

/// The nodes that get a box among those that hang from node `d`, in the
/// order in which their boxes are made: for a node with a box, what its
/// children give in document order, then the node itself.
pub open spec fn built_nodes(nodes: Seq<Node>, d: int) -> Seq<int>
    decreases nodes.len() - d, 1nat, 0nat,
{
    if 0 <= d < nodes.len() && participates(nodes[d]) {
        built_kids(nodes, d, nodes[d].children@.len()) + seq![d]
    } else {
        Seq::empty()
    }
}

/// The nodes that get a box among those that hang from the first `k`
/// children of node `d`.
pub open spec fn built_kids(nodes: Seq<Node>, d: int, k: nat) -> Seq<int>
    decreases nodes.len() - d, 0nat, k,
{
    if k == 0 || !(0 <= d < nodes.len()) {
        Seq::empty()
    } else {
        let kid = nodes[d].children@[k - 1];
        built_kids(nodes, d, (k - 1) as nat) + (if d < kid < nodes.len() {
            built_nodes(nodes, kid as int)
        } else {
            Seq::empty()
        })
    }
}

/// Those of the first `k` children of node `d` that get a box, in document
/// order.
pub open spec fn kid_nodes(nodes: Seq<Node>, d: int, k: nat) -> Seq<int>
    decreases k,
{
    if k == 0 {
        Seq::empty()
    } else {
        let kid = nodes[d].children@[k - 1];
        kid_nodes(nodes, d, (k - 1) as nat) + (if kid < nodes.len() && participates(
            nodes[kid as int],
        ) {
            seq![kid as int]
        } else {
            Seq::empty()
        })
    }
}

/// The nodes that the children of box `j` were made for.
pub open spec fn kid_ids(flows: Seq<Flow>, links: Seq<FlowLinks>, j: int) -> Seq<int> {
    Seq::new(kids_of(links, j).len(), |m: int| flows[kids_of(links, j)[m] as int].node as int)
}

/// The nodes that the boxes from `lo` up to `hi` were made for.
pub open spec fn segment_nodes(flows: Seq<Flow>, lo: int, hi: int) -> Seq<int> {
    Seq::new((hi - lo) as nat, |x: int| flows[lo + x].node as int)
}

/// Whether box `j` is the box of a node of the document as it is made, with
/// the boxes of that node's children as its children.
pub open spec fn flow_matches(
    nodes: Seq<Node>,
    flows: Seq<Flow>,
    links: Seq<FlowLinks>,
    j: int,
) -> bool {
    let d = flows[j].node as int;
    &&& 0 <= d < nodes.len()
    &&& participates(nodes[d])
    &&& flows[j] == initial_flow(nodes, d)
    &&& kid_ids(flows, links, j) == kid_nodes(nodes, d, nodes[d].children@.len())
}

/// The part of the tree that hangs from a box starts where it did before,
/// when the children of the boxes up to it are what they were.
pub proof fn lemma_first_of_same(a: Seq<FlowLinks>, b: Seq<FlowLinks>, i: int)
    requires
        0 <= i < a.len(),
        i < b.len(),
        forall|x: int| 0 <= x <= i ==> #[trigger] kids_of(a, x) == kids_of(b, x),
    ensures
        first_of(a, i) == first_of(b, i),
    decreases i,
{
    assert(kids_of(a, i) == kids_of(b, i));
    if kids_of(a, i).len() > 0 && 0 <= kids_of(a, i)[0] < i {
        lemma_first_of_same(a, b, kids_of(a, i)[0] as int);
    }
}

impl FlowConstructor {
    /// Whether the boxes made so far are linked as an arena requires and
    /// each is the box of a node of the document.
    pub open spec fn inv(self, nodes: Seq<Node>) -> bool {
        &&& self.flows@.len() == self.links@.len()
        &&& forall|j: int| 0 <= j < self.links@.len() ==> node_wf(self.links@, j)
        &&& forall|j: int|
            0 <= j < self.links@.len() ==> flow_matches(nodes, self.flows@, self.links@, j)
    }

    pub fn init() -> (constructor: FlowConstructor)
        ensures
            constructor.flows@.len() == 0,
            constructor.links@.len() == 0,
    {
        FlowConstructor { flows: Vec::new(), links: Vec::new() }
    }

    /// Makes the boxes of the nodes that hang from node `d`, the box of `d`
    /// last.
    pub fn build(&mut self, doc: &Document, d: usize) -> (result: ConstructionResult)
        requires
            doc.wf(),
            doc.has_node(d),
            old(self).inv(doc.nodes@),
        ensures
            final(self).inv(doc.nodes@),
            final(self).flows@.len() == old(self).flows@.len() + built_nodes(
                doc.nodes@,
                d as int,
            ).len(),
            forall|j: int|
                0 <= j < old(self).flows@.len() ==> final(self).flows@[j] == old(self).flows@[j]
                    && final(self).links@[j] == old(self).links@[j],
            segment_nodes(
                final(self).flows@,
                old(self).flows@.len() as int,
                final(self).flows@.len() as int,
            ) == built_nodes(doc.nodes@, d as int),
            result is NoConstructionResult <==> !participates(doc.nodes@[d as int]),
            match result {
                ConstructionResult::FlowConstructionResult(f) => {
                    &&& f == final(self).flows@.len() - 1
                    &&& first_of(final(self).links@, f as int) == old(self).flows@.len()
                    &&& final(self).links@[f as int].parent is None
                },
                ConstructionResult::NoConstructionResult => true,
            },
        decreases doc.nodes@.len() - d,
    {
        let ghost nodes = doc.nodes@;
        let ghost start = self.flows@.len() as int;
        let node = &doc.nodes[d];
        proof {
            assert(segment_nodes(self.flows@, start, start) =~= Seq::<int>::empty());
        }
        let data = match node.layout_data.data {
            Some(data) => data,
            None => {
                return ConstructionResult::NoConstructionResult;
            },
        };
        let style = match data.style {
            Some(style) => style,
            None => {
                return ConstructionResult::NoConstructionResult;
            },
        };
        match style.display {
            Display::Hidden => {
                return ConstructionResult::NoConstructionResult;
            },
            _ => {},
        }
        let damage = match data.restyle_damage {
            Some(damage) => damage,
            None => RestyleDamage::all(),
        };
        let mut kids: Vec<usize> = Vec::new();
        let n: usize = node.children.len();
        let mut k: usize = 0;
        proof {
            assert(kid_ids_of(self.flows@, kids@) =~= kid_nodes(nodes, d as int, 0));
        }
        while k < n
            invariant
                doc.wf(),
                nodes == doc.nodes@,
                d < nodes.len(),
                *node == nodes[d as int],
                n == nodes[d as int].children@.len(),
                0 <= k <= n,
                start == old(self).flows@.len(),
                self.inv(nodes),
                self.flows@.len() == start + built_kids(nodes, d as int, k as nat).len(),
                forall|j: int|
                    0 <= j < start ==> self.flows@[j] == old(self).flows@[j] && self.links@[j] == old(
                        self,
                    ).links@[j],
                segment_nodes(self.flows@, start, self.flows@.len() as int) == built_kids(
                    nodes,
                    d as int,
                    k as nat,
                ),
                forall|a: int|
                    0 <= a < kids@.len() ==> start <= #[trigger] kids@[a] < self.flows@.len()
                        && self.links@[kids@[a] as int].parent is None,
                forall|a: int, b: int| 0 <= a < b < kids@.len() ==> kids@[a] < kids@[b],
                kids@.len() == 0 ==> self.flows@.len() == start,
                kids@.len() > 0 ==> first_of(self.links@, kids@[0] as int) == start && kids@.last()
                    == self.flows@.len() - 1,
                forall|a: int|
                    0 <= a < kids@.len() - 1 ==> kids@[a] + 1 == first_of(
                        self.links@,
                        #[trigger] kids@[a + 1] as int,
                    ),
                kid_ids_of(self.flows@, kids@) == kid_nodes(nodes, d as int, k as nat),
            decreases n - k,
        {
            let ghost flows0 = self.flows@;
            let ghost links0 = self.links@;
            let ghost kids0 = kids@;
            proof {
                assert(nodes[d as int].children@ == shape_of(nodes)[d as int]);
                assert(d < shape_of(nodes)[d as int][k as int] < nodes.len());
            }
            let c: usize = node.children[k];
            let result = self.build(doc, c);
            match result {
                ConstructionResult::FlowConstructionResult(f) => {
                    kids.push(f);
                },
                ConstructionResult::NoConstructionResult => {},
            }
            proof {
                let len0 = flows0.len() as int;
                let len1 = self.flows@.len() as int;
                assert(segment_nodes(self.flows@, start, len1) =~= segment_nodes(
                    flows0,
                    start,
                    len0,
                ) + segment_nodes(self.flows@, len0, len1));
                assert forall|a: int| 0 <= a < kids0.len() implies first_of(
                    self.links@,
                    #[trigger] kids0[a] as int,
                ) == first_of(links0, kids0[a] as int) by {
                    lemma_first_of_same(self.links@, links0, kids0[a] as int);
                }
                if result is FlowConstructionResult {
                    assert(kid_ids_of(self.flows@, kids@) =~= kid_ids_of(flows0, kids0) + seq![
                        c as int,
                    ]) by {
                        assert(segment_nodes(self.flows@, len0, len1).last() == c);
                    }
                    assert forall|a: int| 0 <= a < kids@.len() - 1 implies kids@[a] + 1 == first_of(
                        self.links@,
                        #[trigger] kids@[a + 1] as int,
                    ) by {
                        if a + 1 < kids0.len() {
                            assert(kids0[a] + 1 == first_of(links0, kids0[a + 1] as int));
                        }
                    }
                } else {
                    assert(kid_ids_of(self.flows@, kids@) =~= kid_ids_of(flows0, kids0));
                    assert(kid_nodes(nodes, d as int, (k + 1) as nat) =~= kid_nodes(
                        nodes,
                        d as int,
                        k as nat,
                    ));
                }
            }
            k += 1;
        }
        let idx: usize = self.flows.len();
        let ghost links1 = self.links@;
        let ghost flows1 = self.flows@;
        let m: usize = kids.len();
        let mut a: usize = 0;
        while a < m
            invariant
                m == kids@.len(),
                0 <= a <= m,
                idx == flows1.len(),
                self.flows@ == flows1,
                self.links@.len() == links1.len(),
                links1.len() == flows1.len(),
                forall|x: int| 0 <= x < m ==> start <= #[trigger] kids@[x] < idx,
                forall|x: int, y: int| 0 <= x < y < m ==> kids@[x] < kids@[y],
                forall|j: int|
                    0 <= j < links1.len() ==> (#[trigger] self.links@[j]).children
                        == links1[j].children,
                forall|x: int|
                    0 <= x < a ==> self.links@[#[trigger] kids@[x] as int].parent == Some(idx),
                forall|j: int|
                    0 <= j < links1.len() && (forall|x: int| 0 <= x < a ==> kids@[x] != j)
                        ==> #[trigger] self.links@[j] == links1[j],
            decreases m - a,
        {
            let c: usize = kids[a];
            self.links[c].parent = Some(idx);
            a += 1;
        }
        self.flows.push(Flow::new(d, style, damage));
        self.links.push(FlowLinks { parent: None, children: kids });
        proof {
            let flows2 = self.flows@;
            let links2 = self.links@;
            let kd = kids_of(links2, idx as int);
            assert forall|j: int| 0 <= j < links1.len() implies kids_of(links2, j) == kids_of(
                links1,
                j,
            ) by {
                assert(links2[j].children == links1[j].children);
            }
            assert forall|j: int| 0 <= j < links1.len() implies first_of(links2, j) == first_of(
                links1,
                j,
            ) by {
                lemma_first_of_same(links2, links1, j);
            }
            assert forall|j: int| 0 <= j < links2.len() implies node_wf(links2, j) by {
                if j < idx {
                    assert(node_wf(links1, j));
                    let kj = kids_of(links1, j);
                    assert forall|x: int| 0 <= x < kj.len() implies 0 <= #[trigger] kj[x] < j
                        && links2[kj[x] as int].parent == Some(j as usize) by {
                        assert(links1[kj[x] as int].parent == Some(j as usize));
                        assert forall|y: int| 0 <= y < m implies kids@[y] != kj[x] by {
                            if kids@[y] == kj[x] {
                                assert(links1[kids@[y] as int].parent is None);
                            }
                        }
                    }
                    assert forall|x: int| 0 <= x < kj.len() - 1 implies kj[x] + 1 == first_of(
                        links2,
                        #[trigger] kj[x + 1] as int,
                    ) by {
                        assert(kj[x] + 1 == first_of(links1, kj[x + 1] as int));
                    }
                } else {
                    assert forall|x: int| 0 <= x < kd.len() - 1 implies kd[x] + 1 == first_of(
                        links2,
                        #[trigger] kd[x + 1] as int,
                    ) by {
                        assert(kd[x] + 1 == first_of(links1, kd[x + 1] as int));
                    }
                }
            }
            assert forall|j: int| 0 <= j < links2.len() implies flow_matches(
                nodes,
                flows2,
                links2,
                j,
            ) by {
                if j < idx {
                    assert(flow_matches(nodes, flows1, links1, j));
                    assert(node_wf(links1, j));
                    assert(kid_ids(flows2, links2, j) =~= kid_ids(flows1, links1, j));
                } else {
                    assert(kid_ids(flows2, links2, j) =~= kid_ids_of(flows1, kd));
                }
            }
            assert(segment_nodes(flows2, start, flows2.len() as int) =~= segment_nodes(
                flows1,
                start,
                idx as int,
            ) + seq![d as int]);
            if kd.len() > 0 {
                assert(0 <= kd[0] < idx);
            }
        }
        ConstructionResult::FlowConstructionResult(idx)
    }
}

/// The nodes that the boxes at the places `kids` were made for.
pub open spec fn kid_ids_of(flows: Seq<Flow>, kids: Seq<usize>) -> Seq<int> {
    Seq::new(kids.len(), |m: int| flows[kids[m] as int].node as int)
}

/// Whether node `node` of the document gets a box.
pub fn produces_flow(doc: &Document, node: usize) -> (b: bool)
    requires
        doc.has_node(node),
    ensures
        b == participates(doc.nodes@[node as int]),
{
    match doc.nodes[node].layout_data.data {
        Some(data) => match data.style {
            Some(style) => match style.display {
                Display::Hidden => false,
                _ => true,
            },
            None => false,
        },
        None => false,
    }
}

/// The boxes of the tree that is built for the part of the document that
/// hangs from `root`, as they are before any pass has run: one box for each
/// node that gets one, in the order in which they are made, the last one
/// marked as the root.
pub open spec fn initial_flows(nodes: Seq<Node>, root: int) -> Seq<Flow> {
    let built = built_nodes(nodes, root);
    Seq::new(
        built.len(),
        |j: int|
            Flow {
                flags: FlowFlags {
                    is_root: j == built.len() - 1,
                    ..initial_flow(nodes, built[j]).flags
                },
                ..initial_flow(nodes, built[j])
            },
    )
}

/// Whether `links` link the boxes of `initial_flows` as the document links
/// the nodes they were made for: the children of a node's box are the boxes
/// of those of the node's children that get one, in document order.
pub open spec fn links_of_document(nodes: Seq<Node>, root: int, links: Seq<FlowLinks>) -> bool {
    let built = built_nodes(nodes, root);
    &&& links_wf(links)
    &&& links.len() == built.len()
    &&& forall|j: int|
        0 <= j < links.len() ==> #[trigger] kid_ids(initial_flows(nodes, root), links, j)
            == kid_nodes(nodes, built[j], nodes[built[j]].children@.len())
}

/// Builds the tree of boxes for the part of the document that hangs from
/// `node`, and marks the box of `node` as its root.
pub fn construct_flow_tree(doc: &Document, node: usize) -> (tree: FlowTree)
    requires
        doc.wf(),
        doc.has_node(node),
        participates(doc.nodes@[node as int]),
    ensures
        tree.wf(),
        tree.flows@ == initial_flows(doc.nodes@, node as int),
        links_of_document(doc.nodes@, node as int, tree.links@),
        tree.flows@.len() == built_nodes(doc.nodes@, node as int).len(),
        forall|j: int|
            0 <= j < tree.flows@.len() ==> ((#[trigger] tree.flows@[j]).flags.is_root <==> j
                == tree.flows@.len() - 1),
{
    let mut constructor = FlowConstructor::init();
    let _ = constructor.build(doc, node);
    let ghost built = built_nodes(doc.nodes@, node as int);
    let ghost made = constructor.flows@;
    let mut tree = FlowTree { flows: constructor.flows, links: constructor.links };
    proof {
        assert(links_wf(tree.links@));
        assert forall|j: int| 0 <= j < made.len() implies made[j].node == built[j] by {
            assert(segment_nodes(made, 0, made.len() as int)[j] == made[0 + j].node);
        }
    }
    tree.mark_as_root();
    proof {
        let first = initial_flows(doc.nodes@, node as int);
        assert forall|j: int| 0 <= j < tree.flows@.len() implies tree.flows@[j] == first[j] by {
            assert(flow_matches(doc.nodes@, made, tree.links@, j));
        }
        assert(tree.flows@ =~= first);
        assert forall|j: int| 0 <= j < tree.links@.len() implies #[trigger] kid_ids(
            first,
            tree.links@,
            j,
        ) == kid_nodes(doc.nodes@, built[j], doc.nodes@[built[j]].children@.len()) by {
            assert(flow_matches(doc.nodes@, made, tree.links@, j));
            assert(node_wf(tree.links@, j));
            assert(kid_ids(first, tree.links@, j) =~= kid_ids(made, tree.links@, j));
        }
    }
    tree
}

/// A node that gets a box among those that hang from the first `count`
/// children of node `d` gets it among those that hang from one of them.
pub proof fn lemma_built_kids_member(nodes: Seq<Node>, d: int, count: nat, x: int) -> (k: int)
    requires
        shape_wf(shape_of(nodes)),
        0 <= d < nodes.len(),
        count <= nodes[d].children@.len(),
        built_kids(nodes, d, count).contains(x),
    ensures
        0 <= k < count,
        built_nodes(nodes, nodes[d].children@[k] as int).contains(x),
    decreases count,
{
    if count == 0 {
        assert(built_kids(nodes, d, 0).len() == 0);
        0
    } else {
        let kid = nodes[d].children@[count - 1];
        assert(shape_of(nodes)[d][count - 1] == kid);
        assert(d < kid < nodes.len());
        lemma_contains_concat(
            built_kids(nodes, d, (count - 1) as nat),
            built_nodes(nodes, kid as int),
            x,
        );
        if built_nodes(nodes, kid as int).contains(x) {
            count - 1
        } else {
            lemma_built_kids_member(nodes, d, (count - 1) as nat, x)
        }
    }
}

/// A node that gets a box among those that hang from node `d` hangs from
/// `d`.
pub proof fn lemma_built_in_part(nodes: Seq<Node>, d: int, x: int)
    requires
        shape_wf(shape_of(nodes)),
        0 <= d < nodes.len(),
        built_nodes(nodes, d).contains(x),
    ensures
        preorder(shape_of(nodes), d).contains(x),
    decreases nodes.len() - d,
{
    let shape = shape_of(nodes);
    let count = nodes[d].children@.len();
    lemma_preorder_has_root(shape, d);
    lemma_contains_concat(built_kids(nodes, d, count), seq![d], x);
    if built_kids(nodes, d, count).contains(x) {
        let k = lemma_built_kids_member(nodes, d, count, x);
        assert(shape[d][k] == nodes[d].children@[k]);
        assert(d < shape[d][k] < shape.len());
        lemma_built_in_part(nodes, shape[d][k] as int, x);
        lemma_preorder_sub(shape, d, k, x);
    } else if x != d {
        let a = choose|a: int| 0 <= a < seq![d].len() && seq![d][a] == x;
        assert(false);
    }
}

/// No node gets two boxes: the nodes that get a box among those that hang
/// from node `d` are listed once each.
pub proof fn lemma_built_no_duplicates(nodes: Seq<Node>, d: int)
    requires
        shape_wf(shape_of(nodes)),
        0 <= d < nodes.len(),
    ensures
        built_nodes(nodes, d).no_duplicates(),
    decreases nodes.len() - d, 1nat, 0nat,
{
    let shape = shape_of(nodes);
    let count = nodes[d].children@.len();
    if participates(nodes[d]) {
        let below = built_kids(nodes, d, count);
        lemma_built_kids_no_duplicates(nodes, d, count);
        assert forall|x: int| !(below.contains(x) && seq![d].contains(x)) by {
            if below.contains(x) && seq![d].contains(x) {
                let a = choose|a: int| 0 <= a < seq![d].len() && seq![d][a] == x;
                let k = lemma_built_kids_member(nodes, d, count, x);
                assert(shape[d][k] == nodes[d].children@[k]);
                assert(d < shape[d][k] < shape.len());
                lemma_built_in_part(nodes, shape[d][k] as int, x);
                lemma_preorder_ge(shape, shape[d][k] as int, x);
            }
        }
        lemma_concat_no_duplicates(below, seq![d]);
    }
}

/// The nodes that get a box among those that hang from the first `count`
/// children of node `d` are listed once each.
pub proof fn lemma_built_kids_no_duplicates(nodes: Seq<Node>, d: int, count: nat)
    requires
        shape_wf(shape_of(nodes)),
        0 <= d < nodes.len(),
        count <= nodes[d].children@.len(),
    ensures
        built_kids(nodes, d, count).no_duplicates(),
    decreases nodes.len() - d, 0nat, count,
{
    let shape = shape_of(nodes);
    if count > 0 {
        let kid = nodes[d].children@[count - 1];
        let before = built_kids(nodes, d, (count - 1) as nat);
        let more = built_nodes(nodes, kid as int);
        assert(shape[d][count - 1] == kid);
        assert(d < kid < nodes.len());
        lemma_built_kids_no_duplicates(nodes, d, (count - 1) as nat);
        lemma_built_no_duplicates(nodes, kid as int);
        assert forall|x: int| !(before.contains(x) && more.contains(x)) by {
            if before.contains(x) && more.contains(x) {
                let k = lemma_built_kids_member(nodes, d, (count - 1) as nat, x);
                assert(shape[d][k] == nodes[d].children@[k]);
                assert(d < shape[d][k] < shape.len());
                lemma_built_in_part(nodes, shape[d][k] as int, x);
                lemma_built_in_part(nodes, kid as int, x);
                lemma_siblings_apart(shape, d, k, count - 1, x);
            }
        }
        lemma_concat_no_duplicates(before, more);
    }
}

/// In the tree that is built for a document, no two boxes were made for the
/// same node, and every box was made for a node that hangs from the root
/// and gets a box.
pub proof fn lemma_one_box_per_node(nodes: Seq<Node>, root: int, i: int, j: int)
    requires
        shape_wf(shape_of(nodes)),
        nodes.len() <= usize::MAX,
        0 <= root < nodes.len(),
        0 <= i < initial_flows(nodes, root).len(),
        0 <= j < initial_flows(nodes, root).len(),
        i != j,
    ensures
        initial_flows(nodes, root)[i].node != initial_flows(nodes, root)[j].node,
        preorder(shape_of(nodes), root).contains(initial_flows(nodes, root)[i].node as int),
{
    let built = built_nodes(nodes, root);
    lemma_built_no_duplicates(nodes, root);
    assert(built.contains(built[i]));
    assert(built.contains(built[j]));
    lemma_built_in_part(nodes, root, built[i]);
    lemma_built_in_part(nodes, root, built[j]);
    lemma_preorder_ge(shape_of(nodes), root, built[i]);
    lemma_preorder_ge(shape_of(nodes), root, built[j]);
    assert(initial_flows(nodes, root)[i].node == built[i]);
    assert(initial_flows(nodes, root)[j].node == built[j]);
}

} // verus!
