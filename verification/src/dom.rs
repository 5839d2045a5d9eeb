//! The document as layout sees it: a tree of nodes, each with its kind, its
//! children, and the data that layout keeps on it from one layout to the
//! next.
//!
//! The nodes stand in an arena in document order, so a node's children come
//! after it.

use vstd::prelude::*;
use crate::color::Color;
use crate::incremental::RestyleDamage;
use crate::style::{ComputedStyle, Display};

verus! {

#[derive(Clone, Copy, Debug, PartialEq, Eq, Structural)]
pub enum ElementTypeId {
    /// The document element.
    HTMLHtmlElementTypeId,
    /// The body element.
    HTMLBodyElementTypeId,
    /// Any other element.
    HTMLElementTypeId,
}

#[derive(Clone, Copy, Debug, PartialEq, Eq, Structural)]
pub enum NodeTypeId {
    ElementNodeTypeId(ElementTypeId),
    TextNodeTypeId,
    CommentNodeTypeId,
    DoctypeNodeTypeId,
}

/// What layout keeps on a node.
#[derive(Clone, Copy, Debug, PartialEq, Eq, Structural)]
pub struct LayoutData {
    /// The node's style, once the cascade has run for it.
    pub style: Option<ComputedStyle>,
    /// What the last change of style damaged, where that is known.
    pub restyle_damage: Option<RestyleDamage>,
}

/// The place on a node where its layout data is kept, empty until layout
/// first sees the node and again after the data was destroyed.
#[derive(Clone, Copy, Debug, PartialEq, Eq, Structural)]
pub struct LayoutDataRef {
    pub data: Option<LayoutData>,
}

#[derive(Debug, PartialEq, Eq)]
pub struct Node {
    pub type_id: NodeTypeId,
    /// The node's children, in document order.
    pub children: Vec<usize>,
    pub layout_data: LayoutDataRef,
}

#[derive(Debug, PartialEq, Eq)]
pub struct Document {
    pub nodes: Vec<Node>,
}

impl LayoutData {
    pub open spec fn new_spec() -> LayoutData {
        LayoutData { style: None, restyle_damage: None }
    }

    /// Fresh layout data: no style yet, damage unknown.
    pub fn new() -> (data: LayoutData)
        ensures
            data == Self::new_spec(),
    {
        LayoutData { style: None, restyle_damage: None }
    }
}

impl LayoutDataRef {
    /// This place with fresh layout data put where there was none.
    pub open spec fn initialized(self) -> LayoutDataRef {
        match self.data {
            Some(_) => self,
            None => LayoutDataRef { data: Some(LayoutData::new_spec()) },
        }
    }

    pub fn new() -> (r: LayoutDataRef)
        ensures
            r.data is None,
    {
        LayoutDataRef { data: None }
    }
}

/// The children of each node, in the order of the arena.
pub open spec fn shape_of(nodes: Seq<Node>) -> Seq<Seq<usize>> {
    Seq::new(nodes.len(), |i: int| nodes[i].children@)
}

/// Whether every child stands after its parent in the arena.
pub open spec fn shape_in_order(shape: Seq<Seq<usize>>) -> bool {
    forall|i: int, k: int|
        0 <= i < shape.len() && 0 <= k < shape[i].len() ==> i < #[trigger] shape[i][k]
            < shape.len()
}

/// Whether no node is named as a child twice, be it by two parents or by
/// one.
pub open spec fn single_parent(shape: Seq<Seq<usize>>) -> bool {
    forall|i: int, k: int, j: int, m: int|
        0 <= i < shape.len() && 0 <= k < shape[i].len() && 0 <= j < shape.len() && 0 <= m
            < shape[j].len() && #[trigger] shape[i][k] == #[trigger] shape[j][m] ==> i == j && k
            == m
}

/// Whether the children lists describe trees in document order: every
/// child stands after its parent, and no node is a child twice.
pub open spec fn shape_wf(shape: Seq<Seq<usize>>) -> bool {
    shape_in_order(shape) && single_parent(shape)
}

/// Whether the child `k` of node `a` comes before the child `m` of node
/// `i`, going through the arena node by node and child by child.
pub open spec fn comes_before(a: int, k: int, i: int, m: int) -> bool {
    a < i || (a == i && k < m)
}

/// The nodes of the part of the document that hangs from node `d`, in
/// document order: the node, then what hangs from each of its children.
pub open spec fn preorder(shape: Seq<Seq<usize>>, d: int) -> Seq<int>
    decreases shape.len() - d, 1nat, 0nat,
{
    if 0 <= d < shape.len() {
        seq![d] + preorder_kids(shape, d, shape[d].len())
    } else {
        Seq::empty()
    }
}

/// The nodes that hang from the first `k` children of node `d`, in document
/// order.
pub open spec fn preorder_kids(shape: Seq<Seq<usize>>, d: int, k: nat) -> Seq<int>
    decreases shape.len() - d, 0nat, k,
{
    if k == 0 || !(0 <= d < shape.len()) {
        Seq::empty()
    } else {
        let kid = shape[d][k - 1];
        preorder_kids(shape, d, (k - 1) as nat) + (if d < kid < shape.len() {
            preorder(shape, kid as int)
        } else {
            Seq::empty()
        })
    }
}

/// The style that the cascade has settled for a node, if it has run for it.
pub open spec fn style_of(node: Node) -> Option<ComputedStyle> {
    match node.layout_data.data {
        Some(data) => data.style,
        None => None,
    }
}

/// The restyle damage of a node: everything, where layout has not recorded
/// less.
pub open spec fn damage_of(node: Node) -> RestyleDamage {
    match node.layout_data.data {
        Some(data) => match data.restyle_damage {
            Some(damage) => damage,
            None => RestyleDamage::all_spec(),
        },
        None => RestyleDamage::all_spec(),
    }
}

/// Whether a node can give the page its background: it is the document
/// element or the body element, and its background is not fully transparent.
pub open spec fn gives_background(node: Node) -> bool {
    &&& (node.type_id == NodeTypeId::ElementNodeTypeId(ElementTypeId::HTMLHtmlElementTypeId)
        || node.type_id == NodeTypeId::ElementNodeTypeId(ElementTypeId::HTMLBodyElementTypeId))
    &&& style_of(node) is Some
    &&& !style_of(node).unwrap().background_color.is_transparent_spec()
}

/// The first of the nodes `order` that can give the page its background.
pub open spec fn first_background(nodes: Seq<Node>, order: Seq<int>) -> Option<int>
    decreases order.len(),
{
    if order.len() == 0 {
        None
    } else {
        match first_background(nodes, order.drop_last()) {
            Some(j) => Some(j),
            None => if gives_background(nodes[order.last()]) {
                Some(order.last())
            } else {
                None
            },
        }
    }
}

/// The colour behind the page: the background of the first node in document
/// order, among those that hang from `root`, that can give one; opaque white
/// where none can.
pub open spec fn background_color_spec(nodes: Seq<Node>, root: int) -> Color {
    match first_background(nodes, preorder(shape_of(nodes), root)) {
        Some(j) => style_of(nodes[j]).unwrap().background_color,
        None => Color { r: 255, g: 255, b: 255, a: 255 },
    }
}

/// The first node that can give a background among two runs of nodes is the
/// first such node of the first run, or else of the second.
pub proof fn lemma_first_background_concat(nodes: Seq<Node>, a: Seq<int>, b: Seq<int>)
    ensures
        first_background(nodes, a + b) == match first_background(nodes, a) {
            Some(j) => Some(j),
            None => first_background(nodes, b),
        },
    decreases b.len(),
{
    if b.len() == 0 {
        assert(a + b =~= a);
    } else {
        assert((a + b).drop_last() =~= a + b.drop_last());
        assert((a + b).last() == b.last());
        lemma_first_background_concat(nodes, a, b.drop_last());
    }
}

/// A node is among two runs put together exactly when it is in one of them.
pub proof fn lemma_contains_concat(a: Seq<int>, b: Seq<int>, j: int)
    ensures
        (a + b).contains(j) <==> (a.contains(j) || b.contains(j)),
{
    if a.contains(j) {
        let x = choose|x: int| 0 <= x < a.len() && a[x] == j;
        assert((a + b)[x] == j);
    }
    if b.contains(j) {
        let x = choose|x: int| 0 <= x < b.len() && b[x] == j;
        assert((a + b)[a.len() + x] == j);
    }
    if (a + b).contains(j) {
        let x = choose|x: int| 0 <= x < (a + b).len() && (a + b)[x] == j;
        if x < a.len() {
            assert(a[x] == j);
        } else {
            assert(b[x - a.len()] == j);
        }
    }
}

/// What one more child adds to the nodes that hang from the children before
/// it.
pub proof fn lemma_preorder_kids_step(shape: Seq<Seq<usize>>, d: int, k: int)
    requires
        shape_wf(shape),
        0 <= d < shape.len(),
        0 <= k < shape[d].len(),
    ensures
        preorder_kids(shape, d, (k + 1) as nat) == preorder_kids(shape, d, k as nat) + preorder(
            shape,
            shape[d][k] as int,
        ),
{
    assert(d < shape[d][k] < shape.len());
}

/// Whether `after` is `before` with fresh layout data put on every node
/// that hangs from `root` and had none, and nothing else changed.
pub open spec fn initialized_from(before: Seq<Node>, after: Seq<Node>, root: int) -> bool {
    &&& after.len() == before.len()
    &&& shape_of(after) == shape_of(before)
    &&& forall|j: int|
        0 <= j < before.len() ==> {
            &&& (#[trigger] after[j]).type_id == before[j].type_id
            &&& after[j].children == before[j].children
            &&& after[j].layout_data == if preorder(shape_of(before), root).contains(j) {
                before[j].layout_data.initialized()
            } else {
                before[j].layout_data
            }
        }
}

impl Document {
    pub open spec fn wf(self) -> bool {
        shape_wf(shape_of(self.nodes@))
    }

    /// Whether `root` names a node of the document.
    pub open spec fn has_node(self, root: usize) -> bool {
        root < self.nodes@.len()
    }

    pub fn len(&self) -> (n: usize)
        ensures
            n == self.nodes@.len(),
    {
        self.nodes.len()
    }

    /// Checks that every child stands after its parent in the arena and
    /// that no node is a child twice.
    pub fn is_wf(&self) -> (b: bool)
        ensures
            b == self.wf(),
    {
        let ghost shape = shape_of(self.nodes@);
        let n: usize = self.nodes.len();
        let mut seen: Vec<bool> = Vec::new();
        let mut filled: usize = 0;
        while filled < n
            invariant
                0 <= filled <= n,
                seen@.len() == filled,
                forall|c: int| 0 <= c < filled ==> !seen@[c],
            decreases n - filled,
        {
            seen.push(false);
            filled += 1;
        }
        let mut i: usize = 0;
        while i < n
            invariant
                shape == shape_of(self.nodes@),
                n == self.nodes@.len(),
                seen@.len() == n,
                0 <= i <= n,
                forall|a: int, k: int|
                    0 <= a < i && 0 <= k < shape[a].len() ==> a < #[trigger] shape[a][k] < n
                        && seen@[shape[a][k] as int],
                forall|a: int, k: int, j: int, m: int|
                    0 <= a < i && 0 <= k < shape[a].len() && 0 <= j < i && 0 <= m < shape[j].len()
                        && #[trigger] shape[a][k] == #[trigger] shape[j][m] ==> a == j && k == m,
                forall|c: int|
                    0 <= c < n && seen@[c] ==> exists|a: int, k: int|
                        0 <= a < i && 0 <= k < shape[a].len() && #[trigger] shape[a][k] == c,
            decreases n - i,
        {
            let m: usize = self.nodes[i].children.len();
            let mut k: usize = 0;
            while k < m
                invariant
                    shape == shape_of(self.nodes@),
                    n == self.nodes@.len(),
                    seen@.len() == n,
                    i < n,
                    m == shape[i as int].len(),
                    0 <= k <= m,
                    forall|a: int, b: int|
                        0 <= a <= i && 0 <= b < shape[a].len() && comes_before(
                            a,
                            b,
                            i as int,
                            k as int,
                        ) ==> a < #[trigger] shape[a][b] < n && seen@[shape[a][b] as int],
                    forall|a: int, b: int, j: int, c: int|
                        0 <= a <= i && 0 <= b < shape[a].len() && comes_before(
                            a,
                            b,
                            i as int,
                            k as int,
                        ) && 0 <= j <= i && 0 <= c < shape[j].len() && comes_before(
                            j,
                            c,
                            i as int,
                            k as int,
                        ) && #[trigger] shape[a][b] == #[trigger] shape[j][c] ==> a == j && b == c,
                    forall|c: int|
                        0 <= c < n && seen@[c] ==> exists|a: int, b: int|
                            0 <= a <= i && 0 <= b < shape[a].len() && comes_before(
                                a,
                                b,
                                i as int,
                                k as int,
                            ) && #[trigger] shape[a][b] == c,
                decreases m - k,
            {
                let c: usize = self.nodes[i].children[k];
                if c <= i || c >= n {
                    assert(!(i < shape[i as int][k as int] < shape.len()));
                    return false;
                }
                if seen[c] {
                    proof {
                        let (a, b) = choose|a: int, b: int|
                            0 <= a <= i && 0 <= b < shape[a].len() && comes_before(
                                a,
                                b,
                                i as int,
                                k as int,
                            ) && #[trigger] shape[a][b] == c;
                        assert(shape[a][b] == shape[i as int][k as int]);
                        assert(!(a == i && b == k));
                    }
                    return false;
                }
                seen[c] = true;
                proof {
                    assert forall|x: int|
                        0 <= x < n && seen@[x] implies exists|a: int, b: int|
                        0 <= a <= i && 0 <= b < shape[a].len() && comes_before(
                            a,
                            b,
                            i as int,
                            k as int + 1,
                        ) && #[trigger] shape[a][b] == x by {
                        if x == c {
                            assert(shape[i as int][k as int] == x);
                        } else {
                            let (a, b) = choose|a: int, b: int|
                                0 <= a <= i && 0 <= b < shape[a].len() && comes_before(
                                    a,
                                    b,
                                    i as int,
                                    k as int,
                                ) && #[trigger] shape[a][b] == x;
                            assert(comes_before(a, b, i as int, k as int + 1));
                        }
                    }
                }
                k += 1;
            }
            i += 1;
        }
        true
    }

    /// Puts fresh layout data on every node that hangs from `root` and has
    /// none. Nodes that have layout data keep it.
    pub fn initialize_style_for_subtree(&mut self, root: usize)
        requires
            old(self).wf(),
            old(self).has_node(root),
        ensures
            final(self).wf(),
            initialized_from(old(self).nodes@, final(self).nodes@, root as int),
        decreases old(self).nodes@.len() - root,
    {
        let ghost shape = shape_of(self.nodes@);
        let ghost before = self.nodes@;
        match self.nodes[root].layout_data.data {
            Some(_) => {},
            None => {
                self.nodes[root].layout_data.data = Some(LayoutData::new());
            },
        }
        assert(shape_of(self.nodes@) =~= shape);
        let n: usize = self.nodes[root].children.len();
        let mut k: usize = 0;
        proof {
            assert(seq![root as int] + Seq::<int>::empty() =~= seq![root as int]);
            assert forall|j: int| seq![root as int].contains(j) <==> j == root by {
                if j == root {
                    assert(seq![root as int][0] == j);
                }
            }
        }
        while k < n
            invariant
                shape_wf(shape),
                shape == shape_of(before),
                before == old(self).nodes@,
                shape_of(self.nodes@) == shape,
                self.nodes@.len() == before.len(),
                root < before.len(),
                n == shape[root as int].len(),
                0 <= k <= n,
                forall|j: int|
                    0 <= j < before.len() ==> {
                        &&& (#[trigger] self.nodes@[j]).type_id == before[j].type_id
                        &&& self.nodes@[j].children == before[j].children
                        &&& self.nodes@[j].layout_data == if (seq![root as int] + preorder_kids(
                            shape,
                            root as int,
                            k as nat,
                        )).contains(j) {
                            before[j].layout_data.initialized()
                        } else {
                            before[j].layout_data
                        }
                    },
            decreases n - k,
        {
            let ghost cur = self.nodes@;
            assert(self.nodes@[root as int].children@ == shape[root as int]);
            let c: usize = self.nodes[root].children[k];
            assert(root < shape[root as int][k as int] < shape.len());
            self.initialize_style_for_subtree(c);
            proof {
                lemma_preorder_kids_step(shape, root as int, k as int);
                let done = seq![root as int] + preorder_kids(shape, root as int, k as nat);
                let more = preorder(shape, c as int);
                assert(seq![root as int] + preorder_kids(shape, root as int, (k + 1) as nat)
                    =~= done + more);
                assert forall|j: int| 0 <= j < before.len() implies {
                    &&& (#[trigger] self.nodes@[j]).type_id == before[j].type_id
                    &&& self.nodes@[j].children == before[j].children
                    &&& self.nodes@[j].layout_data == if (done + more).contains(j) {
                        before[j].layout_data.initialized()
                    } else {
                        before[j].layout_data
                    }
                } by {
                    lemma_contains_concat(done, more, j);
                    assert(cur[j].type_id == before[j].type_id);
                }
            }
            k += 1;
        }
    }

    /// Records on a node the style that the cascade settled for it and what
    /// the change of style damaged.
    pub fn set_style(&mut self, node: usize, style: ComputedStyle, damage: RestyleDamage)
        requires
            old(self).has_node(node),
        ensures
            final(self).nodes@.len() == old(self).nodes@.len(),
            shape_of(final(self).nodes@) == shape_of(old(self).nodes@),
            forall|j: int|
                0 <= j < old(self).nodes@.len() && j != node ==> final(self).nodes@[j] == old(
                    self,
                ).nodes@[j],
            final(self).nodes@[node as int].type_id == old(self).nodes@[node as int].type_id,
            final(self).nodes@[node as int].children == old(self).nodes@[node as int].children,
            final(self).nodes@[node as int].layout_data == (LayoutDataRef {
                data: Some(LayoutData { style: Some(style), restyle_damage: Some(damage) }),
            }),
    {
        self.nodes[node].layout_data.data = Some(
            LayoutData { style: Some(style), restyle_damage: Some(damage) },
        );
        assert(shape_of(self.nodes@) =~= shape_of(old(self).nodes@));
    }

    /// Finds the colour behind the page, looking at the nodes that hang from
    /// `root`.
    pub fn background_color(&self, root: usize) -> (color: Color)
        requires
            self.wf(),
            self.has_node(root),
        ensures
            color == background_color_spec(self.nodes@, root as int),
    {
        match self.find_background(root) {
            Some(color) => color,
            None => Color::white(),
        }
    }

    fn find_background(&self, d: usize) -> (found: Option<Color>)
        requires
            self.wf(),
            self.has_node(d),
        ensures
            found == match first_background(self.nodes@, preorder(shape_of(self.nodes@), d as int)) {
                Some(j) => Some(style_of(self.nodes@[j]).unwrap().background_color),
                None => None,
            },
        decreases self.nodes@.len() - d,
    {
        let ghost shape = shape_of(self.nodes@);
        let ghost nodes = self.nodes@;
        let node = &self.nodes[d];
        proof {
            let me = seq![d as int];
            assert(me.drop_last() =~= Seq::<int>::empty());
            assert(me.last() == d);
            assert(first_background(nodes, me.drop_last()) == None::<int>);
            assert(me + Seq::<int>::empty() =~= me);
        }
        let is_candidate = match node.type_id {
            NodeTypeId::ElementNodeTypeId(ElementTypeId::HTMLHtmlElementTypeId) => true,
            NodeTypeId::ElementNodeTypeId(ElementTypeId::HTMLBodyElementTypeId) => true,
            _ => false,
        };
        if is_candidate {
            match node.layout_data.data {
                Some(data) => match data.style {
                    Some(style) => {
                        if !style.background_color.is_transparent() {
                            proof {
                                lemma_first_background_concat(
                                    nodes,
                                    seq![d as int],
                                    preorder_kids(shape, d as int, shape[d as int].len()),
                                );
                            }
                            return Some(style.background_color);
                        }
                    },
                    None => {},
                },
                None => {},
            }
        }
        assert(!gives_background(nodes[d as int]));
        let n: usize = node.children.len();
        let mut k: usize = 0;
        while k < n
            invariant
                self.wf(),
                shape == shape_of(self.nodes@),
                nodes == self.nodes@,
                d < nodes.len(),
                n == shape[d as int].len(),
                0 <= k <= n,
                first_background(nodes, seq![d as int] + preorder_kids(shape, d as int, k as nat))
                    == None::<int>,
            decreases n - k,
        {
            assert(self.nodes@[d as int].children@ == shape[d as int]);
            let c: usize = self.nodes[d].children[k];
            assert(d < shape[d as int][k as int] < shape.len());
            let found = self.find_background(c);
            proof {
                lemma_preorder_kids_step(shape, d as int, k as int);
                let done = seq![d as int] + preorder_kids(shape, d as int, k as nat);
                let more = preorder(shape, c as int);
                assert(seq![d as int] + preorder_kids(shape, d as int, (k + 1) as nat) =~= done
                    + more);
                lemma_first_background_concat(nodes, done, more);
                if found.is_some() {
                    lemma_background_found_early(nodes, shape, d as int, (k + 1) as nat);
                }
            }
            if found.is_some() {
                return found;
            }
            k += 1;
        }
        None
    }
}

/// A node found among what hangs from the first `k` children of `d` is the
/// node found among all that hangs from `d`.
proof fn lemma_background_found_early(nodes: Seq<Node>, shape: Seq<Seq<usize>>, d: int, k: nat)
    requires
        shape_wf(shape),
        0 <= d < shape.len(),
        k <= shape[d].len(),
        first_background(nodes, seq![d] + preorder_kids(shape, d, k)) is Some,
    ensures
        first_background(nodes, preorder(shape, d)) == first_background(
            nodes,
            seq![d] + preorder_kids(shape, d, k),
        ),
    decreases shape[d].len() - k,
{
    if k < shape[d].len() {
        lemma_preorder_kids_step(shape, d, k as int);
        let done = seq![d] + preorder_kids(shape, d, k);
        let more = preorder(shape, shape[d][k as int] as int);
        assert(seq![d] + preorder_kids(shape, d, k + 1) =~= done + more);
        lemma_first_background_concat(nodes, done, more);
        lemma_background_found_early(nodes, shape, d, k + 1);
    }
}

} // verus!
