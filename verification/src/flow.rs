//! The tree of boxes ("flows") that layout works on.
//!
//! The tree is kept in an arena. Two tables run side by side: one holds each
//! box's record, the other its links to its parent and its children, so that
//! a pass over the tree can rewrite the records and leave the shape alone.
//! A box stands after all the boxes below it, and the boxes below it stand
//! directly before it with nothing in between: the root is the last entry,
//! and walking the arena from its start visits every box after its children.

use vstd::prelude::*;
use crate::geometry::{Au, Point2D, Rect, Size2D};
use crate::incremental::RestyleDamage;
use crate::style::ComputedStyle;

verus! {

#[derive(Clone, Copy, Debug, PartialEq, Eq, Structural)]
pub struct FlowFlags {
    /// Whether the box is the root of its tree.
    pub is_root: bool,
    /// Whether the box's height is assigned in document order, and so not by
    /// the bottom-up pass over the tree.
    pub inorder: bool,
}

/// One box.
#[derive(Clone, Copy, Debug, PartialEq, Eq, Structural)]
pub struct Flow {
    /// The document node that the box was made for.
    pub node: usize,
    pub style: ComputedStyle,
    pub restyle_damage: RestyleDamage,
    /// Where the box is, measured from its parent's top left corner, and
    /// how large it is.
    pub position: Rect,
    /// What the box and everything below it cover, measured from the box's
    /// own top left corner.
    pub overflow: Rect,
    /// The least width the box can take without its content spilling.
    pub min_width: Au,
    /// The width the box takes when nothing in it is broken.
    pub pref_width: Au,
    pub flags: FlowFlags,
}

/// Where a box hangs in the tree.
#[derive(Debug, PartialEq, Eq)]
pub struct FlowLinks {
    /// The box's parent: an index into the arena, owning nothing.
    pub parent: Option<usize>,
    /// The box's children, in document order.
    pub children: Vec<usize>,
}

#[derive(Debug, PartialEq, Eq)]
pub struct FlowTree {
    pub flows: Vec<Flow>,
    pub links: Vec<FlowLinks>,
}

impl Flow {
    /// A box for `node` as it is before any pass has run: at the origin,
    /// without size, not the root.
    pub open spec fn new_spec(node: usize, style: ComputedStyle, damage: RestyleDamage) -> Flow {
        Flow {
            node,
            style,
            restyle_damage: damage,
            position: Rect {
                origin: Point2D { x: Au(0), y: Au(0) },
                size: Size2D { width: Au(0), height: Au(0) },
            },
            overflow: Rect {
                origin: Point2D { x: Au(0), y: Au(0) },
                size: Size2D { width: Au(0), height: Au(0) },
            },
            min_width: Au(0),
            pref_width: Au(0),
            flags: FlowFlags { is_root: false, inorder: style.float },
        }
    }

    pub fn new(node: usize, style: ComputedStyle, damage: RestyleDamage) -> (flow: Flow)
        ensures
            flow == Self::new_spec(node, style, damage),
    {
        Flow {
            node,
            style,
            restyle_damage: damage,
            position: Rect::zero(),
            overflow: Rect::zero(),
            min_width: Au(0),
            pref_width: Au(0),
            flags: FlowFlags { is_root: false, inorder: style.float },
        }
    }
}

/// The children of box `i`.
pub open spec fn kids_of(links: Seq<FlowLinks>, i: int) -> Seq<usize> {
    links[i].children@
}

/// The first arena entry of the part of the tree that hangs from box `i`:
/// the box itself where it has no children, else the first entry of its
/// first child's part.
pub open spec fn first_of(links: Seq<FlowLinks>, i: int) -> int
    decreases i,
{
    if 0 <= i < links.len() && kids_of(links, i).len() > 0 && 0 <= kids_of(links, i)[0] < i {
        first_of(links, kids_of(links, i)[0] as int)
    } else {
        i
    }
}

/// Whether box `i` is linked as the arena requires: its children stand
/// before it, the last of them directly before it, each child's part of the
/// tree starts directly after the child before, and each child names `i` as
/// its parent.
pub open spec fn node_wf(links: Seq<FlowLinks>, i: int) -> bool {
    let kids = kids_of(links, i);
    &&& forall|k: int|
        0 <= k < kids.len() ==> 0 <= #[trigger] kids[k] < i && links[kids[k] as int].parent == Some(
            i as usize,
        )
    &&& kids.len() > 0 ==> kids.last() == i - 1
    &&& forall|k: int|
        0 <= k < kids.len() - 1 ==> kids[k] + 1 == first_of(links, #[trigger] kids[k + 1] as int)
}

/// Whether the links describe one tree laid out as the arena requires, with
/// the last entry as its root.
pub open spec fn links_wf(links: Seq<FlowLinks>) -> bool {
    &&& links.len() > 0
    &&& forall|i: int| 0 <= i < links.len() ==> node_wf(links, i)
    &&& links.last().parent is None
    &&& first_of(links, links.len() - 1) == 0
}

impl FlowTree {
    pub open spec fn wf(self) -> bool {
        &&& self.flows@.len() == self.links@.len()
        &&& links_wf(self.links@)
    }

    /// The index of the root box.
    pub open spec fn root_spec(self) -> int {
        self.links@.len() - 1
    }

    pub fn len(&self) -> (n: usize)
        requires
            self.wf(),
        ensures
            n == self.flows@.len(),
            n > 0,
    {
        self.flows.len()
    }

    pub fn root(&self) -> (r: usize)
        requires
            self.wf(),
        ensures
            r == self.root_spec(),
    {
        self.links.len() - 1
    }

    /// Marks the root box as the root of the tree: the one box of which
    /// absolute positions and the page's overflow are reckoned.
    pub fn mark_as_root(&mut self)
        requires
            old(self).wf(),
        ensures
            final(self).links == old(self).links,
            final(self).flows@ == old(self).flows@.update(
                old(self).root_spec(),
                Flow {
                    flags: FlowFlags { is_root: true, ..old(self).flows@[old(self).root_spec()].flags },
                    ..old(self).flows@[old(self).root_spec()]
                },
            ),
    {
        let r: usize = self.links.len() - 1;
        self.flows[r].flags.is_root = true;
        assert(self.flows@ =~= old(self).flows@.update(
            old(self).root_spec(),
            Flow {
                flags: FlowFlags { is_root: true, ..old(self).flows@[old(self).root_spec()].flags },
                ..old(self).flows@[old(self).root_spec()]
            },
        ));
    }
}

/// A box's part of the tree starts at or before the box.
pub proof fn lemma_first_le(links: Seq<FlowLinks>, i: int)
    requires
        links_wf(links),
        0 <= i < links.len(),
    ensures
        0 <= first_of(links, i) <= i,
    decreases i,
{
    assert(node_wf(links, i));
    let kids = kids_of(links, i);
    if kids.len() > 0 {
        assert(0 <= kids[0] < i);
        lemma_first_le(links, kids[0] as int);
    }
}

/// The parts of the tree that hang from the children of box `i` lie inside
/// the part that hangs from `i`, before `i`, each one wholly before the
/// next.
pub proof fn lemma_kid_parts(links: Seq<FlowLinks>, i: int, k: int)
    requires
        links_wf(links),
        0 <= i < links.len(),
        0 <= k < kids_of(links, i).len(),
    ensures
        first_of(links, i) <= first_of(links, kids_of(links, i)[k] as int),
        first_of(links, kids_of(links, i)[k] as int) <= kids_of(links, i)[k] < i,
        k == 0 ==> first_of(links, kids_of(links, i)[k] as int) == first_of(links, i),
        k > 0 ==> first_of(links, kids_of(links, i)[k] as int) == kids_of(links, i)[k - 1] + 1,
        k == kids_of(links, i).len() - 1 ==> kids_of(links, i)[k] == i - 1,
    decreases k,
{
    assert(node_wf(links, i));
    let kids = kids_of(links, i);
    assert(0 <= kids[k] < i);
    lemma_first_le(links, kids[k] as int);
    if k > 0 {
        lemma_kid_parts(links, i, k - 1);
        assert(kids[k - 1] + 1 == first_of(links, kids[(k - 1) + 1] as int));
    } else {
        assert(0 <= kids[0] < i);
    }
}

/// Every box before `i` in the part of the tree that hangs from `i` lies in
/// the part that hangs from one of the children of `i`.
pub proof fn lemma_parts_tile(links: Seq<FlowLinks>, i: int, j: int) -> (k: int)
    requires
        links_wf(links),
        0 <= i < links.len(),
        first_of(links, i) <= j < i,
    ensures
        0 <= k < kids_of(links, i).len(),
        first_of(links, kids_of(links, i)[k] as int) <= j <= kids_of(links, i)[k],
{
    let kids = kids_of(links, i);
    assert(node_wf(links, i));
    assert(kids.len() > 0) by {
        if kids.len() == 0 {
            assert(first_of(links, i) == i);
        }
    }
    lemma_tile_search(links, i, j, kids.len() - 1)
}

proof fn lemma_tile_search(links: Seq<FlowLinks>, i: int, j: int, hi: int) -> (k: int)
    requires
        links_wf(links),
        0 <= i < links.len(),
        0 <= hi < kids_of(links, i).len(),
        first_of(links, i) <= j <= kids_of(links, i)[hi],
    ensures
        0 <= k <= hi,
        first_of(links, kids_of(links, i)[k] as int) <= j <= kids_of(links, i)[k],
    decreases hi,
{
    lemma_kid_parts(links, i, hi);
    if first_of(links, kids_of(links, i)[hi] as int) <= j {
        hi
    } else {
        lemma_tile_search(links, i, j, hi - 1)
    }
}

} // verus!
