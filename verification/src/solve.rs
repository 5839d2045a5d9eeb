//! Solving the constraints of the tree of boxes, in three passes that each
//! build on the one before.
//!
//! 1. Bottom-up, every box reports the least and the preferred width it can
//!    do with: those of its widest child, plus its own content and border.
//! 2. Top-down, every box is given the width that its parent has to offer,
//!    and takes its least width where that is more. The root is offered the
//!    width of the viewport.
//! 3. Bottom-up, every box gets its height: its own content, broken into as
//!    many lines as its width demands, then its children one below the
//!    other. The same visit places the children and records what the box and
//!    everything below it cover. Boxes whose heights go by document order
//!    are passed over.

use vstd::prelude::*;
use crate::flow::{kids_of, links_wf, Flow, FlowLinks, FlowTree};
use crate::geometry::{Au, Point2D, Rect, Size2D};
use crate::traversal::{
    gather, lemma_post_frame, lemma_pre_frame, post_spec, pre_spec, PostorderFlowTraversal,
    PreorderFlowTraversal,
};
use crate::traversal_laws::{
    lemma_part_owner, lemma_post_closed, lemma_post_keeps, lemma_post_keeps_kids,
    lemma_post_own_at, lemma_pre_closed, lemma_pre_keeps, post_own,
};

verus! {

/// What a layout run knows of its surroundings.
#[derive(Clone, Copy, Debug, PartialEq, Eq, Structural)]
pub struct LayoutContext {
    /// The viewport: at the origin, as large as the window.
    pub screen_size: Rect,
}

/// The first pass.
#[derive(Clone, Copy, Debug, PartialEq, Eq, Structural)]
pub struct BubbleWidthsTraversal(pub LayoutContext);

/// The second pass.
#[derive(Clone, Copy, Debug, PartialEq, Eq, Structural)]
pub struct AssignWidthsTraversal(pub LayoutContext);

/// The third pass.
#[derive(Clone, Copy, Debug, PartialEq, Eq, Structural)]
pub struct AssignHeightsAndStoreOverflowTraversal(pub LayoutContext);

/// The greatest of the least widths of `kids`, zero where there are none.
pub open spec fn widest_min(kids: Seq<Flow>) -> Au
    decreases kids.len(),
{
    if kids.len() == 0 {
        Au(0)
    } else {
        widest_min(kids.drop_last()).max_spec(kids.last().min_width)
    }
}

/// The greatest of the preferred widths of `kids`, zero where there are
/// none.
pub open spec fn widest_pref(kids: Seq<Flow>) -> Au
    decreases kids.len(),
{
    if kids.len() == 0 {
        Au(0)
    } else {
        widest_pref(kids.drop_last()).max_spec(kids.last().pref_width)
    }
}

/// `width` with the box's border added on both sides.
pub open spec fn with_border(flow: Flow, width: Au) -> Au {
    width.add_spec(flow.style.border_width).add_spec(flow.style.border_width)
}

/// `width` with the box's border taken off on both sides.
pub open spec fn without_border(flow: Flow, width: Au) -> Au {
    width.sub_spec(flow.style.border_width).sub_spec(flow.style.border_width)
}

/// How many lines content of width `pref` takes when no line may be wider
/// than `width`: none where there is no content, one where there is no room
/// at all, else the least number of lines of that width that hold it.
pub open spec fn line_count_spec(pref: Au, width: Au) -> i32 {
    if pref.0 <= 0 {
        0
    } else if width.0 <= 0 {
        1
    } else {
        ((pref.0 + width.0 - 1) / (width.0 as int)) as i32
    }
}

/// The height of the box's own content at the width the box has.
pub open spec fn content_height(flow: Flow) -> Au {
    flow.style.line_height.scale_spec(
        line_count_spec(
            flow.style.content_pref_width,
            without_border(flow, flow.position.size.width),
        ),
    )
}

/// How far below the top of the box its child `m` starts: below the top
/// border, the box's own content and the children before it.
pub open spec fn stack_top(flow: Flow, kids: Seq<Flow>, m: int) -> Au
    decreases m,
{
    if m <= 0 {
        flow.style.border_width.add_spec(content_height(flow))
    } else {
        stack_top(flow, kids, m - 1).add_spec(kids[m - 1].position.size.height)
    }
}

/// Child `m` of the box, moved to where it is stacked.
pub open spec fn stacked_kid(flow: Flow, kids: Seq<Flow>, m: int) -> Flow {
    Flow {
        position: Rect {
            origin: Point2D { x: kids[m].position.origin.x, y: stack_top(flow, kids, m) },
            size: kids[m].position.size,
        },
        ..kids[m]
    }
}

/// The height of the box: its content and children with the border above
/// and below; for the root, the height of the viewport where that is more.
pub open spec fn stacked_height(screen: Rect, flow: Flow, kids: Seq<Flow>) -> Au {
    let total = stack_top(flow, kids, kids.len() as int).add_spec(flow.style.border_width);
    if flow.flags.is_root {
        total.max_spec(screen.size.height)
    } else {
        total
    }
}

/// `area` joined with what the first `m` children cover, each child's
/// overflow taken from where the child is stacked.
pub open spec fn overflow_with_kids(area: Rect, flow: Flow, kids: Seq<Flow>, m: int) -> Rect
    decreases m,
{
    if m <= 0 {
        area
    } else {
        overflow_with_kids(area, flow, kids, m - 1).union_spec(
            kids[m - 1].overflow.translate_spec(stacked_kid(flow, kids, m - 1).position.origin),
        )
    }
}

impl PostorderFlowTraversal for BubbleWidthsTraversal {
    open spec fn should_process_spec(&self, flow: Flow) -> bool {
        true
    }

    open spec fn own_spec(&self, flow: Flow, kids: Seq<Flow>) -> Flow {
        Flow {
            min_width: with_border(flow, widest_min(kids).add_spec(flow.style.content_min_width)),
            pref_width: with_border(
                flow,
                widest_pref(kids).add_spec(flow.style.content_pref_width),
            ),
            ..flow
        }
    }

    open spec fn kid_spec(&self, flow: Flow, kids: Seq<Flow>, m: int) -> Flow {
        kids[m]
    }

    fn should_process(&self, flow: &Flow) -> (b: bool) {
        true
    }

    fn process(&self, flow: &mut Flow, kids: &mut Vec<Flow>) {
        let mut min_width = Au::zero();
        let mut pref_width = Au::zero();
        let n: usize = kids.len();
        let mut k: usize = 0;
        proof {
            assert(kids@.take(0).len() == 0);
        }
        while k < n
            invariant
                n == kids@.len(),
                kids@ == old(kids)@,
                *flow == *old(flow),
                0 <= k <= n,
                min_width == widest_min(kids@.take(k as int)),
                pref_width == widest_pref(kids@.take(k as int)),
            decreases n - k,
        {
            proof {
                let t = kids@.take(k as int + 1);
                assert(t.drop_last() =~= kids@.take(k as int));
                assert(t.last() == kids@[k as int]);
            }
            min_width = min_width.max(kids[k].min_width);
            pref_width = pref_width.max(kids[k].pref_width);
            k += 1;
        }
        proof {
            assert(kids@.take(n as int) =~= kids@);
        }
        let border = flow.style.border_width;
        flow.min_width = min_width.add(flow.style.content_min_width).add(border).add(border);
        flow.pref_width = pref_width.add(flow.style.content_pref_width).add(border).add(border);
    }
}

impl PreorderFlowTraversal for AssignWidthsTraversal {
    open spec fn own_spec(&self, flow: Flow) -> Flow {
        let offered = if flow.flags.is_root {
            self.0.screen_size.size.width
        } else {
            flow.position.size.width
        };
        let origin = if flow.flags.is_root {
            Point2D { x: Au(0), y: Au(0) }
        } else {
            flow.position.origin
        };
        Flow {
            position: Rect {
                origin,
                size: Size2D {
                    width: offered.max_spec(flow.min_width),
                    height: flow.position.size.height,
                },
            },
            ..flow
        }
    }

    open spec fn kid_spec(&self, parent: Flow, kid: Flow) -> Flow {
        Flow {
            position: Rect {
                origin: Point2D { x: parent.style.border_width, y: kid.position.origin.y },
                size: Size2D {
                    width: without_border(parent, parent.position.size.width),
                    height: kid.position.size.height,
                },
            },
            ..kid
        }
    }

    fn process(&self, flow: &mut Flow, kids: &mut Vec<Flow>) {
        if flow.flags.is_root {
            flow.position.origin = Point2D::zero();
            flow.position.size.width = self.0.screen_size.size.width;
        }
        let used = flow.position.size.width.max(flow.min_width);
        flow.position.size.width = used;
        let border = flow.style.border_width;
        let remaining = used.sub(border).sub(border);
        let n: usize = kids.len();
        let mut k: usize = 0;
        while k < n
            invariant
                n == kids@.len(),
                n == old(kids)@.len(),
                0 <= k <= n,
                *flow == self.own_spec(*old(flow)),
                border == flow.style.border_width,
                remaining == without_border(*flow, flow.position.size.width),
                forall|m: int| 0 <= m < k ==> #[trigger] kids@[m] == self.kid_spec(*flow, old(kids)@[m]),
                forall|m: int| k <= m < n ==> #[trigger] kids@[m] == old(kids)@[m],
            decreases n - k,
        {
            kids[k].position.origin.x = border;
            kids[k].position.size.width = remaining;
            k += 1;
        }
    }
}

/// Counts the lines that content of width `pref` takes at width `width`.
pub fn line_count(pref: Au, width: Au) -> (n: i32)
    ensures
        n == line_count_spec(pref, width),
        pref.0 > 0 ==> 1 <= n <= pref.0,
{
    if pref.0 <= 0 {
        0
    } else if width.0 <= 0 {
        1
    } else {
        let p: i64 = pref.0 as i64;
        let w: i64 = width.0 as i64;
        assert(1 <= (p + w - 1) / (w as int) <= p) by (nonlinear_arith)
            requires
                p >= 1,
                w >= 1,
        ;
        let q: i64 = (p + w - 1) / w;
        q as i32
    }
}

impl PostorderFlowTraversal for AssignHeightsAndStoreOverflowTraversal {
    open spec fn should_process_spec(&self, flow: Flow) -> bool {
        !flow.flags.inorder
    }

    open spec fn own_spec(&self, flow: Flow, kids: Seq<Flow>) -> Flow {
        let height = stacked_height(self.0.screen_size, flow, kids);
        let area = Rect {
            origin: Point2D { x: Au(0), y: Au(0) },
            size: Size2D { width: flow.position.size.width, height },
        };
        Flow {
            position: Rect {
                origin: flow.position.origin,
                size: Size2D { width: flow.position.size.width, height },
            },
            overflow: overflow_with_kids(area, flow, kids, kids.len() as int),
            ..flow
        }
    }

    open spec fn kid_spec(&self, flow: Flow, kids: Seq<Flow>, m: int) -> Flow {
        stacked_kid(flow, kids, m)
    }

    fn should_process(&self, flow: &Flow) -> (b: bool) {
        !flow.flags.inorder
    }

    fn process(&self, flow: &mut Flow, kids: &mut Vec<Flow>) {
        let border = flow.style.border_width;
        let room = flow.position.size.width.sub(border).sub(border);
        let lines = line_count(flow.style.content_pref_width, room);
        let mut cur_y = border.add(flow.style.line_height.scale(lines));
        let n: usize = kids.len();
        let mut k: usize = 0;
        while k < n
            invariant
                n == kids@.len(),
                n == old(kids)@.len(),
                *flow == *old(flow),
                0 <= k <= n,
                cur_y == stack_top(*flow, old(kids)@, k as int),
                forall|m: int|
                    0 <= m < k ==> #[trigger] kids@[m] == stacked_kid(*flow, old(kids)@, m),
                forall|m: int| k <= m < n ==> #[trigger] kids@[m] == old(kids)@[m],
            decreases n - k,
        {
            kids[k].position.origin.y = cur_y;
            cur_y = cur_y.add(kids[k].position.size.height);
            k += 1;
        }
        let total = cur_y.add(border);
        let height = if flow.flags.is_root {
            total.max(self.0.screen_size.size.height)
        } else {
            total
        };
        let ghost area = Rect {
            origin: Point2D { x: Au(0), y: Au(0) },
            size: Size2D { width: flow.position.size.width, height },
        };
        let mut overflow = Rect::new(Point2D::zero(), Size2D::new(flow.position.size.width, height));
        let mut j: usize = 0;
        while j < n
            invariant
                n == kids@.len(),
                n == old(kids)@.len(),
                *flow == *old(flow),
                0 <= j <= n,
                forall|m: int|
                    0 <= m < n ==> #[trigger] kids@[m] == stacked_kid(*flow, old(kids)@, m),
                overflow == overflow_with_kids(area, *flow, old(kids)@, j as int),
            decreases n - j,
        {
            let moved = kids[j].overflow.translate(&kids[j].position.origin);
            overflow = overflow.union(&moved);
            j += 1;
        }
        flow.position.size.height = height;
        flow.overflow = overflow;
    }
}

/// What the three passes make of the boxes, one pass after the other.
pub open spec fn solve_spec(
    ctx: LayoutContext,
    links: Seq<FlowLinks>,
    flows: Seq<Flow>,
) -> Seq<Flow> {
    let root = links.len() - 1;
    let bubbled = post_spec(&BubbleWidthsTraversal(ctx), links, flows, root);
    let widths = pre_spec(&AssignWidthsTraversal(ctx), links, bubbled, root);
    post_spec(&AssignHeightsAndStoreOverflowTraversal(ctx), links, widths, root)
}

/// Solves the widths, heights, positions and overflow of all boxes.
pub fn solve_constraints(layout_root: &mut FlowTree, layout_context: &LayoutContext)
    requires
        old(layout_root).wf(),
    ensures
        final(layout_root).wf(),
        final(layout_root).links == old(layout_root).links,
        final(layout_root).flows@ == solve_spec(
            *layout_context,
            old(layout_root).links@,
            old(layout_root).flows@,
        ),
{
    layout_root.traverse_postorder(&BubbleWidthsTraversal(*layout_context));
    layout_root.traverse_preorder(&AssignWidthsTraversal(*layout_context));
    layout_root.traverse_postorder(&AssignHeightsAndStoreOverflowTraversal(*layout_context));
}

/// After the first pass, every box holds the widths that the pass makes of
/// the box as it was and of its children as the pass left them; nothing else
/// of the box has changed.
pub proof fn lemma_bubbled_widths(ctx: LayoutContext, links: Seq<FlowLinks>, flows: Seq<Flow>, i: int)
    requires
        links_wf(links),
        flows.len() == links.len(),
        0 <= i < flows.len(),
    ensures
        ({
            let op = BubbleWidthsTraversal(ctx);
            let after = post_spec(&op, links, flows, links.len() - 1);
            &&& after.len() == flows.len()
            &&& after[i] == op.own_spec(flows[i], gather(after, kids_of(links, i)))
        }),
{
    let op = BubbleWidthsTraversal(ctx);
    lemma_post_keeps_kids(&op, links, flows);
    lemma_post_own_at(&op, links, flows, i);
}

/// After the second pass, the root is as wide as the viewport, or as wide as
/// it has to be where that is more; every other box starts behind its
/// parent's border and is as wide as the room between its parent's borders,
/// or as wide as it has to be where that is more.
pub proof fn lemma_assigned_widths(
    ctx: LayoutContext,
    links: Seq<FlowLinks>,
    flows: Seq<Flow>,
    p: int,
    m: int,
)
    requires
        links_wf(links),
        flows.len() == links.len(),
        0 <= p < flows.len(),
        0 <= m < kids_of(links, p).len(),
    ensures
        ({
            let after = pre_spec(&AssignWidthsTraversal(ctx), links, flows, links.len() - 1);
            let root = links.len() - 1;
            let kid = kids_of(links, p)[m] as int;
            &&& flows[root].flags.is_root ==> after[root].position.size.width
                == ctx.screen_size.size.width.max_spec(flows[root].min_width)
            &&& !flows[kid].flags.is_root ==> {
                &&& after[kid].position.origin.x == after[p].style.border_width
                &&& after[kid].position.size.width == without_border(
                    after[p],
                    after[p].position.size.width,
                ).max_spec(flows[kid].min_width)
            }
        }),
{
    let op = AssignWidthsTraversal(ctx);
    let root = links.len() - 1;
    let after = pre_spec(&op, links, flows, root);
    let kid = kids_of(links, p)[m] as int;
    lemma_pre_closed(&op, links, flows, root);
    assert(after[kid] == op.own_spec(op.kid_spec(after[p], flows[kid])));
}

/// After the third pass, the children of a box that the pass visits stand
/// one directly below the other: the first below the box's top border and
/// own content, each other one where the one before it ends.
pub proof fn lemma_children_are_stacked(
    ctx: LayoutContext,
    links: Seq<FlowLinks>,
    flows: Seq<Flow>,
    p: int,
    m: int,
)
    requires
        links_wf(links),
        flows.len() == links.len(),
        0 <= p < flows.len(),
        0 <= m < kids_of(links, p).len(),
        !flows[p].flags.inorder,
    ensures
        ({
            let after = post_spec(
                &AssignHeightsAndStoreOverflowTraversal(ctx),
                links,
                flows,
                links.len() - 1,
            );
            let kid = kids_of(links, p)[m] as int;
            &&& m == 0 ==> after[kid].position.origin.y == flows[p].style.border_width.add_spec(
                content_height(flows[p]),
            )
            &&& m > 0 ==> after[kid].position.origin.y == after[kids_of(links, p)[m
                - 1] as int].position.origin.y.add_spec(
                after[kids_of(links, p)[m - 1] as int].position.size.height,
            )
        }),
{
    let op = AssignHeightsAndStoreOverflowTraversal(ctx);
    let root = links.len() - 1;
    let after = post_spec(&op, links, flows, root);
    let own = post_own(&op, links, flows, flows.len());
    let seen = gather(own, kids_of(links, p));
    lemma_post_closed(&op, links, flows, root);
    assert(after[kids_of(links, p)[m] as int] == stacked_kid(flows[p], seen, m));
    if m > 0 {
        assert(after[kids_of(links, p)[m - 1] as int] == stacked_kid(flows[p], seen, m - 1));
    }
}

/// Whether two records are of the same box with the same damage: they were
/// made for the same node with the same style, and agree in flags and
/// damage.
pub open spec fn same_box(before: Flow, after: Flow) -> bool {
    &&& after.node == before.node
    &&& after.style == before.style
    &&& after.flags == before.flags
    &&& after.restyle_damage == before.restyle_damage
}

/// Solving the constraints changes nothing of a box but its widths, its
/// position and its overflow.
pub proof fn lemma_solve_keeps_boxes(
    ctx: LayoutContext,
    links: Seq<FlowLinks>,
    flows: Seq<Flow>,
    j: int,
)
    requires
        links_wf(links),
        flows.len() == links.len(),
        0 <= j < flows.len(),
    ensures
        solve_spec(ctx, links, flows).len() == flows.len(),
        same_box(flows[j], solve_spec(ctx, links, flows)[j]),
{
    let root = links.len() - 1;
    let bubble = BubbleWidthsTraversal(ctx);
    let widths = AssignWidthsTraversal(ctx);
    let heights = AssignHeightsAndStoreOverflowTraversal(ctx);
    let bubbled = post_spec(&bubble, links, flows, root);
    let assigned = pre_spec(&widths, links, bubbled, root);
    let rel = |a: Flow, b: Flow| same_box(a, b);
    lemma_post_frame(&bubble, links, flows, root);
    lemma_pre_frame(&widths, links, bubbled, root);
    lemma_post_frame(&heights, links, assigned, root);
    lemma_post_keeps(&bubble, links, flows, rel, j);
    lemma_pre_keeps(&widths, links, bubbled, rel, j);
    lemma_post_keeps(&heights, links, assigned, rel, j);
}

/// Whether two records agree in the width of the box and in the least
/// width it reports.
pub open spec fn same_widths(before: Flow, after: Flow) -> bool {
    &&& after.position.size.width == before.position.size.width
    &&& after.min_width == before.min_width
    &&& after.flags == before.flags
}

/// Once the constraints are solved, no box is narrower than the least width
/// that it reported in the first pass.
pub proof fn lemma_solved_width_at_least_min(
    ctx: LayoutContext,
    links: Seq<FlowLinks>,
    flows: Seq<Flow>,
    j: int,
)
    requires
        links_wf(links),
        flows.len() == links.len(),
        0 <= j < flows.len(),
    ensures
        solve_spec(ctx, links, flows)[j].position.size.width.0 >= solve_spec(
            ctx,
            links,
            flows,
        )[j].min_width.0,
{
    let root = links.len() - 1;
    let bubble = BubbleWidthsTraversal(ctx);
    let widths = AssignWidthsTraversal(ctx);
    let heights = AssignHeightsAndStoreOverflowTraversal(ctx);
    let bubbled = post_spec(&bubble, links, flows, root);
    let assigned = pre_spec(&widths, links, bubbled, root);
    lemma_post_frame(&bubble, links, flows, root);
    lemma_pre_frame(&widths, links, bubbled, root);
    lemma_pre_closed(&widths, links, bubbled, root);
    if j < root {
        lemma_part_owner(links, root, j);
        let (p, m) = choose|p: int, m: int|
            0 <= p <= root && 0 <= m < kids_of(links, p).len() && #[trigger] kids_of(links, p)[m]
                == j;
        assert(assigned[kids_of(links, p)[m] as int] == widths.own_spec(
            widths.kid_spec(assigned[p], bubbled[j]),
        ));
    }
    assert(assigned[j].position.size.width.0 >= assigned[j].min_width.0);
    let rel = |a: Flow, b: Flow| same_widths(a, b);
    lemma_post_keeps(&heights, links, assigned, rel, j);
}

/// Once the constraints are solved, the root box lies at the origin and is
/// as wide as the viewport, or as wide as it has to be where that is more.
pub proof fn lemma_root_fills_viewport(ctx: LayoutContext, links: Seq<FlowLinks>, flows: Seq<Flow>)
    requires
        links_wf(links),
        flows.len() == links.len(),
        flows[links.len() - 1].flags.is_root,
        !flows[links.len() - 1].flags.inorder,
    ensures
        ({
            let root = solve_spec(ctx, links, flows)[links.len() - 1];
            &&& root.position.origin == Point2D { x: Au(0), y: Au(0) }
            &&& root.position.size.width == ctx.screen_size.size.width.max_spec(root.min_width)
            &&& root.position.size.height.0 >= ctx.screen_size.size.height.0
        }),
{
    let root = links.len() - 1;
    let bubble = BubbleWidthsTraversal(ctx);
    let widths = AssignWidthsTraversal(ctx);
    let heights = AssignHeightsAndStoreOverflowTraversal(ctx);
    let bubbled = post_spec(&bubble, links, flows, root);
    let assigned = pre_spec(&widths, links, bubbled, root);
    let rel = |a: Flow, b: Flow| same_box(a, b);
    lemma_post_frame(&bubble, links, flows, root);
    lemma_pre_frame(&widths, links, bubbled, root);
    lemma_post_keeps(&bubble, links, flows, rel, root);
    lemma_pre_closed(&widths, links, bubbled, root);
    lemma_post_closed(&heights, links, assigned, root);
    lemma_post_own_at(&heights, links, assigned, root);
}

} // verus!
