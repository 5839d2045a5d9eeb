//! How a display list built from a tree of boxes relates to the tree: it
//! holds nothing but items of nodes that have a box, and the content box of a
//! node is where its box lies on the page.

use vstd::prelude::*;
use crate::display_list::ItemModel;
use crate::display_list_builder::{
    abs_bounds, background_items, border_items, flow_items, item_base, kids_items,
};
use crate::flow::{
    first_of, kids_of, lemma_first_le, lemma_kid_parts, links_wf, node_wf, Flow, FlowLinks,
};
use crate::geometry::{lemma_union_commutes, Au, Point2D, Rect, Size2D};
use crate::query::{
    boxes_for_node, content_box_spec, hit_test_spec, hits, lemma_hit_test_is_sound, union_all,
};
use crate::traversal::lemma_kids_rise;
use crate::traversal_laws::lemma_part_owner;

verus! {

/// Whether some item of the list, nested ones included, belongs to `node`.
pub open spec fn owns_item(items: Seq<ItemModel>, node: usize) -> bool
    decreases items,
{
    if items.len() == 0 {
        false
    } else {
        owns_item(items.drop_last(), node) || items.last().base().extra == node || match items.last() {
            ItemModel::Clip(_, kids, _) => owns_item(kids, node),
            _ => false,
        }
    }
}

/// A node owns an item of two lists put together exactly when it owns an
/// item of one of them.
pub proof fn lemma_owns_item_concat(a: Seq<ItemModel>, b: Seq<ItemModel>, node: usize)
    ensures
        owns_item(a + b, node) <==> (owns_item(a, node) || owns_item(b, node)),
    decreases b.len(),
{
    if b.len() == 0 {
        assert(a + b =~= a);
    } else {
        assert((a + b).drop_last() =~= a + b.drop_last());
        assert((a + b).last() == b.last());
        lemma_owns_item_concat(a, b.drop_last(), node);
    }
}

/// A node with a box among the items, or with an item under a point, owns an
/// item.
pub proof fn lemma_found_items_are_owned(items: Seq<ItemModel>, x: Au, y: Au, node: usize)
    ensures
        boxes_for_node(items, node).len() > 0 ==> owns_item(items, node),
        hits(items, x, y, node) ==> owns_item(items, node),
    decreases items,
{
    if items.len() > 0 {
        lemma_found_items_are_owned(items.drop_last(), x, y, node);
        match items.last() {
            ItemModel::Clip(_, kids, _) => {
                lemma_found_items_are_owned(kids, x, y, node);
            },
            _ => {},
        }
    }
}

/// A node owns an item of a list of one item exactly when the item or one
/// nested in it is the node's.
proof fn lemma_owns_single(item: ItemModel, node: usize)
    ensures
        owns_item(seq![item], node) <==> (item.base().extra == node || owns_item(
            item.children(),
            node,
        )),
{
    let s = seq![item];
    assert(s.last() == item);
    assert(s.drop_last().len() == 0);
    assert(!owns_item(s.drop_last(), node));
    match item {
        ItemModel::Clip(_, kids, _) => {},
        _ => {
            assert(item.children().len() == 0);
        },
    }
}

/// The items that box `i` and the boxes below it give belong to the nodes of
/// those boxes.
pub proof fn lemma_items_belong_to_boxes(
    links: Seq<FlowLinks>,
    flows: Seq<Flow>,
    i: int,
    parent_origin: Point2D,
    dirty: Rect,
    node: usize,
)
    requires
        links_wf(links),
        flows.len() == links.len(),
        0 <= i < links.len(),
        owns_item(flow_items(links, flows, i, parent_origin, dirty), node),
    ensures
        exists|j: int| first_of(links, i) <= j <= i && #[trigger] flows[j].node == node,
    decreases i, 1nat, 0nat,
{
    let flow = flows[i];
    let bounds = abs_bounds(flow, parent_origin);
    let nested = kids_items(links, flows, i, bounds.origin, dirty, kids_of(links, i).len());
    let clip = ItemModel::Clip(item_base(flow, bounds), nested, false);
    let back = background_items(flow, bounds);
    let border = border_items(flow, bounds);
    lemma_first_le(links, i);
    lemma_owns_item_concat(back + seq![clip], border, node);
    lemma_owns_item_concat(back, seq![clip], node);
    lemma_owns_single(clip, node);
    if back.len() > 0 {
        assert(back =~= seq![back[0]]);
        lemma_owns_single(back[0], node);
    }
    if border.len() > 0 {
        assert(border =~= seq![border[0]]);
        lemma_owns_single(border[0], node);
    }
    if flow.node == node {
        assert(flows[i].node == node);
    } else {
        assert(owns_item(nested, node));
        let k = lemma_kids_items_belong(
            links,
            flows,
            i,
            bounds.origin,
            dirty,
            kids_of(links, i).len(),
            node,
        );
        lemma_kid_parts(links, i, k);
        let kid = kids_of(links, i)[k] as int;
        let j = choose|j: int| first_of(links, kid) <= j <= kid && #[trigger] flows[j].node == node;
        assert(first_of(links, i) <= j <= i);
    }
}

/// An item among what the first `count` children of box `i` and the boxes
/// below them give belongs to the node of a box that hangs from one of those
/// children.
pub proof fn lemma_kids_items_belong(
    links: Seq<FlowLinks>,
    flows: Seq<Flow>,
    i: int,
    origin: Point2D,
    dirty: Rect,
    count: nat,
    node: usize,
) -> (k: int)
    requires
        links_wf(links),
        flows.len() == links.len(),
        0 <= i < links.len(),
        count <= kids_of(links, i).len(),
        owns_item(kids_items(links, flows, i, origin, dirty, count), node),
    ensures
        0 <= k < count,
        exists|j: int|
            first_of(links, kids_of(links, i)[k] as int) <= j <= kids_of(links, i)[k]
                && #[trigger] flows[j].node == node,
    decreases i, 0nat, count,
{
    let kid = kids_of(links, i)[count - 1];
    lemma_kids_rise(links, i);
    assert(0 <= kids_of(links, i)[count - 1] < i);
    let before = kids_items(links, flows, i, origin, dirty, (count - 1) as nat);
    let more = flow_items(links, flows, kid as int, origin, dirty);
    lemma_owns_item_concat(before, more, node);
    if owns_item(more, node) {
        lemma_items_belong_to_boxes(links, flows, kid as int, origin, dirty, node);
        count - 1
    } else {
        lemma_kids_items_belong(links, flows, i, origin, dirty, (count - 1) as nat, node)
    }
}

/// A node without a box in the tree has no box in the display list that is
/// built from the tree, so its content box is the empty rectangle at the
/// origin; and no hit test finds it.
pub proof fn lemma_only_boxes_are_painted(
    links: Seq<FlowLinks>,
    flows: Seq<Flow>,
    dirty: Rect,
    x: Au,
    y: Au,
    node: usize,
)
    requires
        links_wf(links),
        flows.len() == links.len(),
        forall|j: int| 0 <= j < flows.len() ==> (#[trigger] flows[j]).node != node,
    ensures
        ({
            let list = flow_items(links, flows, links.len() - 1, Point2D { x: Au(0), y: Au(0) }, dirty);
            &&& boxes_for_node(list, node).len() == 0
            &&& content_box_spec(list, node) == Rect {
                origin: Point2D { x: Au(0), y: Au(0) },
                size: Size2D { width: Au(0), height: Au(0) },
            }
            &&& hit_test_spec(list, x, y) != Some(node)
        }),
{
    let root = links.len() - 1;
    let list = flow_items(links, flows, root, Point2D { x: Au(0), y: Au(0) }, dirty);
    lemma_found_items_are_owned(list, x, y, node);
    lemma_hit_test_is_sound(list, x, y);
    lemma_first_le(links, root);
    if owns_item(list, node) {
        lemma_items_belong_to_boxes(links, flows, root, Point2D { x: Au(0), y: Au(0) }, dirty, node);
    }
}

/// Where the top left corner of box `j` lies on the page: at the box's own
/// position, reckoned from where its parent lies; the root's from the
/// origin.
pub open spec fn page_origin(links: Seq<FlowLinks>, flows: Seq<Flow>, j: int) -> Point2D
    decreases links.len() - j,
{
    let above = match links[j].parent {
        Some(p) => if 0 <= j < p < links.len() {
            page_origin(links, flows, p as int)
        } else {
            Point2D { x: Au(0), y: Au(0) }
        },
        None => Point2D { x: Au(0), y: Au(0) },
    };
    above.add_spec(flows[j].position.origin)
}

/// Where box `j` lies on the page.
pub open spec fn page_bounds(links: Seq<FlowLinks>, flows: Seq<Flow>, j: int) -> Rect {
    Rect { origin: page_origin(links, flows, j), size: flows[j].position.size }
}

/// Whether box `j` is painted: it reaches into the dirty rectangle, and so
/// does every box above it.
pub open spec fn is_painted(links: Seq<FlowLinks>, flows: Seq<Flow>, dirty: Rect, j: int) -> bool
    decreases links.len() - j,
{
    page_bounds(links, flows, j).intersects_spec(dirty) && match links[j].parent {
        Some(p) => if 0 <= j < p < links.len() {
            is_painted(links, flows, dirty, p as int)
        } else {
            true
        },
        None => true,
    }
}

/// The boxes gathered from two lists put together are those of the first,
/// then those of the second.
pub proof fn lemma_boxes_concat(a: Seq<ItemModel>, b: Seq<ItemModel>, node: usize)
    ensures
        boxes_for_node(a + b, node) == boxes_for_node(a, node) + boxes_for_node(b, node),
    decreases b.len(),
{
    if b.len() == 0 {
        assert(a + b =~= a);
        assert(boxes_for_node(a, node) + boxes_for_node(b, node) =~= boxes_for_node(a, node));
    } else {
        assert((a + b).drop_last() =~= a + b.drop_last());
        assert((a + b).last() == b.last());
        lemma_boxes_concat(a, b.drop_last(), node);
        let own = if b.last().base().extra == node {
            seq![b.last().base().bounds]
        } else {
            Seq::<Rect>::empty()
        };
        let nested = boxes_for_node(b.last().children(), node);
        match b.last() {
            ItemModel::Clip(_, kids, _) => {},
            _ => {
                assert(nested =~= Seq::<Rect>::empty());
            },
        }
        assert(boxes_for_node(a + b, node) =~= boxes_for_node(a, node) + boxes_for_node(b, node));
    }
}

/// The boxes gathered from a list of one item: those of the items nested in
/// it, then the item's own where it belongs to the node.
pub proof fn lemma_boxes_single(item: ItemModel, node: usize)
    ensures
        boxes_for_node(seq![item], node) == boxes_for_node(item.children(), node) + (if item.base().extra
            == node {
            seq![item.base().bounds]
        } else {
            Seq::<Rect>::empty()
        }),
{
    let s = seq![item];
    assert(s.last() == item);
    assert(s.drop_last().len() == 0);
    assert(boxes_for_node(s.drop_last(), node) =~= Seq::<Rect>::empty());
    let nested = boxes_for_node(item.children(), node);
    match item {
        ItemModel::Clip(_, kids, _) => {},
        _ => {
            assert(nested =~= Seq::<Rect>::empty());
        },
    }
    let own = if item.base().extra == node {
        seq![item.base().bounds]
    } else {
        Seq::<Rect>::empty()
    };
    assert(boxes_for_node(seq![item], node) =~= nested + own);
}

/// Joining a rectangle with itself any number of times gives the
/// rectangle.
pub proof fn lemma_union_all_same(boxes: Seq<Rect>, r: Rect)
    requires
        boxes.len() > 0,
        forall|a: int| 0 <= a < boxes.len() ==> boxes[a] == r,
    ensures
        union_all(None, boxes) == Some(r),
    decreases boxes.len(),
{
    assert(boxes.last() == r);
    if boxes.len() > 1 {
        lemma_union_all_same(boxes.drop_last(), r);
        lemma_union_commutes(r, r);
    } else {
        assert(boxes.drop_last().len() == 0);
        assert(union_all(None, boxes.drop_last()) == None::<Rect>);
    }
}

/// Where a box is painted, so is every box above it.
pub proof fn lemma_painted_up(links: Seq<FlowLinks>, flows: Seq<Flow>, dirty: Rect, i: int, j: int)
    requires
        links_wf(links),
        links.len() <= usize::MAX,
        flows.len() == links.len(),
        0 <= i < links.len(),
        first_of(links, i) <= j <= i,
        is_painted(links, flows, dirty, j),
    ensures
        is_painted(links, flows, dirty, i),
    decreases i - j,
{
    if j < i {
        lemma_part_owner(links, i, j);
        let (p, m) = choose|p: int, m: int|
            first_of(links, i) <= p <= i && 0 <= m < kids_of(links, p).len() && #[trigger] kids_of(
                links,
                p,
            )[m] == j;
        lemma_first_le(links, i);
        assert(node_wf(links, p));
        assert(0 <= kids_of(links, p)[m] < p);
        assert(links[j].parent == Some(p as usize));
        lemma_painted_up(links, flows, dirty, i, p);
    }
}

/// What is gathered for the node of box `j` from what box `i` and the boxes
/// below it give, where no other box was made for that node: nothing but
/// the place of box `j` on the page, and that at least once where box `j`
/// hangs from box `i` and is painted.
pub proof fn lemma_boxes_of_painted(
    links: Seq<FlowLinks>,
    flows: Seq<Flow>,
    i: int,
    parent_origin: Point2D,
    dirty: Rect,
    j: int,
)
    requires
        links_wf(links),
        links.len() <= usize::MAX,
        flows.len() == links.len(),
        0 <= i < links.len(),
        0 <= j < links.len(),
        forall|x: int| 0 <= x < flows.len() && x != j ==> (#[trigger] flows[x]).node != flows[j].node,
        abs_bounds(flows[i], parent_origin) == page_bounds(links, flows, i),
    ensures
        forall|a: int|
            0 <= a < boxes_for_node(
                flow_items(links, flows, i, parent_origin, dirty),
                flows[j].node,
            ).len() ==> #[trigger] boxes_for_node(
                flow_items(links, flows, i, parent_origin, dirty),
                flows[j].node,
            )[a] == page_bounds(links, flows, j),
        first_of(links, i) <= j <= i && is_painted(links, flows, dirty, j) ==> boxes_for_node(
            flow_items(links, flows, i, parent_origin, dirty),
            flows[j].node,
        ).len() > 0,
    decreases i, 1nat, 0nat,
{
    let node = flows[j].node;
    let flow = flows[i];
    let bounds = abs_bounds(flow, parent_origin);
    let count = kids_of(links, i).len();
    let nested = kids_items(links, flows, i, bounds.origin, dirty, count);
    let clip = ItemModel::Clip(item_base(flow, bounds), nested, false);
    let back = background_items(flow, bounds);
    let border = border_items(flow, bounds);
    let found = boxes_for_node(flow_items(links, flows, i, parent_origin, dirty), node);
    lemma_first_le(links, i);
    if first_of(links, i) <= j <= i && is_painted(links, flows, dirty, j) {
        lemma_painted_up(links, flows, dirty, i, j);
    }
    if bounds.intersects_spec(dirty) {
        lemma_boxes_concat(back + seq![clip], border, node);
        lemma_boxes_concat(back, seq![clip], node);
        lemma_boxes_single(clip, node);
        if back.len() > 0 {
            assert(back =~= seq![back[0]]);
            lemma_boxes_single(back[0], node);
        }
        if border.len() > 0 {
            assert(border =~= seq![border[0]]);
            lemma_boxes_single(border[0], node);
        }
        lemma_boxes_of_painted_kids(links, flows, i, bounds.origin, dirty, count, j);
        if count > 0 {
            lemma_kid_parts(links, i, count - 1);
        }
        let from_back = boxes_for_node(back, node);
        let from_clip = boxes_for_node(seq![clip], node);
        let from_border = boxes_for_node(border, node);
        assert(found == (from_back + from_clip) + from_border);
        assert forall|a: int| 0 <= a < found.len() implies #[trigger] found[a] == page_bounds(
            links,
            flows,
            j,
        ) by {
            if flow.node == node {
                assert(i == j);
            }
        }
    }
}

/// What is gathered for the node of box `j` from what the first `count`
/// children of box `i` and the boxes below them give.
pub proof fn lemma_boxes_of_painted_kids(
    links: Seq<FlowLinks>,
    flows: Seq<Flow>,
    i: int,
    origin: Point2D,
    dirty: Rect,
    count: nat,
    j: int,
)
    requires
        links_wf(links),
        links.len() <= usize::MAX,
        flows.len() == links.len(),
        0 <= i < links.len(),
        0 <= j < links.len(),
        count <= kids_of(links, i).len(),
        forall|x: int| 0 <= x < flows.len() && x != j ==> (#[trigger] flows[x]).node != flows[j].node,
        origin == page_origin(links, flows, i),
    ensures
        forall|a: int|
            0 <= a < boxes_for_node(
                kids_items(links, flows, i, origin, dirty, count),
                flows[j].node,
            ).len() ==> #[trigger] boxes_for_node(
                kids_items(links, flows, i, origin, dirty, count),
                flows[j].node,
            )[a] == page_bounds(links, flows, j),
        count > 0 && first_of(links, i) <= j <= kids_of(links, i)[count - 1] && is_painted(
            links,
            flows,
            dirty,
            j,
        ) ==> boxes_for_node(kids_items(links, flows, i, origin, dirty, count), flows[j].node).len()
            > 0,
    decreases i, 0nat, count,
{
    let node = flows[j].node;
    if count > 0 {
        let kid = kids_of(links, i)[count - 1] as int;
        lemma_kids_rise(links, i);
        assert(node_wf(links, i));
        assert(0 <= kids_of(links, i)[count - 1] < i);
        assert(links[kid].parent == Some(i as usize));
        let before = kids_items(links, flows, i, origin, dirty, (count - 1) as nat);
        let more = flow_items(links, flows, kid, origin, dirty);
        lemma_boxes_concat(before, more, node);
        lemma_boxes_of_painted_kids(links, flows, i, origin, dirty, (count - 1) as nat, j);
        lemma_boxes_of_painted(links, flows, kid, origin, dirty, j);
        lemma_kid_parts(links, i, count - 1);
        if count > 1 {
            lemma_kid_parts(links, i, count - 2);
        }
    } else {
        assert(kids_items(links, flows, i, origin, dirty, 0).len() == 0);
    }
}

/// The content box of a node is where its box lies on the page, provided
/// that the box is painted and no other box was made for the node.
pub proof fn lemma_content_box_is_page_bounds(
    links: Seq<FlowLinks>,
    flows: Seq<Flow>,
    dirty: Rect,
    j: int,
)
    requires
        links_wf(links),
        links.len() <= usize::MAX,
        flows.len() == links.len(),
        0 <= j < links.len(),
        is_painted(links, flows, dirty, j),
        forall|x: int| 0 <= x < flows.len() && x != j ==> (#[trigger] flows[x]).node != flows[j].node,
    ensures
        content_box_spec(
            flow_items(links, flows, links.len() - 1, Point2D { x: Au(0), y: Au(0) }, dirty),
            flows[j].node,
        ) == page_bounds(links, flows, j),
{
    let root = links.len() - 1;
    let zero = Point2D { x: Au(0), y: Au(0) };
    let list = flow_items(links, flows, root, zero, dirty);
    lemma_first_le(links, root);
    lemma_boxes_of_painted(links, flows, root, zero, dirty, j);
    lemma_union_all_same(boxes_for_node(list, flows[j].node), page_bounds(links, flows, j));
}

} // verus!
