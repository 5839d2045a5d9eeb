//! Questions about a finished display list: where a node's boxes are, and
//! which node lies under a point.

use vstd::prelude::*;
use crate::display_list::{lemma_clip_model, models, DisplayItem, DisplayList, ItemModel};
use crate::geometry::{Au, Point2D, Rect, Size2D};

verus! {

/// A question put to layout.
#[derive(Clone, Copy, Debug, PartialEq, Eq, Structural)]
pub enum LayoutQuery {
    /// The rectangle around everything painted for a node.
    ContentBoxQuery(usize),
    /// The rectangle of each item painted for a node.
    ContentBoxesQuery(usize),
    /// The node painted topmost at a point. The node given with the point
    /// is where the asker starts from; the answer does not depend on it.
    HitTestQuery(usize, Point2D),
}

#[derive(Clone, Copy, Debug, PartialEq, Eq, Structural)]
pub struct ContentBoxResponse(pub Rect);

#[derive(Debug, PartialEq, Eq)]
pub struct ContentBoxesResponse(pub Vec<Rect>);

#[derive(Clone, Copy, Debug, PartialEq, Eq, Structural)]
pub struct HitTestResponse(pub usize);

/// The answer to a `LayoutQuery`, one variant for each kind of question.
#[derive(Debug, PartialEq, Eq)]
pub enum LayoutResponse {
    ContentBox(ContentBoxResponse),
    ContentBoxes(ContentBoxesResponse),
    /// `Err` where nothing is painted at the point, or nothing was painted
    /// yet.
    HitTest(Result<HitTestResponse, ()>),
}

/// The bounds of the items that belong to `node`, in this order: for each
/// item of the list in turn, first what its nested items give, then the item
/// itself.
pub open spec fn boxes_for_node(items: Seq<ItemModel>, node: usize) -> Seq<Rect>
    decreases items,
{
    if items.len() == 0 {
        Seq::empty()
    } else {
        let item = items.last();
        let own = if item.base().extra == node {
            seq![item.base().bounds]
        } else {
            Seq::empty()
        };
        let nested = match item {
            ItemModel::Clip(_, kids, _) => boxes_for_node(kids, node),
            _ => Seq::empty(),
        };
        boxes_for_node(items.drop_last(), node) + nested + own
    }
}

/// `acc` joined with one more rectangle: the rectangle itself where nothing
/// was gathered before.
pub open spec fn join(acc: Option<Rect>, r: Rect) -> Option<Rect> {
    match acc {
        None => Some(r),
        Some(a) => Some(a.union_spec(r)),
    }
}

/// `acc` joined with each of `boxes`, from the first to the last.
pub open spec fn union_all(acc: Option<Rect>, boxes: Seq<Rect>) -> Option<Rect>
    decreases boxes.len(),
{
    if boxes.len() == 0 {
        acc
    } else {
        join(union_all(acc, boxes.drop_last()), boxes.last())
    }
}

/// The rectangle around everything painted for `node`: the empty rectangle
/// at the origin where nothing is.
pub open spec fn content_box_spec(items: Seq<ItemModel>, node: usize) -> Rect {
    match union_all(None, boxes_for_node(items, node)) {
        Some(r) => r,
        None => Rect {
            origin: Point2D { x: Au(0), y: Au(0) },
            size: Size2D { width: Au(0), height: Au(0) },
        },
    }
}

/// The owner of the topmost item under `(x, y)`. Items later in a list are
/// painted over earlier ones. What is nested in a clip item is looked at
/// before any plain item of the same list, and whether the point is within
/// the clip item's own bounds plays no part.
pub open spec fn hit_test_spec(items: Seq<ItemModel>, x: Au, y: Au) -> Option<usize>
    decreases items, 1nat,
{
    match hit_in_clips(items, x, y) {
        Some(n) => Some(n),
        None => hit_in_plain(items, x, y),
    }
}

/// What the last clip item of the list with a hit among its nested items
/// gives.
pub open spec fn hit_in_clips(items: Seq<ItemModel>, x: Au, y: Au) -> Option<usize>
    decreases items, 0nat,
{
    if items.len() == 0 {
        None
    } else {
        match items.last() {
            ItemModel::Clip(_, kids, _) => match hit_test_spec(kids, x, y) {
                Some(n) => Some(n),
                None => hit_in_clips(items.drop_last(), x, y),
            },
            _ => hit_in_clips(items.drop_last(), x, y),
        }
    }
}

/// The owner of the last item of the list that is no clip item and whose
/// bounds hold the point.
pub open spec fn hit_in_plain(items: Seq<ItemModel>, x: Au, y: Au) -> Option<usize>
    decreases items.len(),
{
    if items.len() == 0 {
        None
    } else {
        let item = items.last();
        if !item.is_clip() && item.base().bounds.contains_spec(x, y) {
            Some(item.base().extra)
        } else {
            hit_in_plain(items.drop_last(), x, y)
        }
    }
}

/// What a query is answered with, given the display list kept from the last
/// layout that painted, if there was one.
pub open spec fn answer_spec(list: Option<Seq<ItemModel>>, query: LayoutQuery) -> LayoutAnswer {
    match query {
        LayoutQuery::ContentBoxQuery(node) => LayoutAnswer::ContentBox(
            content_box_spec(list.unwrap(), node),
        ),
        LayoutQuery::ContentBoxesQuery(node) => LayoutAnswer::ContentBoxes(
            boxes_for_node(list.unwrap(), node),
        ),
        LayoutQuery::HitTestQuery(_, point) => LayoutAnswer::HitTest(
            match list {
                Some(items) => hit_test_spec(items, point.x, point.y),
                None => None,
            },
        ),
    }
}

/// A `LayoutResponse` as a mathematical value.
pub enum LayoutAnswer {
    ContentBox(Rect),
    ContentBoxes(Seq<Rect>),
    HitTest(Option<usize>),
}

impl View for LayoutResponse {
    type V = LayoutAnswer;

    open spec fn view(&self) -> LayoutAnswer {
        match self {
            LayoutResponse::ContentBox(r) => LayoutAnswer::ContentBox(r.0),
            LayoutResponse::ContentBoxes(r) => LayoutAnswer::ContentBoxes(r.0@),
            LayoutResponse::HitTest(r) => LayoutAnswer::HitTest(
                match r {
                    Ok(hit) => Some(hit.0),
                    Err(_) => None,
                },
            ),
        }
    }
}

/// Joining with two runs of rectangles one after the other is joining with
/// the two runs put together.
pub proof fn lemma_union_all_concat(acc: Option<Rect>, a: Seq<Rect>, b: Seq<Rect>)
    ensures
        union_all(acc, a + b) == union_all(union_all(acc, a), b),
    decreases b.len(),
{
    if b.len() == 0 {
        assert(a + b =~= a);
    } else {
        assert((a + b).drop_last() =~= a + b.drop_last());
        assert((a + b).last() == b.last());
        lemma_union_all_concat(acc, a, b.drop_last());
    }
}

/// Putting four runs together does not depend on where one starts.
proof fn lemma_concat_four(a: Seq<Rect>, b: Seq<Rect>, c: Seq<Rect>, d: Seq<Rect>)
    ensures
        ((a + b) + c) + d == a + ((b + c) + d),
{
    assert(((a + b) + c) + d =~= a + ((b + c) + d));
}

/// What one more item adds to the boxes gathered from the items before it.
pub proof fn lemma_boxes_step(items: Seq<ItemModel>, node: usize, i: int)
    requires
        0 <= i < items.len(),
    ensures
        boxes_for_node(items.take(i + 1), node) == boxes_for_node(items.take(i), node)
            + boxes_for_node(items[i].children(), node) + (if items[i].base().extra == node {
            seq![items[i].base().bounds]
        } else {
            Seq::empty()
        }),
{
    let t = items.take(i + 1);
    assert(t.drop_last() =~= items.take(i));
    assert(t.last() == items[i]);
    match items[i] {
        ItemModel::Clip(_, kids, _) => {},
        _ => {
            assert(boxes_for_node(Seq::<ItemModel>::empty(), node) =~= Seq::<Rect>::empty());
        },
    }
}

/// A list of one plain item is hit exactly where the item's bounds hold the
/// point, and then the item's owner is found.
pub proof fn lemma_hit_single(item: ItemModel, x: Au, y: Au)
    requires
        !item.is_clip(),
    ensures
        hit_test_spec(seq![item], x, y) == if item.base().bounds.contains_spec(x, y) {
            Some(item.base().extra)
        } else {
            None
        },
{
    let s = seq![item];
    assert(s.last() == item);
    assert(s.drop_last().len() == 0);
    assert(hit_in_clips(s.drop_last(), x, y) == None::<usize>);
    assert(hit_in_plain(s.drop_last(), x, y) == None::<usize>);
}

/// A point on the far edge of a plain item's bounds misses it; a point on
/// its top left corner hits it, provided that corner lies before both far
/// edges.
pub proof fn lemma_hit_is_half_open(item: ItemModel, x: Au, y: Au)
    requires
        !item.is_clip(),
    ensures
        hit_test_spec(seq![item], item.base().bounds.max_x_spec(), y) == None::<usize>,
        hit_test_spec(seq![item], x, item.base().bounds.max_y_spec()) == None::<usize>,
        item.base().bounds.origin.x.0 < item.base().bounds.max_x_spec().0
            && item.base().bounds.origin.y.0 < item.base().bounds.max_y_spec().0
            ==> hit_test_spec(
            seq![item],
            item.base().bounds.origin.x,
            item.base().bounds.origin.y,
        ) == Some(item.base().extra),
{
    let b = item.base().bounds;
    lemma_hit_single(item, b.max_x_spec(), y);
    lemma_hit_single(item, x, b.max_y_spec());
    lemma_hit_single(item, b.origin.x, b.origin.y);
}

/// What the rectangle gathered so far is after one more item was looked at.
proof fn lemma_union_step(
    start: Option<Rect>,
    items: Seq<ItemModel>,
    node: usize,
    i: int,
    before: Option<Rect>,
    mid: Option<Rect>,
    after: Option<Rect>,
)
    requires
        0 <= i < items.len(),
        before == union_all(start, boxes_for_node(items.take(i), node)),
        items[i].is_clip() ==> mid == union_all(
            before,
            boxes_for_node(items[i].children(), node),
        ),
        !items[i].is_clip() ==> mid == before,
        items[i].base().extra == node ==> after == join(mid, items[i].base().bounds),
        items[i].base().extra != node ==> after == mid,
    ensures
        after == union_all(start, boxes_for_node(items.take(i + 1), node)),
{
    let done = boxes_for_node(items.take(i), node);
    let nested = boxes_for_node(items[i].children(), node);
    let own = if items[i].base().extra == node {
        seq![items[i].base().bounds]
    } else {
        Seq::<Rect>::empty()
    };
    lemma_boxes_step(items, node, i);
    if !items[i].is_clip() {
        assert(nested =~= Seq::<Rect>::empty());
    }
    assert(mid == union_all(before, nested));
    if items[i].base().extra == node {
        assert(own.drop_last() =~= Seq::<Rect>::empty());
        assert(own.last() == items[i].base().bounds);
        assert(union_all(mid, own.drop_last()) == mid);
    }
    assert(after == union_all(mid, own));
    lemma_union_all_concat(start, done, nested);
    lemma_union_all_concat(start, done + nested, own);
}

/// Whether some item of the list that is no clip item, nested ones
/// included, belongs to `node` and has `(x, y)` within its bounds.
pub open spec fn hits(items: Seq<ItemModel>, x: Au, y: Au, node: usize) -> bool
    decreases items,
{
    if items.len() == 0 {
        false
    } else {
        hits(items.drop_last(), x, y, node) || match items.last() {
            ItemModel::Clip(_, kids, _) => hits(kids, x, y, node),
            other => other.base().extra == node && other.base().bounds.contains_spec(x, y),
        }
    }
}

/// A node that a hit test finds owns an item under the point.
pub proof fn lemma_hit_test_is_sound(items: Seq<ItemModel>, x: Au, y: Au)
    ensures
        hit_in_clips(items, x, y) matches Some(node) ==> hits(items, x, y, node),
        hit_in_plain(items, x, y) matches Some(node) ==> hits(items, x, y, node),
        hit_test_spec(items, x, y) matches Some(node) ==> hits(items, x, y, node),
    decreases items,
{
    if items.len() > 0 {
        lemma_hit_test_is_sound(items.drop_last(), x, y);
        match items.last() {
            ItemModel::Clip(_, kids, _) => {
                lemma_hit_test_is_sound(kids, x, y);
            },
            _ => {},
        }
    }
}

/// Where some item under the point belongs to a node, a hit test finds a
/// node.
pub proof fn lemma_hit_test_is_complete(items: Seq<ItemModel>, x: Au, y: Au, node: usize)
    requires
        hits(items, x, y, node),
    ensures
        hit_test_spec(items, x, y) is Some,
    decreases items,
{
    if hits(items.drop_last(), x, y, node) {
        lemma_hit_test_is_complete(items.drop_last(), x, y, node);
    } else {
        match items.last() {
            ItemModel::Clip(_, kids, _) => {
                lemma_hit_test_is_complete(kids, x, y, node);
            },
            _ => {},
        }
    }
}

/// A hit test fails exactly where no item that is no clip item has the
/// point within its bounds.
pub proof fn lemma_hit_test_fails_iff_nothing_is_hit(items: Seq<ItemModel>, x: Au, y: Au)
    ensures
        hit_test_spec(items, x, y) is None <==> forall|node: usize| !hits(items, x, y, node),
{
    lemma_hit_test_is_sound(items, x, y);
    if hit_test_spec(items, x, y) is None {
        assert forall|node: usize| !hits(items, x, y, node) by {
            if hits(items, x, y, node) {
                lemma_hit_test_is_complete(items, x, y, node);
            }
        }
    }
}

/// Joins `accumulator` with the bounds of every item of `items`, nested ones
/// included, that belongs to `node`.
pub fn union_boxes_for_node(accumulator: &mut Option<Rect>, items: &Vec<DisplayItem>, node: usize)
    ensures
        *final(accumulator) == union_all(*old(accumulator), boxes_for_node(models(items@), node)),
    decreases items,
{
    let ghost m = models(items@);
    let n: usize = items.len();
    let mut i: usize = 0;
    proof {
        assert(m.take(0) =~= Seq::<ItemModel>::empty());
    }
    while i < n
        invariant
            n == items.len(),
            m == models(items@),
            0 <= i <= n,
            *accumulator == union_all(*old(accumulator), boxes_for_node(m.take(i as int), node)),
        decreases n - i,
    {
        let ghost before = *accumulator;
        match &items[i] {
            DisplayItem::Clip(base, kids, clip) => {
                proof {
                    lemma_clip_model(*base, *kids, *clip);
                }
                union_boxes_for_node(accumulator, kids, node);
            },
            _ => {},
        }
        let ghost mid = *accumulator;
        let base = items[i].base();
        if base.extra == node {
            let joined = match *accumulator {
                None => base.bounds,
                Some(acc) => acc.union(&base.bounds),
            };
            *accumulator = Some(joined);
        }
        proof {
            lemma_union_step(*old(accumulator), m, node, i as int, before, mid, *accumulator);
        }
        i += 1;
    }
    proof {
        assert(m.take(n as int) =~= m);
    }
}

/// What the list gathered so far is after one more item was looked at.
proof fn lemma_add_step(
    start: Seq<Rect>,
    items: Seq<ItemModel>,
    node: usize,
    i: int,
    before: Seq<Rect>,
    mid: Seq<Rect>,
    after: Seq<Rect>,
)
    requires
        0 <= i < items.len(),
        before == start + boxes_for_node(items.take(i), node),
        items[i].is_clip() ==> mid == before + boxes_for_node(items[i].children(), node),
        !items[i].is_clip() ==> mid == before,
        items[i].base().extra == node ==> after == mid.push(items[i].base().bounds),
        items[i].base().extra != node ==> after == mid,
    ensures
        after == start + boxes_for_node(items.take(i + 1), node),
{
    let done = boxes_for_node(items.take(i), node);
    let nested = boxes_for_node(items[i].children(), node);
    let own = if items[i].base().extra == node {
        seq![items[i].base().bounds]
    } else {
        Seq::<Rect>::empty()
    };
    lemma_boxes_step(items, node, i);
    if !items[i].is_clip() {
        assert(nested =~= Seq::<Rect>::empty());
        assert(before + nested =~= before);
    }
    assert(mid == (start + done) + nested);
    assert(after =~= mid + own);
    lemma_concat_four(start, done, nested, own);
}

/// Appends to `accumulator` the bounds of every item of `items`, nested ones
/// included, that belongs to `node`.
pub fn add_boxes_for_node(accumulator: &mut Vec<Rect>, items: &Vec<DisplayItem>, node: usize)
    ensures
        final(accumulator)@ == old(accumulator)@ + boxes_for_node(models(items@), node),
    decreases items,
{
    let ghost m = models(items@);
    let n: usize = items.len();
    let mut i: usize = 0;
    proof {
        assert(m.take(0) =~= Seq::<ItemModel>::empty());
        assert(accumulator@ =~= old(accumulator)@ + Seq::<Rect>::empty());
    }
    while i < n
        invariant
            n == items.len(),
            m == models(items@),
            0 <= i <= n,
            accumulator@ == old(accumulator)@ + boxes_for_node(m.take(i as int), node),
        decreases n - i,
    {
        let ghost before = accumulator@;
        match &items[i] {
            DisplayItem::Clip(base, kids, clip) => {
                proof {
                    lemma_clip_model(*base, *kids, *clip);
                }
                add_boxes_for_node(accumulator, kids, node);
            },
            _ => {},
        }
        let ghost mid = accumulator@;
        let base = items[i].base();
        if base.extra == node {
            accumulator.push(base.bounds);
        }
        proof {
            lemma_add_step(old(accumulator)@, m, node, i as int, before, mid, accumulator@);
        }
        i += 1;
    }
    proof {
        assert(m.take(n as int) =~= m);
    }
}

/// Finds the node painted topmost at `(x, y)`.
pub fn hit_test(x: Au, y: Au, list: &Vec<DisplayItem>) -> (hit: Option<HitTestResponse>)
    ensures
        hit_test_spec(models(list@), x, y) == match hit {
            Some(response) => Some(response.0),
            None => None,
        },
    decreases list,
{
    let ghost m = models(list@);
    let n: usize = list.len();
    let mut i: usize = n;
    proof {
        assert(m.take(n as int) =~= m);
    }
    while i > 0
        invariant
            n == list.len(),
            m == models(list@),
            0 <= i <= n,
            hit_in_clips(m, x, y) == hit_in_clips(m.take(i as int), x, y),
        decreases i,
    {
        i -= 1;
        proof {
            let t = m.take(i as int + 1);
            assert(t.drop_last() =~= m.take(i as int));
            assert(t.last() == m[i as int]);
        }
        match &list[i] {
            DisplayItem::Clip(base, kids, clip) => {
                proof {
                    lemma_clip_model(*base, *kids, *clip);
                }
                let ret = hit_test(x, y, kids);
                if !ret.is_none() {
                    return ret;
                }
            },
            _ => {},
        }
    }
    let mut j: usize = n;
    while j > 0
        invariant
            n == list.len(),
            m == models(list@),
            0 <= j <= n,
            hit_in_clips(m, x, y) == None::<usize>,
            hit_in_plain(m, x, y) == hit_in_plain(m.take(j as int), x, y),
        decreases j,
    {
        j -= 1;
        proof {
            let t = m.take(j as int + 1);
            assert(t.drop_last() =~= m.take(j as int));
            assert(t.last() == m[j as int]);
        }
        match &list[j] {
            DisplayItem::Clip(base, kids, clip) => {
                proof {
                    lemma_clip_model(*base, *kids, *clip);
                }
                continue ;
            },
            _ => {},
        }
        let base = list[j].base();
        if base.bounds.contains(x, y) {
            return Some(HitTestResponse(base.extra));
        }
    }
    None
}

/// Answers `query` from the display list kept from the last layout that
/// painted.
pub fn answer(display_list: &Option<DisplayList>, query: LayoutQuery) -> (response: LayoutResponse)
    requires
        query is HitTestQuery || display_list is Some,
    ensures
        response@ == answer_spec(
            match display_list {
                Some(list) => Some(list@),
                None => None,
            },
            query,
        ),
{
    match query {
        LayoutQuery::ContentBoxQuery(node) => {
            let mut rect: Option<Rect> = None;
            match display_list {
                Some(list) => {
                    union_boxes_for_node(&mut rect, &list.list, node);
                },
                None => {},
            }
            let found = match rect {
                Some(r) => r,
                None => Rect::zero(),
            };
            LayoutResponse::ContentBox(ContentBoxResponse(found))
        },
        LayoutQuery::ContentBoxesQuery(node) => {
            let mut boxes: Vec<Rect> = Vec::new();
            match display_list {
                Some(list) => {
                    add_boxes_for_node(&mut boxes, &list.list, node);
                    proof {
                        let found = boxes_for_node(list@, node);
                        assert(Seq::<Rect>::empty() + found =~= found);
                    }
                },
                None => {},
            }
            LayoutResponse::ContentBoxes(ContentBoxesResponse(boxes))
        },
        LayoutQuery::HitTestQuery(_, point) => {
            let response = match display_list {
                Some(list) => {
                    let resp = hit_test(point.x, point.y, &list.list);
                    match resp {
                        None => Err(()),
                        Some(hit) => Ok(hit),
                    }
                },
                None => Err(()),
            };
            LayoutResponse::HitTest(response)
        },
    }
}

} // verus!
