use reflow::color::Color;
use reflow::display_list::{BaseDisplayItem, DisplayItem, DisplayList};
use reflow::geometry::{Au, Point2D, Rect, Size2D};
use reflow::query::{
    add_boxes_for_node, answer, hit_test, union_boxes_for_node, ContentBoxResponse,
    ContentBoxesResponse, HitTestResponse, LayoutQuery, LayoutResponse,
};

fn rect(x: i32, y: i32, w: i32, h: i32) -> Rect {
    Rect::new(Point2D::new(Au(x), Au(y)), Size2D::new(Au(w), Au(h)))
}

fn solid(x: i32, y: i32, w: i32, h: i32, node: usize) -> DisplayItem {
    DisplayItem::SolidColor(
        BaseDisplayItem { bounds: rect(x, y, w, h), extra: node },
        Color::rgba(1, 2, 3, 255),
    )
}

fn clip(x: i32, y: i32, w: i32, h: i32, node: usize, kids: Vec<DisplayItem>) -> DisplayItem {
    DisplayItem::Clip(BaseDisplayItem { bounds: rect(x, y, w, h), extra: node }, kids, false)
}

fn hit(list: &Vec<DisplayItem>, x: i32, y: i32) -> Option<usize> {
    hit_test(Au(x), Au(y), list).map(|r| r.0)
}

#[test]
fn content_box_is_the_union_of_a_nodes_items() {
    // One item from (0,0) to (10,10), one from (5,5) to (20,20).
    let list = Some(DisplayList { list: vec![solid(0, 0, 10, 10, 7), solid(5, 5, 15, 15, 7)] });
    assert_eq!(
        answer(&list, LayoutQuery::ContentBoxQuery(7)),
        LayoutResponse::ContentBox(ContentBoxResponse(rect(0, 0, 20, 20)))
    );
}

#[test]
fn content_box_of_a_node_without_items_is_the_zero_rect() {
    let list = Some(DisplayList { list: vec![solid(0, 0, 10, 10, 7)] });
    assert_eq!(
        answer(&list, LayoutQuery::ContentBoxQuery(8)),
        LayoutResponse::ContentBox(ContentBoxResponse(Rect::zero()))
    );
    let empty = Some(DisplayList::new());
    assert_eq!(
        answer(&empty, LayoutQuery::ContentBoxQuery(8)),
        LayoutResponse::ContentBox(ContentBoxResponse(rect(0, 0, 0, 0)))
    );
}

#[test]
fn content_box_of_a_single_item_is_its_bounds() {
    let list = Some(DisplayList { list: vec![solid(30, 40, 10, 10, 7), solid(0, 0, 1, 1, 2)] });
    assert_eq!(
        answer(&list, LayoutQuery::ContentBoxQuery(7)),
        LayoutResponse::ContentBox(ContentBoxResponse(rect(30, 40, 10, 10)))
    );
}

#[test]
fn content_box_looks_into_clip_items() {
    let list = vec![
        solid(0, 0, 5, 5, 1),
        clip(0, 0, 100, 100, 2, vec![solid(50, 50, 10, 10, 1), clip(0, 0, 1, 1, 3, vec![solid(90, 0, 5, 5, 1)])]),
    ];
    let mut acc = None;
    union_boxes_for_node(&mut acc, &list, 1);
    assert_eq!(acc, Some(rect(0, 0, 95, 60)));
}

#[test]
fn union_boxes_starts_from_what_was_gathered() {
    let list = vec![solid(10, 10, 5, 5, 1)];
    let mut acc = Some(rect(0, 0, 1, 1));
    union_boxes_for_node(&mut acc, &list, 1);
    assert_eq!(acc, Some(rect(0, 0, 15, 15)));
    let mut untouched = Some(rect(0, 0, 1, 1));
    union_boxes_for_node(&mut untouched, &list, 2);
    assert_eq!(untouched, Some(rect(0, 0, 1, 1)));
}

#[test]
fn content_boxes_lists_nested_items_before_their_clip() {
    let list = vec![
        solid(0, 0, 5, 5, 1),
        clip(1, 1, 100, 100, 1, vec![solid(50, 50, 10, 10, 1), solid(2, 2, 2, 2, 9)]),
        solid(7, 7, 7, 7, 1),
    ];
    let mut boxes = vec![rect(9, 9, 9, 9)];
    add_boxes_for_node(&mut boxes, &list, 1);
    assert_eq!(
        boxes,
        vec![rect(9, 9, 9, 9), rect(0, 0, 5, 5), rect(50, 50, 10, 10), rect(1, 1, 100, 100), rect(7, 7, 7, 7)]
    );
    let some = Some(DisplayList { list });
    assert_eq!(
        answer(&some, LayoutQuery::ContentBoxesQuery(9)),
        LayoutResponse::ContentBoxes(ContentBoxesResponse(vec![rect(2, 2, 2, 2)]))
    );
    assert_eq!(
        answer(&some, LayoutQuery::ContentBoxesQuery(4)),
        LayoutResponse::ContentBoxes(ContentBoxesResponse(vec![]))
    );
}

#[test]
fn hit_test_topmost_item_wins() {
    // A is painted first, B after it.
    let list = vec![solid(0, 0, 10, 10, 1), solid(0, 0, 20, 20, 2)];
    assert_eq!(hit(&list, 5, 5), Some(2));
    assert_eq!(hit(&list, 15, 15), Some(2));
    assert_eq!(hit(&list, 25, 25), None);
}

#[test]
fn hit_test_falls_through_to_items_painted_earlier() {
    let list = vec![solid(0, 0, 20, 20, 1), solid(0, 0, 10, 10, 2)];
    assert_eq!(hit(&list, 5, 5), Some(2));
    assert_eq!(hit(&list, 15, 15), Some(1));
}

#[test]
fn hit_test_is_half_open() {
    let list = vec![solid(10, 10, 10, 10, 1)];
    assert_eq!(hit(&list, 10, 10), Some(1));
    assert_eq!(hit(&list, 19, 19), Some(1));
    assert_eq!(hit(&list, 20, 15), None);
    assert_eq!(hit(&list, 15, 20), None);
    assert_eq!(hit(&list, 20, 20), None);
    assert_eq!(hit(&list, 9, 15), None);
    assert_eq!(hit(&list, 15, 9), None);
}

#[test]
fn hit_test_looks_into_clips_before_plain_items() {
    // The plain item is painted last, but what is nested in a clip item is
    // looked at first.
    let list = vec![clip(0, 0, 50, 50, 1, vec![solid(0, 0, 10, 10, 2)]), solid(0, 0, 50, 50, 3)];
    assert_eq!(hit(&list, 5, 5), Some(2));
    assert_eq!(hit(&list, 30, 30), Some(3));
}

#[test]
fn hit_test_does_not_check_the_clips_own_bounds() {
    // The nested item lies outside its clip item's bounds and is hit all the
    // same.
    let list = vec![clip(0, 0, 10, 10, 1, vec![solid(100, 100, 10, 10, 2)])];
    assert_eq!(hit(&list, 105, 105), Some(2));
}

#[test]
fn hit_test_never_answers_with_a_clip_item() {
    let list = vec![clip(0, 0, 10, 10, 1, vec![])];
    assert_eq!(hit(&list, 5, 5), None);
}

#[test]
fn hit_test_takes_the_last_clip_with_a_hit() {
    let list = vec![
        clip(0, 0, 10, 10, 1, vec![solid(0, 0, 10, 10, 2)]),
        clip(0, 0, 10, 10, 3, vec![solid(0, 0, 5, 5, 4)]),
    ];
    assert_eq!(hit(&list, 2, 2), Some(4));
    assert_eq!(hit(&list, 7, 7), Some(2));
}

#[test]
fn hit_test_query_without_a_display_list_fails() {
    let point = Point2D::new(Au(5), Au(5));
    assert_eq!(answer(&None, LayoutQuery::HitTestQuery(0, point)), LayoutResponse::HitTest(Err(())));
}

#[test]
fn hit_test_query_answers_with_the_node() {
    let list = Some(DisplayList { list: vec![solid(0, 0, 10, 10, 1), solid(0, 0, 20, 20, 2)] });
    assert_eq!(
        answer(&list, LayoutQuery::HitTestQuery(0, Point2D::new(Au(5), Au(5)))),
        LayoutResponse::HitTest(Ok(HitTestResponse(2)))
    );
    assert_eq!(
        answer(&list, LayoutQuery::HitTestQuery(0, Point2D::new(Au(25), Au(25)))),
        LayoutResponse::HitTest(Err(()))
    );
}

#[test]
fn display_items_report_their_base() {
    let item = solid(1, 2, 3, 4, 9);
    assert_eq!(item.bounds(), rect(1, 2, 3, 4));
    assert_eq!(item.base().extra, 9);
    let nested = clip(5, 6, 7, 8, 4, vec![solid(1, 2, 3, 4, 9)]);
    assert_eq!(nested.base(), BaseDisplayItem { bounds: rect(5, 6, 7, 8), extra: 4 });
    assert_eq!(nested.duplicate(), nested);
    let mut list = DisplayList::new();
    list.append_item(nested);
    assert_eq!(list.list.len(), 1);
    assert_eq!(list.duplicate(), list);
}
