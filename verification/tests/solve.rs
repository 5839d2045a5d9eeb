use reflow::color::Color;
use reflow::construct::construct_flow_tree;
use reflow::damage::{ComputeDamageTraversal, PropagateDamageTraversal};
use reflow::display_list::{BaseDisplayItem, DisplayItem, DisplayList};
use reflow::display_list_builder::DisplayListBuilder;
use reflow::dom::{Document, ElementTypeId, LayoutData, LayoutDataRef, Node, NodeTypeId};
use reflow::flow::FlowTree;
use reflow::geometry::{Au, Point2D, Rect, Size2D};
use reflow::incremental::{RestyleDamage, RestyleEffect};
use reflow::solve::{
    line_count, solve_constraints, AssignHeightsAndStoreOverflowTraversal, AssignWidthsTraversal,
    BubbleWidthsTraversal, LayoutContext,
};
use reflow::style::{ComputedStyle, Display};
use reflow::traversal::{PostorderFlowTraversal, PreorderFlowTraversal};

fn rect(x: i32, y: i32, w: i32, h: i32) -> Rect {
    Rect::new(Point2D::new(Au(x), Au(y)), Size2D::new(Au(w), Au(h)))
}

fn node(kind: ElementTypeId, children: Vec<usize>, style: ComputedStyle, damage: RestyleDamage) -> Node {
    Node {
        type_id: NodeTypeId::ElementNodeTypeId(kind),
        children,
        layout_data: LayoutDataRef {
            data: Some(LayoutData { style: Some(style), restyle_damage: Some(damage) }),
        },
    }
}

fn ctx(width: i32, height: i32) -> LayoutContext {
    LayoutContext { screen_size: rect(0, 0, width, height) }
}

const RED: Color = Color { r: 255, g: 0, b: 0, a: 255 };
const BLUE: Color = Color { r: 0, g: 0, b: 255, a: 255 };
const BLACK: Color = Color { r: 0, g: 0, b: 0, a: 255 };

/// html(0) > body(1) > [a(2), b(3)]; the boxes stand as [a, b, body, html].
fn page() -> Document {
    let plain = ComputedStyle::initial();
    let body = ComputedStyle { border_width: Au(60), background_color: RED, ..plain };
    let a = ComputedStyle {
        content_min_width: Au(600),
        content_pref_width: Au(12000),
        line_height: Au(1200),
        background_color: BLUE,
        ..plain
    };
    let none = RestyleDamage::none();
    Document {
        nodes: vec![
            node(ElementTypeId::HTMLHtmlElementTypeId, vec![1], plain, none),
            node(ElementTypeId::HTMLBodyElementTypeId, vec![2, 3], body, none),
            node(ElementTypeId::HTMLElementTypeId, vec![], a, none),
            node(ElementTypeId::HTMLElementTypeId, vec![], plain, none),
        ],
    }
}

fn solved_page() -> FlowTree {
    let mut tree = construct_flow_tree(&page(), 0);
    solve_constraints(&mut tree, &ctx(6000, 4800));
    tree
}

#[test]
fn line_count_breaks_content_into_lines() {
    assert_eq!(line_count(Au(0), Au(100)), 0);
    assert_eq!(line_count(Au(-5), Au(100)), 0);
    assert_eq!(line_count(Au(1), Au(100)), 1);
    assert_eq!(line_count(Au(100), Au(100)), 1);
    assert_eq!(line_count(Au(101), Au(100)), 2);
    assert_eq!(line_count(Au(12000), Au(5880)), 3);
    assert_eq!(line_count(Au(400), Au(0)), 1);
    assert_eq!(line_count(Au(400), Au(-7)), 1);
    assert_eq!(line_count(Au(i32::MAX), Au(1)), i32::MAX);
    assert_eq!(line_count(Au(i32::MAX), Au(i32::MAX)), 1);
}

#[test]
fn bubble_widths_adds_content_and_border_to_the_widest_child() {
    let mut tree = construct_flow_tree(&page(), 0);
    tree.traverse_postorder(&BubbleWidthsTraversal(ctx(6000, 4800)));
    let mins: Vec<Au> = tree.flows.iter().map(|f| f.min_width).collect();
    let prefs: Vec<Au> = tree.flows.iter().map(|f| f.pref_width).collect();
    assert_eq!(mins, vec![Au(600), Au(0), Au(720), Au(720)]);
    assert_eq!(prefs, vec![Au(12000), Au(0), Au(12120), Au(12120)]);
}

#[test]
fn solved_geometry_of_a_small_page() {
    let tree = solved_page();
    let positions: Vec<Rect> = tree.flows.iter().map(|f| f.position).collect();
    assert_eq!(
        positions,
        vec![
            rect(60, 60, 5880, 3600),
            rect(60, 3660, 5880, 0),
            rect(0, 0, 6000, 3720),
            rect(0, 0, 6000, 4800),
        ]
    );
    let overflow: Vec<Rect> = tree.flows.iter().map(|f| f.overflow).collect();
    assert_eq!(
        overflow,
        vec![rect(0, 0, 5880, 3600), rect(0, 0, 5880, 0), rect(0, 0, 6000, 3720), rect(0, 0, 6000, 4800)]
    );
}

#[test]
fn a_box_is_never_narrower_than_its_least_width() {
    let mut tree = construct_flow_tree(&page(), 0);
    solve_constraints(&mut tree, &ctx(300, 4800));
    // a needs 600, so body needs 720 and so does html, whatever the viewport.
    let widths: Vec<Au> = tree.flows.iter().map(|f| f.position.size.width).collect();
    assert_eq!(widths, vec![Au(600), Au(600), Au(720), Au(720)]);
    // 12000 of content at width 600 takes 20 lines.
    assert_eq!(tree.flows[0].position.size.height, Au(24000));
    assert_eq!(tree.flows[3].position.size.height, Au(24120));
}

#[test]
fn overflow_reaches_past_a_box_whose_child_is_wider() {
    let plain = ComputedStyle::initial();
    let wide = ComputedStyle { content_min_width: Au(900), ..plain };
    let none = RestyleDamage::none();
    let doc = Document {
        nodes: vec![
            node(ElementTypeId::HTMLHtmlElementTypeId, vec![1], plain, none),
            node(ElementTypeId::HTMLElementTypeId, vec![], wide, none),
        ],
    };
    let mut tree = construct_flow_tree(&doc, 0);
    // Widths are assigned without the first pass, so the root does not know
    // how wide its child has to be.
    tree.traverse_preorder(&AssignWidthsTraversal(ctx(500, 100)));
    tree.flows[0].min_width = Au(900);
    tree.flows[0].position.size.width = Au(900);
    tree.traverse_postorder(&AssignHeightsAndStoreOverflowTraversal(ctx(500, 100)));
    assert_eq!(tree.flows[1].position, rect(0, 0, 500, 100));
    assert_eq!(tree.flows[1].overflow, rect(0, 0, 900, 100));
}

#[test]
fn assigning_widths_before_bubbling_gives_wrong_heights() {
    let plain = ComputedStyle::initial();
    let text = ComputedStyle {
        content_min_width: Au(200),
        content_pref_width: Au(400),
        line_height: Au(10),
        ..plain
    };
    let none = RestyleDamage::none();
    let doc = Document {
        nodes: vec![
            node(ElementTypeId::HTMLHtmlElementTypeId, vec![1], plain, none),
            node(ElementTypeId::HTMLElementTypeId, vec![], text, none),
        ],
    };
    let context = ctx(100, 0);

    let mut right = construct_flow_tree(&doc, 0);
    solve_constraints(&mut right, &context);
    assert_eq!(right.flows[0].position, rect(0, 0, 200, 20));
    assert_eq!(right.flows[1].position, rect(0, 0, 200, 20));

    let mut wrong = construct_flow_tree(&doc, 0);
    wrong.traverse_preorder(&AssignWidthsTraversal(context));
    wrong.traverse_postorder(&BubbleWidthsTraversal(context));
    wrong.traverse_postorder(&AssignHeightsAndStoreOverflowTraversal(context));
    assert_eq!(wrong.flows[0].position, rect(0, 0, 100, 40));
    assert_eq!(wrong.flows[1].position, rect(0, 0, 100, 40));
    assert_ne!(wrong.flows[0].position.size.height, right.flows[0].position.size.height);
}

#[test]
fn boxes_in_document_order_are_passed_over_by_the_height_pass() {
    let plain = ComputedStyle::initial();
    let floating = ComputedStyle {
        float: true,
        content_pref_width: Au(100),
        line_height: Au(10),
        ..plain
    };
    let text = ComputedStyle { content_pref_width: Au(100), line_height: Au(10), ..plain };
    let none = RestyleDamage::none();
    let doc = Document {
        nodes: vec![
            node(ElementTypeId::HTMLHtmlElementTypeId, vec![1, 2], plain, none),
            node(ElementTypeId::HTMLElementTypeId, vec![], floating, none),
            node(ElementTypeId::HTMLElementTypeId, vec![], text, none),
        ],
    };
    let mut tree = construct_flow_tree(&doc, 0);
    solve_constraints(&mut tree, &ctx(1000, 0));
    assert!(tree.flows[0].flags.inorder);
    assert!(!AssignHeightsAndStoreOverflowTraversal(ctx(1000, 0)).should_process(&tree.flows[0]));
    assert!(AssignHeightsAndStoreOverflowTraversal(ctx(1000, 0)).should_process(&tree.flows[1]));
    // The floating box gets its width and its place, but no height.
    assert_eq!(tree.flows[0].position, rect(0, 0, 1000, 0));
    assert_eq!(tree.flows[0].overflow, Rect::zero());
    assert_eq!(tree.flows[1].position, rect(0, 0, 1000, 10));
    assert_eq!(tree.flows[2].position, rect(0, 0, 1000, 10));
}

#[test]
fn a_visit_rewrites_a_box_and_its_children() {
    let tree = construct_flow_tree(&page(), 0);
    let op = AssignWidthsTraversal(ctx(6000, 4800));
    let mut html = tree.flows[3];
    html.min_width = Au(7000);
    let mut kids = vec![tree.flows[2]];
    op.process(&mut html, &mut kids);
    assert_eq!(html.position, rect(0, 0, 7000, 0));
    assert_eq!(kids[0].position, rect(0, 0, 7000, 0));
    let mut body = kids[0];
    let mut kids = vec![tree.flows[0], tree.flows[1]];
    op.process(&mut body, &mut kids);
    assert_eq!(body.position, rect(0, 0, 7000, 0));
    assert_eq!(kids[0].position, rect(60, 0, 6880, 0));
    assert_eq!(kids[1].position, rect(60, 0, 6880, 0));
}

#[test]
fn forced_damage_reaches_every_box() {
    let mut tree = construct_flow_tree(&page(), 0);
    tree.traverse_preorder(&PropagateDamageTraversal { all_style_damage: true });
    for flow in tree.flows.iter() {
        assert_eq!(flow.restyle_damage, RestyleDamage::all());
    }
}

#[test]
fn damage_is_handed_down_from_parent_to_child() {
    let mut doc = page();
    let bubble = RestyleDamage::none().add(RestyleEffect::BubbleWidths);
    let repaint = RestyleDamage::none().add(RestyleEffect::Repaint);
    let reflow = RestyleDamage::none().add(RestyleEffect::Reflow);
    doc.nodes[0].layout_data.data.as_mut().unwrap().restyle_damage = Some(bubble.union(reflow));
    doc.nodes[2].layout_data.data.as_mut().unwrap().restyle_damage = Some(repaint);
    let mut tree = construct_flow_tree(&doc, 0);
    tree.traverse_preorder(&PropagateDamageTraversal { all_style_damage: false });
    let damage: Vec<RestyleDamage> = tree.flows.iter().map(|f| f.restyle_damage).collect();
    // boxes: [a, b, body, html]
    assert_eq!(damage, vec![bubble.union(repaint), bubble, bubble, bubble.union(reflow)]);
}

#[test]
fn a_style_change_damages_everything_below() {
    let mut doc = page();
    let style = RestyleDamage::none().add(RestyleEffect::Style);
    doc.nodes[1].layout_data.data.as_mut().unwrap().restyle_damage = Some(style);
    let mut tree = construct_flow_tree(&doc, 0);
    tree.traverse_preorder(&PropagateDamageTraversal { all_style_damage: false });
    let damage: Vec<RestyleDamage> = tree.flows.iter().map(|f| f.restyle_damage).collect();
    assert_eq!(damage, vec![RestyleDamage::all(), RestyleDamage::all(), style, RestyleDamage::none()]);
}

#[test]
fn damage_is_gathered_from_the_children() {
    let mut doc = page();
    let repaint = RestyleDamage::none().add(RestyleEffect::Repaint);
    let reflow = RestyleDamage::none().add(RestyleEffect::Reflow);
    let style = RestyleDamage::none().add(RestyleEffect::Style);
    doc.nodes[0].layout_data.data.as_mut().unwrap().restyle_damage = Some(repaint);
    doc.nodes[2].layout_data.data.as_mut().unwrap().restyle_damage = Some(style);
    doc.nodes[3].layout_data.data.as_mut().unwrap().restyle_damage = Some(repaint);
    let mut tree = construct_flow_tree(&doc, 0);
    tree.traverse_postorder(&ComputeDamageTraversal);
    let damage: Vec<RestyleDamage> = tree.flows.iter().map(|f| f.restyle_damage).collect();
    assert_eq!(damage, vec![style, repaint, reflow, repaint.union(reflow)]);
    // every box holds what each of its children hands up
    for (i, links) in tree.links.iter().enumerate() {
        for &c in links.children.iter() {
            let up = tree.flows[c].restyle_damage.propagate_up();
            assert_eq!(tree.flows[i].restyle_damage.union(up), tree.flows[i].restyle_damage);
        }
    }
}

#[test]
fn a_damage_visit_leaves_the_children_alone() {
    let tree = construct_flow_tree(&page(), 0);
    let mut body = tree.flows[2];
    let mut a = tree.flows[0];
    a.restyle_damage = RestyleDamage::all();
    let mut kids = vec![a, tree.flows[1]];
    assert!(ComputeDamageTraversal.should_process(&body));
    ComputeDamageTraversal.process(&mut body, &mut kids);
    assert_eq!(body.restyle_damage, RestyleDamage::none().add(RestyleEffect::Reflow));
    assert_eq!(kids, vec![a, tree.flows[1]]);
}

#[test]
fn display_list_of_a_small_page() {
    let tree = solved_page();
    let mut list = DisplayList::new();
    let dirty = tree.flows[3].position;
    tree.build_display_list(&DisplayListBuilder { ctx: ctx(6000, 4800) }, &dirty, &mut list);
    let base = |r: Rect, node: usize| BaseDisplayItem { bounds: r, extra: node };
    let a = rect(60, 60, 5880, 3600);
    let b = rect(60, 3660, 5880, 0);
    let body = rect(0, 0, 6000, 3720);
    let html = rect(0, 0, 6000, 4800);
    let expected = vec![DisplayItem::Clip(
        base(html, 0),
        vec![
            DisplayItem::SolidColor(base(body, 1), RED),
            DisplayItem::Clip(
                base(body, 1),
                vec![
                    DisplayItem::SolidColor(base(a, 2), BLUE),
                    DisplayItem::Clip(base(a, 2), vec![], false),
                    DisplayItem::Clip(base(b, 3), vec![], false),
                ],
                false,
            ),
            DisplayItem::Border(base(body, 1), Au(60), BLACK),
        ],
        false,
    )];
    assert_eq!(list.list, expected);
}

#[test]
fn boxes_outside_the_dirty_rect_are_not_listed() {
    let tree = solved_page();
    let mut list = DisplayList::new();
    // A strip below both a and b: only the boxes around them reach into it.
    let dirty = rect(0, 3700, 6000, 10);
    tree.build_display_list(&DisplayListBuilder { ctx: ctx(6000, 4800) }, &dirty, &mut list);
    let base = |r: Rect, node: usize| BaseDisplayItem { bounds: r, extra: node };
    let body = rect(0, 0, 6000, 3720);
    let html = rect(0, 0, 6000, 4800);
    let expected = vec![DisplayItem::Clip(
        base(html, 0),
        vec![
            DisplayItem::SolidColor(base(body, 1), RED),
            DisplayItem::Clip(base(body, 1), vec![], false),
            DisplayItem::Border(base(body, 1), Au(60), BLACK),
        ],
        false,
    )];
    assert_eq!(list.list, expected);
    let mut nothing = DisplayList::new();
    tree.build_display_list(
        &DisplayListBuilder { ctx: ctx(6000, 4800) },
        &rect(7000, 0, 10, 10),
        &mut nothing,
    );
    assert_eq!(nothing.list, vec![]);
}
