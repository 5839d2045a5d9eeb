use reflow::color::Color;
use reflow::construct::{construct_flow_tree, produces_flow, ConstructionResult, FlowConstructor};
use reflow::dom::{Document, ElementTypeId, LayoutData, LayoutDataRef, Node, NodeTypeId};
use reflow::flow::{Flow, FlowFlags};
use reflow::geometry::{Au, Rect};
use reflow::incremental::{RestyleDamage, RestyleEffect};
use reflow::style::{ComputedStyle, Display};

fn style(display: Display) -> ComputedStyle {
    ComputedStyle { display, ..ComputedStyle::initial() }
}

fn element(kind: ElementTypeId, children: Vec<usize>, style: Option<ComputedStyle>) -> Node {
    Node {
        type_id: NodeTypeId::ElementNodeTypeId(kind),
        children,
        layout_data: LayoutDataRef {
            data: Some(LayoutData { style, restyle_damage: Some(RestyleDamage::none()) }),
        },
    }
}

fn div(children: Vec<usize>, display: Display) -> Node {
    element(ElementTypeId::HTMLElementTypeId, children, Some(style(display)))
}

/// html(0) > body(1) > [a(2) > [b(3)], hidden(4) > [c(5)], d(6)]
fn sample() -> Document {
    Document {
        nodes: vec![
            element(ElementTypeId::HTMLHtmlElementTypeId, vec![1], Some(style(Display::Block))),
            element(ElementTypeId::HTMLBodyElementTypeId, vec![2, 4, 6], Some(style(Display::Block))),
            div(vec![3], Display::Block),
            div(vec![], Display::Inline),
            div(vec![5], Display::Hidden),
            div(vec![], Display::Block),
            div(vec![], Display::Block),
        ],
    }
}

#[test]
fn one_box_for_each_node_that_gets_one() {
    let doc = sample();
    assert!(doc.is_wf());
    let tree = construct_flow_tree(&doc, 0);
    // Nodes 4 and 5 are hidden; the others get a box, children first.
    let nodes: Vec<usize> = tree.flows.iter().map(|f| f.node).collect();
    assert_eq!(nodes, vec![3, 2, 6, 1, 0]);
    assert_eq!(tree.len(), 5);
    assert_eq!(tree.root(), 4);
}

#[test]
fn exactly_one_box_is_the_root() {
    let doc = sample();
    let tree = construct_flow_tree(&doc, 0);
    let roots: Vec<bool> = tree.flows.iter().map(|f| f.flags.is_root).collect();
    assert_eq!(roots, vec![false, false, false, false, true]);
}

#[test]
fn boxes_are_linked_as_their_nodes_are() {
    let doc = sample();
    let tree = construct_flow_tree(&doc, 0);
    let children: Vec<Vec<usize>> = tree.links.iter().map(|l| l.children.clone()).collect();
    assert_eq!(children, vec![vec![], vec![0], vec![], vec![1, 2], vec![3]]);
    let parents: Vec<Option<usize>> = tree.links.iter().map(|l| l.parent).collect();
    assert_eq!(parents, vec![Some(1), Some(3), Some(3), Some(4), None]);
}

#[test]
fn a_subtree_can_be_laid_out_on_its_own() {
    let doc = sample();
    let tree = construct_flow_tree(&doc, 2);
    let nodes: Vec<usize> = tree.flows.iter().map(|f| f.node).collect();
    assert_eq!(nodes, vec![3, 2]);
    assert!(tree.flows[1].flags.is_root);
    assert!(!tree.flows[0].flags.is_root);
    assert_eq!(tree.links[1].children, vec![0]);
    assert_eq!(tree.links[1].parent, None);
}

#[test]
fn a_single_node_gives_a_single_root_box() {
    let doc = Document { nodes: vec![div(vec![], Display::Block)] };
    let tree = construct_flow_tree(&doc, 0);
    assert_eq!(tree.len(), 1);
    assert!(tree.flows[0].flags.is_root);
    assert_eq!(tree.links[0].parent, None);
    assert_eq!(tree.links[0].children, Vec::<usize>::new());
}

#[test]
fn a_new_box_starts_at_the_origin_without_size() {
    let mut doc = Document { nodes: vec![div(vec![], Display::Block)] };
    let s = ComputedStyle {
        border_width: Au(60),
        background_color: Color::rgba(9, 8, 7, 6),
        float: true,
        ..ComputedStyle::initial()
    };
    let damage = RestyleDamage::none().add(RestyleEffect::Repaint);
    doc.set_style(0, s, damage);
    let tree = construct_flow_tree(&doc, 0);
    assert_eq!(
        tree.flows[0],
        Flow {
            node: 0,
            style: s,
            restyle_damage: damage,
            position: Rect::zero(),
            overflow: Rect::zero(),
            min_width: Au(0),
            pref_width: Au(0),
            flags: FlowFlags { is_root: true, inorder: true },
        }
    );
    assert_eq!(Flow::new(4, s, damage).flags, FlowFlags { is_root: false, inorder: true });
}

#[test]
fn a_node_without_recorded_damage_is_damaged_in_full() {
    let mut doc = Document { nodes: vec![div(vec![], Display::Block)] };
    doc.nodes[0].layout_data.data =
        Some(LayoutData { style: Some(style(Display::Block)), restyle_damage: None });
    let tree = construct_flow_tree(&doc, 0);
    assert_eq!(tree.flows[0].restyle_damage, RestyleDamage::all());
}

#[test]
fn a_hidden_or_unstyled_root_gives_no_box() {
    let doc = sample();
    assert!(produces_flow(&doc, 0));
    assert!(!produces_flow(&doc, 4));
    assert!(produces_flow(&doc, 5));
    let unstyled = Document {
        nodes: vec![
            element(ElementTypeId::HTMLHtmlElementTypeId, vec![], None),
            Node {
                type_id: NodeTypeId::TextNodeTypeId,
                children: vec![],
                layout_data: LayoutDataRef::new(),
            },
        ],
    };
    assert!(!produces_flow(&unstyled, 0));
    assert!(!produces_flow(&unstyled, 1));
    let mut ctor = FlowConstructor::init();
    assert_eq!(ctor.build(&unstyled, 0), ConstructionResult::NoConstructionResult);
    assert_eq!(ctor.build(&doc, 4), ConstructionResult::NoConstructionResult);
    assert_eq!(ctor.flows.len(), 0);
    assert_eq!(ctor.build(&doc, 2), ConstructionResult::FlowConstructionResult(1));
    assert_eq!(ctor.flows.len(), 2);
}

#[test]
fn a_document_out_of_order_is_not_well_formed() {
    let backwards = Document { nodes: vec![div(vec![], Display::Block), div(vec![0], Display::Block)] };
    assert!(!backwards.is_wf());
    let own_child = Document { nodes: vec![div(vec![0], Display::Block)] };
    assert!(!own_child.is_wf());
    let dangling = Document { nodes: vec![div(vec![1], Display::Block)] };
    assert!(!dangling.is_wf());
    // No node is a child twice, neither of two parents nor of one.
    let shared = Document {
        nodes: vec![div(vec![1, 2], Display::Block), div(vec![2], Display::Block), div(vec![], Display::Block)],
    };
    assert!(!shared.is_wf());
    let twice = Document { nodes: vec![div(vec![1, 1], Display::Block), div(vec![], Display::Block)] };
    assert!(!twice.is_wf());
    let forest = Document {
        nodes: vec![div(vec![2], Display::Block), div(vec![3], Display::Block), div(vec![], Display::Block), div(vec![], Display::Block)],
    };
    assert!(forest.is_wf());
    assert!(Document { nodes: vec![] }.is_wf());
    assert_eq!(sample().len(), 7);
}

#[test]
fn style_storage_is_initialized_for_the_subtree_only() {
    let bare = |children: Vec<usize>| Node {
        type_id: NodeTypeId::TextNodeTypeId,
        children,
        layout_data: LayoutDataRef::new(),
    };
    let mut doc = Document { nodes: vec![bare(vec![1, 3]), bare(vec![2]), bare(vec![]), bare(vec![])] };
    let kept = LayoutData { style: Some(style(Display::Inline)), restyle_damage: None };
    doc.nodes[2].layout_data.data = Some(kept);
    doc.initialize_style_for_subtree(1);
    assert_eq!(doc.nodes[0].layout_data.data, None);
    assert_eq!(doc.nodes[1].layout_data.data, Some(LayoutData::new()));
    assert_eq!(doc.nodes[2].layout_data.data, Some(kept));
    assert_eq!(doc.nodes[3].layout_data.data, None);
    // Doing it again changes nothing.
    doc.initialize_style_for_subtree(1);
    assert_eq!(doc.nodes[1].layout_data.data, Some(LayoutData { style: None, restyle_damage: None }));
    assert_eq!(doc.nodes[2].layout_data.data, Some(kept));
    doc.initialize_style_for_subtree(0);
    assert_eq!(doc.nodes[0].layout_data.data, Some(LayoutData::new()));
    assert_eq!(doc.nodes[3].layout_data.data, Some(LayoutData::new()));
}

#[test]
fn background_is_the_first_opaque_one_of_html_and_body() {
    let red = Color::rgba(255, 0, 0, 255);
    let blue = Color::rgba(0, 0, 255, 255);
    let with_bg = |display: Display, bg: Color| ComputedStyle { background_color: bg, ..style(display) };
    let make = |html: Color, body: Color, other: Color| Document {
        nodes: vec![
            element(ElementTypeId::HTMLHtmlElementTypeId, vec![1], Some(with_bg(Display::Block, html))),
            element(ElementTypeId::HTMLBodyElementTypeId, vec![2], Some(with_bg(Display::Block, body))),
            element(ElementTypeId::HTMLElementTypeId, vec![], Some(with_bg(Display::Block, other))),
        ],
    };
    // body transparent, html opaque red: red.
    assert_eq!(make(red, Color::transparent(), blue).background_color(0), red);
    // html transparent, body opaque red: the scan goes on past html.
    assert_eq!(make(Color::transparent(), red, blue).background_color(0), red);
    // both opaque: the first in document order wins.
    assert_eq!(make(blue, red, red).background_color(0), blue);
    // both transparent: opaque white, whatever other elements have.
    assert_eq!(make(Color::transparent(), Color::transparent(), blue).background_color(0), Color::white());
    assert_eq!(Color::white(), Color::rgba(255, 255, 255, 255));
    // a colour without opacity is transparent, whatever its other channels.
    assert_eq!(make(Color::rgba(255, 0, 0, 0), blue, red).background_color(0), blue);
    assert!(Color::rgba(255, 0, 0, 0).is_transparent());
    assert!(!red.is_transparent());
    // only what hangs from the root given is looked at.
    assert_eq!(make(red, Color::transparent(), blue).background_color(1), Color::white());
    assert_eq!(make(red, blue, blue).background_color(1), blue);
}

#[test]
fn background_skips_elements_without_style() {
    let red = Color::rgba(255, 0, 0, 255);
    let doc = Document {
        nodes: vec![
            element(ElementTypeId::HTMLHtmlElementTypeId, vec![1], None),
            element(
                ElementTypeId::HTMLBodyElementTypeId,
                vec![],
                Some(ComputedStyle { background_color: red, ..style(Display::Block) }),
            ),
        ],
    };
    assert_eq!(doc.background_color(0), red);
}
