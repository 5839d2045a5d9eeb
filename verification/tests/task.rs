use reflow::color::Color;
use reflow::display_list::DisplayItem;
use reflow::dom::{Document, ElementTypeId, LayoutData, LayoutDataRef, Node, NodeTypeId};
use reflow::geometry::{Au, Point2D, Rect, Size2D};
use reflow::incremental::RestyleDamage;
use reflow::query::{ContentBoxResponse, ContentBoxesResponse, HitTestResponse, LayoutQuery, LayoutResponse};
use reflow::solve::LayoutContext;
use reflow::style::{ComputedStyle, Display};
use reflow::task::{
    Action, DocumentDamage, DocumentDamageLevel, Event, LayoutImageResponder, LayoutTask, Msg,
    PendingReflow, PipelineId, PixelSize, Reflow, ReflowGoal, ReflowResult, ScriptMsg, Stylesheet,
    TaskState, WindowSize,
};

fn rect(x: i32, y: i32, w: i32, h: i32) -> Rect {
    Rect::new(Point2D::new(Au(x), Au(y)), Size2D::new(Au(w), Au(h)))
}

const RED: Color = Color { r: 255, g: 0, b: 0, a: 255 };
const BLUE: Color = Color { r: 0, g: 0, b: 255, a: 255 };

fn bare(kind: ElementTypeId, children: Vec<usize>) -> Node {
    Node {
        type_id: NodeTypeId::ElementNodeTypeId(kind),
        children,
        layout_data: LayoutDataRef::new(),
    }
}

/// html(0) > body(1) > [a(2), b(3)], without any layout data yet.
fn page() -> Document {
    Document {
        nodes: vec![
            bare(ElementTypeId::HTMLHtmlElementTypeId, vec![1]),
            bare(ElementTypeId::HTMLBodyElementTypeId, vec![2, 3]),
            bare(ElementTypeId::HTMLElementTypeId, vec![]),
            bare(ElementTypeId::HTMLElementTypeId, vec![]),
        ],
    }
}

fn style_of(node: usize, a_height: i32) -> ComputedStyle {
    let plain = ComputedStyle::initial();
    match node {
        1 => ComputedStyle { border_width: Au(60), background_color: RED, ..plain },
        2 => ComputedStyle {
            content_min_width: Au(600),
            content_pref_width: Au(5000),
            line_height: Au(a_height),
            background_color: BLUE,
            ..plain
        },
        _ => plain,
    }
}

fn reflow(level: DocumentDamageLevel, goal: ReflowGoal, width: i32, height: i32, id: usize) -> Reflow {
    Reflow {
        document_root: 0,
        damage: DocumentDamage { root: 0, level },
        goal,
        window_size: WindowSize { width, height },
        id,
    }
}

/// Stands in for the cascade: styles every node below `root`.
struct Cascade {
    calls: usize,
    a_height: i32,
}

impl Cascade {
    fn run(&mut self, doc: &mut Document, root: usize) {
        self.calls += 1;
        assert_eq!(root, 0);
        for node in 0..doc.len() {
            doc.set_style(node, style_of(node, self.a_height), RestyleDamage::none());
        }
    }
}

/// Drives the task as its owner would: hands it the message and carries
/// out what it answers with. Returns what left the task.
fn deliver(task: &mut LayoutTask, doc: &mut Document, cascade: &mut Cascade, msg: Msg) -> Vec<Action> {
    assert!(task.accepts(doc, &msg));
    let mut sent = Vec::new();
    for action in task.handle_request(doc, msg) {
        match action {
            Action::MatchSelectors(root) => cascade.run(doc, root),
            Action::Layout => {
                assert!(task.ready_for_layout(doc));
                let result = task.handle_reflow(doc);
                sent.extend(result.actions);
            }
            other => sent.push(other),
        }
    }
    sent
}

/// Begins a layout run, styles the document and does the run.
fn lay_out(task: &mut LayoutTask, doc: &mut Document, data: Reflow, hidden: Option<usize>) -> ReflowResult {
    let plan = task.begin_reflow(doc, &data);
    assert_eq!(plan.responder, LayoutImageResponder { id: task.id });
    assert_eq!(task.pending, Some(PendingReflow { data, all_style_damage: plan.all_style_damage }));
    for node in 0..doc.len() {
        let mut s = style_of(node, 1200);
        if hidden == Some(node) {
            s.display = Display::Hidden;
        }
        doc.set_style(node, s, RestyleDamage::none());
    }
    assert!(task.ready_for_layout(doc));
    let result = task.handle_reflow(doc);
    assert_eq!(task.pending, None);
    result
}

fn content_changed(id: usize) -> Msg {
    Msg::ReflowMsg(reflow(
        DocumentDamageLevel::ContentChangedDocumentDamage,
        ReflowGoal::ReflowForDisplay,
        100,
        80,
        id,
    ))
}

#[test]
fn a_new_task_is_running_and_has_nothing() {
    let task = LayoutTask::new(PipelineId(3));
    assert_eq!(task.id, PipelineId(3));
    assert_eq!(task.screen_size, None);
    assert_eq!(task.display_list, None);
    assert_eq!(task.stylist.author_stylesheets, vec![]);
    assert_eq!(task.state, TaskState::Running);
}

#[test]
fn stylesheets_are_kept_in_the_order_they_arrive() {
    let mut task = LayoutTask::new(PipelineId(0));
    let mut doc = page();
    let mut cascade = Cascade { calls: 0, a_height: 1200 };
    assert_eq!(deliver(&mut task, &mut doc, &mut cascade, Msg::AddStylesheetMsg(Stylesheet(7))), vec![]);
    assert_eq!(deliver(&mut task, &mut doc, &mut cascade, Msg::AddStylesheetMsg(Stylesheet(5))), vec![]);
    assert_eq!(task.stylist.author_stylesheets, vec![Stylesheet(7), Stylesheet(5)]);
    assert_eq!(doc, page());
}

#[test]
fn a_reflow_request_is_answered_with_the_steps_to_take() {
    let mut task = LayoutTask::new(PipelineId(9));
    let mut doc = page();
    let data = reflow(DocumentDamageLevel::MatchSelectorsDocumentDamage, ReflowGoal::ReflowForDisplay, 100, 80, 4);
    let actions = task.handle_request(&mut doc, Msg::ReflowMsg(data));
    assert_eq!(
        actions,
        vec![
            Action::ResetImageCache(LayoutImageResponder { id: PipelineId(9) }),
            Action::MatchSelectors(0),
            Action::Layout,
        ]
    );
    assert_eq!(task.pending, Some(PendingReflow { data, all_style_damage: true }));
    assert_eq!(task.screen_size, Some(Size2D::new(Au(6000), Au(4800))));
    // every node has layout data now
    for node in doc.nodes.iter() {
        assert_eq!(node.layout_data.data, Some(LayoutData::new()));
    }
}

#[test]
fn nothing_is_taken_while_a_layout_run_is_begun() {
    let mut task = LayoutTask::new(PipelineId(9));
    let mut doc = page();
    let data = reflow(DocumentDamageLevel::ReflowDocumentDamage, ReflowGoal::ReflowForDisplay, 100, 80, 4);
    task.handle_request(&mut doc, Msg::ReflowMsg(data));
    assert!(!task.accepts(&doc, &Msg::ReflowMsg(data)));
    assert!(!task.accepts(&doc, &Msg::AddStylesheetMsg(Stylesheet(1))));
    assert!(!task.accepts(&doc, &Msg::ReapLayoutDataMsg(LayoutDataRef::new())));
    assert!(!task.accepts(&doc, &Msg::PrepareToExitMsg));
    assert!(!task.accepts(&doc, &Msg::ExitNowMsg));
    // Without styles the root gets no box, so there is nothing to lay out.
    assert!(!task.ready_for_layout(&doc));
    for node in 0..doc.len() {
        doc.set_style(node, style_of(node, 1200), RestyleDamage::none());
    }
    assert!(task.ready_for_layout(&doc));
    task.handle_reflow(&doc);
    assert!(!task.ready_for_layout(&doc));
    assert!(task.accepts(&doc, &Msg::ReflowMsg(data)));
    assert!(task.accepts(&doc, &Msg::ExitNowMsg));
}

#[test]
fn full_damage_is_forced_by_new_content_or_a_new_viewport() {
    let mut task = LayoutTask::new(PipelineId(0));
    let mut doc = page();
    let level = DocumentDamageLevel::MatchSelectorsDocumentDamage;
    let changed = DocumentDamageLevel::ContentChangedDocumentDamage;
    let goal = ReflowGoal::ReflowForScriptQuery;
    let mut forced = |data: Reflow| {
        let plan = task.begin_reflow(&mut doc, &data);
        for node in 0..doc.len() {
            doc.set_style(node, style_of(node, 1200), RestyleDamage::none());
        }
        let result = task.handle_reflow(&doc);
        let all = result.layout_root.flows.iter().all(|f| f.restyle_damage == RestyleDamage::all());
        let none = result.layout_root.flows.iter().all(|f| f.restyle_damage == RestyleDamage::none());
        assert!(all == plan.all_style_damage && none != plan.all_style_damage);
        plan.all_style_damage
    };
    // the first run has no viewport to compare with
    assert!(forced(reflow(level, goal, 100, 80, 0)));
    // same viewport, content unchanged
    assert!(!forced(reflow(level, goal, 100, 80, 1)));
    // same viewport, content changed
    assert!(forced(reflow(changed, goal, 100, 80, 2)));
    // the window was resized
    assert!(forced(reflow(level, goal, 100, 81, 3)));
    assert!(!forced(reflow(level, goal, 100, 81, 4)));
    assert!(forced(reflow(level, goal, 99, 81, 5)));
    assert_eq!(task.screen_size, Some(Size2D::new(Au(5940), Au(4860))));
    assert_eq!(
        task.build_layout_context(),
        LayoutContext { screen_size: rect(0, 0, 5940, 4860) }
    );
}

#[test]
fn a_pure_reflow_skips_selector_matching() {
    let mut task = LayoutTask::new(PipelineId(0));
    let mut doc = page();
    let mut cascade = Cascade { calls: 0, a_height: 1200 };
    deliver(&mut task, &mut doc, &mut cascade, content_changed(0));
    assert_eq!(cascade.calls, 1);
    // Same viewport, nothing but geometry damaged: the cascade is not run.
    let pure = reflow(DocumentDamageLevel::ReflowDocumentDamage, ReflowGoal::ReflowForDisplay, 100, 80, 1);
    let sent = deliver(&mut task, &mut doc, &mut cascade, Msg::ReflowMsg(pure));
    assert_eq!(cascade.calls, 1);
    assert_eq!(sent.len(), 4);
    let actions = task.handle_request(&mut doc, Msg::ReflowMsg(pure));
    assert_eq!(
        actions,
        vec![Action::ResetImageCache(LayoutImageResponder { id: PipelineId(0) }), Action::Layout]
    );
    assert_eq!(task.pending, Some(PendingReflow { data: pure, all_style_damage: false }));
    task.handle_reflow(&doc);
    // A resized viewport does not bring the cascade back either.
    let resized = reflow(DocumentDamageLevel::ReflowDocumentDamage, ReflowGoal::ReflowForDisplay, 10, 80, 2);
    deliver(&mut task, &mut doc, &mut cascade, Msg::ReflowMsg(resized));
    assert_eq!(cascade.calls, 1);
    // Any other level does.
    let matching =
        reflow(DocumentDamageLevel::MatchSelectorsDocumentDamage, ReflowGoal::ReflowForDisplay, 10, 80, 3);
    deliver(&mut task, &mut doc, &mut cascade, Msg::ReflowMsg(matching));
    assert_eq!(cascade.calls, 2);
}

#[test]
fn a_reflow_for_display_renders_then_joins_then_completes() {
    let mut task = LayoutTask::new(PipelineId(2));
    let mut doc = page();
    let mut cascade = Cascade { calls: 0, a_height: 1200 };
    let sent = deliver(&mut task, &mut doc, &mut cascade, content_changed(17));
    assert_eq!(sent.len(), 4);
    assert_eq!(sent[0], Action::ResetImageCache(LayoutImageResponder { id: PipelineId(2) }));
    match &sent[1] {
        Action::Render(layer) => {
            assert_eq!(layer.size, PixelSize { width: 100, height: 80 });
            assert_eq!(layer.color, RED);
            assert_eq!(Some(&layer.display_list), task.display_list.as_ref());
            assert_eq!(layer.display_list.list.len(), 1);
        }
        other => panic!("expected a layer to render, got {:?}", other),
    }
    assert_eq!(sent[2], Action::SignalJoin);
    assert_eq!(sent[3], Action::ReflowComplete(PipelineId(2), 17));
}

#[test]
fn a_reflow_for_a_query_joins_and_completes_without_rendering() {
    let mut task = LayoutTask::new(PipelineId(2));
    let mut doc = page();
    let mut cascade = Cascade { calls: 0, a_height: 1200 };
    let msg = Msg::ReflowMsg(reflow(
        DocumentDamageLevel::ContentChangedDocumentDamage,
        ReflowGoal::ReflowForScriptQuery,
        100,
        80,
        5,
    ));
    let sent = deliver(&mut task, &mut doc, &mut cascade, msg);
    assert_eq!(
        sent,
        vec![
            Action::ResetImageCache(LayoutImageResponder { id: PipelineId(2) }),
            Action::SignalJoin,
            Action::ReflowComplete(PipelineId(2), 5),
        ]
    );
    assert_eq!(task.display_list, None);
}

#[test]
fn the_solved_tree_comes_back_with_the_actions() {
    let mut task = LayoutTask::new(PipelineId(2));
    let mut doc = page();
    let data = reflow(DocumentDamageLevel::ContentChangedDocumentDamage, ReflowGoal::ReflowForDisplay, 100, 80, 0);
    let result = lay_out(&mut task, &mut doc, data, None);
    let positions: Vec<Rect> = result.layout_root.flows.iter().map(|f| f.position).collect();
    assert_eq!(
        positions,
        vec![
            rect(60, 60, 5880, 1200),
            rect(60, 1260, 5880, 0),
            rect(0, 0, 6000, 1320),
            rect(0, 0, 6000, 4800),
        ]
    );
    for flow in result.layout_root.flows.iter() {
        assert_eq!(flow.restyle_damage, RestyleDamage::all());
    }
    assert_eq!(result.actions.len(), 3);
}

#[test]
fn queries_are_answered_from_the_last_display_list() {
    let mut task = LayoutTask::new(PipelineId(0));
    let mut doc = page();
    let mut cascade = Cascade { calls: 0, a_height: 1200 };
    let ask = |task: &mut LayoutTask, doc: &mut Document, cascade: &mut Cascade, query: LayoutQuery| {
        let mut sent = deliver(task, doc, cascade, Msg::QueryMsg(query));
        assert_eq!(sent.len(), 1);
        match sent.pop() {
            Some(Action::Reply(response)) => response,
            other => panic!("expected a reply, got {:?}", other),
        }
    };

    deliver(&mut task, &mut doc, &mut cascade, content_changed(0));
    assert_eq!(
        ask(&mut task, &mut doc, &mut cascade, LayoutQuery::ContentBoxQuery(2)),
        LayoutResponse::ContentBox(ContentBoxResponse(rect(60, 60, 5880, 1200)))
    );
    assert_eq!(
        ask(&mut task, &mut doc, &mut cascade, LayoutQuery::ContentBoxesQuery(1)),
        LayoutResponse::ContentBoxes(ContentBoxesResponse(vec![
            rect(0, 0, 6000, 1320),
            rect(0, 0, 6000, 1320),
            rect(0, 0, 6000, 1320),
        ]))
    );
    let at = |x: i32, y: i32| LayoutQuery::HitTestQuery(0, Point2D::new(Au(x), Au(y)));
    assert_eq!(
        ask(&mut task, &mut doc, &mut cascade, at(100, 100)),
        LayoutResponse::HitTest(Ok(HitTestResponse(2)))
    );
    assert_eq!(
        ask(&mut task, &mut doc, &mut cascade, at(10, 10)),
        LayoutResponse::HitTest(Ok(HitTestResponse(1)))
    );
    assert_eq!(ask(&mut task, &mut doc, &mut cascade, at(100, 4000)), LayoutResponse::HitTest(Err(())));

    // The page is laid out again with taller lines: queries see the new
    // list and nothing of the old one.
    cascade.a_height = 2400;
    deliver(&mut task, &mut doc, &mut cascade, content_changed(1));
    assert_eq!(
        ask(&mut task, &mut doc, &mut cascade, LayoutQuery::ContentBoxQuery(2)),
        LayoutResponse::ContentBox(ContentBoxResponse(rect(60, 60, 5880, 2400)))
    );
    assert_eq!(
        ask(&mut task, &mut doc, &mut cascade, at(100, 2000)),
        LayoutResponse::HitTest(Ok(HitTestResponse(2)))
    );
}

#[test]
fn each_display_reflow_builds_a_fresh_display_list() {
    let mut task = LayoutTask::new(PipelineId(0));
    let mut doc = page();
    let mut cascade = Cascade { calls: 0, a_height: 1200 };
    let first = deliver(&mut task, &mut doc, &mut cascade, content_changed(0));
    let kept_first = task.display_list.as_ref().map(|l| l.duplicate());
    cascade.a_height = 2400;
    let second = deliver(&mut task, &mut doc, &mut cascade, content_changed(1));
    let layer = |sent: &Vec<Action>| match &sent[1] {
        Action::Render(layer) => layer.display_list.duplicate(),
        other => panic!("expected a layer to render, got {:?}", other),
    };
    assert_eq!(Some(layer(&first)), kept_first);
    assert_eq!(Some(layer(&second)), task.display_list);
    assert_ne!(layer(&first), layer(&second));
    // A reflow that does not paint leaves the list that is kept alone.
    cascade.a_height = 3600;
    let geometry = Msg::ReflowMsg(reflow(
        DocumentDamageLevel::ContentChangedDocumentDamage,
        ReflowGoal::ReflowForScriptQuery,
        100,
        80,
        2,
    ));
    deliver(&mut task, &mut doc, &mut cascade, geometry);
    assert_eq!(Some(layer(&second)), task.display_list);
}

#[test]
fn a_hit_test_before_any_display_list_fails() {
    let mut task = LayoutTask::new(PipelineId(0));
    let mut doc = page();
    let query = LayoutQuery::HitTestQuery(0, Point2D::new(Au(5), Au(5)));
    assert!(task.accepts(&doc, &Msg::QueryMsg(query)));
    assert_eq!(task.handle_query(query), LayoutResponse::HitTest(Err(())));
    assert_eq!(
        task.handle_request(&mut doc, Msg::QueryMsg(query)),
        vec![Action::Reply(LayoutResponse::HitTest(Err(())))]
    );
    // A query for boxes has nothing to be answered from.
    assert!(!task.accepts(&doc, &Msg::QueryMsg(LayoutQuery::ContentBoxQuery(0))));
    assert!(!task.accepts(&doc, &Msg::QueryMsg(LayoutQuery::ContentBoxesQuery(0))));
}

#[test]
fn a_reflow_is_taken_only_for_a_node_of_a_document_in_order() {
    let task = LayoutTask::new(PipelineId(0));
    let doc = page();
    let mut data = reflow(DocumentDamageLevel::ReflowDocumentDamage, ReflowGoal::ReflowForDisplay, 1, 1, 0);
    assert!(task.accepts(&doc, &Msg::ReflowMsg(data)));
    data.document_root = 4;
    assert!(!task.accepts(&doc, &Msg::ReflowMsg(data)));
    data.document_root = 0;
    let backwards = Document {
        nodes: vec![
            bare(ElementTypeId::HTMLHtmlElementTypeId, vec![]),
            bare(ElementTypeId::HTMLBodyElementTypeId, vec![0]),
        ],
    };
    assert!(!task.accepts(&backwards, &Msg::ReflowMsg(data)));
}

#[test]
fn reaping_destroys_the_layout_data() {
    let mut task = LayoutTask::new(PipelineId(0));
    let mut doc = page();
    let data = LayoutDataRef { data: Some(LayoutData::new()) };
    let mut dead = data;
    task.handle_reap_layout_data(&mut dead);
    assert_eq!(dead.data, None);
    assert_eq!(task.handle_request(&mut doc, Msg::ReapLayoutDataMsg(data)), vec![]);
    assert_eq!(task.state, TaskState::Running);
    assert_eq!(doc, page());
}

#[test]
fn shutdown_drains_and_then_terminates() {
    let mut task = LayoutTask::new(PipelineId(0));
    let mut doc = page();
    assert_eq!(task.handle_request(&mut doc, Msg::PrepareToExitMsg), vec![Action::Acknowledge]);
    assert_eq!(task.state, TaskState::Draining);

    // While draining, nothing is taken but reaping and the request to exit.
    let data = reflow(DocumentDamageLevel::ReflowDocumentDamage, ReflowGoal::ReflowForDisplay, 1, 1, 0);
    let query = LayoutQuery::HitTestQuery(0, Point2D::new(Au(5), Au(5)));
    assert!(!task.accepts(&doc, &Msg::AddStylesheetMsg(Stylesheet(1))));
    assert!(!task.accepts(&doc, &Msg::ReflowMsg(data)));
    assert!(!task.accepts(&doc, &Msg::QueryMsg(query)));
    assert!(!task.accepts(&doc, &Msg::PrepareToExitMsg));
    assert!(task.accepts(&doc, &Msg::ReapLayoutDataMsg(LayoutDataRef::new())));
    assert!(task.accepts(&doc, &Msg::ExitNowMsg));

    assert_eq!(task.handle_request(&mut doc, Msg::ReapLayoutDataMsg(LayoutDataRef::new())), vec![]);
    assert_eq!(task.state, TaskState::Draining);
    assert_eq!(task.handle_request(&mut doc, Msg::ExitNowMsg), vec![Action::ExitRender]);
    assert_eq!(task.state, TaskState::Terminated);

    // Once it has exited the task takes nothing at all.
    assert!(!task.accepts(&doc, &Msg::ReapLayoutDataMsg(LayoutDataRef::new())));
    assert!(!task.accepts(&doc, &Msg::ExitNowMsg));
}

#[test]
fn a_running_task_can_exit_at_once() {
    let mut task = LayoutTask::new(PipelineId(0));
    let mut doc = page();
    assert!(task.accepts(&doc, &Msg::ExitNowMsg));
    assert_eq!(task.handle_request(&mut doc, Msg::ExitNowMsg), vec![Action::ExitRender]);
    assert_eq!(task.state, TaskState::Terminated);
    let mut other = LayoutTask::new(PipelineId(1));
    assert_eq!(other.prepare_to_exit(), Action::Acknowledge);
    assert_eq!(other.exit_now(), Action::ExitRender);
    assert_eq!(other.state, TaskState::Terminated);
}

#[test]
fn the_image_responder_posts_a_reflow_event_to_script() {
    let task = LayoutTask::new(PipelineId(11));
    let responder = task.make_on_image_available_cb();
    assert_eq!(responder, LayoutImageResponder { id: PipelineId(11) });
    assert_eq!(responder.respond(), ScriptMsg::SendEventMsg(PipelineId(11), Event::ReflowEvent));
}

#[test]
fn hidden_nodes_are_not_painted() {
    let mut task = LayoutTask::new(PipelineId(0));
    let mut doc = page();
    let data = reflow(DocumentDamageLevel::ContentChangedDocumentDamage, ReflowGoal::ReflowForDisplay, 100, 80, 0);
    let result = lay_out(&mut task, &mut doc, data, Some(2));
    assert_eq!(result.layout_root.flows.len(), 3);
    assert_eq!(
        task.handle_query(LayoutQuery::ContentBoxQuery(2)),
        LayoutResponse::ContentBox(ContentBoxResponse(Rect::zero()))
    );
    match &task.display_list.as_ref().unwrap().list[0] {
        DisplayItem::Clip(base, kids, clip) => {
            assert_eq!(base.extra, 0);
            assert_eq!(kids.len(), 3);
            assert!(!*clip);
        }
        other => panic!("expected a clip item, got {:?}", other),
    }
}

#[test]
fn a_hidden_root_leaves_nothing_to_lay_out() {
    let mut task = LayoutTask::new(PipelineId(0));
    let mut doc = page();
    let data = reflow(DocumentDamageLevel::ContentChangedDocumentDamage, ReflowGoal::ReflowForDisplay, 100, 80, 0);
    task.begin_reflow(&mut doc, &data);
    for node in 0..doc.len() {
        let mut s = style_of(node, 1200);
        if node == 0 {
            s.display = Display::Hidden;
        }
        doc.set_style(node, s, RestyleDamage::none());
    }
    assert!(!task.ready_for_layout(&doc));
}
