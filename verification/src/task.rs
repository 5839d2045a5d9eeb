//! The layout task: the one owner of layout's state for a pipeline.
//!
//! The task does no input or output of its own. Whoever runs it hands it one
//! message at a time, together with the document, and carries out the
//! actions it answers with, in their order, before handing in the next
//! message. A layout run takes two steps, because the cascade is somebody
//! else's work: the task first says whether styles have to be matched, and
//! lays the document out once that was done.

use vstd::prelude::*;
use crate::color::Color;
use crate::construct::{
    construct_flow_tree, initial_flows, links_of_document, participates, produces_flow,
};
use crate::damage::{
    lemma_damage_only_grows, lemma_forced_damage_is_all, ComputeDamageTraversal,
    PropagateDamageTraversal,
};
use crate::display_list::{DisplayList, ItemModel};
use crate::display_list_builder::{flow_items, DisplayListBuilder};
use crate::dom::{background_color_spec, initialized_from, Document, LayoutDataRef};
use crate::flow::{links_wf, Flow, FlowLinks, FlowTree};
use crate::incremental::{lemma_includes, RestyleDamage};
use crate::geometry::{nearest_px, wrap, Au, Point2D, Rect, Size2D};
use crate::query::{answer, answer_spec, LayoutAnswer, LayoutQuery, LayoutResponse};
use crate::solve::{lemma_solve_keeps_boxes, solve_constraints, solve_spec, LayoutContext};
use crate::traversal::{lemma_post_frame, lemma_pre_frame, post_spec, pre_spec};

verus! {

/// Names the pipeline that a layout task belongs to.
#[derive(Clone, Copy, Debug, PartialEq, Eq, Structural)]
pub struct PipelineId(pub usize);

/// A parsed stylesheet, by the handle under which the cascade knows it.
#[derive(Clone, Copy, Debug, PartialEq, Eq, Structural)]
pub struct Stylesheet(pub u64);

/// The rule set of the cascade: the author's stylesheets, in the order in
/// which they were added.
#[derive(Debug, PartialEq, Eq)]
pub struct Stylist {
    pub author_stylesheets: Vec<Stylesheet>,
}

/// How much of a document changed.
#[derive(Clone, Copy, Debug, PartialEq, Eq, Structural)]
pub enum DocumentDamageLevel {
    /// Nothing but geometry: styles stand as they are.
    ReflowDocumentDamage,
    /// Styles may match differently.
    MatchSelectorsDocumentDamage,
    /// Content changed.
    ContentChangedDocumentDamage,
}

#[derive(Clone, Copy, Debug, PartialEq, Eq, Structural)]
pub struct DocumentDamage {
    /// The node from which the change reaches down.
    pub root: usize,
    pub level: DocumentDamageLevel,
}

/// What a layout run is for.
#[derive(Clone, Copy, Debug, PartialEq, Eq, Structural)]
pub enum ReflowGoal {
    /// The page is to be painted.
    ReflowForDisplay,
    /// Only geometry is asked for.
    ReflowForScriptQuery,
}

/// The size of the window, in whole pixels.
#[derive(Clone, Copy, Debug, PartialEq, Eq, Structural)]
pub struct WindowSize {
    pub width: i32,
    pub height: i32,
}

/// The size of a painted layer, in whole pixels.
#[derive(Clone, Copy, Debug, PartialEq, Eq, Structural)]
pub struct PixelSize {
    pub width: i32,
    pub height: i32,
}

/// A request to lay a document out.
#[derive(Clone, Copy, Debug, PartialEq, Eq, Structural)]
pub struct Reflow {
    /// The node from which everything to lay out hangs.
    pub document_root: usize,
    pub damage: DocumentDamage,
    pub goal: ReflowGoal,
    pub window_size: WindowSize,
    /// The number of this request, handed back when it is done.
    pub id: usize,
}

/// What happened to a document, as script is told.
#[derive(Clone, Copy, Debug, PartialEq, Eq, Structural)]
pub enum Event {
    /// The document should be laid out again.
    ReflowEvent,
}

/// A message to script.
#[derive(Clone, Copy, Debug, PartialEq, Eq, Structural)]
pub enum ScriptMsg {
    SendEventMsg(PipelineId, Event),
    /// The layout request with this number is done.
    ReflowCompleteMsg(PipelineId, usize),
}

/// What the image cache calls on when an image has arrived: a record of
/// where to send word, with no state of the task in it.
#[derive(Clone, Copy, Debug, PartialEq, Eq, Structural)]
pub struct LayoutImageResponder {
    pub id: PipelineId,
}

/// What is handed to the renderer: what to paint, how large, and on what
/// colour.
#[derive(Debug, PartialEq, Eq)]
pub struct RenderLayer {
    pub display_list: DisplayList,
    pub size: PixelSize,
    pub color: Color,
}

/// A `RenderLayer` as a mathematical value.
pub struct RenderLayerModel {
    pub display_list: Seq<ItemModel>,
    pub size: PixelSize,
    pub color: Color,
}

/// A message to the layout task.
#[derive(Debug, PartialEq, Eq)]
pub enum Msg {
    AddStylesheetMsg(Stylesheet),
    ReflowMsg(Reflow),
    QueryMsg(LayoutQuery),
    /// Destroy the layout data of a node that is gone.
    ReapLayoutDataMsg(LayoutDataRef),
    /// Get ready to exit: from now on only layout data is destroyed.
    PrepareToExitMsg,
    ExitNowMsg,
}

/// What the layout task asks of whoever runs it.
#[derive(Debug, PartialEq, Eq)]
pub enum Action {
    /// Start a new round of the image cache, with this responder.
    ResetImageCache(LayoutImageResponder),
    /// Match selectors and run the cascade for everything that hangs from
    /// this node, and record the styles on the nodes.
    MatchSelectors(usize),
    /// Call `handle_reflow`, now that the actions before this one are done.
    Layout,
    /// Send this layer to the renderer.
    Render(RenderLayer),
    /// Tell the sender of the request that layout may be queried now.
    SignalJoin,
    /// Tell script that the request with this number is done.
    ReflowComplete(PipelineId, usize),
    /// Answer the query.
    Reply(LayoutResponse),
    /// Answer the request to get ready to exit.
    Acknowledge,
    /// Tell the renderer to exit, and wait until it has.
    ExitRender,
}

/// An `Action` as a mathematical value.
pub enum ActionModel {
    ResetImageCache(LayoutImageResponder),
    MatchSelectors(usize),
    Layout,
    Render(RenderLayerModel),
    SignalJoin,
    ReflowComplete(PipelineId, usize),
    Reply(LayoutAnswer),
    Acknowledge,
    ExitRender,
}

/// Where the task stands between start and exit.
#[derive(Clone, Copy, Debug, PartialEq, Eq, Structural)]
pub enum TaskState {
    Running,
    /// Asked to get ready to exit: only layout data is destroyed.
    Draining,
    Terminated,
}

/// What the first step of a layout run settles.
#[derive(Clone, Copy, Debug, PartialEq, Eq, Structural)]
pub struct ReflowPlan {
    /// Whether every box is to be damaged in full.
    pub all_style_damage: bool,
    /// Whether selectors have to be matched before the document is laid out.
    pub match_selectors: bool,
    pub responder: LayoutImageResponder,
}

/// A layout run between its two steps.
#[derive(Clone, Copy, Debug, PartialEq, Eq, Structural)]
pub struct PendingReflow {
    pub data: Reflow,
    /// Whether every box is to be damaged in full.
    pub all_style_damage: bool,
}

/// What the second step of a layout run gives.
#[derive(Debug, PartialEq, Eq)]
pub struct ReflowResult {
    /// The solved tree of boxes.
    pub layout_root: FlowTree,
    pub actions: Vec<Action>,
}

/// The state of layout for one pipeline.
#[derive(Debug, PartialEq, Eq)]
pub struct LayoutTask {
    pub id: PipelineId,
    /// The size of the viewport at the last layout run.
    pub screen_size: Option<Size2D>,
    /// The display list of the last layout run that painted.
    pub display_list: Option<DisplayList>,
    pub stylist: Stylist,
    pub state: TaskState,
    /// The layout run that was begun and is not yet done, if there is one.
    pub pending: Option<PendingReflow>,
}

impl View for RenderLayer {
    type V = RenderLayerModel;

    open spec fn view(&self) -> RenderLayerModel {
        RenderLayerModel { display_list: self.display_list@, size: self.size, color: self.color }
    }
}

impl View for Action {
    type V = ActionModel;

    open spec fn view(&self) -> ActionModel {
        match self {
            Action::ResetImageCache(responder) => ActionModel::ResetImageCache(*responder),
            Action::MatchSelectors(node) => ActionModel::MatchSelectors(*node),
            Action::Layout => ActionModel::Layout,
            Action::Render(layer) => ActionModel::Render(layer@),
            Action::SignalJoin => ActionModel::SignalJoin,
            Action::ReflowComplete(id, number) => ActionModel::ReflowComplete(*id, *number),
            Action::Reply(response) => ActionModel::Reply(response@),
            Action::Acknowledge => ActionModel::Acknowledge,
            Action::ExitRender => ActionModel::ExitRender,
        }
    }
}

/// The actions of a list as mathematical values, in order.
pub open spec fn action_models(actions: Seq<Action>) -> Seq<ActionModel> {
    Seq::new(actions.len(), |i: int| actions[i]@)
}

/// The viewport for a window of the given size.
pub open spec fn screen_size_of(window: WindowSize) -> Size2D {
    Size2D { width: Au(wrap(window.width * 60)), height: Au(wrap(window.height * 60)) }
}

/// Whether a layout run damages every box in full: the content changed, or
/// the viewport is not what it was at the run before.
pub open spec fn needs_full_damage(screen_size: Option<Size2D>, data: Reflow) -> bool {
    data.damage.level == DocumentDamageLevel::ContentChangedDocumentDamage || screen_size != Some(
        screen_size_of(data.window_size),
    )
}

/// Whether selectors are matched for a layout run: always, unless nothing
/// but geometry changed.
pub open spec fn needs_selector_matching(data: Reflow) -> bool {
    data.damage.level != DocumentDamageLevel::ReflowDocumentDamage
}

/// The boxes after damage was spread: top-down, then bottom-up.
pub open spec fn damage_spec(all_style_damage: bool, links: Seq<FlowLinks>, flows: Seq<Flow>) -> Seq<
    Flow,
> {
    let root = links.len() - 1;
    post_spec(
        &ComputeDamageTraversal,
        links,
        pre_spec(&(PropagateDamageTraversal { all_style_damage }), links, flows, root),
        root,
    )
}

/// The boxes after a layout run: damage spread, then constraints solved.
pub open spec fn laid_out_spec(
    ctx: LayoutContext,
    all_style_damage: bool,
    links: Seq<FlowLinks>,
    flows: Seq<Flow>,
) -> Seq<Flow> {
    solve_spec(ctx, links, damage_spec(all_style_damage, links, flows))
}

/// The layer that is painted for a solved tree of boxes: everything the
/// tree gives within the root box, as large as the root box in whole
/// pixels, on the colour behind the page.
pub open spec fn render_layer_spec(
    nodes: Seq<crate::dom::Node>,
    root: int,
    links: Seq<FlowLinks>,
    solved: Seq<Flow>,
) -> RenderLayerModel {
    let root_flow = solved[links.len() - 1];
    RenderLayerModel {
        display_list: flow_items(
            links,
            solved,
            links.len() - 1,
            Point2D { x: Au(0), y: Au(0) },
            root_flow.position,
        ),
        size: PixelSize {
            width: nearest_px(root_flow.position.size.width.0 as int) as i32,
            height: nearest_px(root_flow.position.size.height.0 as int) as i32,
        },
        color: background_color_spec(nodes, root),
    }
}

impl LayoutImageResponder {
    /// What to send to script when an image has arrived: a request to lay
    /// the document out again.
    pub fn respond(&self) -> (msg: ScriptMsg)
        ensures
            msg == ScriptMsg::SendEventMsg(self.id, Event::ReflowEvent),
    {
        ScriptMsg::SendEventMsg(self.id, Event::ReflowEvent)
    }
}

impl Stylist {
    pub fn new() -> (stylist: Stylist)
        ensures
            stylist.author_stylesheets@.len() == 0,
    {
        Stylist { author_stylesheets: Vec::new() }
    }

    pub fn add_stylesheet(&mut self, sheet: Stylesheet)
        ensures
            final(self).author_stylesheets@ == old(self).author_stylesheets@.push(sheet),
    {
        self.author_stylesheets.push(sheet);
    }
}

impl LayoutTask {
    /// The viewport that the layout context is built with.
    pub open spec fn context_spec(self) -> LayoutContext {
        LayoutContext {
            screen_size: Rect {
                origin: Point2D { x: Au(0), y: Au(0) },
                size: self.screen_size.unwrap(),
            },
        }
    }

    /// Whether the task takes `msg` in the state it is in. It takes nothing
    /// while a layout run is begun and not done. While running it takes
    /// every message, but a request to lay out a document only for a node of
    /// a document in document order, and a query for boxes only once
    /// something was painted. Once asked to get ready to exit it takes
    /// nothing but requests to destroy layout data and the request to exit.
    /// Once it has exited it takes nothing.
    pub open spec fn can_handle(self, doc: Document, msg: Msg) -> bool {
        &&& self.pending is None
        &&& match self.state {
            TaskState::Running => match msg {
                Msg::ReflowMsg(data) => doc.wf() && doc.has_node(data.document_root),
                Msg::QueryMsg(query) => query is HitTestQuery || self.display_list is Some,
                _ => true,
            },
            TaskState::Draining => msg is ReapLayoutDataMsg || msg is ExitNowMsg,
            TaskState::Terminated => false,
        }
    }

    /// Whether the task is as it was but for the state it is in.
    pub open spec fn same_but_state(self, before: LayoutTask) -> bool {
        &&& self.id == before.id
        &&& self.screen_size == before.screen_size
        &&& self.display_list == before.display_list
        &&& self.stylist == before.stylist
        &&& self.pending == before.pending
    }

    /// A task for pipeline `id`: running, with an empty rule set, and with
    /// nothing laid out or painted yet.
    pub fn new(id: PipelineId) -> (task: LayoutTask)
        ensures
            task.id == id,
            task.screen_size is None,
            task.display_list is None,
            task.stylist.author_stylesheets@.len() == 0,
            task.state == TaskState::Running,
            task.pending is None,
    {
        LayoutTask {
            id,
            screen_size: None,
            display_list: None,
            stylist: Stylist::new(),
            state: TaskState::Running,
            pending: None,
        }
    }

    /// The context for a layout run, with the viewport at the origin.
    pub fn build_layout_context(&self) -> (ctx: LayoutContext)
        requires
            self.screen_size is Some,
        ensures
            ctx == self.context_spec(),
    {
        let screen_size = self.screen_size.unwrap();
        LayoutContext { screen_size: Rect::new(Point2D::zero(), screen_size) }
    }

    /// Says whether the task takes `msg` in the state it is in.
    pub fn accepts(&self, doc: &Document, msg: &Msg) -> (b: bool)
        ensures
            b == self.can_handle(*doc, *msg),
    {
        if self.pending.is_some() {
            return false;
        }
        match self.state {
            TaskState::Running => match msg {
                Msg::ReflowMsg(data) => data.document_root < doc.len() && doc.is_wf(),
                Msg::QueryMsg(query) => match query {
                    LayoutQuery::HitTestQuery(_, _) => true,
                    _ => self.display_list.is_some(),
                },
                _ => true,
            },
            TaskState::Draining => match msg {
                Msg::ReapLayoutDataMsg(_) => true,
                Msg::ExitNowMsg => true,
                _ => false,
            },
            TaskState::Terminated => false,
        }
    }

    /// Takes one message and says what is to be done about it. A request to
    /// lay out the document is only begun: the layout run is done by
    /// `handle_reflow`, which the last action asks for.
    pub fn handle_request(&mut self, doc: &mut Document, msg: Msg) -> (actions: Vec<Action>)
        requires
            old(self).can_handle(*old(doc), msg),
        ensures
            final(self).id == old(self).id,
            match msg {
                Msg::AddStylesheetMsg(sheet) => {
                    &&& actions@.len() == 0
                    &&& final(self).stylist.author_stylesheets@ == old(
                        self,
                    ).stylist.author_stylesheets@.push(sheet)
                    &&& final(self).screen_size == old(self).screen_size
                    &&& final(self).display_list == old(self).display_list
                    &&& final(self).state == old(self).state
                    &&& final(self).pending is None
                    &&& *final(doc) == *old(doc)
                },
                Msg::ReflowMsg(data) => {
                    &&& action_models(actions@) == (if needs_selector_matching(data) {
                        seq![
                            ActionModel::ResetImageCache(LayoutImageResponder { id: old(self).id }),
                            ActionModel::MatchSelectors(data.document_root),
                            ActionModel::Layout,
                        ]
                    } else {
                        seq![
                            ActionModel::ResetImageCache(LayoutImageResponder { id: old(self).id }),
                            ActionModel::Layout,
                        ]
                    })
                    &&& final(self).pending == Some(
                        PendingReflow {
                            data,
                            all_style_damage: needs_full_damage(old(self).screen_size, data),
                        },
                    )
                    &&& final(self).screen_size == Some(screen_size_of(data.window_size))
                    &&& final(self).display_list == old(self).display_list
                    &&& final(self).stylist == old(self).stylist
                    &&& final(self).state == old(self).state
                    &&& final(doc).wf()
                    &&& initialized_from(
                        old(doc).nodes@,
                        final(doc).nodes@,
                        data.document_root as int,
                    )
                },
                Msg::QueryMsg(query) => {
                    &&& action_models(actions@) == seq![
                        ActionModel::Reply(
                            answer_spec(
                                match old(self).display_list {
                                    Some(list) => Some(list@),
                                    None => None,
                                },
                                query,
                            ),
                        ),
                    ]
                    &&& *final(self) == *old(self)
                    &&& *final(doc) == *old(doc)
                },
                Msg::ReapLayoutDataMsg(_) => {
                    &&& actions@.len() == 0
                    &&& *final(self) == *old(self)
                    &&& *final(doc) == *old(doc)
                },
                Msg::PrepareToExitMsg => {
                    &&& action_models(actions@) == seq![ActionModel::Acknowledge]
                    &&& final(self).state == TaskState::Draining
                    &&& final(self).same_but_state(*old(self))
                    &&& *final(doc) == *old(doc)
                },
                Msg::ExitNowMsg => {
                    &&& action_models(actions@) == seq![ActionModel::ExitRender]
                    &&& final(self).state == TaskState::Terminated
                    &&& final(self).same_but_state(*old(self))
                    &&& *final(doc) == *old(doc)
                },
            },
    {
        let mut actions: Vec<Action> = Vec::new();
        match msg {
            Msg::AddStylesheetMsg(sheet) => {
                self.handle_add_stylesheet(sheet);
            },
            Msg::ReflowMsg(data) => {
                let plan = self.begin_reflow(doc, &data);
                actions.push(Action::ResetImageCache(plan.responder));
                if plan.match_selectors {
                    actions.push(Action::MatchSelectors(data.document_root));
                }
                actions.push(Action::Layout);
                proof {
                    let reset = ActionModel::ResetImageCache(
                        LayoutImageResponder { id: old(self).id },
                    );
                    if plan.match_selectors {
                        assert(action_models(actions@) =~= seq![
                            reset,
                            ActionModel::MatchSelectors(data.document_root),
                            ActionModel::Layout,
                        ]);
                    } else {
                        assert(action_models(actions@) =~= seq![reset, ActionModel::Layout]);
                    }
                }
            },
            Msg::QueryMsg(query) => {
                let response = self.handle_query(query);
                let ghost reply = response@;
                actions.push(Action::Reply(response));
                proof {
                    assert(action_models(actions@) =~= seq![ActionModel::Reply(reply)]);
                }
            },
            Msg::ReapLayoutDataMsg(dead_layout_data) => {
                let mut dead = dead_layout_data;
                self.handle_reap_layout_data(&mut dead);
            },
            Msg::PrepareToExitMsg => {
                let ack = self.prepare_to_exit();
                actions.push(ack);
                proof {
                    assert(action_models(actions@) =~= seq![ActionModel::Acknowledge]);
                }
            },
            Msg::ExitNowMsg => {
                let exit = self.exit_now();
                actions.push(exit);
                proof {
                    assert(action_models(actions@) =~= seq![ActionModel::ExitRender]);
                }
            },
        }
        actions
    }

    /// Enters the state in which nothing is taken but requests to destroy
    /// layout data and the request to exit, and answers the request at once.
    pub fn prepare_to_exit(&mut self) -> (ack: Action)
        requires
            old(self).state == TaskState::Running,
            old(self).pending is None,
        ensures
            ack@ == ActionModel::Acknowledge,
            final(self).state == TaskState::Draining,
            final(self).same_but_state(*old(self)),
    {
        self.state = TaskState::Draining;
        Action::Acknowledge
    }

    /// Ends the task. The renderer is told to exit, and is waited for, so
    /// that nothing it holds points into the task any more.
    pub fn exit_now(&mut self) -> (exit: Action)
        requires
            old(self).state != TaskState::Terminated,
            old(self).pending is None,
        ensures
            exit@ == ActionModel::ExitRender,
            final(self).state == TaskState::Terminated,
            final(self).same_but_state(*old(self)),
    {
        self.state = TaskState::Terminated;
        Action::ExitRender
    }

    /// Adds an author's stylesheet to the rule set.
    pub fn handle_add_stylesheet(&mut self, sheet: Stylesheet)
        ensures
            final(self).stylist.author_stylesheets@ == old(self).stylist.author_stylesheets@.push(
                sheet,
            ),
            final(self).id == old(self).id,
            final(self).screen_size == old(self).screen_size,
            final(self).display_list == old(self).display_list,
            final(self).state == old(self).state,
            final(self).pending == old(self).pending,
    {
        self.stylist.add_stylesheet(sheet);
    }

    /// The first step of a layout run: settles whether every box is damaged
    /// in full and whether selectors have to be matched, takes the new size
    /// of the viewport, and puts fresh layout data on the nodes that have
    /// none. From here on the task takes no message until `handle_reflow`
    /// has done the layout run.
    pub fn begin_reflow(&mut self, doc: &mut Document, data: &Reflow) -> (plan: ReflowPlan)
        requires
            old(self).state == TaskState::Running,
            old(self).pending is None,
            old(doc).wf(),
            old(doc).has_node(data.document_root),
        ensures
            plan.all_style_damage == needs_full_damage(old(self).screen_size, *data),
            plan.match_selectors == needs_selector_matching(*data),
            plan.responder == (LayoutImageResponder { id: old(self).id }),
            final(self).pending == Some(
                PendingReflow { data: *data, all_style_damage: plan.all_style_damage },
            ),
            final(self).screen_size == Some(screen_size_of(data.window_size)),
            final(self).id == old(self).id,
            final(self).display_list == old(self).display_list,
            final(self).stylist == old(self).stylist,
            final(self).state == old(self).state,
            final(doc).wf(),
            initialized_from(old(doc).nodes@, final(doc).nodes@, data.document_root as int),
    {
        let responder = self.make_on_image_available_cb();
        let mut all_style_damage = match data.damage.level {
            DocumentDamageLevel::ContentChangedDocumentDamage => true,
            _ => false,
        };
        let screen_size = Size2D::new(
            Au::from_px(data.window_size.width),
            Au::from_px(data.window_size.height),
        );
        let same_size = match self.screen_size {
            Some(size) => size.width.0 == screen_size.width.0 && size.height.0
                == screen_size.height.0,
            None => false,
        };
        if !same_size {
            all_style_damage = true;
        }
        self.screen_size = Some(screen_size);
        doc.initialize_style_for_subtree(data.document_root);
        let match_selectors = match data.damage.level {
            DocumentDamageLevel::ReflowDocumentDamage => false,
            _ => true,
        };
        self.pending = Some(PendingReflow { data: *data, all_style_damage });
        ReflowPlan { all_style_damage, match_selectors, responder }
    }

    /// Whether the layout run that was begun can be done on `doc`: the
    /// document is in document order, and the node to lay out is one of its
    /// nodes and gets a box.
    pub open spec fn can_lay_out(self, doc: Document) -> bool {
        &&& self.pending is Some
        &&& self.screen_size is Some
        &&& doc.wf()
        &&& doc.has_node(self.pending.unwrap().data.document_root)
        &&& participates(doc.nodes@[self.pending.unwrap().data.document_root as int])
    }

    /// Says whether the layout run that was begun can be done on `doc`.
    pub fn ready_for_layout(&self, doc: &Document) -> (b: bool)
        ensures
            b == self.can_lay_out(*doc),
    {
        match self.pending {
            Some(pending) => self.screen_size.is_some() && pending.data.document_root < doc.len()
                && doc.is_wf() && produces_flow(doc, pending.data.document_root),
            None => false,
        }
    }

    /// The second step of a layout run: builds the tree of boxes, spreads
    /// damage over it, solves its constraints and, where the page is to be
    /// painted, lists what to paint, keeps that list for queries and has it
    /// sent to the renderer. Whatever the goal, the sender of the request
    /// is told that layout may be queried, and after that script is told that
    /// the request is done. With this the layout run is over, and the task
    /// takes messages again.
    pub fn handle_reflow(&mut self, doc: &Document) -> (result: ReflowResult)
        requires
            old(self).can_lay_out(*doc),
        ensures
            ({
                let data = old(self).pending.unwrap().data;
                let all_style_damage = old(self).pending.unwrap().all_style_damage;
                let layer = render_layer_spec(
                    doc.nodes@,
                    data.document_root as int,
                    result.layout_root.links@,
                    result.layout_root.flows@,
                );
                &&& result.layout_root.wf()
                &&& links_of_document(
                    doc.nodes@,
                    data.document_root as int,
                    result.layout_root.links@,
                )
                &&& result.layout_root.flows@ == laid_out_spec(
                    old(self).context_spec(),
                    all_style_damage,
                    result.layout_root.links@,
                    initial_flows(doc.nodes@, data.document_root as int),
                )
                &&& data.goal == ReflowGoal::ReflowForDisplay ==> {
                    &&& final(self).display_list is Some
                    &&& final(self).display_list.unwrap()@ == layer.display_list
                    &&& action_models(result.actions@) == seq![
                        ActionModel::Render(layer),
                        ActionModel::SignalJoin,
                        ActionModel::ReflowComplete(old(self).id, data.id),
                    ]
                }
                &&& data.goal != ReflowGoal::ReflowForDisplay ==> {
                    &&& final(self).display_list == old(self).display_list
                    &&& action_models(result.actions@) == seq![
                        ActionModel::SignalJoin,
                        ActionModel::ReflowComplete(old(self).id, data.id),
                    ]
                }
            }),
            final(self).pending is None,
            final(self).id == old(self).id,
            final(self).screen_size == old(self).screen_size,
            final(self).stylist == old(self).stylist,
            final(self).state == old(self).state,
    {
        let pending = self.pending.unwrap();
        let data = pending.data;
        let all_style_damage = pending.all_style_damage;
        self.pending = None;
        let layout_ctx = self.build_layout_context();
        let mut layout_root = construct_flow_tree(doc, data.document_root);
        layout_root.traverse_preorder(&PropagateDamageTraversal { all_style_damage });
        layout_root.traverse_postorder(&ComputeDamageTraversal);
        solve_constraints(&mut layout_root, &layout_ctx);
        let mut actions: Vec<Action> = Vec::new();
        let for_display = match data.goal {
            ReflowGoal::ReflowForDisplay => true,
            ReflowGoal::ReflowForScriptQuery => false,
        };
        if for_display {
            let root: usize = layout_root.root();
            let root_flow: Flow = layout_root.flows[root];
            let root_size = root_flow.position.size;
            let dirty = root_flow.position;
            let mut display_list = DisplayList::new();
            layout_root.build_display_list(
                &DisplayListBuilder { ctx: layout_ctx },
                &dirty,
                &mut display_list,
            );
            let color = doc.background_color(data.document_root);
            let kept = display_list.duplicate();
            let render_layer = RenderLayer {
                display_list,
                size: PixelSize {
                    width: root_size.width.to_nearest_px(),
                    height: root_size.height.to_nearest_px(),
                },
                color,
            };
            proof {
                let found = flow_items(
                    layout_root.links@,
                    layout_root.flows@,
                    layout_root.root_spec(),
                    Point2D { x: Au(0), y: Au(0) },
                    dirty,
                );
                assert(Seq::<ItemModel>::empty() + found =~= found);
            }
            let ghost layer = render_layer@;
            self.display_list = Some(kept);
            actions.push(Action::Render(render_layer));
            actions.push(Action::SignalJoin);
            actions.push(Action::ReflowComplete(self.id, data.id));
            proof {
                assert(action_models(actions@) =~= seq![
                    ActionModel::Render(layer),
                    ActionModel::SignalJoin,
                    ActionModel::ReflowComplete(old(self).id, data.id),
                ]);
            }
        } else {
            actions.push(Action::SignalJoin);
            actions.push(Action::ReflowComplete(self.id, data.id));
            proof {
                assert(action_models(actions@) =~= seq![
                    ActionModel::SignalJoin,
                    ActionModel::ReflowComplete(old(self).id, data.id),
                ]);
            }
        }
        ReflowResult { layout_root, actions }
    }

    /// Answers a query from the display list of the last layout run that
    /// painted.
    pub fn handle_query(&self, query: LayoutQuery) -> (response: LayoutResponse)
        requires
            query is HitTestQuery || self.display_list is Some,
        ensures
            response@ == answer_spec(
                match self.display_list {
                    Some(list) => Some(list@),
                    None => None,
                },
                query,
            ),
    {
        answer(&self.display_list, query)
    }

    /// The responder that the image cache is given: it sends word to script
    /// and touches nothing of the task.
    pub fn make_on_image_available_cb(&self) -> (responder: LayoutImageResponder)
        ensures
            responder == (LayoutImageResponder { id: self.id }),
    {
        LayoutImageResponder { id: self.id }
    }

    /// Destroys the layout data of a node that is gone.
    pub fn handle_reap_layout_data(&self, layout_data: &mut LayoutDataRef)
        ensures
            final(layout_data).data is None,
    {
        layout_data.data = None;
    }
}

/// A layout run leaves every box the box of the node it was made for, with
/// that node's style and with the flags it was made with, and takes no
/// damage away from it.
pub proof fn lemma_layout_keeps_boxes(
    ctx: LayoutContext,
    all_style_damage: bool,
    links: Seq<FlowLinks>,
    flows: Seq<Flow>,
    j: int,
)
    requires
        links_wf(links),
        flows.len() == links.len(),
        0 <= j < flows.len(),
    ensures
        ({
            let after = laid_out_spec(ctx, all_style_damage, links, flows);
            &&& after.len() == flows.len()
            &&& after[j].node == flows[j].node
            &&& after[j].style == flows[j].style
            &&& after[j].flags == flows[j].flags
            &&& after[j].restyle_damage.includes(flows[j].restyle_damage)
        }),
{
    let root = links.len() - 1;
    let down = PropagateDamageTraversal { all_style_damage };
    let spread = pre_spec(&down, links, flows, root);
    let damaged = damage_spec(all_style_damage, links, flows);
    lemma_pre_frame(&down, links, flows, root);
    lemma_post_frame(&ComputeDamageTraversal, links, spread, root);
    lemma_damage_only_grows(all_style_damage, links, flows, j);
    lemma_damage_only_grows(all_style_damage, links, spread, j);
    lemma_solve_keeps_boxes(ctx, links, damaged, j);
    lemma_includes(damaged[j].restyle_damage, flows[j].restyle_damage);
}

/// A layout run that forces full damage leaves every box damaged in full.
pub proof fn lemma_forced_layout_damages_all(
    ctx: LayoutContext,
    links: Seq<FlowLinks>,
    flows: Seq<Flow>,
    j: int,
)
    requires
        links_wf(links),
        flows.len() == links.len(),
        0 <= j < flows.len(),
    ensures
        laid_out_spec(ctx, true, links, flows)[j].restyle_damage == RestyleDamage::all_spec(),
{
    let root = links.len() - 1;
    let down = PropagateDamageTraversal { all_style_damage: true };
    let spread = pre_spec(&down, links, flows, root);
    let damaged = damage_spec(true, links, flows);
    lemma_pre_frame(&down, links, flows, root);
    lemma_post_frame(&ComputeDamageTraversal, links, spread, root);
    lemma_forced_damage_is_all(links, flows, j);
    lemma_damage_only_grows(true, links, spread, j);
    lemma_solve_keeps_boxes(ctx, links, damaged, j);
}

} // verus!
