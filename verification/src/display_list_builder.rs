//! Listing what to paint for a solved tree of boxes.
//!
//! A box that reaches into the dirty rectangle gives, in paint order: its
//! background, where it is not fully transparent; a clip item that holds
//! what its children give; and its border, where it has one. A box that does
//! not reach into the dirty rectangle gives nothing, nor do the boxes below
//! it. Items are placed in page coordinates: a box lies at its own position,
//! reckoned from where its parent lies.

use vstd::prelude::*;
use crate::display_list::{
    lemma_clip_model, models, BaseDisplayItem, DisplayItem, DisplayList, ItemModel,
};
use crate::flow::{kids_of, Flow, FlowLinks, FlowTree};
use crate::geometry::{Au, Point2D, Rect};
use crate::solve::LayoutContext;
use crate::traversal::lemma_kids_rise;

verus! {

/// What building a display list needs to know.
#[derive(Clone, Copy, Debug, PartialEq, Eq, Structural)]
pub struct DisplayListBuilder {
    pub ctx: LayoutContext,
}

/// Where a box lies on the page, given where its parent lies.
pub open spec fn abs_bounds(flow: Flow, parent_origin: Point2D) -> Rect {
    Rect { origin: parent_origin.add_spec(flow.position.origin), size: flow.position.size }
}

/// What every item of a box carries.
pub open spec fn item_base(flow: Flow, bounds: Rect) -> BaseDisplayItem {
    BaseDisplayItem { bounds, extra: flow.node }
}

/// The item for a box's background, if it shows.
pub open spec fn background_items(flow: Flow, bounds: Rect) -> Seq<ItemModel> {
    if flow.style.background_color.is_transparent_spec() {
        Seq::empty()
    } else {
        seq![ItemModel::SolidColor(item_base(flow, bounds), flow.style.background_color)]
    }
}

/// The item for a box's border, if it has one.
pub open spec fn border_items(flow: Flow, bounds: Rect) -> Seq<ItemModel> {
    if flow.style.border_width.0 > 0 {
        seq![
            ItemModel::Border(
                item_base(flow, bounds),
                flow.style.border_width,
                flow.style.border_color,
            ),
        ]
    } else {
        Seq::empty()
    }
}

/// What box `i` and the boxes below it give.
pub open spec fn flow_items(
    links: Seq<FlowLinks>,
    flows: Seq<Flow>,
    i: int,
    parent_origin: Point2D,
    dirty: Rect,
) -> Seq<ItemModel>
    decreases i, 1nat, 0nat,
{
    let bounds = abs_bounds(flows[i], parent_origin);
    if 0 <= i < links.len() && bounds.intersects_spec(dirty) {
        background_items(flows[i], bounds) + seq![
            ItemModel::Clip(
                item_base(flows[i], bounds),
                kids_items(links, flows, i, bounds.origin, dirty, kids_of(links, i).len()),
                false,
            ),
        ] + border_items(flows[i], bounds)
    } else {
        Seq::empty()
    }
}

/// What the first `k` children of box `i` and the boxes below them give,
/// where `origin` is where box `i` lies.
pub open spec fn kids_items(
    links: Seq<FlowLinks>,
    flows: Seq<Flow>,
    i: int,
    origin: Point2D,
    dirty: Rect,
    k: nat,
) -> Seq<ItemModel>
    decreases i, 0nat, k,
{
    if k == 0 {
        Seq::empty()
    } else {
        let kid = kids_of(links, i)[k - 1];
        kids_items(links, flows, i, origin, dirty, (k - 1) as nat) + (if 0 <= kid < i {
            flow_items(links, flows, kid as int, origin, dirty)
        } else {
            Seq::empty()
        })
    }
}

/// The models of a list with one more item are the models of the list with
/// the model of the item.
pub proof fn lemma_models_push(items: Seq<DisplayItem>, item: DisplayItem)
    ensures
        models(items.push(item)) == models(items).push(item.model()),
{
    assert(models(items.push(item)) =~= models(items).push(item.model()));
}

impl DisplayItem {
    /// A copy of the item, nested items included.
    pub fn duplicate(&self) -> (copy: DisplayItem)
        ensures
            copy.model() == self.model(),
        decreases self,
    {
        match self {
            DisplayItem::SolidColor(base, color) => DisplayItem::SolidColor(*base, *color),
            DisplayItem::Border(base, width, color) => DisplayItem::Border(*base, *width, *color),
            DisplayItem::Clip(base, kids, clip) => {
                let copies = duplicate_items(kids);
                proof {
                    lemma_clip_model(*base, *kids, *clip);
                    lemma_clip_model(*base, copies, *clip);
                }
                DisplayItem::Clip(*base, copies, *clip)
            },
        }
    }
}

/// A copy of a run of items, nested items included.
pub fn duplicate_items(items: &Vec<DisplayItem>) -> (copies: Vec<DisplayItem>)
    ensures
        models(copies@) == models(items@),
    decreases items,
{
    let mut copies: Vec<DisplayItem> = Vec::new();
    let n: usize = items.len();
    let mut i: usize = 0;
    while i < n
        invariant
            n == items@.len(),
            0 <= i <= n,
            copies@.len() == i,
            forall|j: int| 0 <= j < i ==> (#[trigger] copies@[j]).model() == items@[j].model(),
        decreases n - i,
    {
        let copy = items[i].duplicate();
        copies.push(copy);
        i += 1;
    }
    proof {
        assert(models(copies@) =~= models(items@));
    }
    copies
}

impl DisplayList {
    /// A copy of the list.
    pub fn duplicate(&self) -> (copy: DisplayList)
        ensures
            copy@ == self@,
    {
        DisplayList { list: duplicate_items(&self.list) }
    }
}

impl FlowTree {
    /// Appends to `list` what the tree gives to paint within `dirty`.
    pub fn build_display_list(
        &self,
        builder: &DisplayListBuilder,
        dirty: &Rect,
        list: &mut DisplayList,
    )
        requires
            self.wf(),
        ensures
            final(list)@ == old(list)@ + flow_items(
                self.links@,
                self.flows@,
                self.root_spec(),
                Point2D { x: Au(0), y: Au(0) },
                *dirty,
            ),
    {
        let root: usize = self.links.len() - 1;
        self.build_items(root, Point2D::zero(), dirty, &mut list.list);
    }

    fn build_items(&self, i: usize, parent_origin: Point2D, dirty: &Rect, list: &mut Vec<DisplayItem>)
        requires
            self.wf(),
            i < self.links@.len(),
        ensures
            models(final(list)@) == models(old(list)@) + flow_items(
                self.links@,
                self.flows@,
                i as int,
                parent_origin,
                *dirty,
            ),
        decreases i,
    {
        let flow: Flow = self.flows[i];
        let bounds = Rect::new(parent_origin.add(flow.position.origin), flow.position.size);
        if !bounds.intersects(dirty) {
            proof {
                assert(models(list@) + Seq::<ItemModel>::empty() =~= models(list@));
            }
            return ;
        }
        let base = BaseDisplayItem { bounds, extra: flow.node };
        let ghost before = models(list@);
        if !flow.style.background_color.is_transparent() {
            proof {
                lemma_models_push(list@, DisplayItem::SolidColor(base, flow.style.background_color));
            }
            list.push(DisplayItem::SolidColor(base, flow.style.background_color));
        }
        assert(models(list@) =~= before + background_items(flow, bounds));
        let mut child_list: Vec<DisplayItem> = Vec::new();
        let n: usize = self.links[i].children.len();
        let mut k: usize = 0;
        proof {
            lemma_kids_rise(self.links@, i as int);
            assert(models(child_list@) =~= Seq::<ItemModel>::empty());
        }
        while k < n
            invariant
                self.wf(),
                i < self.links@.len(),
                n == kids_of(self.links@, i as int).len(),
                0 <= k <= n,
                forall|a: int|
                    0 <= a < n ==> 0 <= #[trigger] kids_of(self.links@, i as int)[a] < i,
                models(child_list@) == kids_items(
                    self.links@,
                    self.flows@,
                    i as int,
                    bounds.origin,
                    *dirty,
                    k as nat,
                ),
            decreases n - k,
        {
            let c: usize = self.links[i].children[k];
            self.build_items(c, bounds.origin, dirty, &mut child_list);
            k += 1;
        }
        let ghost mid = models(list@);
        let ghost nested = models(child_list@);
        proof {
            lemma_clip_model(base, child_list, false);
            lemma_models_push(list@, DisplayItem::Clip(base, child_list, false));
        }
        list.push(DisplayItem::Clip(base, child_list, false));
        assert(models(list@) =~= mid + seq![ItemModel::Clip(base, nested, false)]);
        let ghost with_clip = models(list@);
        if flow.style.border_width.0 > 0 {
            proof {
                lemma_models_push(
                    list@,
                    DisplayItem::Border(base, flow.style.border_width, flow.style.border_color),
                );
            }
            list.push(DisplayItem::Border(base, flow.style.border_width, flow.style.border_color));
        }
        assert(models(list@) =~= with_clip + border_items(flow, bounds));
        assert(models(list@) =~= before + (background_items(flow, bounds) + seq![
            ItemModel::Clip(base, nested, false),
        ] + border_items(flow, bounds)));
    }
}

} // verus!
