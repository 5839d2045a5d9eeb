//! Display lists: what to paint, in paint order.
//!
//! A display list is a sequence of items, each with the rectangle it covers
//! and the document node it belongs to. A clip item also owns the items
//! painted inside it, so a list is a tree of items.

use vstd::prelude::*;
use crate::color::Color;
use crate::geometry::{Au, Rect};

verus! {

/// What every display item carries.
#[derive(Clone, Copy, Debug, PartialEq, Eq, Structural)]
pub struct BaseDisplayItem {
    /// The rectangle the item covers, in page coordinates.
    pub bounds: Rect,
    /// The document node the item was made for.
    pub extra: usize,
}

#[derive(Debug, PartialEq, Eq)]
pub enum DisplayItem {
    /// A rectangle filled with one colour.
    SolidColor(BaseDisplayItem, Color),
    /// A frame of the given thickness and colour along the inside of the
    /// bounds.
    Border(BaseDisplayItem, Au, Color),
    /// A region with the items painted inside it, and whether painting is to
    /// be cut off at its bounds.
    Clip(BaseDisplayItem, Vec<DisplayItem>, bool),
}

/// A display item as a mathematical value.
pub enum ItemModel {
    SolidColor(BaseDisplayItem, Color),
    Border(BaseDisplayItem, Au, Color),
    Clip(BaseDisplayItem, Seq<ItemModel>, bool),
}

impl ItemModel {
    pub open spec fn base(self) -> BaseDisplayItem {
        match self {
            ItemModel::SolidColor(base, _) => base,
            ItemModel::Border(base, _, _) => base,
            ItemModel::Clip(base, _, _) => base,
        }
    }

    /// The items nested in this one; none unless it is a clip item.
    pub open spec fn children(self) -> Seq<ItemModel> {
        match self {
            ItemModel::Clip(_, kids, _) => kids,
            _ => Seq::empty(),
        }
    }

    pub open spec fn is_clip(self) -> bool {
        self is Clip
    }
}

impl DisplayItem {
    pub open spec fn model(self) -> ItemModel
        decreases self,
    {
        match self {
            DisplayItem::SolidColor(base, color) => ItemModel::SolidColor(base, color),
            DisplayItem::Border(base, width, color) => ItemModel::Border(base, width, color),
            DisplayItem::Clip(base, kids, clip) => ItemModel::Clip(
                base,
                Seq::new(
                    kids@.len(),
                    |i: int|
                        if 0 <= i < kids@.len() {
                            kids@[i].model()
                        } else {
                            ItemModel::Clip(base, Seq::empty(), clip)
                        },
                ),
                clip,
            ),
        }
    }

    pub fn base(&self) -> (b: BaseDisplayItem)
        ensures
            b == self.model().base(),
    {
        match self {
            DisplayItem::SolidColor(base, _) => *base,
            DisplayItem::Border(base, _, _) => *base,
            DisplayItem::Clip(base, _, _) => *base,
        }
    }

    pub fn bounds(&self) -> (r: Rect)
        ensures
            r == self.model().base().bounds,
    {
        self.base().bounds
    }
}

/// The models of a sequence of items, in order.
pub open spec fn models(items: Seq<DisplayItem>) -> Seq<ItemModel> {
    Seq::new(items.len(), |i: int| items[i].model())
}

/// A clip item's model holds the models of its items.
pub proof fn lemma_clip_model(base: BaseDisplayItem, kids: Vec<DisplayItem>, clip: bool)
    ensures
        DisplayItem::Clip(base, kids, clip).model() == ItemModel::Clip(base, models(kids@), clip),
{
    let m = DisplayItem::Clip(base, kids, clip).model();
    assert(m.children() =~= models(kids@));
}

/// A list of display items.
#[derive(Debug, PartialEq, Eq)]
pub struct DisplayList {
    pub list: Vec<DisplayItem>,
}

impl View for DisplayList {
    type V = Seq<ItemModel>;

    open spec fn view(&self) -> Seq<ItemModel> {
        models(self.list@)
    }
}

impl DisplayList {
    pub fn new() -> (l: DisplayList)
        ensures
            l@ == Seq::<ItemModel>::empty(),
    {
        let l = DisplayList { list: Vec::new() };
        assert(l@ =~= Seq::<ItemModel>::empty());
        l
    }

    pub fn append_item(&mut self, item: DisplayItem)
        ensures
            final(self)@ == old(self)@.push(item.model()),
    {
        self.list.push(item);
        assert(self@ =~= old(self)@.push(item.model()));
    }
}

} // verus!
