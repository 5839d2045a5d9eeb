//! Restyle damage: which parts of layout have to be done again for a box.

use vstd::prelude::*;

verus! {

/// One kind of work that a change can make necessary.
#[derive(Clone, Copy, Debug, PartialEq, Eq, Structural)]
pub enum RestyleEffect {
    /// The box's style changed as a whole.
    Style,
    /// The widths that the box reports to its parent have to be found again.
    BubbleWidths,
    /// The box has to be placed and sized again.
    Reflow,
    /// The box has to be painted again.
    Repaint,
}

/// A set of restyle effects. Damage is only ever added to.
#[derive(Clone, Copy, Debug, PartialEq, Eq, Structural)]
pub struct RestyleDamage {
    pub style: bool,
    pub bubble_widths: bool,
    pub reflow: bool,
    pub repaint: bool,
}

impl RestyleDamage {
    pub open spec fn none_spec() -> RestyleDamage {
        RestyleDamage { style: false, bubble_widths: false, reflow: false, repaint: false }
    }

    pub open spec fn all_spec() -> RestyleDamage {
        RestyleDamage { style: true, bubble_widths: true, reflow: true, repaint: true }
    }

    pub open spec fn has_spec(self, effect: RestyleEffect) -> bool {
        match effect {
            RestyleEffect::Style => self.style,
            RestyleEffect::BubbleWidths => self.bubble_widths,
            RestyleEffect::Reflow => self.reflow,
            RestyleEffect::Repaint => self.repaint,
        }
    }

    /// The damage that holds an effect exactly when `self` or `other` holds
    /// it.
    pub open spec fn union_spec(self, other: RestyleDamage) -> RestyleDamage {
        RestyleDamage {
            style: self.style || other.style,
            bubble_widths: self.bubble_widths || other.bubble_widths,
            reflow: self.reflow || other.reflow,
            repaint: self.repaint || other.repaint,
        }
    }

    /// The damage that holds an effect exactly when both hold it.
    pub open spec fn intersect_spec(self, other: RestyleDamage) -> RestyleDamage {
        RestyleDamage {
            style: self.style && other.style,
            bubble_widths: self.bubble_widths && other.bubble_widths,
            reflow: self.reflow && other.reflow,
            repaint: self.repaint && other.repaint,
        }
    }

    /// Whether every effect of `other` is an effect of `self`.
    pub open spec fn includes(self, other: RestyleDamage) -> bool {
        forall|effect: RestyleEffect| other.has_spec(effect) ==> self.has_spec(effect)
    }

    /// What a box's damage means for its parent: a box that has to be
    /// placed again, or whose style changed, makes its parent place its
    /// children again. Nothing else reaches the parent.
    pub open spec fn propagate_up_spec(self) -> RestyleDamage {
        RestyleDamage {
            style: false,
            bubble_widths: false,
            reflow: self.reflow || self.style,
            repaint: false,
        }
    }

    /// What a box's damage means for each of its children: a change of
    /// style makes every child do everything again; otherwise only the need
    /// to find widths again is handed down.
    pub open spec fn propagate_down_spec(self) -> RestyleDamage {
        if self.style {
            Self::all_spec()
        } else {
            RestyleDamage {
                style: false,
                bubble_widths: self.bubble_widths,
                reflow: false,
                repaint: false,
            }
        }
    }

    pub fn none() -> (d: RestyleDamage)
        ensures
            d == Self::none_spec(),
    {
        RestyleDamage { style: false, bubble_widths: false, reflow: false, repaint: false }
    }

    pub fn all() -> (d: RestyleDamage)
        ensures
            d == Self::all_spec(),
    {
        RestyleDamage { style: true, bubble_widths: true, reflow: true, repaint: true }
    }

    /// The damage done by a change of the window's size: everything.
    pub fn for_resize() -> (d: RestyleDamage)
        ensures
            d == Self::all_spec(),
    {
        RestyleDamage::all()
    }

    pub fn is_empty(self) -> (b: bool)
        ensures
            b == (self == Self::none_spec()),
    {
        !self.style && !self.bubble_widths && !self.reflow && !self.repaint
    }

    pub fn is_nonempty(self) -> (b: bool)
        ensures
            b == (self != Self::none_spec()),
    {
        self.style || self.bubble_widths || self.reflow || self.repaint
    }

    /// This damage with `effect` added.
    pub fn add(self, effect: RestyleEffect) -> (d: RestyleDamage)
        ensures
            d.has_spec(effect),
            forall|other: RestyleEffect| other != effect ==> d.has_spec(other) == self.has_spec(other),
    {
        match effect {
            RestyleEffect::Style => RestyleDamage { style: true, ..self },
            RestyleEffect::BubbleWidths => RestyleDamage { bubble_widths: true, ..self },
            RestyleEffect::Reflow => RestyleDamage { reflow: true, ..self },
            RestyleEffect::Repaint => RestyleDamage { repaint: true, ..self },
        }
    }

    pub fn has(self, effect: RestyleEffect) -> (b: bool)
        ensures
            b == self.has_spec(effect),
    {
        match effect {
            RestyleEffect::Style => self.style,
            RestyleEffect::BubbleWidths => self.bubble_widths,
            RestyleEffect::Reflow => self.reflow,
            RestyleEffect::Repaint => self.repaint,
        }
    }

    pub fn lacks(self, effect: RestyleEffect) -> (b: bool)
        ensures
            b == !self.has_spec(effect),
    {
        !self.has(effect)
    }

    pub fn union(self, other: RestyleDamage) -> (d: RestyleDamage)
        ensures
            d == self.union_spec(other),
    {
        RestyleDamage {
            style: self.style || other.style,
            bubble_widths: self.bubble_widths || other.bubble_widths,
            reflow: self.reflow || other.reflow,
            repaint: self.repaint || other.repaint,
        }
    }

    pub fn union_in_place(&mut self, other: RestyleDamage)
        ensures
            *final(self) == old(self).union_spec(other),
    {
        *self = self.union(other);
    }

    pub fn intersect(self, other: RestyleDamage) -> (d: RestyleDamage)
        ensures
            d == self.intersect_spec(other),
    {
        RestyleDamage {
            style: self.style && other.style,
            bubble_widths: self.bubble_widths && other.bubble_widths,
            reflow: self.reflow && other.reflow,
            repaint: self.repaint && other.repaint,
        }
    }

    pub fn propagate_up(self) -> (d: RestyleDamage)
        ensures
            d == self.propagate_up_spec(),
    {
        RestyleDamage {
            style: false,
            bubble_widths: false,
            reflow: self.reflow || self.style,
            repaint: false,
        }
    }

    pub fn propagate_down(self) -> (d: RestyleDamage)
        ensures
            d == self.propagate_down_spec(),
    {
        if self.style {
            RestyleDamage::all()
        } else {
            RestyleDamage {
                style: false,
                bubble_widths: self.bubble_widths,
                reflow: false,
                repaint: false,
            }
        }
    }
}

/// The union of two damages does not depend on their order, and the union
/// of a damage with itself is that damage.
pub proof fn lemma_union_commutative_idempotent(d1: RestyleDamage, d2: RestyleDamage)
    ensures
        d1.union_spec(d2) == d2.union_spec(d1),
        d1.union_spec(d1) == d1,
{
}

/// Unions can be taken in any grouping, and the empty damage changes
/// nothing.
pub proof fn lemma_union_associative(d1: RestyleDamage, d2: RestyleDamage, d3: RestyleDamage)
    ensures
        d1.union_spec(d2).union_spec(d3) == d1.union_spec(d2.union_spec(d3)),
        d1.union_spec(RestyleDamage::none_spec()) == d1,
{
}

/// A union only grows: it includes both of its parts, it is the least
/// damage that does, and everything unioned with it is everything.
pub proof fn lemma_union_is_least_upper_bound(d1: RestyleDamage, d2: RestyleDamage, d3: RestyleDamage)
    ensures
        d1.union_spec(d2).includes(d1),
        d1.union_spec(d2).includes(d2),
        d3.includes(d1) && d3.includes(d2) ==> d3.includes(d1.union_spec(d2)),
        d1.union_spec(RestyleDamage::all_spec()) == RestyleDamage::all_spec(),
        RestyleDamage::all_spec().includes(d1),
{
    lemma_includes(d1.union_spec(d2), d1);
    lemma_includes(d1.union_spec(d2), d2);
    lemma_includes(d3, d1);
    lemma_includes(d3, d2);
    lemma_includes(d3, d1.union_spec(d2));
    lemma_includes(RestyleDamage::all_spec(), d1);
}

/// One damage includes another exactly when each of the four effects of the
/// second is in the first.
pub proof fn lemma_includes(big: RestyleDamage, small: RestyleDamage)
    ensures
        big.includes(small) <==> ((small.style ==> big.style) && (small.bubble_widths
            ==> big.bubble_widths) && (small.reflow ==> big.reflow) && (small.repaint
            ==> big.repaint)),
        big.includes(small) <==> big.union_spec(small) == big,
{
    if big.includes(small) {
        assert(small.has_spec(RestyleEffect::Style) ==> big.has_spec(RestyleEffect::Style));
        assert(small.has_spec(RestyleEffect::BubbleWidths) ==> big.has_spec(
            RestyleEffect::BubbleWidths,
        ));
        assert(small.has_spec(RestyleEffect::Reflow) ==> big.has_spec(RestyleEffect::Reflow));
        assert(small.has_spec(RestyleEffect::Repaint) ==> big.has_spec(RestyleEffect::Repaint));
    }
}

/// What is handed up or down grows with the damage it is taken from.
pub proof fn lemma_propagation_is_monotone(d1: RestyleDamage, d2: RestyleDamage)
    requires
        d2.includes(d1),
    ensures
        d2.propagate_up_spec().includes(d1.propagate_up_spec()),
        d2.propagate_down_spec().includes(d1.propagate_down_spec()),
{
    lemma_includes(d2, d1);
    lemma_includes(d2.propagate_up_spec(), d1.propagate_up_spec());
    lemma_includes(d2.propagate_down_spec(), d1.propagate_down_spec());
}

} // verus!
