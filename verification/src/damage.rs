//! The two passes that spread restyle damage over the tree of boxes: first
//! from each box down to its children, then from the children back up.

use vstd::prelude::*;
use crate::flow::{kids_of, links_wf, Flow, FlowLinks};
use crate::incremental::{lemma_includes, RestyleDamage};
use crate::traversal::{gather, lemma_kids_rise, post_spec, pre_spec};
use crate::traversal::{PostorderFlowTraversal, PreorderFlowTraversal};
use crate::traversal_laws::{
    lemma_part_owner, lemma_post_keeps, lemma_post_keeps_kids, lemma_post_own_at,
    lemma_pre_closed, lemma_pre_keeps, post_own,
};

verus! {

/// The top-down pass. With `all_style_damage` set, every box is damaged in
/// full; in either case each box hands down to its children what its damage
/// means for them.
#[derive(Clone, Copy, Debug, PartialEq, Eq, Structural)]
pub struct PropagateDamageTraversal {
    pub all_style_damage: bool,
}

/// The bottom-up pass: each box takes on what the damage of its children
/// means for it.
#[derive(Clone, Copy, Debug, PartialEq, Eq, Structural)]
pub struct ComputeDamageTraversal;

/// `damage` together with what the damage of each of `kids` hands up.
pub open spec fn damage_with_kids(damage: RestyleDamage, kids: Seq<Flow>) -> RestyleDamage
    decreases kids.len(),
{
    if kids.len() == 0 {
        damage
    } else {
        damage_with_kids(damage, kids.drop_last()).union_spec(
            kids.last().restyle_damage.propagate_up_spec(),
        )
    }
}

impl PreorderFlowTraversal for PropagateDamageTraversal {
    open spec fn own_spec(&self, flow: Flow) -> Flow {
        Flow {
            restyle_damage: if self.all_style_damage {
                flow.restyle_damage.union_spec(RestyleDamage::all_spec())
            } else {
                flow.restyle_damage
            },
            ..flow
        }
    }

    open spec fn kid_spec(&self, parent: Flow, kid: Flow) -> Flow {
        Flow {
            restyle_damage: kid.restyle_damage.union_spec(
                parent.restyle_damage.propagate_down_spec(),
            ),
            ..kid
        }
    }

    fn process(&self, flow: &mut Flow, kids: &mut Vec<Flow>) {
        if self.all_style_damage {
            let forced = flow.restyle_damage.union(RestyleDamage::all());
            flow.restyle_damage = forced;
        }
        let prop = flow.restyle_damage.propagate_down();
        if prop.is_nonempty() {
            let n: usize = kids.len();
            let mut k: usize = 0;
            while k < n
                invariant
                    n == kids@.len(),
                    n == old(kids)@.len(),
                    0 <= k <= n,
                    *flow == self.own_spec(*old(flow)),
                    prop == flow.restyle_damage.propagate_down_spec(),
                    forall|m: int| 0 <= m < k ==> #[trigger] kids@[m] == self.kid_spec(*flow, old(kids)@[m]),
                    forall|m: int| k <= m < n ==> #[trigger] kids@[m] == old(kids)@[m],
                decreases n - k,
            {
                let joined = kids[k].restyle_damage.union(prop);
                kids[k].restyle_damage = joined;
                k += 1;
            }
        }
    }
}

impl PostorderFlowTraversal for ComputeDamageTraversal {
    open spec fn should_process_spec(&self, flow: Flow) -> bool {
        true
    }

    open spec fn own_spec(&self, flow: Flow, kids: Seq<Flow>) -> Flow {
        Flow { restyle_damage: damage_with_kids(flow.restyle_damage, kids), ..flow }
    }

    open spec fn kid_spec(&self, flow: Flow, kids: Seq<Flow>, m: int) -> Flow {
        kids[m]
    }

    fn should_process(&self, flow: &Flow) -> (b: bool) {
        true
    }

    fn process(&self, flow: &mut Flow, kids: &mut Vec<Flow>) {
        let mut damage = flow.restyle_damage;
        let n: usize = kids.len();
        let mut k: usize = 0;
        proof {
            assert(kids@.take(0).len() == 0);
        }
        while k < n
            invariant
                n == kids@.len(),
                kids@ == old(kids)@,
                *flow == *old(flow),
                0 <= k <= n,
                damage == damage_with_kids(flow.restyle_damage, kids@.take(k as int)),
            decreases n - k,
        {
            proof {
                let t = kids@.take(k as int + 1);
                assert(t.drop_last() =~= kids@.take(k as int));
                assert(t.last() == kids@[k as int]);
            }
            damage.union_in_place(kids[k].restyle_damage.propagate_up());
            k += 1;
        }
        proof {
            assert(kids@.take(n as int) =~= kids@);
        }
        flow.restyle_damage = damage;
    }
}

/// What was gathered from the children includes what was there before and
/// what each child hands up.
pub proof fn lemma_damage_with_kids_includes(damage: RestyleDamage, kids: Seq<Flow>, m: int)
    requires
        0 <= m < kids.len(),
    ensures
        damage_with_kids(damage, kids).includes(damage),
        damage_with_kids(damage, kids).includes(kids[m].restyle_damage.propagate_up_spec()),
    decreases kids.len(),
{
    let rest = damage_with_kids(damage, kids.drop_last());
    let last = kids.last().restyle_damage.propagate_up_spec();
    let total = damage_with_kids(damage, kids);
    lemma_includes(total, rest);
    lemma_includes(total, last);
    if kids.len() == 1 {
        assert(rest == damage);
    } else {
        lemma_damage_with_kids_includes(damage, kids.drop_last(), 0);
    }
    lemma_includes(rest, damage);
    lemma_includes(total, damage);
    if m < kids.len() - 1 {
        lemma_damage_with_kids_includes(damage, kids.drop_last(), m);
        let up = kids[m].restyle_damage.propagate_up_spec();
        lemma_includes(rest, up);
        lemma_includes(total, up);
    }
}

/// After the top-down pass with full damage forced, the damage of every box
/// is everything.
pub proof fn lemma_forced_damage_is_all(links: Seq<FlowLinks>, flows: Seq<Flow>, j: int)
    requires
        links_wf(links),
        flows.len() == links.len(),
        0 <= j < flows.len(),
    ensures
        pre_spec(
            &(PropagateDamageTraversal { all_style_damage: true }),
            links,
            flows,
            links.len() - 1,
        )[j].restyle_damage == RestyleDamage::all_spec(),
{
    let op = PropagateDamageTraversal { all_style_damage: true };
    let root = links.len() - 1;
    let r = pre_spec(&op, links, flows, root);
    lemma_pre_closed(&op, links, flows, root);
    if j < root {
        lemma_part_owner(links, root, j);
        let (p, m) = choose|p: int, m: int|
            0 <= p <= root && 0 <= m < kids_of(links, p).len() && #[trigger] kids_of(links, p)[m]
                == j;
        assert(r[kids_of(links, p)[m] as int] == op.own_spec(op.kid_spec(r[p], flows[j])));
    }
}

/// After the bottom-up pass, the damage of every box is what it was before
/// together with what each of its children hands up, the children taken as
/// the pass left them; nothing else of the box has changed. So the damage of
/// a box includes what each of its children hands up.
pub proof fn lemma_aggregated_damage(links: Seq<FlowLinks>, flows: Seq<Flow>, i: int)
    requires
        links_wf(links),
        flows.len() == links.len(),
        0 <= i < flows.len(),
    ensures
        ({
            let after = post_spec(&ComputeDamageTraversal, links, flows, links.len() - 1);
            &&& after.len() == flows.len()
            &&& after[i] == Flow {
                restyle_damage: damage_with_kids(
                    flows[i].restyle_damage,
                    gather(after, kids_of(links, i)),
                ),
                ..flows[i]
            }
            &&& after[i].restyle_damage.includes(flows[i].restyle_damage)
            &&& forall|m: int|
                0 <= m < kids_of(links, i).len() ==> after[i].restyle_damage.includes(
                    after[#[trigger] kids_of(links, i)[m] as int].restyle_damage.propagate_up_spec(),
                )
        }),
{
    let op = ComputeDamageTraversal;
    let after = post_spec(&op, links, flows, links.len() - 1);
    let kids = gather(after, kids_of(links, i));
    lemma_post_keeps_kids(&op, links, flows);
    lemma_post_own_at(&op, links, flows, i);
    assert(after == post_own(&op, links, flows, flows.len()));
    if kids.len() == 0 {
        lemma_includes(after[i].restyle_damage, flows[i].restyle_damage);
    } else {
        lemma_damage_with_kids_includes(flows[i].restyle_damage, kids, 0);
    }
    assert forall|m: int| 0 <= m < kids_of(links, i).len() implies after[i].restyle_damage.includes(
        after[#[trigger] kids_of(links, i)[m] as int].restyle_damage.propagate_up_spec(),
    ) by {
        lemma_damage_with_kids_includes(flows[i].restyle_damage, kids, m);
        assert(kids[m] == after[kids_of(links, i)[m] as int]);
    }
}

/// Whether `after` is `before` with more damage, or the same, and nothing
/// else changed.
pub open spec fn only_more_damage(before: Flow, after: Flow) -> bool {
    &&& after == Flow { restyle_damage: after.restyle_damage, ..before }
    &&& before.restyle_damage.style ==> after.restyle_damage.style
    &&& before.restyle_damage.bubble_widths ==> after.restyle_damage.bubble_widths
    &&& before.restyle_damage.reflow ==> after.restyle_damage.reflow
    &&& before.restyle_damage.repaint ==> after.restyle_damage.repaint
}

/// Gathering damage from children takes nothing away.
proof fn lemma_damage_with_kids_grows(damage: RestyleDamage, kids: Seq<Flow>)
    ensures
        damage.style ==> damage_with_kids(damage, kids).style,
        damage.bubble_widths ==> damage_with_kids(damage, kids).bubble_widths,
        damage.reflow ==> damage_with_kids(damage, kids).reflow,
        damage.repaint ==> damage_with_kids(damage, kids).repaint,
    decreases kids.len(),
{
    if kids.len() > 0 {
        lemma_damage_with_kids_grows(damage, kids.drop_last());
    }
}

/// Neither pass takes damage away from a box, and neither changes anything
/// of a box but its damage.
pub proof fn lemma_damage_only_grows(
    all_style_damage: bool,
    links: Seq<FlowLinks>,
    flows: Seq<Flow>,
    j: int,
)
    requires
        links_wf(links),
        flows.len() == links.len(),
        0 <= j < flows.len(),
    ensures
        only_more_damage(
            flows[j],
            pre_spec(&(PropagateDamageTraversal { all_style_damage }), links, flows, links.len() - 1)[j],
        ),
        only_more_damage(flows[j], post_spec(&ComputeDamageTraversal, links, flows, links.len() - 1)[j]),
{
    let down = PropagateDamageTraversal { all_style_damage };
    let up = ComputeDamageTraversal;
    let rel = |a: Flow, b: Flow| only_more_damage(a, b);
    assert forall|f: Flow, kids: Seq<Flow>| #[trigger] rel(f, up.own_spec(f, kids)) by {
        lemma_damage_with_kids_grows(f.restyle_damage, kids);
    }
    lemma_pre_keeps(&down, links, flows, rel, j);
    lemma_post_keeps(&up, links, flows, rel, j);
}

} // verus!
