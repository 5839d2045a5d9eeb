use reflow::incremental::{RestyleDamage, RestyleEffect};

fn every_damage() -> Vec<RestyleDamage> {
    let mut all = Vec::new();
    for bits in 0..16u8 {
        all.push(RestyleDamage {
            style: bits & 1 != 0,
            bubble_widths: bits & 2 != 0,
            reflow: bits & 4 != 0,
            repaint: bits & 8 != 0,
        });
    }
    all
}

#[test]
fn union_is_commutative_and_idempotent() {
    for d1 in every_damage() {
        assert_eq!(d1.union(d1), d1);
        for d2 in every_damage() {
            assert_eq!(d1.union(d2), d2.union(d1));
        }
    }
}

#[test]
fn union_in_place_is_union() {
    for d1 in every_damage() {
        for d2 in every_damage() {
            let mut d = d1;
            d.union_in_place(d2);
            assert_eq!(d, d1.union(d2));
        }
    }
}

#[test]
fn union_with_all_is_all() {
    for d in every_damage() {
        assert_eq!(d.union(RestyleDamage::all()), RestyleDamage::all());
        assert_eq!(d.union(RestyleDamage::none()), d);
    }
}

#[test]
fn none_and_all() {
    assert!(RestyleDamage::none().is_empty());
    assert!(!RestyleDamage::none().is_nonempty());
    assert!(RestyleDamage::all().is_nonempty());
    assert!(!RestyleDamage::all().is_empty());
    assert_eq!(RestyleDamage::for_resize(), RestyleDamage::all());
    for effect in [
        RestyleEffect::Style,
        RestyleEffect::BubbleWidths,
        RestyleEffect::Reflow,
        RestyleEffect::Repaint,
    ] {
        assert!(RestyleDamage::all().has(effect));
        assert!(RestyleDamage::none().lacks(effect));
    }
}

#[test]
fn add_sets_one_effect() {
    let d = RestyleDamage::none().add(RestyleEffect::Reflow);
    assert!(d.has(RestyleEffect::Reflow));
    assert!(d.lacks(RestyleEffect::Repaint));
    assert!(d.lacks(RestyleEffect::Style));
    assert!(d.lacks(RestyleEffect::BubbleWidths));
    assert_eq!(d.add(RestyleEffect::Reflow), d);
}

#[test]
fn intersect_keeps_what_both_hold() {
    let a = RestyleDamage::none().add(RestyleEffect::Reflow).add(RestyleEffect::Repaint);
    let b = RestyleDamage::none().add(RestyleEffect::Repaint).add(RestyleEffect::Style);
    assert_eq!(a.intersect(b), RestyleDamage::none().add(RestyleEffect::Repaint));
}

#[test]
fn propagate_up_hands_reflow_to_the_parent() {
    let reflow = RestyleDamage::none().add(RestyleEffect::Reflow);
    assert_eq!(reflow.propagate_up(), reflow);
    assert_eq!(RestyleDamage::none().add(RestyleEffect::Style).propagate_up(), reflow);
    assert_eq!(RestyleDamage::none().add(RestyleEffect::Repaint).propagate_up(), RestyleDamage::none());
    assert_eq!(
        RestyleDamage::none().add(RestyleEffect::BubbleWidths).propagate_up(),
        RestyleDamage::none()
    );
    assert_eq!(RestyleDamage::all().propagate_up(), reflow);
}

#[test]
fn propagate_down_hands_style_to_the_children_in_full() {
    let bubble = RestyleDamage::none().add(RestyleEffect::BubbleWidths);
    assert_eq!(bubble.propagate_down(), bubble);
    assert_eq!(RestyleDamage::none().add(RestyleEffect::Style).propagate_down(), RestyleDamage::all());
    assert_eq!(RestyleDamage::none().add(RestyleEffect::Reflow).propagate_down(), RestyleDamage::none());
    assert_eq!(RestyleDamage::none().add(RestyleEffect::Repaint).propagate_down(), RestyleDamage::none());
    assert_eq!(
        bubble.add(RestyleEffect::Repaint).add(RestyleEffect::Reflow).propagate_down(),
        bubble
    );
}
