use osp_core::pairing::rules::{checked_scale_ladder, float_units, scale_ladder, FLOAT_BASE};

#[test]
fn float_units_decay_with_distance_and_stay_within_the_ladder_bound() {
    // Never floated that way: nothing to repeat.
    assert_eq!(float_units(None, 5), 0);
    // Floated in the round just gone: the full penalty.
    assert_eq!(float_units(Some(4), 5), FLOAT_BASE);
    // …and it decays as the float recedes, always strictly downwards.
    let mut previous = FLOAT_BASE;
    for round in 6..12u32 {
        let units = float_units(Some(4), round);
        assert!(units < previous, "round {round}: {units} vs {previous}");
        assert!(units > 0, "a float never stops counting entirely");
        previous = units;
    }
    // One direction can never exceed FLOAT_BASE.
    for round in 5..40u32 {
        assert!(float_units(Some(4), round) <= FLOAT_BASE);
    }
}

#[test]
fn scale_ladder_tiers_are_disjoint() {
    // Arbitrary per-rule worst-case totals, in priority order (highest first).
    let max_total = [7i128, 40, 13, 21, 5, 9];
    let mult = scale_ladder(&max_total);
    for i in 0..max_total.len() {
        let lower_max: i128 = ((i + 1)..max_total.len())
            .map(|j| mult[j] * max_total[j])
            .sum();
        assert_eq!(mult[i], 1 + lower_max);
        assert!(mult[i] > lower_max);
    }
    assert_eq!(mult[max_total.len() - 1], 1); // the lowest-priority rule is the unit
}

#[test]
fn an_overflowing_ladder_is_refused_rather_than_wrapped() {
    assert_eq!(checked_scale_ladder(&[i128::MAX / 2, i128::MAX / 2]), None);
    assert_eq!(checked_scale_ladder(&[3, 2]), Some(vec![3, 1]));
    assert_eq!(checked_scale_ladder(&[]), Some(vec![]));
}

#[test]
fn one_unit_of_a_rule_outweighs_every_lower_rule_at_its_worst() {
    // The lexicographic law on concrete values: a single unit of rule 0 beats
    // rule 1 and rule 2 both at their worst-case totals.
    let max_total = [4i128, 6, 3];
    let mult = scale_ladder(&max_total);
    assert_eq!(mult, vec![28, 4, 1]);
    let worst_below = mult[1] * max_total[1] + mult[2] * max_total[2];
    assert!(mult[0] > worst_below);
}
