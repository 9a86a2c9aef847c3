use mehweb::distance::Distance;
use mehweb::distance::DistanceOrdering;
use mehweb::distance::parse_shorthand;

#[test]
fn distance_arithmetic_resolves_mixed_sum() {
    // Absolute(10) + Relative(0.5) against a 200px container is 110.
    let d = Distance::Absolute(10).add(Distance::Relative(500));
    assert_eq!(d, Distance::Combo(10, 500));
    assert_eq!(d.to_absolute(200), Some(110));
}

#[test]
fn distance_add_promotes_shapes() {
    assert_eq!(Distance::zero(), Distance::Absolute(0));
    assert_eq!(
        Distance::Absolute(3).add(Distance::Absolute(4)),
        Distance::Absolute(7)
    );
    assert_eq!(
        Distance::Relative(100).add(Distance::Relative(200)),
        Distance::Relative(300)
    );
    assert_eq!(
        Distance::Relative(250).add(Distance::Absolute(5)),
        Distance::Combo(5, 250)
    );
    assert_eq!(
        Distance::Combo(5, 250).add(Distance::Combo(1, 50)),
        Distance::Combo(6, 300)
    );
    assert_eq!(Distance::Auto.add(Distance::Absolute(1)), Distance::Auto);
}

#[test]
fn distance_sub_mirrors_add() {
    assert_eq!(
        Distance::Absolute(10).sub(Distance::Absolute(4)),
        Distance::Absolute(6)
    );
    assert_eq!(
        Distance::Absolute(10).sub(Distance::Relative(200)),
        Distance::Combo(10, -200)
    );
}

#[test]
fn distance_auto_resolution_is_an_error() {
    assert_eq!(Distance::Auto.to_absolute(500), None);
}

#[test]
fn distance_resolution_truncates_toward_zero() {
    // 1/3 of 100 truncates to 33; the negated fraction to -33.
    assert_eq!(Distance::Relative(333).to_absolute(100), Some(33));
    assert_eq!(Distance::Relative(-333).to_absolute(100), Some(-33));
}

#[test]
fn distance_comparison_same_shapes() {
    assert_eq!(
        Distance::Absolute(1).compare(&Distance::Absolute(2)),
        Some(DistanceOrdering::Less)
    );
    assert_eq!(
        Distance::Relative(500).compare(&Distance::Relative(500)),
        Some(DistanceOrdering::Equal)
    );
    assert_eq!(
        Distance::Combo(2, 300).compare(&Distance::Combo(1, 200)),
        Some(DistanceOrdering::Greater)
    );
}

#[test]
fn distance_comparison_incomparable_shapes() {
    assert_eq!(Distance::Absolute(1).compare(&Distance::Relative(1)), None);
    assert_eq!(Distance::Auto.compare(&Distance::Auto), None);
    // Combo components that disagree in direction are incomparable.
    assert_eq!(Distance::Combo(1, 300).compare(&Distance::Combo(2, 200)), None);
}

#[test]
fn distance_parse_units() {
    assert_eq!(Distance::from_text("10px", 16), Some(Distance::Absolute(10)));
    assert_eq!(Distance::from_text("50%", 16), Some(Distance::Relative(500)));
    assert_eq!(Distance::from_text("2em", 16), Some(Distance::Absolute(32)));
    assert_eq!(Distance::from_text("auto", 16), Some(Distance::Auto));
    assert_eq!(Distance::from_text("0", 16), Some(Distance::Absolute(0)));
    assert_eq!(Distance::from_text("-5px", 16), Some(Distance::Absolute(-5)));
    assert_eq!(Distance::from_text(" 12px ", 16), Some(Distance::Absolute(12)));
}

#[test]
fn distance_parse_rejects_unknown_suffix() {
    assert_eq!(Distance::from_text("10pt", 16), None);
    assert_eq!(Distance::from_text("", 16), None);
    assert_eq!(Distance::from_text("px", 16), None);
    // A number too long to represent is a parse failure.
    assert_eq!(Distance::from_text("123456789px", 16), None);
}

#[test]
fn distance_parse_plus_sums_parts() {
    assert_eq!(
        Distance::from_text("10px + 50%", 16),
        Some(Distance::Combo(10, 500))
    );
    assert_eq!(
        Distance::from_text("1px+2px+3px", 16),
        Some(Distance::Absolute(6))
    );
    assert_eq!(Distance::from_text("10px +", 16), None);
}

#[test]
fn shorthand_expansion_edge_order() {
    let one = parse_shorthand("5px", 16).unwrap();
    assert_eq!(
        (one.top, one.right, one.bottom, one.left),
        (
            Distance::Absolute(5),
            Distance::Absolute(5),
            Distance::Absolute(5),
            Distance::Absolute(5)
        )
    );
    let two = parse_shorthand("1px 2px", 16).unwrap();
    assert_eq!(
        (two.top, two.right, two.bottom, two.left),
        (
            Distance::Absolute(1),
            Distance::Absolute(2),
            Distance::Absolute(1),
            Distance::Absolute(2)
        )
    );
    let three = parse_shorthand("1px 2px 3px", 16).unwrap();
    assert_eq!(
        (three.top, three.right, three.bottom, three.left),
        (
            Distance::Absolute(1),
            Distance::Absolute(2),
            Distance::Absolute(3),
            Distance::Absolute(2)
        )
    );
    let four = parse_shorthand("1px 2px 3px 4px", 16).unwrap();
    assert_eq!(
        (four.top, four.right, four.bottom, four.left),
        (
            Distance::Absolute(1),
            Distance::Absolute(2),
            Distance::Absolute(3),
            Distance::Absolute(4)
        )
    );
}

#[test]
fn shorthand_rejects_bad_part() {
    assert_eq!(parse_shorthand("1px nope", 16), None);
}
