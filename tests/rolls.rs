use dice_roller::{
    normalize, parse_terms, roll_dice, roll_range, sum_terms, DieRollTerm, RollError,
};

fn die(multiplier: i8, sides: u8) -> DieRollTerm {
    DieRollTerm::DieRoll { multiplier, sides }
}

#[test]
fn empty_expression_is_rejected() {
    assert_eq!(roll_dice(String::from("")).err(), Some(RollError::EmptyExpression));
    assert_eq!(roll_dice(String::from("   ")).err(), Some(RollError::EmptyExpression));
}

#[test]
fn text_without_terms_is_rejected() {
    assert_eq!(roll_dice(String::from("abc")).err(), Some(RollError::EmptyExpression));
    assert_eq!(roll_dice(String::from("+-d")).err(), Some(RollError::EmptyExpression));
}

#[test]
fn three_d_six() {
    for _ in 0..200 {
        let roll = roll_dice(String::from("3d6")).unwrap();
        assert_eq!(roll.expression(), "3d6");
        let values = roll.values();
        assert_eq!(values.len(), 1);
        assert_eq!(values[0].0, die(3, 6));
        assert_eq!(values[0].1.len(), 3);
        assert!(values[0].1.iter().all(|v| (1..=6).contains(v)));
        assert_eq!(roll.total(), values[0].1.iter().sum::<i32>());
    }
}

#[test]
fn three_d_six_plus_two() {
    for _ in 0..200 {
        let roll = roll_dice(String::from("3d6+2")).unwrap();
        let values = roll.values();
        assert_eq!(values.len(), 2);
        assert_eq!(values[0].0, die(3, 6));
        assert_eq!(values[1].0, DieRollTerm::Modifier(2));
        assert_eq!(values[1].1, vec![2]);
        assert!(values[0].1.iter().all(|v| (1..=6).contains(v)));
        assert_eq!(roll.total(), values[0].1.iter().sum::<i32>() + 2);
    }
}

#[test]
fn negative_dice_subtract() {
    for _ in 0..200 {
        let roll = roll_dice(String::from("-2d4")).unwrap();
        let values = roll.values();
        assert_eq!(values.len(), 1);
        assert_eq!(values[0].0, die(-2, 4));
        assert_eq!(values[0].1.len(), 2);
        assert!(values[0].1.iter().all(|v| (1..=4).contains(v)));
        assert_eq!(roll.total(), -values[0].1.iter().sum::<i32>());
    }
}

#[test]
fn total_is_sum_of_contributions() {
    for _ in 0..100 {
        let roll = roll_dice(String::from("2d6 - 1d4 + 3 - 2")).unwrap();
        assert_eq!(roll.expression(), "2d6-1d4+3-2");
        let values = roll.values();
        let terms: Vec<DieRollTerm> = values.iter().map(|v| v.0).collect();
        assert_eq!(
            terms,
            vec![die(2, 6), die(-1, 4), DieRollTerm::Modifier(3), DieRollTerm::Modifier(-2)]
        );
        let expected: i32 = values.iter().map(DieRollTerm::calculate).sum();
        assert_eq!(roll.total(), expected);
        let dice: i32 = values[0].1.iter().sum();
        assert_eq!(roll.total(), dice - values[1].1[0] + 1);
    }
}

#[test]
fn roll_range_cases() {
    assert_eq!(roll_range(5, 1), Err(RollError::InvalidRange));
    for _ in 0..200 {
        assert_eq!(roll_range(3, 3), Ok(3));
        let v = roll_range(1, 6).unwrap();
        assert!((1..=6).contains(&v));
    }
    assert_eq!(roll_range(i32::MAX, i32::MAX), Ok(i32::MAX));
    assert_eq!(roll_range(i32::MIN, i32::MIN), Ok(i32::MIN));
}

#[test]
fn parsing_twice_gives_same_terms() {
    let a = parse_terms("4d10 + 1d2 - 7").unwrap();
    let b = parse_terms("4d10 + 1d2 - 7").unwrap();
    assert_eq!(a, b);
    assert_eq!(a, parse_terms("4d10+1d2-7").unwrap());
    assert_eq!(a, vec![die(4, 10), die(1, 2), DieRollTerm::Modifier(-7)]);
    let r1 = roll_dice(String::from("4d10 + 1d2 - 7")).unwrap();
    let r2 = roll_dice(String::from("4d10 + 1d2 - 7")).unwrap();
    assert_eq!(r1.expression(), r2.expression());
    let t1: Vec<DieRollTerm> = r1.values().iter().map(|v| v.0).collect();
    let t2: Vec<DieRollTerm> = r2.values().iter().map(|v| v.0).collect();
    assert_eq!(t1, t2);
}

#[test]
fn evaluate_die_roll_draws_in_range() {
    for _ in 0..100 {
        let (t, values) = die(-5, 8).evaluate().unwrap();
        assert_eq!(t, die(-5, 8));
        assert_eq!(values.len(), 5);
        assert!(values.iter().all(|v| (1..=8).contains(v)));
    }
    let (_, values) = die(-128, 255).evaluate().unwrap();
    assert_eq!(values.len(), 128);
    assert!(values.iter().all(|v| (1..=255).contains(v)));
}

#[test]
fn evaluate_modifier_is_itself() {
    assert_eq!(
        DieRollTerm::Modifier(-4).evaluate(),
        Ok((DieRollTerm::Modifier(-4), vec![-4]))
    );
}

#[test]
fn sideless_dice_are_an_invalid_range() {
    assert_eq!(die(3, 0).evaluate(), Err(RollError::InvalidRange));
    assert_eq!(roll_dice(String::from("2+3d0")).err(), Some(RollError::InvalidRange));
    let roll = roll_dice(String::from("0d0+5")).unwrap();
    assert_eq!(roll.total(), 5);
    assert_eq!(roll.values()[0].1.len(), 0);
}

#[test]
fn whitespace_is_removed() {
    assert_eq!(normalize(" 3 d 6 +\t2\n"), "3d6+2");
    assert_eq!(normalize("\u{a0}1d4\u{2003}"), "1d4");
    assert_eq!(normalize(""), "");
    assert_eq!(parse_terms("- 2 d 6").unwrap(), vec![die(-2, 6)]);
}

#[test]
fn upper_case_die_letter() {
    assert_eq!(parse_terms("3D6").unwrap(), vec![die(3, 6)]);
}

#[test]
fn stray_characters_are_skipped() {
    assert_eq!(
        parse_terms("x3d6?+2d").unwrap(),
        vec![die(3, 6), DieRollTerm::Modifier(2)]
    );
    assert_eq!(parse_terms("d6").unwrap(), vec![DieRollTerm::Modifier(6)]);
    assert_eq!(parse_terms("+-3").unwrap(), vec![DieRollTerm::Modifier(-3)]);
    assert_eq!(
        parse_terms("1d6d6").unwrap(),
        vec![die(1, 6), DieRollTerm::Modifier(6)]
    );
    assert_eq!(
        parse_terms("2d+3").unwrap(),
        vec![DieRollTerm::Modifier(2), DieRollTerm::Modifier(3)]
    );
}

#[test]
fn number_limits() {
    assert_eq!(parse_terms("127").unwrap(), vec![DieRollTerm::Modifier(127)]);
    assert_eq!(parse_terms("-128").unwrap(), vec![DieRollTerm::Modifier(-128)]);
    assert_eq!(parse_terms("+007").unwrap(), vec![DieRollTerm::Modifier(7)]);
    assert_eq!(parse_terms("128"), Err(RollError::NumericOverflow));
    assert_eq!(parse_terms("-129"), Err(RollError::NumericOverflow));
    assert_eq!(parse_terms("99999999999999999999"), Err(RollError::NumericOverflow));
    assert_eq!(parse_terms("-128d255").unwrap(), vec![die(-128, 255)]);
    assert_eq!(parse_terms("3d256"), Err(RollError::NumericOverflow));
    assert_eq!(parse_terms("128d6"), Err(RollError::NumericOverflow));
    assert_eq!(roll_dice(String::from("1d6+300")).err(), Some(RollError::NumericOverflow));
}

#[test]
fn parse_reads_one_term() {
    let chars: Vec<char> = "x-12d20+4".chars().collect();
    assert_eq!(DieRollTerm::parse(&chars, 1), (Ok(die(-12, 20)), 7));
    assert_eq!(DieRollTerm::parse(&chars, 7), (Ok(DieRollTerm::Modifier(4)), 9));
    let big: Vec<char> = "200".chars().collect();
    assert_eq!(DieRollTerm::parse(&big, 0), (Err(RollError::NumericOverflow), 3));
}

#[test]
fn calculate_values() {
    assert_eq!(DieRollTerm::calculate(&(die(3, 6), vec![1, 5, 6])), 12);
    assert_eq!(DieRollTerm::calculate(&(die(-2, 4), vec![4, 3])), -7);
    assert_eq!(DieRollTerm::calculate(&(DieRollTerm::Modifier(-9), vec![-9])), -9);
    assert_eq!(DieRollTerm::calculate(&(die(0, 6), vec![])), 0);
}

#[test]
fn sum_terms_exact() {
    let ev = vec![
        (die(2, 6), vec![3, 4]),
        (DieRollTerm::Modifier(2), vec![2]),
        (die(-1, 4), vec![3]),
    ];
    assert_eq!(sum_terms(&ev), Ok(6));
    assert_eq!(sum_terms(&vec![]), Ok(0));
}

#[test]
fn sum_terms_overflow() {
    let term = (die(-128, 255), vec![255; 128]);
    let ev = vec![term; 65794];
    assert_eq!(sum_terms(&ev), Err(RollError::TotalOverflow));
    let fits = vec![(die(-128, 255), vec![255; 128]); 65793];
    assert_eq!(sum_terms(&fits), Ok(-65793 * 32640));
}

#[test]
fn error_messages() {
    assert_eq!(
        RollError::EmptyExpression.message(),
        "Invalid die roll expression: no die roll terms found."
    );
    assert_eq!(
        RollError::InvalidRange.message(),
        "Invalid range: min must be less than or equal to max"
    );
    assert!(RollError::NumericOverflow.message().contains("does not fit"));
    assert!(RollError::TotalOverflow.message().contains("total"));
}
