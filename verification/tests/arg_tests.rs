use fraction_fun::arg::Arg;
use fraction_fun::errors::ParseError;

#[test]
fn test_mixed_to_improp() {
    let red = Arg { who: 0, num: 1, den: 2 }.mixed_to_improp();
    let big_frac = Arg { who: 0, num: 2, den: 4 }.mixed_to_improp();
    let mix = Arg { who: 3, num: 2, den: 4 }.mixed_to_improp();
    let who = Arg { who: 2, num: 0, den: 1 }.mixed_to_improp();
    let neg = Arg { who: -1, num: 1, den: 2 }.mixed_to_improp();
    let improp = Arg { who: 0, num: 9, den: 4 }.mixed_to_improp();

    assert_eq!(red, Arg { who: 0, num: 1, den: 2 });
    assert_eq!(big_frac, Arg { who: 0, num: 2, den: 4 }); // mixed_to_improp will not reduce for you
    assert_eq!(mix, Arg { who: 0, num: 14, den: 4 }); // mixed_to_improp will not reduce for you
    assert_eq!(who, Arg { who: 0, num: 2, den: 1 });
    assert_eq!(neg, Arg { who: 0, num: -3, den: 2 });
    assert_eq!(improp, Arg { who: 0, num: 9, den: 4 });
}

#[test]
fn test_improp_to_mixed() {
    let red = Arg { who: 0, num: 1, den: 2 }.improp_to_mixed();
    let big_frac = Arg { who: 0, num: 2, den: 4 }.improp_to_mixed();
    let mix = Arg { who: 3, num: 2, den: 4 }.improp_to_mixed();
    let improp = Arg { who: 0, num: 9, den: 4 }.improp_to_mixed();
    let neg = Arg { who: 0, num: -3, den: 2 }.improp_to_mixed();

    assert_eq!(red, Arg { who: 0, num: 1, den: 2 });
    assert_eq!(big_frac, Arg { who: 0, num: 2, den: 4 }); // improp_to_mixed will not reduce for you
    assert_eq!(mix, Arg { who: 3, num: 2, den: 4 }); // improp_to_mixed will not reduce for you
    assert_eq!(improp, Arg { who: 2, num: 1, den: 4 });
    assert_eq!(neg, Arg { who: -1, num: 1, den: 2 });
}

#[test]
fn test_reduce() {
    let red = Arg { who: 0, num: 1, den: 2 }.reduce();
    let big_frac = Arg { who: 0, num: 2, den: 4 }.reduce();
    let mix = Arg { who: 3, num: 2, den: 4 }.reduce();
    let improp = Arg { who: 0, num: -18, den: 4 }.reduce();
    let dumb = Arg { who: 0, num: -18, den: -4 }.reduce();

    assert_eq!(red, Arg { who: 0, num: 1, den: 2 });
    assert_eq!(big_frac, Arg { who: 0, num: 1, den: 2 });
    assert_eq!(mix, Arg { who: 0, num: 7, den: 2 });
    assert_eq!(improp, Arg { who: 0, num: -9, den: 2 });
    assert_eq!(dumb, Arg { who: 0, num: 9, den: 2 });
}

#[test]
fn test_gcd() {
    assert_eq!(Arg::gcd(3, 5), 1);
    assert_eq!(Arg::gcd(30, 6), 6);
}

#[test]
fn parse_whole_number() {
    assert_eq!(Arg::from_str("7").unwrap(), Arg { who: 7, num: 0, den: 1 });
    assert_eq!(Arg::from_str("-3").unwrap(), Arg { who: -3, num: 0, den: 1 });
    assert_eq!(Arg::from_str("+5").unwrap(), Arg { who: 5, num: 0, den: 1 });
}

#[test]
fn parse_pure_fraction() {
    assert_eq!(Arg::from_str("4/7").unwrap(), Arg { who: 0, num: 4, den: 7 });
    assert_eq!(Arg::from_str("1/-2").unwrap(), Arg { who: 0, num: 1, den: -2 });
    // Two segments count as N/D whichever separator produced them.
    assert_eq!(Arg::from_str("1_2").unwrap(), Arg { who: 0, num: 1, den: 2 });
}

#[test]
fn parse_mixed_number() {
    assert_eq!(Arg::from_str("-2_4/7").unwrap(), Arg { who: -2, num: 4, den: 7 });
    assert_eq!(Arg::from_str("2_4/7").unwrap(), Arg { who: 2, num: 4, den: 7 });
}

#[test]
fn parse_rejects_zero_denominator() {
    assert!(matches!(Arg::from_str("1/0"), Err(ParseError::DivByZeroError)));
    assert!(matches!(Arg::from_str("1_1/0"), Err(ParseError::DivByZeroError)));
}

#[test]
fn parse_rejects_bad_integers() {
    assert!(matches!(Arg::from_str("a"), Err(ParseError::ParseIntError)));
    assert!(matches!(Arg::from_str(""), Err(ParseError::ParseIntError)));
    assert!(matches!(Arg::from_str("1/b"), Err(ParseError::ParseIntError)));
    assert!(matches!(Arg::from_str("1.5"), Err(ParseError::ParseIntError)));
}

#[test]
fn parse_rejects_too_many_segments() {
    assert!(matches!(Arg::from_str("1/2/3/4"), Err(ParseError::UnexpectedError)));
    assert!(matches!(Arg::from_str("1_2_3_4"), Err(ParseError::UnexpectedError)));
}

#[test]
fn parse_rejects_value_out_of_range() {
    assert!(matches!(Arg::from_str("9999999999"), Err(ParseError::ParseIntError)));
    assert!(matches!(Arg::from_str("2147483648"), Err(ParseError::ParseIntError)));
    assert_eq!(
        Arg::from_str("2147483647").unwrap(),
        Arg { who: 2147483647, num: 0, den: 1 }
    );
    assert_eq!(
        Arg::from_str("-2147483648").unwrap(),
        Arg { who: -2147483648, num: 0, den: 1 }
    );
}

#[test]
fn render_picks_the_display_form() {
    assert_eq!(Arg { who: 5, num: 0, den: 9 }.to_string(), "5");
    assert_eq!(Arg { who: 0, num: -1, den: 4 }.to_string(), "-1/4");
    assert_eq!(Arg { who: -2, num: 4, den: 7 }.to_string(), "-2_4/7");
    assert_eq!(Arg { who: 0, num: 0, den: 1 }.to_string(), "0");
}

#[test]
fn render_parse_roundtrip_scenarios() {
    // Parse then render reproduces the token for canonical field layouts.
    for token in ["2_4/7", "-2_4/7", "4/7", "1/-2", "-3", "0", "12/8"] {
        assert_eq!(Arg::from_str(token).unwrap().to_string(), token);
    }
}

#[test]
fn improper_then_mixed_scenarios() {
    // Identity for values that are already proper pure fractions.
    let proper = Arg { who: 0, num: 1, den: 2 };
    assert_eq!(proper.mixed_to_improp().improp_to_mixed(), proper);
    let neg_proper = Arg { who: 0, num: -1, den: 3 };
    assert_eq!(neg_proper.mixed_to_improp().improp_to_mixed(), neg_proper);
    // Not the identity in general: the way back reduces.
    let mixed = Arg { who: 1, num: 2, den: 4 };
    assert_eq!(mixed.mixed_to_improp().improp_to_mixed(), Arg { who: 1, num: 1, den: 2 });
}

#[test]
fn reduce_is_idempotent_scenarios() {
    for a in [
        Arg { who: 3, num: 2, den: 4 },
        Arg { who: 0, num: -18, den: 4 },
        Arg { who: 0, num: 5, den: -10 },
        Arg { who: 0, num: 0, den: 6 },
    ] {
        let once = a.reduce();
        assert_eq!(once.reduce(), once);
    }
}

#[test]
fn reduce_denominator_is_positive() {
    for a in [
        Arg { who: 0, num: 1, den: -2 },
        Arg { who: 0, num: -18, den: -4 },
        Arg { who: -1, num: 1, den: 2 },
        Arg { who: 0, num: 0, den: -9 },
    ] {
        assert!(a.reduce().den > 0);
    }
}
