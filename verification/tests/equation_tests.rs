use fraction_fun::equation::Equation;
use fraction_fun::errors::ParseError;

#[test]
fn it_works() {
    let out = Equation::from_str("1 + 1").unwrap().solve().unwrap().to_string();
    assert_eq!(out, "2");
}

#[test]
#[should_panic]
fn zero_denominator_breaks() {
    Equation::from_str("1 - 1/0").unwrap().solve().unwrap().to_string();
}

#[test]
#[should_panic]
fn too_many_args_breaks() {
    Equation::from_str("1 - 1/1 + 2").unwrap().solve().unwrap().to_string();
}

#[test]
#[should_panic]
fn too_few_args_breaks() {
    Equation::from_str("1 -").unwrap().solve().unwrap().to_string();
}

#[test]
#[should_panic]
fn invalid_operand_breaks() {
    Equation::from_str("1 ^ 2").unwrap().solve().unwrap().to_string();
}

#[test]
#[should_panic]
fn div_by_zero_breaks() {
    Equation::from_str("1 / 0").unwrap().solve().unwrap().to_string();
}

#[test]
fn it_adds() {
    let frac = Equation::from_str("1/2 + 1/2").unwrap().solve().unwrap().to_string();
    let mix = Equation::from_str("1_1/2 + 1/2").unwrap().solve().unwrap().to_string();
    let neg_mix = Equation::from_str("1_1/2 + -1/2").unwrap().solve().unwrap().to_string();
    let neg_denom = Equation::from_str("1/2 + 1/-2").unwrap().solve().unwrap().to_string();
    let zero_num = Equation::from_str("1/2 + 0/2").unwrap().solve().unwrap().to_string();
    assert_eq!(frac, "1");
    assert_eq!(mix, "2");
    assert_eq!(neg_mix, "1");
    assert_eq!(neg_denom, "0");
    assert_eq!(zero_num, "1/2");
}

#[test]
fn it_suptracts() {
    let frac = Equation::from_str("1/2 - 1/2").unwrap().solve().unwrap().to_string();
    let mix = Equation::from_str("1_1/2 - 1/2").unwrap().solve().unwrap().to_string();
    let neg_mix = Equation::from_str("1_1/2 - -1/2").unwrap().solve().unwrap().to_string();
    let neg_denom = Equation::from_str("1/2 - 1/-2").unwrap().solve().unwrap().to_string();
    let zero_num = Equation::from_str("1/2 - 0/2").unwrap().solve().unwrap().to_string();
    assert_eq!(frac, "0");
    assert_eq!(mix, "1");
    assert_eq!(neg_mix, "2");
    assert_eq!(neg_denom, "1");
    assert_eq!(zero_num, "1/2");
}

#[test]
fn it_multiplies() {
    let frac = Equation::from_str("1/2 x 1/2").unwrap().solve().unwrap().to_string();
    let mix = Equation::from_str("1_1/2 x 1/2").unwrap().solve().unwrap().to_string();
    let neg_mix = Equation::from_str("1_1/2 x -1/2").unwrap().solve().unwrap().to_string();
    let neg_denom = Equation::from_str("1/2 x 1/-2").unwrap().solve().unwrap().to_string();
    let zero_num = Equation::from_str("1/2 x 0/2").unwrap().solve().unwrap().to_string();
    assert_eq!(frac, "1/4");
    assert_eq!(mix, "3/4");
    assert_eq!(neg_mix, "-3/4");
    assert_eq!(neg_denom, "-1/4");
    assert_eq!(zero_num, "0");
}

#[test]
fn it_divides() {
    let frac = Equation::from_str("1/2 / 1/2").unwrap().solve().unwrap().to_string();
    let mix = Equation::from_str("1_1/2 / 1/2").unwrap().solve().unwrap().to_string();
    let neg_mix = Equation::from_str("1_1/2 / -1/2").unwrap().solve().unwrap().to_string();
    let neg_denom = Equation::from_str("1/2 / 1/-2").unwrap().solve().unwrap().to_string();
    let zero_num = Equation::from_str("0/2 / 1/2").unwrap().solve().unwrap().to_string();
    assert_eq!(frac, "1");
    assert_eq!(mix, "3");
    assert_eq!(neg_mix, "-3");
    assert_eq!(neg_denom, "-1");
    assert_eq!(zero_num, "0");
}

#[test]
fn line_scenarios() {
    let cases = [
        ("1 + 1", "2"),
        ("1/2 + 1/2", "1"),
        ("1_1/2 + 1/2", "2"),
        ("1/2 x 0/2", "0"),
        ("1_1/2 / -1/2", "-3"),
        ("1/2 x 1/-2", "-1/4"),
    ];
    for (line, expected) in cases {
        let out = Equation::from_str(line).unwrap().solve().unwrap().to_string();
        assert_eq!(out, expected, "for input {:?}", line);
    }
}

#[test]
fn error_scenarios() {
    assert!(matches!(
        Equation::from_str("1 - 1/0"),
        Err(ParseError::DivByZeroError)
    ));
    assert!(matches!(
        Equation::from_str("1 - 1/1 + 2"),
        Err(ParseError::TooManyOrTooFewArguments)
    ));
    assert!(matches!(
        Equation::from_str("1 -"),
        Err(ParseError::TooManyOrTooFewArguments)
    ));
    assert!(matches!(
        Equation::from_str("1 ^ 2"),
        Err(ParseError::UnsupportedOperand)
    ));
    assert!(matches!(
        Equation::from_str("1 / 0").unwrap().solve(),
        Err(ParseError::DivByZeroError)
    ));
    assert!(matches!(
        Equation::from_str("a + 1"),
        Err(ParseError::ParseIntError)
    ));
    assert!(matches!(
        Equation::from_str("1/2/3/4 + 1"),
        Err(ParseError::UnexpectedError)
    ));
}

#[test]
fn tolerates_surrounding_whitespace() {
    let out = Equation::from_str(" 1/2  +\t1/2\n").unwrap().solve().unwrap().to_string();
    assert_eq!(out, "1");
}

#[test]
fn divides_by_fraction_worth_zero() {
    assert!(matches!(
        Equation::from_str("1/2 / 0/5").unwrap().solve(),
        Err(ParseError::DivByZeroError)
    ));
}
