use flapjack::amount::Amount;

fn amount(text: &str) -> Amount {
    Amount::parse(text).unwrap()
}

#[test]
fn numerals_are_read_and_written() {
    for text in ["0", "7", "50", "25.50", "0.5", "-0.25", "123456789012345678901234567890.000001"] {
        assert_eq!(amount(text).to_string(), text);
    }
}

#[test]
fn a_numeral_is_written_in_its_plain_form() {
    assert_eq!(amount("+5").to_string(), "5");
    assert_eq!(amount("007").to_string(), "7");
    assert_eq!(amount(".5").to_string(), "0.5");
    assert_eq!(amount("5.").to_string(), "5");
    assert_eq!(amount("-.50").to_string(), "-0.50");
    assert_eq!(amount("-0").to_string(), "0");
    assert_eq!(amount("-0.00").to_string(), "0.00");
    assert_eq!(amount("000.010").to_string(), "0.010");
}

#[test]
fn what_is_no_numeral_is_not_read() {
    for text in [
        "", ".", "+", "-", "+-1", "1.2.3", "1e5", "inf", "NaN", " 1", "1 ", "1,5", "0x10", "١٢", "--1",
        "1_000", "a",
    ] {
        assert!(Amount::parse(text).is_none(), "{:?} was read", text);
    }
}

#[test]
fn sums_are_exact() {
    assert_eq!(amount("50").plus(&amount("25.5")).to_string(), "75.5");
    assert_eq!(amount("0.1").plus(&amount("0.2")).to_string(), "0.3");
    assert_eq!(amount("999.99").plus(&amount("0.01")).to_string(), "1000.00");
    assert_eq!(amount("-3").plus(&amount("1.25")).to_string(), "-1.75");
    assert_eq!(amount("3").plus(&amount("-4.5")).to_string(), "-1.5");
    assert_eq!(amount("-2.50").plus(&amount("2.5")).to_string(), "0.00");
    assert_eq!(
        amount("99999999999999999999999999").plus(&amount("1")).to_string(),
        "100000000000000000000000000"
    );
}

#[test]
fn differences_are_exact() {
    assert_eq!(amount("75.5").minus(&amount("10.5")).to_string(), "65.0");
    assert_eq!(amount("1").minus(&amount("0.001")).to_string(), "0.999");
    assert_eq!(amount("0").minus(&amount("7")).to_string(), "-7");
    assert_eq!(amount("-1").minus(&amount("-1")).to_string(), "0");
    assert_eq!(amount("1000").minus(&amount("1")).to_string(), "999");
}

#[test]
fn the_sign_is_changed() {
    assert_eq!(amount("2.5").negated().to_string(), "-2.5");
    assert_eq!(amount("-2.5").negated().to_string(), "2.5");
    assert_eq!(amount("0.0").negated().to_string(), "0.0");
}

#[test]
fn values_are_compared_whatever_the_scale() {
    assert!(amount("75.5").same_value(&amount("75.50")));
    assert!(amount("0").same_value(&amount("-0.000")));
    assert!(!amount("75.5").same_value(&amount("75.05")));
    assert!(!amount("1").same_value(&amount("-1")));
    assert!(amount("0.00").is_zero());
    assert!(!amount("0.01").is_zero());
}

#[test]
fn whole_amounts_are_made_from_integers() {
    assert_eq!(Amount::from_i64(0).to_string(), "0");
    assert_eq!(Amount::from_i64(-15).to_string(), "-15");
    assert_eq!(Amount::from_i64(1200).to_string(), "1200");
    assert_eq!(Amount::from_i64(i64::MAX).to_string(), "9223372036854775807");
    assert_eq!(Amount::from_i64(i64::MIN).to_string(), "-9223372036854775808");
    assert_eq!(Amount::zero().to_string(), "0");
    assert!(Amount::zero().is_zero());
}

#[test]
fn a_numeral_that_is_written_reads_back_as_the_same_amount() {
    for text in ["12.340", "-0.07", "5", "0.000"] {
        let first = amount(text);
        let again = amount(&first.to_string());
        assert_eq!(again.to_string(), first.to_string());
        assert!(again.same_value(&first));
        assert!(first.clone().same_value(&first));
    }
}

fn next(state: &mut u64) -> u64 {
    *state = state.wrapping_mul(6364136223846793005).wrapping_add(1442695040888963407);
    *state >> 33
}

/// The numeral of `units / 10^scale`.
fn numeral(units: i128, scale: usize) -> String {
    let digits = format!("{:0width$}", units.unsigned_abs(), width = scale + 1);
    let (whole, fraction) = digits.split_at(digits.len() - scale);
    let sign = if units < 0 { "-" } else { "" };
    if scale == 0 {
        format!("{}{}", sign, whole)
    } else {
        format!("{}{}.{}", sign, whole, fraction)
    }
}

#[test]
fn sums_and_differences_are_those_of_the_integers() {
    let mut state = 3;
    for _ in 0..20000 {
        let scale_a = (next(&mut state) % 5) as usize;
        let scale_b = (next(&mut state) % 5) as usize;
        let bound = [10u64, 1000, 1_000_000, 1 << 31][(next(&mut state) % 4) as usize];
        let a = (next(&mut state) % bound) as i128 - (bound / 2) as i128;
        let b = (next(&mut state) % bound) as i128 - (bound / 2) as i128;
        let scale = scale_a.max(scale_b);
        let a_units = a * 10i128.pow((scale - scale_a) as u32);
        let b_units = b * 10i128.pow((scale - scale_b) as u32);
        let x = amount(&numeral(a, scale_a));
        let y = amount(&numeral(b, scale_b));
        assert_eq!(x.to_string(), numeral(a, scale_a));
        assert_eq!(x.plus(&y).to_string(), numeral(a_units + b_units, scale));
        assert_eq!(x.minus(&y).to_string(), numeral(a_units - b_units, scale));
        assert_eq!(x.same_value(&y), a_units == b_units);
        assert_eq!(x.negated().to_string(), numeral(-a, scale_a));
    }
}
