use slight::range::{limit, Range};
use slight::Curve;
use slight::{Amount, Error, Input, Sign, Step, MAX_ITER_DEFAULT};

fn whole(sign: Sign, n: u64) -> Amount {
    Amount::new(sign, n, 0)
}

fn ramp(curr: usize, max: usize, input: &str) -> Vec<usize> {
    let r = Range::new(curr, Curve::linear(max), MAX_ITER_DEFAULT);
    input.parse::<Input>().unwrap().iter_with(r)
}

#[test]
fn parse_correct_input_ok() -> Result<(), Error> {
    assert_eq!("10".parse::<Input>()?, Input::Absolute(whole(Sign::Plus, 10), Step::To));
    assert_eq!("-10".parse::<Input>()?, Input::Absolute(whole(Sign::Minus, 10), Step::By));
    assert_eq!("+10".parse::<Input>()?, Input::Absolute(whole(Sign::Plus, 10), Step::By));
    assert_eq!("10%".parse::<Input>()?, Input::Relative(whole(Sign::Plus, 10), Step::To));
    assert_eq!("-10%".parse::<Input>()?, Input::Relative(whole(Sign::Minus, 10), Step::By));
    assert_eq!("+10%".parse::<Input>()?, Input::Relative(whole(Sign::Plus, 10), Step::By));

    Ok(())
}

#[test]
fn parse_incorrect_input_err() {
    assert!("-%".parse::<Input>().is_err());
    assert!("-".parse::<Input>().is_err());
    assert!("%".parse::<Input>().is_err());
    assert!("+1a%".parse::<Input>().is_err());
    assert!("+-10".parse::<Input>().is_err());
    assert!("-+10".parse::<Input>().is_err());
    assert!("10%%".parse::<Input>().is_err());
}

#[test]
fn no_overflow() -> Result<(), Error> {
    let r = || Range::new(32, Curve::linear(64), 10);

    assert_eq!("100".parse::<Input>()?.iter_with(r()).last(), Some(&64));
    assert_eq!("-100".parse::<Input>()?.iter_with(r()).last(), Some(&0));
    assert_eq!("+100".parse::<Input>()?.iter_with(r()).last(), Some(&64));
    assert_eq!("-100%".parse::<Input>()?.iter_with(r()).last(), Some(&0));
    assert_eq!("+100%".parse::<Input>()?.iter_with(r()).last(), Some(&64));

    Ok(())
}

#[test]
fn parse_keeps_fraction_to_millionths() {
    assert_eq!(
        "12.5%".parse::<Input>().unwrap(),
        Input::Relative(Amount::new(Sign::Plus, 12, 500_000), Step::To)
    );
    assert_eq!(
        "-0.1234567".parse::<Input>().unwrap(),
        Input::Absolute(Amount::new(Sign::Minus, 0, 123_456), Step::By)
    );
    assert_eq!(
        ".5".parse::<Input>().unwrap(),
        Input::Absolute(Amount::new(Sign::Plus, 0, 500_000), Step::To)
    );
    assert_eq!(
        "7.".parse::<Input>().unwrap(),
        Input::Absolute(Amount::new(Sign::Plus, 7, 0), Step::To)
    );
}

#[test]
fn parse_saturates_huge_whole_part() {
    assert_eq!(
        "99999999999999999999999".parse::<Input>().unwrap(),
        Input::Absolute(Amount::new(Sign::Plus, u64::MAX, 0), Step::To)
    );
}

#[test]
fn parse_rejects_malformed_numbers() {
    for s in ["", ".", "1.2.3", "1,5", " 1", "1e3", "inf", "%10", "--1"] {
        assert!(matches!(s.parse::<Input>(), Err(Error::InvalidInput)), "{s}");
    }
}

#[test]
fn absolute_target_is_clamped() {
    assert_eq!(ramp(2, 5, "1000"), vec![3, 4, 5]);
    assert_eq!(ramp(2, 5, "-1000"), vec![1, 0]);
    assert_eq!(ramp(3, 5, "+99999999999999999999"), vec![4, 5]);
    assert_eq!(ramp(3, 5, "-99999999999999999999"), vec![2, 1, 0]);
    assert_eq!(ramp(1, 5, "3.9"), vec![2, 3]);
}

#[test]
fn every_level_within_range() {
    for input in ["100000", "-100000", "+100000", "-100000", "250%", "+100%", "-100%", "0"] {
        for curr in [0usize, 7, 20] {
            for level in ramp(curr, 20, input) {
                assert!(level <= 20, "{input} from {curr}");
            }
        }
    }
}

#[test]
fn no_op_when_target_is_current() {
    assert!(ramp(7, 20, "7").is_empty());
    assert!(ramp(7, 20, "+0").is_empty());
    assert!(ramp(20, 20, "+5").is_empty());
    assert!(ramp(0, 20, "-5").is_empty());
    assert!(ramp(10, 20, "50%").is_empty());
    assert!(ramp(10, 20, "+0%").is_empty());
    assert!(ramp(10, 20, "-0.9%").is_empty());
}

#[test]
fn relative_target_rounds_to_nearest() {
    // 1000 * 12.34 / 100 = 123.4
    assert_eq!(
        ramp(0, 1000, "12.34%").last(),
        Some(&123)
    );
    // 10 * 25 / 100 = 2.5, which rounds up
    assert_eq!(ramp(0, 10, "25%"), vec![1, 2, 3]);
    assert_eq!(ramp(5, 10, "0%"), vec![4, 3, 2, 1, 0]);
}

#[test]
fn relative_move_walks_the_curve() {
    // Linear curve of 10: positions 0..=100 give 0,0,...,1,... (p * 10 / 100).
    let r = Range::new(3, Curve::linear(10), 100);
    assert_eq!(
        "+3%".parse::<Input>().unwrap().iter_with(r),
        vec![4, 4, 4]
    );
    let r = Range::new(3, Curve::linear(10), 100);
    assert_eq!(
        "-12%".parse::<Input>().unwrap().iter_with(r),
        vec![2, 2, 2, 2, 2, 2, 2, 2, 2, 2, 1, 1]
    );
}

#[test]
fn relative_move_with_a_given_curve() {
    let mut levels: Vec<usize> = (0..=100).map(|p| (p * p) / 100).collect();
    levels[100] = 100;
    let curve = Curve::from_levels(100, levels).unwrap();
    let r = Range::new(50, curve, 100);
    assert_eq!(
        "+3%".parse::<Input>().unwrap().iter_with(r),
        vec![51, 53, 54]
    );
}

#[test]
fn curve_from_levels_checks_shape() {
    let good: Vec<usize> = (0..=100).collect();
    assert!(Curve::from_levels(100, good.clone()).is_some());
    assert!(Curve::from_levels(99, good.clone()).is_none());
    let mut down = good.clone();
    down.swap(10, 11);
    assert!(Curve::from_levels(100, down).is_none());
    assert!(Curve::from_levels(100, good[..100].to_vec()).is_none());
}

#[test]
fn linear_curve_is_monotonic_and_exact() {
    let c = Curve::linear(64);
    let levels = c.levels();
    assert_eq!(levels.len(), 101);
    assert_eq!(levels[0], 0);
    assert_eq!(levels[29], 18);
    assert_eq!(levels[50], 32);
    assert_eq!(levels[100], 64);
    for w in levels.windows(2) {
        assert!(w[0] <= w[1]);
    }
    assert_eq!(Curve::linear(usize::MAX).levels()[100], usize::MAX);
}

#[test]
fn limit_keeps_short_sequences() {
    assert_eq!(limit(vec![], 3), Vec::<usize>::new());
    assert_eq!(limit(vec![1, 2, 3], 3), vec![1, 2, 3]);
    assert_eq!(limit(vec![1, 2], 10), vec![1, 2]);
}

#[test]
fn limit_strides_and_keeps_last() {
    let seq: Vec<usize> = (1..=32).collect();
    // t = 9, stride = (32 + 9) / 9 - 1 = 3
    assert_eq!(limit(seq.clone(), 10), vec![1, 4, 7, 10, 13, 16, 19, 22, 25, 32]);
    assert_eq!(limit(seq.clone(), 2), vec![1, 32]);
    assert_eq!(limit(seq.clone(), 1), vec![32]);
    assert_eq!(limit(seq.clone(), 0), vec![32]);
    for n in 1..40 {
        let out = limit(seq.clone(), n);
        assert!(out.len() <= n);
        assert_eq!(out.last(), Some(&32));
    }
}

#[test]
fn ramp_from_32_of_64_has_ten_steps() {
    let v = ramp(32, 64, "100");
    assert_eq!(v.len(), 10);
    assert_eq!(v.first(), Some(&33));
    assert_eq!(v.last(), Some(&64));
}

#[test]
fn power_curve_is_exact() {
    let c = Curve::power(100, 2);
    assert_eq!(c.levels()[10], 1);
    assert_eq!(c.levels()[50], 25);
    assert_eq!(c.levels()[99], 98);
    assert_eq!(c.levels()[100], 100);
    // 50^4 * 64 / 100^4 = 4
    assert_eq!(Curve::power(64, 4).levels()[50], 4);
    let c = Curve::power(usize::MAX, 9);
    assert_eq!(c.levels()[100], usize::MAX);
    assert_eq!(c.levels()[0], 0);
    for w in c.levels().windows(2) {
        assert!(w[0] <= w[1]);
    }
    assert_eq!(Curve::power(64, 1).levels(), Curve::linear(64).levels());
}

#[test]
fn relative_move_on_exponent_four_curve() {
    // Levels of 100 at exponent 4 below 2: positions 0..=37 give 0 or 1.
    let r = Range::new(2, Curve::power(100, 4), 100);
    let down = "-3%".parse::<Input>().unwrap().iter_with(r);
    assert_eq!(down, vec![1, 1, 1]);
    let r = Range::new(2, Curve::power(100, 4), 2);
    let up = "+100%".parse::<Input>().unwrap().iter_with(r);
    assert_eq!(up.len(), 2);
    assert_eq!(up.last(), Some(&100));
}

#[test]
fn step_builds_inputs() {
    let a = Amount::new(Sign::Minus, 3, 250_000);
    assert_eq!(Step::By.absolute(a), Input::Absolute(a, Step::By));
    assert_eq!(Step::To.relative(a), Input::Relative(a, Step::To));
    assert_eq!(a.sign, Sign::Minus);
    assert_eq!(a.whole, 3);
    assert_eq!(a.micros, 250_000);
}
