use aries::validator::models::time::{DurativeAction, Rational, TemporalInterval, Timepoint, TimepointKind};

#[test]
fn eval() {
    let a = DurativeAction::new(
        "d".to_string(),
        Timepoint::fixed(Rational::from_int(5)),
        Timepoint::fixed(Rational::from_int(10)),
    );

    let kinds = [
        TimepointKind::GlobalStart,
        TimepointKind::GlobalEnd,
        TimepointKind::Start,
        TimepointKind::End,
    ];
    let delays = [0, 2, -2];
    let expected = [0, 30, 5, 10, 2, 32, 7, 12, -2, 28, 3, 8];
    for i in 0..delays.len() {
        for j in 0..kinds.len() {
            let delay = delays[i];
            let kind = kinds[j].clone();
            let expect = expected[i * kinds.len() + j];
            assert_eq!(
                Timepoint::new(kind, Rational::from_int(delay)).eval(Some(&a.clone()), &Rational::from_int(30)),
                Rational::from_int(expect)
            );
        }
    }
}

#[test]
fn contains() {
    let start = Timepoint::fixed(Rational::from_int(5));
    let end = Timepoint::fixed(Rational::from_int(10));
    let timepoints = [Rational::from_int(5), Rational::new(15, 2), Rational::from_int(10)];
    let global_end = &Rational::from_int(30);

    for is_start_open in [true, false] {
        for is_end_open in [true, false] {
            let i = TemporalInterval::new(start.clone(), end.clone(), is_start_open, is_end_open);
            for timepoint in timepoints.iter() {
                let expected = timepoint == &timepoints[1]
                    || (!is_start_open && timepoint == &timepoints[0])
                    || (!is_end_open && timepoint == &timepoints[2]);
                assert_eq!(i.contains(timepoint, None, global_end), expected);
            }
        }
    }
}

#[test]
fn eval_adds_fractions_exactly() {
    let t = Timepoint::new(TimepointKind::GlobalEnd, Rational::new(1, 3));
    let r = t.eval(None, &Rational::new(1, 2));
    assert_eq!(r, Rational::new(5, 6));
    assert_eq!(r.num, vec![5]);
    assert_eq!(r.den, vec![6]);
}

#[test]
fn eval_reduces_the_sum() {
    let t = Timepoint::new(TimepointKind::GlobalEnd, Rational::new(1, 4));
    let r = t.eval(None, &Rational::new(1, 4));
    assert_eq!(r.num, vec![1]);
    assert_eq!(r.den, vec![2]);
}

#[test]
fn eval_without_container_uses_the_problem_bounds() {
    let ge = Rational::from_int(30);
    assert_eq!(Timepoint::at_start().eval(None, &ge), Rational::from_int(0));
    assert_eq!(Timepoint::at_end().eval(None, &ge), Rational::from_int(30));
    assert_eq!(Timepoint::default().eval(None, &ge), Rational::from_int(0));
}

#[test]
fn eval_is_exact_beyond_machine_integers() {
    let t = Timepoint::new(TimepointKind::GlobalEnd, Rational::from_int(i64::MAX));
    let r = t.eval(None, &Rational::from_int(i64::MAX));
    assert!(!r.neg);
    assert_eq!(r.num, vec![(i64::MAX as u64) * 2]);
    assert_eq!(r.den, vec![1]);
    let big = Rational { neg: false, num: vec![u64::MAX], den: vec![1] };
    let s = Timepoint::new(TimepointKind::GlobalEnd, big.clone()).eval(None, &big);
    assert_eq!(s.num, vec![u64::MAX - 1, 1]);
    let u = Timepoint::new(TimepointKind::GlobalEnd, Rational::from_int(i64::MIN));
    assert_eq!(u.eval(None, &Rational::from_int(1)), Rational::from_int(i64::MIN + 1));
    let n = Timepoint::new(TimepointKind::GlobalEnd, Rational::from_int(i64::MIN)).eval(None, &Rational::from_int(i64::MIN));
    assert!(n.neg);
    assert_eq!(n.num, vec![0, 1]);
}

#[test]
fn interval_at_start_holds_only_the_start() {
    let a = DurativeAction::new(
        "a".to_string(),
        Timepoint::fixed(Rational::from_int(4)),
        Timepoint::fixed(Rational::from_int(9)),
    );
    let i = TemporalInterval::at_start();
    assert_eq!(i.contains(&Rational::from_int(4), Some(&a), &Rational::from_int(20)), true);
    assert_eq!(i.contains(&Rational::from_int(5), Some(&a), &Rational::from_int(20)), false);
    assert!(!i.is_start_open());
    assert!(!i.is_end_open());
    assert_eq!(i.start().kind, TimepointKind::Start);
    assert_eq!(i.end().kind, TimepointKind::Start);
}

#[test]
fn rationals_compare_by_value() {
    assert_eq!(Rational::new(2, 4), Rational::new(1, 2));
    assert!(Rational::new(-1, 2).le(&Rational::new(1, 3)));
    assert!(!Rational::new(1, 2).le(&Rational::new(1, 3)));
    assert!(Rational::new(3, 9).equals(&Rational::new(1, 3)));
}
