use aries::sat::lits::{BVal, BVar, Decision, Lit};
use aries::sat::solver::{SearchParams, Solver, Stats};

fn lit(v: i32) -> Lit {
    let var = BVar::from_bits(v.unsigned_abs());
    var.lit(v > 0)
}

fn clauses(cls: &[&[i32]]) -> Vec<Box<[Lit]>> {
    cls.iter()
        .map(|c| c.iter().map(|&l| lit(l)).collect::<Vec<Lit>>().into_boxed_slice())
        .collect()
}

fn solve(cls: &[&[i32]]) -> (Solver, Option<bool>, Stats) {
    let mut solver = Solver::init(clauses(cls));
    let mut stats = Stats::default();
    let r = solver.solve(&SearchParams::default(), &mut stats);
    (solver, r, stats)
}

#[test]
fn init_takes_the_largest_variable() {
    let solver = Solver::init(clauses(&[&[1, -4], &[2, 3, -1]]));
    assert_eq!(solver.num_vars(), 4);
    assert_eq!(solver.clauses.num_clauses(), 2);
    let vars = solver.variables();
    assert_eq!(vars.start().to_index(), 1);
    assert_eq!(vars.end().to_index(), 4);
}

#[test]
fn init_leaves_out_clauses_of_one_literal() {
    let solver = Solver::init(clauses(&[&[3], &[1, 2], &[]]));
    assert_eq!(solver.num_vars(), 3);
    assert_eq!(solver.clauses.num_clauses(), 1);
}

#[test]
fn satisfiable_problem_gives_a_valid_model() {
    let (solver, r, _) = solve(&[&[1, 2], &[-1, 3], &[-2, -3], &[2, 3], &[-1, -2, 4]]);
    assert_eq!(r, Some(true));
    assert!(solver.is_model_valid());
    for v in 1..=4u32 {
        assert_ne!(solver.assignments.get(BVar::from_bits(v)), BVal::Undef);
    }
}

#[test]
fn unsatisfiable_problem_is_refuted() {
    let (_, r, stats) = solve(&[&[1, 2], &[1, -2], &[-1, 2], &[-1, -2]]);
    assert_eq!(r, Some(false));
    assert!(stats.conflicts >= 1);
}

#[test]
fn unsatisfiable_pigeonhole_is_refuted() {
    // three pigeons, two holes: p(i, h) is variable 2 * i + h + 1
    let p = |i: i32, h: i32| 2 * i + h + 1;
    let mut cls: Vec<Vec<i32>> = Vec::new();
    for i in 0..3 {
        cls.push(vec![p(i, 0), p(i, 1)]);
    }
    for h in 0..2 {
        for i in 0..3 {
            for j in (i + 1)..3 {
                cls.push(vec![-p(i, h), -p(j, h)]);
            }
        }
    }
    let refs: Vec<&[i32]> = cls.iter().map(|c| c.as_slice()).collect();
    let (_, r, _) = solve(&refs);
    assert_eq!(r, Some(false));
}

#[test]
fn solving_without_learning_flips_decisions() {
    let mut solver = Solver::init(clauses(&[&[1, 2], &[-1, 2], &[-2, 3], &[-3, -1]]));
    let mut stats = Stats::default();
    let params = SearchParams { init_nof_conflict: 100, use_learning: false };
    let r = solver.solve(&params, &mut stats);
    assert_eq!(r, Some(true));
    assert!(solver.is_model_valid());
}

#[test]
fn model_check_fails_on_a_partial_assignment() {
    let solver = Solver::init(clauses(&[&[1, 2]]));
    assert!(!solver.is_model_valid());
}

#[test]
fn default_search_parameters() {
    let p = SearchParams::default();
    assert_eq!(p.init_nof_conflict, 100);
    assert!(p.use_learning);
}

#[test]
fn unsatisfiable_problem_is_refuted_without_learning() {
    let mut solver = Solver::init(clauses(&[&[1, 2], &[1, -2], &[-1, 3], &[-1, -3]]));
    let mut stats = Stats::default();
    let params = SearchParams { init_nof_conflict: 100, use_learning: false };
    let r = solver.solve(&params, &mut stats);
    assert_eq!(r, Some(false));
}

#[test]
fn clause_with_a_repeated_literal_is_handled() {
    let (solver, r, _) = solve(&[&[1, 1, 2], &[-1, 2], &[-2, 3, 3]]);
    assert_eq!(r, Some(true));
    assert!(solver.is_model_valid());
}

#[test]
fn unit_input_clauses_are_not_stored_so_they_do_not_constrain() {
    // the unit clauses contradict each other, but only stored clauses are solved
    let (solver, r, _) = solve(&[&[1], &[-1], &[1, 2]]);
    assert_eq!(r, Some(true));
    assert!(solver.is_model_valid());
}

fn brute_force_sat(cls: &[Vec<i32>], num_vars: u32) -> bool {
    (0..(1u32 << num_vars)).any(|bits| {
        cls.iter().filter(|c| c.len() >= 2).all(|c| {
            c.iter().any(|&l| {
                let value = bits & (1 << (l.unsigned_abs() - 1)) != 0;
                value == (l > 0)
            })
        })
    })
}

#[test]
fn answers_agree_with_exhaustive_search() {
    let mut seed: u64 = 12345;
    let mut next = || {
        seed = seed.wrapping_mul(6364136223846793005).wrapping_add(1442695040888963407);
        (seed >> 33) as u32
    };
    for round in 0..60 {
        let num_vars = 5u32;
        let num_clauses = 8 + (round % 20) as usize;
        let mut cls: Vec<Vec<i32>> = Vec::new();
        for _ in 0..num_clauses {
            let mut c = Vec::new();
            for _ in 0..3 {
                let v = (next() % num_vars) as i32 + 1;
                c.push(if next() % 2 == 0 { v } else { -v });
            }
            cls.push(c);
        }
        let expected = brute_force_sat(&cls, num_vars);
        let refs: Vec<&[i32]> = cls.iter().map(|c| c.as_slice()).collect();
        for use_learning in [true, false] {
            let mut solver = Solver::init(clauses(&refs));
            let mut stats = Stats::default();
            let params = SearchParams { init_nof_conflict: 100, use_learning };
            let r = solver.solve(&params, &mut stats);
            assert_eq!(r, Some(expected), "round {} learning {}", round, use_learning);
            if expected {
                assert!(solver.is_model_valid());
            }
        }
    }
}

#[test]
fn an_answer_comes_when_no_conflict_is_allowed() {
    let sat: &[&[i32]] = &[&[-1, -5, 2], &[-1, -5, -2], &[3, 4, 2]];
    let unsat: &[&[i32]] = &[&[1, 2], &[1, -2], &[-1, 2], &[-1, -2]];
    for use_learning in [true, false] {
        let params = SearchParams { init_nof_conflict: 0, use_learning };

        let mut solver = Solver::init(clauses(sat));
        let mut stats = Stats::default();
        assert_eq!(solver.solve(&params, &mut stats), Some(true));
        assert!(solver.is_model_valid());

        let mut solver = Solver::init(clauses(unsat));
        let mut stats = Stats::default();
        assert_eq!(solver.solve(&params, &mut stats), Some(false));
    }
}

#[test]
fn solving_without_learning_answers_when_no_conflict_is_allowed() {
    let cls: &[&[i32]] = &[
        &[-1, -2, 3],
        &[-1, -2, -3],
        &[-1, -3, 2],
        &[-1, -3, -2],
        &[-2, -3, 1],
        &[-2, -3, -1],
        &[4, 5, 6],
        &[-4, -5],
    ];
    let mut solver = Solver::init(clauses(cls));
    let mut stats = Stats::default();
    let params = SearchParams { init_nof_conflict: 0, use_learning: false };
    assert_eq!(solver.solve(&params, &mut stats), Some(true));
    assert!(solver.is_model_valid());
}

fn watches_are_exact(solver: &Solver) -> bool {
    for (c, clause) in solver.clauses.clauses.iter().enumerate() {
        let w0 = clause.disjuncts[0].negate().to_index();
        let w1 = clause.disjuncts[1].negate().to_index();
        for (l, list) in solver.watches.iter().enumerate() {
            let count = list.iter().filter(|&&id| id == c).count();
            let expected = usize::from(l == w0) + usize::from(l == w1);
            if count != expected {
                return false;
            }
        }
    }
    true
}

#[test]
fn propagation_keeps_each_clause_in_exactly_two_watch_lists() {
    let mut solver = Solver::init(clauses(&[&[-1, 2, 3], &[-1, -2, 4], &[-4, 5, 2], &[-3, -5], &[1, 1, 5], &[-4, -2]]));
    assert!(watches_are_exact(&solver));
    solver.decide(Decision::True(BVar::from_bits(1)));
    assert_eq!(solver.propagate(), None);
    assert!(watches_are_exact(&solver));
    solver.decide(Decision::True(BVar::from_bits(2)));
    let conflict = solver.propagate();
    assert!(watches_are_exact(&solver));
    assert!(conflict.is_some());
}
