use aries::model::bounds::{Lit, Relation};
use aries::model::lang::VarRef;
use aries::model::state::{Domains, VarDomain};
use aries::solver::brancher::{Brancher, BoolHeuristicParams, BranchingParams, Decision, VarSelect};
use aries::solver::stats::Stats;

fn domains(ds: &[(i32, i32, Option<bool>)]) -> Domains {
    Domains { vars: ds.iter().map(|&(lb, ub, present)| VarDomain { lb, ub, present }).collect() }
}

fn stats(conflicts: u64) -> Stats {
    let mut s = Stats::default();
    s.num_conflicts = conflicts;
    s
}

#[test]
fn bound_variables_are_skipped_and_the_lower_value_is_tried() {
    let model = domains(&[(0, 1, None), (0, 0, None)]);
    let mut b = Brancher::new();
    let d = b.next_decision(&stats(0), &model);
    assert_eq!(d, Some(Decision::SetLiteral(Lit::leq(VarRef(0), 0))));
    assert_eq!(b.num_processed_var, 2);
}

#[test]
fn absent_variables_are_skipped() {
    let model = domains(&[(0, 5, Some(false))]);
    let mut b = Brancher::new();
    assert_eq!(b.next_decision(&stats(0), &model), None);
}

#[test]
fn no_decision_when_all_variables_are_bound() {
    let model = domains(&[(2, 2, None), (3, 3, Some(true))]);
    let mut b = Brancher::new();
    assert_eq!(b.next_decision(&stats(0), &model), None);
}

#[test]
fn restart_when_the_conflicts_are_exhausted() {
    let model = domains(&[(0, 1, None)]);
    let mut b = Brancher::new();
    assert_eq!(b.next_decision(&stats(100), &model), Some(Decision::Restart));
    assert_eq!(b.params.allowed_conflicts, 150);
    assert_eq!(b.conflicts_at_last_restart, 100);
    // 149 conflicts since the restart are allowed
    assert_eq!(b.next_decision(&stats(249), &model), Some(Decision::SetLiteral(Lit::leq(VarRef(0), 0))));
    assert_eq!(b.next_decision(&stats(250), &model), Some(Decision::Restart));
    assert_eq!(b.params.allowed_conflicts, 225);
}

#[test]
fn preferred_value_in_the_domain_is_split_off() {
    let model = domains(&[(0, 10, None)]);
    let mut b = Brancher::new();
    b.set_default_value(VarRef(0), 4);
    assert_eq!(b.next_decision(&stats(0), &model), Some(Decision::SetLiteral(Lit::leq(VarRef(0), 4))));
    b.set_default_value(VarRef(0), 10);
    assert_eq!(b.next_decision(&stats(0), &model), Some(Decision::SetLiteral(Lit::geq(VarRef(0), 10))));
}

#[test]
fn preferred_value_outside_the_domain_is_ignored() {
    let model = domains(&[(0, 10, None)]);
    let mut b = Brancher::new();
    b.set_default_value(VarRef(0), 42);
    assert_eq!(b.next_decision(&stats(0), &model), Some(Decision::SetLiteral(Lit::leq(VarRef(0), 0))));
    b.params.prefer_min_value = false;
    assert_eq!(b.next_decision(&stats(0), &model), Some(Decision::SetLiteral(Lit::geq(VarRef(0), 10))));
}

#[test]
fn default_values_come_from_bound_variables() {
    let assignment = domains(&[(3, 3, None), (0, 1, None)]);
    let mut b = Brancher::new();
    b.set_default_values_from(&assignment);
    assert_eq!(b.num_processed_var, 2);
    assert_eq!(b.default_assignment.bools[0], Some(3));
    assert_eq!(b.default_assignment.bools.get(1).copied().flatten(), None);
}

#[test]
fn backtracking_requeues_removed_variables() {
    let mut b = Brancher::new();
    let bound = domains(&[(1, 1, None), (0, 1, None)]);
    assert_eq!(b.save_state(), 1);
    assert_eq!(b.num_saved(), 1);
    b.next_decision(&stats(0), &bound);
    assert!(!b.heap.queued[0]);
    b.restore_last();
    assert!(b.heap.queued[0]);
    assert_eq!(b.num_saved(), 0);
}

#[test]
fn most_active_variable_comes_first() {
    let model = domains(&[(0, 1, None), (0, 1, None), (0, 1, None)]);
    let mut b = Brancher::new();
    b.import_vars(&model);
    for _ in 0..3 {
        b.bump_activity(VarRef(2));
    }
    assert_eq!(b.next_decision(&stats(0), &model), Some(Decision::SetLiteral(Lit::leq(VarRef(2), 0))));
}

#[test]
fn stages_are_extracted_in_order() {
    let mut h = VarSelect::new(BoolHeuristicParams::default());
    h.add_variable(VarRef(0), 1, Some(5));
    h.add_variable(VarRef(3), 0, Some(1));
    h.add_variable(VarRef(1), 1, Some(9));
    assert!(h.is_declared(VarRef(3)));
    assert!(!h.is_declared(VarRef(2)));
    // declared variables are not queued until enqueued
    assert_eq!(h.extractor().peek(&h), None);
    h.enqueue_variable(VarRef(0));
    h.enqueue_variable(VarRef(3));
    h.enqueue_variable(VarRef(1));
    let mut p = h.extractor();
    assert_eq!(p.peek(&h), Some(VarRef(3)));
    assert_eq!(p.pop(&mut h), Some(VarRef(3)));
    assert_eq!(p.pop(&mut h), Some(VarRef(1)));
    assert_eq!(p.pop(&mut h), Some(VarRef(0)));
    assert_eq!(p.pop(&mut h), None);
    h.enqueue_variable(VarRef(0));
    let mut p = h.extractor();
    assert_eq!(p.peek(&h), Some(VarRef(0)));
}

#[test]
fn bumps_rescale_and_decay_grows_the_increment() {
    let mut h = VarSelect::new(BoolHeuristicParams::default());
    h.add_variable(VarRef(0), 0, Some(1_000_000_000_000_000_000_000_000_000_000_000_000));
    h.add_variable(VarRef(1), 0, Some(3_000_000_000_000_000_000_000_000_000_000));
    h.var_bump_activity(VarRef(0));
    assert_eq!(h.activity[0], 1_000_000);
    assert_eq!(h.activity[1], 3);
    assert_eq!(h.params.var_inc, 0);
    let mut g = VarSelect::new(BoolHeuristicParams::default());
    g.decay_activities();
    assert_eq!(g.params.var_inc, 1_052_631);
}

#[test]
fn default_parameters() {
    let p = BranchingParams::default();
    assert!(p.prefer_min_value);
    assert_eq!(p.allowed_conflicts, 100);
    assert_eq!((p.increase_ratio_num, p.increase_ratio_den), (3, 2));
    let l = Lit::geq(VarRef(1), 3);
    assert_eq!(l.relation, Relation::Geq);
}

#[test]
fn the_same_seed_gives_the_same_initial_activities() {
    let model = domains(&[(0, 5, None), (0, 3, None), (1, 9, None), (2, 4, None)]);
    let mut a = Brancher::new();
    let mut b = Brancher::new();
    a.set_seed(42);
    b.set_seed(42);
    a.import_vars(&model);
    b.import_vars(&model);
    assert_eq!(a.heap.activity, b.heap.activity);
    let mut c = Brancher::new();
    c.import_vars(&model);
    let mut d = Brancher::new();
    d.set_seed(0);
    d.import_vars(&model);
    assert_eq!(c.heap.activity, d.heap.activity);
}

#[test]
fn imported_variables_join_the_queue_of_their_stage_in_order() {
    let mut b = Brancher::new();
    b.import_vars(&domains(&[(0, 5, None), (3, 3, None), (0, 1, None), (2, 2, None)]));
    assert_eq!(b.heap.heaps[0], vec![VarRef(1), VarRef(3)]);
    assert_eq!(b.heap.heaps[1], vec![VarRef(0), VarRef(2)]);
    b.import_vars(&domains(&[(0, 5, None), (3, 3, None), (0, 1, None), (2, 2, None), (1, 9, None)]));
    assert_eq!(b.heap.heaps[1], vec![VarRef(0), VarRef(2), VarRef(4)]);
}

#[test]
fn restoring_after_several_pops_gives_back_the_queue() {
    let mut h = VarSelect::new(BoolHeuristicParams::default());
    for i in 0..4u32 {
        h.add_variable(VarRef(i), (i % 2) as u8, Some(10 + i as u128));
        h.enqueue_variable(VarRef(i));
    }
    let queued = h.queued.clone();
    let n = h.num_saved();
    h.save_state();
    let mut p = h.extractor();
    for _ in 0..3 {
        assert!(p.pop(&mut h).is_some());
    }
    h.restore_last();
    assert_eq!(h.queued, queued);
    assert_eq!(h.num_saved(), n);
}
