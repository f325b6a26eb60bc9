use aries::grpc::server::UpfService;
use aries::model::bounds::Lit;
use aries::model::lang::{Expr, Fun, VarRef};
use aries::model::model::{Cause, Enforceable, InferenceCause, WriterId};
use aries::solver::theory_solver::{DecLvl, Theory, TheorySolver};

#[test]
fn writer_causes_name_the_writer() {
    let w = WriterId::new(3);
    assert_eq!(w, WriterId(3));
    assert_eq!(w.cause(7u32), Cause::Inference(InferenceCause { writer: WriterId(3), payload: 7 }));
    assert_eq!(Cause::inference(w, 7), w.cause(7));
}

#[test]
fn enforceable_conversions() {
    let l = Lit::leq(VarRef(2), 5);
    assert!(matches!(Enforceable::from(l), Enforceable::Literal(x) if x == l));
    assert!(matches!(Enforceable::from(&l), Enforceable::Literal(x) if x == l));
    let e = Expr { fun: Fun::Or, args: vec![VarRef(1), VarRef(2)] };
    assert!(matches!(Enforceable::from(&e), Enforceable::BorrowedExpr(x) if *x == e));
    assert!(matches!(Enforceable::from(e.clone()), Enforceable::Expr(x) if x == e));
}

struct Counting {
    saved: u32,
}

impl Theory for Counting {
    fn print_stats(&self) {
        println!("saved: {}", self.saved);
    }
    fn save_state(&mut self) -> DecLvl {
        self.saved += 1;
        self.saved
    }
    fn num_saved(&self) -> u32 {
        self.saved
    }
    fn restore_last(&mut self) {
        self.saved -= 1;
    }
    fn restore(&mut self, saved_id: DecLvl) {
        self.saved = saved_id;
    }
}

#[test]
fn theory_solver_delegates_to_its_theory() {
    let mut s = TheorySolver::new(Box::new(Counting { saved: 0 }));
    assert_eq!(s.save_state(), 1);
    assert_eq!(s.save_state(), 2);
    s.restore_last();
    assert_eq!(s.num_saved(), 1);
    s.restore(0);
    assert_eq!(s.num_saved(), 0);
    s.print_stats();
}

#[test]
fn service_has_a_default() {
    let _service = UpfService::default();
}
