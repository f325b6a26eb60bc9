use aries::sat::cnf::{CnfError, CNF};
use aries::sat::lits::{BVar, Lit};

fn lit(v: i32) -> Lit {
    BVar::from_bits(v.unsigned_abs()).lit(v > 0)
}

fn parsed(text: &str) -> Vec<Vec<Lit>> {
    CNF::parse(text).unwrap().clauses.iter().map(|c| c.to_vec()).collect()
}

#[test]
fn parses_header_comments_and_clauses() {
    let text = "c a small problem\np cnf 3 2\n1 -3 0\n2 3 -1 0\n";
    assert_eq!(parsed(text), vec![vec![lit(1), lit(-3)], vec![lit(2), lit(3), lit(-1)]]);
}

#[test]
fn clauses_may_span_lines_and_share_them() {
    let text = "1 2\n -3 0 4 0\n\t5\r\n";
    assert_eq!(parsed(text), vec![vec![lit(1), lit(2), lit(-3)], vec![lit(4)], vec![lit(5)]]);
}

#[test]
fn percent_line_ends_the_problem() {
    let text = "1 -2 0\n%\n0\n";
    assert_eq!(parsed(text), vec![vec![lit(1), lit(-2)]]);
}

#[test]
fn lone_zero_is_an_empty_clause() {
    assert_eq!(parsed("0\n"), vec![Vec::<Lit>::new()]);
}

#[test]
fn parse_errors() {
    assert_eq!(CNF::parse("1 x 0").err(), Some(CnfError::UnexpectedByte(2)));
    assert_eq!(CNF::parse("1 -").err(), Some(CnfError::UnexpectedEnd));
    assert_eq!(CNF::parse("3000000000 0").err(), Some(CnfError::VariableOutOfRange(9)));
    assert_eq!(CNF::parse("1 c 0").err(), Some(CnfError::UnexpectedByte(2)));
}
