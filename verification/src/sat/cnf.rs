use vstd::prelude::*;
use crate::sat::lits::{BVar, Lit, MAX_VAR_ID};
use vstd::string::StringSliceAdditionalSpecFns;

verus! {

/// Why a text is not a problem in DIMACS CNF format.
#[derive(Clone, Copy, Debug, PartialEq, Eq, Structural)]
pub enum CnfError {
    /// The byte at this position cannot stand there.
    UnexpectedByte(usize),
    /// The number ending at this position is larger than the largest variable.
    VariableOutOfRange(usize),
    /// The text ends with a sign not followed by a number.
    UnexpectedEnd,
}

/// Where the scanner stands.
#[derive(Clone, Copy, Debug, PartialEq, Eq, Structural)]
pub enum Mode {
    /// At the start of a line, where a comment or the header may begin.
    LineStart,
    /// Inside a comment or the header, up to the end of the line.
    Skip,
    /// Inside a line of clauses, between two numbers.
    Between,
    /// After the sign of a negative number.
    Sign,
    /// Inside the digits of a number.
    Digits,
    /// After the `%` line that closes some files: the rest is ignored.
    Stopped,
}

/// State of the scan: mode, sign and value of the number being read, literals of the clause
/// being read, clauses read, and the error met if any.
pub type Scan = (Mode, bool, int, Seq<Lit>, Seq<Seq<Lit>>, Option<CnfError>);

pub open spec fn is_blank(b: u8) -> bool {
    b == 32 || b == 9 || b == 13
}

pub open spec fn is_digit(b: u8) -> bool {
    48 <= b <= 57
}

pub open spec fn initial_scan() -> Scan {
    (Mode::LineStart, false, 0, Seq::empty(), Seq::empty(), None)
}

/// The literal of a number: the variable is its absolute value, positive when it is.
pub open spec fn num_lit(neg: bool, value: int) -> Lit {
    BVar { id: value as u32 }.spec_lit(!neg)
}

/// The scan after the number it holds: a zero closes the clause, another number adds its
/// literal to it.
pub open spec fn end_number(s: Scan, next: Mode) -> Scan {
    if s.2 == 0 {
        (next, false, 0, Seq::empty(), s.4.push(s.3), None)
    } else {
        (next, false, 0, s.3.push(num_lit(s.1, s.2)), s.4, None)
    }
}

/// The scan after the byte `b`, at position `pos`.
pub open spec fn step(s: Scan, b: u8, pos: int) -> Scan {
    let err = |e: CnfError| (s.0, s.1, s.2, s.3, s.4, Some(e));
    if s.5 is Some || s.0 == Mode::Stopped {
        s
    } else {
        match s.0 {
            Mode::LineStart | Mode::Between => {
                if b == 10 {
                    (Mode::LineStart, false, 0, s.3, s.4, None)
                } else if is_blank(b) {
                    (Mode::Between, false, 0, s.3, s.4, None)
                } else if s.0 == Mode::LineStart && (b == 99 || b == 112) {
                    (Mode::Skip, false, 0, s.3, s.4, None)
                } else if s.0 == Mode::LineStart && b == 37 {
                    (Mode::Stopped, false, 0, s.3, s.4, None)
                } else if b == 45 {
                    (Mode::Sign, true, 0, s.3, s.4, None)
                } else if is_digit(b) {
                    (Mode::Digits, false, b - 48, s.3, s.4, None)
                } else {
                    err(CnfError::UnexpectedByte(pos as usize))
                }
            },
            Mode::Skip => {
                if b == 10 {
                    (Mode::LineStart, false, 0, s.3, s.4, None)
                } else {
                    s
                }
            },
            Mode::Sign => {
                if is_digit(b) {
                    (Mode::Digits, true, b - 48, s.3, s.4, None)
                } else {
                    err(CnfError::UnexpectedByte(pos as usize))
                }
            },
            Mode::Digits => {
                if is_digit(b) {
                    if s.2 * 10 + (b - 48) > MAX_VAR_ID {
                        err(CnfError::VariableOutOfRange(pos as usize))
                    } else {
                        (Mode::Digits, s.1, s.2 * 10 + (b - 48), s.3, s.4, None)
                    }
                } else if b == 10 {
                    end_number(s, Mode::LineStart)
                } else if is_blank(b) {
                    end_number(s, Mode::Between)
                } else {
                    err(CnfError::UnexpectedByte(pos as usize))
                }
            },
            Mode::Stopped => s,
        }
    }
}

/// The scan of the first `n` bytes.
pub open spec fn scan_prefix(bytes: Seq<u8>, n: int) -> Scan
    decreases n,
{
    if n <= 0 {
        initial_scan()
    } else {
        step(scan_prefix(bytes, n - 1), bytes[n - 1], n - 1)
    }
}

/// The clauses of a text in DIMACS CNF format: lines that start with `c` (comments) or `p` (the
/// header) are skipped, a line that starts with `%` ends the problem, and the other lines hold
/// numbers separated by blanks, each clause being the literals of the numbers up to a `0`; a
/// last clause without its `0` is kept if it is not empty.
pub open spec fn parse_spec(bytes: Seq<u8>) -> Result<Seq<Seq<Lit>>, CnfError> {
    let s = scan_prefix(bytes, bytes.len() as int);
    match s.5 {
        Some(e) => Err(e),
        None => if s.0 == Mode::Sign {
            Err(CnfError::UnexpectedEnd)
        } else {
            let t = if s.0 == Mode::Digits {
                end_number(s, Mode::LineStart)
            } else {
                s
            };
            if t.3.len() > 0 {
                Ok(t.4.push(t.3))
            } else {
                Ok(t.4)
            }
        },
    }
}

/// The decimal digits of `k`, most significant first.
pub open spec fn digits_text(k: nat) -> Seq<u8>
    decreases k,
{
    if k < 10 {
        seq![(48 + k) as u8]
    } else {
        digits_text(k / 10) + seq![(48 + k % 10) as u8]
    }
}

/// The decimal writing of `n`, after a `-` when it is negative.
pub open spec fn number_text(n: int) -> Seq<u8> {
    if n < 0 {
        seq![45u8] + digits_text((-n) as nat)
    } else {
        digits_text(n as nat)
    }
}

/// The decimal writings of the numbers, each followed by a space.
pub open spec fn numbers_text(ns: Seq<int>) -> Seq<u8>
    decreases ns.len(),
{
    if ns.len() == 0 {
        Seq::empty()
    } else {
        numbers_text(ns.drop_last()) + number_text(ns.last()) + seq![32u8]
    }
}

/// A line holding one clause: its numbers, then `0` and a line break.
pub open spec fn clause_line(ns: Seq<int>) -> Seq<u8> {
    numbers_text(ns) + seq![48u8, 10u8]
}

/// The numbers can stand for literals: none is zero, and none is beyond the largest variable.
pub open spec fn literal_numbers(ns: Seq<int>) -> bool {
    forall|i: int| 0 <= i < ns.len() ==> #[trigger] ns[i] != 0 && -(MAX_VAR_ID as int) <= ns[i] <= MAX_VAR_ID
}

/// A header or comment line: it starts with `p` or `c`, and ends with its only line break.
pub open spec fn skipped_line(h: Seq<u8>) -> bool {
    &&& h.len() >= 2
    &&& (h[0] == 112 || h[0] == 99)
    &&& h.last() == 10
    &&& forall|i: int| 0 <= i < h.len() - 1 ==> #[trigger] h[i] != 10
}

/// The scan from `s` of the bytes, the first of which stands at position `off`.
pub open spec fn scan_from(s: Scan, bytes: Seq<u8>, off: int) -> Scan
    decreases bytes.len(),
{
    if bytes.len() == 0 {
        s
    } else {
        step(scan_from(s, bytes.drop_last(), off), bytes.last(), off + bytes.len() - 1)
    }
}

proof fn lemma_scan_one(s: Scan, b: u8, off: int)
    ensures
        scan_from(s, seq![b], off) == step(s, b, off),
{
    reveal_with_fuel(scan_from, 2);
    assert(seq![b].drop_last() =~= Seq::<u8>::empty());
}

proof fn lemma_scan_prefix_from(bytes: Seq<u8>, n: int)
    requires
        0 <= n <= bytes.len(),
    ensures
        scan_prefix(bytes, n) == scan_from(initial_scan(), bytes.take(n), 0),
    decreases n,
{
    if n > 0 {
        lemma_scan_prefix_from(bytes, n - 1);
        assert(bytes.take(n).drop_last() =~= bytes.take(n - 1));
    }
}

proof fn lemma_scan_concat(s: Scan, a: Seq<u8>, b: Seq<u8>, off: int)
    ensures
        scan_from(s, a + b, off) == scan_from(scan_from(s, a, off), b, off + a.len()),
    decreases b.len(),
{
    if b.len() == 0 {
        assert(a + b =~= a);
    } else {
        lemma_scan_concat(s, a, b.drop_last(), off);
        assert((a + b).drop_last() =~= a + b.drop_last());
        assert((a + b).last() == b.last());
    }
}

/// Reading the digits of `k`, from between numbers or after a `-`, gives the number `k`, with
/// the sign read.
proof fn lemma_scan_digits(s: Scan, k: nat, off: int)
    requires
        k <= MAX_VAR_ID,
        s.5 is None,
        s.0 == Mode::LineStart || s.0 == Mode::Between || (s.0 == Mode::Sign && s.1),
    ensures
        scan_from(s, digits_text(k), off) == (Mode::Digits, s.0 == Mode::Sign, k as int, s.3, s.4, None::<CnfError>),
    decreases k,
{
    if k < 10 {
        assert(digits_text(k) =~= seq![(48 + k) as u8]);
        lemma_scan_one(s, (48 + k) as u8, off);
    } else {
        lemma_scan_digits(s, k / 10, off);
        let d = digits_text(k / 10);
        assert(digits_text(k).drop_last() =~= d);
        assert(digits_text(k).last() == (48 + k % 10) as u8);
        assert((k / 10) * 10 + k % 10 == k);
    }
}

/// Reading a number and the space after it, from between numbers, adds its literal to the clause.
proof fn lemma_scan_number(s: Scan, n: int, off: int)
    requires
        n != 0,
        -(MAX_VAR_ID as int) <= n <= MAX_VAR_ID,
        s.5 is None,
        s.0 == Mode::LineStart || s.0 == Mode::Between,
    ensures
        scan_from(s, number_text(n) + seq![32u8], off) == (Mode::Between, false, 0int, s.3.push(
            num_lit(n < 0, if n < 0 { -n } else { n }),
        ), s.4, None::<CnfError>),
{
    let t = number_text(n);
    lemma_scan_concat(s, t, seq![32u8], off);
    if n < 0 {
        lemma_scan_concat(s, seq![45u8], digits_text((-n) as nat), off);
        lemma_scan_one(s, 45u8, off);
        let s1 = scan_from(s, seq![45u8], off);
        assert(s1 == (Mode::Sign, true, 0int, s.3, s.4, None::<CnfError>));
        lemma_scan_digits(s1, (-n) as nat, off + 1);
    } else {
        lemma_scan_digits(s, n as nat, off);
    }
    let d = scan_from(s, t, off);
    lemma_scan_one(d, 32u8, off + t.len());
}

/// The literals of the numbers.
pub open spec fn number_lits(ns: Seq<int>) -> Seq<Lit> {
    Seq::new(ns.len(), |i: int| num_lit(ns[i] < 0, if ns[i] < 0 { -ns[i] } else { ns[i] }))
}

proof fn lemma_scan_numbers(s: Scan, ns: Seq<int>, off: int)
    requires
        literal_numbers(ns),
        s.5 is None,
        s.0 == Mode::LineStart || s.0 == Mode::Between,
        s.3 == Seq::<Lit>::empty(),
    ensures
        ({
            let t = scan_from(s, numbers_text(ns), off);
            &&& t.5 is None
            &&& t.0 == Mode::LineStart || t.0 == Mode::Between
            &&& t.3 == number_lits(ns)
            &&& t.4 == s.4
        }),
    decreases ns.len(),
{
    if ns.len() == 0 {
        assert(number_lits(ns) =~= Seq::<Lit>::empty());
    } else {
        let init = ns.drop_last();
        assert forall|i: int| 0 <= i < init.len() implies #[trigger] init[i] != 0 && -(MAX_VAR_ID as int) <= init[i]
            <= MAX_VAR_ID by {
            assert(init[i] == ns[i]);
        }
        lemma_scan_numbers(s, init, off);
        let a = numbers_text(init);
        let t0 = scan_from(s, a, off);
        assert(numbers_text(ns) =~= a + (number_text(ns.last()) + seq![32u8]));
        lemma_scan_concat(s, a, number_text(ns.last()) + seq![32u8], off);
        assert(ns[ns.len() - 1] != 0);
        lemma_scan_number(t0, ns.last(), off + a.len());
        assert(number_lits(ns) =~= number_lits(init).push(
            num_lit(ns.last() < 0, if ns.last() < 0 { -ns.last() } else { ns.last() }),
        ));
    }
}

/// Skipping a header or comment line returns to the start of a line, with nothing read.
proof fn lemma_scan_skipped(h: Seq<u8>, off: int)
    requires
        skipped_line(h),
    ensures
        scan_from(initial_scan(), h, off) == initial_scan(),
{
    let n = h.len() as int;
    assert forall|j: int| 1 <= j < n implies #[trigger] scan_from(initial_scan(), h.take(j), off) == (
        Mode::Skip,
        false,
        0int,
        Seq::<Lit>::empty(),
        Seq::<Seq<Lit>>::empty(),
        None::<CnfError>,
    ) by {
        lemma_scan_skip_run(h, j, off);
    }
    assert(h.take(n - 1) =~= h.drop_last());
    assert(h.drop_last() + seq![h[n - 1]] =~= h);
    lemma_scan_concat(initial_scan(), h.drop_last(), seq![h[n - 1]], off);
    if n - 1 >= 1 {
        assert(scan_from(initial_scan(), h.take(n - 1), off).0 == Mode::Skip);
    }
    lemma_scan_one(scan_from(initial_scan(), h.drop_last(), off), h[n - 1], off + n - 1);
}

proof fn lemma_scan_skip_run(h: Seq<u8>, j: int, off: int)
    requires
        skipped_line(h),
        1 <= j < h.len(),
    ensures
        scan_from(initial_scan(), h.take(j), off) == (
            Mode::Skip,
            false,
            0int,
            Seq::<Lit>::empty(),
            Seq::<Seq<Lit>>::empty(),
            None::<CnfError>,
        ),
    decreases j,
{
    if j == 1 {
        assert(h.take(1) =~= seq![h[0]]);
        lemma_scan_one(initial_scan(), h[0], off);
    } else {
        lemma_scan_skip_run(h, j - 1, off);
        assert(h.take(j).drop_last() =~= h.take(j - 1));
        assert(h.take(j).last() == h[j - 1]);
        assert(h[j - 1] != 10);
    }
}

/// A problem of one clause line, after an optional header or comment line, is read as that one
/// clause: the `i`-th literal has the variable `|ns[i]|`, and is positive exactly when `ns[i]` is.
pub proof fn lemma_parse_clause_line(h: Seq<u8>, ns: Seq<int>)
    requires
        h.len() == 0 || skipped_line(h),
        literal_numbers(ns),
    ensures
        parse_spec(h + clause_line(ns)) is Ok,
        parse_spec(h + clause_line(ns))->Ok_0.len() == 1,
        parse_spec(h + clause_line(ns))->Ok_0[0].len() == ns.len(),
        forall|i: int|
            0 <= i < ns.len() ==> {
                &&& (#[trigger] parse_spec(h + clause_line(ns))->Ok_0[0][i]).var_id() == (if ns[i] < 0 {
                    -ns[i]
                } else {
                    ns[i]
                })
                &&& parse_spec(h + clause_line(ns))->Ok_0[0][i].positive() == (ns[i] > 0)
            },
{
    let text = h + clause_line(ns);
    lemma_scan_prefix_from(text, text.len() as int);
    assert(text.take(text.len() as int) =~= text);
    let off = h.len() as int;
    lemma_scan_concat(initial_scan(), h, clause_line(ns), 0);
    if h.len() == 0 {
        assert(scan_from(initial_scan(), h, 0) == initial_scan());
    } else {
        lemma_scan_skipped(h, 0);
    }
    let s0 = initial_scan();
    lemma_scan_concat(s0, numbers_text(ns), seq![48u8, 10u8], off);
    lemma_scan_numbers(s0, ns, off);
    let t = scan_from(s0, numbers_text(ns), off);
    lemma_scan_concat(t, seq![48u8], seq![10u8], off + numbers_text(ns).len());
    assert(seq![48u8] + seq![10u8] =~= seq![48u8, 10u8]);
    assert(seq![48u8].drop_last() =~= Seq::<u8>::empty());
    assert(seq![10u8].drop_last() =~= Seq::<u8>::empty());
    let t1 = scan_from(t, seq![48u8], off + numbers_text(ns).len());
    lemma_scan_one(t, 48u8, off + numbers_text(ns).len());
    assert(t1 == (Mode::Digits, false, 0int, t.3, t.4, None::<CnfError>));
    let t2 = scan_from(t1, seq![10u8], off + numbers_text(ns).len() + 1);
    lemma_scan_one(t1, 10u8, off + numbers_text(ns).len() + 1);
    assert(t2 == (Mode::LineStart, false, 0int, Seq::<Lit>::empty(), t.4.push(t.3), None::<CnfError>));
    assert(scan_prefix(text, text.len() as int) == t2);
    let cl = number_lits(ns);
    assert forall|i: int| 0 <= i < ns.len() implies {
        &&& cl[i].var_id() == (if ns[i] < 0 { -ns[i] } else { ns[i] })
        &&& cl[i].positive() == (ns[i] > 0)
    } by {
        let v: int = if ns[i] < 0 { -ns[i] } else { ns[i] };
        assert(ns[i] != 0 && -(MAX_VAR_ID as int) <= ns[i] <= MAX_VAR_ID);
        assert(cl[i] == num_lit(ns[i] < 0, v));
        let b: int = if ns[i] < 0 { 0 } else { 1 };
        assert(cl[i].id.value == 2 * v + b);
    }
}

/// Lines of clauses, one per sequence of numbers.
pub open spec fn clause_lines(nss: Seq<Seq<int>>) -> Seq<u8>
    decreases nss.len(),
{
    if nss.len() == 0 {
        Seq::empty()
    } else {
        clause_lines(nss.drop_last()) + clause_line(nss.last())
    }
}

/// Reading a clause line at the start of a line adds its clause to those read.
proof fn lemma_scan_clause_line(c: Seq<Seq<Lit>>, ns: Seq<int>, off: int)
    requires
        literal_numbers(ns),
    ensures
        scan_from((Mode::LineStart, false, 0int, Seq::<Lit>::empty(), c, None::<CnfError>), clause_line(ns), off) == (
            Mode::LineStart,
            false,
            0int,
            Seq::<Lit>::empty(),
            c.push(number_lits(ns)),
            None::<CnfError>,
        ),
{
    let s0 = (Mode::LineStart, false, 0int, Seq::<Lit>::empty(), c, None::<CnfError>);
    lemma_scan_concat(s0, numbers_text(ns), seq![48u8, 10u8], off);
    lemma_scan_numbers(s0, ns, off);
    let t = scan_from(s0, numbers_text(ns), off);
    let o = off + numbers_text(ns).len();
    lemma_scan_concat(t, seq![48u8], seq![10u8], o);
    assert(seq![48u8] + seq![10u8] =~= seq![48u8, 10u8]);
    lemma_scan_one(t, 48u8, o);
    let t1 = scan_from(t, seq![48u8], o);
    assert(t1 == (Mode::Digits, false, 0int, t.3, t.4, None::<CnfError>));
    lemma_scan_one(t1, 10u8, o + 1);
}

/// Reading clause lines at the start of a line adds their clauses, in order.
proof fn lemma_scan_clause_lines(c: Seq<Seq<Lit>>, nss: Seq<Seq<int>>, off: int)
    requires
        forall|j: int| 0 <= j < nss.len() ==> literal_numbers(#[trigger] nss[j]),
    ensures
        scan_from((Mode::LineStart, false, 0int, Seq::<Lit>::empty(), c, None::<CnfError>), clause_lines(nss), off) == (
            Mode::LineStart,
            false,
            0int,
            Seq::<Lit>::empty(),
            c + Seq::new(nss.len(), |j: int| number_lits(nss[j])),
            None::<CnfError>,
        ),
    decreases nss.len(),
{
    let s0 = (Mode::LineStart, false, 0int, Seq::<Lit>::empty(), c, None::<CnfError>);
    if nss.len() == 0 {
        assert(c + Seq::new(nss.len(), |j: int| number_lits(nss[j])) =~= c);
    } else {
        let init = nss.drop_last();
        assert forall|j: int| 0 <= j < init.len() implies literal_numbers(#[trigger] init[j]) by {
            assert(init[j] == nss[j]);
        }
        lemma_scan_clause_lines(c, init, off);
        lemma_scan_concat(s0, clause_lines(init), clause_line(nss.last()), off);
        let c1 = c + Seq::new(init.len(), |j: int| number_lits(init[j]));
        assert(literal_numbers(nss[nss.len() - 1]));
        lemma_scan_clause_line(c1, nss.last(), off + clause_lines(init).len());
        assert(c1.push(number_lits(nss.last())) =~= c + Seq::new(nss.len(), |j: int| number_lits(nss[j])));
    }
}

/// A problem made of clause lines, after an optional header or comment line, is read as their
/// clauses, in order: the `i`-th literal of clause `j` has the variable `|nss[j][i]|`, and is
/// positive exactly when `nss[j][i]` is.
pub proof fn lemma_parse_clause_lines(h: Seq<u8>, nss: Seq<Seq<int>>)
    requires
        h.len() == 0 || skipped_line(h),
        forall|j: int| 0 <= j < nss.len() ==> literal_numbers(#[trigger] nss[j]),
    ensures
        parse_spec(h + clause_lines(nss)) is Ok,
        parse_spec(h + clause_lines(nss))->Ok_0.len() == nss.len(),
        forall|j: int|
            0 <= j < nss.len() ==> (#[trigger] parse_spec(h + clause_lines(nss))->Ok_0[j]).len() == nss[j].len(),
        forall|j: int, i: int|
            0 <= j < nss.len() && 0 <= i < nss[j].len() ==> {
                &&& (#[trigger] parse_spec(h + clause_lines(nss))->Ok_0[j][i]).var_id() == (if nss[j][i] < 0 {
                    -nss[j][i]
                } else {
                    nss[j][i]
                })
                &&& parse_spec(h + clause_lines(nss))->Ok_0[j][i].positive() == (nss[j][i] > 0)
            },
{
    let text = h + clause_lines(nss);
    lemma_scan_prefix_from(text, text.len() as int);
    assert(text.take(text.len() as int) =~= text);
    lemma_scan_concat(initial_scan(), h, clause_lines(nss), 0);
    if h.len() == 0 {
        assert(scan_from(initial_scan(), h, 0) == initial_scan());
    } else {
        lemma_scan_skipped(h, 0);
    }
    lemma_scan_clause_lines(Seq::<Seq<Lit>>::empty(), nss, h.len() as int);
    let cls = Seq::<Seq<Lit>>::empty() + Seq::new(nss.len(), |j: int| number_lits(nss[j]));
    assert forall|j: int, i: int| 0 <= j < nss.len() && 0 <= i < nss[j].len() implies {
        &&& cls[j][i].var_id() == (if nss[j][i] < 0 { -nss[j][i] } else { nss[j][i] })
        &&& cls[j][i].positive() == (nss[j][i] > 0)
    } by {
        let ns = nss[j];
        assert(literal_numbers(ns));
        let v: int = if ns[i] < 0 { -ns[i] } else { ns[i] };
        assert(ns[i] != 0 && -(MAX_VAR_ID as int) <= ns[i] <= MAX_VAR_ID);
        assert(cls[j] == number_lits(ns));
        assert(cls[j][i] == num_lit(ns[i] < 0, v));
        let b: int = if ns[i] < 0 { 0 } else { 1 };
        assert(cls[j][i].id.value == 2 * v + b);
    }
}

/// `Vec::into_boxed_slice`: the same elements, in a boxed slice.
#[verifier::external_body]
fn boxed(v: Vec<Lit>) -> (b: Box<[Lit]>)
    ensures
        b@ == v@,
{
    v.into_boxed_slice()
}

/// A problem in conjunctive normal form.
pub struct CNF {
    pub clauses: Vec<Box<[Lit]>>,
}

/// The scanner, whose state is a `Scan`.
struct Scanner {
    mode: Mode,
    neg: bool,
    value: u32,
    current: Vec<Lit>,
    clauses: Vec<Box<[Lit]>>,
    error: Option<CnfError>,
}

impl Scanner {
    spec fn view(&self) -> Scan {
        (
            self.mode,
            self.neg,
            self.value as int,
            self.current@,
            Seq::new(self.clauses@.len(), |i: int| self.clauses@[i]@),
            self.error,
        )
    }

    spec fn inv(&self) -> bool {
        self.value <= MAX_VAR_ID
    }

    fn end_number(&mut self, next: Mode)
        requires
            old(self).inv(),
            old(self).error is None,
            old(self).value > 0 ==> old(self).value <= MAX_VAR_ID,
        ensures
            final(self).inv(),
            final(self).view() == end_number(old(self).view(), next),
    {
        if self.value == 0 {
            let mut cur: Vec<Lit> = Vec::new();
            std::mem::swap(&mut cur, &mut self.current);
            let ghost old_clauses = self.clauses@;
            self.clauses.push(boxed(cur));
            proof {
                let sv = Seq::new(self.clauses@.len(), |i: int| self.clauses@[i]@);
                let ov = Seq::new(old_clauses.len(), |i: int| old_clauses[i]@);
                assert(sv =~= ov.push(old(self).current@));
            }
        } else {
            let l = BVar::from_bits(self.value).lit(!self.neg);
            self.current.push(l);
        }
        self.mode = next;
        self.neg = false;
        self.value = 0;
        proof {
            let sv = Seq::new(self.clauses@.len(), |i: int| self.clauses@[i]@);
            assert(self.view().4 =~= end_number(old(self).view(), next).4);
        }
    }

    fn step(&mut self, b: u8, pos: usize)
        requires
            old(self).inv(),
        ensures
            final(self).inv(),
            final(self).view() == step(old(self).view(), b, pos as int),
    {
        if self.error.is_some() || self.mode == Mode::Stopped {
            return;
        }
        let blank = b == 32 || b == 9 || b == 13;
        let digit = 48 <= b && b <= 57;
        if self.mode == Mode::LineStart || self.mode == Mode::Between {
            {
                if b == 10 {
                    self.mode = Mode::LineStart;
                    self.neg = false;
                    self.value = 0;
                } else if blank {
                    self.mode = Mode::Between;
                    self.neg = false;
                    self.value = 0;
                } else if self.mode == Mode::LineStart && (b == 99 || b == 112) {
                    self.mode = Mode::Skip;
                    self.neg = false;
                    self.value = 0;
                } else if self.mode == Mode::LineStart && b == 37 {
                    self.mode = Mode::Stopped;
                    self.neg = false;
                    self.value = 0;
                } else if b == 45 {
                    self.mode = Mode::Sign;
                    self.neg = true;
                    self.value = 0;
                } else if digit {
                    self.mode = Mode::Digits;
                    self.neg = false;
                    self.value = (b - 48) as u32;
                } else {
                    self.error = Some(CnfError::UnexpectedByte(pos));
                }
            }
        } else {
            match self.mode {
            Mode::Skip => {
                if b == 10 {
                    self.mode = Mode::LineStart;
                    self.neg = false;
                    self.value = 0;
                }
            },
            Mode::Sign => {
                if digit {
                    self.mode = Mode::Digits;
                    self.neg = true;
                    self.value = (b - 48) as u32;
                } else {
                    self.error = Some(CnfError::UnexpectedByte(pos));
                }
            },
            Mode::Digits => {
                if digit {
                    let v: u64 = (self.value as u64) * 10 + ((b - 48) as u64);
                    if v > MAX_VAR_ID as u64 {
                        self.error = Some(CnfError::VariableOutOfRange(pos));
                    } else {
                        self.value = v as u32;
                    }
                } else if b == 10 {
                    self.end_number(Mode::LineStart);
                } else if blank {
                    self.end_number(Mode::Between);
                } else {
                    self.error = Some(CnfError::UnexpectedByte(pos));
                }
            },
            _ => {},
            }
        }
    }
}

impl CNF {
    /// Parses a problem in DIMACS CNF format (see `parse_spec`).
    pub fn parse(input: &str) -> (r: Result<CNF, CnfError>)
        ensures
            match (r, parse_spec(input.spec_bytes())) {
                (Ok(cnf), Ok(cls)) => cnf.clauses.len() == cls.len() && forall|i: int|
                    0 <= i < cls.len() ==> #[trigger] cnf.clauses@[i]@ == cls[i],
                (Err(e), Err(f)) => e == f,
                _ => false,
            },
            forall|h: Seq<u8>, ns: Seq<int>|
                #![trigger h + clause_line(ns)]
                (h.len() == 0 || skipped_line(h)) && literal_numbers(ns) && input.spec_bytes() == h + clause_line(ns)
                    ==> r is Ok && r->Ok_0.clauses.len() == 1 && r->Ok_0.clauses@[0]@.len() == ns.len() && forall|i: int|
                    0 <= i < ns.len() ==> {
                        &&& (#[trigger] r->Ok_0.clauses@[0]@[i]).var_id() == (if ns[i] < 0 {
                            -ns[i]
                        } else {
                            ns[i]
                        })
                        &&& r->Ok_0.clauses@[0]@[i].positive() == (ns[i] > 0)
                    },
            forall|h: Seq<u8>, nss: Seq<Seq<int>>|
                #![trigger h + clause_lines(nss)]
                (h.len() == 0 || skipped_line(h)) && (forall|j: int| 0 <= j < nss.len() ==> literal_numbers(#[trigger] nss[j]))
                    && input.spec_bytes() == h + clause_lines(nss) ==> r is Ok && r->Ok_0.clauses.len() == nss.len()
                    && (forall|j: int| 0 <= j < nss.len() ==> (#[trigger] r->Ok_0.clauses@[j]@).len() == nss[j].len())
                    && forall|j: int, i: int|
                    0 <= j < nss.len() && 0 <= i < nss[j].len() ==> {
                        &&& (#[trigger] r->Ok_0.clauses@[j]@[i]).var_id() == (if nss[j][i] < 0 {
                            -nss[j][i]
                        } else {
                            nss[j][i]
                        })
                        &&& r->Ok_0.clauses@[j]@[i].positive() == (nss[j][i] > 0)
                    },
    {
        let bytes = input.as_bytes();
        let mut sc = Scanner {
            mode: Mode::LineStart,
            neg: false,
            value: 0,
            current: Vec::new(),
            clauses: Vec::new(),
            error: None,
        };
        assert(sc.view().4 =~= Seq::<Seq<Lit>>::empty());
        let mut i: usize = 0;
        while i < bytes.len()
            invariant
                i <= bytes.len(),
                bytes@ == input.spec_bytes(),
                sc.inv(),
                sc.view() == scan_prefix(bytes@, i as int),
            decreases bytes.len() - i,
        {
            sc.step(bytes[i], i);
            i = i + 1;
        }
        proof {
            assert forall|h: Seq<u8>, ns: Seq<int>|
                (h.len() == 0 || skipped_line(h)) && literal_numbers(ns) && input.spec_bytes() == #[trigger] (h
                    + clause_line(ns)) implies parse_spec(input.spec_bytes()) is Ok by {
                lemma_parse_clause_line(h, ns);
            }
            assert forall|h: Seq<u8>, nss: Seq<Seq<int>>|
                (h.len() == 0 || skipped_line(h)) && (forall|j: int| 0 <= j < nss.len() ==> literal_numbers(#[trigger] nss[j]))
                    && input.spec_bytes() == #[trigger] (h + clause_lines(nss)) implies parse_spec(input.spec_bytes()) is Ok by {
                lemma_parse_clause_lines(h, nss);
            }
        }
        if let Some(e) = sc.error {
            return Err(e);
        }
        if sc.mode == Mode::Sign {
            return Err(CnfError::UnexpectedEnd);
        }
        if sc.mode == Mode::Digits {
            sc.end_number(Mode::LineStart);
        }
        if sc.current.len() > 0 {
            let ghost before = sc.view();
            let mut cur: Vec<Lit> = Vec::new();
            std::mem::swap(&mut cur, &mut sc.current);
            sc.clauses.push(boxed(cur));
            proof {
                let sv = Seq::new(sc.clauses@.len(), |k: int| sc.clauses@[k]@);
                assert(sv =~= before.4.push(before.3));
            }
        }
        let r = Ok(CNF { clauses: sc.clauses });
        proof {
            assert forall|h: Seq<u8>, ns: Seq<int>|
                (h.len() == 0 || skipped_line(h)) && literal_numbers(ns) && input.spec_bytes() == #[trigger] (h
                    + clause_line(ns)) implies r is Ok && r->Ok_0.clauses.len() == 1 && r->Ok_0.clauses@[0]@.len()
                == ns.len() && forall|i: int|
                0 <= i < ns.len() ==> {
                    &&& (#[trigger] r->Ok_0.clauses@[0]@[i]).var_id() == (if ns[i] < 0 {
                        -ns[i]
                    } else {
                        ns[i]
                    })
                    &&& r->Ok_0.clauses@[0]@[i].positive() == (ns[i] > 0)
                } by {
                lemma_parse_clause_line(h, ns);
            }
            assert forall|h: Seq<u8>, nss: Seq<Seq<int>>|
                (h.len() == 0 || skipped_line(h)) && (forall|j: int| 0 <= j < nss.len() ==> literal_numbers(#[trigger] nss[j]))
                    && input.spec_bytes() == #[trigger] (h + clause_lines(nss)) implies r is Ok && r->Ok_0.clauses.len()
                == nss.len() && (forall|j: int| 0 <= j < nss.len() ==> (#[trigger] r->Ok_0.clauses@[j]@).len() == nss[j].len())
                && forall|j: int, i: int|
                0 <= j < nss.len() && 0 <= i < nss[j].len() ==> {
                    &&& (#[trigger] r->Ok_0.clauses@[j]@[i]).var_id() == (if nss[j][i] < 0 {
                        -nss[j][i]
                    } else {
                        nss[j][i]
                    })
                    &&& r->Ok_0.clauses@[j]@[i].positive() == (nss[j][i] > 0)
                } by {
                lemma_parse_clause_lines(h, nss);
                assert forall|j: int| 0 <= j < nss.len() implies (#[trigger] r->Ok_0.clauses@[j]@).len() == nss[j].len() by {
                    assert(r->Ok_0.clauses@[j]@ == parse_spec(h + clause_lines(nss))->Ok_0[j]);
                }
                assert forall|j: int, i: int| 0 <= j < nss.len() && 0 <= i < nss[j].len() implies {
                    &&& (#[trigger] r->Ok_0.clauses@[j]@[i]).var_id() == (if nss[j][i] < 0 {
                        -nss[j][i]
                    } else {
                        nss[j][i]
                    })
                    &&& r->Ok_0.clauses@[j]@[i].positive() == (nss[j][i] > 0)
                } by {
                    assert(r->Ok_0.clauses@[j]@ == parse_spec(h + clause_lines(nss))->Ok_0[j]);
                    assert(parse_spec(h + clause_lines(nss))->Ok_0[j][i] == r->Ok_0.clauses@[j]@[i]);
                }
            }
        }
        r
    }
}

} // verus!
