use vstd::prelude::*;
use vstd::std_specs::cmp::PartialEqSpecImpl;

verus! {

/*******************************************************************/

/// An exact rational number of any size: a sign, and a numerator and a positive denominator,
/// each a natural number written in base 2^64 limbs, least significant first. It need not be in
/// lowest terms: two values are equal when their fractions are.
#[derive(Clone, Debug)]
pub struct Rational {
    /// Whether the number is below zero (a zero numerator gives zero either way).
    pub neg: bool,
    /// Limbs of the absolute value of the numerator.
    pub num: Vec<u64>,
    /// Limbs of the denominator.
    pub den: Vec<u64>,
}

/// A rational number as a numerator and a positive denominator.
pub type Q = (int, int);

/// The natural number written by the limbs, least significant first, in base 2^64.
pub open spec fn limbs_val(s: Seq<u64>) -> nat
    decreases s.len(),
{
    if s.len() == 0 {
        0
    } else {
        s[0] as nat + 0x1_0000_0000_0000_0000nat * limbs_val(s.drop_first())
    }
}

/// The number as a fraction.
pub open spec fn q_of(r: Rational) -> Q {
    (if r.neg { -limbs_val(r.num@) } else { limbs_val(r.num@) as int }, limbs_val(r.den@) as int)
}

/// The two fractions denote the same number.
pub open spec fn q_eq(a: Q, b: Q) -> bool {
    a.0 * b.1 == b.0 * a.1
}

/// The sum of two fractions.
pub open spec fn q_add(a: Q, b: Q) -> Q {
    (a.0 * b.1 + b.0 * a.1, a.1 * b.1)
}

/// `a <= b`, for fractions with positive denominators.
pub open spec fn q_le(a: Q, b: Q) -> bool {
    a.0 * b.1 <= b.0 * a.1
}

/// Sum of two rationals, computed with `malachite`'s arbitrary-precision `Rational` (limbs of
/// 64 bits, as on the 64-bit targets this crate builds for). The contract claims that the
/// result, converted back to limbs, is the exact sum, with a positive denominator.
#[verifier::external_body]
fn rational_sum(a: &Rational, b: &Rational) -> (r: Rational)
    requires
        a.wf(),
        b.wf(),
    ensures
        r.wf(),
        q_eq(q_of(r), q_add(q_of(*a), q_of(*b))),
{
    let x = malachite::Rational::from_sign_and_naturals(!a.neg, malachite::Natural::from_limbs_asc(&a.num), malachite::Natural::from_limbs_asc(&a.den));
    let y = malachite::Rational::from_sign_and_naturals(!b.neg, malachite::Natural::from_limbs_asc(&b.num), malachite::Natural::from_limbs_asc(&b.den));
    let s = x + y;
    Rational { neg: s < 0u32, num: s.numerator_ref().to_limbs_asc(), den: s.denominator_ref().to_limbs_asc() }
}

/// Whether `a <= b`, compared as `malachite` rationals. The contract claims the exact order of the
/// two numbers.
#[verifier::external_body]
fn rational_le(a: &Rational, b: &Rational) -> (r: bool)
    requires
        a.wf(),
        b.wf(),
    ensures
        r == q_le(q_of(*a), q_of(*b)),
{
    let x = malachite::Rational::from_sign_and_naturals(!a.neg, malachite::Natural::from_limbs_asc(&a.num), malachite::Natural::from_limbs_asc(&a.den));
    let y = malachite::Rational::from_sign_and_naturals(!b.neg, malachite::Natural::from_limbs_asc(&b.num), malachite::Natural::from_limbs_asc(&b.den));
    x <= y
}

/// Whether `a == b`, compared as `malachite` rationals, which are kept in lowest terms. The
/// contract claims the equality of the two numbers.
#[verifier::external_body]
fn rational_eq(a: &Rational, b: &Rational) -> (r: bool)
    requires
        a.wf(),
        b.wf(),
    ensures
        r == q_eq(q_of(*a), q_of(*b)),
{
    let x = malachite::Rational::from_sign_and_naturals(!a.neg, malachite::Natural::from_limbs_asc(&a.num), malachite::Natural::from_limbs_asc(&a.den));
    let y = malachite::Rational::from_sign_and_naturals(!b.neg, malachite::Natural::from_limbs_asc(&b.num), malachite::Natural::from_limbs_asc(&b.den));
    x == y
}

/// Fractions that denote the same number give sums that denote the same number.
pub proof fn lemma_sum_congruent(a: Q, a2: Q, b: Q)
    requires
        a.1 > 0,
        a2.1 > 0,
        b.1 > 0,
        q_eq(a, a2),
    ensures
        q_eq(q_add(a, b), q_add(a2, b)),
{
    let s = q_add(a, b);
    let s2 = q_add(a2, b);
    let x = a.0 * a2.1;
    assert(s.0 * s2.1 == x * (b.1 * b.1) + b.0 * a.1 * a2.1 * b.1) by (nonlinear_arith)
        requires
            s.0 == a.0 * b.1 + b.0 * a.1,
            s2.1 == a2.1 * b.1,
            x == a.0 * a2.1,
    ;
    let y = a2.0 * a.1;
    assert(s2.0 * s.1 == y * (b.1 * b.1) + b.0 * a2.1 * a.1 * b.1) by (nonlinear_arith)
        requires
            s2.0 == a2.0 * b.1 + b.0 * a2.1,
            s.1 == a.1 * b.1,
            y == a2.0 * a.1,
    ;
    assert(b.0 * a2.1 * a.1 * b.1 == b.0 * a.1 * a2.1 * b.1) by (nonlinear_arith);
}

/// Sums of fractions with positive denominators have positive denominators.
pub proof fn lemma_q_add_pos(a: Q, b: Q)
    requires
        a.1 > 0,
        b.1 > 0,
    ensures
        q_add(a, b).1 > 0,
{
    assert(a.1 * b.1 > 0) by (nonlinear_arith)
        requires
            a.1 > 0,
            b.1 > 0,
    ;
}

/// Equality of numbers is transitive.
pub proof fn lemma_q_eq_trans(a: Q, b: Q, c: Q)
    requires
        b.1 > 0,
        q_eq(a, b),
        q_eq(b, c),
    ensures
        q_eq(a, c),
{
    assert(q_eq(a, c)) by (nonlinear_arith)
        requires
            a.0 * b.1 == b.0 * a.1,
            b.0 * c.1 == c.0 * b.1,
            b.1 > 0,
    {
        assert(a.0 * c.1 * b.1 == b.0 * a.1 * c.1);
        assert(b.0 * c.1 * a.1 == c.0 * b.1 * a.1);
    }
}

/// A single limb writes itself.
proof fn lemma_one_limb(x: u64)
    ensures
        limbs_val(seq![x]) == x,
{
    assert(seq![x].drop_first() =~= Seq::<u64>::empty());
    assert(limbs_val(Seq::<u64>::empty()) == 0);
}

impl Rational {
    pub open spec fn wf(self) -> bool {
        limbs_val(self.den@) > 0
    }

    /// The number `num / den`.
    pub fn new(num: i64, den: u64) -> (r: Rational)
        requires
            den > 0,
        ensures
            r.wf(),
            q_of(r) == (num as int, den as int),
    {
        let mag: u64 = if num < 0 {
            (-(num as i128)) as u64
        } else {
            num as u64
        };
        let r = Rational { neg: num < 0, num: vec![mag], den: vec![den] };
        proof {
            lemma_one_limb(mag);
            lemma_one_limb(den);
            assert(r.num@ == seq![mag]);
            assert(r.den@ == seq![den]);
        }
        r
    }

    /// The integer `n`.
    pub fn from_int(n: i64) -> (r: Rational)
        ensures
            r.wf(),
            q_of(r) == (n as int, 1int),
    {
        Rational::new(n, 1)
    }

    /// Whether the two numbers are equal.
    pub fn equals(&self, other: &Rational) -> (b: bool)
        requires
            self.wf(),
            other.wf(),
        ensures
            b == q_eq(q_of(*self), q_of(*other)),
    {
        rational_eq(self, other)
    }

    /// Whether this number is at most the other.
    pub fn le(&self, other: &Rational) -> (b: bool)
        requires
            self.wf(),
            other.wf(),
        ensures
            b == q_le(q_of(*self), q_of(*other)),
    {
        rational_le(self, other)
    }
}

/// The limbs write zero exactly when they are all zero.
proof fn lemma_limbs_zero(s: Seq<u64>)
    ensures
        (limbs_val(s) == 0) == (forall|i: int| 0 <= i < s.len() ==> s[i] == 0),
    decreases s.len(),
{
    if s.len() > 0 {
        lemma_limbs_zero(s.drop_first());
        if forall|i: int| 0 <= i < s.len() ==> s[i] == 0 {
            assert forall|i: int| 0 <= i < s.drop_first().len() implies s.drop_first()[i] == 0 by {
                assert(s.drop_first()[i] == s[i + 1]);
            }
        } else {
            let i = choose|i: int| 0 <= i < s.len() && s[i] != 0;
            if i > 0 {
                assert(s.drop_first()[i - 1] == s[i]);
            }
        }
    }
}

impl Rational {
    /// Whether the denominator is positive.
    pub fn wf_exec(&self) -> (b: bool)
        ensures
            b == self.wf(),
    {
        proof {
            lemma_limbs_zero(self.den@);
        }
        let mut i: usize = 0;
        while i < self.den.len()
            invariant
                i <= self.den.len(),
                forall|j: int| 0 <= j < i ==> self.den@[j] == 0,
            decreases self.den.len() - i,
        {
            if self.den[i] != 0 {
                proof {
                    lemma_limbs_zero(self.den@);
                    assert(!(forall|j: int| 0 <= j < self.den@.len() ==> self.den@[j] == 0)) by {
                        assert(self.den@[i as int] != 0);
                    }
                }
                return true;
            }
            i = i + 1;
        }
        false
    }
}

impl PartialEq for Rational {
    fn eq(&self, other: &Rational) -> (b: bool) {
        if self.wf_exec() && other.wf_exec() {
            self.equals(other)
        } else {
            false
        }
    }
}

impl PartialEqSpecImpl for Rational {
    open spec fn obeys_eq_spec() -> bool {
        true
    }

    open spec fn eq_spec(&self, other: &Rational) -> bool {
        self.wf() && other.wf() && q_eq(q_of(*self), q_of(*other))
    }
}

impl Eq for Rational {
}

/*******************************************************************/

/// Kinds of timepoints.
#[derive(Clone, Copy, Debug, PartialEq, Eq, Structural)]
pub enum TimepointKind {
    /// Start of the problem.
    GlobalStart,
    /// End of the problem.
    GlobalEnd,
    /// Start of the container.
    Start,
    /// End of the container.
    End,
}

/*******************************************************************/

/// Reference to an absolute time: a reference point shifted by a delay.
#[derive(Clone, Debug, PartialEq, Eq)]
pub struct Timepoint {
    pub kind: TimepointKind,
    pub delay: Rational,
}

/// An action with a duration: the container of timepoints relative to its start and end.
#[derive(Clone, Debug)]
pub struct DurativeAction {
    pub name: String,
    pub start: Timepoint,
    pub end: Timepoint,
}

impl DurativeAction {
    pub fn new(name: String, start: Timepoint, end: Timepoint) -> (a: DurativeAction)
        ensures
            a.name@ == name@,
            a.start == start,
            a.end == end,
    {
        DurativeAction { name, start, end }
    }

    /// The timepoint at which the action starts.
    pub fn start(&self) -> (t: &Timepoint)
        ensures
            *t == self.start,
    {
        &self.start
    }

    /// The timepoint at which the action ends.
    pub fn end(&self) -> (t: &Timepoint)
        ensures
            *t == self.end,
    {
        &self.end
    }
}

/// The container behind the reference.
pub open spec fn deref_container(c: Option<&DurativeAction>) -> Option<DurativeAction> {
    match c {
        Some(a) => Some(*a),
        None => None,
    }
}

/// The value of the timepoint's reference point when it has no container.
pub open spec fn alone_base(kind: TimepointKind, global_end: Rational) -> Q {
    match kind {
        TimepointKind::GlobalStart => (0, 1),
        TimepointKind::GlobalEnd => q_of(global_end),
        TimepointKind::Start => (0, 1),
        TimepointKind::End => q_of(global_end),
    }
}

/// The value of a timepoint without container.
pub open spec fn eval_alone_spec(t: Timepoint, global_end: Rational) -> Q {
    q_add(alone_base(t.kind, global_end), q_of(t.delay))
}

/// The value of the timepoint's reference point in the container.
pub open spec fn base_spec(t: Timepoint, container: Option<DurativeAction>, global_end: Rational) -> Q {
    match (t.kind, container) {
        (TimepointKind::Start, Some(c)) => eval_alone_spec(c.start, global_end),
        (TimepointKind::End, Some(c)) => eval_alone_spec(c.end, global_end),
        _ => alone_base(t.kind, global_end),
    }
}

/// The value of the timepoint in the container: the value of its reference point plus its delay.
pub open spec fn eval_spec(t: Timepoint, container: Option<DurativeAction>, global_end: Rational) -> Q {
    q_add(base_spec(t, container, global_end), q_of(t.delay))
}

/// The values of the reference points have positive denominators.
pub proof fn lemma_base_spec_pos(t: Timepoint, container: Option<DurativeAction>, global_end: Rational)
    requires
        global_end.wf(),
        container matches Some(c) ==> c.start.wf() && c.end.wf(),
    ensures
        base_spec(t, container, global_end).1 > 0,
{
    if let Some(c) = container {
        lemma_q_add_pos(alone_base(c.start.kind, global_end), q_of(c.start.delay));
        lemma_q_add_pos(alone_base(c.end.kind, global_end), q_of(c.end.delay));
    }
}

/// The values of timepoints have positive denominators.
pub proof fn lemma_eval_spec_pos(t: Timepoint, container: Option<DurativeAction>, global_end: Rational)
    requires
        t.wf(),
        global_end.wf(),
        container matches Some(c) ==> c.start.wf() && c.end.wf(),
    ensures
        eval_spec(t, container, global_end).1 > 0,
{
    lemma_base_spec_pos(t, container, global_end);
    lemma_q_add_pos(base_spec(t, container, global_end), q_of(t.delay));
}

impl Timepoint {
    pub open spec fn wf(self) -> bool {
        self.delay.wf()
    }

    pub fn new(kind: TimepointKind, delay: Rational) -> (t: Timepoint)
        ensures
            t.kind == kind,
            t.delay == delay,
    {
        Timepoint { kind, delay }
    }

    /// Builds a fixed timepoint
    pub fn fixed(instant: Rational) -> (t: Timepoint)
        ensures
            t.kind == TimepointKind::GlobalStart,
            t.delay == instant,
    {
        Timepoint { kind: TimepointKind::GlobalStart, delay: instant }
    }

    /// Builds a timepoint representing the PDDL `at-start`.
    pub fn at_start() -> (t: Timepoint)
        ensures
            t.kind == TimepointKind::Start,
            t.wf(),
            q_of(t.delay) == (0int, 1int),
    {
        Timepoint { kind: TimepointKind::Start, delay: Rational::from_int(0) }
    }

    /// Builds a timepoint representing the PDDL `at-end`.
    pub fn at_end() -> (t: Timepoint)
        ensures
            t.kind == TimepointKind::End,
            t.wf(),
            q_of(t.delay) == (0int, 1int),
    {
        Timepoint { kind: TimepointKind::End, delay: Rational::from_int(0) }
    }

    /// Value of the timepoint without container: its delay after the start of the problem, or
    /// after `global_end`.
    fn eval_alone(&self, global_end: &Rational) -> (r: Rational)
        requires
            self.wf(),
            global_end.wf(),
        ensures
            r.wf(),
            q_eq(q_of(r), eval_alone_spec(*self, *global_end)),
    {
        match self.kind {
            TimepointKind::GlobalStart => rational_sum(&Rational::from_int(0), &self.delay),
            TimepointKind::GlobalEnd => rational_sum(global_end, &self.delay),
            TimepointKind::Start => rational_sum(&Rational::from_int(0), &self.delay),
            TimepointKind::End => rational_sum(global_end, &self.delay),
        }
    }

    /// Evaluates the value of the timepoint for the given container: the value of its reference
    /// point (the start of the problem, its end `global_end`, or the start or end of the
    /// container, evaluated without container) plus its delay. Without container, the start of
    /// the container is the start of the problem and its end is `global_end`.
    pub fn eval(&self, container: Option<&DurativeAction>, global_end: &Rational) -> (r: Rational)
        requires
            self.wf(),
            global_end.wf(),
            container matches Some(c) ==> c.start.wf() && c.end.wf(),
        ensures
            r.wf(),
            q_eq(q_of(r), eval_spec(*self, deref_container(container), *global_end)),
    {
        let ghost bs = base_spec(*self, deref_container(container), *global_end);
        proof {
            lemma_base_spec_pos(*self, deref_container(container), *global_end);
        }
        match self.kind {
            TimepointKind::Start if container.is_some() => {
                let c = container.unwrap();
                let b = c.start().eval_alone(global_end);
                let r = rational_sum(&b, &self.delay);
                proof {
                    Self::lemma_shift(q_of(b), bs, q_of(self.delay), q_of(r));
                }
                r
            },
            TimepointKind::End if container.is_some() => {
                let c = container.unwrap();
                let b = c.end().eval_alone(global_end);
                let r = rational_sum(&b, &self.delay);
                proof {
                    Self::lemma_shift(q_of(b), bs, q_of(self.delay), q_of(r));
                }
                r
            },
            TimepointKind::GlobalEnd | TimepointKind::End => rational_sum(global_end, &self.delay),
            _ => {
                let z = Rational::from_int(0);
                rational_sum(&z, &self.delay)
            },
        }
    }

    /// A sum with a base equal to the expected one is the expected sum.
    proof fn lemma_shift(b: Q, bs: Q, d: Q, r: Q)
        requires
            b.1 > 0,
            bs.1 > 0,
            d.1 > 0,
            q_eq(b, bs),
            q_eq(r, q_add(b, d)),
        ensures
            q_eq(r, q_add(bs, d)),
    {
        lemma_sum_congruent(b, bs, d);
        lemma_q_add_pos(b, d);
        lemma_q_eq_trans(r, q_add(b, d), q_add(bs, d));
    }
}

impl Default for Timepoint {
    fn default() -> (t: Timepoint)
        ensures
            t.kind == TimepointKind::GlobalStart,
            t.wf(),
            q_of(t.delay) == (0int, 1int),
    {
        Timepoint { kind: TimepointKind::GlobalStart, delay: Rational::from_int(0) }
    }
}

/*******************************************************************/

/// Temporal interval [start, end] which can be opened or closed with abstract timepoints.
#[derive(Clone, Debug, PartialEq, Eq)]
pub struct TemporalInterval {
    /// The lower bound of the interval.
    pub start: Timepoint,
    /// The upper bound of the interval.
    pub end: Timepoint,
    /// Whether or not the lower bound is open.
    pub is_start_open: bool,
    /// Whether or not the upper bound is open.
    pub is_end_open: bool,
}

/// Whether `t` lies in the interval from `s` to `e`, each bound excluded when open.
pub open spec fn in_interval(t: Q, s: Q, e: Q, start_open: bool, end_open: bool) -> bool {
    if (q_eq(s, t) && start_open) || (q_eq(e, t) && end_open) {
        false
    } else {
        q_le(s, t) && q_le(t, e)
    }
}

impl TemporalInterval {
    pub open spec fn wf(self) -> bool {
        self.start.wf() && self.end.wf()
    }

    pub fn new(start: Timepoint, end: Timepoint, is_start_open: bool, is_end_open: bool) -> (i: TemporalInterval)
        ensures
            i.start == start,
            i.end == end,
            i.is_start_open == is_start_open,
            i.is_end_open == is_end_open,
    {
        TemporalInterval { start, end, is_start_open, is_end_open }
    }

    /// Builds a temporal interval [at-start, at-start].
    pub fn at_start() -> (i: TemporalInterval)
        ensures
            i.wf(),
            i.start.kind == TimepointKind::Start,
            q_of(i.start.delay) == (0int, 1int),
            i.end.kind == TimepointKind::Start,
            q_of(i.end.delay) == (0int, 1int),
            !i.is_start_open,
            !i.is_end_open,
    {
        Self::new(Timepoint::at_start(), Timepoint::at_start(), false, false)
    }

    /// Returns whether or not the timepoint is in the interval for the given container, its
    /// bounds being evaluated in the container.
    pub fn contains(&self, timepoint: &Rational, container: Option<&DurativeAction>, global_end: &Rational) -> (r: bool)
        requires
            self.wf(),
            timepoint.wf(),
            global_end.wf(),
            container matches Some(c) ==> c.start.wf() && c.end.wf(),
        ensures
            r == in_interval(
                q_of(*timepoint),
                eval_spec(self.start, deref_container(container), *global_end),
                eval_spec(self.end, deref_container(container), *global_end),
                self.is_start_open,
                self.is_end_open,
            ),
            ({
                let t = q_of(*timepoint);
                let s = eval_spec(self.start, deref_container(container), *global_end);
                let e = eval_spec(self.end, deref_container(container), *global_end);
                &&& r ==> s.0 * t.1 <= t.0 * s.1 && t.0 * e.1 <= e.0 * t.1
                &&& r && self.is_start_open ==> s.0 * t.1 < t.0 * s.1
                &&& r && self.is_end_open ==> t.0 * e.1 < e.0 * t.1
                &&& s.0 * t.1 <= t.0 * s.1 && t.0 * e.1 <= e.0 * t.1 && (self.is_start_open ==> s.0 * t.1 < t.0
                    * s.1) && (self.is_end_open ==> t.0 * e.1 < e.0 * t.1) ==> r
            }),
    {
        let start = self.start.eval(container, global_end);
        let end = self.end.eval(container, global_end);
        let ghost ct = deref_container(container);
        let ghost sq = eval_spec(self.start, ct, *global_end);
        let ghost eq = eval_spec(self.end, ct, *global_end);
        proof {
            lemma_eval_spec_pos(self.start, ct, *global_end);
            lemma_eval_spec_pos(self.end, ct, *global_end);
            lemma_q_eq_transfer(q_of(start), sq, q_of(*timepoint));
            lemma_q_eq_transfer(q_of(end), eq, q_of(*timepoint));
        }
        if (start.equals(timepoint) && self.is_start_open) || (end.equals(timepoint) && self.is_end_open) {
            false
        } else {
            start.le(timepoint) && timepoint.le(&end)
        }
    }

    /// Returns the lower bound of the interval.
    pub fn start(&self) -> (t: &Timepoint)
        ensures
            *t == self.start,
    {
        &self.start
    }

    /// Returns the upper bound of the interval.
    pub fn end(&self) -> (t: &Timepoint)
        ensures
            *t == self.end,
    {
        &self.end
    }

    /// Returns whether or not the lower is open.
    pub fn is_start_open(&self) -> (b: bool)
        ensures
            b == self.is_start_open,
    {
        self.is_start_open
    }

    /// Returns whether or not the upper is open.
    pub fn is_end_open(&self) -> (b: bool)
        ensures
            b == self.is_end_open,
    {
        self.is_end_open
    }
}

/// Comparisons with a number give the same answers for two fractions of it.
pub proof fn lemma_q_eq_transfer(a: Q, a2: Q, t: Q)
    requires
        a.1 > 0,
        a2.1 > 0,
        t.1 > 0,
        q_eq(a, a2),
    ensures
        q_eq(a, t) == q_eq(a2, t),
        q_le(a, t) == q_le(a2, t),
        q_le(t, a) == q_le(t, a2),
{
    assert(q_eq(a, t) == q_eq(a2, t)) by (nonlinear_arith)
        requires
            a.0 * a2.1 == a2.0 * a.1,
            a.1 > 0,
            a2.1 > 0,
            t.1 > 0,
    {
        assert(a.0 * t.1 * a2.1 == a2.0 * a.1 * t.1);
    }
    assert(q_le(a, t) == q_le(a2, t)) by (nonlinear_arith)
        requires
            a.0 * a2.1 == a2.0 * a.1,
            a.1 > 0,
            a2.1 > 0,
            t.1 > 0,
    {
        assert(a.0 * t.1 * a2.1 == a2.0 * a.1 * t.1);
    }
    assert(q_le(t, a) == q_le(t, a2)) by (nonlinear_arith)
        requires
            a.0 * a2.1 == a2.0 * a.1,
            a.1 > 0,
            a2.1 > 0,
            t.1 > 0,
    {
        assert(a.0 * t.1 * a2.1 == a2.0 * a.1 * t.1);
    }
}

} // verus!
