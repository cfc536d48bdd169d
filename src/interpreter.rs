use crate::quantity::{
    displays, lemma_prefs_fit_views, merge_prefs, prefs_fit_views, views, Quantity, QuantityError,
    QuantityView,
};
use crate::rational::{
    div_toward_zero, frac_add, frac_div, frac_eq, frac_mul, frac_pow, frac_sub, rat_add, rat_eq, rat_mul, rat_pow, rat_trunc, Rational,
};
use crate::linear_system::{lemma_pivot_values_len, LinearSystem};
use crate::parsing::{lit_body, lit_scan, lit_value, to_i32};
use crate::text::join3;
use crate::tokenizer::{chr, column_at, line_at, run_end, token_end, token_seen, CharClass, ReaderCursor, Token, Tokenizer, TokenizerError};
use crate::units::{
    composed_div, composed_mul, exp_of, is_reduced, lemma_exp_of_unique, lists_base, lemma_exp_of_zero, lemma_unique_prefix_fits, no_min, same_dimension, same_entries, sum_fits, BaseUnit, DerivedUnit,
    summary_head, derived_lines, dims_text, DerivedView, Unit, UnitCombo, UnitExponent, UnitSystem,
};
use vstd::prelude::*;
use vstd::string::{StrSliceExecFns, StringSliceAdditionalSpecFns};

verus! {

/// What evaluation hands to the front end.
#[derive(Debug, Clone)]
pub enum Output {
    Quantity(Quantity),
    QuantityList(Vec<Quantity>),
    Message(String),
}

/// Why evaluation stopped.
#[derive(Debug, Clone)]
pub enum InterpreterError {
    TokenizerError(ReaderCursor, TokenizerError),
    QuantityError(QuantityError),
    StackUnderflow,
    UndefinedUnit(String),
    UndefinedMacro(String),
    UndefinedVariable(String),
    IncompatibleUnits(UnitCombo),
    NoSolution(String),
    AlreadyDefined(String),
    /// A division by a zero quantity, a derived unit of scale zero, or a zero raised to a
    /// negative power.
    DivisionByZero,
    /// An exponent of a dimension would leave the range of `i32`.
    ExponentOverflow,
}

pub type InterpreterResult<T> = Result<T, InterpreterError>;

/// `s` without leading and trailing whitespace.
pub uninterp spec fn trimmed(s: Seq<char>) -> Seq<char>;

/// Relies on `str::trim`: the result depends on the characters alone.
#[verifier::external_body]
fn trim(s: &str) -> (r: String)
    ensures
        r@ == trimmed(s@),
{
    s.trim().to_string()
}

/// The symbol with every exponent of its dimension: `u^1`.
pub open spec fn base_dimension(u: Seq<char>) -> Seq<(Seq<char>, i32)> {
    seq![(u, 1i32)]
}

/// Whether a display unit is not for dimension `d`.
pub open spec fn keeps(d: Seq<(Seq<char>, i32)>) -> spec_fn(DerivedView) -> bool {
    |p: DerivedView| !displays(p, d)
}

/// The display units of `prefs` that do not display `unit`'s dimension, followed by `unit`.
pub open spec fn prefer(prefs: Seq<DerivedView>, unit: DerivedView) -> Seq<DerivedView> {
    prefs.filter(keeps(unit.3)).push(unit)
}

/// `r` failed with `UndefinedUnit(name)`.
pub open spec fn undefined_unit(r: InterpreterResult<()>, name: Seq<char>) -> bool {
    match r {
        Err(InterpreterError::UndefinedUnit(s)) => s@ == name,
        _ => false,
    }
}

/// `r` failed with `UndefinedVariable(name)`.
pub open spec fn undefined_variable(r: InterpreterResult<()>, name: Seq<char>) -> bool {
    match r {
        Err(InterpreterError::UndefinedVariable(s)) => s@ == name,
        _ => false,
    }
}

/// `r` failed with `AlreadyDefined(name)`.
pub open spec fn already_defined(r: InterpreterResult<()>, name: Seq<char>) -> bool {
    match r {
        Err(InterpreterError::AlreadyDefined(s)) => s@ == name,
        _ => false,
    }
}

/// `r` failed with `IncompatibleUnits(d)`.
pub open spec fn incompatible(r: InterpreterResult<()>, d: Seq<(Seq<char>, i32)>) -> bool {
    match r {
        Err(InterpreterError::IncompatibleUnits(c)) => c@ == d,
        _ => false,
    }
}

/// `r` failed with `NoSolution(reason)`.
pub open spec fn no_solution(r: InterpreterResult<()>, reason: Seq<char>) -> bool {
    match r {
        Err(InterpreterError::NoSolution(s)) => s@ == reason,
        _ => false,
    }
}

/// The display units of `prefs` that do not display dimension `d`.
fn retain_others(prefs: &Vec<DerivedUnit>, d: &UnitCombo) -> (r: Vec<DerivedUnit>)
    requires
        forall|i: int| 0 <= i < prefs@.len() ==> (#[trigger] prefs@[i]).wf(),
    ensures
        views(r@) == views(prefs@).filter(keeps(d@)),
        forall|i: int| 0 <= i < r@.len() ==> (#[trigger] r@[i]).wf(),
{
    let mut r: Vec<DerivedUnit> = Vec::new();
    let mut i: usize = 0;
    assert(views(prefs@).take(0) =~= Seq::<DerivedView>::empty());
    while i < prefs.len()
        invariant
            i <= prefs@.len(),
            forall|k: int| 0 <= k < prefs@.len() ==> (#[trigger] prefs@[k]).wf(),
            forall|k: int| 0 <= k < r@.len() ==> (#[trigger] r@[k]).wf(),
            views(r@) == views(prefs@).take(i as int).filter(keeps(d@)),
        decreases prefs.len() - i,
    {
        let p = &prefs[i];
        proof {
            assert(views(prefs@).take(i + 1) == views(prefs@).take(i as int).push(p@));
            views(prefs@).take(i as int).lemma_filter_push(p@, keeps(d@));
        }
        if !(p.exponents == *d) {
            let c = p.duplicate();
            let ghost before = r@;
            r.push(c);
            proof {
                assert(r@ == before.push(c));
                assert(views(r@) =~= views(before).push(p@));
            }
        }
        i += 1;
    }
    assert(views(prefs@).take(prefs@.len() as int) == views(prefs@));
    r
}

/// A stack machine over quantities, with variables and a unit registry; outputs are
/// collected in order until the front end takes them.
pub struct Interpreter {
    variables: Vec<(String, Quantity)>,
    unit_system: UnitSystem,
    stack: Vec<Quantity>,
    outputs: Vec<Output>,
}

/// The quantity an output prints, if it prints one.
pub open spec fn printed(o: Output) -> Option<QuantityView> {
    match o {
        Output::Quantity(q) => Some(q@),
        _ => None,
    }
}

/// The text of an output, if it is a message.
pub open spec fn message_text(o: Output) -> Option<Seq<char>> {
    match o {
        Output::Message(m) => Some(m@),
        _ => None,
    }
}

/// A message whose text begins with `Warning: `.
pub open spec fn is_warning(o: Output) -> bool {
    match o {
        Output::Message(m) => m@.len() >= 9 && m@.subrange(0, 9) == "Warning: "@,
        _ => false,
    }
}

/// The quantities an output lists, if it lists the stack.
pub open spec fn listed(o: Output) -> Option<Seq<QuantityView>> {
    match o {
        Output::QuantityList(l) => Some(stack_views(l@)),
        _ => None,
    }
}

/// The total exponent of base unit `u` in the product of the first `n` quantities of `ks`,
/// each raised to the power in `cs`.
pub open spec fn weighted(ks: Seq<QuantityView>, cs: Seq<i32>, u: Seq<char>, n: int) -> int
    decreases n,
{
    if n <= 0 {
        0
    } else {
        weighted(ks, cs, u, n - 1) + cs[n - 1] * exp_of(ks[n - 1].1, u)
    }
}

/// The product of the numbers of the first `n` quantities of `ks`, each raised to the power in `cs`.
pub open spec fn powers(ks: Seq<QuantityView>, cs: Seq<i32>, n: int) -> (int, int)
    decreases n,
{
    if n <= 0 {
        (1, 1)
    } else {
        frac_mul(powers(ks, cs, n - 1), frac_pow(ks[n - 1].0, cs[n - 1] as int))
    }
}

/// The (base unit, derived symbol) pairs of the offset-bearing derived units of `ds`, in order.
pub open spec fn offset_pairs(ds: Seq<DerivedView>) -> Seq<(Seq<char>, Seq<char>)>
    decreases ds.len(),
{
    if ds.len() == 0 {
        Seq::empty()
    } else {
        offset_pairs(ds.drop_last()) + unit_pairs(ds.last())
    }
}

/// The (base unit, symbol) pairs of one derived unit, none if its offset is zero.
pub open spec fn unit_pairs(d: DerivedView) -> Seq<(Seq<char>, Seq<char>)> {
    if d.1.0 != 0 {
        d.3.map_values(|e: (Seq<char>, i32)| (e.0, d.0))
    } else {
        Seq::empty()
    }
}

/// The base units named at the first `n` positions of `ps` that occur there for the first time
/// and again later: the units a warning is due for, in order of first mention.
pub open spec fn warned_units(ps: Seq<(Seq<char>, Seq<char>)>, n: int) -> Seq<Seq<char>>
    decreases n,
{
    if n <= 0 {
        Seq::empty()
    } else {
        let i = n - 1;
        let first = forall|k: int| 0 <= k < i ==> ps[k].0 != ps[i].0;
        let later = exists|x: int| i < x < ps.len() && ps[x].0 == ps[i].0;
        warned_units(ps, n - 1) + if first && later {
            seq![ps[i].0]
        } else {
            Seq::empty()
        }
    }
}

/// Output `o` is a message that begins `Warning: ` followed by base unit `u`.
pub open spec fn warns_about(o: Output, u: Seq<char>) -> bool {
    match o {
        Output::Message(m) => m@.len() >= 9 + u.len() && m@.subrange(0, 9 + u.len() as int) == "Warning: "@ + u,
        _ => false,
    }
}

/// Two pairs name the same base unit.
pub open spec fn has_conflict(ps: Seq<(Seq<char>, Seq<char>)>) -> bool {
    exists|a: int, b: int| 0 <= a < b < ps.len() && #[trigger] ps[a].0 == #[trigger] ps[b].0
}

pub open spec fn pair_views(ps: Seq<(String, String)>) -> Seq<(Seq<char>, Seq<char>)> {
    ps.map_values(|p: (String, String)| (p.0@, p.1@))
}

pub proof fn lemma_offset_pairs_concat(a: Seq<DerivedView>, b: Seq<DerivedView>)
    ensures
        offset_pairs(a + b) == offset_pairs(a) + offset_pairs(b),
    decreases b.len(),
{
    if b.len() == 0 {
        assert(a + b =~= a);
        assert(offset_pairs(a) + offset_pairs(b) =~= offset_pairs(a));
    } else {
        lemma_offset_pairs_concat(a, b.drop_last());
        assert((a + b).drop_last() =~= a + b.drop_last());
        assert((a + b).last() == b.last());
        assert(offset_pairs(a) + offset_pairs(b) =~= offset_pairs(a) + offset_pairs(b.drop_last()) + unit_pairs(b.last()));
    }
}

/// Appends the offset pairs of `list` to `pairs`.
fn collect_offset_pairs(list: &Vec<DerivedUnit>, pairs: &mut Vec<(String, String)>)
    requires
        forall|i: int| 0 <= i < list@.len() ==> (#[trigger] list@[i]).wf(),
    ensures
        pair_views(final(pairs)@) == pair_views(old(pairs)@) + offset_pairs(views(list@)),
{
    let ghost start = pair_views(pairs@);
    let mut i: usize = 0;
    assert(views(list@).take(0) =~= Seq::<DerivedView>::empty());
    assert(start + offset_pairs(Seq::<DerivedView>::empty()) =~= start);
    while i < list.len()
        invariant
            i <= list@.len(),
            forall|x: int| 0 <= x < list@.len() ==> (#[trigger] list@[x]).wf(),
            pair_views(pairs@) == start + offset_pairs(views(list@).take(i as int)),
        decreases list.len() - i,
    {
        let d = &list[i];
        let ghost base = pair_views(pairs@);
        proof {
            assert(views(list@).take(i + 1).drop_last() =~= views(list@).take(i as int));
            assert(views(list@).take(i + 1).last() == d@);
        }
        if !d.offset.is_zero() {
            let mut j: usize = 0;
            while j < d.exponents.0.len()
                invariant
                    j <= d.exponents@.len(),
                    d.offset@.0 != 0,
                    pair_views(pairs@) == base + unit_pairs(d@).take(j as int),
                decreases d.exponents.0.len() - j,
            {
                let ghost prev = pairs@;
                pairs.push((d.exponents.0[j].unit.symbol.clone(), d.symbol.clone()));
                proof {
                    assert(pairs@ == prev.push(pairs@.last()));
                    assert(unit_pairs(d@).take(j + 1) =~= unit_pairs(d@).take(j as int).push(unit_pairs(d@)[j as int]));
                    assert(pair_views(pairs@) =~= pair_views(prev).push(unit_pairs(d@)[j as int]));
                }
                j += 1;
            }
            assert(unit_pairs(d@).take(d.exponents@.len() as int) =~= unit_pairs(d@));
        } else {
            assert(unit_pairs(d@) =~= Seq::<(Seq<char>, Seq<char>)>::empty());
        }
        proof {
            assert(pair_views(pairs@) =~= start + offset_pairs(views(list@).take(i + 1)));
        }
        i += 1;
    }
    assert(views(list@).take(list@.len() as int) =~= views(list@));
}

/// The first display unit of `ps`, from position `k` on, that displays dimension `u`; the
/// length of `ps` if there is none.
pub open spec fn first_from(ps: Seq<DerivedView>, u: Seq<(Seq<char>, i32)>, k: int) -> int
    decreases ps.len() - k,
{
    if k >= ps.len() {
        ps.len() as int
    } else if displays(ps[k], u) {
        k
    } else {
        first_from(ps, u, k + 1)
    }
}

/// The value of `q` as the user sees it: reversed through its first display unit for its
/// dimension, or its base-unit value if there is none.
pub open spec fn shown(q: QuantityView) -> (int, int) {
    let i = first_from(q.2, q.1, 0);
    if i < q.2.len() {
        crate::quantity::value_in(q.0, q.2[i])
    } else {
        q.0
    }
}

/// `c` is the value `q` shows, rounded towards zero (none when it shows no value).
pub open spec fn shows_count(q: QuantityView, c: int) -> bool {
    &&& shown(q).1 != 0
    &&& exists|v: (int, int)| v.1 > 0 && frac_eq(v, shown(q)) && #[trigger] div_toward_zero(v.0, v.1) == c
}

/// Some base unit of `d` has exponent zero in every quantity of `ks`.
pub open spec fn missing_unit(ks: Seq<QuantityView>, d: Seq<(Seq<char>, i32)>) -> bool {
    exists|u: Seq<char>| #[trigger] exp_of(d, u) != 0 && forall|i: int| 0 <= i < ks.len() ==> exp_of(ks[i].1, u) == 0
}

/// Some quantity of `ks` names base unit `sym` in its dimension.
pub open spec fn named(ks: Seq<QuantityView>, sym: Seq<char>) -> bool {
    exists|i: int, j: int| 0 <= i < ks.len() && 0 <= j < ks[i].1.len() && #[trigger] ks[i].1[j].0 == sym
}

/// `r` failed with `IncompatibleUnits(d)`: the target's dimension, which is already reduced.
pub open spec fn incompatible_as(r: InterpreterResult<()>, d: Seq<(Seq<char>, i32)>) -> bool {
    match r {
        Err(InterpreterError::IncompatibleUnits(c)) => c@ == d,
        _ => false,
    }
}

proof fn lemma_first_from(ps: Seq<DerivedView>, u: Seq<(Seq<char>, i32)>, k: int)
    requires
        0 <= k <= ps.len(),
    ensures
        k <= first_from(ps, u, k) <= ps.len(),
        forall|j: int| k <= j < first_from(ps, u, k) ==> !displays(#[trigger] ps[j], u),
        first_from(ps, u, k) < ps.len() ==> displays(ps[first_from(ps, u, k)], u),
    decreases ps.len() - k,
{
    if k < ps.len() && !displays(ps[k], u) {
        lemma_first_from(ps, u, k + 1);
    }
}

/// Truncation towards zero depends on the value alone.
proof fn lemma_trunc_value(x: (int, int), y: (int, int))
    requires
        x.1 > 0,
        y.1 > 0,
        frac_eq(x, y),
    ensures
        div_toward_zero(x.0, x.1) == div_toward_zero(y.0, y.1),
{
    if x.0 >= 0 {
        assert(y.0 >= 0) by (nonlinear_arith)
            requires x.0 * y.1 == y.0 * x.1, x.0 >= 0, x.1 > 0, y.1 > 0;
        lemma_floor_value(x.0, x.1, y.0, y.1);
    } else {
        assert(y.0 < 0) by (nonlinear_arith)
            requires x.0 * y.1 == y.0 * x.1, x.0 < 0, x.1 > 0, y.1 > 0;
        assert((-x.0) * y.1 == (-y.0) * x.1) by (nonlinear_arith)
            requires x.0 * y.1 == y.0 * x.1;
        lemma_floor_value(-x.0, x.1, -y.0, y.1);
    }
}

proof fn lemma_floor_value(x0: int, x1: int, y0: int, y1: int)
    requires
        x0 >= 0,
        y0 >= 0,
        x1 > 0,
        y1 > 0,
        x0 * y1 == y0 * x1,
    ensures
        x0 / x1 == y0 / y1,
{
    let q = x0 / x1;
    let r = x0 % x1;
    vstd::arithmetic::div_mod::lemma_fundamental_div_mod(x0, x1);
    assert(0 <= r < x1) by {
        vstd::arithmetic::div_mod::lemma_mod_pos_bound(x0, x1);
    }
    let r2 = y0 - q * y1;
    assert(r2 * x1 == r * y1) by (nonlinear_arith)
        requires
            r2 == y0 - q * y1,
            x0 == x1 * q + r,
            x0 * y1 == y0 * x1,
    ;
    assert(0 <= r2 < y1) by (nonlinear_arith)
        requires
            r2 * x1 == r * y1,
            0 <= r < x1,
            y1 > 0,
            x1 > 0,
    ;
    vstd::arithmetic::div_mod::lemma_fundamental_div_mod_converse(y0, y1, q, r2);
}

/// The solver turned stack `s` into stack `t` with powers `cs`: the quantities below the
/// target raised to `cs` balance the target's dimension, and their product is the result.
pub open spec fn solved_by(s: Seq<QuantityView>, t: Seq<QuantityView>, cs: Seq<i32>) -> bool {
    let n = s.len() - t.len();
    let ks = s.subrange(t.len() - 1, s.len() - 1);
    &&& cs.len() == n
    &&& forall|u: Seq<char>| #[trigger] weighted(ks, cs, u, n) == exp_of(s.last().1, u)
    &&& frac_eq(t.last().0, powers(ks, cs, n))
}

/// Dividing by `q` divides by zero: its number is zero, or one of its display units has
/// scale zero.
pub open spec fn zero_divisor(q: QuantityView) -> bool {
    q.0.0 == 0 || exists|j: int| 0 <= j < q.2.len() && (#[trigger] q.2[j]).2.0 == 0
}

pub open spec fn stack_views(s: Seq<Quantity>) -> Seq<QuantityView> {
    s.map_values(|q: Quantity| q@)
}

impl Interpreter {
    pub closed spec fn stack_view(&self) -> Seq<QuantityView> {
        stack_views(self.stack@)
    }

    pub closed spec fn outputs(&self) -> Seq<Output> {
        self.outputs@
    }

    /// The variable table: names and values, in binding order.
    pub closed spec fn variables(&self) -> Seq<(String, Quantity)> {
        self.variables@
    }

    pub closed spec fn units(&self) -> UnitSystem {
        self.unit_system
    }

    /// The registry, every quantity and every variable are well-formed; variable names are unique.
    pub closed spec fn wf(&self) -> bool {
        &&& self.unit_system.wf()
        &&& forall|i: int| 0 <= i < self.stack@.len() ==> (#[trigger] self.stack@[i]).wf()
        &&& forall|i: int| 0 <= i < self.variables@.len() ==> (#[trigger] self.variables@[i]).1.wf()
        &&& forall|i: int, j: int|
            0 <= i < j < self.variables@.len() ==> (#[trigger] self.variables@[i]).0@ != (#[trigger] self.variables@[j]).0@
    }

    /// An empty interpreter: no units, no variables, an empty stack.
    pub fn new() -> (r: Interpreter)
        ensures
            r.wf(),
            r.stack_view().len() == 0,
            r.outputs().len() == 0,
            r.units().bases().len() == 0,
            r.units().deriveds().len() == 0,
    {
        let r = Interpreter {
            variables: Vec::new(),
            unit_system: UnitSystem::new(),
            stack: Vec::new(),
            outputs: Vec::new(),
        };
        assert(r.stack_view() =~= Seq::<QuantityView>::empty());
        r
    }

    /// The outputs so far, in order; none are kept.
    pub fn take_outputs(&mut self) -> (r: Vec<Output>)
        requires
            old(self).wf(),
        ensures
            final(self).wf(),
            final(self).variables() == old(self).variables(),
            r@ == old(self).outputs(),
            final(self).outputs().len() == 0,
            final(self).stack_view() == old(self).stack_view(),
            final(self).units() == old(self).units(),
    {
        let mut r: Vec<Output> = Vec::new();
        std::mem::swap(&mut r, &mut self.outputs);
        r
    }

    /// The current stack, bottom first.
    pub fn stack(&self) -> (r: &Vec<Quantity>)
        ensures
            stack_views(r@) == self.stack_view(),
    {
        &self.stack
    }

    fn push_quantity(&mut self, q: Quantity)
        requires
            old(self).wf(),
            q.wf(),
        ensures
            final(self).wf(),
            final(self).variables() == old(self).variables(),
            final(self).stack_view() == old(self).stack_view().push(q@),
            final(self).outputs() == old(self).outputs(),
            final(self).units() == old(self).units(),
    {
        let ghost before = self.stack@;
        self.stack.push(q);
        assert(stack_views(self.stack@) =~= stack_views(before).push(q@));
    }

    fn pop_quantity(&mut self) -> (r: InterpreterResult<Quantity>)
        requires
            old(self).wf(),
        ensures
            final(self).wf(),
            final(self).variables() == old(self).variables(),
            final(self).outputs() == old(self).outputs(),
            final(self).units() == old(self).units(),
            old(self).stack_view().len() == 0 ==> r is Err && final(self).stack_view() == old(self).stack_view()
                && r->Err_0 == InterpreterError::StackUnderflow,
            old(self).stack_view().len() > 0 ==> r is Ok && r->Ok_0.wf() && r->Ok_0@ == old(self).stack_view().last()
                && final(self).stack_view() == old(self).stack_view().drop_last(),
    {
        let ghost before = self.stack@;
        match self.stack.pop() {
            Some(q) => {
                assert(stack_views(self.stack@) =~= stack_views(before).drop_last());
                Ok(q)
            },
            None => Err(InterpreterError::StackUnderflow),
        }
    }

    fn emit(&mut self, o: Output)
        requires
            old(self).wf(),
        ensures
            final(self).wf(),
            final(self).variables() == old(self).variables(),
            final(self).outputs() == old(self).outputs().push(o),
            final(self).stack_view() == old(self).stack_view(),
            final(self).units() == old(self).units(),
    {
        self.outputs.push(o);
    }

    /// Pushes a unitless quantity.
    pub fn op_number(&mut self, number: Rational) -> (r: InterpreterResult<()>)
        requires
            old(self).wf(),
            number.wf(),
        ensures
            Self::number_done(*old(self), *final(self), r, number),
    {
        let q = Quantity::new(number, UnitCombo::new());
        assert(views(q.use_derived_unit@) =~= Seq::<DerivedView>::empty());
        self.push_quantity(q);
        Ok(())
    }

    /// Prints the top of the stack, leaving it there.
    pub fn op_p(&mut self) -> (r: InterpreterResult<()>)
        requires
            old(self).wf(),
        ensures
            Self::p_done(*old(self), *final(self), r),
    {
        let n = self.stack.len();
        if n == 0 {
            return Err(InterpreterError::StackUnderflow);
        }
        let q = self.stack[n - 1].duplicate();
        assert(self.stack_view()[n - 1] == self.stack@[n - 1]@);
        self.emit(Output::Quantity(q));
        assert(self.outputs().drop_last() =~= old(self).outputs());
        Ok(())
    }

    /// Prints the top of the stack and removes it.
    pub fn op_n(&mut self) -> (r: InterpreterResult<()>)
        requires
            old(self).wf(),
        ensures
            Self::n_done(*old(self), *final(self), r),
    {
        let q = self.pop_quantity()?;
        let ghost v = q@;
        self.emit(Output::Quantity(q));
        assert(self.outputs().drop_last() =~= old(self).outputs());
        Ok(())
    }

    /// Prints the whole stack, bottom first.
    pub fn op_f(&mut self) -> (r: InterpreterResult<()>)
        requires
            old(self).wf(),
        ensures
            Self::f_done(*old(self), *final(self), r),
    {
        let mut l: Vec<Quantity> = Vec::new();
        let mut i: usize = 0;
        while i < self.stack.len()
            invariant
                self.wf(),
                i <= self.stack@.len(),
                stack_views(l@) == stack_views(self.stack@).take(i as int),
            decreases self.stack.len() - i,
        {
            let q = self.stack[i].duplicate();
            let ghost before = l@;
            l.push(q);
            assert(stack_views(l@) =~= stack_views(self.stack@).take(i + 1)) by {
                assert(l@ == before.push(q));
                assert(stack_views(l@) =~= stack_views(before).push(q@));
            }
            i += 1;
        }
        assert(stack_views(self.stack@).take(self.stack@.len() as int) == stack_views(self.stack@));
        self.emit(Output::QuantityList(l));
        assert(self.outputs().drop_last() =~= old(self).outputs());
        Ok(())
    }

    /// Duplicates the top of the stack.
    pub fn op_d(&mut self) -> (r: InterpreterResult<()>)
        requires
            old(self).wf(),
        ensures
            Self::d_done(*old(self), *final(self), r),
    {
        let q = self.pop_quantity()?;
        let c = q.duplicate();
        self.push_quantity(c);
        self.push_quantity(q);
        assert(old(self).stack_view().drop_last().push(old(self).stack_view().last()) =~= old(self).stack_view());
        Ok(())
    }

    /// Empties the stack.
    pub fn op_c(&mut self) -> (r: InterpreterResult<()>)
        requires
            old(self).wf(),
        ensures
            Self::c_done(*old(self), *final(self), r),
    {
        self.stack.clear();
        assert(self.stack_view() =~= Seq::<QuantityView>::empty());
        Ok(())
    }

    /// Exchanges the top two quantities. With one, it is popped and the call fails.
    pub fn op_r(&mut self) -> (r: InterpreterResult<()>)
        requires
            old(self).wf(),
        ensures
            Self::r_done(*old(self), *final(self), r),
    {
        let a = self.pop_quantity()?;
        let b = self.pop_quantity()?;
        self.push_quantity(a);
        self.push_quantity(b);
        proof {
            let s = old(self).stack_view();
            let n = s.len() as int;
            assert(s.drop_last().drop_last() =~= s.subrange(0, n - 2));
            assert(s.drop_last().last() == s[n - 2]);
        }
        Ok(())
    }

    /// The outputs are `before` followed by warning messages only.
    pub open spec fn only_messages_since(&self, before: Seq<Output>) -> bool {
        &&& self.outputs().len() >= before.len()
        &&& self.outputs().take(before.len() as int) == before
        &&& forall|k: int| before.len() <= k < self.outputs().len() ==> is_warning(#[trigger] self.outputs()[k])
    }

    /// Emits a warning for each base unit that more than one offset-bearing display unit of
    /// `lhs` and `rhs` is built on (the same unit on both sides counts twice), naming those
    /// display units; base units in order of first mention.
    pub fn warn_confusing_unit_conversions(&mut self, lhs: &Quantity, rhs: &Quantity)
        requires
            old(self).wf(),
            lhs.wf(),
            rhs.wf(),
        ensures
            final(self).wf(),
            final(self).variables() == old(self).variables(),
            final(self).stack_view() == old(self).stack_view(),
            final(self).units() == old(self).units(),
            final(self).only_messages_since(old(self).outputs()),
            final(self).outputs().len() > old(self).outputs().len() <==> has_conflict(
                offset_pairs(lhs.prefs() + rhs.prefs()),
            ),
            ({
                let w = warned_units(offset_pairs(lhs.prefs() + rhs.prefs()), offset_pairs(lhs.prefs() + rhs.prefs()).len() as int);
                &&& final(self).outputs().len() == old(self).outputs().len() + w.len()
                &&& forall|k: int| 0 <= k < w.len() ==> warns_about(#[trigger] final(self).outputs()[old(self).outputs().len() + k], w[k])
            }),
    {
        let ghost before = self.outputs@;
        let mut pairs: Vec<(String, String)> = Vec::new();
        collect_offset_pairs(&lhs.use_derived_unit, &mut pairs);
        collect_offset_pairs(&rhs.use_derived_unit, &mut pairs);
        let ghost ps = pair_views(pairs@);
        proof {
            lemma_offset_pairs_concat(lhs.prefs(), rhs.prefs());
            assert(ps == offset_pairs(lhs.prefs() + rhs.prefs()));
        }
        assert(self.outputs@.take(before.len() as int) =~= before);
        let mut i: usize = 0;
        while i < pairs.len()
            invariant
                self.wf(),
                self.stack_view() == old(self).stack_view(),
                self.units() == old(self).units(),
                self.variables() == old(self).variables(),
                before == old(self).outputs(),
                self.only_messages_since(before),
                ps == pair_views(pairs@),
                i <= pairs@.len(),
                self.outputs@.len() > before.len() <==> exists|a: int, b: int|
                    0 <= a < b < ps.len() && a < i && #[trigger] ps[a].0 == #[trigger] ps[b].0,
                self.outputs@.len() == before.len() + warned_units(ps, i as int).len(),
                forall|k: int| 0 <= k < warned_units(ps, i as int).len() ==> warns_about(#[trigger] self.outputs@[before.len() + k], warned_units(ps, i as int)[k]),
            decreases pairs.len() - i,
        {
            let mut first = true;
            let mut j: usize = 0;
            while j < i
                invariant
                    j <= i < pairs@.len(),
                    ps == pair_views(pairs@),
                    first <==> forall|k: int| 0 <= k < j ==> ps[k].0 != ps[i as int].0,
                decreases i - j,
            {
                assert(ps[j as int].0 == pairs@[j as int].0@);
                assert(ps[i as int].0 == pairs@[i as int].0@);
                if pairs[j].0 == pairs[i].0 {
                    first = false;
                }
                j += 1;
            }
            let mut names = pairs[i].1.clone();
            let mut later = false;
            let mut k: usize = i + 1;
            while k < pairs.len()
                invariant
                    i < k <= pairs@.len(),
                    ps == pair_views(pairs@),
                    later <==> exists|x: int| i < x < k && ps[x].0 == ps[i as int].0,
                decreases pairs.len() - k,
            {
                assert(ps[k as int].0 == pairs@[k as int].0@);
                assert(ps[i as int].0 == pairs@[i as int].0@);
                if pairs[k].0 == pairs[i].0 {
                    names = join3(names.as_str(), ", ", pairs[k].1.as_str());
                    later = true;
                }
                k += 1;
            }
            let ghost grew_before = self.outputs@.len() > before.len();
            if first && later {
                let head = join3("Warning: ", pairs[i].0.as_str(),
                    " it is used in multiple quantities with an offset. This may lead to unexpected results. Affected derived units: [");
                let text = join3(head.as_str(), names.as_str(), "]");
                proof {
                    reveal_strlit("Warning: ");
                    assert("Warning: "@.len() == 9);
                    assert(text@.subrange(0, 9) =~= "Warning: "@);
                    assert(is_warning(Output::Message(text)));
                    assert(pairs@[i as int].0@ == ps[i as int].0);
                    let ul = ps[i as int].0.len();
                    assert(text@.subrange(0, 9 + ul as int) =~= "Warning: "@ + ps[i as int].0);
                    assert(warns_about(Output::Message(text), ps[i as int].0));
                }
                let ghost prev = self.outputs@;
                self.emit(Output::Message(text));
                proof {
                    assert(self.outputs@ == prev.push(Output::Message(text)));
                    assert(self.outputs@.take(before.len() as int) =~= prev.take(before.len() as int));
                }
            }
            proof {
                let w0 = warned_units(ps, i as int);
                let w1 = warned_units(ps, i + 1);
                let f = forall|k: int| 0 <= k < i ==> ps[k].0 != ps[i as int].0;
                let l = exists|x: int| i < x < ps.len() && ps[x].0 == ps[i as int].0;
                assert(f == first);
                assert(l == later);
                assert forall|k: int| 0 <= k < w1.len() implies warns_about(#[trigger] self.outputs@[before.len() + k], w1[k]) by {
                    if k < w0.len() {
                        assert(w1[k] == w0[k]);
                    }
                }
            }
            proof {
                let now = exists|a: int, b: int| 0 <= a < b < ps.len() && a < i + 1 && #[trigger] ps[a].0 == #[trigger] ps[b].0;
                if later {
                    let x = choose|x: int| i < x < pairs@.len() && ps[x].0 == ps[i as int].0;
                    assert(ps[i as int].0 == ps[x].0);
                    if !first {
                        let f = choose|f: int| 0 <= f < i && ps[f].0 == ps[i as int].0;
                        assert(ps[f].0 == ps[x].0);
                    }
                }
                if now && !grew_before {
                    let (a, b) = choose|a: int, b: int| 0 <= a < b < ps.len() && a < i + 1 && #[trigger] ps[a].0 == #[trigger] ps[b].0;
                    assert(a == i);
                    if !first {
                        let f = choose|f: int| 0 <= f < i && ps[f].0 == ps[i as int].0;
                        assert(ps[f].0 == ps[b].0);
                    }
                    assert(i < b);
                    assert(later);
                }
            }
            i += 1;
        }
    }

    /// Pops `rhs` then `lhs`, warns about offset display units, and pushes their sum.
    pub fn op_add(&mut self) -> (r: InterpreterResult<()>)
        requires
            old(self).wf(),
        ensures
            Self::add_done(*old(self), *final(self), r),
    {
        self.arith(0)
    }

    /// Pops `rhs` then `lhs`, warns about offset display units, and pushes their difference.
    pub fn op_sub(&mut self) -> (r: InterpreterResult<()>)
        requires
            old(self).wf(),
        ensures
            Self::sub_done(*old(self), *final(self), r),
    {
        self.arith(1)
    }

    /// Pops `rhs` then `lhs`, warns about offset display units, and pushes their product.
    pub fn op_mul(&mut self) -> (r: InterpreterResult<()>)
        requires
            old(self).wf(),
        ensures
            Self::mul_done(*old(self), *final(self), r),
    {
        self.arith(2)
    }

    /// Pops `rhs` then `lhs`, warns about offset display units, and pushes their quotient.
    pub fn op_div(&mut self) -> (r: InterpreterResult<()>)
        requires
            old(self).wf(),
        ensures
            Self::div_done(*old(self), *final(self), r),
    {
        self.arith(3)
    }

    /// The four arithmetic operators: 0 adds, 1 subtracts, 2 multiplies, 3 divides.
    fn arith(&mut self, op: u8) -> (r: InterpreterResult<()>)
        requires
            old(self).wf(),
            op < 4,
        ensures
            final(self).wf(),
            final(self).variables() == old(self).variables(),
            final(self).units() == old(self).units(),
            final(self).only_messages_since(old(self).outputs()),
            old(self).stack_view().len() >= 2 ==> (final(self).outputs().len() > old(self).outputs().len() <==> has_conflict(
                offset_pairs(
                    old(self).stack_view()[old(self).stack_view().len() - 2].2 + old(self).stack_view().last().2,
                ),
            )),
            ({
                let s = old(self).stack_view();
                let n = s.len() as int;
                let t = final(self).stack_view();
                let fits_mul = sum_fits(s[n - 2].1, s[n - 1].1, 1) && prefs_fit_views(s[n - 2].2, s[n - 1].2, 1);
                let fits_div = sum_fits(s[n - 2].1, s[n - 1].1, -1) && no_min(s[n - 1].1) && prefs_fit_views(s[n - 2].2, s[n - 1].2, -1);
                &&& n < 2 ==> r == Err::<(), InterpreterError>(InterpreterError::StackUnderflow)
                &&& op < 2 && n >= 2 && !same_entries(s[n - 2].1, s[n - 1].1) ==> r == Err::<(), InterpreterError>(
                    InterpreterError::QuantityError(QuantityError::IncompatibleUnits),
                ) && t == s.subrange(0, n - 2)
                &&& op < 2 && n >= 2 && same_entries(s[n - 2].1, s[n - 1].1) ==> r is Ok && t.len() == n - 1 && t.drop_last()
                    == s.subrange(0, n - 2)
                    && frac_eq(t.last().0, if op == 0 { frac_add(s[n - 2].0, s[n - 1].0) } else { frac_sub(s[n - 2].0, s[n - 1].0) })
                    && t.last().1 == s[n - 2].1 && t.last().2 == merge_prefs(s[n - 2].2, s[n - 1].2)
                &&& op == 2 && n >= 2 && !fits_mul ==> r == Err::<(), InterpreterError>(InterpreterError::ExponentOverflow)
                    && t == s.subrange(0, n - 2)
                &&& op == 2 && n >= 2 && fits_mul ==> r is Ok && t.len() == n - 1 && t.drop_last() == s.subrange(0, n - 2)
                    && frac_eq(t.last().0, frac_mul(s[n - 2].0, s[n - 1].0))
                    && (forall|u: Seq<char>| #[trigger] exp_of(t.last().1, u) == exp_of(s[n - 2].1, u) + exp_of(s[n - 1].1, u))
                    && t.last().2.len() == s[n - 2].2.len() * s[n - 1].2.len()
                    && (forall|a: int, b: int| 0 <= a < s[n - 2].2.len() && 0 <= b < s[n - 1].2.len() ==> composed_mul(
                        #[trigger] s[n - 2].2[a], #[trigger] s[n - 1].2[b], t.last().2[a * s[n - 1].2.len() + b]))
                &&& op == 3 && n >= 2 && zero_divisor(s[n - 1]) ==> r == Err::<(), InterpreterError>(InterpreterError::DivisionByZero)
                    && t == s.subrange(0, n - 2)
                &&& op == 3 && n >= 2 && !zero_divisor(s[n - 1]) && !fits_div ==> r == Err::<(), InterpreterError>(InterpreterError::ExponentOverflow)
                    && t == s.subrange(0, n - 2)
                &&& op == 3 && n >= 2 && !zero_divisor(s[n - 1]) && fits_div ==> r is Ok && t.len() == n - 1 && t.drop_last() == s.subrange(0, n - 2)
                    && frac_eq(t.last().0, frac_div(s[n - 2].0, s[n - 1].0))
                    && (forall|u: Seq<char>| #[trigger] exp_of(t.last().1, u) == exp_of(s[n - 2].1, u) - exp_of(s[n - 1].1, u))
                    && t.last().2.len() == s[n - 2].2.len() * s[n - 1].2.len()
                    && (forall|a: int, b: int| 0 <= a < s[n - 2].2.len() && 0 <= b < s[n - 1].2.len() ==> composed_div(
                        #[trigger] s[n - 2].2[a], #[trigger] s[n - 1].2[b], t.last().2[a * s[n - 1].2.len() + b]))
            }),
    {
        let ghost s = self.stack_view();
        let ghost n = s.len() as int;
        let ghost out0 = self.outputs@;
        let rhs = match self.pop_quantity() {
            Ok(q) => q,
            Err(e) => {
                proof {
                    assert(self.outputs@.take(out0.len() as int) =~= out0);
                }
                return Err(e);
            },
        };
        let lhs = match self.pop_quantity() {
            Ok(q) => q,
            Err(e) => {
                proof {
                    assert(self.outputs@.take(out0.len() as int) =~= out0);
                }
                return Err(e);
            },
        };
        proof {
            assert(s.drop_last().drop_last() =~= s.subrange(0, n - 2));
            assert(s.drop_last().last() == s[n - 2]);
            assert(lhs.prefs() == s[n - 2].2);
            assert(rhs.prefs() == s.last().2);
            lemma_prefs_fit_views(&lhs, &rhs, 1);
            lemma_prefs_fit_views(&lhs, &rhs, -1);
        }
        self.warn_confusing_unit_conversions(&lhs, &rhs);
        if op < 2 {
            let res = if op == 0 {
                lhs.add(rhs)
            } else {
                lhs.sub(rhs)
            };
            match res {
                Ok(q) => {
                    self.push_quantity(q);
                    proof {
                        assert(self.stack_view().drop_last() == s.subrange(0, n - 2));
                    }
                    Ok(())
                },
                Err(e) => Err(InterpreterError::QuantityError(e)),
            }
        } else if op == 2 {
            if !lhs.can_combine(&rhs, false) {
                return Err(InterpreterError::ExponentOverflow);
            }
            let q = lhs.mul(rhs);
            self.push_quantity(q);
            proof {
                assert(self.stack_view().drop_last() == s.subrange(0, n - 2));
            }
            Ok(())
        } else {
            if rhs.number.is_zero() || !rhs.scales_nonzero() {
                return Err(InterpreterError::DivisionByZero);
            }
            if !lhs.can_combine(&rhs, true) {
                return Err(InterpreterError::ExponentOverflow);
            }
            let q = lhs.div(rhs);
            self.push_quantity(q);
            proof {
                assert(self.stack_view().drop_last() == s.subrange(0, n - 2));
            }
            Ok(())
        }
    }

    /// Attaches a unit to the top of the stack. `1` makes it unitless. A base unit gives a
    /// unitless quantity its dimension, or shows a quantity of that dimension in base units.
    /// A derived unit becomes the display unit of a quantity of its dimension, or converts a
    /// unitless quantity `v` into `v * scale + offset` of its dimension. The quantity is
    /// popped in any case.
    pub fn op_unit(&mut self, unit: &str) -> (r: InterpreterResult<()>)
        requires
            old(self).wf(),
        ensures
            final(self).wf(),
            final(self).variables() == old(self).variables(),
            final(self).units() == old(self).units(),
            final(self).outputs() == old(self).outputs(),
            ({
                let s = old(self).stack_view();
                let n = s.len() as int;
                let t = final(self).stack_view();
                let q = s.last();
                let rest = s.drop_last();
                let sys = old(self).units();
                let empty = Seq::<(Seq<char>, i32)>::empty();
                &&& n == 0 ==> r == Err::<(), InterpreterError>(InterpreterError::StackUnderflow) && t == s
                &&& n > 0 && unit@ == seq!['1'] ==> r is Ok && t == rest.push((q.0, empty, Seq::<DerivedView>::empty()))
                &&& n > 0 && unit@ != seq!['1'] && !sys.has_base(unit@) && !sys.has_derived(unit@) ==> undefined_unit(r, unit@)
                    && t == rest
                &&& n > 0 && unit@ != seq!['1'] && sys.has_base(unit@) ==> ({
                    let d = base_dimension(unit@);
                    &&& q.1.len() == 0 ==> r is Ok && t == rest.push((q.0, d, q.2))
                    &&& q.1.len() != 0 && same_entries(q.1, d) ==> r is Ok && t == rest.push((q.0, q.1, Seq::<DerivedView>::empty()))
                    &&& q.1.len() != 0 && !same_entries(q.1, d) ==> incompatible(r, q.1) && t == rest
                })
                &&& n > 0 && unit@ != seq!['1'] && !sys.has_base(unit@) && sys.has_derived(unit@) ==> ({
                    let d = sys.derived_named(unit@)@;
                    &&& same_entries(q.1, d.3) ==> r is Ok && t == rest.push((q.0, q.1, prefer(q.2, d)))
                    &&& !same_entries(q.1, d.3) && q.1.len() == 0 ==> r is Ok && t.len() == n && t.drop_last() == rest
                        && frac_eq(t.last().0, frac_add(frac_mul(q.0, d.2), d.1)) && t.last().1 == d.3
                        && t.last().2 == prefer(q.2, d)
                    &&& !same_entries(q.1, d.3) && q.1.len() != 0 ==> incompatible(r, q.1) && t == rest
                })
            }),
    {
        let ghost s = self.stack_view();
        let q = self.pop_quantity()?;
        if unit.unicode_len() == 1 && unit.get_char(0) == '1' {
            proof {
                assert(unit@ =~= seq!['1']);
            }
            let c = Quantity::new(q.number, UnitCombo::new());
            assert(views(c.use_derived_unit@) =~= Seq::<DerivedView>::empty());
            self.push_quantity(c);
            return Ok(());
        }
        proof {
            if unit@ == seq!['1'] {
                assert(unit@.len() == 1 && unit@[0] == '1');
            }
        }
        let found = match self.unit_system.lookup_unit(unit) {
            None => None,
            Some(Unit::Base(b)) => Some((UnitCombo(vec![UnitExponent { unit: b.duplicate(), exponent: 1 }]), None)),
            Some(Unit::Derived(d)) => Some((d.exponents.duplicate(), Some(d.duplicate()))),
        };
        match found {
            None => Err(InterpreterError::UndefinedUnit(unit.to_owned())),
            Some((dim, None)) => {
                proof {
                    assert(dim@ =~= base_dimension(unit@));
                }
                if q.unit.is_unitless() {
                    let c = Quantity { number: q.number, unit: dim, use_derived_unit: q.use_derived_unit };
                    self.push_quantity(c);
                    Ok(())
                } else if q.unit == dim {
                    let c = Quantity::new(q.number, q.unit);
                    assert(views(c.use_derived_unit@) =~= Seq::<DerivedView>::empty());
                    self.push_quantity(c);
                    Ok(())
                } else {
                    Err(InterpreterError::IncompatibleUnits(q.unit))
                }
            },
            Some((dim, Some(d))) => {
                if q.unit == dim {
                    let mut prefs = retain_others(&q.use_derived_unit, &dim);
                    let ghost before = prefs@;
                    prefs.push(d);
                    proof {
                        assert(views(prefs@) =~= views(before).push(d@));
                    }
                    let c = Quantity { number: q.number, unit: q.unit, use_derived_unit: prefs };
                    self.push_quantity(c);
                    Ok(())
                } else if q.unit.is_unitless() {
                    let m = rat_mul(&q.number, &d.scale);
                    let number = rat_add(&m, &d.offset);
                    proof {
                        crate::rational::lemma_frac_congr(m@, frac_mul(q.number@, d.scale@), d.offset@, d.offset@);
                        assert(m@.1 * d.offset@.1 != 0) by (nonlinear_arith)
                            requires m@.1 > 0, d.offset@.1 > 0;
                        crate::rational::lemma_frac_eq_trans(number@, frac_add(m@, d.offset@), frac_add(frac_mul(q.number@, d.scale@), d.offset@));
                    }
                    let mut prefs = retain_others(&q.use_derived_unit, &dim);
                    let ghost before = prefs@;
                    prefs.push(d);
                    proof {
                        assert(views(prefs@) =~= views(before).push(d@));
                    }
                    let c = Quantity { number, unit: dim, use_derived_unit: prefs };
                    self.push_quantity(c);
                    Ok(())
                } else {
                    Err(InterpreterError::IncompatibleUnits(q.unit))
                }
            },
        }
    }

    /// Whether variable `name` is bound.
    pub closed spec fn has_variable(&self, name: Seq<char>) -> bool {
        exists|i: int| 0 <= i < self.variables@.len() && (#[trigger] self.variables@[i]).0@ == name
    }

    /// The value bound to variable `name`.
    pub closed spec fn variable(&self, name: Seq<char>) -> QuantityView {
        self.variables@[choose|i: int| 0 <= i < self.variables@.len() && (#[trigger] self.variables@[i]).0@ == name].1@
    }

    fn find_variable(&self, name: &String) -> (r: Option<usize>)
        requires
            self.wf(),
        ensures
            r is Some ==> r->0 < self.variables@.len() && self.variables@[r->0 as int].0@ == name@
                && self.variable(name@) == self.variables@[r->0 as int].1@,
            r is None <==> !self.has_variable(name@),
    {
        let mut i: usize = 0;
        while i < self.variables.len()
            invariant
                self.wf(),
                i <= self.variables@.len(),
                forall|k: int| 0 <= k < i ==> (#[trigger] self.variables@[k]).0@ != name@,
            decreases self.variables.len() - i,
        {
            if self.variables[i].0 == *name {
                proof {
                    let j = choose|j: int| 0 <= j < self.variables@.len() && (#[trigger] self.variables@[j]).0@ == name@;
                    if j != i {
                        if j < i {
                            assert(self.variables@[j].0@ != self.variables@[i as int].0@);
                        } else {
                            assert(self.variables@[i as int].0@ != self.variables@[j].0@);
                        }
                    }
                }
                return Some(i);
            }
            i += 1;
        }
        None
    }

    /// Defines a base unit named by the trimmed argument, unless that symbol is taken.
    pub fn op_macro_baseunit(&mut self, arg: &str) -> (r: InterpreterResult<()>)
        requires
            old(self).wf(),
        ensures
            Self::macro_baseunit_done(*old(self), *final(self), r, arg@),
    {
        let symbol = trim(arg);
        if self.unit_system.lookup_unit(symbol.as_str()).is_some() {
            return Err(InterpreterError::AlreadyDefined(symbol));
        }
        self.unit_system.push_base_unit(BaseUnit { symbol });
        proof {
            let n = old(self).units().bases().len() as int;
            let sym = trimmed(arg@);
            let b = self.units().bases()[n];
            assert(b@ == sym);
            let j = choose|j: int| 0 <= j < self.units().bases().len() && (#[trigger] self.units().bases()[j])@ == sym;
            if j != n {
                assert(self.units().bases()[j] == old(self).units().bases()[j]);
            }
        }
        Ok(())
    }

    /// Pops a scale, then an offset, and defines a derived unit named by the trimmed argument:
    /// the given scale and offset over the offset's dimension.
    pub fn op_macro_derivedunit(&mut self, arg: &str) -> (r: InterpreterResult<()>)
        requires
            old(self).wf(),
        ensures
            Self::macro_derivedunit_done(*old(self), *final(self), r, arg@),
    {
        let ghost s = self.stack_view();
        let symbol = trim(arg);
        let scale = self.pop_quantity()?;
        let offset = self.pop_quantity()?;
        proof {
            let n = s.len() as int;
            assert(s.drop_last().drop_last() =~= s.subrange(0, n - 2));
            assert(s.drop_last().last() == s[n - 2]);
        }
        if self.unit_system.lookup_unit(symbol.as_str()).is_some() {
            return Err(InterpreterError::AlreadyDefined(symbol));
        }
        let d = DerivedUnit { symbol, scale: scale.number, offset: offset.number, exponents: offset.unit };
        self.unit_system.push_derived_unit(d);
        Ok(())
    }

    /// Pops the top of the stack into variable `arg` (trimmed), replacing any earlier value.
    pub fn op_store(&mut self, arg: &str) -> (r: InterpreterResult<()>)
        requires
            old(self).wf(),
        ensures
            Self::store_done(*old(self), *final(self), r, arg@),
    {
        let symbol = trim(arg);
        let ghost old_self = *self;
        let q = self.pop_quantity()?;
        let ghost v = q@;
        let ghost before = self.variables@;
        match self.find_variable(&symbol) {
            Some(i) => {
                let mut slot = (symbol, q);
                self.variables.set_and_swap(i, &mut slot);
                proof {
                    assert(self.variables@ == before.update(i as int, self.variables@[i as int]));
                    assert forall|a: int, b: int| 0 <= a < b < self.variables@.len() implies (#[trigger] self.variables@[a]).0@ != (#[trigger] self.variables@[b]).0@ by {
                        assert(before[a].0@ != before[b].0@);
                    }
                    assert(self.variables@[i as int].0@ == trimmed(arg@));
                    let j = choose|j: int| 0 <= j < self.variables@.len() && (#[trigger] self.variables@[j]).0@ == trimmed(arg@);
                    if j != i {
                        assert(self.variables@[j] == before[j]);
                        if j < i {
                            assert(before[j].0@ != before[i as int].0@);
                        } else {
                            assert(before[i as int].0@ != before[j].0@);
                        }
                    }
                }
            },
            None => {
                self.variables.push((symbol, q));
                proof {
                    let n = before.len() as int;
                    assert(self.variables@[n].0@ == trimmed(arg@));
                    assert forall|a: int, b: int| 0 <= a < b < self.variables@.len() implies (#[trigger] self.variables@[a]).0@ != (#[trigger] self.variables@[b]).0@ by {
                        if b < n {
                            assert(before[a].0@ != before[b].0@);
                        } else {
                            assert(self.variables@[a] == before[a]);
                        }
                    }
                    let j = choose|j: int| 0 <= j < self.variables@.len() && (#[trigger] self.variables@[j]).0@ == trimmed(arg@);
                    if j != n {
                        assert(self.variables@[j] == before[j]);
                    }
                }
            },
        }
        proof {
            assert forall|o: Seq<char>| o != trimmed(arg@) implies (#[trigger] self.has_variable(o) <==> old_self.has_variable(o))
                && (old_self.has_variable(o) ==> self.variable(o) == old_self.variable(o)) by {
                if old_self.has_variable(o) {
                    let a = choose|a: int| 0 <= a < old_self.variables@.len() && (#[trigger] old_self.variables@[a]).0@ == o;
                    assert(self.variables@[a] == old_self.variables@[a]);
                    self.lemma_variable_at(a);
                    old_self.lemma_variable_at(a);
                }
                if self.has_variable(o) {
                    let b = choose|b: int| 0 <= b < self.variables@.len() && (#[trigger] self.variables@[b]).0@ == o;
                    if b < old_self.variables@.len() {
                        assert(self.variables@[b] == old_self.variables@[b]);
                    }
                }
            }
        }
        proof {
            assert forall|o: Seq<char>| o != trimmed(arg@) && old_self.has_variable(o) implies #[trigger] self.variable(o)
                == old_self.variable(o) by {
                let a = choose|a: int| 0 <= a < old_self.variables@.len() && (#[trigger] old_self.variables@[a]).0@ == o;
                assert(self.variables@[a] == old_self.variables@[a]);
                self.lemma_variable_at(a);
                old_self.lemma_variable_at(a);
            }
        }
        Ok(())
    }

    proof fn lemma_variable_at(&self, i: int)
        requires
            self.wf(),
            0 <= i < self.variables@.len(),
        ensures
            self.has_variable(self.variables@[i].0@),
            self.variable(self.variables@[i].0@) == self.variables@[i].1@,
    {
        let name = self.variables@[i].0@;
        assert(self.has_variable(name));
        let j = choose|j: int| 0 <= j < self.variables@.len() && (#[trigger] self.variables@[j]).0@ == name;
        if j != i {
            if j < i {
                assert(self.variables@[j].0@ != self.variables@[i].0@);
            } else {
                assert(self.variables@[i].0@ != self.variables@[j].0@);
            }
        }
    }

    /// Pushes a copy of the value of variable `arg` (trimmed).
    pub fn op_recall(&mut self, arg: &str) -> (r: InterpreterResult<()>)
        requires
            old(self).wf(),
        ensures
            Self::recall_done(*old(self), *final(self), r, arg@),
    {
        let symbol = trim(arg);
        match self.find_variable(&symbol) {
            Some(i) => {
                let q = self.variables[i].1.duplicate();
                self.push_quantity(q);
                Ok(())
            },
            None => Err(InterpreterError::UndefinedVariable(symbol)),
        }
    }

    /// The unit solver. Pops a target whose displayed value (rounded towards zero) is the
    /// number `N` of known quantities below it, pops those, and finds integer powers of the
    /// knowns whose product has the target's dimension; pushes that product with the target's
    /// display units.
    pub fn op_s(&mut self) -> (r: InterpreterResult<()>)
        requires
            old(self).wf(),
        ensures
            Self::s_done(*old(self), *final(self), r),
    {
        let ghost s = self.stack_view();
        let target = self.pop_quantity()?;
        assert(s.len() > 0);
        let ghost q = target@;
        let seen = target.number_in_derived_unit();
        proof {
            assert(q == s.last());
            assert(target.prefs() == q.2);
            lemma_first_from(q.2, q.1, 0);
            let i = first_from(q.2, q.1, 0);
            if i < q.2.len() {
                let dd = target.use_derived_unit@[i];
                assert(dd.wf());
                assert(q.2[i] == dd@);
                assert(shown(q).1 == (q.0.1 * dd.offset@.1) * dd.scale@.0);
                if dd.scale@.0 == 0 {
                    assert(shown(q).1 == 0) by (nonlinear_arith)
                        requires shown(q).1 == (q.0.1 * dd.offset@.1) * dd.scale@.0, dd.scale@.0 == 0;
                } else {
                    assert(shown(q).1 != 0) by (nonlinear_arith)
                        requires shown(q).1 == (q.0.1 * dd.offset@.1) * dd.scale@.0, q.0.1 > 0, dd.offset@.1 > 0, dd.scale@.0 != 0;
                }
            }
        }
        let seen_value = match seen {
            Some(v) => v,
            None => {
                return Err(InterpreterError::StackUnderflow);
            },
        };
        let count_r = rat_trunc(&seen_value);
        let ghost cnt = count_r.num();
        proof {
            let i = first_from(q.2, q.1, 0);
            if i < q.2.len() {
                assert(frac_eq(seen_value@, shown(q)));
            } else {
                assert(seen_value@ == shown(q));
            }
            assert(shown(q).1 != 0);
            assert(seen_value@.1 > 0);
            assert(div_toward_zero(seen_value@.0, seen_value@.1) == cnt);
            assert(shows_count(q, cnt));
            assert forall|c: int| #[trigger] shows_count(q, c) implies c == cnt by {
                let v = choose|v: (int, int)| v.1 > 0 && frac_eq(v, shown(q)) && #[trigger] div_toward_zero(v.0, v.1) == c;
                crate::rational::lemma_frac_eq_trans(v, shown(q), seen_value@);
                lemma_trunc_value(v, seen_value@);
            }
        }
        if count_r.is_negative() {
            return Err(InterpreterError::StackUnderflow);
        }
        let len = self.stack.len();
        proof {
            assert(self.stack_view().len() == len);
            assert(s.len() == len + 1);
        }
        let count: usize = match count_r.to_u64() {
            Some(v) => {
                if v > len as u64 {
                    return Err(InterpreterError::StackUnderflow);
                }
                v as usize
            },
            None => {
                return Err(InterpreterError::StackUnderflow);
            },
        };
        assert(cnt == count);
        let ghost rest = self.stack@;
        let knowns = self.stack.split_off(len - count);
        proof {
            assert(stack_views(self.stack@) =~= stack_views(rest).subrange(0, len - count));
            assert forall|i: int| 0 <= i < knowns@.len() implies (#[trigger] knowns@[i]).wf() by {
                assert(knowns@[i] == rest[len - count + i]);
            }
            lemma_unique_prefix_fits(target.unit@);
        }
        let ghost kept = self.stack_view();
        assert(stack_views(rest) == s.drop_last());
        assert(stack_views(rest).len() == rest.len());
        assert(s.len() == len + 1);
        let dst = target.unit.reduce();
        let ghost kv = stack_views(knowns@);
        proof {
            assert(kv =~= s.subrange(s.len() - 1 - count, s.len() - 1)) by {
                assert forall|x: int| 0 <= x < kv.len() implies kv[x] == s.subrange(s.len() - 1 - count, s.len() - 1)[x] by {
                    assert(knowns@[x] == rest[len - count + x]);
                    assert(stack_views(rest)[len - count + x] == s.drop_last()[len - count + x]);
                }
            }
        }
        let mut involved: Vec<BaseUnit> = Vec::new();
        let mut i: usize = 0;
        #[verifier::loop_isolation(false)]
        while i < knowns.len()
            invariant
                i <= knowns@.len(),
                kv == stack_views(knowns@),
                forall|x: int| 0 <= x < involved@.len() ==> named(kv, (#[trigger] involved@[x])@),
                forall|a: int, b: int| 0 <= a < i && 0 <= b < kv[a].1.len() ==> lists_base(involved@, #[trigger] kv[a].1[b].0),
            decreases knowns.len() - i,
        {
            let q = &knowns[i];
            assert(kv[i as int].1 == q.unit@);
            let mut j: usize = 0;
            #[verifier::loop_isolation(false)]
            while j < q.unit.0.len()
                invariant
                    j <= q.unit@.len(),
                    forall|x: int| 0 <= x < involved@.len() ==> named(kv, (#[trigger] involved@[x])@),
                    forall|a: int, b: int| 0 <= a < i && 0 <= b < kv[a].1.len() ==> lists_base(involved@, #[trigger] kv[a].1[b].0),
                    forall|b: int| 0 <= b < j ==> lists_base(involved@, #[trigger] kv[i as int].1[b].0),
                decreases q.unit.0.len() - j,
            {
                let u = &q.unit.0[j].unit;
                assert(kv[i as int].1[j as int].0 == u@);
                if !contains_base(&involved, u) {
                    let ghost before = involved@;
                    let nu = u.duplicate();
                    involved.push(nu);
                    proof {
                        assert(involved@ == before.push(nu));
                        assert forall|x: int| 0 <= x < involved@.len() implies named(kv, (#[trigger] involved@[x])@) by {
                            if x < before.len() {
                                assert(involved@[x] == before[x]);
                            } else {
                                assert(kv[i as int].1[j as int].0 == involved@[x]@);
                            }
                        }
                        assert forall|ss: Seq<char>| lists_base(before, ss) implies lists_base(involved@, ss) by {
                            let k = choose|k: int| 0 <= k < before.len() && before[k]@ == ss;
                            assert(involved@[k] == before[k]);
                        }
                        assert(involved@[before.len() as int]@ == u@);
                        assert(lists_base(involved@, u@));
                    }
                }
                j += 1;
            }
            i += 1;
        }
        let mut k: usize = 0;
        #[verifier::loop_isolation(false)]
        while k < dst.0.len()
            invariant
                k <= dst@.len(),
                forall|y: int| 0 <= y < k ==> lists_base(involved@, #[trigger] dst@[y].0),
            decreases dst.0.len() - k,
        {
            if !contains_base(&involved, &dst.0[k].unit) {
                proof {
                    let u = dst@[k as int].0;
                    lemma_exp_of_unique(dst@, u);
                    assert(exp_of(dst@, u) != 0);
                    assert(exp_of(q.1, u) != 0);
                    assert forall|a: int| 0 <= a < kv.len() implies exp_of(kv[a].1, u) == 0 by {
                        assert forall|b: int| 0 <= b < kv[a].1.len() implies kv[a].1[b].0 != u by {
                            if kv[a].1[b].0 == u {
                                assert(lists_base(involved@, kv[a].1[b].0));
                            }
                        }
                        lemma_exp_of_zero(kv[a].1, u);
                    }
                    assert(missing_unit(kv, q.1));
                }
                return Err(InterpreterError::IncompatibleUnits(dst));
            }
            k += 1;
        }
        proof {
            if missing_unit(kv, q.1) {
                let u = choose|u: Seq<char>| #[trigger] exp_of(q.1, u) != 0 && forall|a: int| 0 <= a < kv.len() ==> exp_of(kv[a].1, u) == 0;
                assert(exp_of(dst@, u) != 0);
                if forall|y: int| 0 <= y < dst@.len() ==> dst@[y].0 != u {
                    lemma_exp_of_zero(dst@, u);
                }
                let y = choose|y: int| 0 <= y < dst@.len() && dst@[y].0 == u;
                assert(lists_base(involved@, dst@[y].0));
                let x = choose|x: int| 0 <= x < involved@.len() && involved@[x]@ == u;
                assert(named(kv, involved@[x]@));
                let (a, b) = choose|a: int, b: int| 0 <= a < kv.len() && 0 <= b < kv[a].1.len() && #[trigger] kv[a].1[b].0 == u;
                assert(knowns@[a].wf());
                assert(kv[a].1 == knowns@[a].unit@);
                lemma_exp_of_unique(kv[a].1, u);
                assert(exp_of(kv[a].1, u) != 0);
            }
            assert(!missing_unit(kv, q.1));
        }
        let mut left: Vec<Vec<Rational>> = Vec::new();
        let mut right: Vec<Rational> = Vec::new();
        let mut a: usize = 0;
        #[verifier::loop_isolation(false)]
        while a < involved.len()
            invariant
                is_reduced(dst@),
                forall|x: int| 0 <= x < knowns@.len() ==> (#[trigger] knowns@[x]).wf(),
                a <= involved@.len(),
                left@.len() == a,
                right@.len() == a,
                forall|x: int| 0 <= x < a ==> (#[trigger] left@[x])@.len() == knowns@.len(),
                forall|x: int, y: int| 0 <= x < a && 0 <= y < left@[x]@.len() ==> (#[trigger] left@[x]@[y]).wf(),
                forall|x: int| 0 <= x < a ==> (#[trigger] right@[x]).wf(),
            decreases involved.len() - a,
        {
            let u = &involved[a];
            let mut row: Vec<Rational> = Vec::new();
            let mut b: usize = 0;
            #[verifier::loop_isolation(false)]
            while b < knowns.len()
                invariant
                    forall|x: int| 0 <= x < knowns@.len() ==> (#[trigger] knowns@[x]).wf(),
                    b <= knowns@.len(),
                    row@.len() == b,
                    forall|y: int| 0 <= y < b ==> (#[trigger] row@[y]).wf(),
                decreases knowns.len() - b,
            {
                assert(knowns@[b as int].wf());
                let e = knowns[b].unit.exponent_of(u);
                row.push(Rational::from_i64(e as i64));
                b += 1;
            }
            left.push(row);
            right.push(Rational::from_i64(dst.exponent_of(u) as i64));
            a += 1;
        }
        proof {
            if left@.len() > 0 {
                assert forall|x: int| 0 <= x < left@.len() implies (#[trigger] left@[x])@.len() == left@[0]@.len() by {}
            }
        }
        let mut lin = LinearSystem::new_equation_system(left, right);
        proof {
            if lin.n_spec() > 0 {
                assert(lin.mat()[0].len() == knowns@.len() + 1);
                assert(lin.mat()[0].len() == lin.rows()[0].len());
            }
        }
        let soln = match lin.solve() {
            Some(v) => v,
            None => {
                return Err(InterpreterError::NoSolution("failed to solve unit conversion".to_owned()));
            },
        };
        if lin.is_overdetermined() {
            return Err(InterpreterError::NoSolution("Linear system is overdetermined".to_owned()));
        }
        if lin.is_underdetermined() {
            return Err(InterpreterError::NoSolution("Linear system is underdetermined".to_owned()));
        }
        proof {
            lemma_pivot_values_len(lin.mat(), lin.m_spec() as int, lin.n_spec() as int);
        }
        if soln.len() != count {
            return Err(InterpreterError::NoSolution("failed to solve unit conversion".to_owned()));
        }
        let mut coefs: Vec<i32> = Vec::new();
        let mut c: usize = 0;
        #[verifier::loop_isolation(false)]
        while c < count
            invariant
                c <= count,
                count == soln@.len(),
                coefs@.len() == c,
                forall|x: int| 0 <= x < soln@.len() ==> (#[trigger] soln@[x]).wf(),
            decreases count - c,
        {
            let coef = &soln[c];
            let whole = rat_trunc(coef);
            if !rat_eq(&whole, coef) {
                return Err(InterpreterError::NoSolution("failed to solve unit conversion".to_owned()));
            }
            let k = match to_i32(&whole) {
                Some(k) => k,
                None => {
                    return Err(InterpreterError::NoSolution("failed to solve unit conversion".to_owned()));
                },
            };
            coefs.push(k);
            c += 1;
        }
        let ghost ks = kv;
        if !balanced(&knowns, &coefs, &dst) {
            return Err(InterpreterError::NoSolution("failed to solve unit conversion".to_owned()));
        }
        let mut number = Rational::one();
        let mut c: usize = 0;
        #[verifier::loop_isolation(false)]
        while c < count
            invariant
                c <= count,
                count == coefs@.len(),
                count == knowns@.len(),
                ks == stack_views(knowns@),
                number.wf(),
                forall|x: int| 0 <= x < knowns@.len() ==> (#[trigger] knowns@[x]).wf(),
                frac_eq(number@, powers(ks, coefs@, c as int)),
            decreases count - c,
        {
            let k = coefs[c];
            let base = &knowns[c].number;
            assert(knowns@[c as int].wf());
            if k < 0 && base.is_zero() {
                return Err(InterpreterError::DivisionByZero);
            }
            let p = rat_pow(base, k);
            let next = rat_mul(&number, &p);
            proof {
                let prev = powers(ks, coefs@, c as int);
                assert(ks[c as int].0 == base@);
                crate::rational::lemma_frac_congr(number@, prev, p@, frac_pow(base@, k as int));
                assert(number@.1 * p@.1 != 0) by (nonlinear_arith)
                    requires number@.1 > 0, p@.1 > 0;
                crate::rational::lemma_frac_eq_trans(next@, frac_mul(number@, p@), frac_mul(prev, frac_pow(base@, k as int)));
            }
            number = next;
            c += 1;
        }
        let result = Quantity { number, unit: dst, use_derived_unit: target.use_derived_unit };
        self.push_quantity(result);
        proof {
            let t = self.stack_view();
            assert(t.drop_last() == kept);
            assert(kept == stack_views(rest).subrange(0, len - count));
            assert(rest.len() == len);
            assert(s.len() == len + 1);
            assert(kept =~= s.subrange(0, t.len() - 1));
            let n = s.len() - t.len();
            assert(n == count);
            assert(ks == s.subrange(t.len() - 1, s.len() - 1));
            assert forall|u: Seq<char>| #[trigger] weighted(ks, coefs@, u, n) == exp_of(s.last().1, u) by {
                assert(exp_of(dst@, u) == exp_of(target.unit@, u));
            }
            assert(solved_by(s, t, coefs@));
        }
        Ok(())
    }

    /// The stack, variables, registry and outputs of `self` are those of `other`.
    pub closed spec fn same_state(&self, other: Self) -> bool {
        &&& self.stack_view() == other.stack_view()
        &&& self.variables() == other.variables()
        &&& self.units() == other.units()
        &&& self.outputs() == other.outputs()
    }

    /// What `op_number` promises: `a` before, `b` after, `r` its result.
    pub open spec fn number_done(a: Interpreter, b: Interpreter, r: InterpreterResult<()>, number: Rational) -> bool {
        &&& (b.wf())
        &&& (b.variables() == a.variables())
        &&& (r is Ok)
        &&& (b.stack_view() == a.stack_view().push(
                (number@, Seq::<(Seq<char>, i32)>::empty(), Seq::<DerivedView>::empty()),
            ))
        &&& (b.outputs() == a.outputs())
        &&& (b.units() == a.units())
    }

    /// What `op_unit` promises: `a` before, `b` after, `r` its result.
    pub open spec fn unit_done(a: Interpreter, b: Interpreter, r: InterpreterResult<()>, unit: Seq<char>) -> bool {
        &&& (b.wf())
        &&& (b.variables() == a.variables())
        &&& (b.units() == a.units())
        &&& (b.outputs() == a.outputs())
        &&& (({
                let s = a.stack_view();
                let n = s.len() as int;
                let t = b.stack_view();
                let q = s.last();
                let rest = s.drop_last();
                let sys = a.units();
                let empty = Seq::<(Seq<char>, i32)>::empty();
                &&& n == 0 ==> r == Err::<(), InterpreterError>(InterpreterError::StackUnderflow) && t == s
                &&& n > 0 && unit == seq!['1'] ==> r is Ok && t == rest.push((q.0, empty, Seq::<DerivedView>::empty()))
                &&& n > 0 && unit != seq!['1'] && !sys.has_base(unit) && !sys.has_derived(unit) ==> undefined_unit(r, unit)
                    && t == rest
                &&& n > 0 && unit != seq!['1'] && sys.has_base(unit) ==> ({
                    let d = base_dimension(unit);
                    &&& q.1.len() == 0 ==> r is Ok && t == rest.push((q.0, d, q.2))
                    &&& q.1.len() != 0 && same_entries(q.1, d) ==> r is Ok && t == rest.push((q.0, q.1, Seq::<DerivedView>::empty()))
                    &&& q.1.len() != 0 && !same_entries(q.1, d) ==> incompatible(r, q.1) && t == rest
                })
                &&& n > 0 && unit != seq!['1'] && !sys.has_base(unit) && sys.has_derived(unit) ==> ({
                    let d = sys.derived_named(unit)@;
                    &&& same_entries(q.1, d.3) ==> r is Ok && t == rest.push((q.0, q.1, prefer(q.2, d)))
                    &&& !same_entries(q.1, d.3) && q.1.len() == 0 ==> r is Ok && t.len() == n && t.drop_last() == rest
                        && frac_eq(t.last().0, frac_add(frac_mul(q.0, d.2), d.1)) && t.last().1 == d.3
                        && t.last().2 == prefer(q.2, d)
                    &&& !same_entries(q.1, d.3) && q.1.len() != 0 ==> incompatible(r, q.1) && t == rest
                })
            }))
    }

    /// What `op_add` promises: `a` before, `b` after, `r` its result.
    pub open spec fn add_done(a: Interpreter, b: Interpreter, r: InterpreterResult<()>) -> bool {
        &&& (b.wf())
        &&& (b.variables() == a.variables())
        &&& (b.units() == a.units())
        &&& (b.only_messages_since(a.outputs()))
        &&& (a.stack_view().len() >= 2 ==> (b.outputs().len() > a.outputs().len() <==> has_conflict(
                offset_pairs(
                    a.stack_view()[a.stack_view().len() - 2].2 + a.stack_view().last().2,
                ),
            )))
        &&& (({
                let s = a.stack_view();
                let n = s.len() as int;
                let t = b.stack_view();
                &&& n < 2 ==> r == Err::<(), InterpreterError>(InterpreterError::StackUnderflow)
                &&& n >= 2 && !same_entries(s[n - 2].1, s[n - 1].1) ==> r == Err::<(), InterpreterError>(
                    InterpreterError::QuantityError(QuantityError::IncompatibleUnits),
                ) && t == s.subrange(0, n - 2)
                &&& n >= 2 && same_entries(s[n - 2].1, s[n - 1].1) ==> r is Ok && t.len() == n - 1 && t.drop_last()
                    == s.subrange(0, n - 2) && frac_eq(t.last().0, frac_add(s[n - 2].0, s[n - 1].0))
                    && t.last().1 == s[n - 2].1 && t.last().2 == merge_prefs(s[n - 2].2, s[n - 1].2)
            }))
    }

    /// What `op_sub` promises: `a` before, `b` after, `r` its result.
    pub open spec fn sub_done(a: Interpreter, b: Interpreter, r: InterpreterResult<()>) -> bool {
        &&& (b.wf())
        &&& (b.variables() == a.variables())
        &&& (b.units() == a.units())
        &&& (b.only_messages_since(a.outputs()))
        &&& (a.stack_view().len() >= 2 ==> (b.outputs().len() > a.outputs().len() <==> has_conflict(
                offset_pairs(
                    a.stack_view()[a.stack_view().len() - 2].2 + a.stack_view().last().2,
                ),
            )))
        &&& (({
                let s = a.stack_view();
                let n = s.len() as int;
                let t = b.stack_view();
                &&& n < 2 ==> r == Err::<(), InterpreterError>(InterpreterError::StackUnderflow)
                &&& n >= 2 && !same_entries(s[n - 2].1, s[n - 1].1) ==> r == Err::<(), InterpreterError>(
                    InterpreterError::QuantityError(QuantityError::IncompatibleUnits),
                ) && t == s.subrange(0, n - 2)
                &&& n >= 2 && same_entries(s[n - 2].1, s[n - 1].1) ==> r is Ok && t.len() == n - 1 && t.drop_last()
                    == s.subrange(0, n - 2) && frac_eq(t.last().0, frac_sub(s[n - 2].0, s[n - 1].0))
                    && t.last().1 == s[n - 2].1 && t.last().2 == merge_prefs(s[n - 2].2, s[n - 1].2)
            }))
    }

    /// What `op_mul` promises: `a` before, `b` after, `r` its result.
    pub open spec fn mul_done(a: Interpreter, b: Interpreter, r: InterpreterResult<()>) -> bool {
        &&& (b.wf())
        &&& (b.variables() == a.variables())
        &&& (b.units() == a.units())
        &&& (b.only_messages_since(a.outputs()))
        &&& (a.stack_view().len() >= 2 ==> (b.outputs().len() > a.outputs().len() <==> has_conflict(
                offset_pairs(
                    a.stack_view()[a.stack_view().len() - 2].2 + a.stack_view().last().2,
                ),
            )))
        &&& (({
                let s = a.stack_view();
                let n = s.len() as int;
                let t = b.stack_view();
                let fits = sum_fits(s[n - 2].1, s[n - 1].1, 1) && prefs_fit_views(s[n - 2].2, s[n - 1].2, 1);
                &&& n < 2 ==> r == Err::<(), InterpreterError>(InterpreterError::StackUnderflow)
                &&& n >= 2 && !fits ==> r == Err::<(), InterpreterError>(InterpreterError::ExponentOverflow)
                    && t == s.subrange(0, n - 2)
                &&& n >= 2 && fits ==> r is Ok && t.len() == n - 1 && t.drop_last() == s.subrange(0, n - 2)
                    && frac_eq(t.last().0, frac_mul(s[n - 2].0, s[n - 1].0))
                    && (forall|u: Seq<char>| #[trigger] exp_of(t.last().1, u) == exp_of(s[n - 2].1, u) + exp_of(s[n - 1].1, u))
                    && t.last().2.len() == s[n - 2].2.len() * s[n - 1].2.len()
                    && (forall|a: int, b: int| 0 <= a < s[n - 2].2.len() && 0 <= b < s[n - 1].2.len() ==> composed_mul(
                        #[trigger] s[n - 2].2[a], #[trigger] s[n - 1].2[b], t.last().2[a * s[n - 1].2.len() + b]))
            }))
    }

    /// What `op_div` promises: `a` before, `b` after, `r` its result.
    pub open spec fn div_done(a: Interpreter, b: Interpreter, r: InterpreterResult<()>) -> bool {
        &&& (b.wf())
        &&& (b.variables() == a.variables())
        &&& (b.units() == a.units())
        &&& (b.only_messages_since(a.outputs()))
        &&& (a.stack_view().len() >= 2 ==> (b.outputs().len() > a.outputs().len() <==> has_conflict(
                offset_pairs(
                    a.stack_view()[a.stack_view().len() - 2].2 + a.stack_view().last().2,
                ),
            )))
        &&& (({
                let s = a.stack_view();
                let n = s.len() as int;
                let t = b.stack_view();
                let fits = sum_fits(s[n - 2].1, s[n - 1].1, -1) && no_min(s[n - 1].1) && prefs_fit_views(s[n - 2].2, s[n - 1].2, -1);
                &&& n < 2 ==> r == Err::<(), InterpreterError>(InterpreterError::StackUnderflow)
                &&& n >= 2 && zero_divisor(s[n - 1]) ==> r == Err::<(), InterpreterError>(InterpreterError::DivisionByZero)
                    && t == s.subrange(0, n - 2)
                &&& n >= 2 && !zero_divisor(s[n - 1]) && !fits ==> r == Err::<(), InterpreterError>(InterpreterError::ExponentOverflow)
                    && t == s.subrange(0, n - 2)
                &&& n >= 2 && !zero_divisor(s[n - 1]) && fits ==> r is Ok && t.len() == n - 1 && t.drop_last() == s.subrange(0, n - 2)
                    && frac_eq(t.last().0, frac_div(s[n - 2].0, s[n - 1].0))
                    && (forall|u: Seq<char>| #[trigger] exp_of(t.last().1, u) == exp_of(s[n - 2].1, u) - exp_of(s[n - 1].1, u))
                    && t.last().2.len() == s[n - 2].2.len() * s[n - 1].2.len()
                    && (forall|a: int, b: int| 0 <= a < s[n - 2].2.len() && 0 <= b < s[n - 1].2.len() ==> composed_div(
                        #[trigger] s[n - 2].2[a], #[trigger] s[n - 1].2[b], t.last().2[a * s[n - 1].2.len() + b]))
            }))
    }

    /// What `op_p` promises: `a` before, `b` after, `r` its result.
    pub open spec fn p_done(a: Interpreter, b: Interpreter, r: InterpreterResult<()>) -> bool {
        &&& (b.wf())
        &&& (b.variables() == a.variables())
        &&& (b.stack_view() == a.stack_view())
        &&& (b.units() == a.units())
        &&& (a.stack_view().len() == 0 <==> r is Err)
        &&& (r is Err ==> r->Err_0 == InterpreterError::StackUnderflow && b.outputs() == a.outputs())
        &&& (r is Ok ==> b.outputs().len() == a.outputs().len() + 1
                && b.outputs().drop_last() == a.outputs()
                && printed(b.outputs().last()) == Some(a.stack_view().last()))
    }

    /// What `op_n` promises: `a` before, `b` after, `r` its result.
    pub open spec fn n_done(a: Interpreter, b: Interpreter, r: InterpreterResult<()>) -> bool {
        &&& (b.wf())
        &&& (b.variables() == a.variables())
        &&& (b.units() == a.units())
        &&& (a.stack_view().len() == 0 <==> r is Err)
        &&& (r is Err ==> r->Err_0 == InterpreterError::StackUnderflow && b.outputs() == a.outputs()
                && b.stack_view() == a.stack_view())
        &&& (r is Ok ==> b.stack_view() == a.stack_view().drop_last()
                && b.outputs().drop_last() == a.outputs()
                && b.outputs().len() == a.outputs().len() + 1
                && printed(b.outputs().last()) == Some(a.stack_view().last()))
    }

    /// What `op_f` promises: `a` before, `b` after, `r` its result.
    pub open spec fn f_done(a: Interpreter, b: Interpreter, r: InterpreterResult<()>) -> bool {
        &&& (b.wf())
        &&& (b.variables() == a.variables())
        &&& (r is Ok)
        &&& (b.stack_view() == a.stack_view())
        &&& (b.units() == a.units())
        &&& (b.outputs().drop_last() == a.outputs())
        &&& (b.outputs().len() == a.outputs().len() + 1)
        &&& (listed(b.outputs().last()) == Some(a.stack_view()))
    }

    /// What `op_c` promises: `a` before, `b` after, `r` its result.
    pub open spec fn c_done(a: Interpreter, b: Interpreter, r: InterpreterResult<()>) -> bool {
        &&& (b.wf())
        &&& (b.variables() == a.variables())
        &&& (r is Ok)
        &&& (b.stack_view().len() == 0)
        &&& (b.outputs() == a.outputs())
        &&& (b.units() == a.units())
    }

    /// What `op_d` promises: `a` before, `b` after, `r` its result.
    pub open spec fn d_done(a: Interpreter, b: Interpreter, r: InterpreterResult<()>) -> bool {
        &&& (b.wf())
        &&& (b.variables() == a.variables())
        &&& (b.outputs() == a.outputs())
        &&& (b.units() == a.units())
        &&& (a.stack_view().len() == 0 <==> r is Err)
        &&& (r is Err ==> r->Err_0 == InterpreterError::StackUnderflow && b.stack_view() == a.stack_view())
        &&& (r is Ok ==> b.stack_view() == a.stack_view().push(a.stack_view().last()))
    }

    /// What `op_r` promises: `a` before, `b` after, `r` its result.
    pub open spec fn r_done(a: Interpreter, b: Interpreter, r: InterpreterResult<()>) -> bool {
        &&& (b.wf())
        &&& (b.variables() == a.variables())
        &&& (b.outputs() == a.outputs())
        &&& (b.units() == a.units())
        &&& (a.stack_view().len() < 2 <==> r is Err)
        &&& (r is Err ==> r->Err_0 == InterpreterError::StackUnderflow)
        &&& (r is Ok ==> ({
                let s = a.stack_view();
                let n = s.len() as int;
                b.stack_view() == s.subrange(0, n - 2).push(s[n - 1]).push(s[n - 2])
            }))
    }

    /// What `op_s` promises: `a` before, `b` after, `r` its result.
    pub open spec fn s_done(a: Interpreter, b: Interpreter, r: InterpreterResult<()>) -> bool {
        &&& (b.wf())
        &&& (b.variables() == a.variables())
        &&& (b.units() == a.units())
        &&& (b.outputs() == a.outputs())
        &&& (a.stack_view().len() == 0 ==> r == Err::<(), InterpreterError>(InterpreterError::StackUnderflow))
        &&& (a.stack_view().len() > 0 ==> ({
                let s = a.stack_view();
                let d = s.len() - 1;
                &&& (forall|c: int| #[trigger] shows_count(s.last(), c) ==> c < 0 || c > d) ==> r == Err::<(), InterpreterError>(
                    InterpreterError::StackUnderflow)
                &&& forall|c: int| #[trigger] shows_count(s.last(), c) && 0 <= c <= d ==> ({
                    let ks = s.subrange(d - c, d);
                    &&& missing_unit(ks, s.last().1) ==> incompatible_as(r, s.last().1)
                    &&& !missing_unit(ks, s.last().1) ==> (r is Ok || r == Err::<(), InterpreterError>(
                        InterpreterError::DivisionByZero) || no_solution(r, "failed to solve unit conversion"@)
                        || no_solution(r, "Linear system is overdetermined"@) || no_solution(
                        r,
                        "Linear system is underdetermined"@,
                    ))
                    &&& r is Ok ==> b.stack_view().len() == s.len() - c
                })
            }))
        &&& (r is Ok ==> ({
                let s = a.stack_view();
                let t = b.stack_view();
                &&& 0 < t.len() <= s.len()
                &&& t.drop_last() == s.subrange(0, t.len() - 1)
                &&& same_dimension(t.last().1, s.last().1)
                &&& t.last().2 == s.last().2
                &&& exists|cs: Seq<i32>| #[trigger] solved_by(s, t, cs)
            }))
    }

    /// What `op_upper_u` promises: `a` before, `b` after, `r` its result.
    pub open spec fn upper_u_done(a: Interpreter, b: Interpreter, r: InterpreterResult<()>) -> bool {
        &&& (b.wf())
        &&& (b.variables() == a.variables())
        &&& (r is Ok)
        &&& (b.stack_view() == a.stack_view())
        &&& (b.units() == a.units())
        &&& (b.outputs().drop_last() == a.outputs())
        &&& (b.outputs().len() == a.outputs().len() + 1)
        &&& (message_text(b.outputs().last()) is Some)
        &&& (exists|bs: Seq<BaseUnit>, ds: Seq<DerivedUnit>, ts: Seq<Seq<char>>|
                #[trigger] a.units().sorted_bases(bs) && #[trigger] a.units().sorted_deriveds(ds) && ts.len() == ds.len()
                && (forall|k: int| 0 <= k < ds.len() ==> dims_text(ds[k].exponents@, #[trigger] ts[k]))
                && message_text(b.outputs().last())->0 == summary_head(bs) + #[trigger] derived_lines(ds, ts, ds.len() as int))
    }

    /// What `op_store` promises: `a` before, `b` after, `r` its result.
    pub open spec fn store_done(a: Interpreter, b: Interpreter, r: InterpreterResult<()>, arg: Seq<char>) -> bool {
        &&& (b.wf())
        &&& (b.outputs() == a.outputs())
        &&& (b.units() == a.units())
        &&& (a.stack_view().len() == 0 ==> r == Err::<(), InterpreterError>(InterpreterError::StackUnderflow)
                && b.stack_view() == a.stack_view())
        &&& (a.stack_view().len() > 0 ==> r is Ok && b.stack_view() == a.stack_view().drop_last()
                && b.has_variable(trimmed(arg))
                && b.variable(trimmed(arg)) == a.stack_view().last())
        &&& (forall|o: Seq<char>| o != trimmed(arg) ==> (#[trigger] b.has_variable(o) <==> a.has_variable(o)))
        &&& (forall|o: Seq<char>| o != trimmed(arg) && a.has_variable(o) ==> #[trigger] b.variable(o)
                == a.variable(o))
    }

    /// What `op_recall` promises: `a` before, `b` after, `r` its result.
    pub open spec fn recall_done(a: Interpreter, b: Interpreter, r: InterpreterResult<()>, arg: Seq<char>) -> bool {
        &&& (b.wf())
        &&& (b.variables() == a.variables())
        &&& (b.outputs() == a.outputs())
        &&& (b.units() == a.units())
        &&& (!a.has_variable(trimmed(arg)) ==> undefined_variable(r, trimmed(arg))
                && b.stack_view() == a.stack_view())
        &&& (a.has_variable(trimmed(arg)) ==> r is Ok
                && b.stack_view() == a.stack_view().push(a.variable(trimmed(arg))))
        &&& (forall|o: Seq<char>| #[trigger] b.has_variable(o) == a.has_variable(o))
        &&& (forall|o: Seq<char>| a.has_variable(o) ==> #[trigger] b.variable(o) == a.variable(o))
    }

    /// What `op_macro_baseunit` promises: `a` before, `b` after, `r` its result.
    pub open spec fn macro_baseunit_done(a: Interpreter, b: Interpreter, r: InterpreterResult<()>, arg: Seq<char>) -> bool {
        &&& (b.wf())
        &&& (b.variables() == a.variables())
        &&& (b.stack_view() == a.stack_view())
        &&& (b.outputs() == a.outputs())
        &&& (({
                let sym = trimmed(arg);
                let sys = a.units();
                &&& sys.has_base(sym) || sys.has_derived(sym) ==> already_defined(r, sym) && b.units() == sys
                &&& !(sys.has_base(sym) || sys.has_derived(sym)) ==> r is Ok && b.units().has_base(sym)
                    && b.units().deriveds() == sys.deriveds()
                    && b.units().bases() == sys.bases().push(b.units().base_named(sym))
            }))
    }

    /// What `op_macro_derivedunit` promises: `a` before, `b` after, `r` its result.
    pub open spec fn macro_derivedunit_done(a: Interpreter, b: Interpreter, r: InterpreterResult<()>, arg: Seq<char>) -> bool {
        &&& (b.wf())
        &&& (b.variables() == a.variables())
        &&& (b.outputs() == a.outputs())
        &&& (({
                let sym = trimmed(arg);
                let sys = a.units();
                let s = a.stack_view();
                let n = s.len() as int;
                &&& n < 2 ==> r == Err::<(), InterpreterError>(InterpreterError::StackUnderflow) && b.units() == sys
                &&& n >= 2 ==> b.stack_view() == s.subrange(0, n - 2)
                &&& n >= 2 && (sys.has_base(sym) || sys.has_derived(sym)) ==> already_defined(r, sym)
                    && b.units() == sys
                &&& n >= 2 && !(sys.has_base(sym) || sys.has_derived(sym)) ==> r is Ok
                    && b.units().has_derived(sym)
                    && b.units().derived_named(sym)@ == (sym, s[n - 2].0, s[n - 1].0, s[n - 2].1)
                    && b.units().bases() == sys.bases()
                    && b.units().deriveds() == sys.deriveds().push(b.units().derived_named(sym))
                    && forall|o: Seq<char>| o != sym ==> (b.units().has_derived(o) <==> sys.has_derived(o))
            }))
    }

    /// Reads every token and carries it out, stopping at the end of the input or at the
    /// first error; what earlier tokens did stays done.
    pub fn process_tokens(&mut self, tokenizer: &mut Tokenizer) -> (r: InterpreterResult<()>)
        requires
            old(self).wf(),
            old(tokenizer).wf(),
        ensures
            final(self).wf(),
            final(tokenizer).wf(),
            final(tokenizer).text() == old(tokenizer).text(),
            r is Ok ==> final(tokenizer).position() == final(tokenizer).text().len(),
            runs(old(tokenizer).text(), old(tokenizer).position(), old(tokenizer).seen(), *old(self), *final(self), r),
            ({
                let t = old(tokenizer).text();
                let i0 = run_end(t, old(tokenizer).position(), CharClass::Space);
                &&& i0 == t.len() ==> r is Ok && final(self).same_state(*old(self))
                &&& i0 < t.len() && !starts_token(t[i0]) ==> first_error(r, t[i0]) && final(self).same_state(*old(self))
            }),
    {
        let ghost t0 = tokenizer.text();
        let ghost p0 = tokenizer.position();
        let ghost s0 = tokenizer.seen();
        let ghost a0 = *self;
        proof {
            tokenizer.lemma_position_bound();
        }
        loop
            invariant
                self.wf(),
                tokenizer.wf(),
                tokenizer.text() == old(tokenizer).text(),
                t0 == old(tokenizer).text(),
                p0 == old(tokenizer).position(),
                s0 == old(tokenizer).seen(),
                a0 == *old(self),
                tokenizer.position() >= old(tokenizer).position(),
                tokenizer.position() == old(tokenizer).position() ==> self.same_state(*old(self)),
                tokenizer.position() > old(tokenizer).position() ==> ({
                    let t = old(tokenizer).text();
                    let i0 = run_end(t, old(tokenizer).position(), CharClass::Space);
                    i0 < t.len() && starts_token(t[i0])
                }),
                forall|bb: Interpreter, rr: InterpreterResult<()>|
                    #[trigger] runs(t0, tokenizer.position(), tokenizer.seen(), *self, bb, rr) ==> runs(t0, p0, s0, a0, bb, rr),
            decreases tokenizer.text().len() - tokenizer.position(),
        {
            proof {
                tokenizer.lemma_position_bound();
            }
            let ghost before = tokenizer.position();
            let ghost seen_before = tokenizer.seen();
            let ghost cur = *self;
            let ghost text_len = tokenizer.text().len();
            assert(0 <= before <= text_len);
            proof {
                crate::tokenizer::lemma_run_end_bound(t0, before, CharClass::Space);
            }
            let ghost i0 = run_end(t0, before, CharClass::Space);
            let res = tokenizer.parse_next_token();
            let token = match res {
                Ok(Some(t)) => {
                    assert(crate::tokenizer::produced(res) is Some);
                    assert(tokenizer.position() > before);
                    proof {
                        let tt = old(tokenizer).text();
                        let i0o = run_end(tt, old(tokenizer).position(), CharClass::Space);
                        if before == old(tokenizer).position() {
                            assert(i0o < tt.len());
                            assert(starts_token(tt[i0o]));
                        }
                    }
                    proof {
                        tokenizer.lemma_position_bound();
                    }
                    t
                },
                Ok(None) => {
                    proof {
                        assert(runs(t0, before, seen_before, cur, cur, Ok(())));
                    }
                    return Ok(());
                },
                Err(e) => {
                    let cursor = tokenizer.get_cursor();
                    let r = Err(InterpreterError::TokenizerError(cursor, e));
                    proof {
                        assert(i0 < t0.len());
                        crate::tokenizer::lemma_token_end_bound(t0, i0);
                        crate::tokenizer::lemma_run_end_bound(t0, i0 + 1, CharClass::UnitName);
                        crate::tokenizer::lemma_run_end_bound(t0, i0 + 1, CharClass::MacroName);
                        let sn = if token_seen(t0, i0) > seen_before { token_seen(t0, i0) } else { seen_before };
                        assert(tokenizer.seen() == sn);
                        assert(cursor.line == line_at(t0, sn));
                        assert(cursor.column == column_at(t0, sn));
                        let c = t0[i0];
                        if ('0' <= c <= '9') || c == '_' {
                            let lit = t0.subrange(i0, run_end(t0, i0 + 1, CharClass::Number));
                            let st = lit_scan(lit_body(lit));
                            assert(st.err is Some);
                            assert(e == TokenizerError::InvalidCharacter(st.err->0));
                        } else if c == '(' {
                            let ee = run_end(t0, i0 + 1, CharClass::UnitName);
                            assert(ee < t0.len() && t0[ee] != ')');
                            assert(e == TokenizerError::InvalidCharacter(t0[ee]));
                        } else if c == '@' {
                            let ee = run_end(t0, i0 + 1, CharClass::MacroName);
                            assert(ee < t0.len() && t0[ee] != '(');
                            assert(e == TokenizerError::InvalidCharacter(t0[ee]));
                        } else {
                            assert(e == TokenizerError::InvalidCharacter(c));
                        }
                        assert(lex_failed(t0, sn, match e { TokenizerError::InvalidCharacter(x) => x }, cur, cur, r));
                        assert(token_done(t0, i0, seen_before, cur, cur, r));
                        assert(runs(t0, before, seen_before, cur, cur, r));
                    }
                    return r;
                },
            };
            let ghost pos2 = tokenizer.position();
            let ghost seen2 = tokenizer.seen();
            let r1: InterpreterResult<()> = match token {
                Token::Number(n) => {
                    let ghost nv = n;
                    let r = self.op_number(n);
                    proof {
                        assert(Interpreter::number_done(cur, *self, r, nv));
                    }
                    r
                },
                Token::Unit(u) => {
                    let r = self.op_unit(u.as_str());
                    proof {
                        assert(Interpreter::unit_done(cur, *self, r, u@));
                    }
                    r
                },
                Token::Add => self.op_add(),
                Token::Sub => self.op_sub(),
                Token::Mul => self.op_mul(),
                Token::Div => self.op_div(),
                Token::Operator(c) => {
                    if c == 'p' {
                        self.op_p()
                    } else if c == 'n' {
                        self.op_n()
                    } else if c == 'f' {
                        self.op_f()
                    } else if c == 'c' {
                        self.op_c()
                    } else if c == 'd' {
                        self.op_d()
                    } else if c == 'r' {
                        self.op_r()
                    } else if c == 's' {
                        self.op_s()
                    } else {
                        self.op_upper_u()
                    }
                },
                Token::VarRecall(name) => self.op_recall(name.as_str()),
                Token::VarStore(name) => self.op_store(name.as_str()),
                Token::MacroInvoke((name, args)) => {
                    if is_word(name.as_str(), "base") {
                        self.op_macro_baseunit(args.as_str())
                    } else if is_word(name.as_str(), "derived") {
                        self.op_macro_derivedunit(args.as_str())
                    } else {
                        Err(InterpreterError::UndefinedMacro(name))
                    }
                },
                Token::Comment(_) => Ok(()),
            };
            proof {
                assert(token_done(t0, i0, seen_before, cur, *self, r1));
            }
            if r1.is_err() {
                proof {
                    assert(runs(t0, before, seen_before, cur, *self, r1));
                }
                return r1;
            }
            proof {
                assert forall|bb: Interpreter, rr: InterpreterResult<()>|
                    #[trigger] runs(t0, pos2, seen2, *self, bb, rr) implies runs(t0, p0, s0, a0, bb, rr) by {
                    assert(token_done(t0, i0, seen_before, cur, *self, r1));
                    assert(runs(t0, before, seen_before, cur, bb, rr));
                }
            }
        }
    }

    /// Evaluates a command: its tokens in order, as `runs` says, over the characters of its bytes.
    pub fn run_str(&mut self, input: &str) -> (r: InterpreterResult<()>)
        requires
            old(self).wf(),
            input.spec_bytes().len() < usize::MAX,
        ensures
            final(self).wf(),
            runs(input.spec_bytes().map_values(|b: u8| chr(b)), 0, 0, *old(self), *final(self), r),
            ({
                let t = input.spec_bytes().map_values(|b: u8| chr(b));
                let i0 = run_end(t, 0, CharClass::Space);
                &&& i0 == t.len() ==> r is Ok && final(self).same_state(*old(self))
                &&& i0 < t.len() && !starts_token(t[i0]) ==> first_error(r, t[i0]) && final(self).same_state(*old(self))
            }),
    {
        let mut tokenizer = Tokenizer::new(input);
        self.process_tokens(&mut tokenizer)
    }

    /// Emits a summary of the registered units: base symbols, then each derived unit's
    /// symbol, scale, dimension and offset.
    pub fn op_upper_u(&mut self) -> (r: InterpreterResult<()>)
        requires
            old(self).wf(),
        ensures
            Self::upper_u_done(*old(self), *final(self), r),
    {
        let text = self.unit_system.summary();
        self.emit(Output::Message(text));
        assert(self.outputs().drop_last() =~= old(self).outputs());
        Ok(())
    }
}

/// `r` failed reading a token at character `ch`, the scan having looked at the first `seen`
/// characters of `t`, and `b` is `a`.
pub open spec fn lex_failed(t: Seq<char>, seen: int, ch: char, a: Interpreter, b: Interpreter, r: InterpreterResult<()>) -> bool {
    &&& b == a
    &&& match r {
        Err(InterpreterError::TokenizerError(cur, TokenizerError::InvalidCharacter(x))) => x == ch && cur.line
            == line_at(t, seen) && cur.column == column_at(t, seen),
        _ => false,
    }
}

/// `r` failed with `UndefinedMacro(name)`.
pub open spec fn undefined_macro(r: InterpreterResult<()>, name: Seq<char>) -> bool {
    match r {
        Err(InterpreterError::UndefinedMacro(s)) => s@ == name,
        _ => false,
    }
}

/// Carrying out the token of `t` that starts at `i0` takes `a` to `b` with result `r`, the
/// scan having looked at the first `seen` characters before it: the token as the tokenizer
/// reads it, then what its operation promises.
pub open spec fn token_done(t: Seq<char>, i0: int, seen: int, a: Interpreter, b: Interpreter, r: InterpreterResult<()>) -> bool {
    let c = t[i0];
    let seen2 = if token_seen(t, i0) > seen { token_seen(t, i0) } else { seen };
    if ('0' <= c <= '9') || c == '_' {
        let lit = t.subrange(i0, run_end(t, i0 + 1, CharClass::Number));
        let st = lit_scan(lit_body(lit));
        if st.err is Some {
            lex_failed(t, seen2, st.err->0, a, b, r)
        } else {
            exists|n: Rational| n.wf() && frac_eq(n@, lit_value(lit)) && #[trigger] Interpreter::number_done(a, b, r, n)
        }
    } else if c == '(' {
        let e = run_end(t, i0 + 1, CharClass::UnitName);
        if e < t.len() && t[e] != ')' {
            lex_failed(t, seen2, t[e], a, b, r)
        } else {
            Interpreter::unit_done(a, b, r, t.subrange(i0 + 1, e))
        }
    } else if c == '@' {
        let e = run_end(t, i0 + 1, CharClass::MacroName);
        let name = t.subrange(i0 + 1, e);
        let arg = if e == t.len() { Seq::<char>::empty() } else { t.subrange(e + 1, run_end(t, e + 1, CharClass::Argument)) };
        if e < t.len() && t[e] != '(' {
            lex_failed(t, seen2, t[e], a, b, r)
        } else if name == "base"@ {
            Interpreter::macro_baseunit_done(a, b, r, arg)
        } else if name == "derived"@ {
            Interpreter::macro_derivedunit_done(a, b, r, arg)
        } else {
            undefined_macro(r, name) && b == a
        }
    } else if c == '#' {
        r is Ok && b == a
    } else if c == '>' {
        Interpreter::store_done(a, b, r, t.subrange(i0 + 1, run_end(t, i0 + 1, CharClass::VarName)))
    } else if c == '<' {
        Interpreter::recall_done(a, b, r, t.subrange(i0 + 1, run_end(t, i0 + 1, CharClass::VarName)))
    } else if c == '+' {
        Interpreter::add_done(a, b, r)
    } else if c == '-' {
        Interpreter::sub_done(a, b, r)
    } else if c == '*' {
        Interpreter::mul_done(a, b, r)
    } else if c == '/' {
        Interpreter::div_done(a, b, r)
    } else if c == 'p' {
        Interpreter::p_done(a, b, r)
    } else if c == 'n' {
        Interpreter::n_done(a, b, r)
    } else if c == 'f' {
        Interpreter::f_done(a, b, r)
    } else if c == 'c' {
        Interpreter::c_done(a, b, r)
    } else if c == 'd' {
        Interpreter::d_done(a, b, r)
    } else if c == 'r' {
        Interpreter::r_done(a, b, r)
    } else if c == 's' {
        Interpreter::s_done(a, b, r)
    } else if c == 'U' {
        Interpreter::upper_u_done(a, b, r)
    } else {
        lex_failed(t, seen2, c, a, b, r)
    }
}

/// Evaluating `t` from position `pos`, the first `seen` characters looked at, takes `a` to `b`
/// with result `r`: token after token, each as `token_done` says, stopping at the end of the
/// input with `Ok` or at the first token that fails, with its error and what earlier tokens did
/// kept.
pub open spec fn runs(t: Seq<char>, pos: int, seen: int, a: Interpreter, b: Interpreter, r: InterpreterResult<()>) -> bool
    decreases t.len() - pos,
{
    let i0 = run_end(t, pos, CharClass::Space);
    if pos < 0 || pos > t.len() {
        false
    } else if i0 >= t.len() {
        r is Ok && b == a
    } else {
        let e = token_end(t, i0);
        let seen2 = if token_seen(t, i0) > seen { token_seen(t, i0) } else { seen };
        if e <= pos || e > t.len() {
            false
        } else {
            exists|mid: Interpreter, r1: InterpreterResult<()>|
                #[trigger] token_done(t, i0, seen, a, mid, r1) && (r1 is Err ==> b == mid && r == r1) && (r1 is Ok
                    ==> runs(t, e, seen2, mid, b, r))
        }
    }
}

/// A character that can begin a token.
pub open spec fn starts_token(c: char) -> bool {
    ('0' <= c <= '9') || c == '_' || c == '(' || c == '@' || c == '#' || c == '>' || c == '<' || c == '+'
        || c == '-' || c == '*' || c == '/' || c == 'p' || c == 'n' || c == 'f' || c == 'c' || c == 'd'
        || c == 'r' || c == 's' || c == 'U'
}

/// `r` failed reading a token, at character `c`.
pub open spec fn first_error(r: InterpreterResult<()>, c: char) -> bool {
    match r {
        Err(InterpreterError::TokenizerError(_, TokenizerError::InvalidCharacter(x))) => x == c,
        _ => false,
    }
}

/// Whether `s` is exactly `w`.
fn is_word(s: &str, w: &str) -> (r: bool)
    ensures
        r == (s@ == w@),
{
    let n = s.unicode_len();
    if n != w.unicode_len() {
        return false;
    }
    let mut i: usize = 0;
    while i < n
        invariant
            i <= n,
            n == s@.len(),
            n == w@.len(),
            forall|k: int| 0 <= k < i ==> s@[k] == w@[k],
        decreases n - i,
    {
        if s.get_char(i) != w.get_char(i) {
            return false;
        }
        i += 1;
    }
    assert(s@ =~= w@);
    true
}

/// `sum(cs[i] * exponent of u in ks[i])` for the first `n` quantities, exactly.
fn weighted_at(ks: &Vec<Quantity>, cs: &Vec<i32>, u: &BaseUnit) -> (r: i128)
    requires
        cs@.len() == ks@.len(),
        forall|x: int| 0 <= x < ks@.len() ==> (#[trigger] ks@[x]).wf(),
    ensures
        r == weighted(stack_views(ks@), cs@, u@, ks@.len() as int),
{
    let mut acc: i128 = 0;
    let mut i: usize = 0;
    while i < ks.len()
        invariant
            i <= ks@.len(),
            cs@.len() == ks@.len(),
            forall|x: int| 0 <= x < ks@.len() ==> (#[trigger] ks@[x]).wf(),
            acc == weighted(stack_views(ks@), cs@, u@, i as int),
            -(i as int) * 0x4000_0000_0000_0000 <= acc <= (i as int) * 0x4000_0000_0000_0000,
        decreases ks.len() - i,
    {
        assert(ks@[i as int].wf());
        let e = ks[i].unit.exponent_of(u);
        let c = cs[i];
        assert(stack_views(ks@)[i as int].1 == ks@[i as int].unit@);
        assert(-0x4000_0000_0000_0000 <= (c as int) * (e as int) <= 0x4000_0000_0000_0000) by (nonlinear_arith)
            requires
                i32::MIN <= c <= i32::MAX,
                i32::MIN <= e <= i32::MAX,
        ;
        let prod: i128 = (c as i128) * (e as i128);
        assert((i as int) * 0x4000_0000_0000_0000 < 0x1_0000_0000_0000_0000 * 0x4000_0000_0000_0000) by (nonlinear_arith)
            requires i < 0x1_0000_0000_0000_0000int;
        acc = acc + prod;
        i += 1;
    }
    acc
}

/// Whether, for every base unit of `dst` or of a known, the known dimensions raised to the
/// powers in `cs` multiply to the dimension of `dst`.
fn balanced(ks: &Vec<Quantity>, cs: &Vec<i32>, dst: &UnitCombo) -> (r: bool)
    requires
        cs@.len() == ks@.len(),
        forall|x: int| 0 <= x < ks@.len() ==> (#[trigger] ks@[x]).wf(),
        is_reduced(dst@),
    ensures
        r ==> forall|u: Seq<char>| #[trigger] weighted(stack_views(ks@), cs@, u, ks@.len() as int) == exp_of(dst@, u),
{
    let ghost n = ks@.len() as int;
    let ghost kv = stack_views(ks@);
    let mut j: usize = 0;
    while j < dst.0.len()
        invariant
            j <= dst.0@.len(),
            cs@.len() == ks@.len(),
            forall|x: int| 0 <= x < ks@.len() ==> (#[trigger] ks@[x]).wf(),
            is_reduced(dst@),
            kv == stack_views(ks@),
            n == ks@.len(),
            forall|y: int| 0 <= y < j ==> weighted(kv, cs@, #[trigger] dst@[y].0, n) == exp_of(dst@, dst@[y].0),
        decreases dst.0.len() - j,
    {
        let u = &dst.0[j].unit;
        let w = weighted_at(ks, cs, u);
        let e = dst.exponent_of(u);
        if w != e as i128 {
            return false;
        }
        j += 1;
    }
    let mut i: usize = 0;
    while i < ks.len()
        invariant
            i <= ks@.len(),
            cs@.len() == ks@.len(),
            forall|x: int| 0 <= x < ks@.len() ==> (#[trigger] ks@[x]).wf(),
            is_reduced(dst@),
            kv == stack_views(ks@),
            n == ks@.len(),
            forall|y: int| 0 <= y < dst@.len() ==> weighted(kv, cs@, #[trigger] dst@[y].0, n) == exp_of(dst@, dst@[y].0),
            forall|x: int, y: int| 0 <= x < i && 0 <= y < kv[x].1.len() ==> weighted(kv, cs@, #[trigger] kv[x].1[y].0, n) == exp_of(dst@, kv[x].1[y].0),
        decreases ks.len() - i,
    {
        let q = &ks[i];
        assert(ks@[i as int].wf());
        assert(kv[i as int].1 == q.unit@);
        let mut j: usize = 0;
        while j < q.unit.0.len()
            invariant
                i < ks@.len(),
                j <= q.unit@.len(),
                q == ks@[i as int],
                cs@.len() == ks@.len(),
                forall|x: int| 0 <= x < ks@.len() ==> (#[trigger] ks@[x]).wf(),
                is_reduced(dst@),
                kv == stack_views(ks@),
                kv[i as int].1 == q.unit@,
                n == ks@.len(),
                forall|y: int| 0 <= y < j ==> weighted(kv, cs@, #[trigger] q.unit@[y].0, n) == exp_of(dst@, q.unit@[y].0),
            decreases q.unit.0.len() - j,
        {
            let u = &q.unit.0[j].unit;
            let w = weighted_at(ks, cs, u);
            let e = dst.exponent_of(u);
            if w != e as i128 {
                return false;
            }
            j += 1;
        }
        i += 1;
    }
    proof {
        assert forall|u: Seq<char>| #[trigger] weighted(kv, cs@, u, n) == exp_of(dst@, u) by {
            lemma_exp_of_unique(dst@, u);
            if exists|y: int| 0 <= y < dst@.len() && dst@[y].0 == u {
                let y = choose|y: int| 0 <= y < dst@.len() && dst@[y].0 == u;
                assert(weighted(kv, cs@, dst@[y].0, n) == exp_of(dst@, dst@[y].0));
            } else if exists|x: int, y: int| 0 <= x < n && 0 <= y < kv[x].1.len() && kv[x].1[y].0 == u {
                let (x, y) = choose|x: int, y: int| 0 <= x < n && 0 <= y < kv[x].1.len() && kv[x].1[y].0 == u;
                assert(weighted(kv, cs@, kv[x].1[y].0, n) == exp_of(dst@, kv[x].1[y].0));
            } else {
                lemma_weighted_absent(kv, cs@, u, n);
            }
        }
    }
    true
}

/// A base unit that no quantity mentions contributes nothing.
proof fn lemma_weighted_absent(ks: Seq<QuantityView>, cs: Seq<i32>, u: Seq<char>, n: int)
    requires
        0 <= n <= ks.len(),
        forall|x: int, y: int| 0 <= x < n && 0 <= y < ks[x].1.len() ==> ks[x].1[y].0 != u,
    ensures
        weighted(ks, cs, u, n) == 0,
    decreases n,
{
    if n > 0 {
        lemma_weighted_absent(ks, cs, u, n - 1);
        lemma_exp_of_zero(ks[n - 1].1, u);
    }
}


/// Whether `list` holds a base unit of the symbol of `u`.
fn contains_base(list: &Vec<BaseUnit>, u: &BaseUnit) -> (r: bool)
    ensures
        r == exists|i: int| 0 <= i < list@.len() && (#[trigger] list@[i])@ == u@,
{
    let mut i: usize = 0;
    while i < list.len()
        invariant
            i <= list@.len(),
            forall|k: int| 0 <= k < i ==> (#[trigger] list@[k])@ != u@,
        decreases list.len() - i,
    {
        if list[i].symbol == u.symbol {
            return true;
        }
        i += 1;
    }
    false
}

/// In the display units that attaching derived unit `d` leaves, `d` is the one that displays
/// its own dimension: every earlier entry is for another dimension.
pub proof fn lemma_prefer_displays(prefs: Seq<DerivedView>, d: DerivedView)
    ensures
        prefer(prefs, d).last() == d,
        displays(d, d.3),
        forall|k: int| 0 <= k < prefer(prefs, d).len() - 1 ==> !displays(#[trigger] prefer(prefs, d)[k], d.3),
{
    prefs.filter_lemma(keeps(d.3));
    let f = prefs.filter(keeps(d.3));
    assert forall|k: int| 0 <= k < prefer(prefs, d).len() - 1 implies !displays(#[trigger] prefer(prefs, d)[k], d.3) by {
        assert(prefer(prefs, d)[k] == f[k]);
        assert(keeps(d.3)(f[k]));
    }
}

/// Attaching a derived unit of scale `S` (not zero) and offset `O` to a unitless value `v`
/// stores `v * S + O`; reading the stored value back through that unit gives `v` exactly.
/// `stored` is what `op_unit` may leave as the number, `shown` what `number_in_derived_unit`
/// may then return.
pub proof fn lemma_affine_round_trip(v: (int, int), d: DerivedView, stored: (int, int), shown: (int, int))
    requires
        v.1 > 0,
        d.1.1 > 0,
        d.2.1 > 0,
        d.2.0 != 0,
        stored.1 > 0,
        frac_eq(stored, frac_add(frac_mul(v, d.2), d.1)),
        frac_eq(shown, crate::quantity::value_in(stored, d)),
    ensures
        frac_eq(shown, v),
{
    let (a, b) = v;
    let (s0, s1) = d.2;
    let (o0, o1) = d.1;
    let (x0, x1) = stored;
    let (h0, h1) = shown;
    let p = a * s0;
    let q = b * s1;
    let dd = x0 * o1 - o0 * x1;
    // the stored value: x0 * (q * o1) == (p * o1 + o0 * q) * x1
    assert(x0 * (q * o1) == (p * o1 + o0 * q) * x1);
    assert(x0 * (q * o1) == (x0 * o1) * q) by (nonlinear_arith);
    assert((p * o1 + o0 * q) * x1 == (p * o1) * x1 + (o0 * q) * x1) by (nonlinear_arith);
    assert((o0 * q) * x1 == (o0 * x1) * q) by (nonlinear_arith);
    assert(dd * q == (x0 * o1) * q - (o0 * x1) * q) by (nonlinear_arith)
        requires
            dd == x0 * o1 - o0 * x1,
    ;
    assert(dd * q == (p * o1) * x1);
    // the shown value: h0 * ((x1 * o1) * s0) == (dd * s1) * h1
    let k = (x1 * o1) * s0;
    assert(h0 * k == (dd * s1) * h1);
    assert((h0 * k) * b == (h0 * b) * k) by (nonlinear_arith);
    assert(((dd * s1) * h1) * b == (dd * q) * h1) by (nonlinear_arith)
        requires
            q == b * s1,
    ;
    assert(((p * o1) * x1) * h1 == (a * h1) * k) by (nonlinear_arith)
        requires
            p == a * s0,
            k == (x1 * o1) * s0,
    ;
    assert((h0 * b) * k == (a * h1) * k);
    assert(k != 0) by (nonlinear_arith)
        requires
            k == (x1 * o1) * s0,
            x1 > 0,
            o1 > 0,
            s0 != 0,
    ;
    assert(h0 * b == a * h1) by (nonlinear_arith)
        requires
            (h0 * b) * k == (a * h1) * k,
            k != 0,
    ;
}

/// A registered base unit is what a lookup of its symbol finds, and its symbol is taken, so
/// a second `@base` of it fails with `AlreadyDefined`.
pub proof fn lemma_registered_base_found(sys: UnitSystem, i: int)
    requires
        sys.wf(),
        0 <= i < sys.bases().len(),
    ensures
        sys.has_base(sys.bases()[i]@),
        sys.base_named(sys.bases()[i]@) == sys.bases()[i],
{
    let s = sys.bases()[i]@;
    assert(sys.has_base(s));
    let j = choose|j: int| 0 <= j < sys.bases().len() && (#[trigger] sys.bases()[j])@ == s;
    if j != i {
        if j < i {
            assert(sys.bases()[j]@ != sys.bases()[i]@);
        } else {
            assert(sys.bases()[i]@ != sys.bases()[j]@);
        }
    }
}

} // verus!
