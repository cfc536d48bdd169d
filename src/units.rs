use vstd::prelude::*;
use crate::rational::{
    frac_add, frac_div, frac_eq, frac_mul, frac_sub, lemma_frac_congr, lemma_frac_eq_trans,
    lemma_frac_nonzero, ratio_text, rat_add, rat_div, rat_eq, rat_mul, rat_sub, rat_text, Rational,
};
use crate::text::{appears, concat, decimal, join3, power_text, seq_lt, sorted_positions};
use vstd::multiset::Multiset;

verus! {

broadcast use vstd::seq_lib::group_to_multiset_ensures;

/// An atomic dimension, identified by its symbol.
#[derive(Debug, Clone)]
pub struct BaseUnit {
    pub symbol: String,
}

impl View for BaseUnit {
    type V = Seq<char>;

    open spec fn view(&self) -> Seq<char> {
        self.symbol@
    }
}

impl BaseUnit {
    pub fn duplicate(&self) -> (r: BaseUnit)
        ensures
            r@ == self@,
    {
        BaseUnit { symbol: self.symbol.clone() }
    }
}

impl PartialEq for BaseUnit {
    fn eq(&self, other: &BaseUnit) -> (r: bool) {
        self.symbol == other.symbol
    }
}

impl vstd::std_specs::cmp::PartialEqSpecImpl for BaseUnit {
    open spec fn obeys_eq_spec() -> bool {
        true
    }

    open spec fn eq_spec(&self, other: &BaseUnit) -> bool {
        self@ == other@
    }
}

/// A base unit raised to an integer power.
#[derive(Debug, Clone)]
pub struct UnitExponent {
    pub unit: BaseUnit,
    pub exponent: i32,
}

impl View for UnitExponent {
    type V = (Seq<char>, i32);

    open spec fn view(&self) -> (Seq<char>, i32) {
        (self.unit@, self.exponent)
    }
}

impl UnitExponent {
    pub fn duplicate(&self) -> (r: UnitExponent)
        ensures
            r@ == self@,
    {
        UnitExponent { unit: self.unit.duplicate(), exponent: self.exponent }
    }
}

impl PartialEq for UnitExponent {
    fn eq(&self, other: &UnitExponent) -> (r: bool) {
        self.unit.symbol == other.unit.symbol && self.exponent == other.exponent
    }
}

impl vstd::std_specs::cmp::PartialEqSpecImpl for UnitExponent {
    open spec fn obeys_eq_spec() -> bool {
        true
    }

    open spec fn eq_spec(&self, other: &UnitExponent) -> bool {
        self@ == other@
    }
}

/// The (symbol, exponent) pairs of a list of unit exponents.
pub open spec fn pairs(s: Seq<UnitExponent>) -> Seq<(Seq<char>, i32)> {
    s.map_values(|e: UnitExponent| e@)
}

/// The total exponent of base unit `u` over the entries of `s`.
pub open spec fn exp_of(s: Seq<(Seq<char>, i32)>, u: Seq<char>) -> int
    decreases s.len(),
{
    if s.len() == 0 {
        0
    } else {
        exp_of(s.drop_last(), u) + if s.last().0 == u {
            s.last().1 as int
        } else {
            0
        }
    }
}

pub open spec fn fits_i32(x: int) -> bool {
    i32::MIN <= x <= i32::MAX
}

/// No two entries share a base unit and no entry has exponent zero.
pub open spec fn is_reduced(s: Seq<(Seq<char>, i32)>) -> bool {
    &&& forall|i: int| 0 <= i < s.len() ==> s[i].1 != 0
    &&& forall|i: int, j: int| 0 <= i < j < s.len() ==> s[i].0 != s[j].0
}

/// Every running total of every unit's exponent fits in an `i32`.
pub open spec fn prefix_fits(s: Seq<(Seq<char>, i32)>) -> bool {
    forall|k: int, u: Seq<char>| 0 <= k <= s.len() ==> fits_i32(#[trigger] exp_of(s.take(k), u))
}

/// Each exponent negated.
pub open spec fn negated(s: Seq<(Seq<char>, i32)>) -> Seq<(Seq<char>, i32)> {
    s.map_values(|p: (Seq<char>, i32)| (p.0, (-p.1) as i32))
}

/// Two lists hold the same entries, each as often.
pub open spec fn same_entries(a: Seq<(Seq<char>, i32)>, b: Seq<(Seq<char>, i32)>) -> bool {
    a.to_multiset() == b.to_multiset()
}

/// Two lists describe the same dimension: every base unit has the same total exponent.
pub open spec fn same_dimension(a: Seq<(Seq<char>, i32)>, b: Seq<(Seq<char>, i32)>) -> bool {
    forall|u: Seq<char>| #[trigger] exp_of(a, u) == exp_of(b, u)
}

pub proof fn lemma_exp_of_push(s: Seq<(Seq<char>, i32)>, x: (Seq<char>, i32), u: Seq<char>)
    ensures
        exp_of(s.push(x), u) == exp_of(s, u) + if x.0 == u {
            x.1 as int
        } else {
            0
        },
{
    assert(s.push(x).drop_last() == s);
}

pub proof fn lemma_exp_of_concat(s: Seq<(Seq<char>, i32)>, t: Seq<(Seq<char>, i32)>, u: Seq<char>)
    ensures
        exp_of(s + t, u) == exp_of(s, u) + exp_of(t, u),
    decreases t.len(),
{
    if t.len() == 0 {
        assert(s + t == s);
    } else {
        lemma_exp_of_concat(s, t.drop_last(), u);
        assert((s + t).drop_last() == s + t.drop_last());
    }
}

pub proof fn lemma_exp_of_update(s: Seq<(Seq<char>, i32)>, j: int, e: i32, u: Seq<char>)
    requires
        0 <= j < s.len(),
    ensures
        exp_of(s.update(j, (s[j].0, e)), u) == exp_of(s, u) + if s[j].0 == u {
            e - s[j].1
        } else {
            0
        },
    decreases s.len(),
{
    let t = s.update(j, (s[j].0, e));
    if j < s.len() - 1 {
        assert(t.drop_last() == s.drop_last().update(j, (s[j].0, e)));
        lemma_exp_of_update(s.drop_last(), j, e, u);
    } else {
        assert(t.drop_last() == s.drop_last());
    }
}

/// In a list without repeated units, a unit's total is its one entry, or zero.
pub proof fn lemma_exp_of_unique(s: Seq<(Seq<char>, i32)>, u: Seq<char>)
    requires
        forall|i: int, j: int| 0 <= i < j < s.len() ==> s[i].0 != s[j].0,
    ensures
        forall|i: int| 0 <= i < s.len() && s[i].0 == u ==> exp_of(s, u) == s[i].1,
        (forall|i: int| 0 <= i < s.len() ==> s[i].0 != u) ==> exp_of(s, u) == 0,
    decreases s.len(),
{
    if s.len() > 0 {
        let t = s.drop_last();
        lemma_exp_of_unique(t, u);
        if s.last().0 == u {
            assert forall|i: int| 0 <= i < t.len() implies t[i].0 != u by {
                assert(s[i].0 != s[s.len() - 1].0);
            }
        }
        assert forall|i: int| 0 <= i < s.len() && s[i].0 == u implies exp_of(s, u) == s[i].1 by {
            if i < s.len() - 1 {
                assert(t[i] == s[i]);
                assert(s[i].0 != s[s.len() - 1].0);
            }
        }
        if forall|i: int| 0 <= i < s.len() ==> s[i].0 != u {
            assert forall|i: int| 0 <= i < t.len() implies t[i].0 != u by {
                assert(t[i] == s[i]);
            }
        }
    }
}

pub proof fn lemma_exp_of_negated(s: Seq<(Seq<char>, i32)>, u: Seq<char>)
    requires
        forall|i: int| 0 <= i < s.len() ==> s[i].1 != i32::MIN,
    ensures
        exp_of(negated(s), u) == -exp_of(s, u),
    decreases s.len(),
{
    if s.len() > 0 {
        assert(negated(s).drop_last() == negated(s.drop_last()));
        lemma_exp_of_negated(s.drop_last(), u);
    }
}

/// Base unit `u` occurs among the first `bound` entries of `s` before any entry of unit `w`.
pub open spec fn occurs_before(s: Seq<(Seq<char>, i32)>, u: Seq<char>, w: Seq<char>, bound: int) -> bool {
    exists|k: int| 0 <= k < bound && s[k].0 == u && forall|k2: int| 0 <= k2 <= k ==> s[k2].0 != w
}

/// Base unit `u` occurs among the first `bound` entries of `s`.
pub open spec fn occurs_in(s: Seq<(Seq<char>, i32)>, u: Seq<char>, bound: int) -> bool {
    exists|k: int| 0 <= k < bound && s[k].0 == u
}

/// Some entry of `s` is of base unit `u`.
pub open spec fn is_key(s: Seq<(Seq<char>, i32)>, u: Seq<char>) -> bool {
    exists|a: int| 0 <= a < s.len() && s[a].0 == u
}

/// Negating every exponent keeps every running total in range.
pub open spec fn neg_fits(s: Seq<(Seq<char>, i32)>) -> bool {
    &&& forall|i: int| 0 <= i < s.len() ==> s[i].1 != i32::MIN
    &&& prefix_fits(negated(s))
}

/// Each base unit's total exponent in `a` plus `sign` times that in `b` fits in an `i32`.
pub open spec fn sum_fits(a: Seq<(Seq<char>, i32)>, b: Seq<(Seq<char>, i32)>, sign: int) -> bool {
    forall|u: Seq<char>| fits_i32(#[trigger] exp_of(a, u) + sign * exp_of(b, u))
}

/// No exponent is `i32::MIN`, so every one can be negated.
pub open spec fn no_min(s: Seq<(Seq<char>, i32)>) -> bool {
    forall|i: int| 0 <= i < s.len() ==> s[i].1 != i32::MIN
}

/// Without repeated units, a prefix holds each unit's one entry or none of it.
pub proof fn lemma_unique_take(s: Seq<(Seq<char>, i32)>, k: int, u: Seq<char>)
    requires
        0 <= k <= s.len(),
        forall|i: int, j: int| 0 <= i < j < s.len() ==> s[i].0 != s[j].0,
    ensures
        exp_of(s.take(k), u) == 0 || exp_of(s.take(k), u) == exp_of(s, u),
        fits_i32(exp_of(s, u)),
{
    let t = s.take(k);
    lemma_exp_of_unique(s, u);
    lemma_exp_of_unique(t, u);
    if exists|i: int| 0 <= i < t.len() && t[i].0 == u {
        let i = choose|i: int| 0 <= i < t.len() && t[i].0 == u;
        assert(t[i] == s[i]);
    }
}

/// A list without repeated units has every running total in range.
pub proof fn lemma_unique_prefix_fits(s: Seq<(Seq<char>, i32)>)
    requires
        forall|i: int, j: int| 0 <= i < j < s.len() ==> s[i].0 != s[j].0,
    ensures
        prefix_fits(s),
{
    assert forall|k: int, u: Seq<char>| 0 <= k <= s.len() implies fits_i32(#[trigger] exp_of(s.take(k), u)) by {
        lemma_unique_take(s, k, u);
        lemma_exp_of_unique(s.take(k), u);
        if exists|i: int| 0 <= i < s.take(k).len() && s.take(k)[i].0 == u {
            let i = choose|i: int| 0 <= i < s.take(k).len() && s.take(k)[i].0 == u;
        }
    }
}

/// Appending a list without repeated units keeps running totals in range when the totals are.
pub proof fn lemma_concat_prefix_fits(a: Seq<(Seq<char>, i32)>, b: Seq<(Seq<char>, i32)>)
    requires
        prefix_fits(a),
        forall|i: int, j: int| 0 <= i < j < b.len() ==> b[i].0 != b[j].0,
        sum_fits(a, b, 1),
    ensures
        prefix_fits(a + b),
{
    assert forall|k: int, u: Seq<char>| 0 <= k <= (a + b).len() implies fits_i32(#[trigger] exp_of((a + b).take(k), u)) by {
        if k <= a.len() {
            assert((a + b).take(k) == a.take(k));
        } else {
            assert((a + b).take(k) == a + b.take(k - a.len()));
            lemma_exp_of_concat(a, b.take(k - a.len()), u);
            lemma_unique_take(b, k - a.len(), u);
            assert(a.take(a.len() as int) == a);
            assert(fits_i32(exp_of(a.take(a.len() as int), u)));
            assert(fits_i32(exp_of(a, u) + 1 * exp_of(b, u)));
        }
    }
}

/// A reduced list negated stays reduced and in range.
pub proof fn lemma_negated_reduced(s: Seq<(Seq<char>, i32)>)
    requires
        is_reduced(s),
        forall|i: int| 0 <= i < s.len() ==> s[i].1 != i32::MIN,
    ensures
        is_reduced(negated(s)),
        neg_fits(s),
{
    lemma_unique_prefix_fits(negated(s));
}

pub proof fn lemma_exp_of_remove(s: Seq<(Seq<char>, i32)>, j: int, u: Seq<char>)
    requires
        0 <= j < s.len(),
    ensures
        exp_of(s.remove(j), u) == exp_of(s, u) - if s[j].0 == u {
            s[j].1 as int
        } else {
            0
        },
    decreases s.len(),
{
    if j < s.len() - 1 {
        assert(s.remove(j).drop_last() == s.drop_last().remove(j));
        lemma_exp_of_remove(s.drop_last(), j, u);
    } else {
        assert(s.remove(j) == s.drop_last());
    }
}

/// A unit no entry names has total zero.
pub proof fn lemma_exp_of_zero(s: Seq<(Seq<char>, i32)>, u: Seq<char>)
    requires
        forall|y: int| 0 <= y < s.len() ==> s[y].0 != u,
    ensures
        exp_of(s, u) == 0,
    decreases s.len(),
{
    if s.len() > 0 {
        lemma_exp_of_zero(s.drop_last(), u);
    }
}

/// A reduced dimension is empty exactly when every total is zero.
pub proof fn lemma_reduced_unitless(s: Seq<(Seq<char>, i32)>)
    ensures
        is_reduced(s) ==> ((forall|u: Seq<char>| #[trigger] exp_of(s, u) == 0) <==> s.len() == 0),
{
    if is_reduced(s) {
        if s.len() > 0 {
            lemma_exp_of_unique(s, s[0].0);
            assert(exp_of(s, s[0].0) != 0);
        } else {
            assert forall|u: Seq<char>| #[trigger] exp_of(s, u) == 0 by {
                lemma_exp_of_zero(s, u);
            }
        }
    }
}

/// A dimension: a product of base units raised to integer powers.
#[derive(Debug, Clone)]
pub struct UnitCombo(pub Vec<UnitExponent>);

impl View for UnitCombo {
    type V = Seq<(Seq<char>, i32)>;

    open spec fn view(&self) -> Seq<(Seq<char>, i32)> {
        pairs(self.0@)
    }
}

fn copy_entries(v: &Vec<UnitExponent>) -> (r: Vec<UnitExponent>)
    ensures
        pairs(r@) == pairs(v@),
{
    let mut r: Vec<UnitExponent> = Vec::new();
    let mut i: usize = 0;
    while i < v.len()
        invariant
            i <= v.len(),
            r@.len() == i,
            forall|k: int| 0 <= k < i ==> #[trigger] r@[k]@ == v@[k]@,
        decreases v.len() - i,
    {
        let e = v[i].duplicate();
        r.push(e);
        i += 1;
    }
    assert(pairs(r@) =~= pairs(v@));
    r
}

/// The position of the entry for base unit `sym`, if any.
fn find_unit(v: &Vec<UnitExponent>, sym: &String) -> (r: Option<usize>)
    ensures
        r is Some ==> r->0 < v@.len() && pairs(v@)[r->0 as int].0 == sym@,
        r is None ==> forall|a: int| 0 <= a < v@.len() ==> pairs(v@)[a].0 != sym@,
{
    let mut j: usize = 0;
    while j < v.len()
        invariant
            j <= v.len(),
            forall|a: int| 0 <= a < j ==> pairs(v@)[a].0 != sym@,
        decreases v.len() - j,
    {
        if v[j].unit.symbol == *sym {
            return Some(j);
        }
        j += 1;
    }
    None
}

impl UnitCombo {
    /// The unitless dimension.
    pub fn new() -> (r: UnitCombo)
        ensures
            r@ == Seq::<(Seq<char>, i32)>::empty(),
    {
        UnitCombo(Vec::new())
    }

    pub fn duplicate(&self) -> (r: UnitCombo)
        ensures
            r@ == self@,
    {
        UnitCombo(copy_entries(&self.0))
    }

    /// The total exponent of `unit` in a reduced dimension.
    pub fn exponent_of(&self, unit: &BaseUnit) -> (r: i32)
        requires
            is_reduced(self@),
        ensures
            r == exp_of(self@, unit@),
    {
        proof {
            lemma_exp_of_unique(self@, unit@);
        }
        match find_unit(&self.0, &unit.symbol) {
            Some(j) => self.0[j].exponent,
            None => 0,
        }
    }

    /// Whether the dimension is empty after reduction: every base unit's total exponent is zero.
    pub fn is_unitless(&self) -> (r: bool)
        ensures
            r == (forall|u: Seq<char>| #[trigger] exp_of(self@, u) == 0),
            is_reduced(self@) ==> (r == (self@.len() == 0)),
    {
        proof {
            lemma_reduced_unitless(self@);
        }
        let mut i: usize = 0;
        while i < self.0.len()
            invariant
                i <= self@.len(),
                forall|k: int| 0 <= k < i ==> #[trigger] exp_of(self@, self@[k].0) == 0,
            decreases self.0.len() - i,
        {
            let t = self.total_of(&self.0[i].unit);
            if t != 0 {
                return false;
            }
            i += 1;
        }
        proof {
            assert forall|u: Seq<char>| #[trigger] exp_of(self@, u) == 0 by {
                if exists|k: int| 0 <= k < self@.len() && self@[k].0 == u {
                    let k = choose|k: int| 0 <= k < self@.len() && self@[k].0 == u;
                    assert(exp_of(self@, self@[k].0) == 0);
                } else {
                    lemma_exp_of_zero(self@, u);
                }
            }
        }
        true
    }

    /// The total exponent of `unit` over all entries, reduced or not.
    fn total_of(&self, unit: &BaseUnit) -> (r: i128)
        ensures
            r == exp_of(self@, unit@),
    {
        let mut acc: i128 = 0;
        let mut k: usize = 0;
        while k < self.0.len()
            invariant
                k <= self@.len(),
                acc == exp_of(self@.take(k as int), unit@),
                -(k as int) * 0x8000_0000 <= acc <= (k as int) * 0x8000_0000,
            decreases self.0.len() - k,
        {
            let e = &self.0[k];
            proof {
                assert(self@.take(k + 1) == self@.take(k as int).push(self@[k as int]));
                lemma_exp_of_push(self@.take(k as int), self@[k as int], unit@);
                assert((k as int) * 0x8000_0000 < 0x1_0000_0000_0000_0000 * 0x8000_0000) by (nonlinear_arith)
                    requires k < 0x1_0000_0000_0000_0000int;
            }
            if e.unit.symbol == unit.symbol {
                acc = acc + e.exponent as i128;
            }
            k += 1;
        }
        assert(self@.take(self@.len() as int) == self@);
        acc
    }

    /// Merges the entries of each base unit into one, summing exponents, and drops zero exponents.
    pub fn reduce(&self) -> (r: UnitCombo)
        requires
            prefix_fits(self@),
        ensures
            is_reduced(r@),
            same_dimension(r@, self@),
            forall|a: int, b: int|
                0 <= a < b < r@.len() ==> occurs_before(self@, (#[trigger] r@[a]).0, (#[trigger] r@[b]).0, self@.len() as int),
            is_reduced(self@) ==> r@ == self@,
    {
        let mut acc: Vec<UnitExponent> = Vec::new();
        let mut i: usize = 0;
        while i < self.0.len()
            invariant
                i <= self.0.len(),
                prefix_fits(self@),
                forall|a: int, b: int| 0 <= a < b < acc@.len() ==> pairs(acc@)[a].0 != pairs(acc@)[b].0,
                forall|u: Seq<char>| #[trigger] exp_of(pairs(acc@), u) == exp_of(self@.take(i as int), u),
                forall|k: int| 0 <= k < i ==> is_key(pairs(acc@), (#[trigger] self@[k]).0),
                forall|a: int| 0 <= a < acc@.len() ==> occurs_in(self@, (#[trigger] pairs(acc@)[a]).0, i as int),
                forall|a: int, b: int|
                    0 <= a < b < acc@.len() ==> occurs_before(self@, (#[trigger] pairs(acc@)[a]).0, (#[trigger] pairs(acc@)[b]).0, i as int),
                is_reduced(self@) ==> pairs(acc@) == self@.take(i as int),
            decreases self.0.len() - i,
        {
            let c = &self.0[i];
            let ghost before = pairs(acc@);
            let ghost x = self@[i as int];
            proof {
                assert(self@.take(i + 1) == self@.take(i as int).push(x));
                assert forall|u: Seq<char>| #[trigger] exp_of(self@.take(i + 1), u) == exp_of(self@.take(i as int), u) + if x.0 == u { x.1 as int } else { 0 } by {
                    lemma_exp_of_push(self@.take(i as int), x, u);
                }
                lemma_exp_of_unique(before, x.0);
            }
            let found = find_unit(&acc, &c.unit.symbol);
            if let Some(j) = found {
                proof {
                    if is_reduced(self@) {
                        assert(before[j as int] == self@[j as int]);
                        assert(self@[j as int].0 != self@[i as int].0);
                    }
                    assert(fits_i32(exp_of(self@.take(i + 1), x.0)));
                }
                let e = acc[j].exponent + c.exponent;
                let u = acc[j].unit.duplicate();
                acc.set(j, UnitExponent { unit: u, exponent: e });
                proof {
                    assert(pairs(acc@) =~= before.update(j as int, (before[j as int].0, e)));
                    assert forall|w: Seq<char>| #[trigger] exp_of(pairs(acc@), w) == exp_of(self@.take(i + 1), w) by {
                        lemma_exp_of_update(before, j as int, e, w);
                    }
                    let p = pairs(acc@);
                    assert forall|a: int| 0 <= a < p.len() implies p[a].0 == before[a].0 by {}
                    assert forall|k: int| 0 <= k < i + 1 implies is_key(p, (#[trigger] self@[k]).0) by {
                        if k < i {
                            assert(is_key(before, self@[k].0));
                            let a = choose|a: int| 0 <= a < before.len() && before[a].0 == self@[k].0;
                            assert(p[a].0 == self@[k].0);
                        } else {
                            assert(p[j as int].0 == self@[k].0);
                        }
                    }
                    assert forall|a: int| 0 <= a < p.len() implies occurs_in(self@, (#[trigger] p[a]).0, i + 1) by {
                        assert(occurs_in(self@, before[a].0, i as int));
                        let k = choose|k: int| 0 <= k < i && self@[k].0 == before[a].0;
                    }
                    assert forall|a: int, b: int| 0 <= a < b < p.len() implies occurs_before(self@, (#[trigger] p[a]).0, (#[trigger] p[b]).0, i + 1) by {
                        assert(occurs_before(self@, before[a].0, before[b].0, i as int));
                        let k = choose|k: int| 0 <= k < i && self@[k].0 == before[a].0 && forall|k2: int| 0 <= k2 <= k ==> self@[k2].0 != before[b].0;
                    }
                }
            } else {
                acc.push(c.duplicate());
                proof {
                    assert(pairs(acc@) =~= before.push(x));
                    if is_reduced(self@) {
                        assert(pairs(acc@) =~= self@.take(i + 1));
                    }
                    assert forall|w: Seq<char>| #[trigger] exp_of(pairs(acc@), w) == exp_of(self@.take(i + 1), w) by {
                        lemma_exp_of_push(before, x, w);
                    }
                    let p = pairs(acc@);
                    let n = before.len() as int;
                    assert(p[n] == x);
                    assert forall|k: int| 0 <= k < i implies self@[k].0 != x.0 by {
                        assert(is_key(before, self@[k].0));
                        let a = choose|a: int| 0 <= a < before.len() && before[a].0 == self@[k].0;
                    }
                    assert forall|k: int| 0 <= k < i + 1 implies is_key(p, (#[trigger] self@[k]).0) by {
                        if k < i {
                            assert(is_key(before, self@[k].0));
                            let a = choose|a: int| 0 <= a < before.len() && before[a].0 == self@[k].0;
                            assert(p[a] == before[a]);
                        } else {
                            assert(p[n].0 == self@[k].0);
                        }
                    }
                    assert forall|a: int| 0 <= a < p.len() implies occurs_in(self@, (#[trigger] p[a]).0, i + 1) by {
                        if a < n {
                            assert(p[a] == before[a]);
                            assert(occurs_in(self@, before[a].0, i as int));
                            let k = choose|k: int| 0 <= k < i && self@[k].0 == before[a].0;
                        } else {
                            assert(self@[i as int].0 == p[a].0);
                        }
                    }
                    assert forall|a: int, b: int| 0 <= a < b < p.len() implies occurs_before(self@, (#[trigger] p[a]).0, (#[trigger] p[b]).0, i + 1) by {
                        assert(p[a] == before[a]);
                        if b < n {
                            assert(p[b] == before[b]);
                            assert(occurs_before(self@, before[a].0, before[b].0, i as int));
                            let k = choose|k: int| 0 <= k < i && self@[k].0 == before[a].0 && forall|k2: int| 0 <= k2 <= k ==> self@[k2].0 != before[b].0;
                        } else {
                            assert(occurs_in(self@, before[a].0, i as int));
                            let k = choose|k: int| 0 <= k < i && self@[k].0 == before[a].0;
                            assert forall|k2: int| 0 <= k2 <= k implies self@[k2].0 != p[b].0 by {}
                        }
                    }
                }
            }
            i += 1;
        }
        assert(self@.take(self.0.len() as int) == self@);
        let mut out: Vec<UnitExponent> = Vec::new();
        let mut k: usize = 0;
        let ghost mut idx: Seq<int> = Seq::empty();
        while k < acc.len()
            invariant
                k <= acc.len(),
                idx.len() == out@.len(),
                forall|a: int| 0 <= a < idx.len() ==> 0 <= #[trigger] idx[a] < k && pairs(out@)[a] == pairs(acc@)[idx[a]],
                forall|a: int, b: int| 0 <= a < b < idx.len() ==> #[trigger] idx[a] < #[trigger] idx[b],
                forall|a: int, b: int|
                    0 <= a < b < acc@.len() ==> occurs_before(self@, (#[trigger] pairs(acc@)[a]).0, (#[trigger] pairs(acc@)[b]).0, self@.len() as int),
                is_reduced(self@) ==> pairs(acc@) == self@,
                is_reduced(self@) ==> pairs(out@) == pairs(acc@).take(k as int),
                forall|a: int, b: int| 0 <= a < b < acc@.len() ==> pairs(acc@)[a].0 != pairs(acc@)[b].0,
                forall|a: int| 0 <= a < out@.len() ==> pairs(out@)[a].1 != 0,
                forall|a: int| 0 <= a < out@.len() ==> exists|b: int| 0 <= b < k && #[trigger] pairs(out@)[a] == #[trigger] pairs(acc@)[b],
                forall|a: int, b: int| 0 <= a < b < out@.len() ==> pairs(out@)[a].0 != pairs(out@)[b].0,
                forall|u: Seq<char>| #[trigger] exp_of(pairs(out@), u) == exp_of(pairs(acc@).take(k as int), u),
            decreases acc.len() - k,
        {
            let ghost before = pairs(out@);
            let ghost x = pairs(acc@)[k as int];
            proof {
                assert(pairs(acc@).take(k + 1) == pairs(acc@).take(k as int).push(x));
                assert forall|u: Seq<char>| #[trigger] exp_of(pairs(acc@).take(k + 1), u) == exp_of(pairs(acc@).take(k as int), u) + if x.0 == u { x.1 as int } else { 0 } by {
                    lemma_exp_of_push(pairs(acc@).take(k as int), x, u);
                }
            }
            if acc[k].exponent != 0 {
                out.push(acc[k].duplicate());
                proof {
                    idx = idx.push(k as int);
                    assert(pairs(out@) =~= before.push(x));
                    if is_reduced(self@) {
                        assert(pairs(out@) =~= pairs(acc@).take(k + 1));
                    }
                    assert forall|w: Seq<char>| #[trigger] exp_of(pairs(out@), w) == exp_of(pairs(acc@).take(k + 1), w) by {
                        lemma_exp_of_push(before, x, w);
                    }
                    assert forall|a: int| 0 <= a < out@.len() implies exists|b: int| 0 <= b < k + 1 && #[trigger] pairs(out@)[a] == #[trigger] pairs(acc@)[b] by {
                        if a == out@.len() - 1 {
                            assert(pairs(out@)[a] == pairs(acc@)[k as int]);
                        } else {
                            assert(pairs(out@)[a] == before[a]);
                        }
                    }
                    assert forall|a: int, b: int| 0 <= a < b < out@.len() implies pairs(out@)[a].0 != pairs(out@)[b].0 by {
                        if b == out@.len() - 1 {
                            assert(pairs(out@)[a] == before[a]);
                            let c = choose|c: int| 0 <= c < k && before[a] == pairs(acc@)[c];
                            assert(pairs(acc@)[c].0 != pairs(acc@)[k as int].0);
                        } else {
                            assert(pairs(out@)[a] == before[a]);
                            assert(pairs(out@)[b] == before[b]);
                        }
                    }
                }
            }
            k += 1;
        }
        assert(pairs(acc@).take(acc.len() as int) == pairs(acc@));
        let r = UnitCombo(out);
        assert(is_reduced(self@) ==> r@ == self@);
        proof {
            assert forall|a: int, b: int| 0 <= a < b < r@.len() implies occurs_before(self@, (#[trigger] r@[a]).0, (#[trigger] r@[b]).0, self@.len() as int) by {
                assert(idx[a] < idx[b]);
                assert(r@[a] == pairs(acc@)[idx[a]]);
                assert(r@[b] == pairs(acc@)[idx[b]]);
            }
        }
        r
    }

    /// The product of two dimensions: the entries of both, reduced.
    pub fn mul(&self, rhs: &UnitCombo) -> (r: UnitCombo)
        requires
            prefix_fits(self@ + rhs@),
        ensures
            is_reduced(r@),
            forall|u: Seq<char>| #[trigger] exp_of(r@, u) == exp_of(self@, u) + exp_of(rhs@, u),
    {
        let mut entries = copy_entries(&self.0);
        let mut i: usize = 0;
        while i < rhs.0.len()
            invariant
                i <= rhs.0.len(),
                pairs(entries@) == self@ + rhs@.take(i as int),
            decreases rhs.0.len() - i,
        {
            let e = rhs.0[i].duplicate();
            let ghost prev = entries@;
            entries.push(e);
            proof {
                assert(entries@ == prev.push(e));
                assert(pairs(entries@) =~= pairs(prev).push(e@));
                assert(self@ + rhs@.take(i + 1) =~= (self@ + rhs@.take(i as int)).push(e@));
            }
            i += 1;
        }
        assert(rhs@.take(rhs.0.len() as int) == rhs@);
        let r = UnitCombo(entries).reduce();
        proof {
            assert forall|u: Seq<char>| #[trigger] exp_of(r@, u) == exp_of(self@, u) + exp_of(rhs@, u) by {
                lemma_exp_of_concat(self@, rhs@, u);
            }
        }
        r
    }

    /// The inverse dimension: every exponent negated, reduced.
    pub fn neg(&self) -> (r: UnitCombo)
        requires
            neg_fits(self@),
        ensures
            is_reduced(r@),
            forall|u: Seq<char>| #[trigger] exp_of(r@, u) == -exp_of(self@, u),
    {
        let mut entries: Vec<UnitExponent> = Vec::new();
        let mut i: usize = 0;
        while i < self.0.len()
            invariant
                i <= self.0.len(),
                neg_fits(self@),
                pairs(entries@) == negated(self@).take(i as int),
            decreases self.0.len() - i,
        {
            let e = &self.0[i];
            assert(self@[i as int].1 != i32::MIN);
            let n = UnitExponent { unit: e.unit.duplicate(), exponent: -e.exponent };
            let ghost prev = entries@;
            entries.push(n);
            proof {
                assert(entries@ == prev.push(n));
                assert(pairs(entries@) =~= pairs(prev).push(n@));
                assert(negated(self@).take(i + 1) =~= negated(self@).take(i as int).push(n@));
            }
            i += 1;
        }
        assert(negated(self@).take(self.0.len() as int) == negated(self@));
        let r = UnitCombo(entries).reduce();
        proof {
            assert forall|u: Seq<char>| #[trigger] exp_of(r@, u) == -exp_of(self@, u) by {
                lemma_exp_of_negated(self@, u);
            }
        }
        r
    }

    /// The quotient of two dimensions: `self` times the inverse of `rhs`.
    pub fn div(&self, rhs: &UnitCombo) -> (r: UnitCombo)
        requires
            prefix_fits(self@),
            neg_fits(rhs@),
            sum_fits(self@, rhs@, -1),
        ensures
            is_reduced(r@),
            forall|u: Seq<char>| #[trigger] exp_of(r@, u) == exp_of(self@, u) - exp_of(rhs@, u),
    {
        let n = rhs.neg();
        proof {
            assert forall|u: Seq<char>| fits_i32(#[trigger] exp_of(self@, u) + 1 * exp_of(n@, u)) by {
                assert(fits_i32(exp_of(self@, u) + -1 * exp_of(rhs@, u)));
            }
            lemma_concat_prefix_fits(self@, n@);
        }
        self.mul(&n)
    }

    /// Whether each base unit's total in `self` plus `sign` (one or minus one) times its total
    /// in `other` fits in an `i32`, for reduced dimensions.
    pub fn sum_fits(&self, other: &UnitCombo, negate: bool) -> (r: bool)
        requires
            is_reduced(self@),
            is_reduced(other@),
        ensures
            r == (sum_fits(self@, other@, if negate { -1 } else { 1 }) && (negate ==> no_min(other@))),
    {
        let ghost sign: int = if negate { -1 } else { 1 };
        let mut i: usize = 0;
        while i < other.0.len()
            invariant
                i <= other.0.len(),
                is_reduced(self@),
                is_reduced(other@),
                sign == if negate { -1int } else { 1int },
                forall|k: int| 0 <= k < i ==> #[trigger] fits_i32(exp_of(self@, other@[k].0) + sign * exp_of(other@, other@[k].0)),
                negate ==> forall|k: int| 0 <= k < i ==> other@[k].1 != i32::MIN,
            decreases other.0.len() - i,
        {
            let e = &other.0[i];
            if negate && e.exponent == i32::MIN {
                assert(other@[i as int].1 == i32::MIN);
                return false;
            }
            let ghost u = other@[i as int].0;
            proof {
                lemma_exp_of_unique(other@, u);
                lemma_exp_of_unique(self@, u);
            }
            let mine: i64 = match find_unit(&self.0, &e.unit.symbol) {
                Some(j) => self.0[j].exponent as i64,
                None => 0,
            };
            let theirs: i64 = if negate { -(e.exponent as i64) } else { e.exponent as i64 };
            let t = mine + theirs;
            if t < i32::MIN as i64 || t > i32::MAX as i64 {
                return false;
            }
            i += 1;
        }
        proof {
            assert forall|u: Seq<char>| fits_i32(#[trigger] exp_of(self@, u) + sign * exp_of(other@, u)) by {
                lemma_exp_of_unique(other@, u);
                lemma_unique_take(self@, 0, u);
                if exists|k: int| 0 <= k < other@.len() && other@[k].0 == u {
                    let k = choose|k: int| 0 <= k < other@.len() && other@[k].0 == u;
                    assert(fits_i32(exp_of(self@, other@[k].0) + sign * exp_of(other@, other@[k].0)));
                }
            }
        }
        true
    }
}

/// The position of an entry equal to `x`, if any.
fn find_entry(v: &Vec<UnitExponent>, x: &UnitExponent) -> (r: Option<usize>)
    ensures
        r is Some ==> r->0 < v@.len() && pairs(v@)[r->0 as int] == x@,
        r is None ==> forall|a: int| 0 <= a < v@.len() ==> pairs(v@)[a] != x@,
{
    let mut j: usize = 0;
    while j < v.len()
        invariant
            j <= v.len(),
            forall|a: int| 0 <= a < j ==> pairs(v@)[a] != x@,
        decreases v.len() - j,
    {
        if v[j].unit.symbol == x.unit.symbol && v[j].exponent == x.exponent {
            return Some(j);
        }
        j += 1;
    }
    None
}

proof fn lemma_take_count_le(s: Seq<(Seq<char>, i32)>, k: int, x: (Seq<char>, i32))
    requires
        0 <= k <= s.len(),
    ensures
        s.take(k).to_multiset().count(x) <= s.to_multiset().count(x),
    decreases s.len(),
{
    if k < s.len() {
        let t = s.drop_last();
        lemma_take_count_le(t, k, x);
        assert(t.take(k) == s.take(k));
        assert(t.push(s.last()) == s);
    } else {
        assert(s.take(k) == s);
    }
}

/// Equality of dimensions compares the entries as a multiset, whatever their order.
impl PartialEq for UnitCombo {
    fn eq(&self, other: &UnitCombo) -> (r: bool) {
        let mut rest = copy_entries(&other.0);
        let mut i: usize = 0;
        assert(self@.take(0).to_multiset() =~= Multiset::empty());
        while i < self.0.len()
            invariant
                i <= self.0.len(),
                pairs(rest@).to_multiset().add(self@.take(i as int).to_multiset())
                    == other@.to_multiset(),
            decreases self.0.len() - i,
        {
            let ghost x = self@[i as int];
            let ghost before = pairs(rest@);
            assert(self@.take(i + 1) == self@.take(i as int).push(x));
            match find_entry(&rest, &self.0[i]) {
                None => {
                    proof {
                        assert(!before.contains(x));
                        lemma_take_count_le(self@, i + 1, x);
                        assert(self@.to_multiset().count(x) != other@.to_multiset().count(x));
                    }
                    return false;
                },
                Some(j) => {
                    let ghost old_rest = rest@;
                    rest.remove(j);
                    proof {
                        assert(pairs(rest@) =~= before.remove(j as int));
                        assert(before.to_multiset().count(x) > 0);
                        assert(pairs(rest@).to_multiset().add(self@.take(i + 1).to_multiset())
                            =~= other@.to_multiset());
                    }
                },
            }
            i += 1;
        }
        assert(self@.take(self.0.len() as int) == self@);
        proof {
            if rest.len() > 0 {
                assert(pairs(rest@).len() > 0);
                assert(pairs(rest@).to_multiset().len() > 0);
                assert(other@.to_multiset().len() == pairs(rest@).to_multiset().len() + self@.to_multiset().len());
                assert(other@.to_multiset() != self@.to_multiset());
            } else {
                assert(pairs(rest@).to_multiset() =~= Multiset::empty());
                assert(Multiset::<(Seq<char>, i32)>::empty().add(self@.to_multiset()) =~= self@.to_multiset());
                assert(self@.to_multiset() == other@.to_multiset());
            }
        }
        rest.len() == 0
    }
}

impl vstd::std_specs::cmp::PartialEqSpecImpl for UnitCombo {
    open spec fn obeys_eq_spec() -> bool {
        true
    }

    open spec fn eq_spec(&self, other: &UnitCombo) -> bool {
        same_entries(self@, other@)
    }
}

/// In a reduced list, an entry occurs once exactly when it is its unit's total.
pub proof fn lemma_reduced_count(s: Seq<(Seq<char>, i32)>, p: (Seq<char>, i32))
    requires
        is_reduced(s),
    ensures
        s.to_multiset().count(p) == if p.1 != 0 && exp_of(s, p.0) == p.1 {
            1nat
        } else {
            0nat
        },
    decreases s.len(),
{
    if s.len() == 0 {
        assert(s.to_multiset() =~= Multiset::empty());
    } else {
        let t = s.drop_last();
        assert(t.push(s.last()) == s);
        lemma_reduced_count(t, p);
        if s.last().0 == p.0 {
            assert forall|i: int| 0 <= i < t.len() implies t[i].0 != p.0 by {
                assert(s[i].0 != s[s.len() - 1].0);
            }
            lemma_exp_of_unique(t, p.0);
        }
    }
}

/// Reduced lists of the same dimension hold the same entries.
pub proof fn lemma_reduced_same_entries(a: Seq<(Seq<char>, i32)>, b: Seq<(Seq<char>, i32)>)
    requires
        is_reduced(a),
        is_reduced(b),
        same_dimension(a, b),
    ensures
        same_entries(a, b),
{
    assert forall|p: (Seq<char>, i32)| a.to_multiset().count(p) == b.to_multiset().count(p) by {
        lemma_reduced_count(a, p);
        lemma_reduced_count(b, p);
        assert(exp_of(a, p.0) == exp_of(b, p.0));
    }
    assert(a.to_multiset() =~= b.to_multiset());
}

/// Multiplying by a dimension and then dividing by it gives the dimension back, and
/// the order of a product does not matter: `ab` is what `a.mul(b)` may return, `abb`
/// what `ab.div(b)` may return, `ba` what `b.mul(a)` may return.
pub proof fn lemma_mul_div_round_trip(
    a: Seq<(Seq<char>, i32)>,
    b: Seq<(Seq<char>, i32)>,
    ab: Seq<(Seq<char>, i32)>,
    abb: Seq<(Seq<char>, i32)>,
    ba: Seq<(Seq<char>, i32)>,
)
    requires
        forall|u: Seq<char>| #[trigger] exp_of(ab, u) == exp_of(a, u) + exp_of(b, u),
        forall|u: Seq<char>| #[trigger] exp_of(abb, u) == exp_of(ab, u) - exp_of(b, u),
        forall|u: Seq<char>| #[trigger] exp_of(ba, u) == exp_of(b, u) + exp_of(a, u),
        is_reduced(ab),
        is_reduced(ba),
    ensures
        same_dimension(abb, a),
        same_dimension(ab, ba),
        same_entries(ab, ba),
        is_reduced(a) && is_reduced(abb) ==> same_entries(abb, a),
{
    assert(same_dimension(abb, a));
    assert(same_dimension(ab, ba));
    lemma_reduced_same_entries(ab, ba);
    if is_reduced(a) && is_reduced(abb) {
        lemma_reduced_same_entries(abb, a);
    }
}

impl UnitCombo {
    /// Multiplies in a base unit raised to `exponent`, dropping the unit's entry when it cancels.
    pub fn push_base_unit(&mut self, unit: BaseUnit, exponent: i32)
        requires
            is_reduced(old(self)@),
            fits_i32(exp_of(old(self)@, unit@) + exponent),
        ensures
            exponent != 0 ==> is_reduced(final(self)@),
            forall|u: Seq<char>| #[trigger] exp_of(final(self)@, u) == exp_of(old(self)@, u) + if u == unit@ {
                exponent as int
            } else {
                0
            },
            (forall|i: int| 0 <= i < old(self)@.len() ==> old(self)@[i].0 != unit@) ==> final(self)@ == old(self)@.push(
                (unit@, exponent),
            ),
            forall|j: int|
                0 <= j < old(self)@.len() && (#[trigger] old(self)@[j]).0 == unit@ ==> final(self)@ == if old(self)@[j].1
                    + exponent == 0 {
                    old(self)@.remove(j)
                } else {
                    old(self)@.update(j, (unit@, (old(self)@[j].1 + exponent) as i32))
                },
    {
        let ghost s = self@;
        proof {
            lemma_exp_of_unique(s, unit@);
        }
        match find_unit(&self.0, &unit.symbol) {
            Some(j) => {
                let e = self.0[j].exponent + exponent;
                if e == 0 {
                    self.0.remove(j);
                    proof {
                        assert(self@ =~= s.remove(j as int));
                        assert forall|u: Seq<char>| #[trigger] exp_of(self@, u) == exp_of(s, u) + if u == unit@ { exponent as int } else { 0 } by {
                            lemma_exp_of_remove(s, j as int, u);
                        }
                        assert forall|a: int, b: int| 0 <= a < b < self@.len() implies self@[a].0 != self@[b].0 by {
                            if a < j {
                                if b < j {
                                } else {
                                    assert(self@[b] == s[b + 1]);
                                }
                            } else {
                                assert(self@[a] == s[a + 1]);
                                assert(self@[b] == s[b + 1]);
                            }
                        }
                    }
                } else {
                    self.0.set(j, UnitExponent { unit, exponent: e });
                    proof {
                        assert(self@ =~= s.update(j as int, (s[j as int].0, e)));
                        assert forall|u: Seq<char>| #[trigger] exp_of(self@, u) == exp_of(s, u) + if u == unit@ { exponent as int } else { 0 } by {
                            lemma_exp_of_update(s, j as int, e, u);
                        }
                    }
                }
            },
            None => {
                let ghost x = (unit@, exponent);
                self.0.push(UnitExponent { unit, exponent });
                proof {
                    assert(self@ =~= s.push(x));
                    assert forall|u: Seq<char>| #[trigger] exp_of(self@, u) == exp_of(s, u) + if u == x.0 { exponent as int } else { 0 } by {
                        lemma_exp_of_push(s, x, u);
                    }
                }
            },
        }
    }

    /// Multiplies in the dimension of a derived unit.
    pub fn push_derived_unit(&mut self, unit: DerivedUnit)
        requires
            is_reduced(old(self)@),
            is_reduced(unit.exponents@),
            sum_fits(old(self)@, unit.exponents@, 1),
        ensures
            is_reduced(final(self)@),
            forall|u: Seq<char>| #[trigger] exp_of(final(self)@, u) == exp_of(old(self)@, u) + exp_of(unit.exponents@, u),
    {
        let ghost s = self@;
        let ghost d = unit.exponents@;
        let mut i: usize = 0;
        assert(d.take(0) =~= Seq::<(Seq<char>, i32)>::empty());
        while i < unit.exponents.0.len()
            invariant
                i <= unit.exponents.0.len(),
                d == unit.exponents@,
                is_reduced(d),
                sum_fits(s, d, 1),
                is_reduced(self@),
                forall|u: Seq<char>| #[trigger] exp_of(self@, u) == exp_of(s, u) + exp_of(d.take(i as int), u),
            decreases unit.exponents.0.len() - i,
        {
            let c = unit.exponents.0[i].duplicate();
            let ghost x = d[i as int];
            proof {
                assert(d.take(i + 1) == d.take(i as int).push(x));
                lemma_exp_of_unique(d, x.0);
                lemma_exp_of_unique(d.take(i as int), x.0);
                assert forall|k: int| 0 <= k < i implies d.take(i as int)[k].0 != x.0 by {
                    assert(d[k].0 != d[i as int].0);
                }
                assert(fits_i32(exp_of(s, x.0) + 1 * exp_of(d, x.0)));
                assert forall|u: Seq<char>| #[trigger] exp_of(d.take(i + 1), u) == exp_of(d.take(i as int), u) + if u == x.0 { x.1 as int } else { 0 } by {
                    lemma_exp_of_push(d.take(i as int), x, u);
                }
            }
            self.push_base_unit(c.unit, c.exponent);
            i += 1;
        }
        assert(d.take(d.len() as int) == d);
    }
}

/// A named affine transform over a dimension: a value `v` in this unit is
/// `v * scale + offset` in base units.
#[derive(Debug, Clone)]
pub struct DerivedUnit {
    pub symbol: String,
    pub offset: Rational,
    pub scale: Rational,
    pub exponents: UnitCombo,
}

/// A derived unit as plain values: symbol, offset, scale and dimension.
pub type DerivedView = (Seq<char>, (int, int), (int, int), Seq<(Seq<char>, i32)>);

impl View for DerivedUnit {
    type V = DerivedView;

    open spec fn view(&self) -> DerivedView {
        (self.symbol@, self.offset@, self.scale@, self.exponents@)
    }
}

/// Two derived units agree in symbol, offset, scale and dimension.
pub open spec fn same_unit(a: DerivedView, b: DerivedView) -> bool {
    a.0 == b.0 && frac_eq(a.1, b.1) && frac_eq(a.2, b.2) && same_entries(a.3, b.3)
}

/// `c` is the composite `a*b`.
pub open spec fn composed_mul(a: DerivedView, b: DerivedView, c: DerivedView) -> bool {
    &&& c.0 == a.0 + seq!['*'] + b.0
    &&& frac_eq(c.1, frac_add(frac_mul(a.1, b.2), b.1))
    &&& frac_eq(c.2, frac_mul(a.2, b.2))
    &&& forall|u: Seq<char>| #[trigger] exp_of(c.3, u) == exp_of(a.3, u) + exp_of(b.3, u)
}

/// `c` is the composite `a/b`.
pub open spec fn composed_div(a: DerivedView, b: DerivedView, c: DerivedView) -> bool {
    &&& c.0 == a.0 + seq!['/'] + b.0
    &&& frac_eq(c.1, frac_sub(frac_mul(a.1, b.2), b.1))
    &&& frac_eq(c.2, frac_div(a.2, b.2))
    &&& forall|u: Seq<char>| #[trigger] exp_of(c.3, u) == exp_of(a.3, u) - exp_of(b.3, u)
}

impl DerivedUnit {
    /// Offset and scale are well-formed and the dimension is reduced.
    pub open spec fn wf(&self) -> bool {
        &&& self.offset.wf()
        &&& self.scale.wf()
        &&& is_reduced(self.exponents@)
    }

    pub fn duplicate(&self) -> (r: DerivedUnit)
        ensures
            r@ == self@,
            self.wf() ==> r.wf(),
    {
        DerivedUnit {
            symbol: self.symbol.clone(),
            offset: self.offset.duplicate(),
            scale: self.scale.duplicate(),
            exponents: self.exponents.duplicate(),
        }
    }

    /// The composite unit `self*rhs`: `offset = a.offset * b.scale + b.offset`,
    /// `scale = a.scale * b.scale`, dimensions multiplied.
    pub fn mul(&self, rhs: &DerivedUnit) -> (r: DerivedUnit)
        requires
            self.wf(),
            rhs.wf(),
            sum_fits(self.exponents@, rhs.exponents@, 1),
        ensures
            r.wf(),
            composed_mul(self@, rhs@, r@),
    {
        let symbol = join3(self.symbol.as_str(), "*", rhs.symbol.as_str());
        proof {
            reveal_strlit("*");
            assert("*"@ =~= seq!['*']);
        }
        let m = rat_mul(&self.offset, &rhs.scale);
        let offset = rat_add(&m, &rhs.offset);
        let scale = rat_mul(&self.scale, &rhs.scale);
        proof {
            lemma_frac_congr(m@, frac_mul(self.offset@, rhs.scale@), rhs.offset@, rhs.offset@);
            assert(m.den() * rhs.offset.den() != 0) by (nonlinear_arith)
                requires m.den() > 0, rhs.offset.den() > 0;
            lemma_frac_eq_trans(offset@, frac_add(m@, rhs.offset@), frac_add(frac_mul(self.offset@, rhs.scale@), rhs.offset@));
            lemma_unique_prefix_fits(self.exponents@);
            lemma_concat_prefix_fits(self.exponents@, rhs.exponents@);
        }
        DerivedUnit {
            symbol,
            offset,
            scale,
            exponents: self.exponents.mul(&rhs.exponents),
        }
    }

    /// The composite unit `self/rhs`: `offset = a.offset * b.scale - b.offset`,
    /// `scale = a.scale / b.scale`, dimensions divided; `rhs` has a non-zero scale.
    pub fn div(&self, rhs: &DerivedUnit) -> (r: DerivedUnit)
        requires
            self.wf(),
            rhs.wf(),
            sum_fits(self.exponents@, rhs.exponents@, -1),
            no_min(rhs.exponents@),
            rhs.scale.num() != 0,
        ensures
            r.wf(),
            composed_div(self@, rhs@, r@),
    {
        let symbol = join3(self.symbol.as_str(), "/", rhs.symbol.as_str());
        proof {
            reveal_strlit("/");
            assert("/"@ =~= seq!['/']);
        }
        let m = rat_mul(&self.offset, &rhs.scale);
        let offset = rat_sub(&m, &rhs.offset);
        let scale = rat_div(&self.scale, &rhs.scale);
        proof {
            lemma_frac_congr(m@, frac_mul(self.offset@, rhs.scale@), rhs.offset@, rhs.offset@);
            assert(m.den() * rhs.offset.den() != 0) by (nonlinear_arith)
                requires m.den() > 0, rhs.offset.den() > 0;
            lemma_frac_eq_trans(offset@, frac_sub(m@, rhs.offset@), frac_sub(frac_mul(self.offset@, rhs.scale@), rhs.offset@));
            lemma_unique_prefix_fits(self.exponents@);
            lemma_negated_reduced(rhs.exponents@);
        }
        DerivedUnit {
            symbol,
            offset,
            scale,
            exponents: self.exponents.div(&rhs.exponents),
        }
    }

    /// Whether two derived units have the same symbol, offset, scale and dimension.
    pub fn same_as(&self, other: &DerivedUnit) -> (r: bool)
        requires
            self.wf(),
            other.wf(),
        ensures
            r == same_unit(self@, other@),
    {
        self.symbol == other.symbol && rat_eq(&self.offset, &other.offset) && rat_eq(
            &self.scale,
            &other.scale,
        ) && self.exponents == other.exponents
    }
}

/// A registered unit: base or derived.
pub enum Unit<'a> {
    Base(&'a BaseUnit),
    Derived(&'a DerivedUnit),
}

/// The registry of base and derived units, keyed by symbol.
#[derive(Debug, Clone)]
pub struct UnitSystem {
    base_units: Vec<BaseUnit>,
    derived_units: Vec<DerivedUnit>,
}

impl UnitSystem {
    pub closed spec fn bases(&self) -> Seq<BaseUnit> {
        self.base_units@
    }

    pub closed spec fn deriveds(&self) -> Seq<DerivedUnit> {
        self.derived_units@
    }

    pub open spec fn has_base(&self, s: Seq<char>) -> bool {
        exists|i: int| 0 <= i < self.bases().len() && (#[trigger] self.bases()[i])@ == s
    }

    pub open spec fn has_derived(&self, s: Seq<char>) -> bool {
        exists|i: int| 0 <= i < self.deriveds().len() && (#[trigger] self.deriveds()[i]).symbol@ == s
    }

    /// Symbols are unique within each kind, no symbol is of both kinds, and every derived
    /// unit is well-formed.
    pub open spec fn wf(&self) -> bool {
        &&& forall|i: int, j: int|
            0 <= i < j < self.bases().len() ==> (#[trigger] self.bases()[i])@ != (#[trigger] self.bases()[j])@
        &&& forall|i: int, j: int|
            0 <= i < j < self.deriveds().len() ==> (#[trigger] self.deriveds()[i]).symbol@
                != (#[trigger] self.deriveds()[j]).symbol@
        &&& forall|i: int| 0 <= i < self.deriveds().len() ==> (#[trigger] self.deriveds()[i]).wf()
        &&& forall|s: Seq<char>| #[trigger] self.has_base(s) ==> !self.has_derived(s)
    }

    /// The registered base unit of symbol `s`.
    pub open spec fn base_named(&self, s: Seq<char>) -> BaseUnit
        recommends
            self.has_base(s),
    {
        self.bases()[choose|i: int| 0 <= i < self.bases().len() && (#[trigger] self.bases()[i])@ == s]
    }

    /// The registered derived unit of symbol `s`.
    pub open spec fn derived_named(&self, s: Seq<char>) -> DerivedUnit
        recommends
            self.has_derived(s),
    {
        self.deriveds()[choose|i: int| 0 <= i < self.deriveds().len() && (#[trigger] self.deriveds()[i]).symbol@ == s]
    }

    /// An empty registry.
    pub fn new() -> (r: UnitSystem)
        ensures
            r.wf(),
            r.bases().len() == 0,
            r.deriveds().len() == 0,
    {
        UnitSystem { base_units: Vec::new(), derived_units: Vec::new() }
    }

    fn find_base(&self, symbol: &str) -> (r: Option<usize>)
        ensures
            r is Some ==> r->0 < self.bases().len() && self.bases()[r->0 as int]@ == symbol@,
            r is None ==> !self.has_base(symbol@),
    {
        let key = symbol.to_owned();
        let mut i: usize = 0;
        while i < self.base_units.len()
            invariant
                i <= self.base_units.len(),
                forall|k: int| 0 <= k < i ==> (#[trigger] self.bases()[k])@ != symbol@,
                key@ == symbol@,
            decreases self.base_units.len() - i,
        {
            if self.base_units[i].symbol == key {
                return Some(i);
            }
            i += 1;
        }
        None
    }

    fn find_derived(&self, symbol: &str) -> (r: Option<usize>)
        ensures
            r is Some ==> r->0 < self.deriveds().len() && self.deriveds()[r->0 as int].symbol@ == symbol@,
            r is None ==> !self.has_derived(symbol@),
    {
        let key = symbol.to_owned();
        let mut i: usize = 0;
        while i < self.derived_units.len()
            invariant
                i <= self.derived_units.len(),
                forall|k: int| 0 <= k < i ==> (#[trigger] self.deriveds()[k]).symbol@ != symbol@,
                key@ == symbol@,
            decreases self.derived_units.len() - i,
        {
            if self.derived_units[i].symbol == key {
                return Some(i);
            }
            i += 1;
        }
        None
    }

    /// The base unit registered under `symbol`, if any.
    pub fn lookup_base_unit(&self, symbol: &str) -> (r: Option<&BaseUnit>)
        requires
            self.wf(),
        ensures
            r is Some <==> self.has_base(symbol@),
            r is Some ==> *r->0 == self.base_named(symbol@) && r->0@ == symbol@,
    {
        match self.find_base(symbol) {
            Some(i) => {
                proof {
                    let j = choose|j: int| 0 <= j < self.bases().len() && (#[trigger] self.bases()[j])@ == symbol@;
                    if j != i {
                        if j < i {
                            assert(self.bases()[j]@ != self.bases()[i as int]@);
                        } else {
                            assert(self.bases()[i as int]@ != self.bases()[j]@);
                        }
                    }
                }
                Some(&self.base_units[i])
            },
            None => None,
        }
    }

    /// The derived unit registered under `symbol`, if any.
    pub fn lookup_derived_unit(&self, symbol: &str) -> (r: Option<&DerivedUnit>)
        requires
            self.wf(),
        ensures
            r is Some <==> self.has_derived(symbol@),
            r is Some ==> *r->0 == self.derived_named(symbol@) && r->0.symbol@ == symbol@ && r->0.wf(),
    {
        match self.find_derived(symbol) {
            Some(i) => {
                proof {
                    let j = choose|j: int| 0 <= j < self.deriveds().len() && (#[trigger] self.deriveds()[j]).symbol@ == symbol@;
                    if j != i {
                        if j < i {
                            assert(self.deriveds()[j].symbol@ != self.deriveds()[i as int].symbol@);
                        } else {
                            assert(self.deriveds()[i as int].symbol@ != self.deriveds()[j].symbol@);
                        }
                    }
                }
                Some(&self.derived_units[i])
            },
            None => None,
        }
    }

    /// The unit registered under `symbol`: a base unit first, else a derived unit.
    pub fn lookup_unit(&self, symbol: &str) -> (r: Option<Unit<'_>>)
        requires
            self.wf(),
        ensures
            r is None <==> !self.has_base(symbol@) && !self.has_derived(symbol@),
            r matches Some(Unit::Base(b)) ==> self.has_base(symbol@) && *b == self.base_named(symbol@) && b@ == symbol@,
            r matches Some(Unit::Derived(d)) ==> !self.has_base(symbol@) && self.has_derived(symbol@)
                && *d == self.derived_named(symbol@) && d.symbol@ == symbol@ && d.wf(),
    {
        match self.lookup_base_unit(symbol) {
            Some(b) => Some(Unit::Base(b)),
            None => match self.lookup_derived_unit(symbol) {
                Some(d) => Some(Unit::Derived(d)),
                None => None,
            },
        }
    }

    /// Registers a base unit, replacing one of the same symbol.
    pub fn push_base_unit(&mut self, unit: BaseUnit)
        requires
            old(self).wf(),
            !old(self).has_derived(unit@),
        ensures
            final(self).wf(),
            final(self).deriveds() == old(self).deriveds(),
            final(self).has_base(unit@),
            final(self).base_named(unit@)@ == unit@,
            forall|s: Seq<char>| s != unit@ ==> (final(self).has_base(s) <==> old(self).has_base(s)),
            !old(self).has_base(unit@) ==> final(self).bases() == old(self).bases().push(unit),
    {
        let ghost sym = unit@;
        let ghost old_sys = *self;
        match self.find_base(unit.symbol.as_str()) {
            Some(i) => {
                self.base_units.set(i, unit);
                proof {
                    assert(self.bases() == old_sys.bases().update(i as int, unit));
                    assert(self.bases()[i as int]@ == sym);
                    assert forall|s: Seq<char>| s != sym implies (self.has_base(s) <==> old_sys.has_base(s)) by {
                        if self.has_base(s) {
                            let k = choose|k: int| 0 <= k < self.bases().len() && (#[trigger] self.bases()[k])@ == s;
                            assert(old_sys.bases()[k]@ == s);
                        }
                        if old_sys.has_base(s) {
                            let k = choose|k: int| 0 <= k < old_sys.bases().len() && (#[trigger] old_sys.bases()[k])@ == s;
                            assert(self.bases()[k]@ == s);
                        }
                    }
                    assert forall|a: int, b: int| 0 <= a < b < self.bases().len() implies (#[trigger] self.bases()[a])@ != (#[trigger] self.bases()[b])@ by {
                        assert(old_sys.bases()[a]@ != old_sys.bases()[b]@);
                    }
                }
            },
            None => {
                self.base_units.push(unit);
                proof {
                    assert(self.bases() == old_sys.bases().push(unit));
                    let n = old_sys.bases().len() as int;
                    assert(self.bases()[n]@ == sym);
                    assert forall|s: Seq<char>| s != sym implies (self.has_base(s) <==> old_sys.has_base(s)) by {
                        if self.has_base(s) {
                            let k = choose|k: int| 0 <= k < self.bases().len() && (#[trigger] self.bases()[k])@ == s;
                            assert(old_sys.bases()[k]@ == s);
                        }
                        if old_sys.has_base(s) {
                            let k = choose|k: int| 0 <= k < old_sys.bases().len() && (#[trigger] old_sys.bases()[k])@ == s;
                            assert(self.bases()[k]@ == s);
                        }
                    }
                    assert forall|a: int, b: int| 0 <= a < b < self.bases().len() implies (#[trigger] self.bases()[a])@ != (#[trigger] self.bases()[b])@ by {
                        if b < n {
                            assert(old_sys.bases()[a]@ != old_sys.bases()[b]@);
                        } else {
                            assert(old_sys.bases()[a]@ != sym);
                        }
                    }
                }
            },
        }
        assert(self.deriveds() == old_sys.deriveds());
        assert forall|s: Seq<char>| #[trigger] self.has_base(s) implies !self.has_derived(s) by {
            if s != sym {
                assert(old_sys.has_base(s));
            }
        }
    }

    /// Registers a derived unit, replacing one of the same symbol.
    pub fn push_derived_unit(&mut self, unit: DerivedUnit)
        requires
            old(self).wf(),
            !old(self).has_base(unit.symbol@),
            unit.wf(),
        ensures
            final(self).wf(),
            final(self).bases() == old(self).bases(),
            final(self).has_derived(unit.symbol@),
            final(self).derived_named(unit.symbol@) == unit,
            forall|s: Seq<char>| s != unit.symbol@ ==> (final(self).has_derived(s) <==> old(self).has_derived(s)),
            !old(self).has_derived(unit.symbol@) ==> final(self).deriveds() == old(self).deriveds().push(unit),
    {
        let ghost sym = unit.symbol@;
        let ghost u = unit;
        let ghost old_sys = *self;
        let ghost idx: int;
        match self.find_derived(unit.symbol.as_str()) {
            Some(i) => {
                self.derived_units.set(i, unit);
                proof {
                    idx = i as int;
                    assert(self.deriveds() == old_sys.deriveds().update(i as int, u));
                    assert(self.deriveds()[i as int].symbol@ == sym);
                    assert forall|s: Seq<char>| s != sym implies (self.has_derived(s) <==> old_sys.has_derived(s)) by {
                        if self.has_derived(s) {
                            let k = choose|k: int| 0 <= k < self.deriveds().len() && (#[trigger] self.deriveds()[k]).symbol@ == s;
                            assert(old_sys.deriveds()[k].symbol@ == s);
                        }
                        if old_sys.has_derived(s) {
                            let k = choose|k: int| 0 <= k < old_sys.deriveds().len() && (#[trigger] old_sys.deriveds()[k]).symbol@ == s;
                            assert(self.deriveds()[k].symbol@ == s);
                        }
                    }
                    assert forall|a: int, b: int| 0 <= a < b < self.deriveds().len() implies (#[trigger] self.deriveds()[a]).symbol@ != (#[trigger] self.deriveds()[b]).symbol@ by {
                        assert(old_sys.deriveds()[a].symbol@ != old_sys.deriveds()[b].symbol@);
                    }
                    assert forall|a: int| 0 <= a < self.deriveds().len() implies (#[trigger] self.deriveds()[a]).wf() by {
                        if a != i {
                            assert(old_sys.deriveds()[a].wf());
                        }
                    }
                }
            },
            None => {
                self.derived_units.push(unit);
                proof {
                    idx = old_sys.deriveds().len() as int;
                    assert(self.deriveds() == old_sys.deriveds().push(u));
                    let n = old_sys.deriveds().len() as int;
                    assert(self.deriveds()[n].symbol@ == sym);
                    assert forall|s: Seq<char>| s != sym implies (self.has_derived(s) <==> old_sys.has_derived(s)) by {
                        if self.has_derived(s) {
                            let k = choose|k: int| 0 <= k < self.deriveds().len() && (#[trigger] self.deriveds()[k]).symbol@ == s;
                            assert(old_sys.deriveds()[k].symbol@ == s);
                        }
                        if old_sys.has_derived(s) {
                            let k = choose|k: int| 0 <= k < old_sys.deriveds().len() && (#[trigger] old_sys.deriveds()[k]).symbol@ == s;
                            assert(self.deriveds()[k].symbol@ == s);
                        }
                    }
                    assert forall|a: int, b: int| 0 <= a < b < self.deriveds().len() implies (#[trigger] self.deriveds()[a]).symbol@ != (#[trigger] self.deriveds()[b]).symbol@ by {
                        if b < n {
                            assert(old_sys.deriveds()[a].symbol@ != old_sys.deriveds()[b].symbol@);
                        } else {
                            assert(old_sys.deriveds()[a].symbol@ != sym);
                        }
                    }
                    assert forall|a: int| 0 <= a < self.deriveds().len() implies (#[trigger] self.deriveds()[a]).wf() by {
                        if a < n {
                            assert(old_sys.deriveds()[a].wf());
                        }
                    }
                }
            },
        }
        proof {
            assert(self.bases() == old_sys.bases());
            assert forall|s: Seq<char>| #[trigger] self.has_base(s) implies !self.has_derived(s) by {
                assert(old_sys.has_base(s));
                if s != sym {
                    assert(!old_sys.has_derived(s));
                }
            }
            assert(self.deriveds()[idx] == u);
            let j = choose|j: int| 0 <= j < self.deriveds().len() && (#[trigger] self.deriveds()[j]).symbol@ == sym;
            if j != idx {
                if j < idx {
                    assert(self.deriveds()[j].symbol@ != self.deriveds()[idx].symbol@);
                } else {
                    assert(self.deriveds()[idx].symbol@ != self.deriveds()[j].symbol@);
                }
            }
        }
    }
}

/// How entry `e` reads in the text of a dimension.
pub open spec fn entry_text(e: (Seq<char>, i32)) -> Seq<char> {
    if e.1 == 1 {
        e.0
    } else {
        seq!['('] + e.0 + seq!['^'] + decimal(e.1 as int) + seq![')']
    }
}

/// `order` lists every position of `s` once, by descending exponent, ties in list order.
pub open spec fn display_order(s: Seq<(Seq<char>, i32)>, order: Seq<usize>) -> bool {
    &&& order.len() == s.len()
    &&& forall|k: int| 0 <= k < order.len() ==> (#[trigger] order[k]) < s.len()
    &&& forall|x: int| 0 <= x < s.len() ==> #[trigger] appears(order, x)
    &&& forall|k: int|
        0 <= k < order.len() - 1 ==> s[order[k] as int].1 > s[order[k + 1] as int].1 || (s[order[k] as int].1
            == s[order[k + 1] as int].1 && (#[trigger] order[k]) < order[k + 1])
}

/// The texts of the entries of `s` at the first `n` positions of `order`, one after another.
pub open spec fn texts_in(s: Seq<(Seq<char>, i32)>, order: Seq<usize>, n: int) -> Seq<char>
    decreases n,
{
    if n <= 0 {
        Seq::empty()
    } else {
        texts_in(s, order, n - 1) + entry_text(s[order[n - 1] as int])
    }
}

/// The positions of `s` by descending exponent, ties in list order.
fn exponent_order(s: &UnitCombo) -> (r: Vec<usize>)
    ensures
        display_order(s@, r@),
{
    let mut out: Vec<usize> = Vec::new();
    let mut i: usize = 0;
    while i < s.0.len()
        invariant
            i <= s@.len(),
            out@.len() == i,
            forall|k: int| 0 <= k < out@.len() ==> (#[trigger] out@[k]) < i,
            forall|x: int| 0 <= x < i ==> #[trigger] appears(out@, x),
            forall|k: int|
                0 <= k < out@.len() - 1 ==> s@[out@[k] as int].1 > s@[out@[k + 1] as int].1 || (s@[out@[k] as int].1
                    == s@[out@[k + 1] as int].1 && (#[trigger] out@[k]) < out@[k + 1]),
        decreases s.0.len() - i,
    {
        let mut p: usize = 0;
        while p < out.len() && !(s.0[i].exponent > s.0[out[p]].exponent)
            invariant
                p <= out@.len(),
                i < s@.len(),
                forall|k: int| 0 <= k < out@.len() ==> (#[trigger] out@[k]) < i,
                forall|k: int| 0 <= k < p ==> s@[i as int].1 <= s@[#[trigger] out@[k] as int].1,
            decreases out.len() - p,
        {
            p += 1;
        }
        let ghost before = out@;
        out.insert(p, i);
        proof {
            before.insert_ensures(p as int, i);
            assert forall|x: int| 0 <= x < i + 1 implies #[trigger] appears(out@, x) by {
                if x == i {
                    assert(out@[p as int] == x);
                } else {
                    assert(appears(before, x));
                    let k = choose|k: int| 0 <= k < before.len() && before[k] == x;
                    if k < p {
                        assert(out@[k] == x);
                    } else {
                        assert(out@[k + 1] == x);
                    }
                }
            }
            assert forall|k: int|
                0 <= k < out@.len() - 1 implies s@[out@[k] as int].1 > s@[out@[k + 1] as int].1 || (s@[out@[k] as int].1
                    == s@[out@[k + 1] as int].1 && (#[trigger] out@[k]) < out@[k + 1]) by {
                if k + 1 < p {
                    assert(out@[k] == before[k] && out@[k + 1] == before[k + 1]);
                } else if k + 1 == p {
                    assert(out@[k] == before[k]);
                } else if k == p {
                    assert(out@[k + 1] == before[k]);
                } else {
                    assert(out@[k] == before[k - 1] && out@[k + 1] == before[k]);
                }
            }
        }
        i += 1;
    }
    out
}

impl UnitCombo {
    /// The dimension as text: entries by descending exponent (ties in list order), an
    /// exponent of one as the bare symbol, others as `(symbol^exponent)`; `1` when unitless.
    pub fn to_text(&self) -> (r: String)
        ensures
            self@.len() == 0 ==> r@ == seq!['1'],
            self@.len() > 0 ==> exists|order: Seq<usize>| #[trigger] display_order(self@, order) && r@ == texts_in(self@, order, self@.len() as int),
    {
        let n = self.0.len();
        if n == 0 {
            let r = "1".to_owned();
            proof {
                reveal_strlit("1");
                assert("1"@ =~= seq!['1']);
            }
            return r;
        }
        let order = exponent_order(self);
        let mut out = "".to_owned();
        proof {
            reveal_strlit("");
            assert(out@ =~= texts_in(self@, order@, 0));
        }
        let mut k: usize = 0;
        while k < n
            invariant
                k <= n,
                n == self@.len(),
                display_order(self@, order@),
                out@ == texts_in(self@, order@, k as int),
            decreases n - k,
        {
            let e = &self.0[order[k]];
            assert(self@[order@[k as int] as int] == e@);
            if e.exponent == 1 {
                out = concat(out.as_str(), e.unit.symbol.as_str());
            } else {
                let p = power_text(e.unit.symbol.as_str(), e.exponent);
                out = concat(out.as_str(), p.as_str());
            }
            k += 1;
        }
        out
    }
}

impl Default for UnitCombo {
    fn default() -> (r: UnitCombo)
        ensures
            r@ == Seq::<(Seq<char>, i32)>::empty(),
    {
        UnitCombo::new()
    }
}

impl Default for UnitSystem {
    fn default() -> (r: UnitSystem)
        ensures
            r.wf(),
            r.bases().len() == 0,
            r.deriveds().len() == 0,
    {
        UnitSystem::new()
    }
}

/// `t` is the text of dimension `s`, as `UnitCombo::to_text` writes it.
pub open spec fn dims_text(s: Seq<(Seq<char>, i32)>, t: Seq<char>) -> bool {
    ||| s.len() == 0 && t == seq!['1']
    ||| s.len() > 0 && exists|order: Seq<usize>| #[trigger] display_order(s, order) && t == texts_in(s, order, s.len() as int)
}

/// `r` is sorted by texts `ks` of its dimensions.
pub open spec fn sorted_by_dims(r: Seq<DerivedUnit>, ks: Seq<Seq<char>>) -> bool {
    &&& ks.len() == r.len()
    &&& forall|k: int| 0 <= k < r.len() ==> dims_text((#[trigger] r[k]).exponents@, ks[k])
    &&& forall|k: int| 0 <= k < ks.len() - 1 ==> !seq_lt(ks[k + 1], #[trigger] ks[k])
}

/// Some entry of `r` has symbol `s`.
pub open spec fn lists_base(r: Seq<BaseUnit>, s: Seq<char>) -> bool {
    exists|k: int| 0 <= k < r.len() && r[k]@ == s
}

/// Some entry of `r` is `d`.
pub open spec fn lists_derived(r: Seq<DerivedUnit>, d: DerivedView) -> bool {
    exists|k: int| 0 <= k < r.len() && r[k]@ == d
}

/// The text of base symbols joined by `, `.
pub open spec fn joined(bs: Seq<BaseUnit>) -> Seq<char>
    decreases bs.len(),
{
    if bs.len() == 0 {
        Seq::empty()
    } else if bs.len() == 1 {
        bs[0]@
    } else {
        joined(bs.drop_last()) + seq![',', ' '] + bs.last()@
    }
}

/// The summary line of derived unit `d` whose dimension reads `dims`:
/// `symbol = scale (dims) + offset`.
pub open spec fn derived_line(d: DerivedView, dims: Seq<char>) -> Seq<char> {
    d.0 + " = "@ + ratio_text(d.2.0, d.2.1) + " ("@ + dims + ") + "@ + ratio_text(d.1.0, d.1.1) + "\n"@
}

/// The summary lines of the first `n` derived units of `ds`, their dimensions reading `ts`.
pub open spec fn derived_lines(ds: Seq<DerivedUnit>, ts: Seq<Seq<char>>, n: int) -> Seq<char>
    decreases n,
{
    if n <= 0 {
        Seq::empty()
    } else {
        derived_lines(ds, ts, n - 1) + derived_line(ds[n - 1]@, ts[n - 1])
    }
}

/// The start of a summary listing base units `bs`.
pub open spec fn summary_head(bs: Seq<BaseUnit>) -> Seq<char> {
    "Base units:\n"@ + joined(bs) + "\n\nDerived units:\n"@
}

/// The lines of the first `k` units read only the first `k` texts.
proof fn lemma_lines_prefix(ds: Seq<DerivedUnit>, ts: Seq<Seq<char>>, ts0: Seq<Seq<char>>, k: int)
    requires
        0 <= k <= ts0.len(),
        ts0.len() <= ts.len(),
        forall|x: int| 0 <= x < ts0.len() ==> ts[x] == ts0[x],
    ensures
        derived_lines(ds, ts, k) == derived_lines(ds, ts0, k),
    decreases k,
{
    if k > 0 {
        lemma_lines_prefix(ds, ts, ts0, k - 1);
    }
}

impl UnitSystem {
    /// `r` holds the registered base units, each once, sorted by symbol.
    pub open spec fn sorted_bases(&self, r: Seq<BaseUnit>) -> bool {
        &&& r.len() == self.bases().len()
        &&& forall|k: int| 0 <= k < r.len() ==> self.has_base((#[trigger] r[k])@)
        &&& forall|i: int| 0 <= i < self.bases().len() ==> lists_base(r, (#[trigger] self.bases()[i])@)
        &&& forall|k: int| 0 <= k < r.len() - 1 ==> !seq_lt(r[k + 1]@, (#[trigger] r[k])@)
    }

    /// The registered base units, sorted by symbol.
    pub fn base_units(&self) -> (r: Vec<BaseUnit>)
        ensures
            self.sorted_bases(r@),
    {
        let mut keys: Vec<String> = Vec::new();
        let mut i: usize = 0;
        while i < self.base_units.len()
            invariant
                i <= self.base_units@.len(),
                keys@.len() == i,
                forall|k: int| 0 <= k < i ==> (#[trigger] keys@[k])@ == self.base_units@[k]@,
            decreases self.base_units.len() - i,
        {
            keys.push(self.base_units[i].symbol.clone());
            i += 1;
        }
        let pos = sorted_positions(&keys);
        let mut r: Vec<BaseUnit> = Vec::new();
        let mut k: usize = 0;
        while k < pos.len()
            invariant
                k <= pos@.len(),
                pos@.len() == keys@.len(),
                keys@.len() == self.base_units@.len(),
                forall|x: int| 0 <= x < pos@.len() ==> (#[trigger] pos@[x]) < keys@.len(),
                forall|x: int| 0 <= x < keys@.len() ==> (#[trigger] keys@[x])@ == self.base_units@[x]@,
                r@.len() == k,
                forall|x: int| 0 <= x < k ==> (#[trigger] r@[x])@ == self.base_units@[pos@[x] as int]@,
            decreases pos.len() - k,
        {
            r.push(self.base_units[pos[k]].duplicate());
            k += 1;
        }
        proof {
            assert forall|x: int| 0 <= x < r@.len() implies self.has_base((#[trigger] r@[x])@) by {
                let p = pos@[x] as int;
                assert(self.bases()[p]@ == r@[x]@);
            }
            assert forall|i: int| 0 <= i < self.bases().len() implies lists_base(r@, (#[trigger] self.bases()[i])@) by {
                assert(appears(pos@, i));
                let x = choose|x: int| 0 <= x < pos@.len() && pos@[x] == i;
                assert(r@[x]@ == self.bases()[i]@);
            }
            assert forall|x: int| 0 <= x < r@.len() - 1 implies !seq_lt(r@[x + 1]@, (#[trigger] r@[x])@) by {
                assert(r@[x]@ == keys@[pos@[x] as int]@);
                assert(r@[x + 1]@ == keys@[pos@[x + 1] as int]@);
            }
        }
        r
    }

    /// `r` holds the registered derived units, each once, sorted by the text of their dimensions.
    pub open spec fn sorted_deriveds(&self, r: Seq<DerivedUnit>) -> bool {
        &&& r.len() == self.deriveds().len()
        &&& forall|k: int| 0 <= k < r.len() ==> self.has_derived((#[trigger] r[k]).symbol@) && r[k].wf()
        &&& forall|i: int| 0 <= i < self.deriveds().len() ==> lists_derived(r, (#[trigger] self.deriveds()[i])@)
        &&& exists|ks: Seq<Seq<char>>| #[trigger] sorted_by_dims(r, ks)
    }

    /// The registered derived units, sorted by the text of their dimensions.
    pub fn derived_units(&self) -> (r: Vec<DerivedUnit>)
        requires
            self.wf(),
        ensures
            self.sorted_deriveds(r@),
    {
        let mut keys: Vec<String> = Vec::new();
        let mut i: usize = 0;
        while i < self.derived_units.len()
            invariant
                i <= self.derived_units@.len(),
                keys@.len() == i,
                forall|x: int| 0 <= x < i ==> dims_text(self.derived_units@[x].exponents@, (#[trigger] keys@[x])@),
            decreases self.derived_units.len() - i,
        {
            keys.push(self.derived_units[i].exponents.to_text());
            i += 1;
        }
        let pos = sorted_positions(&keys);
        let mut r: Vec<DerivedUnit> = Vec::new();
        let mut k: usize = 0;
        while k < pos.len()
            invariant
                self.wf(),
                k <= pos@.len(),
                pos@.len() == keys@.len(),
                keys@.len() == self.derived_units@.len(),
                forall|x: int| 0 <= x < pos@.len() ==> (#[trigger] pos@[x]) < keys@.len(),
                r@.len() == k,
                forall|x: int| 0 <= x < k ==> (#[trigger] r@[x])@ == self.derived_units@[pos@[x] as int]@ && r@[x].wf(),
                forall|x: int| 0 <= x < keys@.len() ==> dims_text(self.derived_units@[x].exponents@, (#[trigger] keys@[x])@),
                forall|x: int| 0 <= x < pos@.len() - 1 ==> !seq_lt(keys@[pos@[x + 1] as int]@, keys@[#[trigger] pos@[x] as int]@),
            decreases pos.len() - k,
        {
            assert(self.deriveds()[pos@[k as int] as int].wf());
            r.push(self.derived_units[pos[k]].duplicate());
            k += 1;
        }
        proof {
            assert forall|x: int| 0 <= x < r@.len() implies self.has_derived((#[trigger] r@[x]).symbol@) && r@[x].wf() by {
                let p = pos@[x] as int;
                assert(self.deriveds()[p].symbol@ == r@[x].symbol@);
            }
            assert forall|i: int| 0 <= i < self.deriveds().len() implies lists_derived(r@, (#[trigger] self.deriveds()[i])@) by {
                assert(appears(pos@, i));
                let x = choose|x: int| 0 <= x < pos@.len() && pos@[x] == i;
                assert(r@[x]@ == self.deriveds()[i]@);
            }
            let ks = Seq::new(r@.len(), |x: int| keys@[pos@[x] as int]@);
            assert forall|x: int| 0 <= x < r@.len() implies dims_text((#[trigger] r@[x]).exponents@, ks[x]) by {
                assert(dims_text(self.derived_units@[pos@[x] as int].exponents@, keys@[pos@[x] as int]@));
            }
            assert forall|x: int| 0 <= x < ks.len() - 1 implies !seq_lt(ks[x + 1], #[trigger] ks[x]) by {
                assert(!seq_lt(keys@[pos@[x + 1] as int]@, keys@[pos@[x] as int]@));
            }
            assert(sorted_by_dims(r@, ks));
        }
        r
    }

    /// `Base units:`, the base symbols in order joined by `, `, then `Derived units:` and one
    /// line `symbol = scale (dimension) + offset` per derived unit, in the order of
    /// `derived_units`.
    pub fn summary(&self) -> (r: String)
        requires
            self.wf(),
        ensures
            exists|bs: Seq<BaseUnit>, ds: Seq<DerivedUnit>, ts: Seq<Seq<char>>|
                #[trigger] self.sorted_bases(bs) && #[trigger] self.sorted_deriveds(ds) && ts.len() == ds.len()
                && (forall|k: int| 0 <= k < ds.len() ==> dims_text(ds[k].exponents@, #[trigger] ts[k]))
                && r@ == summary_head(bs) + #[trigger] derived_lines(ds, ts, ds.len() as int),
    {
        let bases = self.base_units();
        let deriveds = self.derived_units();
        let mut out = "Base units:\n".to_owned();
        proof {
            reveal_strlit("Base units:\n");
            assert(joined(bases@.take(0)) =~= Seq::<char>::empty());
            assert(out@ =~= "Base units:\n"@ + joined(bases@.take(0)));
        }
        let mut i: usize = 0;
        while i < bases.len()
            invariant
                i <= bases@.len(),
                out@ == "Base units:\n"@ + joined(bases@.take(i as int)),
            decreases bases.len() - i,
        {
            let ghost prev = out@;
            if i > 0 {
                out = concat(out.as_str(), ", ");
            }
            out = concat(out.as_str(), bases[i].symbol.as_str());
            proof {
                reveal_strlit(", ");
                assert(", "@ =~= seq![',', ' ']);
                let t = bases@.take(i + 1);
                assert(t.drop_last() =~= bases@.take(i as int));
                assert(t.last() == bases@[i as int]);
                if i == 0 {
                    assert(t.len() == 1);
                    assert(joined(t) == t[0]@);
                    assert(out@ =~= "Base units:\n"@ + joined(t));
                } else {
                    assert(out@ =~= "Base units:\n"@ + joined(t));
                }
            }
            i += 1;
        }
        assert(bases@.take(bases@.len() as int) =~= bases@);
        out = concat(out.as_str(), "\n\nDerived units:\n");
        let ghost head = summary_head(bases@);
        assert(out@ =~= head);
        let mut j: usize = 0;
        let ghost mut ts: Seq<Seq<char>> = Seq::empty();
        assert(out@ =~= head + derived_lines(deriveds@, ts, 0));
        while j < deriveds.len()
            invariant
                forall|k: int| 0 <= k < deriveds@.len() ==> (#[trigger] deriveds@[k]).wf(),
                ts.len() == j,
                j <= deriveds@.len(),
                forall|k: int| 0 <= k < j ==> dims_text(deriveds@[k].exponents@, #[trigger] ts[k]),
                out@ == head + derived_lines(deriveds@, ts, j as int),
            decreases deriveds.len() - j,
        {
            let ghost prev = out@;
            let ghost ts0 = ts;
            let d = &deriveds[j];
            assert(deriveds@[j as int].wf());
            let scale = rat_text(&d.scale);
            let offset = rat_text(&d.offset);
            let dims = d.exponents.to_text();
            let a = join3(d.symbol.as_str(), " = ", scale.as_str());
            let b = join3(a.as_str(), " (", dims.as_str());
            let c = join3(b.as_str(), ") + ", offset.as_str());
            let line = concat(c.as_str(), "\n");
            out = concat(out.as_str(), line.as_str());
            proof {
                ts = ts.push(dims@);
                assert(line@ =~= derived_line(d@, dims@));
                assert forall|k: int| 0 <= k < j implies derived_lines(deriveds@, ts, k) == derived_lines(deriveds@, ts0, k) by {
                    lemma_lines_prefix(deriveds@, ts, ts0, k);
                }
                lemma_lines_prefix(deriveds@, ts, ts0, j as int);
                assert(out@ =~= head + derived_lines(deriveds@, ts, j + 1));
                assert(dims_text(d.exponents@, ts[j as int]));
            }
            j += 1;
        }
        assert(self.sorted_bases(bases@));
        assert(self.sorted_deriveds(deriveds@));
        out
    }
}

} // verus!
