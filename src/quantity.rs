use crate::rational::{
    frac_add, frac_div, frac_eq, frac_mul, frac_sub, rat_add, rat_div, rat_mul, rat_sub, Rational,
};
use crate::units::{
    display_order, texts_in,
    is_reduced, no_min, same_entries, same_unit, sum_fits, composed_div, composed_mul, exp_of,
    lemma_concat_prefix_fits, lemma_negated_reduced, lemma_unique_prefix_fits, DerivedUnit,
    DerivedView, UnitCombo,
};
use vstd::prelude::*;

pub use crate::units;

verus! {

/// Why an arithmetic operation on quantities failed.
#[derive(Debug, Clone, Copy, PartialEq, Eq)]
pub enum QuantityError {
    IncompatibleUnits,
    UnknownUnit,
}

/// The views of a list of derived units.
pub open spec fn views(s: Seq<DerivedUnit>) -> Seq<DerivedView> {
    s.map_values(|d: DerivedUnit| d@)
}

/// The display preferences of `a` followed by those of `b` that `a` does not already hold.
pub open spec fn merge_prefs(a: Seq<DerivedView>, b: Seq<DerivedView>) -> Seq<DerivedView>
    decreases b.len(),
{
    if b.len() == 0 {
        a
    } else {
        let m = merge_prefs(a, b.drop_last());
        if exists|i: int| 0 <= i < m.len() && same_unit(#[trigger] m[i], b.last()) {
            m
        } else {
            m.push(b.last())
        }
    }
}

/// Whether derived unit `d` displays values of dimension `unit`.
pub open spec fn displays(d: DerivedView, unit: Seq<(Seq<char>, i32)>) -> bool {
    same_entries(d.3, unit)
}

/// The user-facing value of base-unit value `n` in derived unit `d`: `(n - offset) / scale`.
pub open spec fn value_in(n: (int, int), d: DerivedView) -> (int, int) {
    frac_div(frac_sub(n, d.1), d.2)
}

/// Dimensions `a` and `b` combine with exponents in range: `a` times `b` for sign one,
/// `a` divided by `b` for sign minus one.
#[verifier::opaque]
pub open spec fn pair_fits(a: Seq<(Seq<char>, i32)>, b: Seq<(Seq<char>, i32)>, sign: int) -> bool {
    sum_fits(a, b, sign) && (sign == -1 ==> no_min(b))
}

/// Every pairing of a display unit of `l` with one of `r` combines in range.
pub open spec fn prefs_fit_views(l: Seq<DerivedView>, r: Seq<DerivedView>, sign: int) -> bool {
    forall|i: int, j: int| 0 <= i < l.len() && 0 <= j < r.len() ==> pair_fits((#[trigger] l[i]).3, (#[trigger] r[j]).3, sign)
}

/// A number, its dimension, and the derived units to display it in.
#[derive(Debug, Clone)]
pub struct Quantity {
    pub number: Rational,
    pub unit: UnitCombo,
    pub use_derived_unit: Vec<DerivedUnit>,
}

/// A quantity as plain values: number, dimension and display units.
pub type QuantityView = ((int, int), Seq<(Seq<char>, i32)>, Seq<DerivedView>);

impl View for Quantity {
    type V = QuantityView;

    open spec fn view(&self) -> QuantityView {
        (self.number@, self.unit@, views(self.use_derived_unit@))
    }
}

impl Quantity {
    /// The number is well-formed, the dimension reduced, and every display unit well-formed.
    pub open spec fn wf(&self) -> bool {
        &&& self.number.wf()
        &&& is_reduced(self.unit@)
        &&& forall|i: int| 0 <= i < self.use_derived_unit@.len() ==> (#[trigger] self.use_derived_unit@[i]).wf()
    }

    pub open spec fn prefs(&self) -> Seq<DerivedView> {
        views(self.use_derived_unit@)
    }

    /// Every pairing of display units of `self` and `rhs` has exponents that combine in range.
    pub open spec fn prefs_fit(&self, rhs: &Quantity, sign: int) -> bool {
        forall|i: int, j: int|
            0 <= i < self.use_derived_unit@.len() && 0 <= j < rhs.use_derived_unit@.len() ==> pair_fits(
                (#[trigger] self.use_derived_unit@[i]).exponents@,
                (#[trigger] rhs.use_derived_unit@[j]).exponents@,
                sign,
            )
    }

    /// A quantity with no display preferences.
    pub fn new(number: Rational, unit: UnitCombo) -> (r: Quantity)
        ensures
            r.number == number,
            r.unit == unit,
            r.use_derived_unit@.len() == 0,
    {
        Quantity { number, unit, use_derived_unit: Vec::new() }
    }

    pub fn duplicate(&self) -> (r: Quantity)
        ensures
            r@ == self@,
            self.wf() ==> r.wf(),
    {
        Quantity {
            number: self.number.duplicate(),
            unit: self.unit.duplicate(),
            use_derived_unit: copy_prefs(&self.use_derived_unit),
        }
    }

    /// The value as the user sees it: reversed through the first display unit whose dimension
    /// is the quantity's, or the base-unit value if there is none. `None` when that display
    /// unit has scale zero, so that no value is shown through it.
    pub fn number_in_derived_unit(&self) -> (r: Option<Rational>)
        requires
            self.wf(),
        ensures
            r is Some ==> r->0.wf(),
            (forall|i: int| 0 <= i < self.prefs().len() ==> !displays(#[trigger] self.prefs()[i], self.unit@))
                ==> r is Some && r->0@ == self.number@,
            forall|i: int|
                0 <= i < self.prefs().len() && displays(#[trigger] self.prefs()[i], self.unit@) && (forall|k: int|
                    0 <= k < i ==> !displays(self.prefs()[k], self.unit@)) ==> (r is None <==> self.prefs()[i].2.0 == 0)
                    && (r is Some ==> frac_eq(r->0@, value_in(self.number@, self.prefs()[i]))),
    {
        let mut i: usize = 0;
        while i < self.use_derived_unit.len()
            invariant
                i <= self.use_derived_unit.len(),
                self.wf(),
                forall|k: int| 0 <= k < i ==> !displays(#[trigger] self.prefs()[k], self.unit@),
            decreases self.use_derived_unit.len() - i,
        {
            let d = &self.use_derived_unit[i];
            assert(d.wf());
            if d.exponents == self.unit {
                proof {
                    assert(self.prefs()[i as int] == d@);
                    assert forall|j: int|
                        0 <= j < self.prefs().len() && displays(#[trigger] self.prefs()[j], self.unit@) && (forall|k: int|
                            0 <= k < j ==> !displays(self.prefs()[k], self.unit@)) implies j == i by {
                        if j > i {
                            assert(!displays(self.prefs()[i as int], self.unit@));
                        }
                    }
                }
                if d.scale.is_zero() {
                    return None;
                }
                let diff = rat_sub(&self.number, &d.offset);
                let r = rat_div(&diff, &d.scale);
                proof {
                    assert(diff.den() * d.scale.num() != 0) by (nonlinear_arith)
                        requires diff.den() > 0, d.scale.num() != 0;
                    crate::rational::lemma_frac_congr(diff@, frac_sub(self.number@, d.offset@), d.scale@, d.scale@);
                    crate::rational::lemma_frac_eq_trans(r@, frac_div(diff@, d.scale@), value_in(self.number@, d@));
                }
                return Some(r);
            }
            i += 1;
        }
        Some(self.number.duplicate())
    }

    /// The unit the quantity is shown in: the symbol of the first display unit whose dimension
    /// is the quantity's, else the text of the dimension.
    pub fn display_unit(&self) -> (r: String)
        requires
            self.wf(),
        ensures
            forall|i: int|
                0 <= i < self.prefs().len() && displays(#[trigger] self.prefs()[i], self.unit@) && (forall|k: int|
                    0 <= k < i ==> !displays(self.prefs()[k], self.unit@)) ==> r@ == self.prefs()[i].0,
            (forall|i: int| 0 <= i < self.prefs().len() ==> !displays(#[trigger] self.prefs()[i], self.unit@))
                ==> (self.unit@.len() == 0 ==> r@ == seq!['1']) && (self.unit@.len() > 0 ==> exists|order: Seq<usize>|
                #[trigger] display_order(self.unit@, order) && r@ == texts_in(self.unit@, order, self.unit@.len() as int)),
    {
        let mut i: usize = 0;
        while i < self.use_derived_unit.len()
            invariant
                i <= self.use_derived_unit.len(),
                self.wf(),
                forall|k: int| 0 <= k < i ==> !displays(#[trigger] self.prefs()[k], self.unit@),
            decreases self.use_derived_unit.len() - i,
        {
            let d = &self.use_derived_unit[i];
            if d.exponents == self.unit {
                proof {
                    assert(self.prefs()[i as int] == d@);
                    assert forall|j: int|
                        0 <= j < self.prefs().len() && displays(#[trigger] self.prefs()[j], self.unit@) && (forall|k: int|
                            0 <= k < j ==> !displays(self.prefs()[k], self.unit@)) implies d.symbol@ == self.prefs()[j].0 by {
                        if j > i {
                            assert(!displays(self.prefs()[i as int], self.unit@));
                        }
                    }
                }
                return d.symbol.clone();
            }
            i += 1;
        }
        self.unit.to_text()
    }

    /// Whether every display unit has a non-zero scale.
    pub fn scales_nonzero(&self) -> (r: bool)
        ensures
            r == forall|j: int| 0 <= j < self.prefs().len() ==> (#[trigger] self.prefs()[j]).2.0 != 0,
    {
        let mut j: usize = 0;
        while j < self.use_derived_unit.len()
            invariant
                j <= self.use_derived_unit.len(),
                forall|k: int| 0 <= k < j ==> (#[trigger] self.prefs()[k]).2.0 != 0,
            decreases self.use_derived_unit.len() - j,
        {
            assert(self.prefs()[j as int] == self.use_derived_unit@[j as int]@);
            if self.use_derived_unit[j].scale.is_zero() {
                return false;
            }
            j += 1;
        }
        true
    }
}

fn copy_prefs(v: &Vec<DerivedUnit>) -> (r: Vec<DerivedUnit>)
    ensures
        views(r@) == views(v@),
        r@.len() == v@.len(),
        forall|i: int| 0 <= i < v@.len() ==> (#[trigger] r@[i]).wf() == v@[i].wf(),
{
    let mut r: Vec<DerivedUnit> = Vec::new();
    let mut i: usize = 0;
    while i < v.len()
        invariant
            i <= v.len(),
            r@.len() == i,
            forall|k: int| 0 <= k < i ==> #[trigger] r@[k]@ == v@[k]@,
            forall|k: int| 0 <= k < i ==> (#[trigger] r@[k]).wf() == v@[k].wf(),
        decreases v.len() - i,
    {
        let d = v[i].duplicate();
        r.push(d);
        i += 1;
    }
    assert(views(r@) =~= views(v@));
    r
}

/// Whether `list` holds a unit that agrees with `d`.
fn contains_unit(list: &Vec<DerivedUnit>, d: &DerivedUnit) -> (r: bool)
    requires
        d.wf(),
        forall|i: int| 0 <= i < list@.len() ==> (#[trigger] list@[i]).wf(),
    ensures
        r == exists|i: int| 0 <= i < list@.len() && same_unit(#[trigger] views(list@)[i], d@),
{
    let mut i: usize = 0;
    while i < list.len()
        invariant
            i <= list.len(),
            d.wf(),
            forall|k: int| 0 <= k < list@.len() ==> (#[trigger] list@[k]).wf(),
            forall|k: int| 0 <= k < i ==> !same_unit(#[trigger] views(list@)[k], d@),
        decreases list.len() - i,
    {
        if list[i].same_as(d) {
            assert(views(list@)[i as int] == list@[i as int]@);
            return true;
        }
        i += 1;
    }
    false
}

/// The merged display preferences of two operands of `+` or `-`.
fn merge(a: &Vec<DerivedUnit>, b: &Vec<DerivedUnit>) -> (r: Vec<DerivedUnit>)
    requires
        forall|i: int| 0 <= i < a@.len() ==> (#[trigger] a@[i]).wf(),
        forall|i: int| 0 <= i < b@.len() ==> (#[trigger] b@[i]).wf(),
    ensures
        views(r@) == merge_prefs(views(a@), views(b@)),
        forall|i: int| 0 <= i < r@.len() ==> (#[trigger] r@[i]).wf(),
{
    let mut out = copy_prefs(a);
    let mut i: usize = 0;
    assert(views(b@).take(0) =~= Seq::<DerivedView>::empty());
    while i < b.len()
        invariant
            i <= b.len(),
            forall|k: int| 0 <= k < b@.len() ==> (#[trigger] b@[k]).wf(),
            forall|k: int| 0 <= k < out@.len() ==> (#[trigger] out@[k]).wf(),
            views(out@) == merge_prefs(views(a@), views(b@).take(i as int)),
        decreases b.len() - i,
    {
        let d = &b[i];
        assert(d.wf());
        let ghost t = views(b@).take(i + 1);
        proof {
            assert(t.drop_last() == views(b@).take(i as int));
            assert(t.last() == d@);
        }
        if !contains_unit(&out, d) {
            let c = d.duplicate();
            let ghost prev = out@;
            out.push(c);
            proof {
                assert(out@ == prev.push(c));
                assert(views(out@) =~= views(prev).push(d@));
            }
        }
        i += 1;
    }
    assert(views(b@).take(b@.len() as int) == views(b@));
    out
}

impl Quantity {
    /// The sum: defined when the dimensions hold the same entries; the display
    /// preferences are those of `self`, then those of `rhs` not already present.
    pub fn add(self, rhs: Quantity) -> (r: Result<Quantity, QuantityError>)
        requires
            self.wf(),
            rhs.wf(),
        ensures
            r is Err <==> !same_entries(self.unit@, rhs.unit@),
            r is Err ==> r == Err::<Quantity, QuantityError>(QuantityError::IncompatibleUnits),
            r is Ok ==> r->Ok_0.wf() && frac_eq(r->Ok_0.number@, frac_add(self.number@, rhs.number@))
                && r->Ok_0.unit@ == self.unit@ && r->Ok_0.prefs() == merge_prefs(self.prefs(), rhs.prefs()),
    {
        if self.unit != rhs.unit {
            return Err(QuantityError::IncompatibleUnits);
        }
        let number = rat_add(&self.number, &rhs.number);
        let use_derived_unit = merge(&self.use_derived_unit, &rhs.use_derived_unit);
        Ok(Quantity { number, unit: self.unit, use_derived_unit })
    }

    /// The difference, under the same rules as `add`.
    pub fn sub(self, rhs: Quantity) -> (r: Result<Quantity, QuantityError>)
        requires
            self.wf(),
            rhs.wf(),
        ensures
            r is Err <==> !same_entries(self.unit@, rhs.unit@),
            r is Err ==> r == Err::<Quantity, QuantityError>(QuantityError::IncompatibleUnits),
            r is Ok ==> r->Ok_0.wf() && frac_eq(r->Ok_0.number@, frac_sub(self.number@, rhs.number@))
                && r->Ok_0.unit@ == self.unit@ && r->Ok_0.prefs() == merge_prefs(self.prefs(), rhs.prefs()),
    {
        if self.unit != rhs.unit {
            return Err(QuantityError::IncompatibleUnits);
        }
        let number = rat_sub(&self.number, &rhs.number);
        let use_derived_unit = merge(&self.use_derived_unit, &rhs.use_derived_unit);
        Ok(Quantity { number, unit: self.unit, use_derived_unit })
    }
}

proof fn lemma_cross_index(i: int, j: int, a: int, b: int, n: int)
    requires
        0 <= a < i,
        0 <= b < n,
        0 <= j,
    ensures
        a * n + b < i * n + j,
        0 <= a * n + b,
        i * n + n == (i + 1) * n,
{
    assert(a * n + b < i * n + j) by (nonlinear_arith)
        requires 0 <= a < i, 0 <= b < n, 0 <= j;
    assert(0 <= a * n + b) by (nonlinear_arith)
        requires 0 <= a, 0 <= b, 0 <= n;
    assert(i * n + n == (i + 1) * n) by (nonlinear_arith);
}

impl Quantity {
    /// Whether `self` times (or divided by) `rhs` keeps every exponent, of the dimension
    /// and of every composite display unit, in range.
    pub fn can_combine(&self, rhs: &Quantity, divide: bool) -> (r: bool)
        requires
            self.wf(),
            rhs.wf(),
        ensures
            r == (sum_fits(self.unit@, rhs.unit@, if divide { -1 } else { 1 }) && (divide ==> no_min(rhs.unit@))
                && self.prefs_fit(rhs, if divide { -1 } else { 1 })),
    {
        if !self.unit.sum_fits(&rhs.unit, divide) {
            return false;
        }
        let ghost sign: int = if divide { -1 } else { 1 };
        let mut i: usize = 0;
        while i < self.use_derived_unit.len()
            invariant
                i <= self.use_derived_unit.len(),
                self.wf(),
                rhs.wf(),
                sign == if divide { -1int } else { 1int },
                sum_fits(self.unit@, rhs.unit@, sign) && (divide ==> no_min(rhs.unit@)),
                forall|a: int, b: int|
                    0 <= a < i && 0 <= b < rhs.use_derived_unit@.len() ==> pair_fits(
                        (#[trigger] self.use_derived_unit@[a]).exponents@,
                        (#[trigger] rhs.use_derived_unit@[b]).exponents@,
                        sign,
                    ),
            decreases self.use_derived_unit.len() - i,
        {
            let mut j: usize = 0;
            #[verifier::loop_isolation(false)]
            while j < rhs.use_derived_unit.len()
                invariant
                    i < self.use_derived_unit.len(),
                    j <= rhs.use_derived_unit.len(),
                    forall|b: int|
                        0 <= b < j ==> pair_fits(
                            self.use_derived_unit@[i as int].exponents@,
                            (#[trigger] rhs.use_derived_unit@[b]).exponents@,
                            sign,
                        ),
                decreases rhs.use_derived_unit.len() - j,
            {
                let a = &self.use_derived_unit[i];
                let b = &rhs.use_derived_unit[j];
                assert(a.wf() && b.wf());
                let ok = a.exponents.sum_fits(&b.exponents, divide);
                proof {
                    reveal(pair_fits);
                }
                if !ok {
                    return false;
                }
                j += 1;
            }
            assert forall|a: int, b: int|
                0 <= a < i + 1 && 0 <= b < rhs.use_derived_unit@.len() implies pair_fits(
                    (#[trigger] self.use_derived_unit@[a]).exponents@,
                    (#[trigger] rhs.use_derived_unit@[b]).exponents@,
                    sign,
                ) by {
                if a == i {
                }
            }
            i += 1;
        }
        true
    }

    /// The product: dimensions multiplied, and as display preferences every display unit of
    /// `self` composed with every one of `rhs`, in row order.
    pub fn mul(self, rhs: Quantity) -> (r: Quantity)
        requires
            self.wf(),
            rhs.wf(),
            sum_fits(self.unit@, rhs.unit@, 1),
            self.prefs_fit(&rhs, 1),
        ensures
            r.wf(),
            frac_eq(r.number@, frac_mul(self.number@, rhs.number@)),
            forall|u: Seq<char>| #[trigger] exp_of(r.unit@, u) == exp_of(self.unit@, u) + exp_of(rhs.unit@, u),
            r.prefs().len() == self.prefs().len() * rhs.prefs().len(),
            forall|a: int, b: int|
                0 <= a < self.prefs().len() && 0 <= b < rhs.prefs().len() ==> composed_mul(
                    #[trigger] self.prefs()[a],
                    #[trigger] rhs.prefs()[b],
                    r.prefs()[a * rhs.prefs().len() + b],
                ),
    {
        let number = rat_mul(&self.number, &rhs.number);
        proof {
            lemma_unique_prefix_fits(self.unit@);
            lemma_concat_prefix_fits(self.unit@, rhs.unit@);
        }
        let unit = self.unit.mul(&rhs.unit);
        let n = rhs.use_derived_unit.len();
        let ghost lp = self.prefs();
        let ghost rp = rhs.prefs();
        let mut out: Vec<DerivedUnit> = Vec::new();
        let mut i: usize = 0;
        while i < self.use_derived_unit.len()
            invariant
                i <= self.use_derived_unit.len(),
                self.wf(),
                rhs.wf(),
                self.prefs_fit(&rhs, 1),
                n == rhs.use_derived_unit@.len(),
                lp == self.prefs(),
                rp == rhs.prefs(),
                out@.len() == i * n,
                forall|k: int| 0 <= k < out@.len() ==> (#[trigger] out@[k]).wf(),
                forall|a: int, b: int|
                    0 <= a < i && 0 <= b < n ==> composed_mul(#[trigger] lp[a], #[trigger] rp[b], views(out@)[a * n + b]),
            decreases self.use_derived_unit.len() - i,
        {
            let mut j: usize = 0;
            while j < n
                invariant
                    i < self.use_derived_unit.len(),
                    j <= n,
                    self.wf(),
                    rhs.wf(),
                    self.prefs_fit(&rhs, 1),
                    n == rhs.use_derived_unit@.len(),
                    lp == self.prefs(),
                    rp == rhs.prefs(),
                    out@.len() == i * n + j,
                    forall|k: int| 0 <= k < out@.len() ==> (#[trigger] out@[k]).wf(),
                    forall|a: int, b: int|
                        0 <= a < i && 0 <= b < n ==> composed_mul(#[trigger] lp[a], #[trigger] rp[b], views(out@)[a * n + b]),
                    forall|b: int| 0 <= b < j ==> composed_mul(lp[i as int], #[trigger] rp[b], views(out@)[i * n + b]),
                decreases n - j,
            {
                let a = &self.use_derived_unit[i];
                let b = &rhs.use_derived_unit[j];
                assert(a.wf() && b.wf());
                assert(pair_fits(self.use_derived_unit@[i as int].exponents@, rhs.use_derived_unit@[j as int].exponents@, 1));
                proof {
                    reveal(pair_fits);
                }
                let c = a.mul(b);
                let ghost prev = out@;
                out.push(c);
                proof {
                    assert(lp[i as int] == a@);
                    assert(rp[j as int] == b@);
                    assert forall|x: int, y: int| 0 <= x < i && 0 <= y < n implies composed_mul(#[trigger] lp[x], #[trigger] rp[y], views(out@)[x * n + y]) by {
                        lemma_cross_index(i as int, j as int, x, y, n as int);
                        assert(views(out@)[x * n + y] == views(prev)[x * n + y]);
                    }
                    assert forall|y: int| 0 <= y < j + 1 implies composed_mul(lp[i as int], #[trigger] rp[y], views(out@)[i * n + y]) by {
                        if y < j {
                            assert(views(out@)[i * n + y] == views(prev)[i * n + y]);
                        } else {
                            assert(views(out@)[i * n + y] == c@);
                        }
                    }
                }
                j += 1;
            }
            proof {
                assert(i * n + n == (i + 1) * n) by (nonlinear_arith);
                assert forall|x: int, y: int| 0 <= x < i + 1 && 0 <= y < n implies composed_mul(#[trigger] lp[x], #[trigger] rp[y], views(out@)[x * n + y]) by {
                    if x == i {
                    }
                }
            }
            i += 1;
        }
        Quantity { number, unit, use_derived_unit: out }
    }

    /// The quotient: dimensions divided, and as display preferences every display unit of
    /// `self` divided by every one of `rhs`, in row order. The divisor is not zero.
    pub fn div(self, rhs: Quantity) -> (r: Quantity)
        requires
            self.wf(),
            rhs.wf(),
            rhs.number.num() != 0,
            forall|j: int| 0 <= j < rhs.prefs().len() ==> (#[trigger] rhs.prefs()[j]).2.0 != 0,
            sum_fits(self.unit@, rhs.unit@, -1),
            no_min(rhs.unit@),
            self.prefs_fit(&rhs, -1),
        ensures
            r.wf(),
            frac_eq(r.number@, frac_div(self.number@, rhs.number@)),
            forall|u: Seq<char>| #[trigger] exp_of(r.unit@, u) == exp_of(self.unit@, u) - exp_of(rhs.unit@, u),
            r.prefs().len() == self.prefs().len() * rhs.prefs().len(),
            forall|a: int, b: int|
                0 <= a < self.prefs().len() && 0 <= b < rhs.prefs().len() ==> composed_div(
                    #[trigger] self.prefs()[a],
                    #[trigger] rhs.prefs()[b],
                    r.prefs()[a * rhs.prefs().len() + b],
                ),
    {
        let number = rat_div(&self.number, &rhs.number);
        proof {
            lemma_unique_prefix_fits(self.unit@);
            lemma_negated_reduced(rhs.unit@);
        }
        let unit = self.unit.div(&rhs.unit);
        let n = rhs.use_derived_unit.len();
        let ghost lp = self.prefs();
        let ghost rp = rhs.prefs();
        let mut out: Vec<DerivedUnit> = Vec::new();
        let mut i: usize = 0;
        while i < self.use_derived_unit.len()
            invariant
                i <= self.use_derived_unit.len(),
                self.wf(),
                rhs.wf(),
                self.prefs_fit(&rhs, -1),
                forall|x: int| 0 <= x < rhs.prefs().len() ==> (#[trigger] rhs.prefs()[x]).2.0 != 0,
                n == rhs.use_derived_unit@.len(),
                lp == self.prefs(),
                rp == rhs.prefs(),
                out@.len() == i * n,
                forall|k: int| 0 <= k < out@.len() ==> (#[trigger] out@[k]).wf(),
                forall|a: int, b: int|
                    0 <= a < i && 0 <= b < n ==> composed_div(#[trigger] lp[a], #[trigger] rp[b], views(out@)[a * n + b]),
            decreases self.use_derived_unit.len() - i,
        {
            let mut j: usize = 0;
            while j < n
                invariant
                    i < self.use_derived_unit.len(),
                    j <= n,
                    self.wf(),
                    rhs.wf(),
                    self.prefs_fit(&rhs, -1),
                    forall|x: int| 0 <= x < rhs.prefs().len() ==> (#[trigger] rhs.prefs()[x]).2.0 != 0,
                forall|x: int| 0 <= x < rhs.prefs().len() ==> (#[trigger] rhs.prefs()[x]).2.0 != 0,
                    n == rhs.use_derived_unit@.len(),
                    lp == self.prefs(),
                    rp == rhs.prefs(),
                    out@.len() == i * n + j,
                    forall|k: int| 0 <= k < out@.len() ==> (#[trigger] out@[k]).wf(),
                    forall|a: int, b: int|
                        0 <= a < i && 0 <= b < n ==> composed_div(#[trigger] lp[a], #[trigger] rp[b], views(out@)[a * n + b]),
                    forall|b: int| 0 <= b < j ==> composed_div(lp[i as int], #[trigger] rp[b], views(out@)[i * n + b]),
                decreases n - j,
            {
                let a = &self.use_derived_unit[i];
                let b = &rhs.use_derived_unit[j];
                assert(a.wf() && b.wf());
                assert(pair_fits(self.use_derived_unit@[i as int].exponents@, rhs.use_derived_unit@[j as int].exponents@, -1));
                proof {
                    reveal(pair_fits);
                }
                assert(rhs.prefs()[j as int] == b@);
                let c = a.div(b);
                let ghost prev = out@;
                out.push(c);
                proof {
                    assert(lp[i as int] == a@);
                    assert(rp[j as int] == b@);
                    assert forall|x: int, y: int| 0 <= x < i && 0 <= y < n implies composed_div(#[trigger] lp[x], #[trigger] rp[y], views(out@)[x * n + y]) by {
                        lemma_cross_index(i as int, j as int, x, y, n as int);
                        assert(views(out@)[x * n + y] == views(prev)[x * n + y]);
                    }
                    assert forall|y: int| 0 <= y < j + 1 implies composed_div(lp[i as int], #[trigger] rp[y], views(out@)[i * n + y]) by {
                        if y < j {
                            assert(views(out@)[i * n + y] == views(prev)[i * n + y]);
                        } else {
                            assert(views(out@)[i * n + y] == c@);
                        }
                    }
                }
                j += 1;
            }
            proof {
                assert(i * n + n == (i + 1) * n) by (nonlinear_arith);
                assert forall|x: int, y: int| 0 <= x < i + 1 && 0 <= y < n implies composed_div(#[trigger] lp[x], #[trigger] rp[y], views(out@)[x * n + y]) by {
                    if x == i {
                    }
                }
            }
            i += 1;
        }
        Quantity { number, unit, use_derived_unit: out }
    }
}

pub proof fn lemma_prefs_fit_views(a: &Quantity, b: &Quantity, sign: int)
    ensures
        a.prefs_fit(b, sign) == prefs_fit_views(a.prefs(), b.prefs(), sign),
{
    if a.prefs_fit(b, sign) {
        assert forall|i: int, j: int| 0 <= i < a.prefs().len() && 0 <= j < b.prefs().len() implies pair_fits(
            (#[trigger] a.prefs()[i]).3,
            (#[trigger] b.prefs()[j]).3,
            sign,
        ) by {
            assert(a.prefs()[i].3 == a.use_derived_unit@[i].exponents@);
            assert(b.prefs()[j].3 == b.use_derived_unit@[j].exponents@);
        }
    }
    if prefs_fit_views(a.prefs(), b.prefs(), sign) {
        assert forall|i: int, j: int|
            0 <= i < a.use_derived_unit@.len() && 0 <= j < b.use_derived_unit@.len() implies pair_fits(
            (#[trigger] a.use_derived_unit@[i]).exponents@,
            (#[trigger] b.use_derived_unit@[j]).exponents@,
            sign,
        ) by {
            assert(a.prefs()[i].3 == a.use_derived_unit@[i].exponents@);
            assert(b.prefs()[j].3 == b.use_derived_unit@[j].exponents@);
        }
    }
}

} // verus!
