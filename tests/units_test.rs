use unitdc::linear_system::{transpose, LinearSystem};
use unitdc::quantity::units::{BaseUnit, UnitCombo, UnitExponent, UnitSystem};
use unitdc::rational::Rational;

fn e(symbol: &str, exponent: i32) -> UnitExponent {
    UnitExponent {
        unit: BaseUnit {
            symbol: symbol.to_string(),
        },
        exponent,
    }
}

#[test]
fn product_then_quotient_gives_back_the_dimension() {
    let a = UnitCombo(vec![e("m", 1), e("s", -2)]);
    let b = UnitCombo(vec![e("s", 1), e("kg", 3)]);
    let ab = a.mul(&b);
    assert_eq!(ab, UnitCombo(vec![e("kg", 3), e("m", 1), e("s", -1)]));
    assert_eq!(ab.div(&b), a);
    assert_eq!(a.mul(&b), b.mul(&a));
    assert!(a.div(&a).is_unitless());
}

#[test]
fn reduce_merges_and_drops_zero() {
    let c = UnitCombo(vec![e("m", 1), e("s", 1), e("m", 2), e("s", -1)]);
    let r = c.reduce();
    assert_eq!(r.0.len(), 1);
    assert_eq!(r, UnitCombo(vec![e("m", 3)]));
    assert_ne!(c, r);
    let mut p = UnitCombo::new();
    p.push_base_unit(BaseUnit { symbol: "m".to_string() }, 2);
    p.push_base_unit(BaseUnit { symbol: "m".to_string() }, -2);
    assert!(p.is_unitless());
    assert_eq!(UnitCombo(vec![e("m", 3), e("s", -1)]).to_text(), "(m^3)(s^-1)");
    assert_eq!(UnitCombo(vec![e("s", -1), e("m", 1)]).to_text(), "m(s^-1)");
    assert_eq!(UnitCombo::new().to_text(), "1");
}

#[test]
fn registry_lookup() {
    let mut sys = UnitSystem::new();
    sys.push_base_unit(BaseUnit { symbol: "m".to_string() });
    assert_eq!(sys.lookup_base_unit("m").unwrap().symbol, "m");
    assert!(sys.lookup_base_unit("s").is_none());
    assert!(sys.lookup_derived_unit("m").is_none());
    assert!(sys.lookup_unit("m").is_some());
}

fn r(x: i64) -> Rational {
    Rational::from_i64(x)
}

#[test]
fn linear_system_solves_and_diagnoses() {
    let mut lin = LinearSystem::new_equation_system(vec![vec![r(1), r(0)], vec![r(0), r(1)]], vec![r(1), r(-1)]);
    let soln = lin.solve().unwrap();
    assert_eq!(soln.len(), 2);
    assert!(!lin.is_overdetermined());
    assert!(!lin.is_underdetermined());
    assert_eq!(lin.n_pivoted(), 2);
    let mut inconsistent =
        LinearSystem::new_equation_system(vec![vec![r(1), r(1)], vec![r(1), r(1)]], vec![r(1), r(2)]);
    assert!(inconsistent.solve().is_none());
    let mut wide = LinearSystem::new_equation_system(vec![vec![r(1), r(1)]], vec![r(1)]);
    assert!(wide.solve().is_some());
    assert!(wide.is_overdetermined());
    assert_eq!(wide.n(), 1);
    assert_eq!(wide.m(), 3);
}

#[test]
fn transpose_swaps_rows_and_columns() {
    let t = transpose(&vec![vec![1, 2, 3], vec![4, 5, 6]]);
    assert_eq!(t, vec![vec![1, 4], vec![2, 5], vec![3, 6]]);
}
