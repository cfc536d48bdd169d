use num_bigint::BigInt;
use num_rational::BigRational;
use num_traits::ToPrimitive;
use unitdc::interpreter::{Interpreter, InterpreterError, Output};
use unitdc::quantity::units::{BaseUnit, UnitCombo, UnitExponent};
use unitdc::rational::Rational;

fn big(r: &Rational) -> BigRational {
    let (n, d) = r.to_bytes();
    BigRational::new(BigInt::from_signed_bytes_le(&n), BigInt::from_signed_bytes_le(&d))
}

fn to_f64(r: &Rational) -> f64 {
    big(r).to_f64().unwrap()
}

fn exact(r: &Rational, n: i64, d: i64) -> bool {
    big(r) == BigRational::new(BigInt::from(n), BigInt::from(d))
}

fn unit_of(symbol: &str) -> UnitCombo {
    UnitCombo(vec![UnitExponent {
        unit: BaseUnit {
            symbol: symbol.to_string(),
        },
        exponent: 1,
    }])
}

#[test]
fn test_interpreter() {
    let mut outputs = Vec::new();
    let mut interpreter = Interpreter::new();
    interpreter
        .run_str("@base(m)")
        .expect("command should succeed");
    interpreter
        .run_str("0 (m) 1e3 @derived(km)")
        .expect("command should succeed");
    interpreter
        .run_str("2 (km) p")
        .expect("command should succeed");
    outputs.extend(interpreter.take_outputs());

    let output = outputs.pop().expect("output should exist");
    match output {
        Output::Quantity(q) => {
            assert_eq!(to_f64(&q.number), 2000.0);
            assert_eq!(q.unit, unit_of("m"));
        }
        _ => panic!("output should be a quantity"),
    }

    interpreter
        .run_str("2 (km) 1 (m) + p")
        .expect("command should succeed");
    outputs.extend(interpreter.take_outputs());
    let output = outputs.pop().expect("output should exist");
    match output {
        Output::Quantity(q) => {
            assert_eq!(to_f64(&q.number), 2001.0);
            assert_eq!(q.unit, unit_of("m"));
        }
        _ => panic!("output should be a quantity"),
    }
}

#[test]
fn test_warn_confusing_units() {
    let mut outputs = Vec::new();
    let mut interpreter = Interpreter::new();
    interpreter
        .run_str("@base(K)")
        .expect("command should succeed");

    interpreter
        .run_str("273.15 (K) 1 @derived(degC)")
        .expect("command should succeed");

    interpreter
        .run_str("0 (degC) 0 (degC) + p")
        .expect("command should succeed");
    outputs.extend(interpreter.take_outputs());

    let output = outputs.pop().expect("output should exist");
    let msg = outputs.pop().expect("output should exist");

    match msg {
        Output::Message(e) => {
            assert_eq!(
                e.to_ascii_lowercase().contains("warning"),
                true,
                "output should contain 'warning'"
            );
        }
        _ => panic!("output should be a message"),
    }

    match output {
        Output::Quantity(q) => {
            assert_eq!(to_f64(&q.number), 273.15 * 2.);
            assert_eq!(q.unit, unit_of("K"));
        }
        _ => panic!("output should be a quantity"),
    }

    interpreter
        .run_str("@base(m)")
        .expect("command should succeed");

    interpreter
        .run_str("0 (degC) 1 (m) * 0 (degC) 1 (m) * + p")
        .expect("command should succeed");
    outputs.extend(interpreter.take_outputs());

    // A product keeps the pairwise compositions of its operands' display units; `1 (m)`
    // has none, so neither product carries `degC` and the sum warns about nothing.
    let output = outputs.pop().expect("output should exist");
    match output {
        Output::Quantity(q) => {
            assert_eq!(to_f64(&q.number), 273.15 * 2.);
            assert!(q.use_derived_unit.is_empty());
        }
        _ => panic!("output should be a quantity"),
    }
    assert!(outputs.is_empty(), "no warning should precede the sum");
}

fn last_quantity(interpreter: &mut Interpreter) -> unitdc::quantity::Quantity {
    match interpreter.take_outputs().pop() {
        Some(Output::Quantity(q)) => q,
        _ => panic!("output should be a quantity"),
    }
}

#[test]
fn km_shows_in_km_and_stores_meters() {
    let mut it = Interpreter::new();
    it.run_str("@base(m) 0 (m) 1000 @derived(km)").unwrap();
    it.run_str("2 (km) p").unwrap();
    let q = last_quantity(&mut it);
    assert!(exact(&q.number, 2000, 1));
    assert!(exact(&q.number_in_derived_unit().unwrap(), 2, 1));
    assert_eq!(q.use_derived_unit.len(), 1);
    assert_eq!(q.use_derived_unit[0].symbol, "km");
}

#[test]
fn affine_unit_round_trips_exact_value() {
    let mut it = Interpreter::new();
    it.run_str("@base(K) 273.15 (K) 1.8 @derived(degF)").unwrap();
    it.run_str("1 3 / (degF) p").unwrap();
    let q = last_quantity(&mut it);
    // 1/3 * 9/5 + 5463/20 = 3/5 + 5463/20 = 5475/20
    assert!(exact(&q.number, 5475, 20));
    assert!(exact(&q.number_in_derived_unit().unwrap(), 1, 3));
}

#[test]
fn thirds_add_exactly() {
    let mut it = Interpreter::new();
    it.run_str("@base(x) 2 3 / (x) 1 3 / (x) + p").unwrap();
    let q = last_quantity(&mut it);
    assert!(exact(&q.number, 1, 1));
    assert_eq!(q.unit, unit_of("x"));
}

#[test]
fn adding_different_dimensions_fails() {
    let mut it = Interpreter::new();
    it.run_str("@base(m) @base(s)").unwrap();
    match it.run_str("1 (m) 1 (s) +") {
        Err(InterpreterError::QuantityError(unitdc::quantity::QuantityError::IncompatibleUnits)) => {}
        other => panic!("unexpected {:?}", other),
    }
    match it.run_str("1 (m) 1 (s) -") {
        Err(InterpreterError::QuantityError(unitdc::quantity::QuantityError::IncompatibleUnits)) => {}
        other => panic!("unexpected {:?}", other),
    }
}

#[test]
fn solver_finds_velocity() {
    let mut it = Interpreter::new();
    it.run_str("@base(m) @base(s)").unwrap();
    it.run_str("10 (m) 4 (s) 2 (m) 1 (s) / s p").unwrap();
    let q = last_quantity(&mut it);
    assert!(exact(&q.number, 5, 2));
    let expected = UnitCombo(vec![
        UnitExponent {
            unit: BaseUnit {
                symbol: "m".to_string(),
            },
            exponent: 1,
        },
        UnitExponent {
            unit: BaseUnit {
                symbol: "s".to_string(),
            },
            exponent: -1,
        },
    ]);
    assert_eq!(q.unit, expected);
    assert_eq!(it.stack().len(), 1);
}

#[test]
fn solver_reports_missing_unit_and_underflow() {
    let mut it = Interpreter::new();
    it.run_str("@base(m) @base(s) @base(kg)").unwrap();
    match it.run_str("10 (m) 1 (s) s") {
        Err(InterpreterError::IncompatibleUnits(_)) => {}
        other => panic!("unexpected {:?}", other),
    }
    it.run_str("c").unwrap();
    match it.run_str("10 (m) 3 s") {
        Err(InterpreterError::StackUnderflow) => {}
        other => panic!("unexpected {:?}", other),
    }
    it.run_str("c").unwrap();
    match it.run_str("10 (m) 2 (m) 1 (m) 2 s") {
        Err(InterpreterError::NoSolution(m)) => assert_eq!(m, "Linear system is overdetermined"),
        other => panic!("unexpected {:?}", other),
    }
}

#[test]
fn base_unit_defined_twice_fails() {
    let mut it = Interpreter::new();
    it.run_str("@base(m)").unwrap();
    match it.run_str("@base( m )") {
        Err(InterpreterError::AlreadyDefined(s)) => assert_eq!(s, "m"),
        other => panic!("unexpected {:?}", other),
    }
    it.run_str("1 (m)").unwrap();
}

#[test]
fn same_command_twice_gives_same_result() {
    let run = || {
        let mut it = Interpreter::new();
        it.run_str("@base(m) 0 (m) 1000 @derived(km)").unwrap();
        it.run_str("3 (km) 7 (m) + d * f").unwrap();
        it.take_outputs()
    };
    let a = run();
    let b = run();
    assert_eq!(a.len(), b.len());
    match (&a[0], &b[0]) {
        (Output::QuantityList(x), Output::QuantityList(y)) => {
            assert_eq!(x.len(), 1);
            assert_eq!(y.len(), 1);
            assert_eq!(big(&x[0].number), big(&y[0].number));
            assert!(exact(&x[0].number, 3007 * 3007, 1));
            assert_eq!(x[0].unit, y[0].unit);
        }
        _ => panic!("output should be a quantity list"),
    }
}

#[test]
fn stack_operators() {
    let mut it = Interpreter::new();
    it.run_str("1 2 r n n").unwrap();
    let outs = it.take_outputs();
    assert_eq!(outs.len(), 2);
    match (&outs[0], &outs[1]) {
        (Output::Quantity(a), Output::Quantity(b)) => {
            assert!(exact(&a.number, 1, 1));
            assert!(exact(&b.number, 2, 1));
        }
        _ => panic!("outputs should be quantities"),
    }
    match it.run_str("n") {
        Err(InterpreterError::StackUnderflow) => {}
        other => panic!("unexpected {:?}", other),
    }
    it.run_str("5 >x c <x <x * p").unwrap();
    let q = last_quantity(&mut it);
    assert!(exact(&q.number, 25, 1));
    match it.run_str("<y") {
        Err(InterpreterError::UndefinedVariable(s)) => assert_eq!(s, "y"),
        other => panic!("unexpected {:?}", other),
    }
}

#[test]
fn errors_of_each_kind() {
    let mut it = Interpreter::new();
    match it.run_str("1 (zz)") {
        Err(InterpreterError::UndefinedUnit(s)) => assert_eq!(s, "zz"),
        other => panic!("unexpected {:?}", other),
    }
    match it.run_str("@frob(x)") {
        Err(InterpreterError::UndefinedMacro(s)) => assert_eq!(s, "frob"),
        other => panic!("unexpected {:?}", other),
    }
    match it.run_str("1 0 /") {
        Err(InterpreterError::DivisionByZero) => {}
        other => panic!("unexpected {:?}", other),
    }
    match it.run_str("1 ?") {
        Err(InterpreterError::TokenizerError(c, unitdc::tokenizer::TokenizerError::InvalidCharacter('?'))) => {
            assert_eq!(c.line, 1);
            assert_eq!(c.column, 4);
        }
        other => panic!("unexpected {:?}", other),
    }
    it.run_str("@base(m) @base(s)").unwrap();
    match it.run_str("1 (m) (s)") {
        Err(InterpreterError::IncompatibleUnits(u)) => assert_eq!(u, unit_of("m")),
        other => panic!("unexpected {:?}", other),
    }
}

#[test]
fn unit_one_strips_dimension_and_display() {
    let mut it = Interpreter::new();
    it.run_str("@base(m) 0 (m) 1000 @derived(km) 3 (km) (1) p").unwrap();
    let q = last_quantity(&mut it);
    assert!(exact(&q.number, 3000, 1));
    assert!(q.unit.is_unitless());
    assert!(q.use_derived_unit.is_empty());
}

#[test]
fn summary_lists_units() {
    let mut it = Interpreter::new();
    it.run_str("@base(m) @base(s) 0 (m) 1000 @derived(km) U").unwrap();
    match it.take_outputs().pop() {
        Some(Output::Message(m)) => {
            assert!(m.starts_with("Base units:\nm, s\n\nDerived units:\n"));
            assert!(m.contains("km = 1000 (m) + 0\n"));
        }
        _ => panic!("output should be a message"),
    }
}

#[test]
fn subtraction_is_exact() {
    let mut it = Interpreter::new();
    it.run_str("@base(x) 5 (x) 2 (x) - p").unwrap();
    let q = last_quantity(&mut it);
    assert!(exact(&q.number, 3, 1));
    assert_eq!(q.unit, unit_of("x"));
}

#[test]
fn products_compose_display_units() {
    let mut it = Interpreter::new();
    it.run_str("@base(m) @base(s) 0 (m) 1000 @derived(km) 0 (s) 3600 @derived(h)").unwrap();
    it.run_str("2 (km) 3 (h) * p").unwrap();
    let q = last_quantity(&mut it);
    assert!(exact(&q.number, 2000 * 10800, 1));
    assert_eq!(q.use_derived_unit.len(), 1);
    assert_eq!(q.use_derived_unit[0].symbol, "km*h");
    assert!(exact(&q.use_derived_unit[0].scale, 3_600_000, 1));
    assert!(exact(&q.number_in_derived_unit().unwrap(), 6, 1));
    assert_eq!(q.display_unit(), "km*h");
    it.run_str("c 6 (km) 3 (h) / p").unwrap();
    let q = last_quantity(&mut it);
    assert!(exact(&q.number, 6000, 10800));
    assert_eq!(q.use_derived_unit[0].symbol, "km/h");
    assert!(exact(&q.number_in_derived_unit().unwrap(), 2, 1));
    assert_eq!(q.display_unit(), "km/h");
}

#[test]
fn plain_units_display_as_dimension_text() {
    let mut it = Interpreter::new();
    it.run_str("@base(m) @base(s) 3 (m) 2 (s) / 1 (s) / p").unwrap();
    let q = last_quantity(&mut it);
    assert!(exact(&q.number, 3, 2));
    assert_eq!(q.display_unit(), "m(s^-2)");
    it.run_str("7 p").unwrap();
    let q = last_quantity(&mut it);
    assert_eq!(q.display_unit(), "1");
}

#[test]
fn zero_scale_unit_is_accepted_but_shows_no_value() {
    let mut it = Interpreter::new();
    it.run_str("@base(m) 0 (m) 0 @derived(z)").unwrap();
    it.run_str("5 (z) p").unwrap();
    let q = last_quantity(&mut it);
    assert!(exact(&q.number, 0, 1));
    assert!(q.number_in_derived_unit().is_none());
    match it.run_str("1 (m) 2 (z) /") {
        Err(InterpreterError::DivisionByZero) => {}
        other => panic!("unexpected {:?}", other),
    }
}

#[test]
fn error_keeps_earlier_effects() {
    let mut it = Interpreter::new();
    match it.run_str("1 2 x") {
        Err(InterpreterError::TokenizerError(c, unitdc::tokenizer::TokenizerError::InvalidCharacter('x'))) => {
            assert_eq!(c.line, 1);
            assert_eq!(c.column, 6);
        }
        other => panic!("unexpected {:?}", other),
    }
    assert_eq!(it.stack().len(), 2);
}

#[test]
fn unitless_means_empty_after_reduction() {
    let c = UnitCombo(vec![
        UnitExponent {
            unit: BaseUnit {
                symbol: "m".to_string(),
            },
            exponent: 1,
        },
        UnitExponent {
            unit: BaseUnit {
                symbol: "m".to_string(),
            },
            exponent: -1,
        },
    ]);
    assert!(c.is_unitless());
    assert!(!unit_of("m").is_unitless());
}
