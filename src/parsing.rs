use crate::rational::{
    div_toward_zero, lowest, frac_add, frac_eq, frac_mul, frac_pow, frac_sub, lemma_frac_congr,
    lemma_frac_eq_trans, rat_add, rat_mul, rat_neg, rat_sub, rat_trunc, Rational,
};
use crate::tokenizer::TokenizerError;
use crate::units::fits_i32;
use vstd::arithmetic::div_mod::lemma_div_multiples_vanish;
use vstd::prelude::*;
use vstd::string::StrSliceExecFns;

verus! {

/// What a scan of a literal has read so far.
pub struct LitState {
    pub err: Option<char>,
    pub dec: bool,
    pub exp: bool,
    pub exp_neg: bool,
    pub after_e: bool,
    pub num: nat,
    pub places: nat,
    pub e: nat,
}

pub open spec fn is_digit(c: char) -> bool {
    '0' <= c <= '9'
}

pub open spec fn digit_of(c: char) -> nat {
    (c as nat - '0' as nat) as nat
}

pub open spec fn lit_start() -> LitState {
    LitState { err: None, dec: false, exp: false, exp_neg: false, after_e: false, num: 0, places: 0, e: 0 }
}

/// One character of a literal: digits accumulate into the mantissa, or into the exponent after
/// `e`/`E`; a second `.` or exponent marker, a `-` anywhere but right after the marker, or any
/// other character is an error.
pub open spec fn lit_step(st: LitState, c: char) -> LitState {
    if st.err is Some {
        st
    } else if is_digit(c) {
        if st.exp {
            LitState { e: st.e * 10 + digit_of(c), after_e: false, ..st }
        } else if st.dec {
            LitState { num: st.num * 10 + digit_of(c), places: st.places + 1, after_e: false, ..st }
        } else {
            LitState { num: st.num * 10 + digit_of(c), after_e: false, ..st }
        }
    } else if c == '.' {
        if st.dec {
            LitState { err: Some(c), ..st }
        } else {
            LitState { dec: true, after_e: false, ..st }
        }
    } else if c == 'e' || c == 'E' {
        if st.exp {
            LitState { err: Some(c), ..st }
        } else {
            LitState { exp: true, after_e: true, ..st }
        }
    } else if c == '-' && st.after_e {
        LitState { exp_neg: true, after_e: false, ..st }
    } else {
        LitState { err: Some(c), ..st }
    }
}

pub open spec fn lit_scan(s: Seq<char>) -> LitState
    decreases s.len(),
{
    if s.len() == 0 {
        lit_start()
    } else {
        lit_step(lit_scan(s.drop_last()), s.last())
    }
}

/// The literal without its `_` separators.
pub open spec fn strip_separators(s: Seq<char>) -> Seq<char> {
    s.filter(|c: char| c != '_')
}

/// The literal after the separators and a leading `-` are taken off.
pub open spec fn lit_body(s: Seq<char>) -> Seq<char> {
    let t = strip_separators(s);
    if t.len() > 0 && t[0] == '-' {
        t.drop_first()
    } else {
        t
    }
}

pub open spec fn lit_negative(s: Seq<char>) -> bool {
    let t = strip_separators(s);
    t.len() > 0 && t[0] == '-'
}

/// The power of ten the digits are scaled by.
pub open spec fn lit_power(st: LitState) -> int {
    (if st.exp_neg {
        -(st.e as int)
    } else {
        st.e as int
    }) - st.places
}

/// The value of a literal: `sign * digits * 10^power`.
pub open spec fn lit_value(s: Seq<char>) -> (int, int) {
    let st = lit_scan(lit_body(s));
    let n = if lit_negative(s) {
        -(st.num as int)
    } else {
        st.num as int
    };
    frac_mul((n, 1), frac_pow((10, 1), lit_power(st)))
}

proof fn lemma_int_frac(x: (int, int), a: int, y: (int, int), b: int, c: int)
    requires
        x.1 > 0,
        y.1 > 0,
        frac_eq(x, (a, 1)),
        frac_eq(y, (b, 1)),
    ensures
        frac_eq(frac_add(frac_mul(x, (c, 1)), y), (a * c + b, 1)),
        frac_eq(frac_sub(x, y), (a - b, 1)),
{
    lemma_frac_congr(x, (a, 1), (c, 1), (c, 1));
    lemma_frac_congr(frac_mul(x, (c, 1)), frac_mul((a, 1), (c, 1)), y, (b, 1));
    assert(frac_mul((a, 1), (c, 1)) == (a * c, 1int));
    assert(frac_add((a * c, 1), (b, 1)) == (a * c + b, 1int));
    lemma_frac_congr(x, (a, 1), y, (b, 1));
    assert(frac_sub((a, 1), (b, 1)) == (a - b, 1int));
}

/// `acc * c + d` for an integer-valued `acc`.
fn shift_in(acc: &Rational, c: i64, d: i64, Ghost(v): Ghost<int>) -> (r: Rational)
    requires
        acc.wf(),
        frac_eq(acc@, (v, 1)),
    ensures
        r.wf(),
        frac_eq(r@, (v * c + d, 1)),
{
    let ten = Rational::from_i64(c);
    let digit = Rational::from_i64(d);
    let m = rat_mul(acc, &ten);
    let r = rat_add(&m, &digit);
    proof {
        lemma_int_frac(acc@, v, digit@, d as int, c as int);
        lemma_frac_congr(m@, frac_mul(acc@, ten@), digit@, digit@);
        assert(m@.1 * digit@.1 != 0) by (nonlinear_arith)
            requires m@.1 > 0, digit@.1 > 0;
        lemma_frac_eq_trans(r@, frac_add(m@, digit@), frac_add(frac_mul(acc@, ten@), digit@));
        assert(frac_add(frac_mul(acc@, ten@), digit@).1 != 0) by (nonlinear_arith)
            requires acc@.1 > 0, ten@.1 > 0, digit@.1 > 0;
        lemma_frac_eq_trans(r@, frac_add(frac_mul(acc@, ten@), digit@), (v * c + d, 1));
    }
    r
}

/// Once a scan has failed it keeps the first error.
proof fn lemma_err_sticks(s: Seq<char>, k: int)
    requires
        0 <= k <= s.len(),
        lit_scan(s.take(k)).err is Some,
    ensures
        lit_scan(s).err == lit_scan(s.take(k)).err,
    decreases s.len() - k,
{
    if k < s.len() {
        assert(s.take(k + 1).drop_last() == s.take(k));
        lemma_err_sticks(s, k + 1);
    } else {
        assert(s.take(k) == s);
    }
}

proof fn lemma_div_exact(x: int, d: int)
    requires
        d > 0,
    ensures
        div_toward_zero(x * d, d) == x,
{
    if x >= 0 {
        assert(x * d >= 0) by (nonlinear_arith)
            requires x >= 0, d > 0;
        lemma_div_multiples_vanish(x, d);
        assert(d * x == x * d) by (nonlinear_arith);
    } else {
        assert(x * d < 0) by (nonlinear_arith)
            requires x < 0, d > 0;
        lemma_div_multiples_vanish(-x, d);
        assert(d * (-x) == -(x * d)) by (nonlinear_arith);
    }
}

/// The integer `k` of an integer-valued rational, as exactly that rational.
pub(crate) fn to_integer(a: &Rational, Ghost(k): Ghost<int>) -> (r: Rational)
    requires
        a.wf(),
        frac_eq(a@, (k, 1)),
    ensures
        r.den() == 1,
        r.num() == k,
{
    let r = rat_trunc(a);
    proof {
        assert(a.num() == k * a.den());
        lemma_div_exact(k, a.den());
    }
    r
}

/// The value of an integer rational if it fits in an `i32`.
pub(crate) fn to_i32(a: &Rational) -> (r: Option<i32>)
    requires
        a.den() == 1,
    ensures
        r == if fits_i32(a.num()) {
            Some(a.num() as i32)
        } else {
            None::<i32>
        },
{
    if a.is_negative() {
        let n = rat_neg(a);
        let m = to_integer(&n, Ghost(-a.num()));
        match m.to_u64() {
            Some(v) => {
                if v <= 0x8000_0000 {
                    Some((-(v as i64)) as i32)
                } else {
                    None
                }
            },
            None => None,
        }
    } else {
        match a.to_u64() {
            Some(v) => {
                if v <= 0x7fff_ffff {
                    Some(v as i32)
                } else {
                    None
                }
            },
            None => None,
        }
    }
}

/// Reads a number literal: digits with at most one `.`, an optional `e`/`E` exponent that may
/// start with `-`, `_` separators anywhere, and an optional leading `-`. The value is exact.
pub fn parse_bigrational(s: &str) -> (r: Result<Rational, TokenizerError>)
    ensures
        ({
            let st = lit_scan(lit_body(s@));
            &&& st.err matches Some(c) ==> r == Err::<Rational, TokenizerError>(TokenizerError::InvalidCharacter(c))
            &&& st.err is None ==> r is Ok && r->Ok_0.wf() && frac_eq(r->Ok_0@, lit_value(s@))
                && lowest(r->Ok_0@)
        }),
{
    let len = s.unicode_len();
    let mut t: Vec<char> = Vec::new();
    let mut i: usize = 0;
    while i < len
        invariant
            i <= len,
            len == s@.len(),
            t@ == strip_separators(s@.take(i as int)),
        decreases len - i,
    {
        let c = s.get_char(i);
        proof {
            assert(s@.take(i + 1) == s@.take(i as int).push(c));
            s@.take(i as int).lemma_filter_push(c, |c: char| c != '_');
        }
        if c != '_' {
            t.push(c);
        }
        i += 1;
    }
    assert(s@.take(len as int) == s@);
    let negative = t.len() > 0 && t[0] == '-';
    let start: usize = if negative {
        1
    } else {
        0
    };
    let ghost body = lit_body(s@);
    assert(body == t@.subrange(start as int, t@.len() as int));
    let mut dec = false;
    let mut exp = false;
    let mut exp_neg = false;
    let mut after_e = false;
    let mut num = Rational::zero();
    let mut places = Rational::zero();
    let mut e = Rational::zero();
    let mut k: usize = start;
    while k < t.len()
        invariant
            start <= k <= t@.len(),
            body == t@.subrange(start as int, t@.len() as int),
            body == lit_body(s@),
            negative == lit_negative(s@),
            places.wf(),
            num.wf(),
            e.wf(),
            ({
                let st = lit_scan(body.take(k - start));
                &&& st.err is None
                &&& st.dec == dec
                &&& st.exp == exp
                &&& st.exp_neg == exp_neg
                &&& st.after_e == after_e
                &&& frac_eq(places@, (st.places as int, 1))
                &&& frac_eq(num@, (st.num as int, 1))
                &&& frac_eq(e@, (st.e as int, 1))
            }),
        decreases t.len() - k,
    {
        let c = t[k];
        let ghost prev = lit_scan(body.take(k - start));
        proof {
            assert(body.take(k - start + 1).drop_last() == body.take(k - start));
            assert(body.take(k - start + 1).last() == c);
        }
        if '0' <= c && c <= '9' {
            let d = (c as u32 - '0' as u32) as i64;
            if exp {
                e = shift_in(&e, 10, d, Ghost(prev.e as int));
            } else {
                num = shift_in(&num, 10, d, Ghost(prev.num as int));
                if dec {
                    places = shift_in(&places, 1, 1, Ghost(prev.places as int));
                }
            }
            after_e = false;
        } else if c == '.' {
            if dec {
                proof {
                    assert(lit_scan(body.take(k - start + 1)) == lit_step(prev, c));
                assert(lit_scan(body.take(k - start + 1)).err == Some(c));
                lemma_err_sticks(body, k - start + 1);
                }
                return Err(TokenizerError::InvalidCharacter(c));
            }
            dec = true;
            after_e = false;
        } else if c == 'e' || c == 'E' {
            if exp {
                proof {
                    assert(lit_scan(body.take(k - start + 1)) == lit_step(prev, c));
                assert(lit_scan(body.take(k - start + 1)).err == Some(c));
                lemma_err_sticks(body, k - start + 1);
                }
                return Err(TokenizerError::InvalidCharacter(c));
            }
            exp = true;
            after_e = true;
        } else if c == '-' && after_e {
            exp_neg = true;
            after_e = false;
        } else {
            proof {
                assert(lit_scan(body.take(k - start + 1)) == lit_step(prev, c));
                assert(lit_scan(body.take(k - start + 1)).err == Some(c));
                lemma_err_sticks(body, k - start + 1);
            }
            return Err(TokenizerError::InvalidCharacter(c));
        }
        k += 1;
    }
    assert(body.take(t@.len() - start) == body);
    let ghost st = lit_scan(body);
    let zero = Rational::zero();
    let pl = places;
    let signed_e = if exp_neg {
        rat_sub(&zero, &e)
    } else {
        e.duplicate()
    };
    proof {
        lemma_int_frac(zero@, 0, e@, st.e as int, 0);
    }
    let p = rat_sub(&signed_e, &pl);
    let ghost power = lit_power(st);
    proof {
        let se: int = if exp_neg { -(st.e as int) } else { st.e as int };
        if exp_neg {
            lemma_frac_eq_trans(signed_e@, frac_sub(zero@, e@), (0 - st.e as int, 1));
        }
        lemma_int_frac(signed_e@, se, pl@, st.places as int, 0);
        assert(signed_e@.1 * pl@.1 != 0) by (nonlinear_arith)
            requires signed_e@.1 > 0, pl@.1 > 0;
        lemma_frac_eq_trans(p@, frac_sub(signed_e@, pl@), (se - st.places, 1));
    }
    if num.is_zero() {
        let z = Rational::zero();
        proof {
            assert(st.num * num@.1 == 0) by (nonlinear_arith)
                requires num@.0 * 1 == st.num * num@.1, num@.0 == 0;
            assert(st.num == 0) by (nonlinear_arith)
                requires st.num * num@.1 == 0, num@.1 > 0;
            let nn: int = if negative { -(st.num as int) } else { st.num as int };
            assert(nn == 0);
            let v = lit_value(s@);
            assert(v.0 == 0 * frac_pow((10, 1), power).0) ;
            assert(v.0 == 0) by (nonlinear_arith)
                requires v.0 == 0 * frac_pow((10, 1), power).0;
            assert(frac_eq(z@, v));
            assert forall|k: int| k > 1 implies !#[trigger] crate::rational::divides_both(z@, k) by {
                assert(1int % k == 1) by (nonlinear_arith)
                    requires k > 1;
            }
        }
        return Ok(z);
    }
    let pk = to_integer(&p, Ghost(power));
    let ten = Rational::from_i64(10);
    let pw = crate::rational::rat_pow_big(&ten, &pk);
    let n = if negative {
        rat_sub(&zero, &num)
    } else {
        num.duplicate()
    };
    let r = rat_mul(&n, &pw);
    proof {
        let nn: int = if negative { -(st.num as int) } else { st.num as int };
        lemma_int_frac(zero@, 0, num@, st.num as int, 0);
        if negative {
            lemma_frac_eq_trans(n@, frac_sub(zero@, num@), (0 - st.num as int, 1));
        }
        assert(frac_eq(n@, (nn, 1)));
        lemma_frac_congr(n@, (nn, 1), pw@, frac_pow((10, 1), power));
        assert(n@.1 * pw@.1 != 0) by (nonlinear_arith)
            requires n@.1 > 0, pw@.1 > 0;
        lemma_frac_eq_trans(r@, frac_mul(n@, pw@), frac_mul((nn, 1), frac_pow((10, 1), power)));
    }
    Ok(r)
}

} // verus!
