use vstd::prelude::*;
use crate::cell::{Cell, CellModel, CellValue, Fraction, Val, lemma_mul_i64, int_model, invalid_model, text_model, float_model};

verus! {

pub open spec fn fits_i32(v: int) -> bool {
    i32::MIN <= v <= i32::MAX
}

pub open spec fn fits_i64(v: int) -> bool {
    i64::MIN <= v <= i64::MAX
}

/// An integer as a fraction over one.
pub open spec fn int_frac(i: i32) -> Fraction {
    Fraction { num: i as i64, den: 1 }
}

/// The numeric value of a cell as a fraction, if it holds a number.
pub open spec fn as_frac(v: Val) -> Option<Fraction> {
    match v {
        Val::Int(i) => Some(int_frac(i)),
        Val::Float(f) => Some(f),
        Val::Text(_) => None,
    }
}

/// A fraction `num / den` with `den != 0`, its sign moved to the numerator.
pub open spec fn signed(num: int, den: int) -> (int, int) {
    if den < 0 {
        (-num, -den)
    } else {
        (num, den)
    }
}

/// The unreduced result of `a op b` on fractions; `None` for an unknown
/// operator or a division by zero.
pub open spec fn frac_op(a: Fraction, b: Fraction, op: char) -> Option<(int, int)> {
    if op == '+' {
        Some((a.num * b.den + b.num * a.den, a.den * b.den))
    } else if op == '-' {
        Some((a.num * b.den - b.num * a.den, a.den * b.den))
    } else if op == '*' {
        Some((a.num * b.num, a.den * b.den))
    } else if op == '/' {
        if b.num == 0 {
            None
        } else {
            Some(signed(a.num * b.den, a.den * b.num))
        }
    } else {
        None
    }
}

/// Greatest common divisor, by Euclid's algorithm.
pub open spec fn gcd(a: nat, b: nat) -> nat
    decreases b,
{
    if b == 0 {
        a
    } else {
        gcd(b, a % b)
    }
}

pub proof fn lemma_gcd_bounds(a: nat, b: nat)
    requires
        b > 0,
    ensures
        1 <= gcd(a, b) <= b,
    decreases b,
{
    let r = a % b;
    assert(gcd(a, b) == gcd(b, r));
    if r > 0 {
        lemma_gcd_bounds(b, r);
        assert(r < b);
    } else {
        assert(gcd(b, r) == b);
    }
}

/// `n / d` in lowest terms (for `d > 0`): both parts divided by their
/// greatest common divisor.
pub open spec fn reduced(n: int, d: int) -> (int, int) {
    let g = gcd(abs(n) as nat, d as nat) as int;
    (if n < 0 { -(abs(n) / g) } else { abs(n) / g }, d / g)
}

/// A fractional cell holding `n / d` in lowest terms, or the invalid cell
/// where even those parts do not fit 64 bits.
pub open spec fn frac_cell(p: Option<(int, int)>) -> CellModel {
    match p {
        Some((n, d)) => {
            let (rn, rd) = reduced(n, d);
            if fits_i64(rn) && fits_i64(rd) {
                float_model(Fraction { num: rn as i64, den: rd as i64 })
            } else {
                invalid_model()
            }
        },
        None => invalid_model(),
    }
}

/// Exec `reduced`.
pub fn reduce(n: i128, d: i128) -> (r: (i128, i128))
    requires
        d > 0,
        n > i128::MIN,
    ensures
        r.0 as int == reduced(n as int, d as int).0,
        r.1 as int == reduced(n as int, d as int).1,
        1 <= r.1 <= d,
        abs(r.0 as int) <= abs(n as int),
{
    let an: u128 = if n < 0 { (-n) as u128 } else { n as u128 };
    let mut a: u128 = an;
    let mut b: u128 = d as u128;
    while b != 0
        invariant
            gcd(a as nat, b as nat) == gcd(an as nat, d as nat),
        decreases b,
    {
        let t = a % b;
        a = b;
        b = t;
    }
    proof {
        lemma_gcd_bounds(an as nat, d as nat);
        assert(an as int == abs(n as int));
        assert(an / a <= an) by (nonlinear_arith)
            requires
                a >= 1,
        ;
        assert(1 <= (d as u128) / a <= d) by (nonlinear_arith)
            requires
                1 <= a <= d,
        ;
    }
    let qn = (an / a) as i128;
    let qd = ((d as u128) / a) as i128;
    if n < 0 {
        (-qn, qd)
    } else {
        (qn, qd)
    }
}

/// An integer cell, or the invalid cell where the value does not fit 32 bits.
pub open spec fn int_cell(v: int) -> CellModel {
    if fits_i32(v) {
        int_model(v as i32)
    } else {
        invalid_model()
    }
}

pub open spec fn abs(v: int) -> int {
    if v < 0 {
        -v
    } else {
        v
    }
}

/// The quotient of `a` by `b`, rounded toward zero.
pub open spec fn exact_quotient(a: int, b: int) -> int {
    if (a < 0) != (b < 0) {
        -(abs(a) / abs(b))
    } else {
        abs(a) / abs(b)
    }
}

/// `a op b` on two integers: exact integer arithmetic; a division that is not
/// exact gives a fraction.
pub open spec fn int_op(a: i32, b: i32, op: char) -> CellModel {
    if op == '+' {
        int_cell(a + b)
    } else if op == '-' {
        int_cell(a - b)
    } else if op == '*' {
        int_cell(a * b)
    } else if op == '/' {
        if b == 0 {
            invalid_model()
        } else if abs(a as int) % abs(b as int) == 0 {
            int_cell(exact_quotient(a as int, b as int))
        } else {
            frac_cell(Some(signed(a as int, b as int)))
        }
    } else {
        invalid_model()
    }
}

/// The value of `v1 op v2`, with `op` one of `+ - * /`. Invalid operands, a
/// division by zero, an unknown operator, a result out of range and any
/// operation on strings but concatenation by `+` give the invalid cell.
pub open spec fn binary_result(v1: CellModel, v2: CellModel, op: char) -> CellModel {
    if !v1.is_valid || !v2.is_valid {
        invalid_model()
    } else {
        match (v1.value, v2.value) {
            (Val::Int(a), Val::Int(b)) => int_op(a, b, op),
            (Val::Text(a), Val::Text(b)) => if op == '+' {
                text_model(a + b)
            } else {
                invalid_model()
            },
            (x, y) => match (as_frac(x), as_frac(y)) {
                (Some(fa), Some(fb)) => frac_cell(frac_op(fa, fb, op)),
                _ => invalid_model(),
            },
        }
    }
}

/// Operator code of an arithmetic operator: `+ - * /` give 1 to 4, any other
/// character -1.
pub open spec fn optype_spec(op: char) -> i32 {
    if op == '+' {
        1
    } else if op == '-' {
        2
    } else if op == '*' {
        3
    } else if op == '/' {
        4
    } else {
        -1i32
    }
}

pub fn return_optype(op: char) -> (r: i32)
    ensures
        r == optype_spec(op),
{
    match op {
        '+' => 1,
        '-' => 2,
        '*' => 3,
        '/' => 4,
        _ => -1,
    }
}

fn to_frac(v: &CellValue) -> (r: Option<Fraction>)
    ensures
        r == as_frac(v@),
{
    match v {
        CellValue::Int(i) => Some(Fraction { num: *i as i64, den: 1 }),
        CellValue::Float(f) => Some(*f),
        CellValue::String(_) => None,
    }
}

pub fn make_frac(n: i128, d: i128) -> (r: Cell)
    requires
        d > 0,
        n > i128::MIN,
    ensures
        r@ == frac_cell(Some((n as int, d as int))),
        r.wf(),
{
    let (rn, rd) = reduce(n, d);
    if rn < i64::MIN as i128 || rn > i64::MAX as i128 || rd > i64::MAX as i128 {
        Cell::invalid()
    } else {
        Cell::new_float(Fraction { num: rn as i64, den: rd as i64 })
    }
}

/// A numerator times a positive 64-bit denominator stays well inside 127 bits.
pub proof fn lemma_mul_den(a: int, d: int)
    requires
        i64::MIN <= a <= i64::MAX,
        1 <= d <= i64::MAX,
    ensures
        -0x3fff_ffff_ffff_ffff_8000_0000_0000_0000 <= a * d <= 0x3fff_ffff_ffff_ffff_8000_0000_0000_0000,
{
    assert(-0x3fff_ffff_ffff_ffff_8000_0000_0000_0000 <= a * d <= 0x3fff_ffff_ffff_ffff_8000_0000_0000_0000)
        by (nonlinear_arith)
        requires
            -0x8000_0000_0000_0000 <= a <= 0x7fff_ffff_ffff_ffff,
            1 <= d <= 0x7fff_ffff_ffff_ffff,
    ;
}

fn frac_eval(a: Fraction, b: Fraction, op: char) -> (r: Cell)
    requires
        a.wf(),
        b.wf(),
    ensures
        r@ == frac_cell(frac_op(a, b, op)),
        r.wf(),
{
    let an = a.num as i128;
    let ad = a.den as i128;
    let bn = b.num as i128;
    let bd = b.den as i128;
    proof {
        lemma_mul_den(a.num as int, b.den as int);
        lemma_mul_den(b.num as int, a.den as int);
        lemma_mul_i64(a.num as int, b.num as int);
        lemma_mul_i64(a.den as int, b.den as int);
        lemma_mul_i64(a.den as int, b.num as int);
        assert(a.den * b.den > 0) by (nonlinear_arith)
            requires
                a.den > 0,
                b.den > 0,
        ;
        assert(b.num != 0 ==> a.den * b.num != 0) by (nonlinear_arith)
            requires
                a.den > 0,
        ;
    }
    if op == '+' {
        make_frac(an * bd + bn * ad, ad * bd)
    } else if op == '-' {
        make_frac(an * bd - bn * ad, ad * bd)
    } else if op == '*' {
        make_frac(an * bn, ad * bd)
    } else if op == '/' {
        if bn == 0 {
            Cell::invalid()
        } else if ad * bn < 0 {
            make_frac(-(an * bd), -(ad * bn))
        } else {
            make_frac(an * bd, ad * bn)
        }
    } else {
        Cell::invalid()
    }
}

fn int_eval(a: i32, b: i32, op: char) -> (r: Cell)
    ensures
        r@ == int_op(a, b, op),
        r.wf(),
{
    let x = a as i64;
    let y = b as i64;
    let v: i64;
    if op == '+' {
        v = x + y;
    } else if op == '-' {
        v = x - y;
    } else if op == '*' {
        proof {
            lemma_mul_i64(x as int, y as int);
            assert(-0x4000_0000_0000_0000 <= (x as int) * (y as int) <= 0x4000_0000_0000_0000) by (nonlinear_arith)
                requires
                    -0x8000_0000 <= x <= 0x7fff_ffff,
                    -0x8000_0000 <= y <= 0x7fff_ffff,
            ;
        }
        v = x * y;
    } else if op == '/' {
        if y == 0 {
            return Cell::invalid();
        }
        let ax: u64 = if x < 0 { (-x) as u64 } else { x as u64 };
        let ay: u64 = if y < 0 { (-y) as u64 } else { y as u64 };
        if ax % ay == 0 {
            let q = (ax / ay) as i64;
            v = if (x < 0) != (y < 0) { -q } else { q };
        } else if y < 0 {
            return make_frac(-(x as i128), -(y as i128));
        } else {
            return make_frac(x as i128, y as i128);
        }
    } else {
        return Cell::invalid();
    }
    if v < i32::MIN as i64 || v > i32::MAX as i64 {
        Cell::invalid()
    } else {
        Cell::new_int(v as i32)
    }
}

/// Evaluates `v1 op v2` (see `binary_result`).
pub fn arithmetic_eval(v1: Cell, v2: Cell, op: char) -> (r: Cell)
    requires
        v1.wf(),
        v2.wf(),
    ensures
        r@ == binary_result(v1@, v2@, op),
        r.wf(),
{
    if !v1.is_valid || !v2.is_valid {
        return Cell::invalid();
    }
    match (&v1.value, &v2.value) {
        (CellValue::Int(a), CellValue::Int(b)) => int_eval(*a, *b, op),
        (CellValue::String(a), CellValue::String(b)) => {
            if op == '+' {
                let s = a.clone().concat(b.as_str());
                Cell::new_string(s)
            } else {
                Cell::invalid()
            }
        },
        _ => {
            match (to_frac(&v1.value), to_frac(&v2.value)) {
                (Some(fa), Some(fb)) => frac_eval(fa, fb, op),
                _ => Cell::invalid(),
            }
        },
    }
}

} // verus!
