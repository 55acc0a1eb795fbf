use vstd::prelude::*;
use crate::arith::{abs, exact_quotient, fits_i32, fits_i64, frac_cell, int_frac, make_frac, reduce, reduced};
use crate::cell::{Cell, CellModel, CellValue, Fraction, Val, float_model, int_model, invalid_model, lemma_mul_i64};
use crate::topo::{col_of, hi, lo, row_of};

verus! {

pub open spec fn min_of(a: int, b: int) -> int {
    if a < b {
        a
    } else {
        b
    }
}

/// Width and height of the rectangle spanned by cells `a` and `b`.
pub open spec fn rect_width(cols: int, a: int, b: int) -> int {
    hi(col_of(cols, a), col_of(cols, b)) - lo(col_of(cols, a), col_of(cols, b)) + 1
}

pub open spec fn rect_height(cols: int, a: int, b: int) -> int {
    hi(row_of(cols, a), row_of(cols, b)) - lo(row_of(cols, a), row_of(cols, b)) + 1
}

/// The `k`-th cell of the rectangle in row-major order.
pub open spec fn rect_index(cols: int, a: int, b: int, k: int) -> int {
    let w = rect_width(cols, a, b);
    (lo(row_of(cols, a), row_of(cols, b)) + k / w) * cols + lo(col_of(cols, a), col_of(cols, b)) + k % w
}

/// The cells of the rectangle spanned by `a` and `b`, row by row.
pub open spec fn rect_models(vals: Seq<CellModel>, cols: int, a: int, b: int) -> Seq<CellModel> {
    Seq::new(
        (rect_height(cols, a, b) * rect_width(cols, a, b)) as nat,
        |k: int| vals[rect_index(cols, a, b, k)],
    )
}

/// The numeric value of a cell value (strings count as zero).
pub open spec fn num_of(v: Val) -> Fraction {
    match v {
        Val::Int(i) => int_frac(i),
        Val::Float(f) => f,
        Val::Text(_) => Fraction { num: 0, den: 1 },
    }
}

pub open spec fn frac_lt(a: Fraction, b: Fraction) -> bool {
    a.num * b.den < b.num * a.den
}

/// Smallest of the values, the first of equal ones.
pub open spec fn vmin(vs: Seq<CellModel>) -> Fraction
    decreases vs.len(),
{
    if vs.len() <= 1 {
        num_of(vs[0].value)
    } else {
        let m = vmin(vs.drop_last());
        if frac_lt(num_of(vs.last().value), m) {
            num_of(vs.last().value)
        } else {
            m
        }
    }
}

/// Largest of the values, the first of equal ones.
pub open spec fn vmax(vs: Seq<CellModel>) -> Fraction
    decreases vs.len(),
{
    if vs.len() <= 1 {
        num_of(vs[0].value)
    } else {
        let m = vmax(vs.drop_last());
        if frac_lt(m, num_of(vs.last().value)) {
            num_of(vs.last().value)
        } else {
            m
        }
    }
}

/// One step of a running sum of fractions: `acc + fnum / fden` in lowest
/// terms, `None` once it leaves 64 bits.
pub open spec fn add_step(acc: Option<(int, int)>, fnum: int, fden: int) -> Option<(int, int)> {
    match acc {
        None => None,
        Some((n, d)) => {
            let (n2, d2) = reduced(n * fden + fnum * d, d * fden);
            if fits_i64(n2) && fits_i64(d2) {
                Some((n2, d2))
            } else {
                None
            }
        },
    }
}

/// Running sum of the squares of the values, as `vsum` adds.
pub open spec fn vsum_sq(vs: Seq<CellModel>) -> Option<(int, int)>
    decreases vs.len(),
{
    if vs.len() == 0 {
        Some((0, 1))
    } else {
        let f = num_of(vs.last().value);
        let (qn, qd) = reduced(f.num * f.num, f.den * f.den);
        if fits_i64(qn) && fits_i64(qd) {
            add_step(vsum_sq(vs.drop_last()), qn, qd)
        } else {
            None
        }
    }
}

pub open spec fn small(x: int) -> bool {
    -0x0800_0000_0000_0000_0000_0000_0000_0000 <= x <= 0x0800_0000_0000_0000_0000_0000_0000_0000
}

/// The variance of the values as `p / q`, with `S1 = a / b` their sum and
/// `S2 = c / e` the sum of their squares: `p = n*c*b^2 - a^2*e`,
/// `q = n^2*e*b^2`; `None` where a sum or one of these products leaves
/// the bounds of the computation.
pub open spec fn frac_var(vs: Seq<CellModel>) -> Option<(int, int)> {
    match (vsum(vs), vsum_sq(vs)) {
        (Some((a, b)), Some((c, e))) => {
            let n = vs.len() as int;
            let p1 = n * c * (b * b);
            let p2 = a * a * e;
            let q = n * n * e * (b * b);
            if small(p1) && small(p2) && small(q) {
                Some((p1 - p2, q))
            } else {
                None
            }
        },
        _ => None,
    }
}

/// `k` is `sqrt(p / q)` rounded to the nearest integer, halves upward.
pub open spec fn is_round_sqrt_frac(k: int, p: int, q: int) -> bool {
    &&& k >= 0
    &&& (k == 0 || q * ((2 * k - 1) * (2 * k - 1)) <= 4 * p)
    &&& 4 * p < q * ((2 * k + 1) * (2 * k + 1))
}

pub open spec fn round_sqrt_frac(p: int, q: int) -> int {
    choose|k: int| is_round_sqrt_frac(k, p, q)
}

/// Running sum of the values as a fraction in lowest terms, left to right;
/// `None` once a partial sum, in lowest terms, leaves 64 bits.
pub open spec fn vsum(vs: Seq<CellModel>) -> Option<(int, int)>
    decreases vs.len(),
{
    if vs.len() == 0 {
        Some((0, 1))
    } else {
        add_step(vsum(vs.drop_last()), num_of(vs.last().value).num as int, num_of(vs.last().value).den as int)
    }
}

/// Sum and sum of squares of integer values.
pub open spec fn isum(vs: Seq<CellModel>) -> int
    decreases vs.len(),
{
    if vs.len() == 0 {
        0
    } else {
        isum(vs.drop_last()) + num_of(vs.last().value).num
    }
}

pub open spec fn isum_sq(vs: Seq<CellModel>) -> int
    decreases vs.len(),
{
    if vs.len() == 0 {
        0
    } else {
        isum_sq(vs.drop_last()) + num_of(vs.last().value).num * num_of(vs.last().value).num
    }
}

/// `k` is `sqrt(d) / n` rounded to the nearest integer, halves upward.
pub open spec fn is_round_sqrt(k: int, d: int, n: int) -> bool {
    &&& k >= 0
    &&& (k == 0 || (2 * k - 1) * n * ((2 * k - 1) * n) <= 4 * d)
    &&& 4 * d < (2 * k + 1) * n * ((2 * k + 1) * n)
}

pub open spec fn round_sqrt(d: int, n: int) -> int {
    choose|k: int| is_round_sqrt(k, d, n)
}

/// The population standard deviation of integer values, `sqrt(D) / n` with
/// `D = n * sum(x^2) - sum(x)^2`, rounded to the nearest integer.
pub open spec fn vstdev(vs: Seq<CellModel>) -> int {
    let n = vs.len() as int;
    let d = n * isum_sq(vs) - isum(vs) * isum(vs);
    round_sqrt(if d < 0 { 0 } else { d }, n)
}

/// A number as a cell: an integer where the fraction is whole and fits 32
/// bits, else the fraction in lowest terms.
pub open spec fn number_cell(n: int, d: int) -> CellModel {
    if abs(n) % d == 0 && fits_i32(exact_quotient(n, d)) {
        int_model(exact_quotient(n, d) as i32)
    } else {
        frac_cell(Some((n, d)))
    }
}

/// A value that an aggregate cannot read: an invalid cell or a string.
pub open spec fn unreadable(c: CellModel) -> bool {
    !c.is_valid || c.value is Text
}

/// MIN, MAX, AVG, SUM or STDEV (tags 9 to 13) of the values `vs`. Any
/// invalid or string value gives the invalid cell; so does a sum that leaves
/// 64 bits. STDEV is the population deviation rounded to the nearest
/// integer, exact over integers, and over fractions as far as `frac_var`
/// can hold it.
pub open spec fn aggregate(tag: i32, vs: Seq<CellModel>) -> CellModel {
    if vs.len() == 0 || exists|k: int| 0 <= k < vs.len() && unreadable(#[trigger] vs[k]) {
        invalid_model()
    } else if tag == 9 {
        number_cell(vmin(vs).num as int, vmin(vs).den as int)
    } else if tag == 10 {
        number_cell(vmax(vs).num as int, vmax(vs).den as int)
    } else if tag == 11 {
        match vsum(vs) {
            Some((n, d)) => number_cell(n, d * vs.len()),
            None => invalid_model(),
        }
    } else if tag == 12 {
        match vsum(vs) {
            Some((n, d)) => number_cell(n, d),
            None => invalid_model(),
        }
    } else {
        if exists|k: int| 0 <= k < vs.len() && (#[trigger] vs[k]).value is Float {
            match frac_var(vs) {
                Some((p, q)) => {
                    let k = round_sqrt_frac(if p < 0 { 0 } else { p }, q);
                    if fits_i32(k) {
                        int_model(k as i32)
                    } else {
                        invalid_model()
                    }
                },
                None => invalid_model(),
            }
        } else if fits_i32(vstdev(vs)) {
            int_model(vstdev(vs) as i32)
        } else {
            invalid_model()
        }
    }
}

} // verus!

verus! {

/// Largest `s` with `s * s <= x`.
fn isqrt(x: u128) -> (s: u128)
    requires
        x <= 0x4000_0000_0000_0000_0000_0000_0000_0000,
    ensures
        s * s <= x < (s + 1) * (s + 1),
        s <= 0x8000_0000_0000_0000,
{
    let mut lo: u128 = 0;
    let mut hi: u128 = 0x8000_0000_0000_0001;
    assert(hi * hi > x) by (nonlinear_arith)
        requires
            hi == 0x8000_0000_0000_0001u128,
            x <= 0x4000_0000_0000_0000_0000_0000_0000_0000,
    ;
    while lo + 1 < hi
        invariant
            lo < hi <= 0x8000_0000_0000_0001,
            lo * lo <= x,
            x < hi * hi,
        decreases hi - lo,
    {
        let mid = lo + (hi - lo) / 2;
        assert(mid * mid <= 0x4000_0000_0000_0001_0000_0000_0000_0001) by (nonlinear_arith)
            requires
                mid <= 0x8000_0000_0000_0001,
        ;
        if mid * mid <= x {
            lo = mid;
        } else {
            hi = mid;
        }
    }
    lo
}

proof fn lemma_round_sqrt_unique(k1: int, k2: int, d: int, n: int)
    requires
        n > 0,
        is_round_sqrt(k1, d, n),
        is_round_sqrt(k2, d, n),
    ensures
        k1 == k2,
{
    if k1 < k2 {
        assert((2 * k1 + 1) * n * ((2 * k1 + 1) * n) <= (2 * k2 - 1) * n * ((2 * k2 - 1) * n)) by (nonlinear_arith)
            requires
                0 <= k1 < k2,
                n > 0,
        ;
    } else if k2 < k1 {
        assert((2 * k2 + 1) * n * ((2 * k2 + 1) * n) <= (2 * k1 - 1) * n * ((2 * k1 - 1) * n)) by (nonlinear_arith)
            requires
                0 <= k2 < k1,
                n > 0,
        ;
    }
}

/// `sqrt(d) / n` rounded to the nearest integer, halves upward.
fn round_sqrt_exec(d: u128, n: u128) -> (k: u128)
    requires
        d <= 0x1000_0000_0000_0000_0000_0000_0000_0000,
        0 < n <= 0x8000_0000,
    ensures
        is_round_sqrt(k as int, d as int, n as int),
        k == round_sqrt(d as int, n as int),
{
    let s = isqrt(4 * d);
    let q = s / n;
    let k = (q + 1) / 2;
    proof {
        let r = s % n;
        assert(s == q * n + r && 0 <= r < n) by (nonlinear_arith)
            requires
                q == s / n,
                r == s % n,
                n > 0,
        ;
        let kk = k as int;
        let ni = n as int;
        let si = s as int;
        let qi = q as int;
        assert((2 * kk + 1) * ni > si) by (nonlinear_arith)
            requires
                si == qi * ni + (r as int),
                0 <= r < ni,
                kk == (qi + 1) / 2,
                qi >= 0,
        ;
        assert(kk == 0 || (2 * kk - 1) * ni <= si) by (nonlinear_arith)
            requires
                si == qi * ni + (r as int),
                0 <= r,
                kk == (qi + 1) / 2,
                qi >= 0,
                ni > 0,
        ;
        let x = 4 * (d as int);
        assert((2 * kk + 1) * ni * ((2 * kk + 1) * ni) > x) by (nonlinear_arith)
            requires
                (2 * kk + 1) * ni >= si + 1,
                x < (si + 1) * (si + 1),
                si >= 0,
        ;
        assert(kk == 0 || (2 * kk - 1) * ni * ((2 * kk - 1) * ni) <= x) by (nonlinear_arith)
            requires
                kk == 0 || (0 <= (2 * kk - 1) * ni <= si),
                si * si <= x,
        ;
        assert(is_round_sqrt(kk, d as int, ni));
        lemma_round_sqrt_unique(kk, round_sqrt(d as int, ni), d as int, ni);
    }
    k
}

} // verus!

verus! {

/// `number_cell` for parts that fit 127 bits.
fn number_cell_exec(n: i128, d: i128) -> (r: Cell)
    requires
        -0x4000_0000_0000_0000_0000_0000_0000_0000 <= n <= 0x4000_0000_0000_0000_0000_0000_0000_0000,
        0 < d <= 0x4000_0000_0000_0000_0000_0000_0000_0000,
    ensures
        r@ == number_cell(n as int, d as int),
        r.wf(),
{
    let an: u128 = if n < 0 { (-n) as u128 } else { n as u128 };
    let ad = d as u128;
    if an % ad == 0 {
        let q = an / ad;
        if n < 0 && q <= 0x8000_0000 {
            return Cell::new_int((-(q as i64)) as i32);
        } else if n >= 0 && q <= 0x7fff_ffff {
            return Cell::new_int(q as i32);
        }
    }
    make_frac(n, d)
}

fn frac_less(a: Fraction, b: Fraction) -> (r: bool)
    ensures
        r == frac_lt(a, b),
{
    proof {
        lemma_mul_i64(a.num as int, b.den as int);
        lemma_mul_i64(b.num as int, a.den as int);
    }
    (a.num as i128) * (b.den as i128) < (b.num as i128) * (a.den as i128)
}

fn num_exec(v: &CellValue) -> (r: Fraction)
    ensures
        r == num_of(v@),
{
    match v {
        CellValue::Int(i) => Fraction { num: *i as i64, den: 1 },
        CellValue::Float(f) => *f,
        CellValue::String(_) => Fraction { num: 0, den: 1 },
    }
}

/// The rectangle's cells lie in the grid.
proof fn lemma_rect_index(cols: int, a: int, b: int, k: int, n: int)
    requires
        cols > 0,
        n % cols == 0,
        0 <= a < n,
        0 <= b < n,
        0 <= k < rect_height(cols, a, b) * rect_width(cols, a, b),
    ensures
        0 <= rect_index(cols, a, b, k) < n,
        rect_height(cols, a, b) * rect_width(cols, a, b) <= n,
{
    let w = rect_width(cols, a, b);
    let h = rect_height(cols, a, b);
    let r0 = lo(row_of(cols, a), row_of(cols, b));
    let r1 = hi(row_of(cols, a), row_of(cols, b));
    let c0 = lo(col_of(cols, a), col_of(cols, b));
    let c1 = hi(col_of(cols, a), col_of(cols, b));
    let m = n / cols;
    assert(n == m * cols) by (nonlinear_arith)
        requires
            n % cols == 0,
            m == n / cols,
            cols > 0,
    ;
    assert(0 <= a / cols < m && 0 <= b / cols < m) by (nonlinear_arith)
        requires
            0 <= a < n,
            0 <= b < n,
            n == m * cols,
            cols > 0,
    ;
    assert(0 <= a % cols < cols && 0 <= b % cols < cols);
    assert(0 <= r0 <= r1 < m);
    assert(0 <= c0 <= c1 < cols);
    assert(w >= 1 && h >= 1);
    assert(0 <= k / w < h && 0 <= k % w < w) by (nonlinear_arith)
        requires
            0 <= k < h * w,
            w >= 1,
            h >= 1,
    ;
    assert(0 <= (r0 + k / w) * cols + c0 + k % w < n) by (nonlinear_arith)
        requires
            0 <= r0 + k / w <= r1,
            r1 < m,
            0 <= c0 + k % w <= c1,
            c1 < cols,
            n == m * cols,
            cols > 0,
    ;
    assert(h * w <= n) by (nonlinear_arith)
        requires
            1 <= h <= m - r0,
            r0 >= 0,
            1 <= w <= cols,
            n == m * cols,
    ;
}

/// MIN, MAX, AVG, SUM or STDEV (`tag` 9 to 13) over the rectangle spanned
/// by cells `a` and `b` of a grid of `cols` columns.
pub fn range_eval(arr: &Vec<Cell>, cols: i32, a: i32, b: i32, tag: i32) -> (r: Cell)
    requires
        cols > 0,
        arr@.len() <= i32::MAX,
        (arr@.len() as int) % (cols as int) == 0,
        0 <= a < arr@.len(),
        0 <= b < arr@.len(),
        forall|i: int| 0 <= i < arr@.len() ==> (#[trigger] arr@[i]).wf(),
        9 <= tag <= 13,
    ensures
        r@ == aggregate(tag, rect_models(crate::cell::models(arr@), cols as int, a as int, b as int)),
        r.wf(),
{
    let ghost vs = rect_models(crate::cell::models(arr@), cols as int, a as int, b as int);
    let c = cols as u64;
    let (ra, ca) = (a as u64 / c, a as u64 % c);
    let (rb, cb) = (b as u64 / c, b as u64 % c);
    let (r0, r1) = if ra <= rb { (ra, rb) } else { (rb, ra) };
    let (c0, c1) = if ca <= cb { (ca, cb) } else { (cb, ca) };
    let w = c1 - c0 + 1;
    let h = r1 - r0 + 1;
    proof {
        assert(h as int == rect_height(cols as int, a as int, b as int));
        assert(w as int == rect_width(cols as int, a as int, b as int));
        assert(h * w >= 1) by (nonlinear_arith)
            requires
                h >= 1,
                w >= 1,
        ;
        lemma_rect_index(cols as int, a as int, b as int, 0, arr@.len() as int);
        assert(h * w <= arr@.len()) by (nonlinear_arith)
            requires
                h * w == rect_height(cols as int, a as int, b as int) * rect_width(cols as int, a as int, b as int),
                rect_height(cols as int, a as int, b as int) * rect_width(cols as int, a as int, b as int) <= arr@.len(),
        ;
    }
    let count = h * w;
    let mut mn = Fraction { num: 0, den: 1 };
    let mut mx = Fraction { num: 0, den: 1 };
    let mut sum: Option<(i64, i64)> = Some((0, 1));
    let mut sq: Option<(i64, i64)> = Some((0, 1));
    let mut all_int = true;
    let mut sx: i128 = 0;
    let mut sxx: i128 = 0;
    let mut k: u64 = 0;
    while k < count
        invariant
            vs == rect_models(crate::cell::models(arr@), cols as int, a as int, b as int),
            count == vs.len(),
            count >= 1,
            count <= arr@.len() <= i32::MAX,
            c == cols,
            cols > 0,
            (arr@.len() as int) % (cols as int) == 0,
            0 <= a < arr@.len(),
            0 <= b < arr@.len(),
            forall|i: int| 0 <= i < arr@.len() ==> (#[trigger] arr@[i]).wf(),
            w as int == rect_width(cols as int, a as int, b as int),
            r0 as int == lo(row_of(cols as int, a as int), row_of(cols as int, b as int)),
            c0 as int == lo(col_of(cols as int, a as int), col_of(cols as int, b as int)),
            k <= count,
            forall|j: int| 0 <= j < k ==> !unreadable(#[trigger] vs[j]),
            k > 0 ==> mn == vmin(vs.subrange(0, k as int)) && mx == vmax(vs.subrange(0, k as int)),
            mn.den > 0,
            mx.den > 0,
            match sum {
                Some((n, d)) => vsum(vs.subrange(0, k as int)) == Some((n as int, d as int)) && d >= 1,
                None => vsum(vs.subrange(0, k as int)) is None,
            },
            match sq {
                Some((n, d)) => vsum_sq(vs.subrange(0, k as int)) == Some((n as int, d as int)) && d >= 1,
                None => vsum_sq(vs.subrange(0, k as int)) is None,
            },
            all_int == forall|j: int| 0 <= j < k ==> !((#[trigger] vs[j]).value is Float),
            all_int ==> sx == isum(vs.subrange(0, k as int)) && sxx == isum_sq(vs.subrange(0, k as int)),
            all_int ==> -(k as int) * 0x8000_0000 <= sx <= (k as int) * 0x8000_0000,
            all_int ==> 0 <= sxx <= (k as int) * 0x4000_0000_0000_0000,
        decreases count - k,
    {
        let row = r0 + k / w;
        let col = c0 + k % w;
        proof {
            lemma_rect_index(cols as int, a as int, b as int, k as int, arr@.len() as int);
        }
        let idx = row * c + col;
        let cell = &arr[idx as usize];
        let ghost p = vs.subrange(0, k as int);
        let ghost q = vs.subrange(0, k as int + 1);
        proof {
            assert(q.drop_last() =~= p);
            assert(vs[k as int] == arr@[idx as int]@);
            assert(q.last() == vs[k as int]);
        }
        if !cell.is_valid {
            return Cell::invalid();
        }
        if let CellValue::String(_) = &cell.value {
            return Cell::invalid();
        }
        let f = num_exec(&cell.value);
        proof {
            assert(arr@[idx as int].wf());
        }
        if k == 0 {
            mn = f;
            mx = f;
            proof {
                assert(q.len() == 1);
            }
        } else {
            if frac_less(f, mn) {
                mn = f;
            }
            if frac_less(mx, f) {
                mx = f;
            }
        }
        proof {
            assert(arr@[idx as int].wf());
            assert(f.den >= 1);
        }
        sum = add_exec(sum, f.num, f.den);
        sq = sq_exec(sq, f);
        if let CellValue::Float(_) = &cell.value {
            all_int = false;
        } else if all_int {
            let x = f.num as i128;
            proof {
                assert(-0x8000_0000 <= x <= 0x7fff_ffff);
                assert(0 <= x * x <= 0x4000_0000_0000_0000) by (nonlinear_arith)
                    requires
                        -0x8000_0000 <= x <= 0x7fff_ffff,
                ;
                assert((k as int) * 0x4000_0000_0000_0000 <= 0x2000_0000_0000_0000_0000_0000) by (nonlinear_arith)
                    requires
                        k <= 0x7fff_ffff,
                ;
            }
            sx = sx + x;
            sxx = sxx + x * x;
        }
        proof {
            assert forall|j: int| 0 <= j < k + 1 implies !unreadable(#[trigger] vs[j]) by {}
        }
        k = k + 1;
    }
    proof {
        assert(vs.subrange(0, count as int) =~= vs);
        assert(!(exists|j: int| 0 <= j < vs.len() && unreadable(#[trigger] vs[j])));
    }
    if tag == 9 {
        number_cell_exec(mn.num as i128, mn.den as i128)
    } else if tag == 10 {
        number_cell_exec(mx.num as i128, mx.den as i128)
    } else if tag == 11 || tag == 12 {
        match sum {
            Some((n, d)) => {
                if tag == 12 {
                    number_cell_exec(n as i128, d as i128)
                } else {
                    proof {
                        lemma_mul_i64(d as int, count as int);
                        assert(d * count >= 1) by (nonlinear_arith)
                            requires
                                d >= 1,
                                count >= 1,
                        ;
                    }
                    let dd = (d as i128) * (count as i128);
                    number_cell_exec(n as i128, dd)
                }
            },
            None => Cell::invalid(),
        }
    } else if !all_int {
        frac_stdev_exec(sum, sq, count, Ghost(vs))
    } else {
        let nn = count as i128;
        proof {
            assert(0 <= nn * sxx <= 0x1000_0000_0000_0000_0000_0000_0000_0000) by (nonlinear_arith)
                requires
                    1 <= nn <= 0x7fff_ffff,
                    0 <= sxx <= nn * 0x4000_0000_0000_0000,
            ;
            assert(0 <= sx * sx <= 0x1000_0000_0000_0000_0000_0000_0000_0000) by (nonlinear_arith)
                requires
                    1 <= nn <= 0x7fff_ffff,
                    -nn * 0x8000_0000 <= sx <= nn * 0x8000_0000,
            ;
        }
        let d = nn * sxx - sx * sx;
        let dc: u128 = if d < 0 { 0 } else { d as u128 };
        let kk = round_sqrt_exec(dc, count as u128);
        if kk <= 0x7fff_ffff {
            Cell::new_int(kk as i32)
        } else {
            Cell::invalid()
        }
    }
}

} // verus!

verus! {

/// Exec `add_step`.
fn add_exec(acc: Option<(i64, i64)>, fnum: i64, fden: i64) -> (r: Option<(i64, i64)>)
    requires
        fden >= 1,
        acc matches Some((n, d)) ==> d >= 1,
    ensures
        match r {
            Some((n, d)) => add_step(
                match acc {
                    Some((an, ad)) => Some((an as int, ad as int)),
                    None => None,
                },
                fnum as int,
                fden as int,
            ) == Some((n as int, d as int)) && d >= 1,
            None => add_step(
                match acc {
                    Some((an, ad)) => Some((an as int, ad as int)),
                    None => None,
                },
                fnum as int,
                fden as int,
            ) is None,
        },
{
    match acc {
        None => None,
        Some((n, d)) => {
            proof {
                crate::arith::lemma_mul_den(n as int, fden as int);
                crate::arith::lemma_mul_den(fnum as int, d as int);
                lemma_mul_i64(d as int, fden as int);
                assert(d * fden >= 1) by (nonlinear_arith)
                    requires
                        d >= 1,
                        fden >= 1,
                ;
            }
            let (n2, d2) = reduce((n as i128) * (fden as i128) + (fnum as i128) * (d as i128), (d as i128) * (fden as i128));
            if n2 < i64::MIN as i128 || n2 > i64::MAX as i128 || d2 > i64::MAX as i128 {
                None
            } else {
                Some((n2 as i64, d2 as i64))
            }
        },
    }
}

/// One step of `vsum_sq`: adds the square of `f`.
fn sq_exec(acc: Option<(i64, i64)>, f: Fraction) -> (r: Option<(i64, i64)>)
    requires
        f.den >= 1,
        acc matches Some((n, d)) ==> d >= 1,
    ensures
        ({
            let (qn, qd) = reduced(f.num * f.num, f.den * f.den);
            let a = match acc {
                Some((an, ad)) => Some((an as int, ad as int)),
                None => None,
            };
            let want = if fits_i64(qn) && fits_i64(qd) {
                add_step(a, qn, qd)
            } else {
                None
            };
            match r {
                Some((n, d)) => want == Some((n as int, d as int)) && d >= 1,
                None => want is None,
            }
        }),
{
    proof {
        lemma_mul_i64(f.num as int, f.num as int);
        lemma_mul_i64(f.den as int, f.den as int);
        assert(f.num * f.num >= 0) by (nonlinear_arith);
        assert(f.den * f.den >= 1) by (nonlinear_arith)
            requires
                f.den >= 1,
        ;
    }
    let (qn, qd) = reduce((f.num as i128) * (f.num as i128), (f.den as i128) * (f.den as i128));
    if qn < i64::MIN as i128 || qn > i64::MAX as i128 || qd > i64::MAX as i128 {
        return None;
    }
    add_exec(acc, qn as i64, qd as i64)
}

proof fn lemma_round_sqrt_frac_unique(k1: int, k2: int, p: int, q: int)
    requires
        q > 0,
        is_round_sqrt_frac(k1, p, q),
        is_round_sqrt_frac(k2, p, q),
    ensures
        k1 == k2,
{
    if k1 < k2 {
        assert(q * ((2 * k1 + 1) * (2 * k1 + 1)) <= q * ((2 * k2 - 1) * (2 * k2 - 1))) by (nonlinear_arith)
            requires
                0 <= k1 < k2,
                q > 0,
        ;
    } else if k2 < k1 {
        assert(q * ((2 * k2 + 1) * (2 * k2 + 1)) <= q * ((2 * k1 - 1) * (2 * k1 - 1))) by (nonlinear_arith)
            requires
                0 <= k2 < k1,
                q > 0,
        ;
    }
}

/// `sqrt(p / q)` rounded to the nearest integer, halves upward.
fn round_sqrt_frac_exec(p: u128, q: u128) -> (k: u128)
    requires
        p <= 0x1000_0000_0000_0000_0000_0000_0000_0000,
        q >= 1,
    ensures
        k == round_sqrt_frac(p as int, q as int),
{
    let t = (4 * p) / q;
    proof {
        assert((t as int) <= 4 * (p as int)) by (nonlinear_arith)
            requires
                (t as int) == (4 * (p as int)) / (q as int),
                q >= 1,
        ;
    }
    let s = isqrt(t);
    let k = (s + 1) / 2;
    proof {
        let r = (4 * (p as int)) % (q as int);
        let pi = p as int;
        let qi = q as int;
        let ti = t as int;
        let si = s as int;
        let ki = k as int;
        assert(4 * pi == qi * ti + r && 0 <= r < qi) by (nonlinear_arith)
            requires
                ti == (4 * pi) / qi,
                r == (4 * pi) % qi,
                qi >= 1,
        ;
        assert(2 * ki + 1 > si && (ki == 0 || 2 * ki - 1 <= si)) by (nonlinear_arith)
            requires
                ki == (si + 1) / 2,
                si >= 0,
        ;
        assert((2 * ki + 1) * (2 * ki + 1) >= ti + 1) by (nonlinear_arith)
            requires
                2 * ki + 1 >= si + 1,
                ti < (si + 1) * (si + 1),
                si >= 0,
        ;
        assert(4 * pi < qi * ((2 * ki + 1) * (2 * ki + 1))) by (nonlinear_arith)
            requires
                4 * pi == qi * ti + r,
                r < qi,
                (2 * ki + 1) * (2 * ki + 1) >= ti + 1,
                qi >= 1,
        ;
        assert(ki == 0 || qi * ((2 * ki - 1) * (2 * ki - 1)) <= 4 * pi) by (nonlinear_arith)
            requires
                ki == 0 || (0 <= 2 * ki - 1 <= si),
                si * si <= ti,
                4 * pi == qi * ti + r,
                r >= 0,
                qi >= 1,
        ;
        assert(is_round_sqrt_frac(ki, pi, qi));
        lemma_round_sqrt_frac_unique(ki, round_sqrt_frac(pi, qi), pi, qi);
    }
    k
}

/// STDEV from the running sums: `frac_var`, then the rounded square root.
fn frac_stdev_exec(sum: Option<(i64, i64)>, sq: Option<(i64, i64)>, count: u64, Ghost(vs): Ghost<Seq<CellModel>>) -> (r: Cell)
    requires
        1 <= count <= 0x7fff_ffff,
        count == vs.len(),
        match sum {
            Some((n, d)) => vsum(vs) == Some((n as int, d as int)) && d >= 1,
            None => vsum(vs) is None,
        },
        match sq {
            Some((n, d)) => vsum_sq(vs) == Some((n as int, d as int)) && d >= 1,
            None => vsum_sq(vs) is None,
        },
    ensures
        r@ == match frac_var(vs) {
            Some((p, q)) => {
                let k = round_sqrt_frac(if p < 0 { 0 } else { p }, q);
                if fits_i32(k) {
                    int_model(k as i32)
                } else {
                    invalid_model()
                }
            },
            None => invalid_model(),
        },
        r.wf(),
{
    let (a, b) = match sum {
        Some(x) => x,
        None => {
            return Cell::invalid();
        },
    };
    let (c, e) = match sq {
        Some(x) => x,
        None => {
            return Cell::invalid();
        },
    };
    let n = count as i128;
    proof {
        lemma_mul_i64(b as int, b as int);
        lemma_mul_i64(a as int, a as int);
        assert(-0x4000_0000_0000_0000_0000_0000 <= n * c <= 0x4000_0000_0000_0000_0000_0000) by (nonlinear_arith)
            requires
                1 <= n <= 0x7fff_ffff,
                i64::MIN <= c <= i64::MAX,
        ;
        assert(1 <= n * n <= 0x4000_0000_0000_0000) by (nonlinear_arith)
            requires
                1 <= n <= 0x7fff_ffff,
        ;
        assert(1 <= n * n * e <= 0x2000_0000_0000_0000_0000_0000_0000_0000) by (nonlinear_arith)
            requires
                1 <= n * n <= 0x4000_0000_0000_0000,
                1 <= e <= i64::MAX,
        ;
        assert(b * b >= 1) by (nonlinear_arith)
            requires
                b >= 1,
        ;
    }
    let bb = (b as i128) * (b as i128);
    let big: i128 = 0x0800_0000_0000_0000_0000_0000_0000_0000;
    let p1 = match (n * (c as i128)).checked_mul(bb) {
        Some(x) => x,
        None => {
            return Cell::invalid();
        },
    };
    let p2 = match ((a as i128) * (a as i128)).checked_mul(e as i128) {
        Some(x) => x,
        None => {
            return Cell::invalid();
        },
    };
    let q = match (n * n * (e as i128)).checked_mul(bb) {
        Some(x) => x,
        None => {
            return Cell::invalid();
        },
    };
    if p1 < -big || p1 > big || p2 < -big || p2 > big || q < -big || q > big {
        return Cell::invalid();
    }
    proof {
        assert(q >= 1) by (nonlinear_arith)
            requires
                q == n * n * e * (b * b),
                n * n * e >= 1,
                b * b >= 1,
        ;
    }
    let p = p1 - p2;
    let pc: u128 = if p < 0 { 0 } else { p as u128 };
    let k = round_sqrt_frac_exec(pc, q as u128);
    if k <= 0x7fff_ffff {
        Cell::new_int(k as i32)
    } else {
        Cell::invalid()
    }
}

} // verus!
