use vstd::prelude::*;
use crate::arith::{abs, exact_quotient, fits_i32};
use crate::cell::{Cell, CellValue, int_model, models};
use crate::label::{is_upper, letters_value};
use crate::lexer::chars_of;

verus! {

/// The progressions that autofill extends, in the order they are tried.
#[derive(Debug, Clone, Copy, PartialEq, Eq, Structural)]
pub enum Pattern {
    Arithmetic,
    Geometric,
    Fibonacci,
    Constant,
}

pub open spec fn is_ap(a: int, b: int, c: int, d: int) -> bool {
    b - a == c - b && c - b == d - c
}

/// A geometric progression with a whole ratio `b / a`.
pub open spec fn is_gp(a: int, b: int, c: int, d: int) -> bool {
    a != 0 && abs(b) % abs(a) == 0 && c == b * exact_quotient(b, a) && d == c * exact_quotient(b, a)
}

pub open spec fn is_fib(a: int, b: int, c: int, d: int) -> bool {
    c == a + b && d == b + c
}

/// The pattern of four seed values: arithmetic, then geometric, then
/// Fibonacci-like, then constant.
pub open spec fn pattern_of(s: Seq<i32>) -> Option<Pattern> {
    if s.len() < 4 {
        None
    } else {
        let (a, b, c, d) = (s[0] as int, s[1] as int, s[2] as int, s[3] as int);
        if is_ap(a, b, c, d) {
            Some(Pattern::Arithmetic)
        } else if is_gp(a, b, c, d) {
            Some(Pattern::Geometric)
        } else if is_fib(a, b, c, d) {
            Some(Pattern::Fibonacci)
        } else if a == b && b == c && c == d {
            Some(Pattern::Constant)
        } else {
            None
        }
    }
}

/// The value after `out[..i]` under pattern `p` seeded by `base`.
pub open spec fn next_value(p: Pattern, base: Seq<i32>, out: Seq<i32>, i: int) -> int {
    match p {
        Pattern::Arithmetic => out[i - 1] + (base[1] - base[0]),
        Pattern::Geometric => out[i - 1] * exact_quotient(base[1] as int, base[0] as int),
        Pattern::Fibonacci => out[i - 1] + out[i - 2],
        Pattern::Constant => base[0] as int,
    }
}

/// The seed is long enough for pattern `p` to extend it toward `total`
/// values: two values for the arithmetic and geometric ratios (and a first
/// value that is not 0 for the ratio), two previous values for a
/// Fibonacci-like step that is taken, one value for a constant.
pub open spec fn seed_ok(p: Pattern, base: Seq<i32>, total: int) -> bool {
    match p {
        Pattern::Arithmetic => base.len() >= 2,
        Pattern::Geometric => base.len() >= 2 && base[0] != 0,
        Pattern::Fibonacci => base.len() >= 2 || total <= base.len(),
        Pattern::Constant => base.len() >= 1,
    }
}

/// `out` is `base` extended by pattern `p`, toward `total` values, stopping
/// early only where the next value would not fit 32 bits.
pub open spec fn extends(p: Pattern, base: Seq<i32>, total: int, out: Seq<i32>) -> bool {
    &&& out.len() >= base.len()
    &&& out.subrange(0, base.len() as int) == base
    &&& forall|i: int| base.len() <= i < out.len() ==> #[trigger] out[i] as int == next_value(p, base, out, i)
    &&& out.len() <= if total > base.len() { total } else { base.len() as int }
    &&& out.len() < total ==> !fits_i32(next_value(p, base, out, out.len() as int))
}

pub fn detect(base: &Vec<i32>) -> (r: Option<Pattern>)
    ensures
        r == pattern_of(base@),
{
    if base.len() < 4 {
        return None;
    }
    let (a, b, c, d) = (base[0] as i64, base[1] as i64, base[2] as i64, base[3] as i64);
    if b - a == c - b && c - b == d - c {
        return Some(Pattern::Arithmetic);
    }
    if a != 0 {
        let ab: u64 = if a < 0 { (-a) as u64 } else { a as u64 };
        let bb: u64 = if b < 0 { (-b) as u64 } else { b as u64 };
        if bb % ab == 0 {
            let q = (bb / ab) as i64;
            let ratio = if (b < 0) != (a < 0) { -q } else { q };
            proof {
                assert(ratio == exact_quotient(b as int, a as int));
                assert(-0x8000_0000 <= ratio <= 0x8000_0000) by (nonlinear_arith)
                    requires
                        q == bb / ab,
                        ab >= 1,
                        bb <= 0x8000_0000,
                        ratio == q || ratio == -q,
                ;
                assert(-0x4000_0000_0000_0000 <= b * ratio <= 0x4000_0000_0000_0000) by (nonlinear_arith)
                    requires
                        -0x8000_0000 <= ratio <= 0x8000_0000,
                        -0x8000_0000 <= b <= 0x7fff_ffff,
                ;
                assert(-0x4000_0000_0000_0000 <= c * ratio <= 0x4000_0000_0000_0000) by (nonlinear_arith)
                    requires
                        -0x8000_0000 <= ratio <= 0x8000_0000,
                        -0x8000_0000 <= c <= 0x7fff_ffff,
                ;
            }
            if c == b * ratio && d == c * ratio {
                return Some(Pattern::Geometric);
            }
        }
    }
    if c == a + b && d == b + c {
        return Some(Pattern::Fibonacci);
    }
    if a == b && b == c && c == d {
        return Some(Pattern::Constant);
    }
    None
}

pub open spec fn pattern_name(p: Pattern) -> Seq<char> {
    match p {
        Pattern::Arithmetic => seq!['A', 'P'],
        Pattern::Geometric => seq!['G', 'P'],
        Pattern::Fibonacci => seq!['F', 'I', 'B'],
        Pattern::Constant => seq!['C', 'O', 'N', 'S', 'T'],
    }
}

fn name_of(p: Pattern) -> (r: Vec<char>)
    ensures
        r@ == pattern_name(p),
{
    match p {
        Pattern::Arithmetic => vec!['A', 'P'],
        Pattern::Geometric => vec!['G', 'P'],
        Pattern::Fibonacci => vec!['F', 'I', 'B'],
        Pattern::Constant => vec!['C', 'O', 'N', 'S', 'T'],
    }
}

/// The pattern of the first four values, by name: "AP", "GP", "FIB" or
/// "CONST".
pub fn detect_pattern(base: &Vec<i32>) -> (r: Option<String>)
    ensures
        match pattern_of(base@) {
            Some(p) => r matches Some(s) && s@ == pattern_name(p),
            None => r is None,
        },
{
    match detect(base) {
        Some(Pattern::Arithmetic) => {
            proof {
                reveal_strlit("AP");
            }
            Some(String::from_str("AP"))
        },
        Some(Pattern::Geometric) => {
            proof {
                reveal_strlit("GP");
            }
            Some(String::from_str("GP"))
        },
        Some(Pattern::Fibonacci) => {
            proof {
                reveal_strlit("FIB");
            }
            Some(String::from_str("FIB"))
        },
        Some(Pattern::Constant) => {
            proof {
                reveal_strlit("CONST");
            }
            Some(String::from_str("CONST"))
        },
        None => None,
    }
}

/// The pattern a name denotes.
pub fn pattern_from_name(name: &str) -> (r: Option<Pattern>)
    ensures
        r matches Some(p) ==> name@ == pattern_name(p),
        r is None ==> forall|p: Pattern| name@ != pattern_name(p),
{
    let v = chars_of(name);
    let ps = [Pattern::Arithmetic, Pattern::Geometric, Pattern::Fibonacci, Pattern::Constant];
    let mut k: usize = 0;
    while k < 4
        invariant
            k <= 4,
            v@ == name@,
            ps@ == seq![Pattern::Arithmetic, Pattern::Geometric, Pattern::Fibonacci, Pattern::Constant],
            forall|j: int| 0 <= j < k ==> name@ != pattern_name(#[trigger] ps@[j]),
        decreases 4 - k,
    {
        let p = ps[k];
        let w = name_of(p);
        if w.len() == v.len() {
            let mut i: usize = 0;
            let mut same = true;
            while i < w.len()
                invariant
                    i <= w@.len(),
                    w@.len() == v@.len(),
                    same == forall|j: int| 0 <= j < i ==> w@[j] == v@[j],
                decreases w@.len() - i,
            {
                if w[i] != v[i] {
                    same = false;
                }
                i = i + 1;
            }
            if same {
                assert(w@ =~= v@);
                return Some(p);
            }
        }
        k = k + 1;
    }
    proof {
        assert forall|p: Pattern| name@ != pattern_name(p) by {
            match p {
                Pattern::Arithmetic => assert(ps@[0] == p),
                Pattern::Geometric => assert(ps@[1] == p),
                Pattern::Fibonacci => assert(ps@[2] == p),
                Pattern::Constant => assert(ps@[3] == p),
            }
        }
    }
    None
}

} // verus!

verus! {

fn next_exec(p: Pattern, base: &Vec<i32>, out: &Vec<i32>) -> (r: i64)
    requires
        seed_ok(p, base@, (out@.len() + 1) as int),
        out@.len() >= base@.len(),
        out@.len() >= 1,
        p == Pattern::Fibonacci ==> out@.len() >= 2,
    ensures
        r as int == next_value(p, base@, out@, out@.len() as int),
{
    let i = out.len();
    match p {
        Pattern::Arithmetic => out[i - 1] as i64 + (base[1] as i64 - base[0] as i64),
        Pattern::Geometric => {
            let a = base[0] as i64;
            let b = base[1] as i64;
            let ab: u64 = if a < 0 { (-a) as u64 } else { a as u64 };
            let bb: u64 = if b < 0 { (-b) as u64 } else { b as u64 };
            let q = (bb / ab) as i64;
            let ratio = if (b < 0) != (a < 0) { -q } else { q };
            let x = out[i - 1] as i64;
            proof {
                assert(ratio == exact_quotient(b as int, a as int));
                assert(-0x8000_0000 <= ratio <= 0x8000_0000) by (nonlinear_arith)
                    requires
                        q == bb / ab,
                        ab >= 1,
                        bb <= 0x8000_0000,
                        ratio == q || ratio == -q,
                ;
                assert(-0x4000_0000_0000_0000 <= x * ratio <= 0x4000_0000_0000_0000) by (nonlinear_arith)
                    requires
                        -0x8000_0000 <= ratio <= 0x8000_0000,
                        -0x8000_0000 <= x <= 0x7fff_ffff,
                ;
            }
            x * ratio
        },
        Pattern::Fibonacci => out[i - 1] as i64 + out[i - 2] as i64,
        Pattern::Constant => base[0] as i64,
    }
}

/// `base` extended by pattern `p` toward `total_len` values.
pub fn extend_pattern(base: &Vec<i32>, p: Pattern, total_len: usize) -> (out: Vec<i32>)
    requires
        seed_ok(p, base@, total_len as int),
    ensures
        extends(p, base@, total_len as int, out@),
{
    let mut out: Vec<i32> = Vec::new();
    let mut k: usize = 0;
    while k < base.len()
        invariant
            k <= base@.len(),
            out@ == base@.subrange(0, k as int),
        decreases base@.len() - k,
    {
        out.push(base[k]);
        k = k + 1;
        assert(out@ =~= base@.subrange(0, k as int));
    }
    assert(out@.subrange(0, base@.len() as int) =~= base@);
    while out.len() < total_len
        invariant
            seed_ok(p, base@, total_len as int),
            out@.len() >= base@.len(),
            out@.subrange(0, base@.len() as int) == base@,
            forall|i: int| base@.len() <= i < out@.len() ==> #[trigger] out@[i] as int == next_value(p, base@, out@, i),
            out@.len() <= if total_len > base@.len() { total_len as int } else { base@.len() as int },
        decreases total_len - out@.len(),
    {
        let v = next_exec(p, base, &out);
        if v < i32::MIN as i64 || v > i32::MAX as i64 {
            return out;
        }
        let ghost before = out@;
        out.push(v as i32);
        proof {
            assert(out@.subrange(0, base@.len() as int) =~= before.subrange(0, base@.len() as int));
            assert forall|i: int| base@.len() <= i < out@.len() implies #[trigger] out@[i] as int == next_value(p, base@, out@, i) by {
                if i < before.len() {
                    assert(out@[i] == before[i]);
                }
                if i >= 1 {
                    assert(out@[i - 1] == before[i - 1]);
                }
                if i >= 2 {
                    assert(out@[i - 2] == before[i - 2]);
                }
                assert(next_value(p, base@, out@, i) == next_value(p, base@, before, i));
            }
        }
    }
    out
}

/// `base` extended to `total_len` values by the pattern named `pattern`
/// ("AP", "GP", "FIB" or "CONST"); any other name leaves it as it is.
pub fn generate_sequence(base: &Vec<i32>, pattern: &str, total_len: usize) -> (out: Vec<i32>)
    requires
        forall|p: Pattern| pattern@ == pattern_name(p) ==> seed_ok(p, base@, total_len as int),
    ensures
        forall|p: Pattern| pattern@ == pattern_name(p) ==> extends(p, base@, total_len as int, out@),
        (forall|p: Pattern| pattern@ != pattern_name(p)) ==> out@ == base@,
{
    match pattern_from_name(pattern) {
        Some(p) => {
            let out = extend_pattern(base, p, total_len);
            proof {
                assert forall|q: Pattern| pattern@ == pattern_name(q) implies q == p by {
                    match q {
                        Pattern::Arithmetic => {},
                        _ => {},
                    }
                }
            }
            out
        },
        None => {
            let mut out: Vec<i32> = Vec::new();
            let mut k: usize = 0;
            while k < base.len()
                invariant
                    k <= base@.len(),
                    out@ == base@.subrange(0, k as int),
                decreases base@.len() - k,
            {
                out.push(base[k]);
                k = k + 1;
                assert(out@ =~= base@.subrange(0, k as int));
            }
            assert(out@ =~= base@);
            out
        },
    }
}

} // verus!

verus! {

/// The column that the letters `col` name, counting from zero, if they are
/// upper-case letters.
pub open spec fn column_index(col: Seq<char>) -> int {
    if col.len() > 0 && forall|i: int| 0 <= i < col.len() ==> is_upper(#[trigger] col[i]) {
        letters_value(col) - 1
    } else {
        -1
    }
}

/// The first seed problem among rows `i..4` of column `col`.
pub open spec fn seed_error(vals: Seq<crate::cell::CellModel>, cols: int, col: int, i: int) -> Option<&'static str>
    decreases 4 - i,
{
    if i >= 4 {
        None
    } else {
        let idx = i * cols + col;
        if idx >= vals.len() || !vals[idx].is_valid {
            Some("Autofill needs four valid integers")
        } else if !(vals[idx].value is Int) {
            Some("Only integer autofill supported")
        } else {
            seed_error(vals, cols, col, i + 1)
        }
    }
}

/// The seed: the integers of the first four rows of column `col`.
pub open spec fn seed_of(vals: Seq<crate::cell::CellModel>, cols: int, col: int) -> Seq<i32> {
    Seq::new(4, |i: int| vals[i * cols + col].value->Int_0)
}

/// The grid with `out[row]` written in rows `0..out.len()` of column `col`.
pub open spec fn fill_column(vals: Seq<crate::cell::CellModel>, cols: int, col: int, out: Seq<i32>) -> Seq<crate::cell::CellModel> {
    Seq::new(
        vals.len(),
        |k: int|
            if k % cols == col && k / cols < out.len() {
                int_model(out[k / cols])
            } else {
                vals[k]
            },
    )
}

proof fn lemma_seed_ok(vals: Seq<crate::cell::CellModel>, cols: int, col: int, i: int, j: int)
    requires
        0 <= i <= j < 4,
        seed_error(vals, cols, col, i) is None,
    ensures
        j * cols + col < vals.len(),
        vals[j * cols + col].is_valid,
        vals[j * cols + col].value is Int,
    decreases 4 - i,
{
    if i < j {
        lemma_seed_ok(vals, cols, col, i + 1, j);
    }
}

/// The column named by the letters `col_char`, if it lies among `cols`.
fn parse_column(col_char: &str, cols: i32) -> (r: Option<usize>)
    requires
        cols > 0,
    ensures
        match r {
            Some(c) => c as int == column_index(col_char@) && c < cols,
            None => column_index(col_char@) < 0 || column_index(col_char@) >= cols,
        },
{
    let v = chars_of(col_char);
    let mut col: i64 = 0;
    let mut i: usize = 0;
    if v.len() == 0 {
        return None;
    }
    while i < v.len()
        invariant
            i <= v@.len(),
            v@ == col_char@,
            v@.len() > 0,
            cols > 0,
            forall|j: int| 0 <= j < i ==> is_upper(#[trigger] v@[j]),
            col == letters_value(v@.subrange(0, i as int)),
            0 <= col <= cols,
            i > 0 ==> col >= 1,
        decreases v@.len() - i,
    {
        let ch = v[i];
        if !('A' <= ch && ch <= 'Z') {
            return None;
        }
        proof {
            assert(v@.subrange(0, i as int + 1).drop_last() =~= v@.subrange(0, i as int));
        }
        col = 26 * col + (ch as u32 - 'A' as u32 + 1) as i64;
        if col - 1 >= cols as i64 {
            proof {
                lemma_letters_grow(v@, i as int + 1);
            }
            return None;
        }
        i = i + 1;
    }
    proof {
        assert(v@.subrange(0, v@.len() as int) =~= v@);
        assert(forall|j: int| 0 <= j < col_char@.len() ==> is_upper(#[trigger] col_char@[j]));
    }
    Some((col - 1) as usize)
}

/// The integers of the first four rows of column `col`.
fn read_seed(arr: &Vec<Cell>, cols: i32, col: usize) -> (r: Result<Vec<i32>, &'static str>)
    requires
        cols > 0,
        col < cols,
    ensures
        match r {
            Ok(seed) => seed_error(models(arr@), cols as int, col as int, 0) is None && seed@ == seed_of(models(arr@), cols as int, col as int),
            Err(m) => seed_error(models(arr@), cols as int, col as int, 0) == Some(m),
        },
{
    let ghost vals = models(arr@);
    let c = cols as u64;
    let mut seed: Vec<i32> = Vec::new();
    let mut r: usize = 0;
    while r < 4
        invariant
            r <= 4,
            vals == models(arr@),
            c == cols,
            col < c,
            seed_error(vals, cols as int, col as int, 0) == seed_error(vals, cols as int, col as int, r as int),
            seed@.len() == r,
            forall|j: int| 0 <= j < r ==> #[trigger] seed@[j] == seed_of(vals, cols as int, col as int)[j],
        decreases 4 - r,
    {
        proof {
            assert((r as int) * (c as int) <= 3 * 0x7fff_ffff) by (nonlinear_arith)
                requires
                    r <= 3,
                    c <= 0x7fff_ffff,
            ;
        }
        let idx64 = (r as u64) * c + col as u64;
        if idx64 >= arr.len() as u64 {
            return Err("Autofill needs four valid integers");
        }
        let idx = idx64 as usize;
        if !arr[idx].is_valid {
            return Err("Autofill needs four valid integers");
        }
        match arr[idx].value {
            CellValue::Int(x) => {
                seed.push(x);
            },
            _ => {
                return Err("Only integer autofill supported");
            },
        }
        r = r + 1;
    }
    proof {
        assert(seed@ =~= seed_of(vals, cols as int, col as int));
    }
    Ok(seed)
}

/// Writes `out[row]` in rows `0..out.len()` of column `col`.
fn write_column(arr: &mut Vec<Cell>, c: usize, col: usize, out: &Vec<i32>)
    requires
        c > 0,
        col < c,
        out@.len() * c <= old(arr)@.len(),
    ensures
        final(arr)@.len() == old(arr)@.len(),
        forall|k: int| 0 <= k < old(arr)@.len() && (#[trigger] old(arr)@[k]).wf() ==> final(arr)@[k].wf(),
        models(final(arr)@) == fill_column(models(old(arr)@), c as int, col as int, out@),
{
    let ghost a0 = arr@;
    let ghost vals = models(a0);
    let n = arr.len();
    let mut row: usize = 0;
    proof {
        assert(models(arr@) =~= fill_column(vals, c as int, col as int, out@.subrange(0, 0)));
    }
    while row < out.len()
        invariant
            row <= out@.len(),
            a0.len() == arr@.len(),
            n == a0.len(),
            vals == models(a0),
            c > 0,
            col < c,
            out@.len() * c <= a0.len(),
            forall|k: int| 0 <= k < a0.len() && (#[trigger] a0[k]).wf() ==> arr@[k].wf(),
            models(arr@) == fill_column(vals, c as int, col as int, out@.subrange(0, row as int)),
        decreases out@.len() - row,
    {
        proof {
            assert(row * c + col < a0.len()) by (nonlinear_arith)
                requires
                    row < out@.len(),
                    out@.len() * c <= a0.len(),
                    col < c,
            ;
        }
        let idx = row * c + col;
        let ghost before = arr@;
        let cell = Cell::new_int(out[row]);
        arr.set(idx, cell);
        proof {
            crate::cell::lemma_models_update(before, idx as int, cell);
            assert forall|k: int| 0 <= k < a0.len() implies #[trigger] models(arr@)[k] == fill_column(vals, c as int, col as int, out@.subrange(0, row as int + 1))[k] by {
                let kr = k / (c as int);
                let kc = k % (c as int);
                assert(k == kr * c + kc && 0 <= kc < c) by (nonlinear_arith)
                    requires
                        kr == k / (c as int),
                        kc == k % (c as int),
                        c > 0,
                ;
                if k == idx {
                    assert(kc == col && kr == row) by (nonlinear_arith)
                        requires
                            k == row * c + col,
                            k == kr * c + kc,
                            0 <= kc < c,
                            col < c,
                    ;
                } else if kc == col && kr == row {
                    assert(false);
                }
            }
            assert(models(arr@) =~= fill_column(vals, c as int, col as int, out@.subrange(0, row as int + 1)));
        }
        row = row + 1;
    }
    proof {
        assert(out@.subrange(0, out@.len() as int) =~= out@);
    }
}

/// What autofill of column `col` toward `length` rows did to cells `a0`,
/// giving `a1` and answering `res`.
pub open spec fn autofilled(col_name: Seq<char>, length: int, cols: int, a0: Seq<Cell>, a1: Seq<Cell>, res: Result<(), &'static str>) -> bool {
    let col = column_index(col_name);
    let vals = models(a0);
    &&& a1.len() == a0.len()
    &&& forall|k: int| 0 <= k < a0.len() && (#[trigger] a0[k]).wf() ==> a1[k].wf()
    &&& if col < 0 || col >= cols {
        res == Err::<(), &'static str>("Column index out of bounds") && a1 == a0
    } else if let Some(m) = seed_error(vals, cols, col, 0) {
        res == Err::<(), &'static str>(m) && a1 == a0
    } else if let Some(p) = pattern_of(seed_of(vals, cols, col)) {
        res is Ok && exists|out: Seq<i32>|
            extends(p, seed_of(vals, cols, col), crate::range::min_of(length, (a0.len() as int) / cols), out) && models(a1)
                == fill_column(vals, cols, col, out)
    } else {
        res == Err::<(), &'static str>("Pattern not recognised") && a1 == a0
    }
}

/// Fills column `col_char` (letters) of the grid down to row `length` with
/// the pattern of its first four cells, which must hold integers.
pub fn autofill(col_char: &str, length: usize, cols: i32, _rows: i32, arr: &mut Vec<Cell>) -> (res: Result<(), &'static str>)
    requires
        cols > 0,
        (old(arr)@.len() as int) % (cols as int) == 0,
    ensures
        autofilled(col_char@, length as int, cols as int, old(arr)@, final(arr)@, res),
{
    let col = match parse_column(col_char, cols) {
        Some(x) => x,
        None => {
            return Err("Column index out of bounds");
        },
    };
    let seed = read_seed(arr, cols, col)?;
    let p = match detect(&seed) {
        Some(p) => p,
        None => {
            return Err("Pattern not recognised");
        },
    };
    let c = cols as usize;
    let rows_avail = arr.len() / c;
    let total = if length < rows_avail { length } else { rows_avail };
    proof {
        let j: int = 3;
        lemma_seed_ok(models(arr@), cols as int, col as int, 0, j);
        assert(models(arr@).len() == arr@.len());
        let m = (arr@.len() as int) / (c as int);
        assert(arr@.len() == m * (c as int)) by (nonlinear_arith)
            requires
                (arr@.len() as int) % (c as int) == 0,
                m == (arr@.len() as int) / (c as int),
                c > 0,
        ;
        assert(4 * (c as int) <= arr@.len()) by (nonlinear_arith)
            requires
                j * (cols as int) + (col as int) < arr@.len(),
                arr@.len() == m * (c as int),
                j == 3,
                c == cols,
                c > 0,
                col >= 0,
        ;
        assert(rows_avail >= 4) by (nonlinear_arith)
            requires
                rows_avail == (arr@.len() as int) / (c as int),
                4 * (c as int) <= arr@.len(),
                c > 0,
        ;
        if p == Pattern::Geometric {
            assert(seed@[0] != 0);
        }
        lemma_seed_ok(models(arr@), cols as int, col as int, 0, 0);
    }
    let out = extend_pattern(&seed, p, total);
    proof {
        assert(out@.len() <= rows_avail);
        assert(out@.len() * c <= arr@.len()) by (nonlinear_arith)
            requires
                out@.len() <= rows_avail,
                rows_avail == (arr@.len() as int) / (c as int),
                c > 0,
        ;
    }
    write_column(arr, c, col, &out);
    Ok(())
}

/// The value of letters is at least that of any prefix.
pub proof fn lemma_letters_grow(s: Seq<char>, k: int)
    requires
        0 <= k <= s.len(),
        forall|i: int| 0 <= i < s.len() ==> is_upper(#[trigger] s[i]) || true,
    ensures
        (forall|i: int| 0 <= i < s.len() ==> is_upper(#[trigger] s[i])) ==> letters_value(s) >= letters_value(s.subrange(0, k)),
    decreases s.len() - k,
{
    if k < s.len() {
        lemma_letters_grow(s, k + 1);
        let q = s.subrange(0, k + 1);
        assert(q.drop_last() =~= s.subrange(0, k));
        if forall|i: int| 0 <= i < s.len() ==> is_upper(#[trigger] s[i]) {
            assert(is_upper(q.last()));
            crate::label::lemma_letters_nonneg(s.subrange(0, k));
        }
    } else {
        assert(s.subrange(0, k) =~= s);
    }
}

} // verus!
