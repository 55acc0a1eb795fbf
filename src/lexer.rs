use vstd::prelude::*;
use crate::label::{digits_value, is_dec};

verus! {

/// First position at or after `from` holding `ch`, or -1.
pub open spec fn find_from(s: Seq<char>, from: int, ch: char) -> int
    decreases s.len() - from,
{
    if from < 0 || from >= s.len() {
        -1
    } else if s[from] == ch {
        from
    } else {
        find_from(s, from + 1, ch)
    }
}

pub open spec fn all_digits(s: Seq<char>) -> bool {
    forall|i: int| 0 <= i < s.len() ==> is_dec(#[trigger] s[i])
}

/// A non-empty run of digits whose value fits 32 bits.
pub open spec fn int_lit(s: Seq<char>) -> Option<i32> {
    if s.len() > 0 && all_digits(s) && digits_value(s) <= i32::MAX {
        Some(digits_value(s) as i32)
    } else {
        None
    }
}

pub open spec fn pow10(k: nat) -> int
    decreases k,
{
    if k == 0 {
        1
    } else {
        10 * pow10((k - 1) as nat)
    }
}

pub proof fn lemma_find_from(s: Seq<char>, from: int, ch: char)
    requires
        0 <= from,
    ensures
        find_from(s, from, ch) == -1 || (from <= find_from(s, from, ch) < s.len() && s[find_from(s, from, ch)] == ch),
        find_from(s, from, ch) == -1 ==> forall|i: int| from <= i < s.len() ==> s[i] != ch,
        find_from(s, from, ch) != -1 ==> forall|i: int| from <= i < find_from(s, from, ch) ==> s[i] != ch,
    decreases s.len() - from,
{
    if from < s.len() && s[from] != ch {
        lemma_find_from(s, from + 1, ch);
    }
}

/// Exec `find_from`.
pub fn find_char(v: &Vec<char>, from: usize, ch: char) -> (r: Option<usize>)
    ensures
        match r {
            Some(i) => find_from(v@, from as int, ch) == i as int,
            None => find_from(v@, from as int, ch) == -1,
        },
{
    let mut i = from;
    while i < v.len()
        invariant
            from <= i,
            find_from(v@, from as int, ch) == find_from(v@, i as int, ch),
        decreases v.len() - i,
    {
        if v[i] == ch {
            return Some(i);
        }
        i = i + 1;
    }
    None
}

/// The characters of `a`.
pub fn chars_of(a: &str) -> (v: Vec<char>)
    ensures
        v@ == a@,
{
    let n = a.unicode_len();
    let mut v: Vec<char> = Vec::new();
    let mut i: usize = 0;
    while i < n
        invariant
            i <= n,
            n == a@.len(),
            v@ == a@.subrange(0, i as int),
        decreases n - i,
    {
        v.push(a.get_char(i));
        i = i + 1;
        assert(v@ =~= a@.subrange(0, i as int));
    }
    assert(v@ =~= a@);
    v
}

proof fn lemma_digits_value_step(s: Seq<char>, i: int)
    requires
        0 <= i < s.len(),
        all_digits(s.subrange(0, i + 1)),
    ensures
        digits_value(s.subrange(0, i + 1)) == 10 * digits_value(s.subrange(0, i)) + crate::label::digit_value(s[i]),
        digits_value(s.subrange(0, i)) >= 0,
{
    let q = s.subrange(0, i + 1);
    assert(q.drop_last() =~= s.subrange(0, i));
    assert(is_dec(q[i]));
    lemma_digits_nonneg(s.subrange(0, i));
}

pub proof fn lemma_digits_nonneg(s: Seq<char>)
    ensures
        digits_value(s) >= 0,
    decreases s.len(),
{
    if s.len() > 0 {
        lemma_digits_nonneg(s.drop_last());
    }
}

/// A non-empty run of digits whose value is at most `max`.
pub open spec fn digits_upto(s: Seq<char>, max: int) -> Option<int> {
    if s.len() > 0 && all_digits(s) && digits_value(s) <= max {
        Some(digits_value(s))
    } else {
        None
    }
}

/// Exec `digits_upto` on `v[lo..hi]`.
pub fn parse_digits(v: &Vec<char>, lo: usize, hi: usize, max: u64) -> (r: Option<u64>)
    requires
        lo <= hi <= v@.len(),
    ensures
        match r {
            Some(x) => digits_upto(v@.subrange(lo as int, hi as int), max as int) == Some(x as int) && x >= 0,
            None => digits_upto(v@.subrange(lo as int, hi as int), max as int) is None,
        },
{
    let ghost s = v@.subrange(lo as int, hi as int);
    if lo == hi {
        return None;
    }
    let mut acc: u128 = 0;
    let mut i = lo;
    while i < hi
        invariant
            lo <= i <= hi <= v@.len(),
            s == v@.subrange(lo as int, hi as int),
            all_digits(s.subrange(0, i - lo)),
            acc == digits_value(s.subrange(0, i - lo)),
            0 <= acc <= max,
        decreases hi - i,
    {
        let ch = v[i];
        if !('0' <= ch && ch <= '9') {
            proof {
                assert(s[i - lo] == ch);
            }
            return None;
        }
        proof {
            assert(s[i - lo] == ch);
            assert(all_digits(s.subrange(0, i - lo + 1))) by {
                assert forall|j: int| 0 <= j < i - lo + 1 implies is_dec(#[trigger] s.subrange(0, i - lo + 1)[j]) by {
                    if j < i - lo {
                        assert(s.subrange(0, i - lo)[j] == s[j]);
                    }
                }
            }
            lemma_digits_value_step(s, i - lo);
        }
        acc = 10 * acc + (ch as u32 - '0' as u32) as u128;
        if acc > max as u128 {
            proof {
                lemma_digits_grow(s, i - lo + 1);
            }
            return None;
        }
        i = i + 1;
    }
    proof {
        assert(s.subrange(0, hi - lo) =~= s);
    }
    Some(acc as u64)
}

/// Exec `int_lit` on `v[lo..hi]`.
pub fn parse_int(v: &Vec<char>, lo: usize, hi: usize) -> (r: Option<i32>)
    requires
        lo <= hi <= v@.len(),
    ensures
        r == int_lit(v@.subrange(lo as int, hi as int)),
        r matches Some(x) ==> x >= 0,
{
    match parse_digits(v, lo, hi, i32::MAX as u64) {
        Some(x) => Some(x as i32),
        None => None,
    }
}

/// The value of a run of digits is at least that of any prefix.
proof fn lemma_digits_grow(s: Seq<char>, k: int)
    requires
        0 <= k <= s.len(),
        all_digits(s.subrange(0, k)),
    ensures
        all_digits(s) ==> digits_value(s) >= digits_value(s.subrange(0, k)),
    decreases s.len() - k,
{
    if k < s.len() && all_digits(s) {
        assert(all_digits(s.subrange(0, k + 1)));
        lemma_digits_value_step(s, k);
        lemma_digits_nonneg(s.subrange(0, k));
        lemma_digits_grow(s, k + 1);
    } else if k == s.len() {
        assert(s.subrange(0, k) =~= s);
    }
}

proof fn lemma_pow10_mono(j: nat, m: nat)
    requires
        j <= m,
    ensures
        1 <= pow10(j) <= pow10(m),
    decreases m,
{
    if j < m {
        lemma_pow10_mono(j, (m - 1) as nat);
    } else if j > 0 {
        lemma_pow10_mono((j - 1) as nat, (j - 1) as nat);
    }
}


/// A character that `char::is_whitespace` accepts: the Unicode White_Space
/// property.
pub open spec fn is_space(c: char) -> bool {
    ||| ('\u{9}' <= c && c <= '\u{d}')
    ||| c == ' '
    ||| c == '\u{85}'
    ||| c == '\u{a0}'
    ||| c == '\u{1680}'
    ||| ('\u{2000}' <= c && c <= '\u{200a}')
    ||| c == '\u{2028}'
    ||| c == '\u{2029}'
    ||| c == '\u{202f}'
    ||| c == '\u{205f}'
    ||| c == '\u{3000}'
}

pub fn is_space_exec(c: char) -> (r: bool)
    ensures
        r == is_space(c),
{
    ('\u{9}' <= c && c <= '\u{d}') || c == ' ' || c == '\u{85}' || c == '\u{a0}' || c == '\u{1680}' || ('\u{2000}' <= c
        && c <= '\u{200a}') || c == '\u{2028}' || c == '\u{2029}' || c == '\u{202f}' || c == '\u{205f}' || c == '\u{3000}'
}

/// First position in `lo..hi` that is not a space, or `hi`.
pub open spec fn skip_front(s: Seq<char>, lo: int, hi: int) -> int
    decreases hi - lo,
{
    if lo < hi && is_space(s[lo]) {
        skip_front(s, lo + 1, hi)
    } else {
        lo
    }
}

/// End of `s[lo..hi]` once trailing spaces are dropped.
pub open spec fn skip_back(s: Seq<char>, lo: int, hi: int) -> int
    decreases hi - lo,
{
    if lo < hi && is_space(s[hi - 1]) {
        skip_back(s, lo, hi - 1)
    } else {
        hi
    }
}

/// First position at or after `i` holding a space, or the end of `s`.
pub open spec fn space_from(s: Seq<char>, i: int) -> int
    decreases s.len() - i,
{
    if i < 0 || i >= s.len() {
        s.len() as int
    } else if is_space(s[i]) {
        i
    } else {
        space_from(s, i + 1)
    }
}

/// Exec `skip_front(v, i, v.len())`.
pub fn skip_spaces(v: &Vec<char>, i: usize) -> (r: usize)
    requires
        i <= v@.len(),
    ensures
        r as int == skip_front(v@, i as int, v@.len() as int),
        i <= r <= v@.len(),
{
    let mut k = i;
    while k < v.len() && is_space_exec(v[k])
        invariant
            i <= k <= v@.len(),
            skip_front(v@, i as int, v@.len() as int) == skip_front(v@, k as int, v@.len() as int),
        decreases v@.len() - k,
    {
        k = k + 1;
    }
    k
}

/// Exec `space_from`.
pub fn find_space(v: &Vec<char>, i: usize) -> (r: usize)
    requires
        i <= v@.len(),
    ensures
        r as int == space_from(v@, i as int),
        i <= r <= v@.len(),
{
    let mut k = i;
    while k < v.len() && !is_space_exec(v[k])
        invariant
            i <= k <= v@.len(),
            space_from(v@, i as int) == space_from(v@, k as int),
        decreases v@.len() - k,
    {
        k = k + 1;
    }
    k
}

/// A decimal number with an optional leading `+` whose value fits `usize`,
/// read as `str::parse::<usize>` reads it.
pub open spec fn usize_lit(s: Seq<char>) -> Option<int> {
    if s.len() > 0 && s[0] == '+' {
        digits_upto(s.subrange(1, s.len() as int), usize::MAX as int)
    } else {
        digits_upto(s, usize::MAX as int)
    }
}

/// Exec `usize_lit` on `v[lo..hi]`.
pub fn parse_usize(v: &Vec<char>, lo: usize, hi: usize) -> (r: Option<usize>)
    requires
        lo <= hi <= v@.len(),
    ensures
        match r {
            Some(x) => usize_lit(v@.subrange(lo as int, hi as int)) == Some(x as int),
            None => usize_lit(v@.subrange(lo as int, hi as int)) is None,
        },
{
    let ghost s = v@.subrange(lo as int, hi as int);
    let start = if lo < hi && v[lo] == '+' {
        assert(s.subrange(1, s.len() as int) =~= v@.subrange(lo + 1, hi as int));
        lo + 1
    } else {
        lo
    };
    match parse_digits(v, start, hi, usize::MAX as u64) {
        Some(x) => Some(x as usize),
        None => None,
    }
}

} // verus!

verus! {

/// First position at or after `i` holding `e` or `E`, or the end of `s`.
pub open spec fn exp_from(s: Seq<char>, i: int) -> int
    decreases s.len() - i,
{
    if i < 0 || i >= s.len() {
        s.len() as int
    } else if s[i] == 'e' || s[i] == 'E' {
        i
    } else {
        exp_from(s, i + 1)
    }
}

/// End of `s[lo..hi]` once trailing zeros are dropped.
pub open spec fn zeros_back(s: Seq<char>, lo: int, hi: int) -> int
    decreases hi - lo,
{
    if lo < hi && s[hi - 1] == '0' {
        zeros_back(s, lo, hi - 1)
    } else {
        hi
    }
}

pub const EXP_LIMIT: u64 = 1_000_000_000;

pub const LIT_LIMIT: i128 = 1_000_000_000_000_000_000_000_000_000_000_000_000;

/// A decimal literal with a point: digits, `.`, digits (a digit somewhere),
/// then an optional exponent `e` or `E` with an optional sign and digits.
/// `None` if it is not one. Otherwise its value `num / den`, read as the
/// digits without the point (trailing zeros of the decimals dropped) times
/// a power of ten; `Some(None)` where that value is not zero and its
/// exponent passes a billion in size, or `num` or `den` passes 10^36.
pub open spec fn float_lit(s: Seq<char>) -> Option<Option<(int, int)>> {
    let n = s.len() as int;
    let me = exp_from(s, 0);
    let p = find_from(s, 0, '.');
    if p < 0 || p >= me || !all_digits(s.subrange(0, p) + s.subrange(p + 1, me)) || me - 1 == 0 {
        None
    } else {
        let (eneg, st) = if me + 1 < n && s[me + 1] == '-' {
            (true, me + 2)
        } else if me + 1 < n && s[me + 1] == '+' {
            (false, me + 2)
        } else {
            (false, me + 1)
        };
        let ds = s.subrange(st, n);
        if (me < n && (ds.len() == 0 || !all_digits(ds))) {
            None
        } else {
            let fe = zeros_back(s, p + 1, me);
            let m = digits_value(s.subrange(0, p) + s.subrange(p + 1, fe));
            let ev = if me < n { digits_value(ds) } else { 0 };
            let e = (if eneg { -ev } else { ev }) - (fe - p - 1);
            if m == 0 {
                Some(Some((0, 1)))
            } else if ev > EXP_LIMIT as int || e > 36 || e < -36 {
                Some(None)
            } else {
                let num = m * (if e > 0 { pow10(e as nat) } else { 1 });
                let den = if e < 0 { pow10((-e) as nat) } else { 1 };
                if num <= LIT_LIMIT && den <= LIT_LIMIT {
                    Some(Some((num, den)))
                } else {
                    Some(None)
                }
            }
        }
    }
}

} // verus!

verus! {

/// `digits_upto(v[lo..hi], max)` for bounds up to 10^37.
fn parse_digits_wide(v: &Vec<char>, lo: usize, hi: usize, max: u128) -> (r: Option<u128>)
    requires
        lo <= hi <= v@.len(),
        max <= 10_000_000_000_000_000_000_000_000_000_000_000_000,
    ensures
        match r {
            Some(x) => digits_upto(v@.subrange(lo as int, hi as int), max as int) == Some(x as int),
            None => digits_upto(v@.subrange(lo as int, hi as int), max as int) is None,
        },
{
    let ghost s = v@.subrange(lo as int, hi as int);
    if lo == hi {
        return None;
    }
    let mut acc: u128 = 0;
    let mut i = lo;
    while i < hi
        invariant
            lo <= i <= hi <= v@.len(),
            max <= 10_000_000_000_000_000_000_000_000_000_000_000_000,
            s == v@.subrange(lo as int, hi as int),
            all_digits(s.subrange(0, i - lo)),
            acc == digits_value(s.subrange(0, i - lo)),
            0 <= acc <= max,
        decreases hi - i,
    {
        let ch = v[i];
        if !('0' <= ch && ch <= '9') {
            proof {
                assert(s[i - lo] == ch);
            }
            return None;
        }
        proof {
            assert(s[i - lo] == ch);
            assert(all_digits(s.subrange(0, i - lo + 1))) by {
                assert forall|j: int| 0 <= j < i - lo + 1 implies is_dec(#[trigger] s.subrange(0, i - lo + 1)[j]) by {
                    if j < i - lo {
                        assert(s.subrange(0, i - lo)[j] == s[j]);
                    }
                }
            }
            lemma_digits_value_step(s, i - lo);
        }
        acc = 10 * acc + (ch as u32 - '0' as u32) as u128;
        if acc > max {
            proof {
                lemma_digits_grow(s, i - lo + 1);
            }
            return None;
        }
        i = i + 1;
    }
    proof {
        assert(s.subrange(0, hi - lo) =~= s);
    }
    Some(acc)
}

/// Ten to the `k`, for `k` up to 36.
fn pow10_exec(k: u32) -> (r: u128)
    requires
        k <= 36,
    ensures
        r as int == pow10(k as nat),
        1 <= r <= LIT_LIMIT,
{
    let mut r: u128 = 1;
    let mut j: u32 = 0;
    proof {
        reveal_with_fuel(pow10, 37);
        assert(pow10(36) == LIT_LIMIT as int);
    }
    while j < k
        invariant
            j <= k <= 36,
            r as int == pow10(j as nat),
            pow10(36) == LIT_LIMIT as int,
        decreases k - j,
    {
        proof {
            lemma_pow10_mono((j + 1) as nat, 36);
            assert(pow10((j + 1) as nat) == 10 * pow10(j as nat));
        }
        r = r * 10;
        j = j + 1;
    }
    proof {
        lemma_pow10_mono(k as nat, 36);
    }
    r
}

fn find_exp(v: &Vec<char>, from: usize) -> (r: usize)
    requires
        from <= v@.len(),
    ensures
        r as int == exp_from(v@, from as int),
        from <= r <= v@.len(),
{
    let mut i = from;
    while i < v.len() && v[i] != 'e' && v[i] != 'E'
        invariant
            from <= i <= v@.len(),
            exp_from(v@, from as int) == exp_from(v@, i as int),
        decreases v@.len() - i,
    {
        i = i + 1;
    }
    i
}

fn zeros_back_exec(v: &Vec<char>, lo: usize, hi: usize) -> (r: usize)
    requires
        lo <= hi <= v@.len(),
    ensures
        r as int == zeros_back(v@, lo as int, hi as int),
        lo <= r <= hi,
{
    let mut j = hi;
    while j > lo && v[j - 1] == '0'
        invariant
            lo <= j <= hi <= v@.len(),
            zeros_back(v@, lo as int, hi as int) == zeros_back(v@, lo as int, j as int),
        decreases j - lo,
    {
        j = j - 1;
    }
    j
}

pub fn copy_range(v: &Vec<char>, lo: usize, hi: usize, out: &mut Vec<char>)
    requires
        lo <= hi <= v@.len(),
    ensures
        final(out)@ == old(out)@ + v@.subrange(lo as int, hi as int),
{
    let ghost o = out@;
    let mut i = lo;
    while i < hi
        invariant
            lo <= i <= hi <= v@.len(),
            out@ == o + v@.subrange(lo as int, i as int),
        decreases hi - i,
    {
        out.push(v[i]);
        i = i + 1;
        assert(out@ =~= o + v@.subrange(lo as int, i as int));
    }
}

fn all_digits_exec(v: &Vec<char>) -> (r: bool)
    ensures
        r == all_digits(v@),
{
    let mut i: usize = 0;
    while i < v.len()
        invariant
            i <= v@.len(),
            forall|j: int| 0 <= j < i ==> is_dec(#[trigger] v@[j]),
        decreases v@.len() - i,
    {
        if !('0' <= v[i] && v[i] <= '9') {
            return false;
        }
        i = i + 1;
    }
    true
}

/// Exec `float_lit`.
pub fn parse_float(w: &Vec<char>) -> (r: Option<Option<(i128, i128)>>)
    ensures
        match r {
            None => float_lit(w@) is None,
            Some(None) => float_lit(w@) == Some(None::<(int, int)>),
            Some(Some((n, d))) => float_lit(w@) == Some(Some((n as int, d as int))) && 0 <= n <= LIT_LIMIT && 1 <= d
                <= LIT_LIMIT,
        },
{
    let n = w.len();
    let me = find_exp(w, 0);
    let p = match find_char(w, 0, '.') {
        Some(x) => x,
        None => {
            return None;
        },
    };
    proof {
        lemma_find_from(w@, 0, '.');
    }
    if p >= me || me <= 1 {
        return None;
    }
    let mut digs: Vec<char> = Vec::new();
    copy_range(w, 0, p, &mut digs);
    copy_range(w, p + 1, me, &mut digs);
    proof {
        assert(digs@ =~= w@.subrange(0, p as int) + w@.subrange(p + 1, me as int));
    }
    if !all_digits_exec(&digs) {
        return None;
    }
    let (eneg, st) = if me < n && me + 1 < n && w[me + 1] == '-' {
        (true, me + 2)
    } else if me < n && me + 1 < n && w[me + 1] == '+' {
        (false, me + 2)
    } else {
        (false, if me < n { me + 1 } else { n })
    };
    let mut too_big = false;
    let mut ev: u128 = 0;
    if me < n {
        if st >= n {
            return None;
        }
        let mut ds: Vec<char> = Vec::new();
        copy_range(w, st, n, &mut ds);
        proof {
            assert(ds@ =~= w@.subrange(st as int, n as int));
        }
        if !all_digits_exec(&ds) {
            return None;
        }
        match parse_digits_wide(w, st, n, EXP_LIMIT as u128) {
            Some(x) => {
                ev = x;
            },
            None => {
                too_big = true;
            },
        }
    }
    let fe = zeros_back_exec(w, p + 1, me);
    let mut sig: Vec<char> = Vec::new();
    copy_range(w, 0, p, &mut sig);
    copy_range(w, p + 1, fe, &mut sig);
    proof {
        assert(sig@ =~= w@.subrange(0, p as int) + w@.subrange(p + 1, fe as int));
        assert(digs@ =~= w@.subrange(0, p as int) + w@.subrange(p + 1, me as int));
        assert forall|j: int| 0 <= j < sig@.len() implies is_dec(#[trigger] sig@[j]) by {
            if j < p {
                assert(sig@[j] == digs@[j]);
            } else {
                assert(sig@[j] == digs@[j + 1 - 1]);
            }
        }
    }
    let m = parse_digits_wide(&sig, 0, sig.len(), LIT_LIMIT as u128);
    proof {
        assert(sig@.subrange(0, sig@.len() as int) =~= sig@);
        crate::lexer::lemma_digits_nonneg(sig@);
    }
    let e: i128 = (if eneg { -(ev as i128) } else { ev as i128 }) - ((fe - p - 1) as i128);
    match m {
        Some(0) => {
            proof {
                let ghost sp = w@.subrange(0, p as int) + w@.subrange(p + 1, fe as int);
                assert(digits_value(sp) == 0);
            }
            Some(Some((0, 1)))
        },
        None => {
            if sig.len() == 0 {
                Some(Some((0, 1)))
            } else {
                proof {
                    let sp = w@.subrange(0, p as int) + w@.subrange(p + 1, fe as int);
                    assert(digits_value(sp) > LIT_LIMIT);
                    let ee = e as int;
                    if ee > 0 {
                        lemma_pow10_mono(0, ee as nat);
                        assert(digits_value(sp) * pow10(ee as nat) >= digits_value(sp)) by (nonlinear_arith)
                            requires
                                pow10(ee as nat) >= 1,
                                digits_value(sp) >= 0,
                        ;
                    }
                }
                Some(None)
            }
        },
        Some(mv) => {
            if too_big || e > 36 || e < -36 {
                Some(None)
            } else if e > 0 {
                let pe = pow10_exec(e as u32);
                if mv > (LIT_LIMIT as u128) / pe {
                    proof {
                        assert(mv * pe > LIT_LIMIT) by (nonlinear_arith)
                            requires
                                mv > (LIT_LIMIT as u128) / pe,
                                pe >= 1,
                        ;
                    }
                    Some(None)
                } else {
                    proof {
                        assert(mv * pe <= LIT_LIMIT) by (nonlinear_arith)
                            requires
                                mv <= (LIT_LIMIT as u128) / pe,
                                pe >= 1,
                        ;
                    }
                    Some(Some(((mv * pe) as i128, 1)))
                }
            } else {
                let pe = pow10_exec((-e) as u32);
                Some(Some((mv as i128, pe as i128)))
            }
        },
    }
}

} // verus!
