use vstd::prelude::*;

verus! {

pub open spec fn is_upper(c: char) -> bool {
    'A' <= c && c <= 'Z'
}

pub open spec fn is_dec(c: char) -> bool {
    '0' <= c && c <= '9'
}

pub open spec fn letter_value(c: char) -> int {
    (c as u32) as int - ('A' as u32) as int + 1
}

pub open spec fn digit_value(c: char) -> int {
    (c as u32) as int - ('0' as u32) as int
}

/// Base-26 value of the letters of `s` (A = 1, ..., Z = 26, AA = 27, ...).
pub open spec fn letters_value(s: Seq<char>) -> int
    decreases s.len(),
{
    if s.len() == 0 {
        0
    } else if is_upper(s.last()) {
        26 * letters_value(s.drop_last()) + letter_value(s.last())
    } else {
        letters_value(s.drop_last())
    }
}

/// Decimal value of the digits of `s`.
pub open spec fn digits_value(s: Seq<char>) -> int
    decreases s.len(),
{
    if s.len() == 0 {
        0
    } else if is_dec(s.last()) {
        10 * digits_value(s.drop_last()) + digit_value(s.last())
    } else {
        digits_value(s.drop_last())
    }
}

/// Why a cell label was refused.
#[derive(Debug, Clone, Copy, PartialEq, Eq, Structural)]
pub enum LabelError {
    /// The label's bounds are empty or lie outside the input.
    InvalidReference,
    /// A letter follows a digit.
    LettersAfterDigits,
    /// A character is neither an upper-case letter nor a digit.
    InvalidCharacter,
    /// The column or the row lies outside the grid.
    OutOfBounds,
}

impl LabelError {
    pub open spec fn message_spec(self) -> &'static str {
        match self {
            LabelError::InvalidReference => "Invalid cell reference",
            LabelError::LettersAfterDigits => "Letters after digits not allowed",
            LabelError::InvalidCharacter => "Invalid character in cell reference",
            LabelError::OutOfBounds => "Cell reference out of bounds",
        }
    }

    #[verifier::when_used_as_spec(message_spec)]
    pub fn message(self) -> (r: &'static str)
        ensures
            r == self.message_spec(),
    {
        match self {
            LabelError::InvalidReference => "Invalid cell reference",
            LabelError::LettersAfterDigits => "Letters after digits not allowed",
            LabelError::InvalidCharacter => "Invalid character in cell reference",
            LabelError::OutOfBounds => "Cell reference out of bounds",
        }
    }
}

/// The first character error met scanning `s` from the left: a character that
/// is neither a letter nor a digit, or a letter after a digit.
pub open spec fn scan_error(s: Seq<char>) -> Option<LabelError>
    decreases s.len(),
{
    if s.len() == 0 {
        None
    } else {
        match scan_error(s.drop_last()) {
            Some(e) => Some(e),
            None => {
                let c = s.last();
                if is_upper(c) {
                    if exists|k: int| 0 <= k < s.len() - 1 && is_dec(#[trigger] s[k]) {
                        Some(LabelError::LettersAfterDigits)
                    } else {
                        None
                    }
                } else if is_dec(c) {
                    None
                } else {
                    Some(LabelError::InvalidCharacter)
                }
            }
        }
    }
}

/// The cell index that the label `s` names in a grid of `cols` columns and
/// `rows` rows: column letters then 1-based row digits.
pub open spec fn label_index(s: Seq<char>, cols: int, rows: int) -> Result<int, LabelError> {
    match scan_error(s) {
        Some(e) => Err(e),
        None => {
            let col = letters_value(s) - 1;
            let row = digits_value(s) - 1;
            if col < 0 || row < 0 || col >= cols || row >= rows {
                Err(LabelError::OutOfBounds)
            } else {
                Ok(cols * row + col)
            }
        }
    }
}

/// The label between positions `start` and `end` (inclusive) of `a`; both
/// must lie in `a`, `start` before `end`.
pub open spec fn label_at(a: Seq<char>, cols: int, rows: int, start: int, end: int) -> Result<int, LabelError> {
    if start >= end || end >= a.len() {
        Err(LabelError::InvalidReference)
    } else {
        label_index(a.subrange(start, end + 1), cols, rows)
    }
}

/// Upper-case ASCII letter.
pub fn is_alpha(c: char) -> (r: bool)
    ensures
        r == is_upper(c),
{
    'A' <= c && c <= 'Z'
}

/// ASCII decimal digit.
pub fn is_digit(c: char) -> (r: bool)
    ensures
        r == is_dec(c),
{
    '0' <= c && c <= '9'
}

/// A value at least as large as any bound on a grid dimension.
pub const LABEL_CAP: i64 = 0x1_0000_0000;

proof fn lemma_capped_step(v: int, m: int, d: int)
    requires
        v >= 0,
        0 <= d <= 26,
        1 <= m <= 26,
    ensures
        min_int(m * min_int(v, LABEL_CAP as int) + d, LABEL_CAP as int) == min_int(m * v + d, LABEL_CAP as int),
{
    if v >= LABEL_CAP as int {
        assert(m * LABEL_CAP as int >= LABEL_CAP as int) by (nonlinear_arith)
            requires
                m >= 1,
        ;
        assert(m * v >= v) by (nonlinear_arith)
            requires
                m >= 1,
                v >= 0,
        ;
    }
}

pub open spec fn min_int(a: int, b: int) -> int {
    if a < b {
        a
    } else {
        b
    }
}

pub proof fn lemma_letters_nonneg(s: Seq<char>)
    ensures
        letters_value(s) >= 0,
{
    lemma_values_nonneg(s);
}

proof fn lemma_values_nonneg(s: Seq<char>)
    ensures
        letters_value(s) >= 0,
        digits_value(s) >= 0,
    decreases s.len(),
{
    if s.len() > 0 {
        lemma_values_nonneg(s.drop_last());
    }
}

/// Reads the cell label at positions `start..=end` of `a` into a cell index of
/// a grid with `c` columns and `r` rows.
pub fn cell_parser(a: &str, c: i32, r: i32, start: usize, end: usize) -> (res: Result<i32, &'static str>)
    requires
        c >= 0,
        r >= 0,
        c * r <= i32::MAX,
    ensures
        match label_at(a@, c as int, r as int, start as int, end as int) {
            Ok(i) => res == Ok::<i32, &'static str>(i as i32),
            Err(e) => res == Err::<i32, &'static str>(e.message()),
        },
{
    match parse_label(a, c, r, start, end) {
        Ok(i) => Ok(i),
        Err(e) => Err(e.message()),
    }
}

/// As `cell_parser`, with the reason of a refusal as a `LabelError`.
pub fn parse_label(a: &str, c: i32, r: i32, start: usize, end: usize) -> (res: Result<i32, LabelError>)
    requires
        c >= 0,
        r >= 0,
        c * r <= i32::MAX,
    ensures
        match label_at(a@, c as int, r as int, start as int, end as int) {
            Ok(i) => res == Ok::<i32, LabelError>(i as i32) && 0 <= i < c * r,
            Err(e) => res == Err::<i32, LabelError>(e),
        },
{
    let len = a.unicode_len();
    if start >= end || end >= len {
        return Err(LabelError::InvalidReference);
    }
    let last = end;
    let ghost s = a@.subrange(start as int, last as int + 1);
    assert(label_at(a@, c as int, r as int, start as int, end as int) == label_index(s, c as int, r as int));
    let mut col: i64 = 0;
    let mut row: i64 = 0;
    let mut digit_found = false;
    let mut i = start;
    while i <= last
        invariant
            start <= i <= last + 1,
            last < len,
            len == a@.len(),
            s == a@.subrange(start as int, last as int + 1),
            label_at(a@, c as int, r as int, start as int, end as int) == label_index(s, c as int, r as int),
            scan_error(a@.subrange(start as int, i as int)) is None,
            digit_found == exists|k: int| start <= k < i && is_dec(#[trigger] a@[k]),
            0 <= col <= LABEL_CAP,
            0 <= row <= LABEL_CAP,
            col as int == min_int(letters_value(a@.subrange(start as int, i as int)), LABEL_CAP as int),
            row as int == min_int(digits_value(a@.subrange(start as int, i as int)), LABEL_CAP as int),
        decreases last + 1 - i,
    {
        let ch = a.get_char(i);
        let ghost p = a@.subrange(start as int, i as int);
        let ghost q = a@.subrange(start as int, i as int + 1);
        proof {
            assert(q.drop_last() =~= p);
            assert(q.last() == ch);
            lemma_values_nonneg(p);
            assert forall|k: int| 0 <= k < q.len() - 1 implies q[k] == a@[start + k] by {}
        }
        if is_alpha(ch) {
            if digit_found {
                proof {
                    let k = choose|k: int| start <= k < i && is_dec(#[trigger] a@[k]);
                    assert(is_dec(q[k - start]));
                    assert(scan_error(q) == Some(LabelError::LettersAfterDigits));
                    assert(q =~= s.subrange(0, q.len() as int));
                    lemma_scan_prefix(s, q);
                }
                return Err(LabelError::LettersAfterDigits);
            }
            proof {
                lemma_capped_step(letters_value(p), 26, letter_value(ch));
                assert forall|k: int| 0 <= k < q.len() - 1 implies !is_dec(#[trigger] q[k]) by {
                    assert(q[k] == a@[start + k]);
                }
            }
            let v = 26 * col + (ch as u32 - 'A' as u32 + 1) as i64;
            col = if v < LABEL_CAP { v } else { LABEL_CAP };
        } else if is_digit(ch) {
            proof {
                lemma_capped_step(digits_value(p), 10, digit_value(ch));
            }
            let v = 10 * row + (ch as u32 - '0' as u32) as i64;
            row = if v < LABEL_CAP { v } else { LABEL_CAP };
            digit_found = true;
        } else {
            proof {
                assert(scan_error(q) == Some(LabelError::InvalidCharacter));
                assert(q =~= s.subrange(0, q.len() as int));
                lemma_scan_prefix(s, q);
                assert(scan_error(s) == Some(LabelError::InvalidCharacter));
            }
            return Err(LabelError::InvalidCharacter);
        }
        i = i + 1;
    }
    proof {
        assert(a@.subrange(start as int, i as int) =~= s);
    }
    if col - 1 < 0 || row - 1 < 0 || col - 1 >= c as i64 || row - 1 >= r as i64 {
        return Err(LabelError::OutOfBounds);
    }
    proof {
        assert((c as int) * (row - 1) + (col - 1) < (c as int) * (r as int)) by (nonlinear_arith)
            requires
                0 <= row - 1 < r,
                0 <= col - 1 < c,
        ;
    }
    proof {
        assert((c as int) * (row - 1) >= 0) by (nonlinear_arith)
            requires
                0 <= row - 1,
                0 <= c,
        ;
    }
    Ok(c * (row as i32 - 1) + (col as i32 - 1))
}

/// An error found in a prefix of a label is the error of the whole label.
proof fn lemma_scan_prefix(s: Seq<char>, q: Seq<char>)
    requires
        q.len() <= s.len(),
        q =~= s.subrange(0, q.len() as int),
        scan_error(q) is Some,
    ensures
        scan_error(s) == scan_error(q),
    decreases s.len(),
{
    if s.len() > q.len() {
        assert(s.drop_last().subrange(0, q.len() as int) =~= q);
        lemma_scan_prefix(s.drop_last(), q);
    } else {
        assert(s =~= q);
    }
}

} // verus!
