use vstd::prelude::*;
use crate::arith::{frac_cell, int_op, make_frac, optype_spec, return_optype};
use crate::cell::{Cell, CellModel, CellValue, Val, invalid_model, text_model};
use crate::graph::{Formula, formula_wf};
use crate::label::{LabelError, is_dec, is_upper, label_at, parse_label};
use crate::lexer::{
    all_digits,
    chars_of,
    find_char,
    find_from,
    copy_range,
    float_lit,
    int_lit,
    lemma_find_from,
    find_space,
    parse_usize,
    skip_front,
    skip_spaces,
    space_from,
    usize_lit,
    parse_float,
    parse_int,
};

verus! {

/// What a command line asks for.
pub enum Command {
    /// A viewport command of the host (`w`, `a`, `s`, `d`): nothing to do.
    Ignore,
    /// Extend column `column` by its pattern to `length` rows.
    Autofill { column: String, length: usize },
    /// Install `formula` at `target`, with `literal` as the cell's value.
    Assign { target: i32, formula: Formula, literal: Option<Cell> },
    /// A SLEEP that reads its own cell: a cycle of one cell.
    SelfReference,
}

pub enum CmdModel {
    Ignore,
    Autofill(Seq<char>, usize),
    Assign(i32, Formula, Option<CellModel>),
    SelfReference,
}

impl View for Command {
    type V = CmdModel;

    open spec fn view(&self) -> CmdModel {
        match self {
            Command::Ignore => CmdModel::Ignore,
            Command::Autofill { column, length } => CmdModel::Autofill(column@, *length),
            Command::Assign { target, formula, literal } => CmdModel::Assign(
                *target,
                *formula,
                match literal {
                    Some(c) => Some(c@),
                    None => None,
                },
            ),
            Command::SelfReference => CmdModel::SelfReference,
        }
    }
}

pub open spec fn is_op(c: char) -> bool {
    c == '+' || c == '-' || c == '*' || c == '/'
}

/// An operator after a digit: the right-hand side is arithmetic.
pub open spec fn has_arith(rhs: Seq<char>) -> bool {
    exists|i: int, j: int| 0 <= j < i < rhs.len() && is_dec(#[trigger] rhs[j]) && is_op(#[trigger] rhs[i])
}

/// The first operator at or after `from` (and after the first character)
/// that does not follow another operator, or -1.
pub open spec fn op_pos(rhs: Seq<char>, from: int) -> int
    decreases rhs.len() - from,
{
    if from < 1 || from >= rhs.len() {
        -1
    } else if is_op(rhs[from]) && !is_op(rhs[from - 1]) {
        from
    } else {
        op_pos(rhs, from + 1)
    }
}

/// The label at positions `lo..=end` as a cell index, or its error message.
pub open spec fn lab(s: Seq<char>, c: int, r: int, lo: int, end: int) -> Result<int, &'static str> {
    match label_at(s, c, r, lo, end) {
        Ok(i) => Ok(i),
        Err(e) => Err(e.message_spec()),
    }
}

/// An optional leading sign of `s[lo..hi]`: whether it is `-`, and where
/// the rest starts.
pub open spec fn sign_at(s: Seq<char>, lo: int, hi: int) -> (bool, int) {
    if lo < hi && s[lo] == '-' {
        (true, lo + 1)
    } else if lo < hi && s[lo] == '+' {
        (false, lo + 1)
    } else {
        (false, lo)
    }
}

pub open spec fn signed_i32(neg: bool, v: i32) -> i32 {
    if neg {
        (-v) as i32
    } else {
        v
    }
}

/// One side of a binary expression.
pub enum Operand {
    Cell(int),
    Num(i32),
}

/// The operand written at `s[lo..hi]`: a cell label (if it holds a letter;
/// a `+` may lead it, a `-` may not), else an integer with an optional sign.
pub open spec fn operand(s: Seq<char>, c: int, r: int, lo: int, hi: int, err: &'static str) -> Result<Operand, &'static str> {
    let (neg, st) = sign_at(s, lo, hi);
    let part = s.subrange(st, hi);
    if exists|k: int| 0 <= k < part.len() && is_upper(#[trigger] part[k]) {
        if neg {
            Err("Unsupported expression: negated cell")
        } else {
            match lab(s, c, r, st, hi - 1) {
                Ok(i) => Ok(Operand::Cell(i)),
                Err(e) => Err(e),
            }
        }
    } else {
        match int_lit(part) {
            Some(v) => Ok(Operand::Num(signed_i32(neg, v))),
            None => Err(err),
        }
    }
}

/// The command for `target = x op y`.
pub open spec fn combine(target: int, x: Operand, y: Operand, op: char) -> Result<CmdModel, &'static str> {
    match (x, y) {
        (Operand::Num(a), Operand::Num(b)) => {
            let v = int_op(a, b, op);
            match v.value {
                Val::Int(i) => if v.is_valid {
                    Ok(CmdModel::Assign(target as i32, Formula { op_type: 0, op_info1: i, op_info2: -1i32 }, None))
                } else {
                    Ok(CmdModel::Assign(target as i32, Formula { op_type: 17, op_info1: 0, op_info2: 0 }, Some(v)))
                },
                _ => Ok(CmdModel::Assign(target as i32, Formula { op_type: 17, op_info1: 0, op_info2: 0 }, Some(v))),
            }
        },
        (Operand::Cell(p), Operand::Num(b)) => Ok(
            CmdModel::Assign(target as i32, Formula { op_type: optype_spec(op), op_info1: p as i32, op_info2: b }, None),
        ),
        (Operand::Num(a), Operand::Cell(q)) => if op == '/' {
            Ok(CmdModel::Assign(target as i32, Formula { op_type: 15, op_info1: a, op_info2: q as i32 }, None))
        } else if op == '+' || op == '*' {
            Ok(CmdModel::Assign(target as i32, Formula { op_type: optype_spec(op), op_info1: q as i32, op_info2: a }, None))
        } else {
            Err("Unsupported expression: constant minus cell")
        },
        (Operand::Cell(p), Operand::Cell(q)) => Ok(
            CmdModel::Assign(
                target as i32,
                Formula { op_type: (optype_spec(op) + 4) as i32, op_info1: p as i32, op_info2: q as i32 },
                None,
            ),
        ),
    }
}

/// `target = x op y`, the operator being the first one after an operand.
pub open spec fn arith_cmd(s: Seq<char>, c: int, r: int, e: int) -> Result<CmdModel, &'static str> {
    let rhs = s.subrange(e + 1, s.len() as int);
    let i = op_pos(rhs, 1);
    if i < 0 {
        Err("No valid operator found")
    } else {
        match lab(s, c, r, 0, e - 1) {
            Err(m) => Err(m),
            Ok(target) => {
                let o = e + 1 + i;
                match operand(s, c, r, e + 1, o, "Invalid first operand") {
                    Err(m) => Err(m),
                    Ok(x) => match operand(s, c, r, o + 1, s.len() as int, "Invalid second operand") {
                        Err(m) => Err(m),
                        Ok(y) => combine(target, x, y, s[o]),
                    },
                }
            },
        }
    }
}

/// `target = value`: a quoted string, an integer, a decimal literal (each
/// after an optional sign) or a cell to copy (after an optional `+`). A
/// decimal literal is held as a fraction in lowest terms; one that cannot be
/// held so gives the invalid cell.
pub open spec fn value_cmd(s: Seq<char>, c: int, r: int, e: int) -> Result<CmdModel, &'static str> {
    match lab(s, c, r, 0, e - 1) {
        Err(m) => Err(m),
        Ok(target) => {
            let (neg, pos) = sign_at(s, e + 1, s.len() as int);
            let body = s.subrange(pos, s.len() as int);
            if body.len() >= 2 && body[0] == '"' && body.last() == '"' {
                Ok(
                    CmdModel::Assign(
                        target as i32,
                        Formula { op_type: 16, op_info1: 0, op_info2: 0 },
                        Some(text_model(body.subrange(1, body.len() - 1))),
                    ),
                )
            } else if all_digits(body) {
                match int_lit(body) {
                    Some(v) => Ok(
                        CmdModel::Assign(
                            target as i32,
                            Formula { op_type: 0, op_info1: signed_i32(neg, v), op_info2: -1i32 },
                            None,
                        ),
                    ),
                    None => Err("Invalid integer"),
                }
            } else if body.contains('.') {
                match float_lit(body) {
                    Some(v) => Ok(
                        CmdModel::Assign(
                            target as i32,
                            Formula { op_type: 17, op_info1: 0, op_info2: 0 },
                            Some(
                                match v {
                                    Some((n, d)) => frac_cell(Some((if neg { -n } else { n }, d))),
                                    None => invalid_model(),
                                },
                            ),
                        ),
                    ),
                    None => Err("Invalid float"),
                }
            } else if neg {
                Err("Unsupported expression: negated cell")
            } else {
                match lab(s, c, r, pos, s.len() - 1) {
                    Ok(src) => Ok(
                        CmdModel::Assign(target as i32, Formula { op_type: -1i32, op_info1: src as i32, op_info2: 0 }, None),
                    ),
                    Err(m) => Err(m),
                }
            }
        },
    }
}

/// The tag of a function name: MIN 9, MAX 10, AVG 11, SUM 12, STDEV 13,
/// SLEEP 14, anything else 0.
pub open spec fn fn_tag(name: Seq<char>) -> i32 {
    if name == seq!['M', 'I', 'N'] {
        9
    } else if name == seq!['M', 'A', 'X'] {
        10
    } else if name == seq!['A', 'V', 'G'] {
        11
    } else if name == seq!['S', 'U', 'M'] {
        12
    } else if name == seq!['S', 'T', 'D', 'E', 'V'] {
        13
    } else if name == seq!['S', 'L', 'E', 'E', 'P'] {
        14
    } else {
        0
    }
}

/// `target = NAME(args)`.
pub open spec fn func_cmd(s: Seq<char>, c: int, r: int, e: int) -> Result<CmdModel, &'static str> {
    let open = find_from(s, e + 1, '(');
    let tag = fn_tag(s.subrange(e + 1, open));
    if tag == 0 {
        Err("Unknown function")
    } else {
        match lab(s, c, r, 0, e - 1) {
            Err(m) => Err(m),
            Ok(target) => {
                let close = find_from(s, open, ')');
                if close < 0 {
                    Err("Missing closing parenthesis")
                } else if tag == 14 {
                    match lab(s, c, r, open + 1, close - 1) {
                        Ok(x) => if x == target {
                            Ok(CmdModel::SelfReference)
                        } else {
                            Ok(CmdModel::Assign(target as i32, Formula { op_type: 14, op_info1: x as i32, op_info2: x as i32 }, None))
                        },
                        Err(_) => {
                            let (neg, st) = sign_at(s, open + 1, close);
                            match int_lit(s.subrange(st, close)) {
                                Some(v) => Ok(
                                    CmdModel::Assign(
                                        target as i32,
                                        Formula { op_type: 14, op_info1: target as i32, op_info2: signed_i32(neg, v) },
                                        None,
                                    ),
                                ),
                                None => Err("Invalid sleep value"),
                            }
                        },
                    }
                } else {
                    let colon = find_from(s, open + 1, ':');
                    if colon < 0 {
                        Err("Missing colon")
                    } else {
                        match lab(s, c, r, open + 1, colon - 1) {
                            Err(m) => Err(m),
                            Ok(a) => match lab(s, c, r, colon + 1, close - 1) {
                                Err(m) => Err(m),
                                Ok(b) => Ok(
                                    CmdModel::Assign(target as i32, Formula { op_type: tag, op_info1: a as i32, op_info2: b as i32 }, None),
                                ),
                            },
                        }
                    }
                }
            },
        }
    }
}

pub open spec fn autofill_word() -> Seq<char> {
    seq!['=', 'a', 'u', 't', 'o', 'f', 'i', 'l', 'l']
}

/// `=autofill <column> <length>`: the line splits at runs of spaces into
/// exactly three words, the last a `usize`.
pub open spec fn autofill_cmd(s: Seq<char>) -> Result<CmdModel, &'static str> {
    let n = s.len() as int;
    let e0 = space_from(s, 0);
    let b1 = skip_front(s, e0, n);
    let e1 = space_from(s, b1);
    let b2 = skip_front(s, e1, n);
    let e2 = space_from(s, b2);
    let b3 = skip_front(s, e2, n);
    if b1 == n || b2 == n || b3 != n {
        Err("Usage: autofill <column> <length>")
    } else {
        match usize_lit(s.subrange(b2, e2)) {
            Some(len) => Ok(CmdModel::Autofill(s.subrange(b1, e1), len as usize)),
            None => Err("Invalid length"),
        }
    }
}

/// The command that the line `s` writes, in a grid of `c` columns and `r`
/// rows.
pub open spec fn parse_spec(s: Seq<char>, c: int, r: int) -> Result<CmdModel, &'static str> {
    if s.len() > 0 && (s[0] == 'w' || s[0] == 'a' || s[0] == 's' || s[0] == 'd') {
        Ok(CmdModel::Ignore)
    } else if s.len() >= 9 && s.subrange(0, 9) == autofill_word() {
        autofill_cmd(s)
    } else {
        let e = find_from(s, 0, '=');
        if e < 0 {
            Err("No equals sign found")
        } else {
            let rhs = s.subrange(e + 1, s.len() as int);
            let func = rhs.contains('(');
            let arith = has_arith(rhs);
            if func && arith {
                Err("Invalid input: Cannot mix function and arithmetic")
            } else if func {
                func_cmd(s, c, r, e)
            } else if arith {
                arith_cmd(s, c, r, e)
            } else {
                value_cmd(s, c, r, e)
            }
        }
    }
}

} // verus!

verus! {

/// `lab` on `s[lo..hi]` (the label ends before `hi`).
fn lab_exec(a: &str, c: i32, r: i32, lo: usize, hi: usize) -> (res: Result<i32, &'static str>)
    requires
        c >= 0,
        r >= 0,
        c * r <= i32::MAX,
    ensures
        match res {
            Ok(i) => lab(a@, c as int, r as int, lo as int, hi - 1) == Ok::<int, &'static str>(i as int) && 0 <= i < c * r,
            Err(m) => lab(a@, c as int, r as int, lo as int, hi - 1) == Err::<int, &'static str>(m),
        },
{
    if hi == 0 {
        return Err(LabelError::InvalidReference.message());
    }
    match parse_label(a, c, r, lo, hi - 1) {
        Ok(i) => Ok(i),
        Err(e) => Err(e.message()),
    }
}

fn sign_exec(v: &Vec<char>, lo: usize, hi: usize) -> (r: (bool, usize))
    requires
        lo <= hi <= v@.len(),
    ensures
        r.0 == sign_at(v@, lo as int, hi as int).0,
        r.1 as int == sign_at(v@, lo as int, hi as int).1,
        lo <= r.1 <= hi,
{
    if lo < hi && v[lo] == '-' {
        (true, lo + 1)
    } else if lo < hi && v[lo] == '+' {
        (false, lo + 1)
    } else {
        (false, lo)
    }
}

fn has_upper(v: &Vec<char>, lo: usize, hi: usize) -> (r: bool)
    requires
        lo <= hi <= v@.len(),
    ensures
        r == exists|k: int| 0 <= k < v@.subrange(lo as int, hi as int).len() && is_upper(#[trigger] v@.subrange(lo as int, hi as int)[k]),
{
    let ghost p = v@.subrange(lo as int, hi as int);
    let mut i = lo;
    while i < hi
        invariant
            lo <= i <= hi <= v@.len(),
            p == v@.subrange(lo as int, hi as int),
            forall|k: int| 0 <= k < i - lo ==> !is_upper(#[trigger] p[k]),
        decreases hi - i,
    {
        if 'A' <= v[i] && v[i] <= 'Z' {
            proof {
                assert(p[i - lo] == v@[i as int]);
            }
            return true;
        }
        i = i + 1;
    }
    false
}

/// An operand as (is it a cell, cell index or number).
fn operand_exec(a: &str, v: &Vec<char>, c: i32, r: i32, lo: usize, hi: usize, err: &'static str) -> (res: Result<(bool, i32), &'static str>)
    requires
        v@ == a@,
        lo <= hi <= v@.len(),
        c >= 0,
        r >= 0,
        c * r <= i32::MAX,
    ensures
        match res {
            Ok((true, i)) => operand(a@, c as int, r as int, lo as int, hi as int, err) == Ok::<Operand, &'static str>(Operand::Cell(i as int)) && 0 <= i < c * r,
            Ok((false, n)) => operand(a@, c as int, r as int, lo as int, hi as int, err) == Ok::<Operand, &'static str>(Operand::Num(n)),
            Err(m) => operand(a@, c as int, r as int, lo as int, hi as int, err) == Err::<Operand, &'static str>(m),
        },
{
    let (neg, st) = sign_exec(v, lo, hi);
    if has_upper(v, st, hi) {
        if neg {
            return Err("Unsupported expression: negated cell");
        }
        match lab_exec(a, c, r, st, hi) {
            Ok(i) => Ok((true, i)),
            Err(m) => Err(m),
        }
    } else {
        match parse_int(v, st, hi) {
            Some(x) => Ok((false, if neg { -x } else { x })),
            None => Err(err),
        }
    }
}

/// Exec `has_arith` on `v[lo..]`.
fn has_arith_exec(v: &Vec<char>, lo: usize) -> (r: bool)
    requires
        lo <= v@.len(),
    ensures
        r == has_arith(v@.subrange(lo as int, v@.len() as int)),
{
    let ghost rhs = v@.subrange(lo as int, v@.len() as int);
    let mut found_digit = false;
    let mut i = lo;
    while i < v.len()
        invariant
            lo <= i <= v@.len(),
            rhs == v@.subrange(lo as int, v@.len() as int),
            found_digit == exists|j: int| 0 <= j < i - lo && is_dec(#[trigger] rhs[j]),
            forall|x: int, y: int| 0 <= y < x < i - lo ==> !(is_dec(#[trigger] rhs[y]) && is_op(#[trigger] rhs[x])),
        decreases v@.len() - i,
    {
        let ch = v[i];
        proof {
            assert(rhs[i - lo] == ch);
        }
        if found_digit && (ch == '+' || ch == '-' || ch == '*' || ch == '/') {
            proof {
                let j = choose|j: int| 0 <= j < i - lo && is_dec(#[trigger] rhs[j]);
                assert(is_dec(rhs[j]) && is_op(rhs[i - lo]));
            }
            return true;
        }
        if '0' <= ch && ch <= '9' {
            found_digit = true;
        }
        i = i + 1;
    }
    false
}

/// Exec `op_pos(v[lo..], 1)`, as a position of `v`.
fn op_pos_exec(v: &Vec<char>, lo: usize) -> (r: Option<usize>)
    requires
        lo <= v@.len(),
    ensures
        match r {
            Some(o) => op_pos(v@.subrange(lo as int, v@.len() as int), 1) == o - lo && lo < o < v@.len(),
            None => op_pos(v@.subrange(lo as int, v@.len() as int), 1) < 0,
        },
{
    let ghost rhs = v@.subrange(lo as int, v@.len() as int);
    if lo >= v.len() {
        return None;
    }
    let mut i = lo + 1;
    while i < v.len()
        invariant
            lo + 1 <= i <= v@.len(),
            rhs == v@.subrange(lo as int, v@.len() as int),
            op_pos(rhs, 1) == op_pos(rhs, i - lo),
        decreases v@.len() - i,
    {
        let ch = v[i];
        let prev = v[i - 1];
        proof {
            assert(rhs[i - lo] == ch && rhs[i - lo - 1] == prev);
        }
        if (ch == '+' || ch == '-' || ch == '*' || ch == '/') && !(prev == '+' || prev == '-' || prev == '*' || prev == '/') {
            return Some(i);
        }
        i = i + 1;
    }
    None
}

/// `v[lo..hi]` spells `pat`.
fn seg_eq(v: &Vec<char>, lo: usize, hi: usize, pat: &Vec<char>) -> (r: bool)
    requires
        lo <= hi <= v@.len(),
    ensures
        r == (v@.subrange(lo as int, hi as int) == pat@),
{
    if hi - lo != pat.len() {
        return false;
    }
    let mut i: usize = 0;
    while i < pat.len()
        invariant
            i <= pat@.len(),
            hi - lo == pat@.len(),
            lo <= hi <= v@.len(),
            forall|j: int| 0 <= j < i ==> v@[lo + j] == pat@[j],
        decreases pat@.len() - i,
    {
        if v[lo + i] != pat[i] {
            proof {
                assert(v@.subrange(lo as int, hi as int)[i as int] != pat@[i as int]);
            }
            return false;
        }
        i = i + 1;
    }
    assert(v@.subrange(lo as int, hi as int) =~= pat@);
    true
}

fn fn_tag_exec(v: &Vec<char>, lo: usize, hi: usize) -> (t: i32)
    requires
        lo <= hi <= v@.len(),
    ensures
        t == fn_tag(v@.subrange(lo as int, hi as int)),
{
    if seg_eq(v, lo, hi, &vec!['M', 'I', 'N']) {
        9
    } else if seg_eq(v, lo, hi, &vec!['M', 'A', 'X']) {
        10
    } else if seg_eq(v, lo, hi, &vec!['A', 'V', 'G']) {
        11
    } else if seg_eq(v, lo, hi, &vec!['S', 'U', 'M']) {
        12
    } else if seg_eq(v, lo, hi, &vec!['S', 'T', 'D', 'E', 'V']) {
        13
    } else if seg_eq(v, lo, hi, &vec!['S', 'L', 'E', 'E', 'P']) {
        14
    } else {
        0
    }
}

} // verus!

verus! {

/// An assignment names cells of a grid of `n` cells and carries a
/// well-formed literal.
pub open spec fn cmd_ok(cmd: Command, n: int) -> bool {
    match cmd {
        Command::Assign { target, formula, literal } => {
            &&& 0 <= target < n
            &&& formula_wf(formula, target as int, n)
            &&& literal matches Some(v) ==> v.wf()
        },
        _ => true,
    }
}

pub open spec fn parsed(res: Result<Command, &'static str>, s: Seq<char>, c: int, r: int) -> bool {
    match res {
        Ok(cmd) => parse_spec(s, c, r) == Ok::<CmdModel, &'static str>(cmd@) && cmd_ok(cmd, c * r),
        Err(m) => parse_spec(s, c, r) == Err::<CmdModel, &'static str>(m),
    }
}

fn arith_exec(a: &str, v: &Vec<char>, c: i32, r: i32, e: usize) -> (res: Result<Command, &'static str>)
    requires
        v@ == a@,
        e < v@.len(),
        c >= 0,
        r >= 0,
        c * r <= i32::MAX,
    ensures
        match res {
            Ok(cmd) => arith_cmd(a@, c as int, r as int, e as int) == Ok::<CmdModel, &'static str>(cmd@) && cmd_ok(cmd, c * r),
            Err(m) => arith_cmd(a@, c as int, r as int, e as int) == Err::<CmdModel, &'static str>(m),
        },
{
    let len = v.len();
    let o = match op_pos_exec(v, e + 1) {
        Some(o) => o,
        None => {
            return Err("No valid operator found");
        },
    };
    let target = lab_exec(a, c, r, 0, e)?;
    let op = v[o];
    proof {
        assert(v@.subrange(e + 1, v@.len() as int)[o - e - 1] == op);
    }
    let x = operand_exec(a, v, c, r, e + 1, o, "Invalid first operand")?;
    let y = operand_exec(a, v, c, r, o + 1, v.len(), "Invalid second operand")?;
    let n = c * r;
    match (x, y) {
        ((false, p), (false, q)) => {
            let res = crate::arith::arithmetic_eval(Cell::new_int(p), Cell::new_int(q), op);
            if res.is_valid {
                if let CellValue::Int(i) = res.value {
                    return Ok(Command::Assign { target, formula: Formula { op_type: 0, op_info1: i, op_info2: -1 }, literal: None });
                }
            }
            Ok(Command::Assign { target, formula: Formula { op_type: 17, op_info1: 0, op_info2: 0 }, literal: Some(res) })
        },
        ((true, p), (false, q)) => {
            Ok(Command::Assign { target, formula: Formula { op_type: return_optype(op), op_info1: p, op_info2: q }, literal: None })
        },
        ((false, p), (true, q)) => {
            if op == '/' {
                Ok(Command::Assign { target, formula: Formula { op_type: 15, op_info1: p, op_info2: q }, literal: None })
            } else if op == '+' || op == '*' {
                Ok(Command::Assign { target, formula: Formula { op_type: return_optype(op), op_info1: q, op_info2: p }, literal: None })
            } else {
                Err("Unsupported expression: constant minus cell")
            }
        },
        ((true, p), (true, q)) => {
            Ok(Command::Assign { target, formula: Formula { op_type: return_optype(op) + 4, op_info1: p, op_info2: q }, literal: None })
        },
    }
}

fn value_exec(a: &str, v: &Vec<char>, c: i32, r: i32, e: usize) -> (res: Result<Command, &'static str>)
    requires
        v@ == a@,
        e < v@.len(),
        c >= 0,
        r >= 0,
        c * r <= i32::MAX,
    ensures
        match res {
            Ok(cmd) => value_cmd(a@, c as int, r as int, e as int) == Ok::<CmdModel, &'static str>(cmd@) && cmd_ok(cmd, c * r),
            Err(m) => value_cmd(a@, c as int, r as int, e as int) == Err::<CmdModel, &'static str>(m),
        },
{
    let target = lab_exec(a, c, r, 0, e)?;
    let len = v.len();
    let (neg, pos) = sign_exec(v, e + 1, len);
    let ghost body = v@.subrange(pos as int, len as int);
    if len - pos >= 2 && v[pos] == '"' && v[len - 1] == '"' {
        proof {
            assert(body[0] == v@[pos as int] && body.last() == v@[len - 1]);
        }
        let text = String::from_str(a.substring_char(pos + 1, len - 1));
        proof {
            assert(text@ =~= body.subrange(1, body.len() - 1));
        }
        return Ok(Command::Assign { target, formula: Formula { op_type: 16, op_info1: 0, op_info2: 0 }, literal: Some(Cell::new_string(text)) });
    }
    proof {
        if body.len() >= 2 {
            assert(body[0] == v@[pos as int] && body.last() == v@[len - 1]);
        }
    }
    let mut digits = true;
    let mut dot = false;
    let mut i = pos;
    while i < len
        invariant
            pos <= i <= len,
            len == v@.len(),
            body == v@.subrange(pos as int, len as int),
            digits == forall|k: int| 0 <= k < i - pos ==> is_dec(#[trigger] body[k]),
            dot == exists|k: int| 0 <= k < i - pos && body[k] == '.',
        decreases len - i,
    {
        let ch = v[i];
        proof {
            assert(body[i - pos] == ch);
        }
        if !('0' <= ch && ch <= '9') {
            digits = false;
        }
        if ch == '.' {
            dot = true;
        }
        i = i + 1;
    }
    if digits {
        match parse_int(v, pos, len) {
            Some(x) => Ok(Command::Assign { target, formula: Formula { op_type: 0, op_info1: if neg { -x } else { x }, op_info2: -1 }, literal: None }),
            None => Err("Invalid integer"),
        }
    } else if dot {
        proof {
            let k = choose|k: int| 0 <= k < body.len() && body[k] == '.';
            assert(body.contains('.'));
        }
        let mut w: Vec<char> = Vec::new();
        copy_range(v, pos, len, &mut w);
        proof {
            assert(w@ =~= body);
        }
        match parse_float(&w) {
            Some(val) => {
                let cell = match val {
                    Some((n, d)) => make_frac(if neg { -n } else { n }, d),
                    None => Cell::invalid(),
                };
                Ok(Command::Assign { target, formula: Formula { op_type: 17, op_info1: 0, op_info2: 0 }, literal: Some(cell) })
            },
            None => Err("Invalid float"),
        }
    } else if neg {
        Err("Unsupported expression: negated cell")
    } else {
        match lab_exec(a, c, r, pos, len) {
            Ok(src) => Ok(Command::Assign { target, formula: Formula { op_type: -1, op_info1: src, op_info2: 0 }, literal: None }),
            Err(m) => Err(m),
        }
    }
}

} // verus!

verus! {

fn func_exec(a: &str, v: &Vec<char>, c: i32, r: i32, e: usize, open: usize) -> (res: Result<Command, &'static str>)
    requires
        v@ == a@,
        e < open < v@.len(),
        open == find_from(v@, e + 1, '('),
        c >= 0,
        r >= 0,
        c * r <= i32::MAX,
    ensures
        match res {
            Ok(cmd) => func_cmd(a@, c as int, r as int, e as int) == Ok::<CmdModel, &'static str>(cmd@) && cmd_ok(cmd, c * r),
            Err(m) => func_cmd(a@, c as int, r as int, e as int) == Err::<CmdModel, &'static str>(m),
        },
{
    let len = v.len();
    let tag = fn_tag_exec(v, e + 1, open);
    if tag == 0 {
        return Err("Unknown function");
    }
    let target = lab_exec(a, c, r, 0, e)?;
    let close = match find_char(v, open, ')') {
        Some(x) => x,
        None => {
            return Err("Missing closing parenthesis");
        },
    };
    proof {
        lemma_find_from(v@, e + 1, '(');
        lemma_find_from(v@, open as int, ')');
    }
    if tag == 14 {
        match lab_exec(a, c, r, open + 1, close) {
            Ok(x) => {
                if x == target {
                    Ok(Command::SelfReference)
                } else {
                    Ok(Command::Assign { target, formula: Formula { op_type: 14, op_info1: x, op_info2: x }, literal: None })
                }
            },
            Err(_) => {
                let (neg, st) = sign_exec(v, open + 1, close);
                match parse_int(v, st, close) {
                    Some(x) => Ok(
                        Command::Assign {
                            target,
                            formula: Formula { op_type: 14, op_info1: target, op_info2: if neg { -x } else { x } },
                            literal: None,
                        },
                    ),
                    None => Err("Invalid sleep value"),
                }
            },
        }
    } else {
        let colon = match find_char(v, open + 1, ':') {
            Some(x) => x,
            None => {
                return Err("Missing colon");
            },
        };
        proof {
            lemma_find_from(v@, open + 1, ':');
            assert(colon < len);
        }
        let ra = lab_exec(a, c, r, open + 1, colon)?;
        let rb = lab_exec(a, c, r, colon + 1, close)?;
        Ok(Command::Assign { target, formula: Formula { op_type: tag, op_info1: ra, op_info2: rb }, literal: None })
    }
}

fn autofill_exec(a: &str, v: &Vec<char>) -> (res: Result<Command, &'static str>)
    requires
        v@ == a@,
    ensures
        match res {
            Ok(cmd) => autofill_cmd(a@) == Ok::<CmdModel, &'static str>(cmd@),
            Err(m) => autofill_cmd(a@) == Err::<CmdModel, &'static str>(m),
        },
{
    let n = v.len();
    let e0 = find_space(v, 0);
    let b1 = skip_spaces(v, e0);
    if b1 == n {
        return Err("Usage: autofill <column> <length>");
    }
    let e1 = find_space(v, b1);
    let b2 = skip_spaces(v, e1);
    if b2 == n {
        return Err("Usage: autofill <column> <length>");
    }
    let e2 = find_space(v, b2);
    let b3 = skip_spaces(v, e2);
    if b3 != n {
        return Err("Usage: autofill <column> <length>");
    }
    match parse_usize(v, b2, e2) {
        Some(length) => {
            let column = String::from_str(a.substring_char(b1, e1));
            Ok(Command::Autofill { column, length })
        },
        None => Err("Invalid length"),
    }
}

/// Reads the command line `a` for a grid of `c` columns and `r` rows.
pub fn parse_command(a: &str, c: i32, r: i32) -> (res: Result<Command, &'static str>)
    requires
        c >= 0,
        r >= 0,
        c * r <= i32::MAX,
    ensures
        parsed(res, a@, c as int, r as int),
{
    let v = chars_of(a);
    let len = v.len();
    if len > 0 && (v[0] == 'w' || v[0] == 'a' || v[0] == 's' || v[0] == 'd') {
        return Ok(Command::Ignore);
    }
    if len >= 9 && seg_eq(&v, 0, 9, &vec!['=', 'a', 'u', 't', 'o', 'f', 'i', 'l', 'l']) {
        proof {
            assert(seq!['=', 'a', 'u', 't', 'o', 'f', 'i', 'l', 'l'] == autofill_word());
        }
        return autofill_exec(a, &v);
    }
    proof {
        if len >= 9 {
            assert(seq!['=', 'a', 'u', 't', 'o', 'f', 'i', 'l', 'l'] == autofill_word());
        }
    }
    let e = match find_char(&v, 0, '=') {
        Some(x) => x,
        None => {
            return Err("No equals sign found");
        },
    };
    proof {
        lemma_find_from(v@, 0, '=');
    }
    let open = find_char(&v, e + 1, '(');
    let ghost rhs = v@.subrange(e + 1, len as int);
    proof {
        lemma_find_from(v@, e + 1, '(');
        match open {
            Some(o) => {
                assert(rhs[o - e - 1] == '(');
            },
            None => {
                assert forall|i: int| 0 <= i < rhs.len() implies rhs[i] != '(' by {
                    assert(rhs[i] == v@[e + 1 + i]);
                }
            },
        }
    }
    let arith = has_arith_exec(&v, e + 1);
    match open {
        Some(o) => {
            if arith {
                Err("Invalid input: Cannot mix function and arithmetic")
            } else {
                func_exec(a, &v, c, r, e, o)
            }
        },
        None => {
            if arith {
                arith_exec(a, &v, c, r, e)
            } else {
                value_exec(a, &v, c, r, e)
            }
        },
    }
}

} // verus!
