use vstd::prelude::*;
use crate::lexer::{
    chars_of,
    find_char,
    find_from,
    is_space_exec,
    lemma_find_from,
    parse_usize,
    skip_back,
    skip_front,
    usize_lit,
};

verus! {

/// Request to write `value` at row `row_id`, column `column_id` (numbers as
/// text).
#[derive(Debug)]
pub struct UpdateCellRequest {
    pub row_id: String,
    pub column_id: String,
    pub value: String,
}

#[derive(Debug)]
pub struct UpdateResponse {
    pub success: bool,
    pub message: String,
}

#[derive(Debug)]
pub struct QueryResponse {
    pub success: bool,
    pub message: String,
    pub result: Option<String>,
}

#[derive(Debug)]
pub struct UndoRedoResponse {
    pub success: bool,
    pub message: String,
}

/// Host settings: days of inactivity after which a document is dropped.
#[derive(Debug, Clone, Copy, PartialEq, Eq, Structural)]
pub struct ServerConfig {
    pub expiry_days: u32,
}

impl Default for ServerConfig {
    fn default() -> (c: ServerConfig)
        ensures
            c.expiry_days == 1,
    {
        ServerConfig { expiry_days: 1 }
    }
}

/// `s[lo..hi]` without surrounding spaces.
pub open spec fn trimmed(s: Seq<char>, lo: int, hi: int) -> Seq<char> {
    let a = skip_front(s, lo, hi);
    s.subrange(a, skip_back(s, a, hi))
}

/// "row,col": one comma between two numbers, each with an optional `+` and
/// spaces around it, each fitting `usize`.
pub open spec fn coordinates(s: Seq<char>) -> Result<(int, int), &'static str> {
    let comma = find_from(s, 0, ',');
    if comma < 0 || find_from(s, comma + 1, ',') >= 0 {
        Err("Invalid cell coordinate format")
    } else {
        match usize_lit(trimmed(s, 0, comma)) {
            None => Err("Invalid row"),
            Some(row) => match usize_lit(trimmed(s, comma + 1, s.len() as int)) {
                None => Err("Invalid column"),
                Some(col) => Ok((row, col)),
            },
        }
    }
}

fn trim_range(v: &Vec<char>, lo: usize, hi: usize) -> (r: (usize, usize))
    requires
        lo <= hi <= v@.len(),
    ensures
        r.0 as int == skip_front(v@, lo as int, hi as int),
        r.1 as int == skip_back(v@, r.0 as int, hi as int),
        lo <= r.0 <= r.1 <= hi,
{
    let mut a = lo;
    while a < hi && is_space_exec(v[a])
        invariant
            lo <= a <= hi <= v@.len(),
            skip_front(v@, lo as int, hi as int) == skip_front(v@, a as int, hi as int),
        decreases hi - a,
    {
        a = a + 1;
    }
    let mut b = hi;
    while b > a && is_space_exec(v[b - 1])
        invariant
            lo <= a <= b <= hi <= v@.len(),
            skip_back(v@, a as int, hi as int) == skip_back(v@, a as int, b as int),
        decreases b - a,
    {
        b = b - 1;
    }
    (a, b)
}

/// Reads "row,col" into a pair of numbers.
pub fn parse_cell_coordinates(coord_str: &str) -> (r: Result<(usize, usize), &'static str>)
    ensures
        match coordinates(coord_str@) {
            Ok((row, col)) => r == Ok::<(usize, usize), &'static str>((row as usize, col as usize)),
            Err(m) => r == Err::<(usize, usize), &'static str>(m),
        },
{
    let v = chars_of(coord_str);
    let comma = match find_char(&v, 0, ',') {
        Some(c) => c,
        None => {
            return Err("Invalid cell coordinate format");
        },
    };
    let n = v.len();
    proof {
        lemma_find_from(v@, 0, ',');
        assert(comma < n);
    }
    if find_char(&v, comma + 1, ',').is_some() {
        return Err("Invalid cell coordinate format");
    }
    let (a, b) = trim_range(&v, 0, comma);
    let row = match parse_usize(&v, a, b) {
        Some(x) => x,
        None => {
            return Err("Invalid row");
        },
    };
    let (c, d) = trim_range(&v, comma + 1, v.len());
    let col = match parse_usize(&v, c, d) {
        Some(x) => x,
        None => {
            return Err("Invalid column");
        },
    };
    Ok((row, col))
}

} // verus!
