use vstd::prelude::*;
use crate::cell::Cell;
use crate::command::lab;
use crate::graph::Graph;
use crate::label::parse_label;
use crate::lexer::chars_of;
use crate::lexer::{is_space, is_space_exec, skip_back, skip_front};

verus! {

/// Moving back by a page of ten: to 0 when less than a page remains.
pub open spec fn page_back(p: int) -> int {
    if p < 10 {
        if p > 0 {
            0
        } else {
            p
        }
    } else {
        p - 10
    }
}

/// Moving forward by a page of ten, keeping a full page in view of `n`.
pub open spec fn page_forward(p: int, n: int) -> int {
    let rem = n - p - 10;
    if rem <= 0 {
        p
    } else if rem < 10 {
        p + rem
    } else {
        p + 10
    }
}

pub open spec fn scroll_word() -> Seq<char> {
    seq!['s', 'c', 'r', 'o', 'l', 'l', '_', 't', 'o', ' ']
}

/// The top-left corner `(column, row)` after viewport command `a`, from
/// `(x, y)` in a grid of `c` columns and `r` rows.
pub open spec fn scroll_spec(a: Seq<char>, x: int, y: int, c: int, r: int) -> Result<(int, int), &'static str> {
    if a == seq!['w'] {
        Ok((x, page_back(y)))
    } else if a == seq!['s'] {
        Ok((x, page_forward(y, r)))
    } else if a == seq!['a'] {
        Ok((page_back(x), y))
    } else if a == seq!['d'] {
        Ok((page_forward(x, c), y))
    } else if a.len() >= 10 && a.subrange(0, 10) == scroll_word() {
        let lo = skip_front(a, 10, a.len() as int);
        let hi = skip_back(a, lo, a.len() as int);
        if lo == hi || exists|k: int| lo <= k < hi && is_space(#[trigger] a[k]) {
            Err("Invalid scroll_to format")
        } else {
            match lab(a, c, r, lo, hi - 1) {
                Ok(cell) => Ok((cell % c, cell / c)),
                Err(m) => Err(m),
            }
        }
    } else {
        Err("Unknown scroll command")
    }
}

/// Moves the viewport's top-left corner `(currx, curry)`: `w`, `a`, `s`,
/// `d` by pages of ten, or `scroll_to <cell>`.
pub fn scroller(
    a: &str,
    _arr: &Vec<Cell>,
    currx: &mut i32,
    curry: &mut i32,
    c: i32,
    r: i32,
    _graph: &Graph,
) -> (res: Result<(), &'static str>)
    requires
        c > 0,
        r > 0,
        c * r <= i32::MAX,
    ensures
        match scroll_spec(a@, *old(currx) as int, *old(curry) as int, c as int, r as int) {
            Ok((x, y)) => res is Ok && *final(currx) == x && *final(curry) == y,
            Err(m) => res == Err::<(), &'static str>(m) && *final(currx) == *old(currx) && *final(curry) == *old(curry),
        },
{
    let v = chars_of(a);
    let n = v.len();
    if n == 1 && v[0] == 'w' {
        proof {
            assert(a@ =~= seq!['w']);
        }
        if *curry < 10 {
            if *curry > 0 {
                *curry = 0;
            }
        } else {
            *curry = *curry - 10;
        }
        return Ok(());
    }
    if n == 1 && v[0] == 's' {
        proof {
            assert(a@ =~= seq!['s']);
            assert(a@ != seq!['w']);
        }
        let rem = r as i64 - *curry as i64 - 10;
        if rem > 0 {
            if rem < 10 {
                *curry = (*curry as i64 + rem) as i32;
            } else {
                *curry = *curry + 10;
            }
        }
        return Ok(());
    }
    if n == 1 && v[0] == 'a' {
        proof {
            assert(a@ =~= seq!['a']);
            assert(a@ != seq!['w'] && a@ != seq!['s']);
        }
        if *currx < 10 {
            if *currx > 0 {
                *currx = 0;
            }
        } else {
            *currx = *currx - 10;
        }
        return Ok(());
    }
    if n == 1 && v[0] == 'd' {
        proof {
            assert(a@ =~= seq!['d']);
            assert(a@ != seq!['w'] && a@ != seq!['s'] && a@ != seq!['a']);
        }
        let rem = c as i64 - *currx as i64 - 10;
        if rem > 0 {
            if rem < 10 {
                *currx = (*currx as i64 + rem) as i32;
            } else {
                *currx = *currx + 10;
            }
        }
        return Ok(());
    }
    proof {
        if n == 1 {
            assert(a@ != seq!['w'] && a@ != seq!['s'] && a@ != seq!['a'] && a@ != seq!['d']) by {
                assert(a@[0] == v@[0]);
            }
        } else {
            assert(a@.len() != 1);
            assert(seq!['w'].len() == 1 && seq!['s'].len() == 1 && seq!['a'].len() == 1 && seq!['d'].len() == 1);
        }
    }
    let word = vec!['s', 'c', 'r', 'o', 'l', 'l', '_', 't', 'o', ' '];
    let mut is_scroll = n >= 10;
    let mut i: usize = 0;
    while is_scroll && i < 10
        invariant
            i <= 10,
            a@ != seq!['w'] && a@ != seq!['s'] && a@ != seq!['a'] && a@ != seq!['d'],
            *currx == *old(currx) && *curry == *old(curry),
            v@ == a@,
            n == v@.len(),
            word@ == scroll_word(),
            is_scroll ==> n >= 10 && forall|j: int| 0 <= j < i ==> v@[j] == word@[j],
            !is_scroll ==> !(a@.len() >= 10 && a@.subrange(0, 10) == scroll_word()),
        decreases 10 - i,
    {
        if v[i] != word[i] {
            proof {
                if a@.len() >= 10 && a@.subrange(0, 10) == scroll_word() {
                    assert(a@.subrange(0, 10)[i as int] == v@[i as int]);
                }
            }
            is_scroll = false;
        }
        i = i + 1;
    }
    if !is_scroll {
        return Err("Unknown scroll command");
    }
    proof {
        assert(a@.subrange(0, 10) =~= scroll_word());
    }
    let mut lo: usize = 10;
    while lo < n && is_space_exec(v[lo])
        invariant
            10 <= lo <= n,
            a@ != seq!['w'] && a@ != seq!['s'] && a@ != seq!['a'] && a@ != seq!['d'],
            *currx == *old(currx) && *curry == *old(curry),
            a@.subrange(0, 10) == scroll_word(),
            v@ == a@,
            n == v@.len(),
            skip_front(a@, 10, n as int) == skip_front(a@, lo as int, n as int),
        decreases n - lo,
    {
        lo = lo + 1;
    }
    assert(skip_front(a@, lo as int, n as int) == lo);
    let mut hi: usize = n;
    while hi > lo && is_space_exec(v[hi - 1])
        invariant
            lo <= hi <= n,
            a@ != seq!['w'] && a@ != seq!['s'] && a@ != seq!['a'] && a@ != seq!['d'],
            *currx == *old(currx) && *curry == *old(curry),
            a@.subrange(0, 10) == scroll_word(),
            10 <= lo,
            lo == skip_front(a@, 10, n as int),
            v@ == a@,
            n == v@.len(),
            skip_back(a@, lo as int, n as int) == skip_back(a@, lo as int, hi as int),
        decreases hi - lo,
    {
        hi = hi - 1;
    }
    assert(skip_back(a@, lo as int, hi as int) == hi);
    if lo == hi {
        return Err("Invalid scroll_to format");
    }
    let mut k = lo;
    while k < hi
        invariant
            lo <= k <= hi <= n,
            a@ != seq!['w'] && a@ != seq!['s'] && a@ != seq!['a'] && a@ != seq!['d'],
            *currx == *old(currx) && *curry == *old(curry),
            a@.subrange(0, 10) == scroll_word(),
            10 <= lo,
            lo == skip_front(a@, 10, n as int),
            hi == skip_back(a@, lo as int, n as int),
            v@ == a@,
            n == v@.len(),
            forall|j: int| lo <= j < k ==> !is_space(#[trigger] a@[j]),
        decreases hi - k,
    {
        if is_space_exec(v[k]) {
            proof {
                assert(is_space(a@[k as int]));
            }
            return Err("Invalid scroll_to format");
        }
        k = k + 1;
    }
    let cell = match parse_label(a, c, r, lo, hi - 1) {
        Ok(x) => x,
        Err(e) => {
            return Err(e.message());
        },
    };
    *currx = cell % c;
    *curry = cell / c;
    Ok(())
}

} // verus!
