use vstd::prelude::*;
use crate::assign::{assign, assigned, consistent};
use crate::autofill::{autofill, autofilled};
use crate::cell::Cell;
use crate::command::{CmdModel, Command, parse_command, parse_spec};
use crate::graph::{Formula, Graph, State};
use crate::recalc::grid_ok;

verus! {

/// What running line `s` did to a grid of `c` columns and `r` rows.
pub open spec fn ran(
    s: Seq<char>,
    c: int,
    r: int,
    g0: Graph,
    a0: Seq<Cell>,
    fs0: Seq<Formula>,
    s0: State,
    g1: Graph,
    a1: Seq<Cell>,
    fs1: Seq<Formula>,
    s1: State,
    res: Result<(), &'static str>,
) -> bool {
    match parse_spec(s, c, r) {
        Err(m) => res == Err::<(), &'static str>(m) && a1 == a0 && fs1 == fs0 && g1 == g0 && s1 == (State {
            num_cells: (c * r) as usize,
            ..s0
        }),
        Ok(CmdModel::Ignore) => res is Ok && a1 == a0 && fs1 == fs0 && g1 == g0 && s1 == (State {
            num_cells: (c * r) as usize,
            ..s0
        }),
        Ok(CmdModel::SelfReference) => res == Err::<(), &'static str>("Circular dependency detected") && a1 == a0
            && fs1 == fs0 && g1 == g0 && s1 == (State { num_cells: (c * r) as usize, has_cycle: true, ..s0 }),
        Ok(CmdModel::Autofill(col, length)) => autofilled(col, length as int, c, a0, a1, res) && fs1 == fs0 && g1 == g0
            && s1 == (State { num_cells: (c * r) as usize, ..s0 }),
        Ok(CmdModel::Assign(target, formula, literal)) => assigned(
            target as int,
            formula,
            literal,
            c,
            g0,
            a0,
            fs0,
            State { num_cells: (c * r) as usize, ..s0 },
            g1,
            a1,
            fs1,
            s1,
            res,
        ),
    }
}

/// Runs the command line `a` on a grid of `c` columns and `r` rows: an
/// assignment (recomputing its dependents, rolled back on a cycle), an
/// autofill, or a viewport command, which changes nothing.
pub fn parser(
    a: &str,
    c: i32,
    r: i32,
    arr: &mut Vec<Cell>,
    graph: &mut Graph,
    formula_array: &mut Vec<Formula>,
    state: &mut State,
) -> (res: Result<(), &'static str>)
    requires
        c > 0,
        r > 0,
        c * r <= i32::MAX,
        old(graph).size() == c * r,
        grid_ok(*old(graph), c as int, old(arr)@, old(formula_array)@),
        consistent(*old(graph), old(formula_array)@),
    ensures
        final(graph).size() == old(graph).size(),
        grid_ok(*final(graph), c as int, final(arr)@, final(formula_array)@),
        consistent(*final(graph), final(formula_array)@),
        final(state).num_cells == c * r,
        ran(a@, c as int, r as int, *old(graph), old(arr)@, old(formula_array)@, *old(state), *final(graph), final(arr)@, final(formula_array)@, *final(state), res),
{
    state.num_cells = (c * r) as usize;
    let cmd = parse_command(a, c, r)?;
    match cmd {
        Command::Ignore => Ok(()),
        Command::SelfReference => {
            state.has_cycle = true;
            Err("Circular dependency detected")
        },
        Command::Autofill { column, length } => {
            let res = autofill(column.as_str(), length, c, r, arr);
            proof {
                assert forall|k: int| 0 <= k < arr@.len() implies (#[trigger] arr@[k]).wf() by {
                    assert(old(arr)@[k].wf());
                }
            }
            res
        },
        Command::Assign { target, formula, literal } => {
            assign(target, formula, literal, c, arr, graph, formula_array, state)
        },
    }
}

} // verus!
