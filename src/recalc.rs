use vstd::prelude::*;
use crate::arith::{arithmetic_eval, binary_result};
use crate::cell::{Cell, CellModel, CellValue, Val, int_model, invalid_model, models};
use crate::graph::{Formula, Graph, State, formula_wf};
use crate::range::{aggregate, range_eval, rect_models};
use crate::topo::{cycle_from, topo_order};

verus! {

/// The operator of tags 1..4 and 5..8.
pub open spec fn op_of(t: i32) -> char {
    let i = if t >= 5 {
        t - 4
    } else {
        t as int
    };
    if i == 1 {
        '+'
    } else if i == 2 {
        '-'
    } else if i == 3 {
        '*'
    } else {
        '/'
    }
}

/// The value of `cell` under formula `f`, from the values `vals` of the grid.
/// A SLEEP reads an integer; any other source value makes it invalid.
pub open spec fn eval_formula(f: Formula, cell: int, vals: Seq<CellModel>, cols: int) -> CellModel {
    let t = f.op_type;
    if t == -1 {
        let v = vals[f.op_info1 as int];
        if !v.is_valid {
            invalid_model()
        } else {
            v
        }
    } else if t == 0 {
        int_model(f.op_info1)
    } else if 1 <= t <= 4 {
        let v = vals[f.op_info1 as int];
        if !v.is_valid {
            invalid_model()
        } else {
            binary_result(v, int_model(f.op_info2), op_of(t))
        }
    } else if 5 <= t <= 8 {
        binary_result(vals[f.op_info1 as int], vals[f.op_info2 as int], op_of(t))
    } else if 9 <= t <= 13 {
        aggregate(t, rect_models(vals, cols, f.op_info1 as int, f.op_info2 as int))
    } else if t == 14 {
        let v = if f.op_info1 as int == cell {
            int_model(f.op_info2)
        } else {
            vals[f.op_info1 as int]
        };
        if !v.is_valid || !(v.value is Int) {
            invalid_model()
        } else {
            v
        }
    } else if t == 15 {
        binary_result(int_model(f.op_info1), vals[f.op_info2 as int], '/')
    } else if t == 16 || t == 17 {
        vals[cell]
    } else {
        invalid_model()
    }
}

/// Seconds that evaluating `cell` under `f` sleeps: a positive integer SLEEP.
pub open spec fn sleep_of(f: Formula, cell: int, vals: Seq<CellModel>, cols: int) -> int {
    let v = eval_formula(f, cell, vals, cols);
    if f.op_type == 14 && v.is_valid {
        match v.value {
            Val::Int(i) => if i > 0 {
                i as int
            } else {
                0
            },
            _ => 0,
        }
    } else {
        0
    }
}

/// The grid after evaluating the cells of `order` one after the other.
pub open spec fn apply_all(order: Seq<i32>, vals: Seq<CellModel>, fs: Seq<Formula>, cols: int) -> Seq<CellModel>
    decreases order.len(),
{
    if order.len() == 0 {
        vals
    } else {
        let prev = apply_all(order.drop_last(), vals, fs, cols);
        let c = order.last() as int;
        prev.update(c, eval_formula(fs[c], c, prev, cols))
    }
}

/// The seconds of SLEEP met while evaluating the cells of `order`.
pub open spec fn sleep_total(order: Seq<i32>, vals: Seq<CellModel>, fs: Seq<Formula>, cols: int) -> int
    decreases order.len(),
{
    if order.len() == 0 {
        0
    } else {
        let prev = apply_all(order.drop_last(), vals, fs, cols);
        let c = order.last() as int;
        sleep_total(order.drop_last(), vals, fs, cols) + sleep_of(fs[c], c, prev, cols)
    }
}

/// The grid that recomputation works on: `n` cells in rows of `cols`, every
/// formula naming cells of the grid, every fraction well formed.
pub open spec fn grid_ok(g: Graph, cols: int, arr: Seq<Cell>, fs: Seq<Formula>) -> bool {
    &&& g.wf()
    &&& cols > 0
    &&& arr.len() == g.size()
    &&& fs.len() == g.size()
    &&& (g.size() as int) % cols == 0
    &&& forall|c: int| 0 <= c < arr.len() ==> (#[trigger] arr[c]).wf()
    &&& forall|c: int| 0 <= c < fs.len() ==> formula_wf(#[trigger] fs[c], c, g.size())
}

/// Evaluates formula `f` of `cell`.
pub fn eval_cell(arr: &Vec<Cell>, cell: i32, f: Formula, cols: i32) -> (r: Cell)
    requires
        cols > 0,
        0 <= cell < arr@.len(),
        arr@.len() <= i32::MAX,
        (arr@.len() as int) % (cols as int) == 0,
        forall|c: int| 0 <= c < arr@.len() ==> (#[trigger] arr@[c]).wf(),
        formula_wf(f, cell as int, arr@.len() as int),
    ensures
        r@ == eval_formula(f, cell as int, models(arr@), cols as int),
        r.wf(),
{
    let t = f.op_type;
    if t == -1 {
        let v = arr[f.op_info1 as usize].clone();
        if !v.is_valid {
            Cell::invalid()
        } else {
            v
        }
    } else if t == 0 {
        Cell::new_int(f.op_info1)
    } else if 1 <= t && t <= 4 {
        let v = arr[f.op_info1 as usize].clone();
        if !v.is_valid {
            Cell::invalid()
        } else {
            let op = if t == 1 { '+' } else if t == 2 { '-' } else if t == 3 { '*' } else { '/' };
            arithmetic_eval(v, Cell::new_int(f.op_info2), op)
        }
    } else if 5 <= t && t <= 8 {
        let v1 = arr[f.op_info1 as usize].clone();
        let v2 = arr[f.op_info2 as usize].clone();
        let op = if t == 5 { '+' } else if t == 6 { '-' } else if t == 7 { '*' } else { '/' };
        arithmetic_eval(v1, v2, op)
    } else if 9 <= t && t <= 13 {
        range_eval(arr, cols, f.op_info1, f.op_info2, t)
    } else if t == 14 {
        let v = if f.op_info1 == cell {
            Cell::new_int(f.op_info2)
        } else {
            arr[f.op_info1 as usize].clone()
        };
        if !v.is_valid {
            Cell::invalid()
        } else if let CellValue::Int(_) = v.value {
            v
        } else {
            Cell::invalid()
        }
    } else if t == 15 {
        let v2 = arr[f.op_info2 as usize].clone();
        arithmetic_eval(Cell::new_int(f.op_info1), v2, '/')
    } else if t == 16 || t == 17 {
        arr[cell as usize].clone()
    } else {
        Cell::invalid()
    }
}

impl Graph {
    /// Recomputes every cell reachable from `start_cell`, sources before
    /// dependents. On a cycle nothing is written and the error comes back,
    /// with `state.has_cycle` raised. `state.sleep_seconds` receives the
    /// seconds of SLEEP met on the way, for the host to wait out.
    pub fn recalc(
        &self,
        cols: i32,
        arr: &mut Vec<Cell>,
        start_cell: i32,
        formula_array: &Vec<Formula>,
        state: &mut State,
    ) -> (r: Result<(), &'static str>)
        requires
            grid_ok(*self, cols as int, old(arr)@, formula_array@),
            0 <= start_cell < self.size(),
        ensures
            grid_ok(*self, cols as int, final(arr)@, formula_array@),
            match r {
                Ok(()) => exists|order: Seq<i32>|
                    topo_order(*self, cols as int, start_cell as int, order) && models(final(arr)@) == apply_all(
                        order,
                        models(old(arr)@),
                        formula_array@,
                        cols as int,
                    ) && final(state).sleep_seconds == sleep_total(order, models(old(arr)@), formula_array@, cols as int)
                    && *final(state) == (State { sleep_seconds: final(state).sleep_seconds, ..*old(state) }),
                Err(e) => e == "Circular dependency detected" && final(arr)@ == old(arr)@ && *final(state) == (State {
                    has_cycle: true,
                    ..*old(state)
                }) && cycle_from(*self, cols as int, start_cell as int),
            },
    {
        let sorted = self.topo_sort_from_cell(start_cell, cols, state)?;
        let ghost v0 = models(arr@);
        let ghost fs = formula_array@;
        proof {
            reveal(topo_order);
            crate::topo::lemma_distinct_cells_len(sorted@, self.size());
        }
        let mut total: u64 = 0;
        let mut k: usize = 0;
        while k < sorted.len()
            invariant
                grid_ok(*self, cols as int, arr@, formula_array@),
                topo_order(*self, cols as int, start_cell as int, sorted@),
                k <= sorted@.len(),
                fs == formula_array@,
                v0 == models(old(arr)@),
                sorted@.len() <= self.size(),
                forall|j: int| 0 <= j < sorted@.len() ==> 0 <= #[trigger] sorted@[j] < self.size(),
                models(arr@) == apply_all(sorted@.subrange(0, k as int), v0, fs, cols as int),
                total as int == sleep_total(sorted@.subrange(0, k as int), v0, fs, cols as int),
                total <= k * 0x8000_0000,
            decreases sorted@.len() - k,
        {
            let cell = sorted[k];
            let f = formula_array[cell as usize];
            let ghost pre = models(arr@);
            proof {
                assert(0 <= sorted@[k as int] < self.size());
                assert(sorted@.subrange(0, k as int + 1).drop_last() =~= sorted@.subrange(0, k as int));
            }
            let v = eval_cell(arr, cell, f, cols);
            let ghost vm = v@;
            proof {
                crate::cell::lemma_models_update(arr@, cell as int, v);
            }
            if f.op_type == 14 && v.is_valid {
                if let CellValue::Int(i) = v.value {
                    if i > 0 {
                        total = total + i as u64;
                    }
                }
            }
            arr.set(cell as usize, v);
            proof {
                let q = sorted@.subrange(0, k as int + 1);
                assert(q.last() == cell);
                assert(q.drop_last() == sorted@.subrange(0, k as int));
                assert(f == fs[cell as int]);
                assert(vm == eval_formula(fs[cell as int], cell as int, pre, cols as int));
                assert(apply_all(q, v0, fs, cols as int) == pre.update(cell as int, vm));
                assert(sleep_total(q, v0, fs, cols as int) == sleep_total(sorted@.subrange(0, k as int), v0, fs, cols as int)
                    + sleep_of(fs[cell as int], cell as int, pre, cols as int));
                assert(models(arr@) == pre.update(cell as int, vm));
            }
            k = k + 1;
        }
        proof {
            assert(sorted@.subrange(0, sorted@.len() as int) =~= sorted@);
        }
        state.sleep_seconds = total;
        Ok(())
    }
}

} // verus!
