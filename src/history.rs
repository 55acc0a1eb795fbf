use vstd::prelude::*;
use crate::assign::{consistent, lemma_consistent_empty};
use crate::cell::{Cell, models};
use crate::graph::{Formula, Graph, Range, State, lemma_same_graph};
use crate::recalc::grid_ok;
use crate::sheet::{parser, ran};

verus! {

/// A copy of the whole grid: cells, formulas and dependency graph.
pub struct StateSnapshot {
    pub arr: Vec<Cell>,
    pub formula_array: Vec<Formula>,
    pub graph: Graph,
}

/// The contents of a grid, as compared by undo and redo.
pub struct Contents {
    pub cells: Seq<Cell>,
    pub formulas: Seq<Formula>,
    pub lists: Seq<Seq<i32>>,
    pub ranges: Seq<Range>,
}

impl StateSnapshot {
    pub open spec fn contents(self) -> Contents {
        Contents { cells: self.arr@, formulas: self.formula_array@, lists: self.graph.lists(), ranges: self.graph.ranges@ }
    }

    /// A usable grid of `cols` columns and `n` cells.
    pub open spec fn ok(self, cols: int, n: int) -> bool {
        &&& self.graph.size() == n
        &&& grid_ok(self.graph, cols, self.arr@, self.formula_array@)
        &&& consistent(self.graph, self.formula_array@)
    }
}

fn copy_cells(arr: &Vec<Cell>) -> (r: Vec<Cell>)
    ensures
        r@ == arr@,
{
    let mut out: Vec<Cell> = Vec::new();
    let mut i: usize = 0;
    while i < arr.len()
        invariant
            i <= arr@.len(),
            out@ == arr@.subrange(0, i as int),
        decreases arr@.len() - i,
    {
        out.push(arr[i].clone());
        i = i + 1;
        assert(out@ =~= arr@.subrange(0, i as int));
    }
    assert(out@ =~= arr@);
    out
}

fn copy_formulas(fs: &Vec<Formula>) -> (r: Vec<Formula>)
    ensures
        r@ == fs@,
{
    let mut out: Vec<Formula> = Vec::new();
    let mut i: usize = 0;
    while i < fs.len()
        invariant
            i <= fs@.len(),
            out@ == fs@.subrange(0, i as int),
        decreases fs@.len() - i,
    {
        out.push(fs[i]);
        i = i + 1;
        assert(out@ =~= fs@.subrange(0, i as int));
    }
    assert(out@ =~= fs@);
    out
}

/// A snapshot of cells, formulas and graph.
pub fn create_snapshot_extended(arr: &Vec<Cell>, formula_array: &Vec<Formula>, graph: &Graph) -> (s: StateSnapshot)
    ensures
        s.contents() == (Contents { cells: arr@, formulas: formula_array@, lists: graph.lists(), ranges: graph.ranges@ }),
        s.graph.size() == graph.size(),
        s.graph.wf() == graph.wf(),
        s.graph.edge_sets() == graph.edge_sets(),
{
    let g = graph.copy();
    proof {
        lemma_same_graph(g, *graph);
    }
    StateSnapshot { arr: copy_cells(arr), formula_array: copy_formulas(formula_array), graph: g }
}

/// Undo from `s0` to `s1`: the top undo snapshot comes back and the grid it
/// replaced goes on the redo stack; with no snapshot, nothing changes.
pub open spec fn undone(s0: Sheet, s1: Sheet, r: Result<(), &'static str>) -> bool {
    &&& s1.rows == s0.rows && s1.cols == s0.cols && s1.history_limit == s0.history_limit
    &&& s0.undo_stack@.len() == 0 ==> r == Err::<(), &'static str>("Nothing to undo") && s1 == s0
    &&& s0.undo_stack@.len() > 0 ==> {
        &&& r is Ok
        &&& s1.contents() == s0.undo_stack@.last().contents()
        &&& s1.undo_stack@ == s0.undo_stack@.drop_last()
        &&& s1.redo_stack@.len() == s0.redo_stack@.len() + 1
        &&& s1.redo_stack@.drop_last() == s0.redo_stack@
        &&& s1.redo_stack@.last().contents() == s0.contents()
    }
}

/// Redo from `s0` to `s1`, the mirror of undo.
pub open spec fn redone(s0: Sheet, s1: Sheet, r: Result<(), &'static str>) -> bool {
    &&& s1.rows == s0.rows && s1.cols == s0.cols && s1.history_limit == s0.history_limit
    &&& s0.redo_stack@.len() == 0 ==> r == Err::<(), &'static str>("Nothing to redo") && s1 == s0
    &&& s0.redo_stack@.len() > 0 ==> {
        &&& r is Ok
        &&& s1.contents() == s0.redo_stack@.last().contents()
        &&& s1.redo_stack@ == s0.redo_stack@.drop_last()
        &&& s1.undo_stack@.len() == s0.undo_stack@.len() + 1
        &&& s1.undo_stack@.drop_last() == s0.undo_stack@
        &&& s1.undo_stack@.last().contents() == s0.contents()
    }
}

/// A command other than undo and redo, from `s0` to `s1`: the grid before
/// it tops the undo stack, the redo stack is emptied, and the line ran on
/// the grid.
pub open spec fn stepped(s0: Sheet, s1: Sheet, line: Seq<char>, r: Result<(), &'static str>) -> bool {
    &&& s1.rows == s0.rows && s1.cols == s0.cols && s1.history_limit == s0.history_limit
    &&& s1.undo_stack@.len() >= 1
    &&& s1.undo_stack@.drop_last() == kept_history(s0.undo_stack@, s0.history_limit)
    &&& s1.undo_stack@.last().contents() == s0.contents()
    &&& s1.redo_stack@.len() == 0
    &&& ran(
        line,
        s0.cols as int,
        s0.rows as int,
        s0.graph,
        s0.arr@,
        s0.formula_array@,
        s0.state,
        s1.graph,
        s1.arr@,
        s1.formula_array@,
        s1.state,
        r,
    )
}

/// Undo right after a command gives back the grid from before it, and redo
/// right after that gives back the grid the command made.
pub proof fn lemma_undo_redo(s0: Sheet, s1: Sheet, s2: Sheet, s3: Sheet, line: Seq<char>, r: Result<(), &'static str>)
    requires
        stepped(s0, s1, line, r),
        undone(s1, s2, Ok(())),
        redone(s2, s3, Ok(())),
    ensures
        s2.contents() == s0.contents(),
        s3.contents() == s1.contents(),
{
}

/// The undo entries kept when one more is pushed: all of them, or, with a
/// `limit` (0: none) already reached, all but the oldest.
pub open spec fn kept_history(stack: Seq<StateSnapshot>, limit: usize) -> Seq<StateSnapshot> {
    if limit > 0 && stack.len() + 1 > limit {
        stack.subrange(1, stack.len() as int)
    } else {
        stack
    }
}

/// Pushes `snap` on `stack`, dropping the oldest entry past `limit` (0: no
/// limit).
fn push_history(stack: &mut Vec<StateSnapshot>, snap: StateSnapshot, limit: usize, Ghost(cols): Ghost<int>, Ghost(n): Ghost<int>)
    requires
        snap.ok(cols, n),
        forall|k: int| 0 <= k < old(stack)@.len() ==> (#[trigger] old(stack)@[k]).ok(cols, n),
    ensures
        final(stack)@ == kept_history(old(stack)@, limit).push(snap),
        forall|k: int| 0 <= k < final(stack)@.len() ==> (#[trigger] final(stack)@[k]).ok(cols, n),
{
    stack.push(snap);
    if limit > 0 && stack.len() > limit {
        let ghost before = stack@;
        stack.remove(0);
        proof {
            assert forall|k: int| 0 <= k < stack@.len() implies (#[trigger] stack@[k]).ok(cols, n) by {
                assert(stack@[k] == before[k + 1]);
                if k + 1 < old(stack)@.len() {
                    assert(before[k + 1] == old(stack)@[k + 1]);
                }
            }
            assert(stack@.last() == before.last());
            assert(stack@ =~= kept_history(old(stack)@, limit).push(snap));
        }
    } else {
        proof {
            assert forall|k: int| 0 <= k < stack@.len() implies (#[trigger] stack@[k]).ok(cols, n) by {
                if k < old(stack)@.len() {
                    assert(stack@[k] == old(stack)@[k]);
                }
            }
        }
    }
}

/// A spreadsheet: the grid with its formulas and graph, and the undo and
/// redo history of snapshots.
pub struct Sheet {
    pub rows: i32,
    pub cols: i32,
    pub arr: Vec<Cell>,
    pub formula_array: Vec<Formula>,
    pub graph: Graph,
    pub state: State,
    pub undo_stack: Vec<StateSnapshot>,
    pub redo_stack: Vec<StateSnapshot>,
    /// Most snapshots kept for undo; 0 keeps them all.
    pub history_limit: usize,
}

impl Sheet {
    pub open spec fn contents(self) -> Contents {
        Contents { cells: self.arr@, formulas: self.formula_array@, lists: self.graph.lists(), ranges: self.graph.ranges@ }
    }

    pub open spec fn wf(self) -> bool {
        &&& self.rows > 0
        &&& self.cols > 0
        &&& self.rows * self.cols <= i32::MAX
        &&& self.graph.size() == self.rows * self.cols
        &&& grid_ok(self.graph, self.cols as int, self.arr@, self.formula_array@)
        &&& consistent(self.graph, self.formula_array@)
        &&& forall|k: int| 0 <= k < self.undo_stack@.len() ==> (#[trigger] self.undo_stack@[k]).ok(self.cols as int, self.rows * self.cols)
        &&& forall|k: int| 0 <= k < self.redo_stack@.len() ==> (#[trigger] self.redo_stack@[k]).ok(self.cols as int, self.rows * self.cols)
        &&& self.history_limit > 0 ==> self.undo_stack@.len() + self.redo_stack@.len() <= self.history_limit
    }

    /// A grid of `rows` by `cols` integer zeros, each cell's formula the
    /// literal 0, no edges, no range subscriptions, and an empty history.
    pub fn new(rows: i32, cols: i32, history_limit: usize) -> (s: Sheet)
        requires
            rows > 0,
            cols > 0,
            rows * cols <= i32::MAX,
        ensures
            s.wf(),
            s.rows == rows && s.cols == cols && s.history_limit == history_limit,
            s.undo_stack@.len() == 0 && s.redo_stack@.len() == 0,
            forall|k: int| 0 <= k < rows * cols ==> (#[trigger] models(s.arr@)[k]) == crate::cell::int_model(0),
            forall|k: int| 0 <= k < rows * cols ==> #[trigger] s.formula_array@[k] == (Formula { op_type: 0, op_info1: 0, op_info2: 0 }),
            forall|k: int| 0 <= k < rows * cols ==> (#[trigger] s.graph.adj_lists@[k])@.len() == 0,
            s.graph.ranges@.len() == 0,
    {
        let n = (rows * cols) as usize;
        let mut arr: Vec<Cell> = Vec::new();
        let mut fs: Vec<Formula> = Vec::new();
        let mut i: usize = 0;
        while i < n
            invariant
                i <= n,
                arr@.len() == i,
                fs@.len() == i,
                forall|k: int| 0 <= k < i ==> (#[trigger] arr@[k])@ == crate::cell::int_model(0) && arr@[k].wf(),
                forall|k: int| 0 <= k < i ==> #[trigger] fs@[k] == (Formula { op_type: 0, op_info1: 0, op_info2: 0 }),
            decreases n - i,
        {
            arr.push(Cell::new_int(0));
            fs.push(Formula { op_type: 0, op_info1: 0, op_info2: 0 });
            i = i + 1;
        }
        let graph = Graph::new(n);
        proof {
            lemma_consistent_empty(graph, fs@);
            assert((n as int) % (cols as int) == 0) by (nonlinear_arith)
                requires
                    n == rows * cols,
                    cols > 0,
            ;
        }
        Sheet {
            rows,
            cols,
            arr,
            formula_array: fs,
            graph,
            state: State::new(),
            undo_stack: Vec::new(),
            redo_stack: Vec::new(),
            history_limit,
        }
    }

    /// A snapshot of the current grid.
    pub fn snapshot(&self) -> (s: StateSnapshot)
        requires
            self.wf(),
        ensures
            s.contents() == self.contents(),
            s.ok(self.cols as int, self.rows * self.cols),
    {
        let s = create_snapshot_extended(&self.arr, &self.formula_array, &self.graph);
        proof {
            lemma_same_graph(s.graph, self.graph);
        }
        s
    }

    /// Swaps the current grid with snapshot `s`.
    fn swap_in(&mut self, s: &mut StateSnapshot)
        ensures
            final(self).contents() == old(s).contents(),
            final(s).contents() == old(self).contents(),
            final(self).arr == old(s).arr && final(self).formula_array == old(s).formula_array && final(self).graph
                == old(s).graph,
            final(s).arr == old(self).arr && final(s).formula_array == old(self).formula_array && final(s).graph
                == old(self).graph,
            final(self).rows == old(self).rows && final(self).cols == old(self).cols,
            final(self).undo_stack == old(self).undo_stack && final(self).redo_stack == old(self).redo_stack,
            final(self).history_limit == old(self).history_limit,
    {
        std::mem::swap(&mut self.arr, &mut s.arr);
        std::mem::swap(&mut self.formula_array, &mut s.formula_array);
        std::mem::swap(&mut self.graph, &mut s.graph);
    }

    /// Goes back to the snapshot on top of the undo stack, keeping the
    /// current grid for redo.
    pub fn undo(&mut self) -> (r: Result<(), &'static str>)
        requires
            old(self).wf(),
        ensures
            final(self).wf(),
            undone(*old(self), *final(self), r),
    {
        if self.undo_stack.len() == 0 {
            return Err("Nothing to undo");
        }
        match self.undo_stack.pop() {
            None => Err("Nothing to undo"),
            Some(mut prev) => {
                proof {
                    assert(old(self).undo_stack@.last() == prev);
                    assert(prev.ok(self.cols as int, self.rows * self.cols)) by {
                        assert(old(self).undo_stack@[old(self).undo_stack@.len() - 1] == prev);
                    }
                }
                self.swap_in(&mut prev);
                self.redo_stack.push(prev);
                proof {
                    assert(self.redo_stack@.drop_last() =~= old(self).redo_stack@);
                    assert forall|k: int| 0 <= k < self.undo_stack@.len() implies (#[trigger] self.undo_stack@[k]).ok(
                        self.cols as int,
                        self.rows * self.cols,
                    ) by {
                        assert(self.undo_stack@[k] == old(self).undo_stack@[k]);
                    }
                    assert forall|k: int| 0 <= k < self.redo_stack@.len() implies (#[trigger] self.redo_stack@[k]).ok(
                        self.cols as int,
                        self.rows * self.cols,
                    ) by {
                        if k < old(self).redo_stack@.len() {
                            assert(self.redo_stack@[k] == old(self).redo_stack@[k]);
                        }
                    }
                }
                Ok(())
            },
        }
    }

    /// Goes forward to the snapshot on top of the redo stack, keeping the
    /// current grid for undo.
    pub fn redo(&mut self) -> (r: Result<(), &'static str>)
        requires
            old(self).wf(),
        ensures
            final(self).wf(),
            redone(*old(self), *final(self), r),
    {
        if self.redo_stack.len() == 0 {
            return Err("Nothing to redo");
        }
        match self.redo_stack.pop() {
            None => Err("Nothing to redo"),
            Some(mut next) => {
                proof {
                    assert(old(self).redo_stack@[old(self).redo_stack@.len() - 1] == next);
                }
                self.swap_in(&mut next);
                self.undo_stack.push(next);
                proof {
                    assert(self.undo_stack@.drop_last() =~= old(self).undo_stack@);
                    assert forall|k: int| 0 <= k < self.redo_stack@.len() implies (#[trigger] self.redo_stack@[k]).ok(
                        self.cols as int,
                        self.rows * self.cols,
                    ) by {
                        assert(self.redo_stack@[k] == old(self).redo_stack@[k]);
                    }
                    assert forall|k: int| 0 <= k < self.undo_stack@.len() implies (#[trigger] self.undo_stack@[k]).ok(
                        self.cols as int,
                        self.rows * self.cols,
                    ) by {
                        if k < old(self).undo_stack@.len() {
                            assert(self.undo_stack@[k] == old(self).undo_stack@[k]);
                        }
                    }
                }
                Ok(())
            },
        }
    }

    /// Runs one command line: `undo`, `redo`, or a command for the grid, the
    /// grid before it being kept for undo (the oldest snapshots beyond the
    /// history limit are dropped).
    pub fn execute(&mut self, line: &str) -> (r: Result<(), &'static str>)
        requires
            old(self).wf(),
        ensures
            final(self).wf(),
            line@ == seq!['u', 'n', 'd', 'o'] ==> undone(*old(self), *final(self), r),
            line@ == seq!['r', 'e', 'd', 'o'] ==> redone(*old(self), *final(self), r),
            line@ != seq!['u', 'n', 'd', 'o'] && line@ != seq!['r', 'e', 'd', 'o'] ==> stepped(*old(self), *final(self), line@, r),
    {
        let v = crate::lexer::chars_of(line);
        if v.len() == 4 && v[0] == 'u' && v[1] == 'n' && v[2] == 'd' && v[3] == 'o' {
            proof {
                assert(line@ =~= seq!['u', 'n', 'd', 'o']);
            }
            return self.undo();
        }
        if v.len() == 4 && v[0] == 'r' && v[1] == 'e' && v[2] == 'd' && v[3] == 'o' {
            proof {
                assert(line@ =~= seq!['r', 'e', 'd', 'o']);
            }
            return self.redo();
        }
        proof {
            if v.len() == 4 {
                assert(line@ != seq!['u', 'n', 'd', 'o']) by {
                    if line@ == seq!['u', 'n', 'd', 'o'] {
                        assert(v@[0] == 'u' && v@[1] == 'n' && v@[2] == 'd' && v@[3] == 'o');
                    }
                }
                assert(line@ != seq!['r', 'e', 'd', 'o']) by {
                    if line@ == seq!['r', 'e', 'd', 'o'] {
                        assert(v@[0] == 'r' && v@[1] == 'e' && v@[2] == 'd' && v@[3] == 'o');
                    }
                }
            }
        }
        let snap = self.snapshot();
        let ghost n = self.rows * self.cols;
        push_history(&mut self.undo_stack, snap, self.history_limit, Ghost(self.cols as int), Ghost(n));
        self.redo_stack.clear();
        proof {
            assert(self.undo_stack@.drop_last() =~= kept_history(old(self).undo_stack@, self.history_limit));
            assert(self.cols * self.rows == self.rows * self.cols) by (nonlinear_arith);
        }
        parser(line, self.cols, self.rows, &mut self.arr, &mut self.graph, &mut self.formula_array, &mut self.state)
    }
}

} // verus!
