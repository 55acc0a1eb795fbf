use vstd::prelude::*;
use crate::cell::Cell;

verus! {

/// The formula of a cell: an operation tag and two arguments whose meaning
/// depends on the tag.
///
/// | tag | meaning | `op_info1` | `op_info2` |
/// |---|---|---|---|
/// | 0 | integer literal | value | - |
/// | -1 | copy of a cell | source | - |
/// | 1..4 | cell `+ - * /` constant | source | constant |
/// | 5..8 | cell `+ - * /` cell | source | source |
/// | 9..13 | MIN, MAX, AVG, SUM, STDEV of a rectangle | first corner | second corner |
/// | 14 | SLEEP of a cell, or of a literal when `op_info1` is the cell itself | source | literal |
/// | 15 | constant `/` cell | constant | source |
/// | 16 | string literal, held in the cell | - | - |
/// | 17 | fractional literal, held in the cell | - | - |
#[derive(Clone, Copy, Default, Debug, PartialEq, Eq, Structural)]
pub struct Formula {
    pub op_type: i32,
    pub op_info1: i32,
    pub op_info2: i32,
}

/// A range subscription: `dependent_cell` aggregates the rectangle spanned by
/// `start_cell` and `end_cell`.
#[derive(Clone, Copy, Debug, PartialEq, Eq, Structural)]
pub struct Range {
    pub start_cell: i32,
    pub end_cell: i32,
    pub dependent_cell: i32,
}

pub open spec fn is_range_tag(t: i32) -> bool {
    9 <= t <= 13
}

/// The cells whose single-cell edges lead to `cell` under formula `f`.
pub open spec fn edge_sources(f: Formula, cell: int) -> Set<int> {
    let t = f.op_type;
    if t == -1 || (1 <= t <= 4) {
        set![f.op_info1 as int]
    } else if 5 <= t <= 8 {
        set![f.op_info1 as int, f.op_info2 as int]
    } else if t == 14 {
        if f.op_info1 as int != cell {
            set![f.op_info1 as int]
        } else {
            Set::empty()
        }
    } else if t == 15 {
        set![f.op_info2 as int]
    } else {
        Set::empty()
    }
}

/// Every cell that formula `f` of `cell` names lies in a grid of `n` cells.
pub open spec fn formula_wf(f: Formula, cell: int, n: int) -> bool {
    let t = f.op_type;
    &&& (t == -1 || (1 <= t <= 8) || t == 14) ==> 0 <= f.op_info1 < n
    &&& ((5 <= t <= 8) || t == 15) ==> 0 <= f.op_info2 < n
    &&& is_range_tag(t) ==> 0 <= f.op_info1 < n && 0 <= f.op_info2 < n
}

/// The subscriptions of `rs` whose dependent is not `dep`, in order.
pub open spec fn without_dep(rs: Seq<Range>, dep: i32) -> Seq<Range>
    decreases rs.len(),
{
    if rs.len() == 0 {
        rs
    } else if rs.last().dependent_cell == dep {
        without_dep(rs.drop_last(), dep)
    } else {
        without_dep(rs.drop_last(), dep).push(rs.last())
    }
}

pub proof fn lemma_without_dep(rs: Seq<Range>, dep: i32)
    ensures
        forall|r: Range| #[trigger] without_dep(rs, dep).contains(r) <==> rs.contains(r) && r.dependent_cell != dep,
        without_dep(rs, dep).len() <= rs.len(),
    decreases rs.len(),
{
    if rs.len() > 0 {
        lemma_without_dep(rs.drop_last(), dep);
        let w = without_dep(rs.drop_last(), dep);
        assert forall|r: Range| without_dep(rs, dep).contains(r) <==> rs.contains(r) && r.dependent_cell != dep by {
            if rs.contains(r) && r.dependent_cell != dep {
                let j = choose|j: int| 0 <= j < rs.len() && rs[j] == r;
                if j < rs.len() - 1 {
                    assert(rs.drop_last()[j] == r);
                    assert(rs.drop_last().contains(r));
                    assert(w.contains(r));
                    let i = choose|i: int| 0 <= i < w.len() && w[i] == r;
                    assert(without_dep(rs, dep)[i] == r);
                } else {
                    assert(without_dep(rs, dep).last() == r);
                }
            }
            if without_dep(rs, dep).contains(r) {
                let wd = without_dep(rs, dep);
                let j = choose|j: int| 0 <= j < wd.len() && wd[j] == r;
                if rs.last().dependent_cell == dep {
                    assert(wd == w);
                    assert(w.contains(r));
                } else if j == w.len() {
                    assert(r == rs.last());
                    assert(rs[rs.len() - 1] == r);
                } else {
                    assert(wd == w.push(rs.last()));
                    assert(w[j] == r);
                    assert(w.contains(r));
                }
                if w.contains(r) {
                    assert(without_dep(rs.drop_last(), dep).contains(r));
                    assert(rs.drop_last().contains(r));
                    let i = choose|i: int| 0 <= i < rs.drop_last().len() && rs.drop_last()[i] == r;
                    assert(rs[i] == r);
                }
            }
        }
    }
}

/// Adding an element to a list, unless it is there, adds it to its set.
pub proof fn lemma_push_set(o: Seq<i32>, x: i32)
    ensures
        o.contains(x) ==> o.to_set().insert(x) == o.to_set(),
        !o.contains(x) ==> o.push(x).to_set() == o.to_set().insert(x),
{
    if o.contains(x) {
        assert(o.to_set().insert(x) =~= o.to_set());
    } else {
        assert forall|v: i32| o.push(x).contains(v) <==> o.contains(v) || v == x by {
            if o.push(x).contains(v) && v != x {
                let j = choose|j: int| 0 <= j < o.len() + 1 && o.push(x)[j] == v;
                assert(o[j] == v);
            }
            if o.contains(v) {
                let j = choose|j: int| 0 <= j < o.len() && o[j] == v;
                assert(o.push(x)[j] == v);
            }
            if v == x {
                assert(o.push(x)[o.len() as int] == v);
            }
        }
        assert(o.push(x).to_set() =~= o.to_set().insert(x));
    }
}

/// Scratch state of one assignment: the target's previous value and formula,
/// kept for rollback, and whether a cycle was met.
#[derive(Debug)]
pub struct State {
    pub old_value: Cell,
    pub old_op_type: i32,
    pub old_op_info1: i32,
    pub old_op_info2: i32,
    pub has_cycle: bool,
    pub num_cells: usize,
    /// Seconds of SLEEP that the last recompute asked for; the host waits
    /// them out.
    pub sleep_seconds: u64,
}

impl State {
    /// A fresh state: invalid saved value, no cycle.
    pub fn new() -> (s: State)
        ensures
            s.old_value@ == crate::cell::invalid_model(),
            s.old_value.wf(),
            s.old_op_type == 0 && s.old_op_info1 == 0 && s.old_op_info2 == 0,
            !s.has_cycle,
            s.num_cells == 0,
            s.sleep_seconds == 0,
    {
        State {
            old_value: Cell::invalid(),
            old_op_type: 0,
            old_op_info1: 0,
            old_op_info2: 0,
            has_cycle: false,
            num_cells: 0,
            sleep_seconds: 0,
        }
    }
}

/// No two subscriptions share a dependent.
pub open spec fn unique_deps(rs: Seq<Range>) -> bool {
    forall|k1: int, k2: int|
        0 <= k1 < rs.len() && 0 <= k2 < rs.len() && (#[trigger] rs[k1]).dependent_cell == (#[trigger] rs[k2]).dependent_cell
            ==> k1 == k2
}

pub proof fn lemma_without_dep_unique(rs: Seq<Range>, dep: i32)
    requires
        unique_deps(rs),
    ensures
        unique_deps(without_dep(rs, dep)),
    decreases rs.len(),
{
    if rs.len() > 0 {
        let d = rs.drop_last();
        assert(unique_deps(d)) by {
            assert forall|k1: int, k2: int|
                0 <= k1 < d.len() && 0 <= k2 < d.len() && (#[trigger] d[k1]).dependent_cell == (#[trigger] d[k2]).dependent_cell implies k1 == k2 by {
                assert(d[k1] == rs[k1] && d[k2] == rs[k2]);
            }
        }
        lemma_without_dep_unique(d, dep);
        lemma_without_dep(d, dep);
        let w = without_dep(d, dep);
        if rs.last().dependent_cell != dep {
            let w2 = w.push(rs.last());
            assert forall|k1: int, k2: int|
                0 <= k1 < w2.len() && 0 <= k2 < w2.len() && (#[trigger] w2[k1]).dependent_cell == (#[trigger] w2[k2]).dependent_cell implies k1 == k2 by {
                if k1 < w.len() && k2 == w.len() {
                    assert(w.contains(w[k1]));
                    assert(d.contains(w[k1]));
                    let i = choose|i: int| 0 <= i < d.len() && d[i] == w[k1];
                    assert(rs[i] == d[i]);
                    assert(rs[rs.len() - 1] == rs.last());
                } else if k2 < w.len() && k1 == w.len() {
                    assert(w.contains(w[k2]));
                    assert(d.contains(w[k2]));
                    let i = choose|i: int| 0 <= i < d.len() && d[i] == w[k2];
                    assert(rs[i] == d[i]);
                    assert(rs[rs.len() - 1] == rs.last());
                } else if k1 < w.len() && k2 < w.len() {
                    assert(w2[k1] == w[k1] && w2[k2] == w[k2]);
                }
            }
        }
    }
}

/// `l` without the entry `d`, the others kept in order.
pub open spec fn drop_value(l: Seq<i32>, d: i32) -> Seq<i32> {
    if l.contains(d) {
        l.remove(choose|k: int| 0 <= k < l.len() && l[k] == d)
    } else {
        l
    }
}

/// `l` with `d` appended, unless it holds `d` already.
pub open spec fn push_new(l: Seq<i32>, d: i32) -> Seq<i32> {
    if l.contains(d) {
        l
    } else {
        l.push(d)
    }
}

/// Without duplicates, dropping `d` leaves no `d`.
pub proof fn lemma_drop_value(l: Seq<i32>, d: i32)
    requires
        l.no_duplicates(),
    ensures
        !drop_value(l, d).contains(d),
        drop_value(drop_value(l, d), d) == drop_value(l, d),
{
    if l.contains(d) {
        let k = choose|k: int| 0 <= k < l.len() && l[k] == d;
        let r = l.remove(k);
        if r.contains(d) {
            let j = choose|j: int| 0 <= j < r.len() && r[j] == d;
            if j < k {
                assert(l[j] == d);
            } else {
                assert(l[j + 1] == d);
            }
        }
    }
}

/// `g1` is `g` with the edges and subscription of formula `f` of `cell`
/// taken out: `cell` leaves the dependent lists of the cells `f` reads, the
/// rest of each list in order, every other list as it was.
pub open spec fn deleted(g: Graph, g1: Graph, f: Formula, cell: int) -> bool {
    &&& g1.wf()
    &&& g1.size() == g.size()
    &&& forall|s: int| 0 <= s < g.size() ==> (#[trigger] g1.adj_lists@[s])@ == if edge_sources(f, cell).contains(s) {
        drop_value(g.adj_lists@[s]@, cell as i32)
    } else {
        g.adj_lists@[s]@
    }
    &&& forall|s: int| 0 <= s < g.size() ==> #[trigger] g1.edge_sets()[s] == if edge_sources(f, cell).contains(s) {
        g.edge_sets()[s].remove(cell as i32)
    } else {
        g.edge_sets()[s]
    }
    &&& g1.ranges@ == if is_range_tag(f.op_type) {
        without_dep(g.ranges@, cell as i32)
    } else {
        g.ranges@
    }
}

/// `g1` is `g` with the edges and subscription of formula `f` of `cell`
/// added: `cell` is appended to the dependent lists of the cells `f` reads
/// that lack it, every other list as it was.
pub open spec fn added(g: Graph, g1: Graph, f: Formula, cell: int) -> bool {
    &&& g1.wf()
    &&& g1.size() == g.size()
    &&& forall|s: int| 0 <= s < g.size() ==> (#[trigger] g1.adj_lists@[s])@ == if edge_sources(f, cell).contains(s) {
        push_new(g.adj_lists@[s]@, cell as i32)
    } else {
        g.adj_lists@[s]@
    }
    &&& forall|s: int| 0 <= s < g.size() ==> #[trigger] g1.edge_sets()[s] == if edge_sources(f, cell).contains(s) {
        g.edge_sets()[s].insert(cell as i32)
    } else {
        g.edge_sets()[s]
    }
    &&& g1.ranges@ == if is_range_tag(f.op_type) {
        g.ranges@.push(Range { start_cell: f.op_info1, end_cell: f.op_info2, dependent_cell: cell as i32 })
    } else {
        g.ranges@
    }
}

/// The dependency graph: for each cell the cells that depend on it, and the
/// list of range subscriptions.
pub struct Graph {
    pub adj_lists: Vec<Vec<i32>>,
    pub ranges: Vec<Range>,
}

impl Graph {
    /// Number of cells.
    pub open spec fn size(self) -> int {
        self.adj_lists@.len() as int
    }

    /// There is an edge `source -> dependent`.
    pub open spec fn has_edge(self, source: int, dependent: int) -> bool {
        0 <= source < self.size() && 0 <= dependent < self.size() && self.adj_lists@[source]@.contains(dependent as i32)
    }

    /// The dependents of each cell, as sets.
    pub open spec fn edge_sets(self) -> Seq<Set<i32>> {
        Seq::new(self.adj_lists@.len(), |i: int| self.adj_lists@[i]@.to_set())
    }

    /// The range subscriptions, as a set.
    pub open spec fn range_set(self) -> Set<Range> {
        self.ranges@.to_set()
    }

    /// Well-formed for `n` cells: one dependent list per cell, no dependent
    /// twice in a list, and every cell named lies in the grid.
    pub open spec fn wf(self) -> bool {
        &&& self.size() <= i32::MAX
        &&& forall|s: int| 0 <= s < self.size() ==> (#[trigger] self.adj_lists@[s])@.no_duplicates()
        &&& forall|s: int, k: int|
            0 <= s < self.size() && 0 <= k < self.adj_lists@[s]@.len() ==> 0 <= #[trigger] self.adj_lists@[s]@[k] < self.size()
        &&& forall|k: int| 0 <= k < self.ranges@.len() ==> self.range_ok(#[trigger] self.ranges@[k])
    }

    pub open spec fn range_ok(self, r: Range) -> bool {
        &&& 0 <= r.start_cell < self.size()
        &&& 0 <= r.end_cell < self.size()
        &&& 0 <= r.dependent_cell < self.size()
    }

    /// A graph of `num_cells` cells with no edges and no ranges.
    pub fn new(num_cells: usize) -> (g: Graph)
        requires
            num_cells <= i32::MAX,
        ensures
            g.wf(),
            g.size() == num_cells,
            g.ranges@.len() == 0,
            forall|s: int| 0 <= s < num_cells ==> (#[trigger] g.adj_lists@[s])@.len() == 0,
    {
        let mut adj_lists: Vec<Vec<i32>> = Vec::with_capacity(num_cells);
        let mut i: usize = 0;
        while i < num_cells
            invariant
                i <= num_cells,
                adj_lists@.len() == i,
                forall|s: int| 0 <= s < i ==> (#[trigger] adj_lists@[s])@.len() == 0,
            decreases num_cells - i,
        {
            adj_lists.push(Vec::new());
            i = i + 1;
        }
        Graph { adj_lists, ranges: Vec::new() }
    }

    /// Records `dependent` as a dependent of `head_idx`, unless it is one
    /// already.
    pub fn add_edge(&mut self, dependent: i32, head_idx: usize)
        requires
            old(self).wf(),
            head_idx < old(self).size(),
            0 <= dependent < old(self).size(),
        ensures
            final(self).wf(),
            final(self).size() == old(self).size(),
            final(self).ranges == old(self).ranges,
            final(self).adj_lists@[head_idx as int]@ == if old(self).adj_lists@[head_idx as int]@.contains(dependent) {
                old(self).adj_lists@[head_idx as int]@
            } else {
                old(self).adj_lists@[head_idx as int]@.push(dependent)
            },
            forall|s: int| 0 <= s < old(self).size() && s != head_idx ==> final(self).adj_lists@[s] == old(self).adj_lists@[s],
    {
        let len = self.adj_lists[head_idx].len();
        let mut k: usize = 0;
        while k < len
            invariant
                k <= len,
                *self == *old(self),
                old(self).wf(),
                head_idx < old(self).size(),
                len == self.adj_lists@[head_idx as int]@.len(),
                forall|j: int| 0 <= j < k ==> self.adj_lists@[head_idx as int]@[j] != dependent,
            decreases len - k,
        {
            if self.adj_lists[head_idx][k] == dependent {
                return;
            }
            k = k + 1;
        }
        self.adj_lists[head_idx].push(dependent);
        proof {
            let l = self.adj_lists@[head_idx as int]@;
            assert forall|s: int| 0 <= s < self.size() implies (#[trigger] self.adj_lists@[s])@.no_duplicates() by {
                if s == head_idx {
                    assert(l.drop_last() == old(self).adj_lists@[head_idx as int]@);
                }
            }
        }
    }

    /// Removes `dependent` from the dependents of `head_idx`.
    pub fn delete_node(&mut self, dependent: i32, head_idx: usize)
        requires
            old(self).wf(),
            head_idx < old(self).size(),
        ensures
            final(self).wf(),
            final(self).size() == old(self).size(),
            final(self).ranges == old(self).ranges,
            final(self).adj_lists@[head_idx as int]@.to_set() == old(self).adj_lists@[head_idx as int]@.to_set().remove(dependent),
            final(self).adj_lists@[head_idx as int]@ == drop_value(old(self).adj_lists@[head_idx as int]@, dependent),
            forall|s: int| 0 <= s < old(self).size() && s != head_idx ==> final(self).adj_lists@[s] == old(self).adj_lists@[s],
    {
        let len = self.adj_lists[head_idx].len();
        let mut k: usize = 0;
        while k < len
            invariant
                k <= len,
                *self == *old(self),
                old(self).wf(),
                head_idx < old(self).size(),
                len == self.adj_lists@[head_idx as int]@.len(),
                forall|j: int| 0 <= j < k ==> self.adj_lists@[head_idx as int]@[j] != dependent,
            decreases len - k,
        {
            if self.adj_lists[head_idx][k] == dependent {
                self.adj_lists[head_idx].remove(k);
                proof {
                    let o = old(self).adj_lists@[head_idx as int]@;
                    let l = self.adj_lists@[head_idx as int]@;
                    assert(l == o.remove(k as int));
                    assert(o.contains(dependent));
                    let kc = choose|kc: int| 0 <= kc < o.len() && o[kc] == dependent;
                    assert(kc == k) by {
                        assert(o.no_duplicates());
                    }
                    assert forall|x: i32| l.to_set().contains(x) <==> o.to_set().remove(dependent).contains(x) by {
                        if o.contains(x) && x != dependent {
                            let j = choose|j: int| 0 <= j < o.len() && o[j] == x;
                            if j < k {
                                assert(l[j] == x);
                            } else {
                                assert(l[j - 1] == x);
                            }
                        }
                        if l.contains(x) {
                            let j = choose|j: int| 0 <= j < l.len() && l[j] == x;
                            if j < k {
                                assert(o[j] == x);
                            } else {
                                assert(o[j + 1] == x);
                            }
                        }
                    }
                    assert(l.to_set() =~= o.to_set().remove(dependent));
                    assert forall|s: int| 0 <= s < self.size() implies (#[trigger] self.adj_lists@[s])@.no_duplicates() by {
                        if s == head_idx {
                            assert forall|a: int, b: int| 0 <= a < b < l.len() implies l[a] != l[b] by {
                                let a2 = if a < k { a } else { a + 1 };
                                let b2 = if b < k { b } else { b + 1 };
                                assert(o[a2] == l[a] && o[b2] == l[b]);
                            }
                        }
                    }
                    assert forall|s: int, j: int|
                        0 <= s < self.size() && 0 <= j < self.adj_lists@[s]@.len() implies 0 <= #[trigger] self.adj_lists@[s]@[j] < self.size() by {
                        if s == head_idx {
                            let j2 = if j < k { j } else { j + 1 };
                            assert(o[j2] == l[j]);
                        }
                    }
                }
                return;
            }
            k = k + 1;
        }
        proof {
            let o = old(self).adj_lists@[head_idx as int]@;
            assert(o.to_set() =~= o.to_set().remove(dependent));
            assert(!o.contains(dependent));
        }
    }

    /// Subscribes `dependent_cell` to the rectangle spanned by `start_cell` and
    /// `end_cell`.
    pub fn add_range_to_graph(&mut self, start_cell: i32, end_cell: i32, dependent_cell: i32)
        requires
            old(self).wf(),
            old(self).range_ok(Range { start_cell, end_cell, dependent_cell }),
        ensures
            final(self).wf(),
            final(self).adj_lists == old(self).adj_lists,
            final(self).ranges@ == old(self).ranges@.push(Range { start_cell, end_cell, dependent_cell }),
    {
        self.ranges.push(Range { start_cell, end_cell, dependent_cell });
    }

    /// Removes every range subscription of `dependent_cell`.
    pub fn delete_range_from_graph(&mut self, dependent_cell: i32)
        requires
            old(self).wf(),
        ensures
            final(self).wf(),
            final(self).adj_lists == old(self).adj_lists,
            final(self).ranges@ == without_dep(old(self).ranges@, dependent_cell),
    {
        let mut kept: Vec<Range> = Vec::new();
        let mut k: usize = 0;
        let len = self.ranges.len();
        while k < len
            invariant
                k <= len,
                len == self.ranges@.len(),
                *self == *old(self),
                kept@ == without_dep(self.ranges@.subrange(0, k as int), dependent_cell),
            decreases len - k,
        {
            let r = self.ranges[k];
            proof {
                assert(self.ranges@.subrange(0, k as int + 1).drop_last() =~= self.ranges@.subrange(0, k as int));
            }
            if r.dependent_cell != dependent_cell {
                kept.push(r);
            }
            k = k + 1;
        }
        proof {
            assert(self.ranges@.subrange(0, len as int) =~= self.ranges@);
            lemma_without_dep(self.ranges@, dependent_cell);
            assert forall|k: int| 0 <= k < kept@.len() implies old(self).range_ok(#[trigger] kept@[k]) by {
                assert(kept@.contains(kept@[k]));
                assert(old(self).ranges@.contains(kept@[k]));
                let j = choose|j: int| 0 <= j < old(self).ranges@.len() && old(self).ranges@[j] == kept@[k];
            }
        }
        self.ranges = kept;
    }

    /// Removes the edges and the range subscription that formula
    /// `formula_array[cell]` implies for `cell`.
    pub fn delete_edge(&mut self, cell: i32, _cols: i32, formula_array: &Vec<Formula>)
        requires
            old(self).wf(),
            0 <= cell < old(self).size(),
            cell < formula_array@.len(),
            formula_wf(formula_array@[cell as int], cell as int, old(self).size()),
        ensures
            deleted(*old(self), *final(self), formula_array@[cell as int], cell as int),
    {
        let x = formula_array[cell as usize];
        let ghost srcs = edge_sources(x, cell as int);
        if x.op_type == -1 || (1 <= x.op_type && x.op_type <= 4) || (x.op_type == 14 && x.op_info1 != cell) {
            self.delete_node(cell, x.op_info1 as usize);
        } else if 5 <= x.op_type && x.op_type <= 8 {
            self.delete_node(cell, x.op_info1 as usize);
            self.delete_node(cell, x.op_info2 as usize);
        } else if 9 <= x.op_type && x.op_type <= 13 {
            self.delete_range_from_graph(cell);
        } else if x.op_type == 15 {
            self.delete_node(cell, x.op_info2 as usize);
        }
        proof {
            assert forall|s: int| 0 <= s < old(self).size() implies #[trigger] self.edge_sets()[s] == if srcs.contains(s) {
                old(self).edge_sets()[s].remove(cell)
            } else {
                old(self).edge_sets()[s]
            } by {
                if 5 <= x.op_type <= 8 && x.op_info1 == x.op_info2 && s == x.op_info1 {
                    assert(old(self).edge_sets()[s].remove(cell).remove(cell) =~= old(self).edge_sets()[s].remove(cell));
                }
            }
            assert forall|s: int| 0 <= s < old(self).size() implies (#[trigger] self.adj_lists@[s])@ == if srcs.contains(s) {
                drop_value(old(self).adj_lists@[s]@, cell)
            } else {
                old(self).adj_lists@[s]@
            } by {
                if 5 <= x.op_type <= 8 && x.op_info1 == x.op_info2 && s == x.op_info1 {
                    lemma_drop_value(old(self).adj_lists@[s]@, cell);
                }
            }
        }
    }

    /// Adds the edges and the range subscription that formula
    /// `formula_array[cell]` implies for `cell`.
    pub fn add_edge_formula(&mut self, cell: i32, _cols: i32, formula_array: &Vec<Formula>)
        requires
            old(self).wf(),
            0 <= cell < old(self).size(),
            cell < formula_array@.len(),
            formula_wf(formula_array@[cell as int], cell as int, old(self).size()),
        ensures
            added(*old(self), *final(self), formula_array@[cell as int], cell as int),
    {
        let x = formula_array[cell as usize];
        let ghost srcs = edge_sources(x, cell as int);
        if x.op_type == -1 || (1 <= x.op_type && x.op_type <= 4) || (x.op_type == 14 && x.op_info1 != cell) {
            self.add_edge(cell, x.op_info1 as usize);
        } else if 5 <= x.op_type && x.op_type <= 8 {
            self.add_edge(cell, x.op_info1 as usize);
            let ghost mid = *self;
            proof {
                let s1 = x.op_info1 as int;
                lemma_push_set(old(self).adj_lists@[s1]@, cell);
                assert(mid.edge_sets()[s1] == old(self).edge_sets()[s1].insert(cell));
            }
            self.add_edge(cell, x.op_info2 as usize);
            proof {
                let s1 = x.op_info1 as int;
                let s2 = x.op_info2 as int;
                lemma_push_set(mid.adj_lists@[s2]@, cell);
                assert(self.edge_sets()[s2] == mid.edge_sets()[s2].insert(cell));
                if s1 != s2 {
                    lemma_push_set(old(self).adj_lists@[s2]@, cell);
                    assert(self.edge_sets()[s1] == mid.edge_sets()[s1]);
                } else {
                    assert(old(self).edge_sets()[s1].insert(cell).insert(cell) =~= old(self).edge_sets()[s1].insert(cell));
                }
                assert forall|s: int| 0 <= s < old(self).size() && s != s1 && s != s2 implies #[trigger] self.edge_sets()[s] == old(self).edge_sets()[s] by {
                    assert(self.adj_lists@[s] == old(self).adj_lists@[s]);
                }
            }
        } else if 9 <= x.op_type && x.op_type <= 13 {
            self.add_range_to_graph(x.op_info1, x.op_info2, cell);
        } else if x.op_type == 15 {
            self.add_edge(cell, x.op_info2 as usize);
        }
        proof {
            assert forall|s: int| 0 <= s < old(self).size() implies #[trigger] self.edge_sets()[s] == if srcs.contains(s) {
                old(self).edge_sets()[s].insert(cell)
            } else {
                old(self).edge_sets()[s]
            } by {
                lemma_push_set(old(self).adj_lists@[s]@, cell);
            }
        }
        proof {
            assert forall|s: int| 0 <= s < old(self).size() implies (#[trigger] self.adj_lists@[s])@ == if srcs.contains(s) {
                push_new(old(self).adj_lists@[s]@, cell)
            } else {
                old(self).adj_lists@[s]@
            } by {
                let o = old(self).adj_lists@[s]@;
                if !o.contains(cell) {
                    assert(o.push(cell)[o.len() as int] == cell);
                    assert(o.push(cell).contains(cell));
                }
            }
        }
    }

    /// Writes formula `{op_type, c1, c2}` at `cell`; a literal (tag 0) keeps
    /// `-1` as its second argument.
    pub fn add_formula(&mut self, cell: i32, c1: i32, c2: i32, op_type: i32, formula_array: &mut Vec<Formula>)
        requires
            0 <= cell < old(formula_array)@.len(),
        ensures
            final(formula_array)@ == old(formula_array)@.update(cell as int, Formula {
                op_type,
                op_info1: c1,
                op_info2: if op_type == 0 { -1i32 } else { c2 },
            }),
    {
        let new_formula = Formula { op_type, op_info1: c1, op_info2: if op_type == 0 { -1 } else { c2 } };
        formula_array.set(cell as usize, new_formula);
    }

    /// The dependent lists, as sequences.
    pub open spec fn lists(self) -> Seq<Seq<i32>> {
        Seq::new(self.adj_lists@.len(), |i: int| self.adj_lists@[i]@)
    }

    /// A copy with the same lists and subscriptions.
    pub fn copy(&self) -> (g: Graph)
        ensures
            g.lists() == self.lists(),
            g.ranges@ == self.ranges@,
    {
        let mut adj_lists: Vec<Vec<i32>> = Vec::new();
        let mut i: usize = 0;
        while i < self.adj_lists.len()
            invariant
                i <= self.adj_lists@.len(),
                adj_lists@.len() == i,
                forall|j: int| 0 <= j < i ==> (#[trigger] adj_lists@[j])@ == self.adj_lists@[j]@,
            decreases self.adj_lists@.len() - i,
        {
            let src = &self.adj_lists[i];
            let mut l: Vec<i32> = Vec::new();
            let mut k: usize = 0;
            while k < src.len()
                invariant
                    k <= src@.len(),
                    l@ == src@.subrange(0, k as int),
                decreases src@.len() - k,
            {
                l.push(src[k]);
                k = k + 1;
                assert(l@ =~= src@.subrange(0, k as int));
            }
            assert(l@ =~= src@);
            adj_lists.push(l);
            i = i + 1;
        }
        let mut ranges: Vec<Range> = Vec::new();
        let mut k: usize = 0;
        while k < self.ranges.len()
            invariant
                k <= self.ranges@.len(),
                ranges@ == self.ranges@.subrange(0, k as int),
            decreases self.ranges@.len() - k,
        {
            ranges.push(self.ranges[k]);
            k = k + 1;
            assert(ranges@ =~= self.ranges@.subrange(0, k as int));
        }
        assert(ranges@ =~= self.ranges@);
        let g = Graph { adj_lists, ranges };
        assert(g.lists() =~= self.lists());
        g
    }
}

/// Graphs with the same lists and subscriptions hold the same edges, and
/// one is well formed when the other is.
pub proof fn lemma_same_graph(g1: Graph, g2: Graph)
    requires
        g1.lists() == g2.lists(),
        g1.ranges@ == g2.ranges@,
    ensures
        g1.size() == g2.size(),
        g1.wf() == g2.wf(),
        g1.edge_sets() == g2.edge_sets(),
        g1.range_set() == g2.range_set(),
        forall|s: int| 0 <= s < g1.size() ==> g1.adj_lists@[s]@ == g2.adj_lists@[s]@,
{
    assert(g1.adj_lists@.len() == g1.lists().len());
    assert forall|s: int| 0 <= s < g1.size() implies g1.adj_lists@[s]@ == g2.adj_lists@[s]@ by {
        assert(g1.lists()[s] == g2.lists()[s]);
    }
    assert(g1.edge_sets() =~= g2.edge_sets());
}

} // verus!
