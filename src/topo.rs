use vstd::prelude::*;
use crate::graph::{Graph, Range, State};

verus! {

/// Row and column of cell `x` in a grid of `cols` columns.
pub open spec fn row_of(cols: int, x: int) -> int {
    x / cols
}

pub open spec fn col_of(cols: int, x: int) -> int {
    x % cols
}

pub open spec fn lo(a: int, b: int) -> int {
    if a <= b {
        a
    } else {
        b
    }
}

pub open spec fn hi(a: int, b: int) -> int {
    if a <= b {
        b
    } else {
        a
    }
}

/// Cell `x` lies in the rectangle spanned by cells `a` and `b`, in either
/// order of the corners.
pub open spec fn in_rect(cols: int, a: int, b: int, x: int) -> bool {
    &&& lo(row_of(cols, a), row_of(cols, b)) <= row_of(cols, x) <= hi(row_of(cols, a), row_of(cols, b))
    &&& lo(col_of(cols, a), col_of(cols, b)) <= col_of(cols, x) <= hi(col_of(cols, a), col_of(cols, b))
}

/// Exec test of `in_rect` for cells of the grid.
pub fn cell_in_rect(cols: i32, a: i32, b: i32, x: i32) -> (r: bool)
    requires
        cols > 0,
        a >= 0,
        b >= 0,
        x >= 0,
    ensures
        r == in_rect(cols as int, a as int, b as int, x as int),
{
    let c = cols as u32;
    let (ra, ca) = (a as u32 / c, a as u32 % c);
    let (rb, cb) = (b as u32 / c, b as u32 % c);
    let (rx, cx) = (x as u32 / c, x as u32 % c);
    let (r0, r1) = if ra <= rb { (ra, rb) } else { (rb, ra) };
    let (c0, c1) = if ca <= cb { (ca, cb) } else { (cb, ca) };
    r0 <= rx && rx <= r1 && c0 <= cx && cx <= c1
}

/// `v` must be recomputed when `u` changes: an edge `u -> v`, or a range of
/// `v` covering `u`.
pub open spec fn succ(g: Graph, cols: int, u: int, v: int) -> bool {
    ||| g.has_edge(u, v)
    ||| exists|k: int|
        0 <= k < g.ranges@.len() && (#[trigger] g.ranges@[k]).dependent_cell == v && in_rect(
            cols,
            g.ranges@[k].start_cell as int,
            g.ranges@[k].end_cell as int,
            u,
        )
}

/// `p` is a non-empty walk along `succ`.
pub open spec fn is_walk(g: Graph, cols: int, p: Seq<int>) -> bool {
    &&& p.len() >= 1
    &&& forall|i: int| 0 <= i < p.len() - 1 ==> succ(g, cols, #[trigger] p[i], p[i + 1])
}

/// `b` is reachable from `a` along `succ` (in zero or more steps).
pub open spec fn reaches(g: Graph, cols: int, a: int, b: int) -> bool {
    exists|p: Seq<int>| is_walk(g, cols, p) && p[0] == a && p.last() == b
}

pub proof fn lemma_reaches_step(g: Graph, cols: int, a: int, b: int, c: int)
    requires
        reaches(g, cols, a, b),
        succ(g, cols, b, c),
    ensures
        reaches(g, cols, a, c),
{
    let p = choose|p: Seq<int>| is_walk(g, cols, p) && p[0] == a && p.last() == b;
    let q = p.push(c);
    assert forall|i: int| 0 <= i < q.len() - 1 implies succ(g, cols, #[trigger] q[i], q[i + 1]) by {
        if i < p.len() - 1 {
            assert(q[i] == p[i] && q[i + 1] == p[i + 1]);
        }
    }
    assert(is_walk(g, cols, q) && q[0] == a && q.last() == c);
}

pub proof fn lemma_reaches_self(g: Graph, cols: int, a: int)
    ensures
        reaches(g, cols, a, a),
{
    let p = seq![a];
    assert(is_walk(g, cols, p) && p[0] == a && p.last() == a);
}

/// A closed walk of at least one step passes through `x`.
pub open spec fn on_cycle(g: Graph, cols: int, x: int) -> bool {
    exists|p: Seq<int>| is_walk(g, cols, p) && p.len() >= 2 && p[0] == x && p.last() == x
}

/// A cycle can be reached from `start`.
pub open spec fn cycle_from(g: Graph, cols: int, start: int) -> bool {
    exists|x: int| reaches(g, cols, start, x) && on_cycle(g, cols, x)
}

/// The stack of the walk: a walk from `start`, holding exactly the cells
/// marked as on the stack.
pub open spec fn stack_ok(g: Graph, cols: int, start: int, path: Seq<int>, on_stack: Seq<bool>) -> bool {
    &&& path.len() >= 1 ==> is_walk(g, cols, path) && path[0] == start
    &&& forall|x: int| 0 <= x < on_stack.len() ==> (on_stack[x] <==> path.contains(x))
}

/// Meeting a cell of the stack again closes a cycle.
proof fn lemma_cycle_witness(g: Graph, cols: int, start: int, p: Seq<int>, j: int, d: int)
    requires
        is_walk(g, cols, p),
        p[0] == start,
        0 <= j < p.len(),
        p[j] == d,
        succ(g, cols, p.last(), d),
    ensures
        cycle_from(g, cols, start),
{
    let pre = p.subrange(0, j + 1);
    assert forall|i: int| 0 <= i < pre.len() - 1 implies succ(g, cols, #[trigger] pre[i], pre[i + 1]) by {
        assert(pre[i] == p[i] && pre[i + 1] == p[i + 1]);
    }
    assert(is_walk(g, cols, pre) && pre[0] == start && pre.last() == d);
    let q = p.subrange(j, p.len() as int).push(d);
    assert forall|i: int| 0 <= i < q.len() - 1 implies succ(g, cols, #[trigger] q[i], q[i + 1]) by {
        if i < p.len() - j - 1 {
            assert(q[i] == p[j + i] && q[i + 1] == p[j + i + 1]);
        } else {
            assert(q[i] == p.last());
        }
    }
    assert(is_walk(g, cols, q) && q.len() >= 2 && q[0] == d && q.last() == d);
    assert(on_cycle(g, cols, d));
}

/// Number of `false` entries.
pub open spec fn count_false(s: Seq<bool>) -> nat
    decreases s.len(),
{
    if s.len() == 0 {
        0
    } else {
        count_false(s.drop_last()) + if s.last() {
            0nat
        } else {
            1nat
        }
    }
}

/// Turning entries to `true`, at least one of them, lowers the count.
proof fn lemma_count_false(a: Seq<bool>, b: Seq<bool>, i: int)
    requires
        a.len() == b.len(),
        forall|j: int| 0 <= j < a.len() && #[trigger] a[j] ==> b[j],
    ensures
        count_false(b) <= count_false(a),
        0 <= i < a.len() && !a[i] && b[i] ==> count_false(b) < count_false(a),
    decreases a.len(),
{
    if a.len() > 0 {
        let i2 = if i == a.len() - 1 { -1 } else { i };
        assert forall|j: int| 0 <= j < a.drop_last().len() && #[trigger] a.drop_last()[j] implies b.drop_last()[j] by {
            assert(a[j]);
        }
        lemma_count_false(a.drop_last(), b.drop_last(), i2);
        if 0 <= i < a.len() - 1 && !a[i] && b[i] {
            assert(a.drop_last()[i] == a[i] && b.drop_last()[i] == b[i]);
        }
    }
}

/// The search invariant of the depth-first walk: `result` holds exactly the
/// finished cells (visited, off the stack), each after all its successors,
/// and every visited cell is reachable from `start`.
pub open spec fn dfs_inv(
    g: Graph,
    cols: int,
    start: int,
    visited: Seq<bool>,
    on_stack: Seq<bool>,
    result: Seq<i32>,
) -> bool {
    let n = g.size();
    &&& visited.len() == n
    &&& on_stack.len() == n
    &&& result.no_duplicates()
    &&& forall|x: int| 0 <= x < n && #[trigger] on_stack[x] ==> visited[x]
    &&& forall|x: int| 0 <= x < n && #[trigger] visited[x] ==> reaches(g, cols, start, x)
    &&& forall|k: int| 0 <= k < result.len() ==> 0 <= #[trigger] result[k] < n
    &&& forall|x: int| 0 <= x < n ==> (result.contains(x as i32) <==> (#[trigger] visited[x] && !on_stack[x]))
    &&& forall|k: int, v: int|
        0 <= k < result.len() && 0 <= v < n && #[trigger] succ(g, cols, result[k] as int, v) ==> result.subrange(0, k).contains(
            v as i32,
        )
}

impl Graph {
    /// Depth-first walk from `cell` that appends finished cells to `result`
    /// and raises `has_cycle` on meeting a cell still on the stack.
    fn dfs(
        &self,
        cell: i32,
        visited: &mut Vec<bool>,
        on_stack: &mut Vec<bool>,
        result: &mut Vec<i32>,
        has_cycle: &mut bool,
        cols: i32,
        Ghost(start): Ghost<int>,
        Ghost(path): Ghost<Seq<int>>,
    )
        requires
            self.wf(),
            cols > 0,
            0 <= cell < self.size(),
            !*old(has_cycle),
            !old(visited)@[cell as int],
            reaches(*self, cols as int, start, cell as int),
            dfs_inv(*self, cols as int, start, old(visited)@, old(on_stack)@, old(result)@),
            stack_ok(*self, cols as int, start, path, old(on_stack)@),
            path.len() == 0 ==> cell == start,
            path.len() >= 1 ==> succ(*self, cols as int, path.last(), cell as int),
        ensures
            final(visited)@.len() == old(visited)@.len(),
            final(on_stack)@.len() == old(on_stack)@.len(),
            final(result)@.len() >= old(result)@.len(),
            forall|j: int| 0 <= j < old(visited)@.len() && #[trigger] old(visited)@[j] ==> final(visited)@[j],
            final(visited)@[cell as int],
            *final(has_cycle) ==> cycle_from(*self, cols as int, start),
            !*final(has_cycle) ==> {
                &&& dfs_inv(*self, cols as int, start, final(visited)@, final(on_stack)@, final(result)@)
                &&& final(on_stack)@ == old(on_stack)@
                &&& final(result)@.subrange(0, old(result)@.len() as int) == old(result)@
                &&& final(result)@.contains(cell)
            },
        decreases count_false(old(visited)@),
    {
        let ghost n = self.size();
        let ghost v0 = visited@;
        visited.set(cell as usize, true);
        on_stack.set(cell as usize, true);
        proof {
            lemma_count_false(v0, visited@, cell as int);
            assert forall|x: int| 0 <= x < n && #[trigger] visited@[x] implies reaches(*self, cols as int, start, x) by {
                if x != cell {
                    assert(v0[x]);
                }
            }
            assert forall|x: int| 0 <= x < n implies (result@.contains(x as i32) <==> (#[trigger] visited@[x] && !on_stack@[x])) by {
                if x == cell {
                    assert(!(v0[x] && !old(on_stack)@[x]));
                }
            }
        }
        let ghost r0 = result@;
        let ghost os0 = old(on_stack)@;
        let ghost stack = path.push(cell as int);
        proof {
            assert forall|i: int| 0 <= i < stack.len() - 1 implies succ(*self, cols as int, #[trigger] stack[i], stack[i + 1]) by {
                if i < path.len() - 1 {
                    assert(stack[i] == path[i] && stack[i + 1] == path[i + 1]);
                } else {
                    assert(stack[i] == path.last());
                }
            }
            assert(stack[stack.len() - 1] == cell);
            assert forall|x: int| 0 <= x < on_stack@.len() implies (on_stack@[x] <==> stack.contains(x)) by {
                if x == cell {
                    assert(stack[stack.len() - 1] == x);
                } else if stack.contains(x) {
                    let i = choose|i: int| 0 <= i < stack.len() && stack[i] == x;
                    assert(path[i] == x);
                } else if path.contains(x) {
                    let i = choose|i: int| 0 <= i < path.len() && path[i] == x;
                    assert(stack[i] == x);
                }
            }
        }
        let list = &self.adj_lists[cell as usize];
        let len = list.len();
        let mut k: usize = 0;
        while k < len
            invariant
                self.wf(),
                cols > 0,
                0 <= cell < n,
                n == self.size(),
                list == self.adj_lists@[cell as int],
                len == list@.len(),
                k <= len,
                !*has_cycle,
                visited@.len() == v0.len(),
                v0 == old(visited)@,
                os0 == old(on_stack)@,
                r0 == old(result)@,
                forall|j: int| 0 <= j < v0.len() && #[trigger] v0[j] ==> visited@[j],
                visited@[cell as int],
                count_false(visited@) < count_false(v0),
                on_stack@ == os0.update(cell as int, true),
                dfs_inv(*self, cols as int, start, visited@, on_stack@, result@),
                r0.len() <= result@.len(),
                os0.len() == n,
                result@.subrange(0, r0.len() as int) == r0,
                !result@.contains(cell),
                reaches(*self, cols as int, start, cell as int),
                stack == path.push(cell as int),
                stack_ok(*self, cols as int, start, stack, on_stack@),
                stack.last() == cell,
                forall|j: int| 0 <= j < k ==> result@.contains(#[trigger] list@[j]),
            decreases len - k,
        {
            let dependent = list[k];
            proof {
                assert(self.adj_lists@[cell as int]@[k as int] == dependent);
                assert(self.has_edge(cell as int, dependent as int));
                lemma_reaches_step(*self, cols as int, start, cell as int, dependent as int);
            }
            if !visited[dependent as usize] {
                let ghost vb = visited@;
                let ghost rb = result@;
                self.dfs(dependent, visited, on_stack, result, has_cycle, cols, Ghost(start), Ghost(stack));
                proof {
                    lemma_count_false(vb, visited@, -1);
                }
                if *has_cycle {
                    return;
                }
                proof {
                    assert(result@.subrange(0, r0.len() as int) =~= r0) by {
                        assert(result@.subrange(0, rb.len() as int) == rb);
                        assert forall|j: int| 0 <= j < r0.len() implies result@[j] == r0[j] by {
                            assert(result@.subrange(0, rb.len() as int)[j] == rb[j]);
                            assert(rb.subrange(0, r0.len() as int)[j] == r0[j]);
                        }
                    }
                    assert forall|j: int| 0 <= j < k + 1 implies result@.contains(#[trigger] list@[j]) by {
                        if j < k {
                            assert(rb.contains(list@[j]));
                            let i = choose|i: int| 0 <= i < rb.len() && rb[i] == list@[j];
                            assert(result@.subrange(0, rb.len() as int)[i] == rb[i]);
                            assert(result@[i] == list@[j]);
                        }
                    }
                }
            } else if on_stack[dependent as usize] {
                proof {
                    let j = choose|j: int| 0 <= j < stack.len() && stack[j] == dependent as int;
                    lemma_cycle_witness(*self, cols as int, start, stack, j, dependent as int);
                }
                *has_cycle = true;
                return;
            } else {
                proof {
                    assert(result@.contains(dependent));
                }
            }
            k = k + 1;
        }
        let nr = self.ranges.len();
        let mut m: usize = 0;
        while m < nr
            invariant
                self.wf(),
                cols > 0,
                0 <= cell < n,
                n == self.size(),
                list == self.adj_lists@[cell as int],
                nr == self.ranges@.len(),
                m <= nr,
                !*has_cycle,
                visited@.len() == v0.len(),
                v0 == old(visited)@,
                os0 == old(on_stack)@,
                r0 == old(result)@,
                forall|j: int| 0 <= j < v0.len() && #[trigger] v0[j] ==> visited@[j],
                visited@[cell as int],
                count_false(visited@) < count_false(v0),
                on_stack@ == os0.update(cell as int, true),
                dfs_inv(*self, cols as int, start, visited@, on_stack@, result@),
                r0.len() <= result@.len(),
                os0.len() == n,
                result@.subrange(0, r0.len() as int) == r0,
                !result@.contains(cell),
                reaches(*self, cols as int, start, cell as int),
                stack == path.push(cell as int),
                stack_ok(*self, cols as int, start, stack, on_stack@),
                stack.last() == cell,
                forall|j: int| 0 <= j < list@.len() ==> result@.contains(#[trigger] list@[j]),
                forall|j: int|
                    0 <= j < m && in_rect(
                        cols as int,
                        (#[trigger] self.ranges@[j]).start_cell as int,
                        self.ranges@[j].end_cell as int,
                        cell as int,
                    ) ==> result@.contains(self.ranges@[j].dependent_cell),
            decreases nr - m,
        {
            let r: Range = self.ranges[m];
            let dependent = r.dependent_cell;
            if cell_in_rect(cols, r.start_cell, r.end_cell, cell) {
                proof {
                    assert(self.range_ok(self.ranges@[m as int]));
                    assert(succ(*self, cols as int, cell as int, dependent as int));
                    lemma_reaches_step(*self, cols as int, start, cell as int, dependent as int);
                }
                if !visited[dependent as usize] {
                    let ghost vb = visited@;
                    let ghost rb = result@;
                    self.dfs(dependent, visited, on_stack, result, has_cycle, cols, Ghost(start), Ghost(stack));
                    proof {
                        lemma_count_false(vb, visited@, -1);
                    }
                    if *has_cycle {
                        return;
                    }
                    proof {
                        assert(result@.subrange(0, r0.len() as int) =~= r0) by {
                            assert forall|j: int| 0 <= j < r0.len() implies result@[j] == r0[j] by {
                                assert(result@.subrange(0, rb.len() as int)[j] == rb[j]);
                                assert(rb.subrange(0, r0.len() as int)[j] == r0[j]);
                            }
                        }
                        assert forall|x: i32| rb.contains(x) implies result@.contains(x) by {
                            let i = choose|i: int| 0 <= i < rb.len() && rb[i] == x;
                            assert(result@.subrange(0, rb.len() as int)[i] == rb[i]);
                            assert(result@[i] == x);
                        }
                        assert forall|j: int| 0 <= j < list@.len() implies result@.contains(#[trigger] list@[j]) by {
                            assert(rb.contains(list@[j]));
                        }
                        assert forall|j: int|
                            0 <= j < m + 1 && in_rect(
                                cols as int,
                                (#[trigger] self.ranges@[j]).start_cell as int,
                                self.ranges@[j].end_cell as int,
                                cell as int,
                            ) implies result@.contains(self.ranges@[j].dependent_cell) by {
                            if j < m {
                                assert(rb.contains(self.ranges@[j].dependent_cell));
                            }
                        }
                    }
                } else if on_stack[dependent as usize] {
                    proof {
                        assert(self.range_ok(self.ranges@[m as int]));
                        assert(stack.contains(dependent as int));
                        let j = choose|j: int| 0 <= j < stack.len() && stack[j] == dependent as int;
                        lemma_cycle_witness(*self, cols as int, start, stack, j, dependent as int);
                    }
                    *has_cycle = true;
                    return;
                } else {
                    proof {
                        assert(self.range_ok(self.ranges@[m as int]));
                        assert(result@.contains(dependent));
                    }
                }
            }
            m = m + 1;
        }
        let ghost rb = result@;
        on_stack.set(cell as usize, false);
        result.push(cell);
        proof {
            assert(on_stack@ =~= os0);
            assert(result@.subrange(0, rb.len() as int) =~= rb);
            assert(result@.subrange(0, r0.len() as int) =~= r0) by {
                assert forall|j: int| 0 <= j < r0.len() implies result@[j] == r0[j] by {
                    assert(rb.subrange(0, r0.len() as int)[j] == r0[j]);
                }
            }
            assert forall|x: i32| rb.contains(x) implies result@.contains(x) by {
                let i = choose|i: int| 0 <= i < rb.len() && rb[i] == x;
                assert(result@[i] == x);
            }
            assert(result@[rb.len() as int] == cell);
            assert forall|x: int| 0 <= x < n implies (result@.contains(x as i32) <==> (#[trigger] visited@[x] && !on_stack@[x])) by {
                if result@.contains(x as i32) && x != cell {
                    let i = choose|i: int| 0 <= i < result@.len() && result@[i] == x as i32;
                    assert(rb[i] == x as i32);
                    assert(rb.contains(x as i32));
                }
            }
            assert forall|kk: int, v: int|
                0 <= kk < result@.len() && 0 <= v < n && #[trigger] succ(*self, cols as int, result@[kk] as int, v) implies result@.subrange(0, kk).contains(v as i32) by {
                if kk < rb.len() {
                    assert(result@[kk] == rb[kk]);
                    assert(rb.subrange(0, kk).contains(v as i32));
                    let i = choose|i: int| 0 <= i < kk && rb.subrange(0, kk)[i] == v as i32;
                    assert(result@.subrange(0, kk)[i] == v as i32);
                } else {
                    assert(result@.subrange(0, kk) =~= rb);
                    if self.has_edge(cell as int, v) {
                        let j = choose|j: int| 0 <= j < list@.len() && list@[j] == v as i32;
                        assert(rb.contains(list@[j]));
                    } else {
                        let j = choose|j: int|
                            0 <= j < self.ranges@.len() && (#[trigger] self.ranges@[j]).dependent_cell == v && in_rect(
                                cols as int,
                                self.ranges@[j].start_cell as int,
                                self.ranges@[j].end_cell as int,
                                cell as int,
                            );
                        assert(rb.contains(self.ranges@[j].dependent_cell));
                    }
                }
            }
        }
    }

    /// All cells reachable from `start_cell`, sources before dependents:
    /// depth-first post-order, reversed. A cell met again while still on the
    /// walk's stack is a cycle: the error, with `state.has_cycle` raised.
    pub fn topo_sort_from_cell(&self, start_cell: i32, cols: i32, state: &mut State) -> (r: Result<Vec<i32>, &'static str>)
        requires
            self.wf(),
            cols > 0,
            0 <= start_cell < self.size(),
        ensures
            match r {
                Ok(order) => topo_order(*self, cols as int, start_cell as int, order@) && *final(state) == *old(state),
                Err(e) => e == "Circular dependency detected" && *final(state) == (State { has_cycle: true, ..*old(state) })
                    && cycle_from(*self, cols as int, start_cell as int),
            },
    {
        let n = self.adj_lists.len();
        let mut visited: Vec<bool> = Vec::new();
        let mut on_stack: Vec<bool> = Vec::new();
        let mut i: usize = 0;
        while i < n
            invariant
                i <= n,
                visited@.len() == i,
                on_stack@.len() == i,
                forall|x: int| 0 <= x < i ==> !(#[trigger] visited@[x]) && !on_stack@[x],
            decreases n - i,
        {
            visited.push(false);
            on_stack.push(false);
            i = i + 1;
        }
        let mut result: Vec<i32> = Vec::new();
        let mut has_cycle = false;
        proof {
            lemma_reaches_self(*self, cols as int, start_cell as int);
        }
        proof {
            assert forall|x: int| 0 <= x < on_stack@.len() implies (on_stack@[x] <==> Seq::<int>::empty().contains(x)) by {
                assert(!visited@[x] && !on_stack@[x]);
                assert(!Seq::<int>::empty().contains(x));
            }
        }
        self.dfs(
            start_cell,
            &mut visited,
            &mut on_stack,
            &mut result,
            &mut has_cycle,
            cols,
            Ghost(start_cell as int),
            Ghost(Seq::<int>::empty()),
        );
        if has_cycle {
            state.has_cycle = true;
            return Err("Circular dependency detected");
        }
        let len = result.len();
        let mut order: Vec<i32> = Vec::new();
        let mut k: usize = 0;
        while k < len
            invariant
                k <= len,
                len == result@.len(),
                order@.len() == k,
                forall|j: int| 0 <= j < k ==> order@[j] == result@[len - 1 - j],
            decreases len - k,
        {
            order.push(result[len - 1 - k]);
            k = k + 1;
        }
        proof {
            let res = result@;
            let o = order@;
            assert(res.contains(start_cell));
            assert forall|a: int, b: int| 0 <= a < b < o.len() implies o[a] != o[b] by {
                assert(o[a] == res[len - 1 - a] && o[b] == res[len - 1 - b]);
            }
            assert forall|kk: int| 0 <= kk < o.len() implies 0 <= #[trigger] o[kk] < self.size()
                && reaches(*self, cols as int, start_cell as int, o[kk] as int) by {
                assert(o[kk] == res[len - 1 - kk]);
                assert(res.contains(res[len - 1 - kk]));
                assert(visited@[res[len - 1 - kk] as int]);
            }
            assert forall|kk: int, v: int| 0 <= kk < o.len() && 0 <= v < self.size() && #[trigger] succ(*self, cols as int, o[kk] as int, v)
                implies exists|j: int| kk < j < o.len() && o[j] == v as i32 by {
                let a = len - 1 - kk;
                assert(o[kk] == res[a]);
                assert(succ(*self, cols as int, res[a] as int, v));
                assert(res.subrange(0, a).contains(v as i32));
                let i = choose|i: int| 0 <= i < a && res.subrange(0, a)[i] == v as i32;
                assert(o[len - 1 - i] == res[i]);
            }
            let x = choose|x: int| 0 <= x < res.len() && res[x] == start_cell;
            assert(o[len - 1 - x] == start_cell);
            reveal(topo_order);
        }
        Ok(order)
    }
}

/// A list of distinct cells of a grid of `n` cells has at most `n` entries.
pub proof fn lemma_distinct_cells_len(order: Seq<i32>, n: int)
    requires
        order.no_duplicates(),
        n >= 0,
        forall|k: int| 0 <= k < order.len() ==> 0 <= #[trigger] order[k] < n,
    ensures
        order.len() <= n,
{
    let si = order.map_values(|x: i32| x as int);
    assert(si.no_duplicates()) by {
        assert forall|a: int, b: int| 0 <= a < b < si.len() implies si[a] != si[b] by {
            assert(order[a] != order[b]);
        }
    }
    si.unique_seq_to_set();
    vstd::set_lib::lemma_int_range(0, n);
    assert(si.to_set().subset_of(vstd::set_lib::set_int_range(0, n))) by {
        assert forall|x: int| si.to_set().contains(x) implies vstd::set_lib::set_int_range(0, n).contains(x) by {
            assert(si.contains(x));
            let j = choose|j: int| 0 <= j < si.len() && si[j] == x;
            assert(order[j] as int == x);
        }
    }
    vstd::set_lib::lemma_len_subset(si.to_set(), vstd::set_lib::set_int_range(0, n));
}

/// `order` lists each cell reachable from `start` once, `start` among them,
/// and every successor of a listed cell comes after it.
#[verifier::opaque]
pub open spec fn topo_order(g: Graph, cols: int, start: int, order: Seq<i32>) -> bool {
    &&& order.no_duplicates()
    &&& order.contains(start as i32)
    &&& forall|k: int| 0 <= k < order.len() ==> 0 <= #[trigger] order[k] < g.size() && reaches(g, cols, start, order[k] as int)
    &&& forall|k: int, v: int|
        0 <= k < order.len() && 0 <= v < g.size() && #[trigger] succ(g, cols, order[k] as int, v) ==> exists|j: int|
            k < j < order.len() && order[j] == v as i32
}

} // verus!
