use vstd::prelude::*;
use crate::assign::{consistent, range_of};
use crate::cell::CellModel;
use crate::graph::{Formula, Graph, edge_sources, formula_wf, is_range_tag};
use crate::range::{aggregate, rect_models};
use crate::recalc::{apply_all, eval_formula};
use crate::topo::{succ, topo_order};

verus! {

/// No dependent appears twice in the list of a cell: no edge is stored
/// twice.
pub proof fn lemma_edges_unique(g: Graph, source: int, k1: int, k2: int)
    requires
        g.wf(),
        0 <= source < g.size(),
        0 <= k1 < k2 < g.adj_lists@[source]@.len(),
    ensures
        g.adj_lists@[source]@[k1] != g.adj_lists@[source]@[k2],
{
}

/// In a graph consistent with the formulas, the edges into a cell are
/// exactly those its formula implies, and it has a range subscription
/// exactly when its formula is a range aggregate.
pub proof fn lemma_target_edges(g: Graph, fs: Seq<Formula>, target: int)
    requires
        g.wf(),
        consistent(g, fs),
        0 <= target < g.size(),
    ensures
        forall|s: int| 0 <= s < g.size() ==> (g.has_edge(s, target) <==> edge_sources(fs[target], target).contains(s)),
        is_range_tag(fs[target].op_type) <==> g.ranges@.contains(range_of(fs[target], target)),
        forall|k: int| 0 <= k < g.ranges@.len() && (#[trigger] g.ranges@[k]).dependent_cell == target ==> g.ranges@[k] == range_of(fs[target], target),
{
    assert forall|s: int| 0 <= s < g.size() implies (g.has_edge(s, target) <==> edge_sources(fs[target], target).contains(s)) by {
        assert(g.edge_sets()[s].contains(target as i32) <==> edge_sources(fs[target], target).contains(s));
        assert(g.edge_sets()[s] == g.adj_lists@[s]@.to_set());
    }
    if g.ranges@.contains(range_of(fs[target], target)) {
        let k = choose|k: int| 0 <= k < g.ranges@.len() && g.ranges@[k] == range_of(fs[target], target);
        assert(g.range_ok(g.ranges@[k]));
        assert(g.ranges@[k].dependent_cell as int == target);
    }
}

/// In a recomputation order, a cell comes before every cell that depends
/// on it.
pub proof fn lemma_topological(g: Graph, cols: int, start: int, order: Seq<i32>, i: int, j: int)
    requires
        topo_order(g, cols, start, order),
        0 <= i < order.len(),
        0 <= j < order.len(),
        succ(g, cols, order[i] as int, order[j] as int),
    ensures
        i < j,
{
    reveal(topo_order);
    assert(0 <= order[j] < g.size());
    let k = choose|k: int| i < k < order.len() && order[k] == order[j] as i32;
    assert(order.no_duplicates());
}

/// A cell that `order` does not name keeps its value.
proof fn lemma_apply_outside(order: Seq<i32>, vals: Seq<CellModel>, fs: Seq<Formula>, cols: int, x: int)
    requires
        !order.contains(x as i32),
        0 <= x < vals.len(),
        forall|k: int| 0 <= k < order.len() ==> 0 <= #[trigger] order[k] < vals.len(),
    ensures
        apply_all(order, vals, fs, cols)[x] == vals[x],
        apply_all(order, vals, fs, cols).len() == vals.len(),
    decreases order.len(),
{
    if order.len() > 0 {
        assert(!order.drop_last().contains(x as i32)) by {
            if order.drop_last().contains(x as i32) {
                let k = choose|k: int| 0 <= k < order.drop_last().len() && order.drop_last()[k] == x as i32;
                assert(order[k] == x as i32);
            }
        }
        assert(order.last() != x as i32) by {
            assert(order[order.len() - 1] == order.last());
        }
        lemma_apply_outside(order.drop_last(), vals, fs, cols, x);
    }
}

/// The grid keeps its size through recomputation.
proof fn lemma_apply_len(order: Seq<i32>, vals: Seq<CellModel>, fs: Seq<Formula>, cols: int)
    requires
        forall|k: int| 0 <= k < order.len() ==> 0 <= #[trigger] order[k] < vals.len(),
    ensures
        apply_all(order, vals, fs, cols).len() == vals.len(),
    decreases order.len(),
{
    if order.len() > 0 {
        assert forall|k: int| 0 <= k < order.drop_last().len() implies 0 <= #[trigger] order.drop_last()[k] < vals.len() by {
            assert(order.drop_last()[k] == order[k]);
        }
        lemma_apply_len(order.drop_last(), vals, fs, cols);
        assert(order[order.len() - 1] == order.last());
    }
}

/// The value of the `i`-th cell of `order` is the one computed at its turn,
/// from the grid as it stood then.
proof fn lemma_apply_at(order: Seq<i32>, vals: Seq<CellModel>, fs: Seq<Formula>, cols: int, i: int)
    requires
        order.no_duplicates(),
        0 <= i < order.len(),
        forall|k: int| 0 <= k < order.len() ==> 0 <= #[trigger] order[k] < vals.len(),
    ensures
        apply_all(order, vals, fs, cols)[order[i] as int] == eval_formula(
            fs[order[i] as int],
            order[i] as int,
            apply_all(order.subrange(0, i), vals, fs, cols),
            cols,
        ),
    decreases order.len(),
{
    let p = order.drop_last();
    assert forall|k: int| 0 <= k < p.len() implies 0 <= #[trigger] p[k] < vals.len() by {
        assert(p[k] == order[k]);
    }
    lemma_apply_len(p, vals, fs, cols);
    if i == order.len() - 1 {
        assert(p =~= order.subrange(0, i));
    } else {
        assert(p.no_duplicates());
        assert(p.subrange(0, i) =~= order.subrange(0, i));
        lemma_apply_at(p, vals, fs, cols, i);
        assert(order.last() != order[i]) by {
            assert(order[order.len() - 1] == order.last());
        }
    }
}

/// A cell evaluated before position `j` keeps the value it got, up to the
/// end.
proof fn lemma_apply_stable(order: Seq<i32>, vals: Seq<CellModel>, fs: Seq<Formula>, cols: int, i: int, j: int)
    requires
        order.no_duplicates(),
        0 <= i < j <= order.len(),
        forall|k: int| 0 <= k < order.len() ==> 0 <= #[trigger] order[k] < vals.len(),
    ensures
        apply_all(order.subrange(0, j), vals, fs, cols)[order[i] as int] == apply_all(order, vals, fs, cols)[order[i] as int],
    decreases order.len() - j,
{
    if j < order.len() {
        lemma_apply_stable(order, vals, fs, cols, i, j + 1);
        let q = order.subrange(0, j + 1);
        assert(q.drop_last() =~= order.subrange(0, j));
        assert(q.last() == order[j]);
        assert(order[j] != order[i]);
        assert forall|k: int| 0 <= k < order.subrange(0, j).len() implies 0 <= #[trigger] order.subrange(0, j)[k] < vals.len() by {
            assert(order.subrange(0, j)[k] == order[k]);
        }
        lemma_apply_len(order.subrange(0, j), vals, fs, cols);
    } else {
        assert(order.subrange(0, j) =~= order);
    }
}

/// A formula that reads an invalid cell directly gives an invalid cell.
pub open spec fn reads_directly(f: Formula, cell: int, x: int) -> bool {
    edge_sources(f, cell).contains(x)
}

/// An invalid cell makes invalid every recomputed cell whose formula reads
/// it directly.
pub proof fn lemma_invalid_propagates(
    g: Graph,
    cols: int,
    start: int,
    order: Seq<i32>,
    vals: Seq<CellModel>,
    fs: Seq<Formula>,
    x: int,
    y: int,
)
    requires
        g.wf(),
        consistent(g, fs),
        vals.len() == g.size(),
        topo_order(g, cols, start, order),
        order.contains(y as i32),
        0 <= y < g.size(),
        0 <= x < g.size(),
        reads_directly(fs[y], y, x),
        !apply_all(order, vals, fs, cols)[x].is_valid,
    ensures
        !apply_all(order, vals, fs, cols)[y].is_valid,
{
    reveal(topo_order);
    let fin = apply_all(order, vals, fs, cols);
    let j = choose|j: int| 0 <= j < order.len() && order[j] == y as i32;
    lemma_apply_at(order, vals, fs, cols, j);
    let pre = apply_all(order.subrange(0, j), vals, fs, cols);
    assert(g.edge_sets()[x].contains(y as i32));
    assert(g.has_edge(x, y));
    assert(succ(g, cols, x, y));
    assert(forall|k: int| 0 <= k < order.subrange(0, j).len() ==> 0 <= #[trigger] order.subrange(0, j)[k] < vals.len()) by {
        assert forall|k: int| 0 <= k < order.subrange(0, j).len() implies 0 <= #[trigger] order.subrange(0, j)[k] < vals.len() by {
            assert(order.subrange(0, j)[k] == order[k]);
        }
    }
    if order.contains(x as i32) {
        let i = choose|i: int| 0 <= i < order.len() && order[i] == x as i32;
        assert(succ(g, cols, order[i] as int, order[j] as int));
        lemma_topological(g, cols, start, order, i, j);
        lemma_apply_stable(order, vals, fs, cols, i, j);
    } else {
        assert(!order.subrange(0, j).contains(x as i32)) by {
            if order.subrange(0, j).contains(x as i32) {
                let k = choose|k: int| 0 <= k < j && order.subrange(0, j)[k] == x as i32;
                assert(order[k] == x as i32);
            }
        }
        lemma_apply_outside(order.subrange(0, j), vals, fs, cols, x);
        lemma_apply_outside(order, vals, fs, cols, x);
    }
    assert(pre[x] == fin[x]);
    assert(!pre[x].is_valid);
}

/// The order of the two corners of a rectangle does not matter.
pub proof fn lemma_range_symmetric(vals: Seq<CellModel>, cols: int, p: int, q: int, tag: i32)
    ensures
        rect_models(vals, cols, p, q) == rect_models(vals, cols, q, p),
        aggregate(tag, rect_models(vals, cols, p, q)) == aggregate(tag, rect_models(vals, cols, q, p)),
{
    assert(rect_models(vals, cols, p, q) =~= rect_models(vals, cols, q, p));
}

} // verus!

verus! {

/// An arithmetic seed `a, a+d, a+2d, a+3d` extends to `a + i*d`.
pub proof fn lemma_autofill_arithmetic(base: Seq<i32>, total: int, out: Seq<i32>)
    requires
        base.len() == 4,
        crate::autofill::is_ap(base[0] as int, base[1] as int, base[2] as int, base[3] as int),
        crate::autofill::extends(crate::autofill::Pattern::Arithmetic, base, total, out),
    ensures
        forall|i: int| 0 <= i < out.len() ==> #[trigger] out[i] as int == base[0] + i * (base[1] - base[0]),
{
    let d = base[1] - base[0];
    assert forall|i: int| 0 <= i < out.len() implies #[trigger] out[i] as int == base[0] + i * (base[1] - base[0]) by {
        lemma_ap_at(base, total, out, i);
    }
}

proof fn lemma_ap_at(base: Seq<i32>, total: int, out: Seq<i32>, i: int)
    requires
        base.len() == 4,
        crate::autofill::is_ap(base[0] as int, base[1] as int, base[2] as int, base[3] as int),
        crate::autofill::extends(crate::autofill::Pattern::Arithmetic, base, total, out),
        0 <= i < out.len(),
    ensures
        out[i] as int == base[0] + i * (base[1] - base[0]),
    decreases i,
{
    let d = base[1] - base[0];
    if i < 4 {
        assert(out[i] == out.subrange(0, 4)[i]);
        assert(out[i] == base[i]);
        assert(base[0] + 2 * d == base[2]);
        assert(base[0] + 3 * d == base[3]);
    } else {
        lemma_ap_at(base, total, out, i - 1);
        assert(out[i] as int == out[i - 1] + d);
        assert((i - 1) * d + d == i * d) by (nonlinear_arith);
    }
}

/// A geometric seed `a, ar, ar^2, ar^3` extends to `a * r^i`.
pub proof fn lemma_autofill_geometric(base: Seq<i32>, total: int, out: Seq<i32>)
    requires
        base.len() == 4,
        crate::autofill::is_gp(base[0] as int, base[1] as int, base[2] as int, base[3] as int),
        crate::autofill::extends(crate::autofill::Pattern::Geometric, base, total, out),
    ensures
        forall|i: int| 0 <= i < out.len() ==> #[trigger] out[i] as int == base[0] * vstd::arithmetic::power::pow(
            crate::arith::exact_quotient(base[1] as int, base[0] as int),
            i as nat,
        ),
{
    assert forall|i: int| 0 <= i < out.len() implies #[trigger] out[i] as int == base[0] * vstd::arithmetic::power::pow(
        crate::arith::exact_quotient(base[1] as int, base[0] as int),
        i as nat,
    ) by {
        lemma_gp_at(base, total, out, i);
    }
}

/// `a` times the whole quotient `b / a` gives `b` back.
proof fn lemma_exact_quotient(a: int, b: int)
    requires
        a != 0,
        crate::arith::abs(b) % crate::arith::abs(a) == 0,
    ensures
        a * crate::arith::exact_quotient(b, a) == b,
{
    let aa = crate::arith::abs(a);
    let bb = crate::arith::abs(b);
    let q = bb / aa;
    assert(bb == aa * q) by (nonlinear_arith)
        requires
            bb % aa == 0,
            q == bb / aa,
            aa > 0,
    ;
    if (b < 0) != (a < 0) {
        assert(a * (-q) == b) by (nonlinear_arith)
            requires
                bb == aa * q,
                aa == (if a < 0 { -a } else { a }),
                bb == (if b < 0 { -b } else { b }),
                (b < 0) != (a < 0),
        ;
    } else {
        assert(a * q == b) by (nonlinear_arith)
            requires
                bb == aa * q,
                aa == (if a < 0 { -a } else { a }),
                bb == (if b < 0 { -b } else { b }),
                (b < 0) == (a < 0),
        ;
    }
}

proof fn lemma_gp_at(base: Seq<i32>, total: int, out: Seq<i32>, i: int)
    requires
        base.len() == 4,
        crate::autofill::is_gp(base[0] as int, base[1] as int, base[2] as int, base[3] as int),
        crate::autofill::extends(crate::autofill::Pattern::Geometric, base, total, out),
        0 <= i < out.len(),
    ensures
        out[i] as int == base[0] * vstd::arithmetic::power::pow(crate::arith::exact_quotient(base[1] as int, base[0] as int), i as nat),
    decreases i,
{
    let r = crate::arith::exact_quotient(base[1] as int, base[0] as int);
    let a = base[0] as int;
    lemma_exact_quotient(a, base[1] as int);
    vstd::arithmetic::power::lemma_pow0(r);
    if i < 4 {
        assert(out[i] == out.subrange(0, 4)[i]);
        assert(out[i] == base[i]);
        if i >= 1 {
            lemma_gp_step(a, r, i);
        }
        if i == 1 {
            vstd::arithmetic::power::lemma_pow1(r);
        } else if i == 2 {
            lemma_gp_step(a, r, 1);
            vstd::arithmetic::power::lemma_pow1(r);
        } else if i == 3 {
            lemma_gp_step(a, r, 2);
            lemma_gp_step(a, r, 1);
            vstd::arithmetic::power::lemma_pow1(r);
        }
    } else {
        lemma_gp_at(base, total, out, i - 1);
        assert(out[i] as int == out[i - 1] * r);
        lemma_gp_step(a, r, i);
    }
}

proof fn lemma_gp_step(a: int, r: int, i: int)
    requires
        i >= 1,
    ensures
        a * vstd::arithmetic::power::pow(r, (i - 1) as nat) * r == a * vstd::arithmetic::power::pow(r, i as nat),
{
    vstd::arithmetic::power::lemma_pow_adds(r, (i - 1) as nat, 1);
    vstd::arithmetic::power::lemma_pow1(r);
    let p = vstd::arithmetic::power::pow(r, (i - 1) as nat);
    assert(a * p * r == a * (p * r)) by (nonlinear_arith);
}

/// A Fibonacci-like seed extends by the sum of the two previous values.
pub proof fn lemma_autofill_fibonacci(base: Seq<i32>, total: int, out: Seq<i32>)
    requires
        base.len() == 4,
        crate::autofill::is_fib(base[0] as int, base[1] as int, base[2] as int, base[3] as int),
        crate::autofill::extends(crate::autofill::Pattern::Fibonacci, base, total, out),
    ensures
        forall|i: int| 2 <= i < out.len() ==> #[trigger] out[i] as int == out[i - 1] + out[i - 2],
{
    assert forall|i: int| 2 <= i < out.len() implies #[trigger] out[i] as int == out[i - 1] + out[i - 2] by {
        if i < 4 {
            assert(out[i] == out.subrange(0, 4)[i]);
            assert(out[i - 1] == out.subrange(0, 4)[i - 1]);
            assert(out[i - 2] == out.subrange(0, 4)[i - 2]);
        }
    }
}

/// A constant seed extends by the same value.
pub proof fn lemma_autofill_constant(base: Seq<i32>, total: int, out: Seq<i32>, p: crate::autofill::Pattern)
    requires
        base.len() == 4,
        base[0] == base[1] && base[1] == base[2] && base[2] == base[3],
        p == crate::autofill::Pattern::Constant || p == crate::autofill::Pattern::Arithmetic,
        crate::autofill::extends(p, base, total, out),
    ensures
        forall|i: int| 0 <= i < out.len() ==> #[trigger] out[i] == base[0],
{
    if p == crate::autofill::Pattern::Arithmetic {
        lemma_autofill_arithmetic(base, total, out);
        assert forall|i: int| 0 <= i < out.len() implies #[trigger] out[i] == base[0] by {
            assert(i * (base[1] - base[0]) == 0) by (nonlinear_arith)
                requires
                    base[1] == base[0],
            ;
        }
    } else {
        assert forall|i: int| 0 <= i < out.len() implies #[trigger] out[i] == base[0] by {
            if i < 4 {
                assert(out[i] == out.subrange(0, 4)[i]);
            }
        }
    }
}

/// The filled column holds the sequence: row `i` of column `col` holds
/// `out[i]`.
pub proof fn lemma_fill_column_at(vals: Seq<CellModel>, cols: int, col: int, out: Seq<i32>, i: int)
    requires
        cols > 0,
        0 <= col < cols,
        0 <= i < out.len(),
        i * cols + col < vals.len(),
    ensures
        crate::autofill::fill_column(vals, cols, col, out)[i * cols + col] == crate::cell::int_model(out[i]),
{
    assert((i * cols + col) % cols == col && (i * cols + col) / cols == i) by (nonlinear_arith)
        requires
            cols > 0,
            0 <= col < cols,
            i >= 0,
    ;
}

} // verus!

verus! {

/// Position of `v` in `order`.
pub open spec fn pos(order: Seq<i32>, v: int) -> int {
    choose|k: int| 0 <= k < order.len() && order[k] == v as i32
}

proof fn lemma_succ_in_grid(g: Graph, cols: int, u: int, v: int)
    requires
        g.wf(),
        succ(g, cols, u, v),
    ensures
        0 <= v < g.size(),
{
    if g.has_edge(u, v) {
    } else {
        let k = choose|k: int|
            0 <= k < g.ranges@.len() && (#[trigger] g.ranges@[k]).dependent_cell == v && crate::topo::in_rect(
                cols,
                g.ranges@[k].start_cell as int,
                g.ranges@[k].end_cell as int,
                u,
            );
        assert(g.range_ok(g.ranges@[k]));
    }
}

/// Along a walk that starts in a recomputation order, every step moves
/// forward in the order.
proof fn lemma_walk_forward(g: Graph, cols: int, start: int, order: Seq<i32>, q: Seq<int>, i: int)
    requires
        g.wf(),
        topo_order(g, cols, start, order),
        crate::topo::is_walk(g, cols, q),
        order.contains(q[0] as i32),
        0 <= q[0] < g.size(),
        0 <= i < q.len(),
    ensures
        0 <= q[i] < g.size(),
        order.contains(q[i] as i32),
        order[pos(order, q[i])] == q[i] as i32,
        0 <= pos(order, q[i]) < order.len(),
        pos(order, q[i]) >= pos(order, q[0]) + i,
    decreases i,
{
    reveal(topo_order);
    if i > 0 {
        lemma_walk_forward(g, cols, start, order, q, i - 1);
        let k = pos(order, q[i - 1]);
        assert(succ(g, cols, q[i - 1], q[i]));
        lemma_succ_in_grid(g, cols, q[i - 1], q[i]);
        assert(succ(g, cols, order[k] as int, q[i]));
        let j = choose|j: int| k < j < order.len() && order[j] == q[i] as i32;
        assert(order.contains(q[i] as i32));
        let p = pos(order, q[i]);
        assert(order[p] == order[j]);
        assert(p == j) by {
            assert(order.no_duplicates());
        }
    }
}

/// Everything reachable from the start lies in its recomputation order.
proof fn lemma_reach_in_order(g: Graph, cols: int, start: int, order: Seq<i32>, x: int)
    requires
        g.wf(),
        0 <= start < g.size(),
        topo_order(g, cols, start, order),
        crate::topo::reaches(g, cols, start, x),
    ensures
        order.contains(x as i32),
        0 <= x < g.size(),
{
    reveal(topo_order);
    let p = choose|p: Seq<int>| crate::topo::is_walk(g, cols, p) && p[0] == start && p.last() == x;
    let k = choose|k: int| 0 <= k < order.len() && order[k] == start as i32;
    assert(0 <= order[k] < g.size());
    lemma_walk_forward(g, cols, start, order, p, p.len() - 1);
}

/// A cell that has a recomputation order reaches no cycle: success of the
/// sort rules cycles out, as the error rules them in.
pub proof fn lemma_sorted_means_acyclic(g: Graph, cols: int, start: int, order: Seq<i32>)
    requires
        g.wf(),
        0 <= start < g.size(),
        topo_order(g, cols, start, order),
    ensures
        !crate::topo::cycle_from(g, cols, start),
{
    if crate::topo::cycle_from(g, cols, start) {
        let x = choose|x: int| crate::topo::reaches(g, cols, start, x) && crate::topo::on_cycle(g, cols, x);
        lemma_reach_in_order(g, cols, start, order, x);
        let q = choose|q: Seq<int>| crate::topo::is_walk(g, cols, q) && q.len() >= 2 && q[0] == x && q.last() == x;
        lemma_walk_forward(g, cols, start, order, q, q.len() - 1);
        assert(q[q.len() - 1] == q[0]);
    }
}

} // verus!

verus! {

/// Every cell of a rectangle is one of the cells an aggregate reads.
pub proof fn lemma_rect_covers(cols: int, a: int, b: int, x: int)
    requires
        cols > 0,
        a >= 0,
        b >= 0,
        x >= 0,
        crate::topo::in_rect(cols, a, b, x),
    ensures
        exists|k: int|
            0 <= k < crate::range::rect_height(cols, a, b) * crate::range::rect_width(cols, a, b)
                && crate::range::rect_index(cols, a, b, k) == x,
{
    let w = crate::range::rect_width(cols, a, b);
    let h = crate::range::rect_height(cols, a, b);
    let r0 = crate::topo::lo(crate::topo::row_of(cols, a), crate::topo::row_of(cols, b));
    let c0 = crate::topo::lo(crate::topo::col_of(cols, a), crate::topo::col_of(cols, b));
    let qa = x / cols - r0;
    let qb = x % cols - c0;
    let k = qa * w + qb;
    assert(0 <= qb < w && 0 <= qa < h);
    vstd::arithmetic::div_mod::lemma_fundamental_div_mod_converse(k, w, qa, qb);
    vstd::arithmetic::div_mod::lemma_fundamental_div_mod(x, cols);
    assert(0 <= k < h * w) by (nonlinear_arith)
        requires
            k == qa * w + qb,
            0 <= qb < w,
            0 <= qa < h,
    ;
    assert(crate::range::rect_index(cols, a, b, k) == (r0 + qa) * cols + c0 + qb);
    assert((r0 + qa) * cols + c0 + qb == cols * (x / cols) + x % cols) by (nonlinear_arith)
        requires
            qa == x / cols - r0,
            qb == x % cols - c0,
    ;
}

/// An invalid cell inside the rectangle of a recomputed range aggregate
/// makes the aggregate invalid.
pub proof fn lemma_invalid_propagates_range(
    g: Graph,
    cols: int,
    start: int,
    order: Seq<i32>,
    vals: Seq<CellModel>,
    fs: Seq<Formula>,
    x: int,
    y: int,
)
    requires
        g.wf(),
        cols > 0,
        consistent(g, fs),
        vals.len() == g.size(),
        topo_order(g, cols, start, order),
        order.contains(y as i32),
        0 <= y < g.size(),
        0 <= x < g.size(),
        is_range_tag(fs[y].op_type),
        crate::topo::in_rect(cols, fs[y].op_info1 as int, fs[y].op_info2 as int, x),
        !apply_all(order, vals, fs, cols)[x].is_valid,
    ensures
        !apply_all(order, vals, fs, cols)[y].is_valid,
{
    reveal(topo_order);
    let fin = apply_all(order, vals, fs, cols);
    let j = choose|j: int| 0 <= j < order.len() && order[j] == y as i32;
    lemma_apply_at(order, vals, fs, cols, j);
    let pre = apply_all(order.subrange(0, j), vals, fs, cols);
    assert(g.ranges@.contains(range_of(fs[y], y)));
    let m = choose|m: int| 0 <= m < g.ranges@.len() && g.ranges@[m] == range_of(fs[y], y);
    assert(succ(g, cols, x, y));
    assert(forall|k: int| 0 <= k < order.subrange(0, j).len() ==> 0 <= #[trigger] order.subrange(0, j)[k] < vals.len()) by {
        assert forall|k: int| 0 <= k < order.subrange(0, j).len() implies 0 <= #[trigger] order.subrange(0, j)[k] < vals.len() by {
            assert(order.subrange(0, j)[k] == order[k]);
        }
    }
    if order.contains(x as i32) {
        let i = choose|i: int| 0 <= i < order.len() && order[i] == x as i32;
        assert(succ(g, cols, order[i] as int, order[j] as int));
        lemma_topological(g, cols, start, order, i, j);
        lemma_apply_stable(order, vals, fs, cols, i, j);
    } else {
        assert(!order.subrange(0, j).contains(x as i32)) by {
            if order.subrange(0, j).contains(x as i32) {
                let k = choose|k: int| 0 <= k < j && order.subrange(0, j)[k] == x as i32;
                assert(order[k] == x as i32);
            }
        }
        lemma_apply_outside(order.subrange(0, j), vals, fs, cols, x);
        lemma_apply_outside(order, vals, fs, cols, x);
    }
    assert(!pre[x].is_valid);
    assert(formula_wf(fs[y], y, g.size()));
    lemma_rect_covers(cols, fs[y].op_info1 as int, fs[y].op_info2 as int, x);
    let rm = rect_models(pre, cols, fs[y].op_info1 as int, fs[y].op_info2 as int);
    let k = choose|k: int|
        0 <= k < crate::range::rect_height(cols, fs[y].op_info1 as int, fs[y].op_info2 as int) * crate::range::rect_width(
            cols,
            fs[y].op_info1 as int,
            fs[y].op_info2 as int,
        ) && crate::range::rect_index(cols, fs[y].op_info1 as int, fs[y].op_info2 as int, k) == x;
    assert(rm[k] == pre[x]);
    assert(crate::range::unreadable(rm[k]));
}

} // verus!

verus! {

/// In any well-formed sheet (every sheet operation keeps one so, from
/// `Sheet::new` on), no dependent list holds an entry twice.
pub proof fn lemma_sheet_edges_unique(s: crate::history::Sheet, source: int, k1: int, k2: int)
    requires
        s.wf(),
        0 <= source < s.graph.size(),
        0 <= k1 < k2 < s.graph.adj_lists@[source]@.len(),
    ensures
        s.graph.adj_lists@[source]@[k1] != s.graph.adj_lists@[source]@[k2],
{
}

/// Autofill of an arithmetic column: row `i` of the column (from 0) then
/// holds `a + i*d`, for every row written.
pub proof fn lemma_autofill_column_arithmetic(
    col_name: Seq<char>,
    length: int,
    cols: int,
    a0: Seq<crate::cell::Cell>,
    a1: Seq<crate::cell::Cell>,
    res: Result<(), &'static str>,
)
    requires
        cols > 0,
        (a0.len() as int) % cols == 0,
        crate::autofill::autofilled(col_name, length, cols, a0, a1, res),
        0 <= crate::autofill::column_index(col_name) < cols,
        crate::autofill::seed_error(crate::cell::models(a0), cols, crate::autofill::column_index(col_name), 0) is None,
        crate::autofill::pattern_of(
            crate::autofill::seed_of(crate::cell::models(a0), cols, crate::autofill::column_index(col_name)),
        ) == Some(crate::autofill::Pattern::Arithmetic),
    ensures
        res is Ok,
        exists|n: int|
            #[trigger] rows_fit(n, cols, a0.len() as int) && forall|i: int|
                0 <= i < n ==> #[trigger] row_cell(crate::cell::models(a1), cols, crate::autofill::column_index(col_name), i) == crate::cell::int_model(
                    (crate::autofill::seed_of(crate::cell::models(a0), cols, crate::autofill::column_index(col_name))[0] + i * (
                    crate::autofill::seed_of(crate::cell::models(a0), cols, crate::autofill::column_index(col_name))[1]
                        - crate::autofill::seed_of(crate::cell::models(a0), cols, crate::autofill::column_index(col_name))[0]))
                        as i32,
                ),
{
    let col = crate::autofill::column_index(col_name);
    let vals = crate::cell::models(a0);
    let seed = crate::autofill::seed_of(vals, cols, col);
    let total = crate::range::min_of(length, (a0.len() as int) / cols);
    let out = choose|out: Seq<i32>|
        crate::autofill::extends(crate::autofill::Pattern::Arithmetic, seed, total, out) && crate::cell::models(a1)
            == crate::autofill::fill_column(vals, cols, col, out);
    lemma_autofill_arithmetic(seed, total, out);
    lemma_seed_row(vals, cols, col, 3);
    let m = (a0.len() as int) / cols;
    assert(3 * cols + col < a0.len());
    assert(out.len() * cols <= a0.len()) by {
        if total > 4 {
            assert(out.len() <= m);
        } else {
            assert(out.len() <= 4);
        }
        assert(m * cols == a0.len()) by (nonlinear_arith)
            requires
                m == (a0.len() as int) / cols,
                (a0.len() as int) % cols == 0,
                cols > 0,
        ;
        assert(4 * cols <= a0.len()) by (nonlinear_arith)
            requires
                3 * cols + col < a0.len(),
                m * cols == a0.len(),
                col >= 0,
                cols > 0,
        ;
        assert(out.len() * cols <= a0.len()) by (nonlinear_arith)
            requires
                out.len() <= m || out.len() <= 4,
                m * cols == a0.len(),
                4 * cols <= a0.len(),
                cols > 0,
        ;
    }
    assert forall|i: int| 0 <= i < out.len() implies #[trigger] row_cell(crate::cell::models(a1), cols, col, i) == crate::cell::int_model(
        (seed[0] + i * (seed[1] - seed[0])) as i32,
    ) by {
        assert(i * cols + col < a0.len()) by (nonlinear_arith)
            requires
                0 <= i < out.len(),
                out.len() * cols <= a0.len(),
                0 <= col < cols,
        ;
        lemma_fill_column_at(vals, cols, col, out, i);
    }
    assert(4 <= out.len());
    assert(rows_fit(out.len() as int, cols, a0.len() as int));
}

/// `n` rows, at least the four seed rows, fit a grid of `len` cells in rows
/// of `cols`.
pub open spec fn rows_fit(n: int, cols: int, len: int) -> bool {
    4 <= n && n * cols <= len
}

/// The cell of row `i` in column `col`.
pub open spec fn row_cell(vals: Seq<CellModel>, cols: int, col: int, i: int) -> CellModel {
    vals[i * cols + col]
}

proof fn lemma_seed_row(vals: Seq<CellModel>, cols: int, col: int, j: int)
    requires
        0 <= j < 4,
        crate::autofill::seed_error(vals, cols, col, 0) is None,
    ensures
        j * cols + col < vals.len(),
{
    lemma_seed_row_from(vals, cols, col, 0, j);
}

proof fn lemma_seed_row_from(vals: Seq<CellModel>, cols: int, col: int, i: int, j: int)
    requires
        0 <= i <= j < 4,
        crate::autofill::seed_error(vals, cols, col, i) is None,
    ensures
        j * cols + col < vals.len(),
    decreases 4 - i,
{
    if i < j {
        lemma_seed_row_from(vals, cols, col, i + 1, j);
    }
}

} // verus!

verus! {

/// Autofill writes its sequence down the column: for whatever pattern the
/// seed follows, row `i` of the column holds the `i`-th value of a sequence
/// that extends the seed by that pattern (see the sequence laws above for
/// each pattern's closed form).
pub proof fn lemma_autofill_column(
    col_name: Seq<char>,
    length: int,
    cols: int,
    a0: Seq<crate::cell::Cell>,
    a1: Seq<crate::cell::Cell>,
    res: Result<(), &'static str>,
    p: crate::autofill::Pattern,
)
    requires
        cols > 0,
        (a0.len() as int) % cols == 0,
        crate::autofill::autofilled(col_name, length, cols, a0, a1, res),
        0 <= crate::autofill::column_index(col_name) < cols,
        crate::autofill::seed_error(crate::cell::models(a0), cols, crate::autofill::column_index(col_name), 0) is None,
        crate::autofill::pattern_of(
            crate::autofill::seed_of(crate::cell::models(a0), cols, crate::autofill::column_index(col_name)),
        ) == Some(p),
    ensures
        res is Ok,
        exists|out: Seq<i32>|
            #[trigger] crate::autofill::extends(
                p,
                crate::autofill::seed_of(crate::cell::models(a0), cols, crate::autofill::column_index(col_name)),
                crate::range::min_of(length, (a0.len() as int) / cols),
                out,
            ) && rows_fit(out.len() as int, cols, a0.len() as int) && forall|i: int|
                0 <= i < out.len() ==> #[trigger] row_cell(crate::cell::models(a1), cols, crate::autofill::column_index(col_name), i)
                    == crate::cell::int_model(out[i]),
{
    let col = crate::autofill::column_index(col_name);
    let vals = crate::cell::models(a0);
    let seed = crate::autofill::seed_of(vals, cols, col);
    let total = crate::range::min_of(length, (a0.len() as int) / cols);
    let out = choose|out: Seq<i32>|
        crate::autofill::extends(p, seed, total, out) && crate::cell::models(a1) == crate::autofill::fill_column(vals, cols, col, out);
    lemma_seed_row(vals, cols, col, 3);
    let m = (a0.len() as int) / cols;
    assert(m * cols == a0.len()) by (nonlinear_arith)
        requires
            m == (a0.len() as int) / cols,
            (a0.len() as int) % cols == 0,
            cols > 0,
    ;
    assert(4 * cols <= a0.len()) by (nonlinear_arith)
        requires
            3 * cols + col < a0.len(),
            m * cols == a0.len(),
            col >= 0,
            cols > 0,
    ;
    assert(out.len() * cols <= a0.len()) by (nonlinear_arith)
        requires
            out.len() <= m || out.len() <= 4,
            m * cols == a0.len(),
            4 * cols <= a0.len(),
            cols > 0,
    ;
    assert forall|i: int| 0 <= i < out.len() implies #[trigger] row_cell(crate::cell::models(a1), cols, col, i) == crate::cell::int_model(out[i]) by {
        assert(i * cols + col < a0.len()) by (nonlinear_arith)
            requires
                0 <= i < out.len(),
                out.len() * cols <= a0.len(),
                0 <= col < cols,
        ;
        lemma_fill_column_at(vals, cols, col, out, i);
    }
    assert(rows_fit(out.len() as int, cols, a0.len() as int));
}

} // verus!

verus! {

/// Autofill of a geometric column: row `i` of the column (from 0) then
/// holds `a * r^i`, for every row written.
pub proof fn lemma_autofill_column_geometric(
    col_name: Seq<char>,
    length: int,
    cols: int,
    a0: Seq<crate::cell::Cell>,
    a1: Seq<crate::cell::Cell>,
    res: Result<(), &'static str>,
)
    requires
        cols > 0,
        (a0.len() as int) % cols == 0,
        crate::autofill::autofilled(col_name, length, cols, a0, a1, res),
        0 <= crate::autofill::column_index(col_name) < cols,
        crate::autofill::seed_error(crate::cell::models(a0), cols, crate::autofill::column_index(col_name), 0) is None,
        crate::autofill::pattern_of(
            crate::autofill::seed_of(crate::cell::models(a0), cols, crate::autofill::column_index(col_name)),
        ) == Some(crate::autofill::Pattern::Geometric),
    ensures
        res is Ok,
        exists|n: int|
            #[trigger] rows_fit(n, cols, a0.len() as int) && forall|i: int|
                0 <= i < n ==> #[trigger] row_cell(crate::cell::models(a1), cols, crate::autofill::column_index(col_name), i)
                    == crate::cell::int_model(
                    (crate::autofill::seed_of(crate::cell::models(a0), cols, crate::autofill::column_index(col_name))[0]
                        * vstd::arithmetic::power::pow(
                        crate::arith::exact_quotient(
                            crate::autofill::seed_of(crate::cell::models(a0), cols, crate::autofill::column_index(col_name))[1]
                                as int,
                            crate::autofill::seed_of(crate::cell::models(a0), cols, crate::autofill::column_index(col_name))[0]
                                as int,
                        ),
                        i as nat,
                    )) as i32,
                ),
{
    let col = crate::autofill::column_index(col_name);
    let seed = crate::autofill::seed_of(crate::cell::models(a0), cols, col);
    let total = crate::range::min_of(length, (a0.len() as int) / cols);
    lemma_autofill_column(col_name, length, cols, a0, a1, res, crate::autofill::Pattern::Geometric);
    let out = choose|out: Seq<i32>|
        #[trigger] crate::autofill::extends(crate::autofill::Pattern::Geometric, seed, total, out) && rows_fit(
            out.len() as int,
            cols,
            a0.len() as int,
        ) && forall|i: int|
            0 <= i < out.len() ==> #[trigger] row_cell(crate::cell::models(a1), cols, col, i) == crate::cell::int_model(out[i]);
    lemma_autofill_geometric(seed, total, out);
    assert(rows_fit(out.len() as int, cols, a0.len() as int));
}

/// Autofill of a Fibonacci-like column: from the third row on, each row
/// written holds the sum of the two above it.
pub proof fn lemma_autofill_column_fibonacci(
    col_name: Seq<char>,
    length: int,
    cols: int,
    a0: Seq<crate::cell::Cell>,
    a1: Seq<crate::cell::Cell>,
    res: Result<(), &'static str>,
)
    requires
        cols > 0,
        (a0.len() as int) % cols == 0,
        crate::autofill::autofilled(col_name, length, cols, a0, a1, res),
        0 <= crate::autofill::column_index(col_name) < cols,
        crate::autofill::seed_error(crate::cell::models(a0), cols, crate::autofill::column_index(col_name), 0) is None,
        crate::autofill::pattern_of(
            crate::autofill::seed_of(crate::cell::models(a0), cols, crate::autofill::column_index(col_name)),
        ) == Some(crate::autofill::Pattern::Fibonacci),
    ensures
        res is Ok,
        exists|out: Seq<i32>|
            #[trigger] rows_fit(out.len() as int, cols, a0.len() as int) && (forall|i: int|
                0 <= i < out.len() ==> #[trigger] row_cell(crate::cell::models(a1), cols, crate::autofill::column_index(col_name), i)
                    == crate::cell::int_model(out[i])) && (forall|i: int|
                2 <= i < out.len() ==> #[trigger] out[i] as int == out[i - 1] + out[i - 2]) && out.subrange(0, 4)
                == crate::autofill::seed_of(crate::cell::models(a0), cols, crate::autofill::column_index(col_name)),
{
    let col = crate::autofill::column_index(col_name);
    let seed = crate::autofill::seed_of(crate::cell::models(a0), cols, col);
    let total = crate::range::min_of(length, (a0.len() as int) / cols);
    lemma_autofill_column(col_name, length, cols, a0, a1, res, crate::autofill::Pattern::Fibonacci);
    let out = choose|out: Seq<i32>|
        #[trigger] crate::autofill::extends(crate::autofill::Pattern::Fibonacci, seed, total, out) && rows_fit(
            out.len() as int,
            cols,
            a0.len() as int,
        ) && forall|i: int|
            0 <= i < out.len() ==> #[trigger] row_cell(crate::cell::models(a1), cols, col, i) == crate::cell::int_model(out[i]);
    lemma_autofill_fibonacci(seed, total, out);
    assert(rows_fit(out.len() as int, cols, a0.len() as int));
}

/// A range formula gives the same value with its corners in either order.
pub proof fn lemma_range_formula_symmetric(f: Formula, cell: int, vals: Seq<CellModel>, cols: int)
    requires
        is_range_tag(f.op_type),
    ensures
        eval_formula(f, cell, vals, cols) == eval_formula(
            Formula { op_type: f.op_type, op_info1: f.op_info2, op_info2: f.op_info1 },
            cell,
            vals,
            cols,
        ),
{
    lemma_range_symmetric(vals, cols, f.op_info1 as int, f.op_info2 as int, f.op_type);
}

} // verus!
