use vstd::prelude::*;
use crate::cell::{Cell, CellModel, models};
use crate::graph::{
    Formula,
    Graph,
    Range,
    State,
    added,
    deleted,
    edge_sources,
    formula_wf,
    is_range_tag,
    lemma_without_dep,
    lemma_without_dep_unique,
    unique_deps,
};
use crate::recalc::{apply_all, grid_ok, sleep_total};
use crate::topo::{cycle_from, topo_order};

verus! {

/// The subscription that formula `f` of `cell` implies.
pub open spec fn range_of(f: Formula, cell: int) -> Range {
    Range { start_cell: f.op_info1, end_cell: f.op_info2, dependent_cell: cell as i32 }
}

/// The graph holds exactly the edges and subscriptions that the formulas
/// imply: an edge `s -> c` iff the formula of `c` reads `s`, and one
/// subscription for each range formula, none for the others.
pub open spec fn consistent(g: Graph, fs: Seq<Formula>) -> bool {
    let n = g.size();
    &&& fs.len() == n
    &&& forall|c: int| 0 <= c < n ==> formula_wf(#[trigger] fs[c], c, n)
    &&& forall|s: int, c: int|
        0 <= s < n && 0 <= c < n ==> (#[trigger] g.edge_sets()[s].contains(c as i32) <==> edge_sources(
            fs[c],
            c,
        ).contains(s))
    &&& forall|k: int|
        0 <= k < g.ranges@.len() ==> is_range_tag(fs[(#[trigger] g.ranges@[k]).dependent_cell as int].op_type)
            && g.ranges@[k] == range_of(fs[g.ranges@[k].dependent_cell as int], g.ranges@[k].dependent_cell as int)
    &&& forall|c: int| 0 <= c < n && is_range_tag(#[trigger] fs[c].op_type) ==> g.ranges@.contains(range_of(fs[c], c))
    &&& unique_deps(g.ranges@)
}

/// The graph and formulas of an empty grid.
pub proof fn lemma_consistent_empty(g: Graph, fs: Seq<Formula>)
    requires
        g.wf(),
        g.ranges@.len() == 0,
        forall|s: int| 0 <= s < g.size() ==> (#[trigger] g.adj_lists@[s])@.len() == 0,
        fs.len() == g.size(),
        forall|c: int| 0 <= c < fs.len() ==> (#[trigger] fs[c]).op_type == 0,
    ensures
        consistent(g, fs),
{
    assert forall|s: int, c: int| 0 <= s < g.size() && 0 <= c < g.size() implies (#[trigger] g.edge_sets()[s].contains(c as i32) <==> edge_sources(
        fs[c],
        c,
    ).contains(s)) by {
        assert(g.adj_lists@[s]@.len() == 0);
        assert(!g.adj_lists@[s]@.contains(c as i32));
        assert(fs[c].op_type == 0);
    }
}

/// Taking out the edges of the formula of `c` and adding those of `f` keeps
/// the graph consistent with the formulas, `f` now standing at `c`.
pub proof fn lemma_install(g: Graph, g1: Graph, g2: Graph, fs: Seq<Formula>, c: int, f: Formula)
    requires
        consistent(g, fs),
        0 <= c < g.size(),
        formula_wf(f, c, g.size()),
        deleted(g, g1, fs[c], c),
        added(g1, g2, f, c),
    ensures
        consistent(g2, fs.update(c, f)),
        forall|s: int| 0 <= s < g.size() ==> !(#[trigger] g1.edge_sets()[s]).contains(c as i32),
        forall|r: Range| g1.ranges@.contains(r) ==> r.dependent_cell != c && g.ranges@.contains(r),
        unique_deps(g1.ranges@),
{
    let n = g.size();
    let fs2 = fs.update(c, f);
    lemma_without_dep(g.ranges@, c as i32);
    lemma_without_dep_unique(g.ranges@, c as i32);
    assert forall|s: int| 0 <= s < n implies !(#[trigger] g1.edge_sets()[s]).contains(c as i32) by {
        assert(g.edge_sets()[s].contains(c as i32) <==> edge_sources(fs[c], c).contains(s));
    }
    assert forall|r: Range| g1.ranges@.contains(r) implies r.dependent_cell != c && g.ranges@.contains(r) by {
        if !is_range_tag(fs[c].op_type) {
            let k = choose|k: int| 0 <= k < g.ranges@.len() && g.ranges@[k] == r;
            assert(is_range_tag(fs[g.ranges@[k].dependent_cell as int].op_type));
        }
    }
    assert forall|s: int, x: int| 0 <= s < n && 0 <= x < n implies (#[trigger] g2.edge_sets()[s].contains(x as i32) <==> edge_sources(
        fs2[x],
        x,
    ).contains(s)) by {
        assert(g.edge_sets()[s].contains(x as i32) <==> edge_sources(fs[x], x).contains(s));
        assert(!g1.edge_sets()[s].contains(c as i32));
    }
    assert forall|k: int| 0 <= k < g2.ranges@.len() implies is_range_tag(fs2[(#[trigger] g2.ranges@[k]).dependent_cell as int].op_type)
        && g2.ranges@[k] == range_of(fs2[g2.ranges@[k].dependent_cell as int], g2.ranges@[k].dependent_cell as int) by {
        let r = g2.ranges@[k];
        if k < g1.ranges@.len() {
            assert(g1.ranges@[k] == r);
            assert(g1.ranges@.contains(r));
            let j = choose|j: int| 0 <= j < g.ranges@.len() && g.ranges@[j] == r;
        }
    }
    assert forall|x: int| 0 <= x < n && is_range_tag(#[trigger] fs2[x].op_type) implies g2.ranges@.contains(range_of(fs2[x], x)) by {
        if x == c {
            assert(g2.ranges@[g2.ranges@.len() - 1] == range_of(f, c));
        } else {
            assert(g.ranges@.contains(range_of(fs[x], x)));
            assert(range_of(fs[x], x).dependent_cell != c);
            assert(g1.ranges@.contains(range_of(fs[x], x)));
            let j = choose|j: int| 0 <= j < g1.ranges@.len() && g1.ranges@[j] == range_of(fs[x], x);
            assert(g2.ranges@[j] == range_of(fs[x], x));
        }
    }
    assert(unique_deps(g2.ranges@)) by {
        assert forall|k1: int, k2: int|
            0 <= k1 < g2.ranges@.len() && 0 <= k2 < g2.ranges@.len() && (#[trigger] g2.ranges@[k1]).dependent_cell
                == (#[trigger] g2.ranges@[k2]).dependent_cell implies k1 == k2 by {
            let l = g1.ranges@.len();
            if k1 < l {
                assert(g1.ranges@.contains(g1.ranges@[k1]));
                assert(g2.ranges@[k1] == g1.ranges@[k1]);
            }
            if k2 < l {
                assert(g1.ranges@.contains(g1.ranges@[k2]));
                assert(g2.ranges@[k2] == g1.ranges@[k2]);
            }
        }
    }
}

/// Installing a formula and then taking it out again, the previous formula
/// going back in, gives back the same edges and subscriptions.
pub proof fn lemma_rollback(g: Graph, g1: Graph, g2: Graph, g3: Graph, g4: Graph, fs: Seq<Formula>, c: int, f: Formula)
    requires
        g.wf(),
        consistent(g, fs),
        0 <= c < g.size(),
        formula_wf(f, c, g.size()),
        deleted(g, g1, fs[c], c),
        added(g1, g2, f, c),
        deleted(g2, g3, f, c),
        added(g3, g4, fs[c], c),
    ensures
        g4.edge_sets() == g.edge_sets(),
        g4.range_set() == g.range_set(),
        consistent(g4, fs),
{
    let n = g.size();
    lemma_install(g, g1, g2, fs, c, f);
    let fs2 = fs.update(c, f);
    assert(fs2[c] == f);
    assert(fs2.update(c, fs[c]) =~= fs);
    lemma_install(g2, g3, g4, fs2, c, fs[c]);
    assert(consistent(g4, fs));
    assert forall|s: int| 0 <= s < n implies #[trigger] g4.edge_sets()[s] == g.edge_sets()[s] by {
        assert forall|x: i32| g4.edge_sets()[s].contains(x) <==> g.edge_sets()[s].contains(x) by {
            if 0 <= x < n {
                let xi = x as int;
                assert(xi as i32 == x);
                assert(g4.edge_sets()[s].contains(xi as i32) <==> edge_sources(fs[xi], xi).contains(s));
                assert(g.edge_sets()[s].contains(xi as i32) <==> edge_sources(fs[xi], xi).contains(s));
            } else {
                if g.adj_lists@[s]@.contains(x) {
                    let k = choose|k: int| 0 <= k < g.adj_lists@[s]@.len() && g.adj_lists@[s]@[k] == x;
                    assert(0 <= g.adj_lists@[s]@[k] < n);
                }
                if g4.adj_lists@[s]@.contains(x) {
                    let k = choose|k: int| 0 <= k < g4.adj_lists@[s]@.len() && g4.adj_lists@[s]@[k] == x;
                    assert(0 <= g4.adj_lists@[s]@[k] < n);
                }
            }
        }
        assert(g4.edge_sets()[s] =~= g.edge_sets()[s]);
    }
    assert(g4.edge_sets() =~= g.edge_sets());
    assert forall|r: Range| g4.ranges@.contains(r) <==> g.ranges@.contains(r) by {
        if g.ranges@.contains(r) {
            let k = choose|k: int| 0 <= k < g.ranges@.len() && g.ranges@[k] == r;
            let x = r.dependent_cell as int;
            assert(g.range_ok(g.ranges@[k]));
            assert(is_range_tag(fs[x].op_type) && r == range_of(fs[x], x));
            assert(g4.ranges@.contains(range_of(fs[x], x)));
        }
        if g4.ranges@.contains(r) {
            let k = choose|k: int| 0 <= k < g4.ranges@.len() && g4.ranges@[k] == r;
            let x = r.dependent_cell as int;
            assert(g4.range_ok(g4.ranges@[k]));
            assert(is_range_tag(fs[x].op_type) && r == range_of(fs[x], x));
            assert(g.ranges@.contains(range_of(fs[x], x)));
        }
    }
    assert(g4.range_set() =~= g.range_set());
}

/// The values that recomputation starts from: the grid, with the literal
/// written at the target when there is one.
pub open spec fn seeded(vals: Seq<CellModel>, target: int, literal: Option<CellModel>) -> Seq<CellModel> {
    match literal {
        Some(v) => vals.update(target, v),
        None => vals,
    }
}

pub open spec fn lit_model(literal: Option<Cell>) -> Option<CellModel> {
    match literal {
        Some(v) => Some(v@),
        None => None,
    }
}

/// What an assignment of `formula` (and `literal`) at `target` did, from
/// graph `g0`, cells `a0`, formulas `fs0` and state `s0` to `g1`, `a1`,
/// `fs1`, `s1`, answering `r`: on success the formula stands and every cell
/// reachable from the target has been recomputed in a topological order; on
/// a cycle everything is as before. The state keeps the target's previous
/// value and formula, and changes nothing else but the cycle flag (raised on
/// a cycle) and the seconds of SLEEP (those of the recomputation).
pub open spec fn assigned(
    target: int,
    formula: Formula,
    literal: Option<CellModel>,
    cols: int,
    g0: Graph,
    a0: Seq<Cell>,
    fs0: Seq<Formula>,
    s0: State,
    g1: Graph,
    a1: Seq<Cell>,
    fs1: Seq<Formula>,
    s1: State,
    r: Result<(), &'static str>,
) -> bool {
    &&& g1.size() == g0.size()
    &&& s1.num_cells == s0.num_cells
    &&& s1.old_value == a0[target] && s1.old_op_type == fs0[target].op_type && s1.old_op_info1 == fs0[target].op_info1
        && s1.old_op_info2 == fs0[target].op_info2
    &&& grid_ok(g1, cols, a1, fs1)
    &&& consistent(g1, fs1)
    &&& match r {
        Ok(()) => {
            &&& fs1 == fs0.update(target, formula)
            &&& s1.has_cycle == s0.has_cycle
            &&& exists|order: Seq<i32>|
                topo_order(g1, cols, target, order) && models(a1) == apply_all(
                    order,
                    seeded(models(a0), target, literal),
                    fs1,
                    cols,
                ) && s1.sleep_seconds == sleep_total(order, seeded(models(a0), target, literal), fs1, cols)
        },
        Err(e) => {
            &&& e == "Circular dependency detected"
            &&& exists|g: Graph|
                g.wf() && g.size() == g0.size() && consistent(g, fs0.update(target, formula)) && cycle_from(g, cols, target)
            &&& s1.has_cycle
            &&& s1.sleep_seconds == s0.sleep_seconds
            &&& a1 == a0
            &&& fs1 == fs0
            &&& g1.edge_sets() == g0.edge_sets()
            &&& g1.range_set() == g0.range_set()
        },
    }
}

/// Installs `formula` at `target` (with `literal` as the cell's value when
/// given), recomputes everything that depends on `target`, and on a cycle
/// restores the target's value, formula, edges and subscription.
pub fn assign(
    target: i32,
    formula: Formula,
    literal: Option<Cell>,
    cols: i32,
    arr: &mut Vec<Cell>,
    graph: &mut Graph,
    formula_array: &mut Vec<Formula>,
    state: &mut State,
) -> (r: Result<(), &'static str>)
    requires
        grid_ok(*old(graph), cols as int, old(arr)@, old(formula_array)@),
        consistent(*old(graph), old(formula_array)@),
        0 <= target < old(graph).size(),
        formula_wf(formula, target as int, old(graph).size()),
        literal matches Some(v) ==> v.wf(),
    ensures
        assigned(
            target as int,
            formula,
            lit_model(literal),
            cols as int,
            *old(graph),
            old(arr)@,
            old(formula_array)@,
            *old(state),
            *final(graph),
            final(arr)@,
            final(formula_array)@,
            *final(state),
            r,
        ),
{
    let ghost g0 = *graph;
    let ghost fs0 = formula_array@;
    let ghost a0 = arr@;
    let old_f = formula_array[target as usize];
    let old_v = arr[target as usize].clone();
    state.old_value = arr[target as usize].clone();
    state.old_op_type = old_f.op_type;
    state.old_op_info1 = old_f.op_info1;
    state.old_op_info2 = old_f.op_info2;
    graph.delete_edge(target, cols, formula_array);
    let ghost g1 = *graph;
    formula_array.set(target as usize, formula);
    match literal {
        Some(v) => {
            arr.set(target as usize, v);
        },
        None => {},
    }
    let ghost a1 = arr@;
    proof {
        assert(models(a1) == seeded(models(a0), target as int, lit_model(literal))) by {
            match literal {
                Some(v) => {
                    crate::cell::lemma_models_update(a0, target as int, v);
                },
                None => {},
            }
        }
    }
    graph.add_edge_formula(target, cols, formula_array);
    proof {
        lemma_install(g0, g1, *graph, fs0, target as int, formula);
        assert(formula_array@ == fs0.update(target as int, formula));
    }
    match graph.recalc(cols, arr, target, formula_array, state) {
        Ok(()) => Ok(()),
        Err(_) => {
            let ghost g2 = *graph;
            graph.delete_edge(target, cols, formula_array);
            let ghost g3 = *graph;
            formula_array.set(target as usize, old_f);
            arr.set(target as usize, old_v);
            graph.add_edge_formula(target, cols, formula_array);
            proof {
                assert(formula_array@ =~= fs0);
                assert(arr@ =~= a0);
                lemma_rollback(g0, g1, g2, g3, *graph, fs0, target as int, formula);
            }
            Err("Circular dependency detected")
        },
    }
}

} // verus!
