use sheet::cell::{Cell, CellValue, Fraction};
use sheet::graph::{Formula, Graph, State};
use sheet::history::Sheet;
use sheet::autofill::{detect_pattern, generate_sequence};
use sheet::range::range_eval;
use sheet::viewport::scroller;

fn sheet5() -> Sheet {
    Sheet::new(5, 5, 0)
}

fn run(s: &mut Sheet, line: &str) -> Result<(), &'static str> {
    s.execute(line)
}

#[test]
fn assignment_then_reference() {
    let mut s = sheet5();
    assert_eq!(run(&mut s, "A1=5"), Ok(()));
    assert_eq!(run(&mut s, "B1=A1+3"), Ok(()));
    assert_eq!(s.arr[0], Cell::new_int(5));
    assert_eq!(s.arr[1], Cell::new_int(8));
}

#[test]
fn forward_recompute() {
    let mut s = sheet5();
    run(&mut s, "A1=5").unwrap();
    run(&mut s, "B1=A1+3").unwrap();
    assert_eq!(run(&mut s, "A1=10"), Ok(()));
    assert_eq!(s.arr[0], Cell::new_int(10));
    assert_eq!(s.arr[1], Cell::new_int(13));
}

#[test]
fn cycle_is_refused_and_rolled_back() {
    let mut s = sheet5();
    run(&mut s, "A1=B1").unwrap();
    let cells = s.arr.clone();
    let formulas = s.formula_array.clone();
    let lists = s.graph.adj_lists.clone();
    let ranges = s.graph.ranges.clone();
    assert_eq!(run(&mut s, "B1=A1"), Err("Circular dependency detected"));
    assert!(s.state.has_cycle);
    assert_eq!(s.arr, cells);
    assert_eq!(s.formula_array, formulas);
    assert_eq!(s.graph.adj_lists, lists);
    assert_eq!(s.graph.ranges, ranges);
}

#[test]
fn division_by_zero_is_invalid() {
    let mut s = sheet5();
    run(&mut s, "A1=10").unwrap();
    run(&mut s, "B1=0").unwrap();
    assert_eq!(run(&mut s, "C1=A1/B1"), Ok(()));
    assert!(!s.arr[2].is_valid);
}

#[test]
fn sum_recomputes_when_a_source_changes() {
    let mut s = sheet5();
    for line in ["A1=1", "A2=2", "A3=3", "A4=4"] {
        run(&mut s, line).unwrap();
    }
    run(&mut s, "A5=SUM(A1:A4)").unwrap();
    assert_eq!(s.arr[20], Cell::new_int(10));
    run(&mut s, "A2=20").unwrap();
    assert_eq!(s.arr[20], Cell::new_int(28));
}

#[test]
fn autofill_extends_column() {
    let mut s = Sheet::new(6, 5, 0);
    for line in ["A1=1", "A2=2", "A3=3", "A4=4"] {
        run(&mut s, line).unwrap();
    }
    assert_eq!(run(&mut s, "=autofill A 6"), Ok(()));
    assert_eq!(s.arr[20], Cell::new_int(5));
    assert_eq!(s.arr[25], Cell::new_int(6));
}

#[test]
fn strings_concatenate_and_refuse_minus() {
    let mut s = sheet5();
    run(&mut s, "A1=\"hi\"").unwrap();
    run(&mut s, "A2=\"there\"").unwrap();
    run(&mut s, "A3=A1+A2").unwrap();
    assert_eq!(s.arr[10], Cell::new_string("hithere".to_string()));
    run(&mut s, "A4=A1-A2").unwrap();
    assert!(!s.arr[15].is_valid);
}

#[test]
fn sleep_reports_its_seconds() {
    let mut s = sheet5();
    run(&mut s, "A1=3").unwrap();
    run(&mut s, "B1=SLEEP(A1)").unwrap();
    assert_eq!(s.arr[1], Cell::new_int(3));
    assert_eq!(s.state.sleep_seconds, 3);
    run(&mut s, "A1=0").unwrap();
    assert_eq!(s.arr[1], Cell::new_int(0));
    assert_eq!(s.state.sleep_seconds, 0);
}

#[test]
fn undo_and_redo_are_inverse() {
    let mut s = sheet5();
    run(&mut s, "A1=5").unwrap();
    let before = (s.arr.clone(), s.formula_array.clone(), s.graph.adj_lists.clone());
    run(&mut s, "B1=A1*2").unwrap();
    let after = (s.arr.clone(), s.formula_array.clone(), s.graph.adj_lists.clone());
    assert_eq!(run(&mut s, "undo"), Ok(()));
    assert_eq!((s.arr.clone(), s.formula_array.clone(), s.graph.adj_lists.clone()), before);
    assert_eq!(run(&mut s, "redo"), Ok(()));
    assert_eq!((s.arr.clone(), s.formula_array.clone(), s.graph.adj_lists.clone()), after);
    assert_eq!(s.arr[1], Cell::new_int(10));
}

#[test]
fn empty_history_reports() {
    let mut s = sheet5();
    assert_eq!(run(&mut s, "undo"), Err("Nothing to undo"));
    assert_eq!(run(&mut s, "redo"), Err("Nothing to redo"));
}

#[test]
fn history_is_bounded() {
    let mut s = Sheet::new(5, 5, 2);
    for line in ["A1=1", "A1=2", "A1=3", "A1=4"] {
        run(&mut s, line).unwrap();
    }
    assert_eq!(s.undo_stack.len(), 2);
    run(&mut s, "undo").unwrap();
    run(&mut s, "undo").unwrap();
    assert_eq!(s.arr[0], Cell::new_int(2));
    assert_eq!(run(&mut s, "undo"), Err("Nothing to undo"));
}

#[test]
fn new_command_clears_redo() {
    let mut s = sheet5();
    run(&mut s, "A1=1").unwrap();
    run(&mut s, "undo").unwrap();
    run(&mut s, "A2=2").unwrap();
    assert_eq!(run(&mut s, "redo"), Err("Nothing to redo"));
}

#[test]
fn range_corners_in_either_order() {
    let mut arr = vec![Cell::new_int(0); 25];
    arr[0] = Cell::new_int(4);
    arr[1] = Cell::new_int(-7);
    arr[5] = Cell::new_int(9);
    arr[6] = Cell::new_int(2);
    for tag in 9..=13 {
        assert_eq!(range_eval(&arr, 5, 0, 6, tag), range_eval(&arr, 5, 6, 0, tag));
        assert_eq!(range_eval(&arr, 5, 1, 5, tag), range_eval(&arr, 5, 5, 1, tag));
    }
    assert_eq!(range_eval(&arr, 5, 6, 0, 12), Cell::new_int(8));
    assert_eq!(range_eval(&arr, 5, 5, 1, 9), Cell::new_int(-7));
    assert_eq!(range_eval(&arr, 5, 0, 6, 10), Cell::new_int(9));
}

#[test]
fn aggregates_exact_values() {
    let mut arr = vec![Cell::new_int(0); 10];
    for (i, v) in [2, 4, 4, 4, 5, 5, 7, 9].iter().enumerate() {
        arr[i] = Cell::new_int(*v);
    }
    assert_eq!(range_eval(&arr, 10, 0, 7, 13), Cell::new_int(2));
    assert_eq!(range_eval(&arr, 10, 0, 7, 11), Cell::new_int(5));
    assert_eq!(range_eval(&arr, 10, 0, 1, 11), Cell::new_int(3));
    assert_eq!(range_eval(&arr, 10, 0, 2, 11), Cell::new_float(Fraction::new(10, 3)));
    assert_eq!(range_eval(&arr, 10, 0, 2, 12), Cell::new_int(10));
    arr[3] = Cell::new_float(Fraction::new(1, 2));
    assert_eq!(range_eval(&arr, 10, 0, 3, 12), Cell::new_float(Fraction::new(21, 2)));
    assert_eq!(range_eval(&arr, 10, 0, 3, 9), Cell::new_float(Fraction::new(1, 2)));
    assert_eq!(range_eval(&arr, 10, 0, 3, 13), Cell::new_int(1));
    arr[4] = Cell::new_string("x".to_string());
    assert!(!range_eval(&arr, 10, 0, 5, 12).is_valid);
}

#[test]
fn stdev_rounds_to_nearest() {
    let mut arr = vec![Cell::new_int(0); 4];
    arr[0] = Cell::new_int(1);
    arr[1] = Cell::new_int(2);
    assert_eq!(range_eval(&arr, 4, 0, 1, 13), Cell::new_int(1));
    arr[1] = Cell::new_int(1);
    assert_eq!(range_eval(&arr, 4, 0, 1, 13), Cell::new_int(0));
    arr[1] = Cell::new_int(4);
    arr[2] = Cell::new_int(7);
    assert_eq!(range_eval(&arr, 4, 0, 2, 13), Cell::new_int(2));
}

#[test]
fn invalid_propagates_along_a_chain() {
    let mut s = sheet5();
    run(&mut s, "A1=1").unwrap();
    run(&mut s, "B1=A1+1").unwrap();
    run(&mut s, "C1=B1*2").unwrap();
    run(&mut s, "D1=SUM(A1:C1)").unwrap();
    assert_eq!(s.arr[3], Cell::new_int(7));
    run(&mut s, "A1=1/0").unwrap();
    assert!(!s.arr[0].is_valid);
    assert!(!s.arr[1].is_valid);
    assert!(!s.arr[2].is_valid);
    assert!(!s.arr[3].is_valid);
}

#[test]
fn edges_follow_formulas() {
    let mut s = sheet5();
    run(&mut s, "C1=A1+B1").unwrap();
    assert_eq!(s.graph.adj_lists[0], vec![2]);
    assert_eq!(s.graph.adj_lists[1], vec![2]);
    run(&mut s, "C1=A1+A1").unwrap();
    assert_eq!(s.graph.adj_lists[0], vec![2]);
    assert!(s.graph.adj_lists[1].is_empty());
    run(&mut s, "C1=SUM(A1:B1)").unwrap();
    assert!(s.graph.adj_lists[0].is_empty());
    assert_eq!(s.graph.ranges.len(), 1);
    run(&mut s, "C1=MAX(A2:B2)").unwrap();
    assert_eq!(s.graph.ranges.len(), 1);
    assert_eq!(s.graph.ranges[0].start_cell, 5);
    run(&mut s, "C1=7").unwrap();
    assert!(s.graph.ranges.is_empty());
    assert_eq!(s.formula_array[2], Formula { op_type: 0, op_info1: 7, op_info2: -1 });
}

#[test]
fn recompute_order_is_topological() {
    let mut s = sheet5();
    run(&mut s, "B1=A1+1").unwrap();
    run(&mut s, "C1=B1+A1").unwrap();
    run(&mut s, "D1=SUM(B1:C1)").unwrap();
    let mut state = State::new();
    let order = s.graph.topo_sort_from_cell(0, 5, &mut state).unwrap();
    let pos = |c: i32| order.iter().position(|&x| x == c).unwrap();
    assert_eq!(order[0], 0);
    assert!(pos(0) < pos(1));
    assert!(pos(1) < pos(2));
    assert!(pos(2) < pos(3));
    assert!(pos(1) < pos(3));
}

#[test]
fn parse_errors_leave_grid_alone() {
    let mut s = sheet5();
    run(&mut s, "A1=4").unwrap();
    let cells = s.arr.clone();
    assert_eq!(run(&mut s, "A1"), Err("No equals sign found"));
    assert_eq!(run(&mut s, "A1=SUM(B1:B2)+1"), Err("Invalid input: Cannot mix function and arithmetic"));
    assert_eq!(run(&mut s, "A2=3-A1"), Err("Unsupported expression: constant minus cell"));
    assert_eq!(run(&mut s, "A2=99999999999"), Err("Invalid integer"));
    assert_eq!(run(&mut s, "A2=1.2.3"), Err("Invalid float"));
    assert_eq!(run(&mut s, "A2=-A1"), Err("Unsupported expression: negated cell"));
    assert_eq!(run(&mut s, "A2=-A1+1"), Err("Unsupported expression: negated cell"));
    assert_eq!(run(&mut s, "A2=SLEEP(x)"), Err("Invalid sleep value"));
    assert_eq!(run(&mut s, "=autofill A x"), Err("Invalid length"));
    assert_eq!(run(&mut s, "=autofill 1 5"), Err("Column index out of bounds"));
    assert_eq!(run(&mut s, "=autofill F 5"), Err("Column index out of bounds"));
    assert_eq!(run(&mut s, "A9=1"), Err("Cell reference out of bounds"));
    assert_eq!(s.arr, cells);
}

#[test]
fn autofill_needs_valid_seeds() {
    let mut s = sheet5();
    run(&mut s, "A2=1/0").unwrap();
    assert_eq!(run(&mut s, "=autofill A 5"), Err("Autofill needs four valid integers"));
}

#[test]
fn autofill_errors() {
    let mut s = sheet5();
    for line in ["A1=1", "A2=2", "A3=4", "A4=7"] {
        run(&mut s, line).unwrap();
    }
    assert_eq!(run(&mut s, "=autofill A 5"), Err("Pattern not recognised"));
    run(&mut s, "A4=\"x\"").unwrap();
    assert_eq!(run(&mut s, "=autofill A 5"), Err("Only integer autofill supported"));
}

#[test]
fn literals_and_operand_orders() {
    let mut s = sheet5();
    run(&mut s, "A1=-2.5").unwrap();
    assert_eq!(s.arr[0], Cell::new_float(Fraction::new(-5, 2)));
    run(&mut s, "B1=4").unwrap();
    run(&mut s, "C1=2+B1").unwrap();
    assert_eq!(s.arr[2], Cell::new_int(6));
    run(&mut s, "C1=3*B1").unwrap();
    assert_eq!(s.arr[2], Cell::new_int(12));
    run(&mut s, "C1=2/B1").unwrap();
    assert_eq!(s.arr[2], Cell::new_float(Fraction::new(1, 2)));
    run(&mut s, "C1=A1*B1").unwrap();
    assert_eq!(s.arr[2], Cell::new_float(Fraction::new(-10, 1)));
    run(&mut s, "C1=-3+1").unwrap();
    assert_eq!(s.arr[2], Cell::new_int(-2));
    assert_eq!(s.arr[2].value, CellValue::Int(-2));
    assert_eq!(run(&mut s, "w"), Ok(()));
}

#[test]
fn self_sleep_is_a_cycle() {
    let mut s = sheet5();
    assert_eq!(run(&mut s, "A1=SLEEP(A1)"), Err("Circular dependency detected"));
    assert_eq!(run(&mut s, "A1=SLEEP(-2)"), Ok(()));
    assert_eq!(s.arr[0], Cell::new_int(-2));
    assert_eq!(s.state.sleep_seconds, 0);
}

#[test]
fn new_graph_is_empty() {
    let g = Graph::new(4);
    assert_eq!(g.adj_lists.len(), 4);
    assert!(g.ranges.is_empty());
}

#[test]
fn viewport_moves_by_pages() {
    let arr = vec![Cell::new_int(0); 25 * 30];
    let g = Graph::new(25 * 30);
    let (mut x, mut y) = (0, 0);
    assert_eq!(scroller("d", &arr, &mut x, &mut y, 25, 30, &g), Ok(()));
    assert_eq!((x, y), (10, 0));
    assert_eq!(scroller("d", &arr, &mut x, &mut y, 25, 30, &g), Ok(()));
    assert_eq!((x, y), (15, 0));
    assert_eq!(scroller("s", &arr, &mut x, &mut y, 25, 30, &g), Ok(()));
    assert_eq!((x, y), (15, 10));
    assert_eq!(scroller("a", &arr, &mut x, &mut y, 25, 30, &g), Ok(()));
    assert_eq!((x, y), (5, 10));
    assert_eq!(scroller("w", &arr, &mut x, &mut y, 25, 30, &g), Ok(()));
    assert_eq!((x, y), (5, 0));
    assert_eq!(scroller("scroll_to C7", &arr, &mut x, &mut y, 25, 30, &g), Ok(()));
    assert_eq!((x, y), (2, 6));
    assert_eq!(scroller("scroll_to  ", &arr, &mut x, &mut y, 25, 30, &g), Err("Invalid scroll_to format"));
    assert_eq!(scroller("scroll_to A1 B2", &arr, &mut x, &mut y, 25, 30, &g), Err("Invalid scroll_to format"));
    assert_eq!(scroller("scroll_to A99", &arr, &mut x, &mut y, 25, 30, &g), Err("Cell reference out of bounds"));
    assert_eq!(scroller("x", &arr, &mut x, &mut y, 25, 30, &g), Err("Unknown scroll command"));
    assert_eq!((x, y), (2, 6));
}

#[test]
fn pattern_names() {
    assert_eq!(detect_pattern(&vec![3, 3, 3, 3]), Some("AP".to_string()));
    assert_eq!(detect_pattern(&vec![1, 0, 0, 0]), Some("GP".to_string()));
    assert_eq!(detect_pattern(&vec![-3, 6, -12, 24]), Some("GP".to_string()));
    assert_eq!(detect_pattern(&vec![2, 3, 5, 8]), Some("FIB".to_string()));
}

#[test]
fn autofill_words_split_at_any_whitespace() {
    let mut s = Sheet::new(6, 5, 0);
    for line in ["A1=2", "A2=4", "A3=6", "A4=8"] {
        run(&mut s, line).unwrap();
    }
    assert_eq!(run(&mut s, "=autofill \t A   +6 "), Ok(()));
    assert_eq!(s.arr[20], Cell::new_int(10));
    assert_eq!(s.arr[25], Cell::new_int(12));
    assert_eq!(run(&mut s, "=autofill A 6 7"), Err("Usage: autofill <column> <length>"));
}

#[test]
fn sleep_of_text_is_invalid() {
    let mut s = sheet5();
    run(&mut s, "A1=\"x\"").unwrap();
    run(&mut s, "B1=SLEEP(A1)").unwrap();
    assert!(!s.arr[1].is_valid);
    assert_eq!(s.state.sleep_seconds, 0);
}

#[test]
fn new_sheet_has_literal_zero_formulas() {
    let s = sheet5();
    assert!(s.formula_array.iter().all(|f| *f == Formula { op_type: 0, op_info1: 0, op_info2: 0 }));
    assert!(s.graph.adj_lists.iter().all(|l| l.is_empty()));
    assert!(s.graph.ranges.is_empty());
}

#[test]
fn label_end_must_lie_in_the_input() {
    assert_eq!(sheet::label::cell_parser("A1", 10, 10, 0, 2), Err("Invalid cell reference"));
    assert_eq!(sheet::label::cell_parser("A1", 10, 10, 0, 1), Ok(0));
}

#[test]
fn deleting_a_dependent_keeps_the_order() {
    let mut g = Graph::new(5);
    g.add_edge(1, 0);
    g.add_edge(2, 0);
    g.add_edge(3, 0);
    g.delete_node(2, 0);
    assert_eq!(g.adj_lists[0], vec![1, 3]);
}

#[test]
fn small_fractions_stay_valid() {
    let tiny = Cell::new_float(Fraction::new(1, 1_000_000_000_000));
    let sum = sheet::arith::arithmetic_eval(tiny.clone(), tiny, '+');
    assert!(sum.is_valid);
    assert_eq!(sum, Cell::new_float(Fraction::new(1, 500_000_000_000)));
    let mut s = sheet5();
    run(&mut s, "A1=0.000000000001").unwrap();
    run(&mut s, "A2=0.000000000001").unwrap();
    run(&mut s, "A3=A1+A2").unwrap();
    assert!(s.arr[10].is_valid);
    assert_eq!(s.arr[10], Cell::new_float(Fraction::new(2, 1_000_000_000_000)));
}

#[test]
fn fractions_come_out_in_lowest_terms() {
    let half = Cell::new_float(Fraction::new(5, 10));
    let r = sheet::arith::arithmetic_eval(half.clone(), half, '*');
    if let CellValue::Float(f) = r.value {
        assert_eq!((f.num, f.den), (1, 4));
    } else {
        panic!("expected a fraction");
    }
}

#[test]
fn long_sums_of_halves() {
    let mut arr = vec![Cell::new_int(0); 20];
    for i in 0..19 {
        arr[i] = Cell::new_float(Fraction::new(5, 10));
    }
    assert_eq!(range_eval(&arr, 20, 0, 18, 12), Cell::new_float(Fraction::new(19, 2)));
    assert_eq!(range_eval(&arr, 20, 0, 18, 11), Cell::new_float(Fraction::new(1, 2)));
}

#[test]
fn short_seeds_where_the_pattern_allows() {
    assert_eq!(generate_sequence(&vec![7], "CONST", 3), vec![7, 7, 7]);
    assert_eq!(generate_sequence(&vec![], "XYZ", 3), Vec::<i32>::new());
    assert_eq!(generate_sequence(&vec![1], "FIB", 1), vec![1]);
}

#[test]
fn stdev_over_fractions() {
    let mut arr = vec![Cell::new_int(0); 4];
    arr[0] = Cell::new_float(Fraction::new(1, 2));
    arr[1] = Cell::new_float(Fraction::new(3, 2));
    assert_eq!(range_eval(&arr, 4, 0, 1, 13), Cell::new_int(1));
    arr[1] = Cell::new_float(Fraction::new(1, 2));
    assert_eq!(range_eval(&arr, 4, 0, 1, 13), Cell::new_int(0));
    arr[2] = Cell::new_float(Fraction::new(15, 2));
    assert_eq!(range_eval(&arr, 4, 0, 2, 13), Cell::new_int(3));
}

#[test]
fn decimal_literals_with_exponents_and_long_tails() {
    let mut s = sheet5();
    run(&mut s, "A1=1.5e3").unwrap();
    assert_eq!(s.arr[0], Cell::new_float(Fraction::new(1500, 1)));
    run(&mut s, "A1=2.5E2").unwrap();
    assert_eq!(s.arr[0], Cell::new_float(Fraction::new(250, 1)));
    run(&mut s, "A1=0.00000095367431640625").unwrap();
    assert_eq!(s.arr[0], Cell::new_float(Fraction::new(1, 1048576)));
    run(&mut s, "A1=1.0000000000000000000000000").unwrap();
    assert_eq!(s.arr[0], Cell::new_float(Fraction::new(1, 1)));
    run(&mut s, "A1=-.25").unwrap();
    assert_eq!(s.arr[0], Cell::new_float(Fraction::new(-1, 4)));
    assert_eq!(run(&mut s, "A1=1.5e40"), Ok(()));
    assert!(!s.arr[0].is_valid);
    assert_eq!(run(&mut s, "A1=1.5e"), Err("Invalid float"));
    assert_eq!(run(&mut s, "A1=."), Err("Invalid float"));
}
