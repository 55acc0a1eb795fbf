use sheet::collab::{adopt_remote, merge_column, Column};
use sheet::messages::{parse_cell_coordinates, ServerConfig};

fn col(peer: &str, ts: usize, value: &str) -> Column {
    Column { peer: peer.to_string(), timestamp: ts, idx: 0, value: value.to_string() }
}

#[test]
fn newer_remote_wins() {
    let mut local = col("a", 1, "x");
    merge_column(&mut local, &col("b", 2, "y"), false);
    assert_eq!(local.value, "y");
    assert_eq!(local.peer, "b");
    assert_eq!(local.timestamp, 2);
}

#[test]
fn older_remote_loses() {
    let mut local = col("a", 5, "x");
    merge_column(&mut local, &col("b", 2, "y"), true);
    assert_eq!(local.value, "x");
}

#[test]
fn ties_follow_the_coin() {
    assert!(adopt_remote(3, 3, true));
    assert!(!adopt_remote(3, 3, false));
    let mut local = col("a", 3, "x");
    merge_column(&mut local, &col("b", 3, "y"), true);
    assert_eq!(local.value, "y");
}

#[test]
fn coordinates_parse() {
    assert_eq!(parse_cell_coordinates("3,4"), Ok((3, 4)));
    assert_eq!(parse_cell_coordinates(" 10 , 2 "), Ok((10, 2)));
    assert_eq!(parse_cell_coordinates("3"), Err("Invalid cell coordinate format"));
    assert_eq!(parse_cell_coordinates("1,2,3"), Err("Invalid cell coordinate format"));
    assert_eq!(parse_cell_coordinates("x,2"), Err("Invalid row"));
    assert_eq!(parse_cell_coordinates("2,"), Err("Invalid column"));
}

#[test]
fn default_config() {
    assert_eq!(ServerConfig::default().expiry_days, 1);
}

#[test]
fn blank_grid_and_local_edit() {
    let g = sheet::collab::init_data(3, 4);
    assert_eq!(g.len(), 3);
    assert_eq!(g[2].idx, 2);
    assert_eq!(g[2].columns.len(), 4);
    assert_eq!(g[1].columns[3].idx, 3);
    assert_eq!(g[1].columns[3].timestamp, 0);
    let e = sheet::collab::edit_column(&g[0].columns[1], "bob", "hi").unwrap();
    assert_eq!(e.timestamp, 1);
    assert_eq!(e.peer, "bob");
    assert_eq!(e.value, "hi");
    assert_eq!(e.idx, 1);
    let top = Column { peer: String::new(), timestamp: usize::MAX, idx: 0, value: String::new() };
    assert!(sheet::collab::edit_column(&top, "a", "b").is_none());
}

#[test]
fn coordinates_accept_plus_and_unicode_spaces() {
    assert_eq!(parse_cell_coordinates("+3,4"), Ok((3, 4)));
    assert_eq!(parse_cell_coordinates("+3,x"), Err("Invalid column"));
    assert_eq!(parse_cell_coordinates("\u{0B}3\u{0C},\u{A0}4\u{3000}"), Ok((3, 4)));
    assert_eq!(parse_cell_coordinates("+,4"), Err("Invalid row"));
    assert_eq!(parse_cell_coordinates("-1,4"), Err("Invalid row"));
    assert_eq!(parse_cell_coordinates("4294967296,1"), "4294967296,1".split(',').next().unwrap().parse::<usize>().map(|r| (r, 1)).map_err(|_| "Invalid row"));
}
