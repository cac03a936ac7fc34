use netcrit::errors::input::CellError;
use netcrit::input::col_to_row_matrix;
use netcrit::input::create_graph;
use netcrit::input::get_from_str_cell;
use netcrit::input::get_string_cell;
use netcrit::input::parse_u32;
use netcrit::input::row_to_col_matrix;
use netcrit::network::Graph;

fn row(cells: &[&str]) -> Vec<String> {
    cells.iter().map(|c| c.to_string()).collect()
}

#[test]
fn parse_u32_reads_decimal_text() {
    assert_eq!(parse_u32("0"), Some(0));
    assert_eq!(parse_u32("42"), Some(42));
    assert_eq!(parse_u32("+7"), Some(7));
    assert_eq!(parse_u32("0040"), Some(40));
    assert_eq!(parse_u32("4294967295"), Some(u32::MAX));
}

#[test]
fn parse_u32_rejects_malformed_text() {
    assert_eq!(parse_u32(""), None);
    assert_eq!(parse_u32("+"), None);
    assert_eq!(parse_u32("abc"), None);
    assert_eq!(parse_u32("4 2"), None);
    assert_eq!(parse_u32(" 42"), None);
    assert_eq!(parse_u32("-1"), None);
    assert_eq!(parse_u32("4294967296"), None);
    assert_eq!(parse_u32("12x"), None);
}

#[test]
fn string_cell_is_trimmed() {
    let mut errors: Vec<CellError> = Vec::new();
    let r = row(&[" leaf ", "10"]);
    assert_eq!(get_string_cell(&r, (0, 0), 0, &mut errors), Some("leaf".to_string()));
    assert!(errors.is_empty());
}

#[test]
fn missing_cell_is_recorded() {
    let mut errors: Vec<CellError> = Vec::new();
    let r = row(&["leaf"]);
    assert_eq!(get_string_cell(&r, (3, 7), 3, &mut errors), None);
    assert_eq!(errors.len(), 1);
    match &errors[0] {
        CellError::NotFound(e) => assert_eq!(e.cell_pos, (3, 7)),
        CellError::NotNumeric(_) => panic!("expected a missing-cell failure"),
    }
}

#[test]
fn numeric_cell_is_parsed_after_trimming() {
    let mut errors: Vec<CellError> = Vec::new();
    let r = row(&["leaf", " 10 "]);
    assert_eq!(get_from_str_cell(&r, (1, 0), 1, &mut errors), Some(10));
    assert!(errors.is_empty());
}

#[test]
fn non_numeric_cell_is_recorded() {
    let mut errors: Vec<CellError> = Vec::new();
    let r = row(&["leaf", "ten"]);
    assert_eq!(get_from_str_cell(&r, (1, 4), 1, &mut errors), None);
    assert_eq!(errors.len(), 1);
    match &errors[0] {
        CellError::NotNumeric(e) => {
            assert_eq!(e.cell_pos, (1, 4));
            assert_eq!(e.cell_val, "ten");
        },
        CellError::NotFound(_) => panic!("expected a non-numeric failure"),
    }
}

#[test]
fn create_graph_builds_nodes_and_edges() {
    let matrix = vec![
        row(&["leaf", "10", "mid", "20"]),
        row(&["mid", "20", "top", "30"]),
    ];
    let (graph, edges) = create_graph(&matrix).unwrap();
    assert_eq!(edges, vec![(10, 20), (20, 30)]);
    assert_eq!(graph.get_node(&10).unwrap().name, "leaf");
    assert_eq!(graph.get_node(&20).unwrap().name, "mid");
    assert_eq!(graph.get_node(&30).unwrap().name, "top");
    assert!(graph.get_edge(10, 20).is_some());
    assert!(graph.get_edge(20, 30).is_some());
    assert!(graph.get_edge(10, 30).is_none());

    let lm = graph.links_map();
    assert_eq!(Graph::get_start_id(&lm).unwrap(), 10);
    assert_eq!(Graph::get_end_id(&lm).unwrap(), 30);
}

#[test]
fn create_graph_collects_cell_failures() {
    let matrix = vec![
        row(&["leaf", "10", "mid", "20"]),
        row(&["mid", "twenty", "top", "30"]),
        row(&["top", "30"]),
    ];
    let err = create_graph(&matrix).unwrap_err();
    assert_eq!(err.task, "creating a graph");
    assert!(err.errors.len() >= 3);
    assert_eq!(err.input.len(), 3);
}

#[test]
fn matrix_transposes_round_trip() {
    let rows = vec![row(&["a", "b", "c"]), row(&["d", "e", "f"])];
    let cols = row_to_col_matrix(&rows);
    assert_eq!(cols.len(), 3);
    assert_eq!(cols[0], row(&["a", "d"]));
    assert_eq!(cols[1], row(&["b", "e"]));
    assert_eq!(cols[2], row(&["c", "f"]));
    assert_eq!(col_to_row_matrix(&cols), rows);
}
