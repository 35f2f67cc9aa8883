use life_grid::cell::Cell;
use life_grid::pattern::Pattern;
use life_grid::pattern_parser::PatternParser;

fn coords(cells: &[Cell]) -> Vec<(u32, u32)> {
    cells.iter().map(|c| (c.row(), c.col())).collect()
}

#[test]
fn plaintext_decode_of_named_pattern() {
    let pattern = PatternParser::parse_cells_data("!Name: Test\n.O.\nOOO");
    assert_eq!(pattern.metadata(), vec!["!Name: Test".to_string()]);
    assert_eq!(pattern.name(), Some("Test".to_string()));
    assert_eq!(
        coords(&pattern.cells()),
        vec![(0, 1), (1, 0), (1, 1), (1, 2)]
    );
}

#[test]
fn plaintext_metadata_lines_do_not_advance_rows() {
    let pattern = PatternParser::parse_cells_data("!a\n.O\n!b\nO.");
    assert_eq!(
        pattern.metadata(),
        vec!["!a".to_string(), "!b".to_string()]
    );
    assert_eq!(coords(&pattern.cells()), vec![(0, 1), (1, 0)]);
}

#[test]
fn plaintext_any_character_but_dot_is_alive() {
    let pattern = PatternParser::parse_cells_data("*x.\n..#");
    assert_eq!(coords(&pattern.cells()), vec![(0, 0), (0, 1), (1, 2)]);
}

#[test]
fn plaintext_decode_of_empty_input() {
    let pattern = PatternParser::parse_cells_data("");
    assert!(pattern.metadata().is_empty());
    assert!(pattern.cells().is_empty());
    assert_eq!(pattern.name(), None);
}

#[test]
fn rle_decode_of_glider() {
    let pattern = PatternParser::parse_rle_data("#N Glider\nx = 3, y = 3\nbob$2bo$3o!");
    assert_eq!(
        pattern.metadata(),
        vec!["#N Glider".to_string(), "x = 3, y = 3".to_string()]
    );
    assert_eq!(pattern.name(), Some("Glider".to_string()));
    assert_eq!(
        coords(&pattern.cells()),
        vec![(0, 1), (1, 2), (2, 0), (2, 1), (2, 2)]
    );
}

#[test]
fn rle_counts_and_row_jumps() {
    // 3 alive, skip a row and 2 columns, 1 alive; upper-case tags count too
    let pattern = PatternParser::parse_rle_data("#c\nheader\n3O2$2bo!");
    assert_eq!(
        coords(&pattern.cells()),
        vec![(0, 0), (0, 1), (0, 2), (2, 2)]
    );
}

#[test]
fn rle_bang_ends_the_line_only() {
    let pattern = PatternParser::parse_rle_data("header\no!o\noo");
    assert_eq!(coords(&pattern.cells()), vec![(0, 0), (0, 1), (0, 2)]);
}

#[test]
fn rle_unknown_characters_are_ignored() {
    let pattern = PatternParser::parse_rle_data("header\no q2o");
    assert_eq!(coords(&pattern.cells()), vec![(0, 0), (0, 1), (0, 2)]);
}

#[test]
fn name_falls_back_to_first_metadata_line() {
    let pattern = Pattern::new(vec!["#just a comment".to_string()], vec![]);
    assert_eq!(pattern.name(), Some("just a comment".to_string()));
    let bare = Pattern::new(vec!["no marker".to_string()], vec![]);
    assert_eq!(bare.name(), None);
    let empty = Pattern::new(vec![], vec![]);
    assert_eq!(empty.name(), None);
}

#[test]
fn name_prefers_the_marker_line() {
    let pattern = Pattern::new(
        vec!["!comment".to_string(), "!Name:  Puffer ".to_string()],
        vec![],
    );
    assert_eq!(pattern.name(), Some("Puffer".to_string()));
}

#[test]
fn dimensions_pack_extents_into_a_cell() {
    let pattern = Pattern::new(
        vec![],
        vec![Cell::new(0, 1), Cell::new(4, 2), Cell::new(2, 7)],
    );
    let dims = pattern.dimensions();
    // the row slot carries the greatest column, the col slot the greatest row
    assert_eq!(dims.row(), 7);
    assert_eq!(dims.col(), 4);
}

#[test]
fn dimensions_of_an_empty_pattern() {
    let pattern = Pattern::new(vec![], vec![]);
    let dims = pattern.dimensions();
    assert_eq!((dims.row(), dims.col()), (0, 0));
}

#[test]
fn plaintext_decode_handles_crlf_line_endings() {
    let pattern = PatternParser::parse_cells_data("!Name: Test\r\n.O.\r\nOOO");
    assert_eq!(pattern.metadata(), vec!["!Name: Test".to_string()]);
    assert_eq!(pattern.name(), Some("Test".to_string()));
    assert_eq!(
        coords(&pattern.cells()),
        vec![(0, 1), (1, 0), (1, 1), (1, 2)]
    );
}

#[test]
fn rle_zero_count_tokens_step_by_one() {
    let pattern = PatternParser::parse_rle_data("header\nbo$o!");
    assert_eq!(coords(&pattern.cells()), vec![(0, 1), (1, 0)]);
}
