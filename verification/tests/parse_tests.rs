use tower_grid::cli::{check_id_range, input_size_from_string, InputType};
use tower_grid::grid::Grid;
use tower_grid::parse::{
    grid_from_problem_text, parse_decimal_micros, parse_i32_token, penalty_micros_from_text,
    should_overwrite, strip_comment_lines, tokenize, towers_from_text,
};
use tower_grid::point::Point;
use tower_grid::text::{i32_to_string, micros_to_string, u64_to_string};

#[test]
fn penalty_header_parses_to_micros() {
    let text = b"# Penalty = 500.0\n2\n0 0\n1 1\n";
    assert_eq!(penalty_micros_from_text(text), Some(500_000_000));
    let more = b"# Penalty = 499.999999\n0\n";
    assert_eq!(penalty_micros_from_text(more), Some(499_999_999));
    // No fourth token on the first line.
    assert_eq!(penalty_micros_from_text(b"# Penalty =\n500.0\n"), None);
    assert_eq!(penalty_micros_from_text(b""), None);
    assert_eq!(penalty_micros_from_text(b"# Penalty = abc\n"), None);
}

#[test]
fn overwrite_only_on_strict_improvement() {
    // A stored penalty of 500.0 is kept against an equal or worse candidate
    // and replaced by a strictly better one.
    let existing = penalty_micros_from_text(b"# Penalty = 500.0\n0\n");
    assert_eq!(existing, Some(500_000_000));
    assert!(!should_overwrite(existing, 500_000_000));
    assert!(!should_overwrite(existing, 500_000_001));
    assert!(should_overwrite(existing, 499_999_999));
    // With no stored solution, any candidate is written.
    assert!(should_overwrite(None, 1_000_000_000));
}

#[test]
fn decimal_micros_shapes() {
    let t = b"500. .5 0.12345678 7 -3";
    let spans = tokenize(t, 0);
    assert_eq!(parse_decimal_micros(t, spans[0].0, spans[0].1), Some(500_000_000));
    assert_eq!(parse_decimal_micros(t, spans[1].0, spans[1].1), Some(500_000));
    // Fraction digits beyond the sixth are ignored.
    assert_eq!(parse_decimal_micros(t, spans[2].0, spans[2].1), Some(123_456));
    assert_eq!(parse_decimal_micros(t, spans[3].0, spans[3].1), Some(7_000_000));
    // A sign is not part of a penalty value.
    assert_eq!(parse_decimal_micros(t, spans[4].0, spans[4].1), None);
}

#[test]
fn integer_tokens() {
    let t = b"12 -7 2147483647 2147483648 -2147483648 1x";
    let spans = tokenize(t, 0);
    assert_eq!(parse_i32_token(t, spans[0].0, spans[0].1), Some(12));
    assert_eq!(parse_i32_token(t, spans[1].0, spans[1].1), Some(-7));
    assert_eq!(parse_i32_token(t, spans[2].0, spans[2].1), Some(2147483647));
    assert_eq!(parse_i32_token(t, spans[3].0, spans[3].1), None);
    assert_eq!(parse_i32_token(t, spans[4].0, spans[4].1), Some(-2147483648));
    assert_eq!(parse_i32_token(t, spans[5].0, spans[5].1), None);
}

#[test]
fn tokenizer_spans() {
    let t = b"  ab\n cd  \n";
    let spans = tokenize(t, 0);
    assert_eq!(spans, vec![(2, 4), (6, 8)]);
    assert_eq!(tokenize(b"", 0), vec![]);
    assert_eq!(tokenize(b"   \n ", 0), vec![]);
}

#[test]
fn comment_lines_are_dropped() {
    let out = strip_comment_lines(b"# header\n3\n# another comment\n4 5\n");
    assert_eq!(out, b"3\n4 5\n".to_vec());
    // Only a first token that is exactly `#` makes a comment.
    let kept = strip_comment_lines(b"#5\n1\n");
    assert_eq!(kept, b"#5\n1\n".to_vec());
}

#[test]
fn solution_towers_parse() {
    let text = b"# Penalty = 170.0\n3\n0 0\n2 3\n4 4\n";
    let towers = towers_from_text(text).unwrap();
    assert_eq!(
        towers,
        vec![Point { x: 0, y: 0 }, Point { x: 2, y: 3 }, Point { x: 4, y: 4 }]
    );
    // A dangling coordinate is rejected.
    assert_eq!(towers_from_text(b"# Penalty = 1.0\n1\n3\n"), None);
    // A file with only the two header lines holds no towers.
    assert_eq!(towers_from_text(b"# Penalty = 1.0\n0\n").unwrap(), vec![]);
}

#[test]
fn problem_text_builds_grid() {
    let text = b"# an instance\n3\n10\n2\n3\n0 0\n5 5\n9 9\n";
    let g = grid_from_problem_text(text).unwrap();
    assert_eq!(g.dimension(), 10);
    assert_eq!(g.service_radius(), 2);
    assert_eq!(g.penalty_radius(), 3);
    let cities: Vec<Point> = g.get_cities_ref().iter().map(|e| e.pos).collect();
    assert_eq!(
        cities,
        vec![Point { x: 0, y: 0 }, Point { x: 5, y: 5 }, Point { x: 9, y: 9 }]
    );
    assert_eq!(g.get_towers_ref().len(), 0);
}

#[test]
fn problem_text_rejections() {
    // Too few header tokens.
    assert!(grid_from_problem_text(b"3\n10\n2\n").is_none());
    // A dimension that does not fit in a byte.
    assert!(grid_from_problem_text(b"1\n300\n2\n3\n0 0\n").is_none());
    // A city outside the grid.
    assert!(grid_from_problem_text(b"1\n10\n2\n3\n10 0\n").is_none());
    // A repeated city.
    assert!(grid_from_problem_text(b"2\n10\n2\n3\n1 1\n1 1\n").is_none());
    // Fewer city lines than the count announces.
    assert!(grid_from_problem_text(b"2\n10\n2\n3\n1 1\n").is_none());
}

#[test]
fn solution_file_round_trip() {
    let mut g = Grid::new(6, 2, 2);
    g.add_city(1, 1).unwrap();
    g.add_tower(1, 2).unwrap();
    g.add_tower(4, 4).unwrap();
    let text = g.output(340_000_000);
    let bytes = text.as_bytes();
    assert_eq!(penalty_micros_from_text(bytes), Some(340_000_000));
    let towers = towers_from_text(bytes).unwrap();
    assert_eq!(towers, vec![Point { x: 1, y: 2 }, Point { x: 4, y: 4 }]);
}

#[test]
fn output_text_is_exact() {
    let mut g = Grid::new(2, 1, 1);
    g.add_tower(0, 0).unwrap();
    g.add_tower(1, 1).unwrap();
    let text = g.output(170_000_000);
    assert_eq!(text, "# Penalty = 170.000000\n2\n0 0\n1 1\n");
}

#[test]
fn number_rendering() {
    assert_eq!(u64_to_string(0), "0");
    assert_eq!(u64_to_string(90210), "90210");
    assert_eq!(i32_to_string(-45), "-45");
    assert_eq!(i32_to_string(7), "7");
    assert_eq!(micros_to_string(499_999_999), "499.999999");
    assert_eq!(micros_to_string(1), "0.000001");
    assert_eq!(Point { x: 3, y: 4 }.file_string(), "3 4");
    assert_eq!(Point { x: -1, y: 0 }.file_string(), "-1 0");
}

#[test]
fn id_range_check() {
    assert_eq!(check_id_range(1), Ok(true));
    assert_eq!(check_id_range(239), Ok(true));
    assert!(check_id_range(0).is_err());
    assert!(check_id_range(240).is_err());
}

#[test]
fn input_sizes_parse() {
    assert_eq!(input_size_from_string("small").unwrap(), InputType::Small);
    assert_eq!(input_size_from_string("s").unwrap(), InputType::Small);
    assert_eq!(input_size_from_string("medium").unwrap(), InputType::Medium);
    assert_eq!(input_size_from_string("m").unwrap(), InputType::Medium);
    assert_eq!(input_size_from_string("large").unwrap(), InputType::Large);
    assert_eq!(input_size_from_string("l").unwrap(), InputType::Large);
    assert!(input_size_from_string("tiny").is_err());
}
