use puzzles::grid::{find_marker, find_unique, line_count, line_width, parse_grid, row_count};
use puzzles::puzzle09::{check_maze, parse_maze};

#[test]
fn map_width_and_height() {
    assert_eq!(line_width(b"abc\ndef\n"), 3);
    assert_eq!(line_width(b"abc\r\nxyz"), 3);
    assert_eq!(line_count(b"abc\ndef\n"), 2);
    assert_eq!(row_count(b"abc\ndef\n"), Some(2));
    assert_eq!(row_count(b"abc\r\ndef"), Some(2));
    assert_eq!(row_count(b"abc\nde\n"), None);
    assert_eq!(row_count(b"ab\n\ncd"), None);
    assert_eq!(row_count(b""), None);
}

#[test]
fn grids_read_row_by_row() {
    let g = parse_grid(b"ab\ncd\n").unwrap();
    assert_eq!((g.width, g.height), (2, 2));
    assert_eq!(g.cells, b"abcd".to_vec());
    assert!(parse_grid(b"ab\nc\n").is_none());
}

#[test]
fn markers_are_found() {
    let g = parse_grid(b"#S#\n#E#\n").unwrap();
    assert_eq!(find_marker(&g.cells, b'S'), 1);
    assert_eq!(find_marker(&g.cells, b'E'), 4);
    assert_eq!(find_unique(&g.cells, b'X'), None);
    assert_eq!(find_unique(&g.cells, b'#'), None);
}

#[test]
fn mazes_need_walls_and_both_markers() {
    let m = parse_maze(b"#####\n#S.E#\n#####\n");
    assert_eq!((m.start, m.end), (6, 8));
    assert!(check_maze(b"#####\n#S.E#\n#####\n").is_some());
    assert!(check_maze(b"#####\n#S.E.\n#####\n").is_none());
    assert!(check_maze(b"#####\n#S..#\n#####\n").is_none());
    assert!(check_maze(b"#####\n#SSE#\n#####\n").is_none());
}
