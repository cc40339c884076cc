use wireframe::obj::{parse_index, parse_obj, ParseError};
use wireframe::screen::Screen;

fn chars(s: &str) -> Vec<char> {
    s.chars().collect()
}

fn rows(screen: &Screen) -> Vec<String> {
    let text: String = screen.frame().into_iter().collect();
    text.lines().map(|l| l.to_string()).collect()
}

fn token_strings(record: &[Vec<char>]) -> Vec<String> {
    record.iter().map(|t| t.iter().collect()).collect()
}

#[test]
fn triangle_scenario() {
    // Vertices (0,0,5), (1,0,5), (0,1,5) at a field of view of 90 degrees on a
    // 10 x 10 canvas project to (5,5), (7,5) and (5,3).
    let mesh = parse_obj(&chars("v 0 0 5\nv 1 0 5\nv 0 1 5\nf 1 2 3\n")).unwrap();
    assert_eq!(mesh.vertices.len(), 3);
    assert_eq!(mesh.faces, vec![vec![1, 2, 3]]);
    let projected = vec![(5, 5), (7, 5), (5, 3)];
    let mut screen = Screen::new((10, 10));
    screen.draw_shape(&projected, &mesh.faces, '0');
    let frame = rows(&screen);
    assert_eq!(frame.len(), 10);
    assert!(frame.iter().all(|r| r.chars().count() == 10));
    for p in &projected {
        assert_eq!(screen.pixel(*p), Some('0'));
    }
    assert_eq!(screen.pixel((6, 5)), Some('0'));
    assert_eq!(screen.pixel((5, 4)), Some('0'));
    assert_eq!(screen.pixel((6, 4)), Some('0'));
    assert_eq!(screen.pixel((1, 1)), Some('_'));
    assert_eq!(screen.pixel((10, 10)), Some('_'));
    let drawn: usize = frame.iter().map(|r| r.chars().filter(|&c| c == '0').count()).sum();
    assert_eq!(drawn, 6);
    assert_eq!(frame.iter().map(|r| r.chars().filter(|&c| c == '_').count()).sum::<usize>(), 94);
}

#[test]
fn out_of_range_reference_skips_only_its_edges() {
    let projected = vec![(1, 1), (4, 1), (1, 4)];
    let faces = vec![vec![1, 2, 99]];
    let mut screen = Screen::new((4, 4));
    screen.draw_shape(&projected, &faces, '#');
    assert_eq!(rows(&screen), vec!["####", "____", "____", "____"]);
}

#[test]
fn zero_reference_is_skipped() {
    let projected = vec![(1, 1), (4, 1), (1, 4)];
    let faces = vec![vec![0, 2], vec![3, 1]];
    let mut screen = Screen::new((4, 4));
    screen.draw_shape(&projected, &faces, '#');
    assert_eq!(rows(&screen), vec!["#___", "#___", "#___", "#___"]);
}

#[test]
fn face_draws_each_edge_with_wrap_around() {
    let projected = vec![(1, 1), (5, 1), (5, 5), (1, 5)];
    let faces = vec![vec![1, 2, 3, 4]];
    let mut shape = Screen::new((5, 5));
    shape.draw_shape(&projected, &faces, '#');
    let mut lines = Screen::new((5, 5));
    lines.draw_line((1, 1), (5, 1), '#');
    lines.draw_line((5, 1), (5, 5), '#');
    lines.draw_line((5, 5), (1, 5), '#');
    lines.draw_line((1, 5), (1, 1), '#');
    assert_eq!(rows(&shape), rows(&lines));
    assert_eq!(rows(&shape), vec!["#####", "#___#", "#___#", "#___#", "#####"]);
}

#[test]
fn single_reference_face_draws_its_point() {
    let projected = vec![(2, 2)];
    let faces = vec![vec![1]];
    let mut screen = Screen::new((3, 3));
    screen.draw_shape(&projected, &faces, '#');
    assert_eq!(rows(&screen), vec!["___", "_#_", "___"]);
}

#[test]
fn no_faces_draws_nothing() {
    let projected = vec![(2, 2)];
    let mut screen = Screen::new((3, 3));
    screen.draw_shape(&projected, &vec![], '#');
    screen.draw_shape(&projected, &vec![vec![]], '#');
    assert_eq!(rows(&screen), vec!["___", "___", "___"]);
}

#[test]
fn parse_counts_vertex_lines_in_order() {
    let text = "# a comment\nv 1.5 -2 3e1\no name\nv 4 5 6 1.0\n\nvt 0 0\nf 1 2\n";
    let mesh = parse_obj(&chars(text)).unwrap();
    assert_eq!(mesh.vertices.len(), 2);
    assert_eq!(token_strings(&mesh.vertices[0]), vec!["1.5", "-2", "3e1"]);
    assert_eq!(token_strings(&mesh.vertices[1]), vec!["4", "5", "6", "1.0"]);
    assert_eq!(mesh.faces, vec![vec![1, 2]]);
}

#[test]
fn parse_splits_on_any_white_space() {
    let text = "  v\t1  2\r\n\u{a0}f 3\t+4  5 \r\nf\n";
    let mesh = parse_obj(&chars(text)).unwrap();
    assert_eq!(mesh.vertices.len(), 1);
    assert_eq!(token_strings(&mesh.vertices[0]), vec!["1", "2"]);
    assert_eq!(mesh.faces, vec![vec![3, 4, 5], vec![]]);
}

#[test]
fn parse_empty_text() {
    let mesh = parse_obj(&vec![]).unwrap();
    assert!(mesh.vertices.is_empty());
    assert!(mesh.faces.is_empty());
}

#[test]
fn parse_rejects_malformed_face_token() {
    assert_eq!(parse_obj(&chars("v 0 0 1\nf 1 x 2\n")).unwrap_err(), ParseError);
    assert_eq!(parse_obj(&chars("f 1/1/1 2/2/2 3/3/3\n")).unwrap_err(), ParseError);
    assert_eq!(parse_obj(&chars("f -1\n")).unwrap_err(), ParseError);
    assert_eq!(parse_obj(&chars("f 99999999999999999999999\n")).unwrap_err(), ParseError);
}

#[test]
fn parse_ignores_tokens_that_only_start_like_records() {
    let mesh = parse_obj(&chars("vn 1 2 3\nfoo x\nv\n")).unwrap();
    assert_eq!(mesh.vertices.len(), 1);
    assert!(mesh.vertices[0].is_empty());
    assert!(mesh.faces.is_empty());
}

#[test]
fn index_tokens() {
    assert_eq!(parse_index(&chars("0")), Some(0));
    assert_eq!(parse_index(&chars("42")), Some(42));
    assert_eq!(parse_index(&chars("+7")), Some(7));
    assert_eq!(parse_index(&chars("007")), Some(7));
    assert_eq!(parse_index(&chars(&usize::MAX.to_string())), Some(usize::MAX));
    assert_eq!(parse_index(&chars("18446744073709551616")), None);
    assert_eq!(parse_index(&chars("")), None);
    assert_eq!(parse_index(&chars("+")), None);
    assert_eq!(parse_index(&chars("++1")), None);
    assert_eq!(parse_index(&chars("-1")), None);
    assert_eq!(parse_index(&chars("1a")), None);
}
