use wireframe::screen::Screen;

fn rows(screen: &Screen) -> Vec<String> {
    let text: String = screen.frame().into_iter().collect();
    text.lines().map(|l| l.to_string()).collect()
}

fn marked(screen: &Screen, pixel: char) -> Vec<(usize, usize)> {
    let (w, h) = screen.resolution();
    let mut cells = vec![];
    for row in 1..=h {
        for col in 1..=w {
            if screen.pixel((col, row)) == Some(pixel) {
                cells.push((col, row));
            }
        }
    }
    cells
}

#[test]
fn new_screen_is_background() {
    let screen = Screen::new((4, 3));
    assert_eq!(screen.resolution(), (4, 3));
    assert_eq!(rows(&screen), vec!["____", "____", "____"]);
    assert_eq!(screen.pixel((1, 1)), Some('_'));
    assert_eq!(screen.pixel((4, 3)), Some('_'));
    assert_eq!(screen.pixel((5, 1)), None);
    assert_eq!(screen.pixel((0, 1)), None);
}

#[test]
fn frame_text_has_line_breaks() {
    let mut screen = Screen::new((3, 2));
    screen.draw_pixel((3, 2), '#');
    let text: String = screen.frame().into_iter().collect();
    assert_eq!(text, "___\n__#\n");
}

#[test]
fn empty_screen_frame() {
    let screen = Screen::new((0, 0));
    assert!(screen.frame().is_empty());
}

#[test]
fn pixel_is_one_based() {
    let mut screen = Screen::new((3, 3));
    screen.draw_pixel((1, 1), 'a');
    screen.draw_pixel((3, 2), 'b');
    assert_eq!(rows(&screen), vec!["a__", "__b", "___"]);
}

#[test]
fn pixel_at_zero_coordinate_is_dropped() {
    let mut screen = Screen::new((3, 3));
    screen.draw_pixel((0, 2), '#');
    screen.draw_pixel((2, 0), '#');
    screen.draw_pixel((0, 0), '#');
    assert_eq!(rows(&screen), vec!["___", "___", "___"]);
}

#[test]
fn pixel_off_canvas_is_dropped() {
    let mut screen = Screen::new((3, 3));
    screen.draw_pixel((4, 1), '#');
    screen.draw_pixel((1, 4), '#');
    screen.draw_pixel((usize::MAX, usize::MAX), '#');
    assert_eq!(rows(&screen), vec!["___", "___", "___"]);
}

#[test]
fn point_line_writes_one_cell() {
    let mut screen = Screen::new((5, 5));
    screen.draw_line((3, 4), (3, 4), '#');
    assert_eq!(marked(&screen, '#'), vec![(3, 4)]);
}

#[test]
fn point_line_off_canvas_writes_nothing() {
    let mut screen = Screen::new((5, 5));
    screen.draw_line((0, 4), (0, 4), '#');
    screen.draw_line((6, 6), (6, 6), '#');
    assert!(marked(&screen, '#').is_empty());
}

#[test]
fn shallow_rising_line() {
    let mut screen = Screen::new((6, 4));
    screen.draw_line((1, 1), (5, 3), '#');
    assert_eq!(marked(&screen, '#'), vec![(1, 1), (2, 2), (3, 2), (4, 3), (5, 3)]);
}

#[test]
fn shallow_falling_line_rounds_halves_up() {
    let mut screen = Screen::new((6, 4));
    screen.draw_line((1, 3), (5, 1), '#');
    assert_eq!(marked(&screen, '#'), vec![(5, 1), (3, 2), (4, 2), (1, 3), (2, 3)]);
}

#[test]
fn steep_line_walks_rows() {
    let mut screen = Screen::new((3, 6));
    screen.draw_line((1, 1), (2, 5), '#');
    assert_eq!(marked(&screen, '#'), vec![(1, 1), (1, 2), (2, 3), (2, 4), (2, 5)]);
}

#[test]
fn vertical_and_horizontal_lines() {
    let mut screen = Screen::new((4, 4));
    screen.draw_line((2, 4), (2, 1), '|');
    screen.draw_line((1, 3), (4, 3), '-');
    assert_eq!(rows(&screen), vec!["_|__", "_|__", "----", "_|__"]);
}

#[test]
fn diagonal_line() {
    let mut screen = Screen::new((3, 3));
    screen.draw_line((3, 3), (1, 1), '\\');
    assert_eq!(rows(&screen), vec!["\\__", "_\\_", "__\\"]);
}

#[test]
fn line_in_either_order_marks_same_cells() {
    let pairs = [((2, 3), (7, 5)), ((1, 6), (4, 1)), ((0, 0), (9, 2)), ((3, 3), (3, 8)), ((8, 1), (1, 8))];
    for (p1, p2) in pairs {
        let mut forward = Screen::new((8, 8));
        forward.draw_line(p1, p2, '#');
        let mut backward = Screen::new((8, 8));
        backward.draw_line(p2, p1, '#');
        assert_eq!(rows(&forward), rows(&backward));
        assert!(!marked(&forward, '#').is_empty());
    }
}

#[test]
fn line_partly_off_canvas_is_clipped() {
    let mut screen = Screen::new((3, 3));
    screen.draw_line((0, 0), (5, 5), '#');
    assert_eq!(marked(&screen, '#'), vec![(1, 1), (2, 2), (3, 3)]);
}

#[test]
fn line_with_huge_endpoint_does_not_hang() {
    let mut screen = Screen::new((4, 4));
    screen.draw_line((1, 1), (usize::MAX, 1), '#');
    assert_eq!(rows(&screen)[0], "####");
    screen.draw_line((usize::MAX, usize::MAX), (0, 0), '*');
    assert_eq!(screen.pixel((2, 2)), Some('*'));
}
