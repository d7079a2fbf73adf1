use maze::grid::Direction;
use maze::maze::Maze;

#[test]
fn text_has_two_lines_per_row_and_one() {
    for (h, w) in [(2, 2), (3, 5), (6, 4)] {
        let m = Maze::new_with_size_and_start(h, w, false);
        let text = m.as_string();
        assert!(text.ends_with('\n'));
        let lines: Vec<&str> = text.lines().collect();
        assert_eq!(lines.len(), 2 * h + 1);
        for line in &lines {
            assert_eq!(line.chars().count(), 2 * w + 1);
            assert!(line.chars().all(|c| c == ' ' || c == '█'));
        }
    }
}

#[test]
fn text_shows_openings_as_spaces_and_walls_as_blocks() {
    let m = Maze::new_with_size_and_start(4, 7, false);
    let text = m.as_string();
    let lines: Vec<Vec<char>> = text.lines().map(|l| l.chars().collect()).collect();
    let glyph = |open: bool| if open { ' ' } else { '█' };
    for x in 0..7 {
        assert_eq!(lines[0][2 * x], '█');
        assert_eq!(lines[0][2 * x + 1], glyph(m.at(x, 0).has_opening(Direction::North)));
    }
    for y in 0..4 {
        for x in 0..7 {
            let cell = m.at(x, y);
            assert_eq!(lines[2 * y + 1][2 * x], glyph(cell.has_opening(Direction::West)));
            assert_eq!(lines[2 * y + 1][2 * x + 1], ' ');
            assert_eq!(lines[2 * y + 2][2 * x], '█');
            assert_eq!(lines[2 * y + 2][2 * x + 1], glyph(cell.has_opening(Direction::South)));
        }
        assert_eq!(lines[2 * y + 1][14], '█');
        assert_eq!(lines[2 * y + 2][14], '█');
    }
    assert_eq!(lines[0][14], '█');
}

#[test]
fn blank_text_is_all_walls_but_the_cells() {
    let m = Maze::blank(2, 3, 0, 2);
    assert_eq!(m.as_string(), "███████\n█ █ █ █\n███████\n█ █ █ █\n███████\n");
}
