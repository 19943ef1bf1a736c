use territory::board::Color;
use territory::board::Position;
use territory::board::State;
use territory::board::BOARD_SIZE;
use territory::board::CELL_COUNT;

fn pos(row: usize, col: usize) -> Position {
    Position { row, col }
}

#[test]
fn new_board_is_all_empty() {
    let s = State::new();
    assert_eq!(s.legal_empty_cells().len(), CELL_COUNT);
    assert_eq!(s.evaluate(), 0);
}

#[test]
fn evaluate_on_empty_board_is_zero() {
    let s = State::new();
    assert_eq!(s.evaluate(), 0);
}

#[test]
fn evaluate_on_full_board_is_count_difference() {
    let mut s = State::new();
    // 61 White stones on even flat indices, 60 Black stones on odd ones.
    for row in 0..BOARD_SIZE {
        for col in 0..BOARD_SIZE {
            let color = if (row * BOARD_SIZE + col) % 2 == 0 {
                Color::White
            } else {
                Color::Black
            };
            s.place(pos(row, col), color);
        }
    }
    assert_eq!(s.legal_empty_cells().len(), 0);
    assert_eq!(s.evaluate(), 1);
    assert_eq!(s.leader(), Some(Color::White));
}

#[test]
fn get_field_bounds() {
    let mut s = State::new();
    s.place(pos(0, 0), Color::White);
    assert_eq!(s.get_field(0, 0), Some(Color::White));
    assert_eq!(s.get_field(1, 1), Some(Color::Empty));
    assert_eq!(s.get_field(-1, 0), None);
    assert_eq!(s.get_field(0, -1), None);
    assert_eq!(s.get_field(11, 0), None);
    assert_eq!(s.get_field(0, 11), None);
}

#[test]
fn adjacency_needs_two_in_one_group() {
    let mut s = State::new();
    s.place(pos(0, 0), Color::White);
    s.place(pos(0, 1), Color::White);
    // (1, 0) sees one orthogonal White at (0, 0) and one diagonal White at
    // (0, 1): one neighbor per group is not enough.
    assert!(!s.adjacent_support(1, 0, Color::White));
    assert!(!s.adjacent_support(1, 1, Color::White));

    let mut t = State::new();
    t.place(pos(0, 0), Color::White);
    t.place(pos(0, 2), Color::White);
    // (0, 1) has two orthogonal White neighbors.
    assert!(t.adjacent_support(0, 1, Color::White));
    // (1, 1) has two diagonal White neighbors.
    assert!(t.adjacent_support(1, 1, Color::White));
    // Occupied cells are never growable.
    assert!(!t.adjacent_support(0, 0, Color::White));
    // The rule is per color.
    assert!(!t.adjacent_support(0, 1, Color::Black));
}

#[test]
fn legal_moves_are_the_growable_cells_in_scan_order() {
    let mut s = State::new();
    s.place(pos(0, 0), Color::White);
    s.place(pos(0, 2), Color::White);
    let moves = s.legal_moves(Color::White);
    assert_eq!(moves, vec![pos(0, 1), pos(1, 1)]);
    assert_eq!(s.legal_moves(Color::Black), vec![]);
}

#[test]
fn three_stone_example_has_no_growable_cells() {
    // White at (0,0) and (0,1), Black at (2,2): every candidate cell sees
    // at most one orthogonal and one diagonal White stone, and the
    // per-group two-neighbor threshold admits none of them.
    let mut s = State::new();
    s.place(pos(0, 0), Color::White);
    s.place(pos(0, 1), Color::White);
    s.place(pos(2, 2), Color::Black);
    let white_moves = s.legal_moves(Color::White);
    assert!(!white_moves.contains(&pos(1, 0)));
    assert!(!white_moves.contains(&pos(1, 1)));
    assert!(white_moves.is_empty());
    assert!(s.legal_moves(Color::Black).is_empty());
    assert!(s.is_terminal());
}

#[test]
fn with_is_pure_and_place_mutates() {
    let mut s = State::new();
    s.place(pos(5, 5), Color::White);
    let before = s.evaluate();
    let t = s.with(pos(5, 7), Color::White);
    assert_eq!(s.evaluate(), before);
    assert_eq!(s.get_field(5, 7), Some(Color::Empty));
    assert_eq!(t.get_field(5, 7), Some(Color::White));
    assert_eq!(t.get_field(5, 5), Some(Color::White));
}

#[test]
fn leader_compares_raw_stone_counts() {
    let mut s = State::new();
    assert_eq!(s.leader(), None);
    s.place(pos(0, 0), Color::White);
    assert_eq!(s.leader(), Some(Color::White));
    s.place(pos(10, 10), Color::Black);
    assert_eq!(s.leader(), None);
    s.place(pos(10, 8), Color::Black);
    assert_eq!(s.leader(), Some(Color::Black));
}

#[test]
fn render_empty_board() {
    let s = State::new();
    let mut expected = String::from("  |ABCDEFGHIJK\n--------------\n");
    for row in 0..BOARD_SIZE {
        expected.push_str(&format!("{:>2}|", row + 1));
        expected.push_str("...........");
        expected.push('\n');
    }
    assert_eq!(s.render(), expected);
}

#[test]
fn render_shows_stones() {
    let mut s = State::new();
    s.place(pos(0, 0), Color::White);
    s.place(pos(1, 2), Color::Black);
    let r = s.render();
    let lines: Vec<&str> = r.lines().collect();
    assert_eq!(lines[0], "  |ABCDEFGHIJK");
    assert_eq!(lines[1], "--------------");
    assert_eq!(lines[2], " 1|o..........");
    assert_eq!(lines[3], " 2|..x........");
    assert_eq!(lines[12], "11|...........");
    assert_eq!(lines.len(), 13);
}

#[test]
fn terminal_when_no_side_can_grow() {
    let s = State::new();
    assert!(s.is_terminal());
    let mut t = State::new();
    t.place(pos(4, 4), Color::White);
    t.place(pos(4, 6), Color::White);
    assert!(!t.is_terminal());
}
