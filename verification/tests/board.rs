use spellcast_solver::board::Board;
use spellcast_solver::board::Point;

#[test]
fn load_board() {
    let board_string =
        Board::from_chars(&"DRUPROSOTFOFRWGASIAHNIZJA".chars().collect::<Vec<char>>());
    let board_matrix = Board::from_chars(&[
        'D', 'R', 'U', 'P', 'R', 'O', 'S', 'O', 'T', 'F', 'O', 'F', 'R', 'W', 'G', 'A', 'S', 'I',
        'A', 'H', 'N', 'I', 'Z', 'J', 'A',
    ]);

    assert_eq!(board_string, board_matrix);
    assert_eq!(board_matrix.get(Point::new(0, 0)), 'D');
}

#[test]
fn set_then_get() {
    let mut board = Board::from_chars(&['x'; 25]);
    board.set(Point::new(3, 2), 'Q');
    assert_eq!(board.get(Point::new(3, 2)), 'Q');
    assert_eq!(board.get(Point::new(2, 3)), 'x');
}

#[test]
fn point_index_round_trip() {
    let p = Point::from_index(7, 5);
    assert_eq!(p.0, 2);
    assert_eq!(p.1, 1);
    assert_eq!(p.to_index(5), 7);
    assert_eq!(Point::new(4, 4).to_index(5), 24);
}
