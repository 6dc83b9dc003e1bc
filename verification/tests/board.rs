use advent_puzzles::day_seventeen::Block;
use advent_puzzles::day_seventeen::Board;

#[test]
fn should_track_active_cells() {
    let mut board = Board::new();
    assert_eq!(board.get_block(&(0, 0, 0)), Block::Inactive);
    board.set_active((0, 0, 0));
    board.set_active((1, 2, 3));
    board.set_active((0, 0, 0));
    assert_eq!(board.get_block(&(0, 0, 0)), Block::Active);
    assert_eq!(board.get_block(&(1, 2, 3)), Block::Active);
    assert_eq!(board.get_active_blocks().len(), 2);
    board.set_inactive(&(0, 0, 0));
    assert_eq!(board.get_block(&(0, 0, 0)), Block::Inactive);
    assert_eq!(board.get_active_blocks(), vec![(1, 2, 3)]);
}

#[test]
fn should_list_all_twenty_six_neighbours() {
    let mut board = Board::new();
    board.set_active((1, 0, 0));
    let neighbours = board.neighbours((0, 0, 0));
    assert_eq!(neighbours.len(), 26);
    let active = neighbours.iter().filter(|n| n.1 == Block::Active).count();
    assert_eq!(active, 1);
    assert!(neighbours.contains(&((1, 0, 0), Block::Active)));
    assert!(!neighbours.iter().any(|n| n.0 == (0, 0, 0)));
}
