use rand::SeedableRng;
use rand_chacha::ChaCha8Rng;
use tile_merge::action::Action;
use tile_merge::board::Board;
use tile_merge::direction::Direction;
use tile_merge::direction::Direction::{Down, Left, Right, Up};
use tile_merge::tile::position::Position;
use tile_merge::tile::value::Value;
use tile_merge::tile::Tile;

fn board_from_str(s: &str) -> Board {
    s.parse().expect("Failed to parse board")
}

struct TestCase {
    in_board: &'static str,
    in_direction: Direction,
    board: &'static str,
    n_events: usize,
    moved: bool,
    name: &'static str,
}

fn case(
    in_board: &'static str,
    board: &'static str,
    n_events: usize,
    in_direction: Direction,
    moved: bool,
    name: &'static str,
) -> TestCase {
    TestCase { in_board, in_direction, board, n_events, moved, name }
}

fn cases() -> Vec<TestCase> {
    vec![
        case("0000011001100000", "0000200020000000", 2, Left, true, "gap corner"),
        case("0000011001100000", "0000000200020000", 2, Right, true, "gap corner"),
        case("0000011001100000", "0220000000000000", 2, Up, true, "gap corner"),
        case("0000011001100000", "0000000000000220", 2, Down, true, "gap corner"),
        case("0122000000000000", "1300000000000000", 2, Left, true, "slide and merge"),
        case("2210000000000000", "0031000000000000", 2, Right, true, "slide and merge"),
        case("0000100020002000", "1000300000000000", 2, Up, true, "slide and merge"),
        case("2000200010000000", "0000000030001000", 2, Down, true, "slide and merge"),
        case("0000000000000000", "0000000000000000", 0, Left, false, "no move empty"),
        case("0000000000000000", "0000000000000000", 0, Right, false, "no move empty"),
        case("0000000000000000", "0000000000000000", 0, Up, false, "no move empty"),
        case("0000000000000000", "0000000000000000", 0, Down, false, "no move empty"),
        case("1234234134124123", "1234234134124123", 0, Left, false, "no move full"),
        case("1234234134124123", "1234234134124123", 0, Right, false, "no move full"),
        case("1234234134124123", "1234234134124123", 0, Up, false, "no move full"),
        case("1234234134124123", "1234234134124123", 0, Down, false, "no move full"),
        case("1000100010001000", "1000100010001000", 0, Left, false, "no slide no merge"),
        case("0001000100010001", "0001000100010001", 0, Right, false, "no slide no merge"),
        case("1111000000000000", "1111000000000000", 0, Up, false, "no slide no merge"),
        case("0000000000001111", "0000000000001111", 0, Down, false, "no slide no merge"),
        case("0001000100010001", "1000100010001000", 4, Left, true, "just slide no merge"),
        case("1000100010001000", "0001000100010001", 4, Right, true, "just slide no merge"),
        case("0000000000001111", "1111000000000000", 4, Up, true, "just slide no merge"),
        case("1111000000000000", "0000000000001111", 4, Down, true, "just slide no merge"),
        case("1000010000100001", "1000100010001000", 3, Left, true, "just slide diagonal"),
        case("1000010000100001", "0001000100010001", 3, Right, true, "just slide diagonal"),
        case("1000010000100001", "1111000000000000", 3, Up, true, "just slide diagonal"),
        case("1000010000100001", "0000000000001111", 3, Down, true, "just slide diagonal"),
        case("1100220033004400", "2000300040005000", 4, Left, true, "just merge"),
        case("0011002200330044", "0002000300040005", 4, Right, true, "just merge"),
        case("1234123400000000", "2345000000000000", 4, Up, true, "just merge"),
        case("0000000012341234", "0000000000002345", 4, Down, true, "just merge"),
        case("1110101111010111", "2100210021002100", 8, Left, true, "gap invaraible"),
        case("1110101111010111", "0012001200120012", 8, Right, true, "gap invaraible"),
        case("1110101111010111", "2222111100000000", 8, Up, true, "gap invaraible"),
        case("1110101111010111", "0000000011112222", 8, Down, true, "gap invaraible"),
        case("1111111111111111", "2200220022002200", 8, Left, true, "merge twice"),
        case("1111111111111111", "0022002200220022", 8, Right, true, "merge twice"),
        case("1111111111111111", "2222222200000000", 8, Up, true, "merge twice"),
        case("1111111111111111", "0000000022222222", 8, Down, true, "merge twice"),
    ]
}

#[test]
fn test_plan_slide_and_merge() {
    for case in &cases() {
        let board = board_from_str(case.in_board);
        let events = board.plan_slide_and_merge(&case.in_direction);
        assert_eq!(
            events.len(),
            case.n_events,
            "{} --{}--> {} events ({})",
            case.in_board,
            case.in_direction.to_string(),
            case.n_events,
            case.name
        );
    }
}

#[test]
fn test_slide_and_merge_line() {
    let in_board = board_from_str("1110000000000000");
    let in_direction = Direction::Right;
    let line_traversal = in_board.traversal_map.get(&in_direction)[0].clone();
    let events = in_board.slide_and_merge_line(&line_traversal);
    let mut board = in_board.clone();
    board.apply(events.get(0).unwrap().clone());
    board.apply(events.get(1).unwrap().clone());
    if let Action::MergeTiles(tile1, tile2, to, value) = *events.get(0).unwrap() {
        assert_eq!(tile1.value, Value::Number(2));
        assert_eq!(tile2.value, Value::Number(2));
        assert_eq!(to, Position { row: 0, col: 3 });
        assert_eq!(value, Value::Number(4));
    }
    if let Action::SlideTile(tile, to) = *events.get(1).unwrap() {
        assert_eq!(tile.value, Value::Number(2));
        assert_eq!(to, Position { row: 0, col: 2 });
    }
    assert_eq!(events.len(), 2);
    assert_eq!(board.to_string(), "0012000000000000");
}

#[test]
fn test_slide_and_merge_line_wild_case() {
    let in_board = board_from_str("2000200010000000");
    let in_direction = Direction::Down;

    let mut board = in_board.clone();
    board.slide_and_merge(in_direction);
    assert_eq!(board.to_string(), "0000000030001000");

    let line_traversal = in_board.traversal_map.get(&in_direction)[0].clone();
    let events = in_board.slide_and_merge_line(&line_traversal);
    assert_eq!(events.len(), 2);

    println!("{:?}", events);
    if let Action::SlideTile(tile, to) = *events.get(0).unwrap() {
        assert_eq!(tile.value, Value::Number(2));
        assert_eq!(to, Position { row: 3, col: 0 });
    }
    if let Action::MergeTiles(tile1, tile2, to, value) = *events.get(1).unwrap() {
        assert_eq!(tile1.value, Value::Number(4));
        assert_eq!(tile2.value, Value::Number(4));
        assert_eq!(tile1.position, Position { row: 1, col: 0 });
        assert_eq!(tile2.position, Position { row: 0, col: 0 });
        assert_eq!(to, Position { row: 2, col: 0 });
        assert_eq!(value, Value::Number(8));
    }
}

#[test]
fn test_slide_and_merge_line_slide_and_merge_left() {
    let in_board = board_from_str("0122000000000000");
    let in_direction = Direction::Left;
    let line_traversal = in_board.traversal_map.get(&in_direction)[0].clone();
    let events = in_board.slide_and_merge_line(&line_traversal);

    let mut board = in_board.clone();
    for event in events.iter() {
        board.apply(event.clone());
    }
    assert_eq!(board.to_string(), "1300000000000000");

    if let Action::SlideTile(tile, to) = *events.get(0).unwrap() {
        assert_eq!(tile.value, Value::Number(2));
        assert_eq!(tile.position, Position { row: 0, col: 1 });
        assert_eq!(to, Position { row: 0, col: 0 });
    }
    if let Action::MergeTiles(tile1, tile2, to, value) = *events.get(1).unwrap() {
        println!("{:?}", *events.get(1).unwrap());
        assert_eq!(tile1.value, Value::Number(4));
        assert_eq!(tile2.value, Value::Number(4));
        assert_eq!(value, Value::Number(8));
        assert_eq!(tile1.position, Position { row: 0, col: 2 });
        assert_eq!(tile2.position, Position { row: 0, col: 3 });
        assert_eq!(to, Position { row: 0, col: 1 });
    }
    assert_eq!(events.len(), 2);
}

#[test]
fn test_slide_and_merge() {
    for case in &cases() {
        let mut board = board_from_str(case.in_board);
        let moved = board.slide_and_merge(case.in_direction);
        assert_eq!(
            board.to_string(),
            case.board,
            "{} --{}--> {} ({})",
            case.in_board,
            case.in_direction.to_string(),
            case.board,
            case.name
        );
        assert_eq!(
            moved,
            case.moved,
            "{} --{}--> {} ({})",
            case.in_board,
            case.in_direction.to_string(),
            case.moved,
            case.name
        );
    }
}

#[test]
fn test_board_serialization() {
    let board = board_from_str("123456789A000000");

    let board_str = board.to_string();
    let restored_board: Board = board_str.parse().expect("Failed to parse board");

    assert_eq!(board.tiles, restored_board.tiles);
}

const ALL: [Direction; 4] = [Direction::Left, Direction::Right, Direction::Up, Direction::Down];

#[test]
fn left_move_slides_then_merges() {
    let mut board = board_from_str("0122000000000000");
    let events = board.plan_slide_and_merge(&Direction::Left);
    let two = |row, col| Tile { value: Value::Number(2), position: Position { row, col } };
    let four = |row, col| Tile { value: Value::Number(4), position: Position { row, col } };
    assert_eq!(
        events,
        vec![
            Action::SlideTile(two(0, 1), Position { row: 0, col: 0 }),
            Action::MergeTiles(four(0, 2), four(0, 3), Position { row: 0, col: 1 }, Value::Number(8)),
        ]
    );
    assert!(board.slide_and_merge(Direction::Left));
    assert_eq!(board.to_string(), "1300000000000000");
}

#[test]
fn right_move_of_three_equal_tiles() {
    let mut board = board_from_str("1110000000000000");
    assert_eq!(board.plan_slide_and_merge(&Direction::Right).len(), 2);
    assert!(board.slide_and_merge(Direction::Right));
    assert_eq!(board.to_string(), "0012000000000000");
}

#[test]
fn empty_board_never_moves() {
    for d in ALL {
        let mut board = board_from_str("0000000000000000");
        assert!(board.plan_slide_and_merge(&d).is_empty());
        assert!(!board.slide_and_merge(d));
        assert_eq!(board.to_string(), "0000000000000000");
    }
}

#[test]
fn full_board_of_ones_merges_pairwise() {
    let mut board = board_from_str("1111111111111111");
    let events = board.plan_slide_and_merge(&Direction::Left);
    assert_eq!(events.len(), 8);
    assert!(events.iter().all(|e| matches!(e, Action::MergeTiles(..))));
    board.slide_and_merge(Direction::Left);
    assert_eq!(board.to_string(), "2200220022002200");
}

#[test]
fn locked_board_has_no_moves() {
    for d in ALL {
        let mut board = board_from_str("1234234134124123");
        assert!(board.plan_slide_and_merge(&d).is_empty());
        assert!(!board.slide_and_merge(d));
    }
}

#[test]
fn largest_tiles_do_not_merge() {
    let mut board = board_from_str("BB00AA0000000000");
    assert!(board.slide_and_merge(Direction::Left));
    assert_eq!(board.to_string(), "BB00B00000000000");
}

#[test]
fn planning_twice_gives_the_same_actions() {
    for d in ALL {
        let board = board_from_str("1110101111010111");
        let first = board.plan_slide_and_merge(&d);
        let second = board.plan_slide_and_merge(&d);
        assert_eq!(first, second);
        assert_eq!(board.to_string(), "1110101111010111");
    }
}

#[test]
fn moved_flag_matches_plan() {
    for text in ["0000011001100000", "1234234134124123", "1000100010001000", "2210000000000000"] {
        for d in ALL {
            let mut board = board_from_str(text);
            let planned = board.plan_slide_and_merge(&d);
            assert_eq!(board.slide_and_merge(d), !planned.is_empty());
        }
    }
}

#[test]
fn line_actions_never_share_slots_or_tiles() {
    let board = board_from_str("1110101111010111");
    for d in ALL {
        for line in board.traversal_map.get(&d).iter() {
            let events = board.slide_and_merge_line(line);
            let mut dests = vec![];
            let mut sources = vec![];
            for e in events.iter() {
                match *e {
                    Action::SlideTile(t, to) => {
                        dests.push(to);
                        sources.push(t.position);
                    }
                    Action::MergeTiles(t1, t2, to, _) => {
                        dests.push(to);
                        sources.push(t1.position);
                        sources.push(t2.position);
                    }
                    Action::SpawnRandomTile(_) => panic!("no spawn while compacting"),
                }
            }
            for i in 0..dests.len() {
                for j in i + 1..dests.len() {
                    assert_ne!(dests[i], dests[j]);
                }
            }
            for i in 0..sources.len() {
                for j in i + 1..sources.len() {
                    assert_ne!(sources[i], sources[j]);
                }
            }
        }
    }
}

#[test]
fn text_round_trips() {
    for text in ["123456789AB00000", "0000000000000000", "BA98765432100123"] {
        assert_eq!(board_from_str(text).to_string(), text);
    }
}

#[test]
fn decoding_rejects_bad_text() {
    assert!("000000000000000".parse::<Board>().is_err());
    assert!("00000000000000000".parse::<Board>().is_err());
    assert!("000000000000000C".parse::<Board>().is_err());
    assert!(Board::decode("00000000000000x0").is_err());
    let b = Board::decode("0000000000000001").unwrap();
    assert_eq!(b.size, 4);
    assert_eq!(b.get_value(&Position { row: 3, col: 3 }), Value::Number(2));
}

#[test]
fn new_board_is_empty_and_set_get_agree() {
    let mut board = Board::new(3);
    assert_eq!(board.tiles.len(), 9);
    assert_eq!(board.to_string(), "000000000");
    let p = Position { row: 1, col: 2 };
    board.set_value(&p, Value::Number(8));
    assert_eq!(board.get_value(&p), Value::Number(8));
    assert_eq!(board.get_tile(&p), Tile { value: Value::Number(8), position: p });
    assert_eq!(board.to_string(), "000003000");
}

#[test]
fn apply_spawn_slide_and_merge() {
    let mut board = Board::new(4);
    let p = Position { row: 0, col: 3 };
    board.apply(Action::SpawnRandomTile(Tile { value: Value::Number(2), position: p }));
    assert_eq!(board.to_string(), "0001000000000000");
    board.apply(Action::SlideTile(Tile { value: Value::Number(2), position: p }, Position { row: 1, col: 0 }));
    assert_eq!(board.to_string(), "0000100000000000");
    board.set_value(&Position { row: 1, col: 1 }, Value::Number(2));
    board.apply(Action::MergeTiles(
        Tile { value: Value::Number(2), position: Position { row: 1, col: 0 } },
        Tile { value: Value::Number(2), position: Position { row: 1, col: 1 } },
        Position { row: 2, col: 2 },
        Value::Number(4),
    ));
    assert_eq!(board.to_string(), "0000000000200000");
}

#[test]
fn spawn_on_full_board_is_none() {
    let board = board_from_str("1234234134124123");
    let mut rng = ChaCha8Rng::seed_from_u64(7);
    assert!(board.plan_spawn_random_tile(&mut rng).is_none());
    assert!(board.plan_spawn_from_draws(0, true).is_none());
}

#[test]
fn spawn_fills_the_only_empty_cell_reproducibly() {
    let board = board_from_str("1234234134124120");
    let mut rng = ChaCha8Rng::seed_from_u64(42);
    let first = board.plan_spawn_random_tile(&mut rng).unwrap();
    let mut rng = ChaCha8Rng::seed_from_u64(42);
    let second = board.plan_spawn_random_tile(&mut rng).unwrap();
    assert_eq!(first, second);
    match first {
        Action::SpawnRandomTile(t) => {
            assert_eq!(t.position, Position { row: 3, col: 3 });
            assert!(t.value == Value::Number(2) || t.value == Value::Number(4));
        }
        _ => panic!("expected a spawn"),
    }
}

#[test]
fn spawn_always_lands_on_an_empty_cell() {
    let board = board_from_str("1030000200400500");
    let mut rng = ChaCha8Rng::seed_from_u64(3);
    for _ in 0..50 {
        match board.plan_spawn_random_tile(&mut rng) {
            Some(Action::SpawnRandomTile(t)) => {
                assert_eq!(board.get_value(&t.position), Value::Empty);
                assert!(t.value == Value::Number(2) || t.value == Value::Number(4));
            }
            other => panic!("unexpected {:?}", other),
        }
    }
}

#[test]
fn spawn_from_draws_picks_in_row_order() {
    let board = board_from_str("1030000200400500");
    let empties = board.empty_positions_in_order();
    assert_eq!(empties.len(), 11);
    assert_eq!(empties[0], Position { row: 0, col: 1 });
    assert_eq!(empties[1], Position { row: 0, col: 3 });
    let spawn = board.plan_spawn_from_draws(1, false).unwrap();
    assert_eq!(
        spawn,
        Action::SpawnRandomTile(Tile { value: Value::Number(4), position: Position { row: 0, col: 3 } })
    );
    let wrapped = board.plan_spawn_from_draws(12, true).unwrap();
    assert_eq!(
        wrapped,
        Action::SpawnRandomTile(Tile { value: Value::Number(2), position: Position { row: 0, col: 3 } })
    );
}

#[test]
fn play_turn_moves_then_spawns() {
    let mut board = board_from_str("0122000000000000");
    let mut rng = ChaCha8Rng::seed_from_u64(11);
    let (events, spawn) = board.play_turn(Direction::Left, &mut rng);
    assert_eq!(events.len(), 2);
    let spawn = spawn.unwrap();
    let mut expected = board_from_str("1300000000000000");
    expected.apply(spawn);
    assert_eq!(board.to_string(), expected.to_string());
    match spawn {
        Action::SpawnRandomTile(t) => assert!(t.position != Position { row: 0, col: 0 } && t.position != Position { row: 0, col: 1 }),
        _ => panic!("expected a spawn"),
    }
}

#[test]
fn play_turn_without_move_spawns_nothing() {
    let mut board = board_from_str("1000100010001000");
    let mut rng = ChaCha8Rng::seed_from_u64(11);
    let (events, spawn) = board.play_turn(Direction::Left, &mut rng);
    assert!(events.is_empty());
    assert!(spawn.is_none());
    assert_eq!(board.to_string(), "1000100010001000");
}

#[test]
fn play_turn_is_reproducible_with_the_same_seed() {
    let moves = [Left, Up, Right, Down, Left, Left, Up];
    let mut a = Board::new(4);
    let mut b = Board::new(4);
    let mut rng_a = ChaCha8Rng::from_seed([0; 32]);
    let mut rng_b = ChaCha8Rng::from_seed([0; 32]);
    for d in moves {
        let ra = a.play_turn(d, &mut rng_a);
        let rb = b.play_turn(d, &mut rng_b);
        assert_eq!(ra, rb);
        assert_eq!(a.to_string(), b.to_string());
    }
}

#[test]
fn moves_work_on_a_five_by_five_board() {
    let mut board = Board::new(5);
    for (col, v) in [(0, 2), (1, 2), (2, 2), (3, 4), (4, 4)] {
        board.set_value(&Position { row: 2, col }, Value::Number(v));
    }
    assert!(board.slide_and_merge(Direction::Right));
    assert_eq!(board.to_string(), "0000000000001230000000000");
    assert!(board.slide_and_merge(Direction::Up));
    assert_eq!(board.to_string(), "0012300000000000000000000");
}
