use parking_game::geometry::Direction;
use parking_game::parse::parse_map;
use parking_game::search::{solve, SearchOutcome};
use parking_game::stats::CrashRateMetadata;

#[test]
fn solve_already_solved_returns_empty_path() {
    let mut board = parse_map("...oo").unwrap();
    assert!(board.is_solved());
    match solve(&mut board) {
        SearchOutcome::Solved(path) => assert!(path.is_empty()),
        SearchOutcome::Exhausted => panic!("a solved board must report a solution"),
    }
}

#[test]
fn solve_one_move_puzzle() {
    let mut board = parse_map("oo.\n.11\n...").unwrap();
    match solve(&mut board) {
        SearchOutcome::Solved(path) => {
            assert!(!path.is_empty());
            assert!(board.is_solved());
        },
        SearchOutcome::Exhausted => panic!("the puzzle is solvable"),
    }
}

#[test]
fn solve_path_replays_to_solved_board() {
    let map = "..1...\n..1...\noo1...\n......\n......\n......";
    let mut board = parse_map(map).unwrap();
    let path = match solve(&mut board) {
        SearchOutcome::Solved(path) => path,
        SearchOutcome::Exhausted => panic!("the puzzle is solvable"),
    };
    let mut replayed = parse_map(map).unwrap();
    for (ord, dir) in path.iter() {
        replayed.shift(*ord, *dir).unwrap();
    }
    assert!(replayed.is_solved());
    assert_eq!(replayed.cars, board.cars);
}

#[test]
fn walled_in_board_exhausts() {
    let mut board = parse_map("oo1\n..1\n..1").unwrap();
    let before = board.cars.clone();
    match solve(&mut board) {
        SearchOutcome::Exhausted => {},
        SearchOutcome::Solved(_) => panic!("no legal sequence reaches the exit"),
    }
    assert_eq!(board.cars, before);
}

#[test]
fn solve_path_is_deterministic() {
    let mut solvable = parse_map("oo...").unwrap();
    match solve(&mut solvable) {
        SearchOutcome::Solved(path) => {
            assert_eq!(path, vec![
                (1, Direction::Right),
                (1, Direction::Right),
                (1, Direction::Right),
            ]);
            assert!(solvable.is_solved());
        },
        SearchOutcome::Exhausted => panic!("the puzzle is solvable"),
    }
}

#[test]
fn solve_on_board_already_at_exit_wall() {
    let mut board = parse_map(
        r#"
        ......
        ......
        ...2oo
        .332.4
        .5.2.4
        .5.664
        "#,
    )
    .unwrap();
    assert!(board.is_solved());
    match solve(&mut board) {
        SearchOutcome::Solved(path) => assert!(path.is_empty()),
        SearchOutcome::Exhausted => panic!("a solved board must report a solution"),
    }
}

#[test]
fn crash_rate_counters() {
    let mut m = CrashRateMetadata::new();
    assert_eq!((m.crashes, m.executions), (0, 0));
    m.record_execution(false);
    m.record_execution(true);
    m.record_execution(false);
    assert_eq!(m.executions, 3);
    assert_eq!(m.crashes, 1);
    let d = CrashRateMetadata::default();
    assert_eq!((d.crashes, d.executions), (0, 0));
}
