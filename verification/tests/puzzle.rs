use parking_game::board::{Board, PlacementError, ShiftError};
use parking_game::geometry::{Car, Direction, InvalidCar, Orientation, Position};
use parking_game::parse::{parse_map, ParseError};
use parking_game::raycast::{CarView, ViewMetadata};

#[test]
fn simple_solved() {
    let board = parse_map("oo...").unwrap();
    let md = ViewMetadata::for_board(&board);
    let views = md.views();
    assert!(views[0].1.forward().observed().is_none());
}

#[test]
fn simple_unsolved() {
    let board = parse_map("oo11.").unwrap();
    let md = ViewMetadata::for_board(&board);
    let views = md.views();
    assert!(!views[0].1.forward().observed().is_none());
}

#[test]
fn example_observation() {
    let board = parse_map(
        r#"
        ......
        ......
        ...2oo
        .332.4
        .5.2.4
        .5.664
        "#,
    )
    .unwrap();
    let md = ViewMetadata::for_board(&board);
    let views = md.views();
    let (_car, seen) = &views[0];
    assert_eq!(*seen.forward(), CarView::new(Direction::Right, None, 0));
    assert!(seen.forward().observed().is_none());
}

#[test]
fn direction_axis_and_opposite() {
    assert_eq!(Direction::Left.axis(), Orientation::LeftRight);
    assert_eq!(Direction::Right.axis(), Orientation::LeftRight);
    assert_eq!(Direction::Up.axis(), Orientation::UpDown);
    assert_eq!(Direction::Down.axis(), Orientation::UpDown);
    assert_eq!(Direction::Right.opposite(), Direction::Left);
    assert_eq!(Direction::Left.opposite(), Direction::Right);
    assert_eq!(Direction::Down.opposite(), Direction::Up);
    assert_eq!(Direction::Up.opposite(), Direction::Down);
}

#[test]
fn invalid_car_rejected() {
    assert_eq!(Car::new(1, Orientation::LeftRight), Err(InvalidCar));
    assert_eq!(Car::new(0, Orientation::UpDown), Err(InvalidCar));
    assert!(Car::new(2, Orientation::UpDown).is_ok());
}

#[test]
fn place_rejects_out_of_bounds_and_overlap() {
    let mut b = Board::new(2, 3);
    let car = Car::new(2, Orientation::LeftRight).unwrap();
    assert_eq!(b.place(Position::new(0, 2), car), Err(PlacementError::OutOfBounds));
    assert_eq!(b.place(Position::new(2, 0), car), Err(PlacementError::OutOfBounds));
    assert_eq!(b.place(Position::new(0, 0), car), Ok(1));
    assert_eq!(b.place(Position::new(0, 1), car), Err(PlacementError::Overlap));
    assert_eq!(b.place(Position::new(1, 0), car), Ok(2));
}

#[test]
fn occupant_at_matches_cells() {
    let board = parse_map("oo11.").unwrap();
    assert_eq!(board.occupant_at(Position::new(0, 0)), Some(1));
    assert_eq!(board.occupant_at(Position::new(0, 1)), Some(1));
    assert_eq!(board.occupant_at(Position::new(0, 2)), Some(2));
    assert_eq!(board.occupant_at(Position::new(0, 3)), Some(2));
    assert_eq!(board.occupant_at(Position::new(0, 4)), None);
}

#[test]
fn shift_then_unshift_restores() {
    let mut board = parse_map("oo...").unwrap();
    let before = board.cars.clone();
    board.shift(1, Direction::Right).unwrap();
    assert_ne!(board.cars, before);
    board.unshift(1, Direction::Right).unwrap();
    assert_eq!(board.cars, before);
}

#[test]
fn shift_error_variants() {
    let mut board = parse_map("oo11.").unwrap();
    assert_eq!(board.shift(1, Direction::Up), Err(ShiftError::WrongAxis));
    assert_eq!(board.shift(1, Direction::Left), Err(ShiftError::OutOfBounds));
    assert_eq!(board.shift(1, Direction::Right), Err(ShiftError::Blocked));
    assert_eq!(board.shift(2, Direction::Right), Ok(()));
}

#[test]
fn forward_view_and_shifts_to_solved() {
    let mut board = parse_map("oo...").unwrap();
    let v = board.car_view(1, Direction::Right);
    assert_eq!(v, CarView::new(Direction::Right, None, 3));
    assert!(!board.is_solved());
    for _ in 0..3 {
        board.shift(1, Direction::Right).unwrap();
    }
    assert!(board.is_solved());
    let v2 = board.car_view(1, Direction::Right);
    assert_eq!(v2.distance(), 0);
    assert!(v2.observed().is_none());
}

#[test]
fn obstruction_reported_with_ordinal_and_distance() {
    let board = parse_map("oo11.").unwrap();
    let v = board.car_view(1, Direction::Right);
    assert_eq!(v.observed(), Some(2));
    assert_eq!(v.distance(), 0);
    assert!(!board.is_solved());
}

#[test]
fn vertical_views() {
    let board = parse_map("oo.\n..1\n..1").unwrap();
    let v_up = board.car_view(2, Direction::Up);
    assert_eq!(v_up, CarView::new(Direction::Up, None, 1));
    let v_down = board.car_view(2, Direction::Down);
    assert_eq!(v_down, CarView::new(Direction::Down, None, 0));
}

#[test]
fn views_pair_ordinals_objective_first() {
    let board = parse_map("oo11.").unwrap();
    let md = ViewMetadata::for_board(&board);
    let v = md.views();
    assert_eq!(v.len(), 2);
    assert_eq!(v[0].0, 1);
    assert_eq!(v[1].0, 2);
    assert_eq!(*v[0].1.backward(), CarView::new(Direction::Left, None, 0));
    assert_eq!(*v[1].1.forward(), CarView::new(Direction::Right, None, 1));
}

#[test]
fn bounds_of_reports_edges() {
    let board = parse_map("oo11.").unwrap();
    let (lead, trail) = board.bounds_of(1);
    assert_eq!((lead.row, lead.col), (0, 1));
    assert_eq!((trail.row, trail.col), (0, 0));
    let board2 = parse_map("oo.\n..1\n..1").unwrap();
    let (lead2, trail2) = board2.bounds_of(2);
    assert_eq!((lead2.row, lead2.col), (2, 2));
    assert_eq!((trail2.row, trail2.col), (1, 2));
}

#[test]
fn parse_rejects_empty_and_oversized() {
    assert!(matches!(parse_map(""), Err(ParseError::EmptyMap)));
    assert!(matches!(parse_map("   \n  \n"), Err(ParseError::EmptyMap)));
    let wide = String::from_utf8(vec![b'.'; 300]).unwrap();
    assert!(matches!(parse_map(&wide), Err(ParseError::TooLarge)));
}

#[test]
fn parse_rejects_malformed_maps() {
    assert!(matches!(parse_map("oo.\n.."), Err(ParseError::UnevenRows)));
    assert!(matches!(parse_map("11.\n..."), Err(ParseError::MissingObjective)));
    assert!(matches!(parse_map("o.\no."), Err(ParseError::ObjectiveMisaligned)));
    assert!(matches!(parse_map("o.o"), Err(ParseError::CrookedCar)));
    assert!(matches!(parse_map("oo.\n1..\n11."), Err(ParseError::CrookedCar)));
    assert!(matches!(parse_map("o.."), Err(ParseError::ShortCar)));
}

#[test]
fn parse_assigns_objective_ordinal_one() {
    let board = parse_map("11.\noo.").unwrap();
    assert_eq!(board.occupant_at(Position::new(1, 0)), Some(1));
    assert_eq!(board.occupant_at(Position::new(0, 0)), Some(2));
    assert_eq!(board.cars[0].1.orientation, Orientation::LeftRight);
}
