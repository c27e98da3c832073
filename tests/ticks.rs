use snake_engine::{BoardError, Cell, Direction, Game, FOOD_TARGET};

fn has_no_duplicates(cells: &[Cell]) -> bool {
    for i in 0..cells.len() {
        for j in i + 1..cells.len() {
            if cells[i] == cells[j] {
                return false;
            }
        }
    }
    true
}

fn in_play(game: &Game, c: Cell) -> bool {
    let (w, h) = game.frame_size();
    c.0 >= 1 && c.0 < w - 2 && c.1 >= 1 && c.1 < h - 2
}

#[test]
fn new_rejects_small_boards() {
    assert_eq!(Game::new(6, 20, 1).err(), Some(BoardError::TooSmall));
    assert_eq!(Game::new(20, 6, 1).err(), Some(BoardError::TooSmall));
    assert_eq!(Game::new(0, 0, 1).err(), Some(BoardError::TooSmall));
    assert!(Game::new(7, 7, 1).is_ok());
}

#[test]
fn new_sets_up_a_fresh_game() {
    for seed in 0..20u64 {
        let game = Game::new(20, 15, seed).unwrap();
        assert_eq!(game.snake().len(), 1);
        let (x, y) = game.snake()[0];
        assert!(x >= 2 && x < 16);
        assert!(y >= 2 && y < 11);
        assert_eq!(game.direction(), Direction::Right);
        assert!(!game.is_game_over());
        assert_eq!(game.frame_size(), (20, 15));
        assert_eq!(game.food().len(), FOOD_TARGET);
        assert!(has_no_duplicates(game.food()));
        for f in game.food() {
            assert!(in_play(&game, *f));
            assert!(!game.snake().contains(f));
        }
    }
}

#[test]
fn eating_grows_the_snake_and_respawns_food() {
    let mut game = Game::new(10, 10, 4).unwrap();
    game.clear_food();
    game.set_snake(vec![(5, 5)]);
    game.set_food(vec![(6, 5)]);
    assert_eq!(game.direction(), Direction::Right);
    game.update();
    assert!(!game.is_game_over());
    assert_eq!(game.snake().clone(), vec![(6, 5), (5, 5)]);
    assert_eq!(game.food().len(), FOOD_TARGET);
    assert!(!game.food().contains(&(6, 5)));
    assert!(!game.food().contains(&(5, 5)));
}

#[test]
fn moving_without_food_keeps_length() {
    let mut game = Game::new(10, 10, 4).unwrap();
    game.clear_food();
    game.set_snake(vec![(3, 3), (2, 3), (1, 3)]);
    game.set_food(vec![(6, 6)]);
    game.update();
    assert_eq!(game.snake().clone(), vec![(4, 3), (3, 3), (2, 3)]);
    // The missing food items are placed again.
    assert_eq!(game.food().len(), FOOD_TARGET);
    assert_eq!(game.food()[0], (6, 6));
}

#[test]
fn moving_off_the_left_edge_ends_the_game() {
    let mut game = Game::new(10, 10, 4).unwrap();
    game.clear_food();
    game.set_snake(vec![(0, 5)]);
    game.set_direction(Direction::Up);
    game.set_direction(Direction::Left);
    assert_eq!(game.direction(), Direction::Left);
    game.update();
    assert!(game.is_game_over());
    assert_eq!(game.snake().clone(), vec![(0, 5)]);
}

#[test]
fn moving_onto_the_border_ends_the_game() {
    let mut game = Game::new(10, 10, 4).unwrap();
    game.clear_food();
    game.set_snake(vec![(1, 5), (2, 5)]);
    game.set_direction(Direction::Up);
    game.set_direction(Direction::Left);
    game.update();
    assert!(game.is_game_over());
    assert_eq!(game.snake().clone(), vec![(1, 5), (2, 5)]);

    let mut right = Game::new(10, 10, 4).unwrap();
    right.clear_food();
    right.set_snake(vec![(7, 2)]);
    right.update();
    assert!(right.is_game_over());
    assert_eq!(right.snake().clone(), vec![(7, 2)]);

    let mut down = Game::new(10, 10, 4).unwrap();
    down.clear_food();
    down.set_snake(vec![(4, 7)]);
    down.set_direction(Direction::Down);
    down.update();
    assert!(down.is_game_over());

    let mut up = Game::new(10, 10, 4).unwrap();
    up.clear_food();
    up.set_snake(vec![(4, 1)]);
    up.set_direction(Direction::Up);
    up.update();
    assert!(up.is_game_over());
}

#[test]
fn running_into_the_body_ends_the_game() {
    let mut game = Game::new(10, 10, 4).unwrap();
    game.clear_food();
    game.set_snake(vec![(5, 5), (5, 6), (6, 6)]);
    game.set_direction(Direction::Down);
    let food = game.food().clone();
    game.update();
    assert!(game.is_game_over());
    assert_eq!(game.snake().clone(), vec![(5, 5), (5, 6), (6, 6)]);
    assert_eq!(game.food().clone(), food);
}

#[test]
fn reversal_requests_are_ignored() {
    let mut game = Game::new(10, 10, 4).unwrap();
    game.set_direction(Direction::Left);
    assert_eq!(game.direction(), Direction::Right);
    game.set_direction(Direction::Down);
    assert_eq!(game.direction(), Direction::Down);
    game.set_direction(Direction::Up);
    assert_eq!(game.direction(), Direction::Down);
    game.set_direction(Direction::Left);
    assert_eq!(game.direction(), Direction::Left);
    game.set_direction(Direction::Right);
    assert_eq!(game.direction(), Direction::Left);
    assert_eq!(Direction::Up.opposite(), Direction::Down);
    assert_eq!(Direction::Right.opposite(), Direction::Left);
}

#[test]
fn ticks_after_game_over_change_nothing() {
    let mut game = Game::new(10, 10, 4).unwrap();
    game.set_snake(vec![(7, 3)]);
    game.clear_food();
    game.update();
    assert!(game.is_game_over());
    let snake = game.snake().clone();
    let food = game.food().clone();
    for _ in 0..5 {
        game.update();
        assert!(game.is_game_over());
        assert_eq!(game.snake().clone(), snake);
        assert_eq!(game.food().clone(), food);
        assert_eq!(game.direction(), Direction::Right);
    }
}

fn drive(game: &mut Game, steps: usize) -> Vec<(Vec<Cell>, Vec<Cell>, bool)> {
    let turns = [Direction::Down, Direction::Left, Direction::Up, Direction::Right];
    let mut trace = Vec::new();
    for step in 0..steps {
        if step % 3 == 0 {
            game.set_direction(turns[(step / 3) % 4]);
        }
        game.update();
        trace.push((game.snake().clone(), game.food().clone(), game.is_game_over()));
    }
    trace
}

#[test]
fn same_seed_gives_same_game() {
    let mut a = Game::new(20, 16, 77).unwrap();
    let mut b = Game::new(20, 16, 77).unwrap();
    assert_eq!(a.snake().clone(), b.snake().clone());
    assert_eq!(a.food().clone(), b.food().clone());
    assert_eq!(drive(&mut a, 40), drive(&mut b, 40));
}

#[test]
fn invariants_hold_along_a_run() {
    for seed in 0..10u64 {
        let mut game = Game::new(14, 12, seed).unwrap();
        let trace = drive(&mut game, 60);
        let mut prev_len = 1;
        for (snake, food, over) in trace {
            assert!(has_no_duplicates(&snake));
            assert!(has_no_duplicates(&food));
            for f in &food {
                assert!(f.0 >= 1 && f.0 < 12 && f.1 >= 1 && f.1 < 10);
                assert!(!snake.contains(f));
            }
            if !over {
                assert!(snake.len() == prev_len || snake.len() == prev_len + 1);
                assert_eq!(food.len(), FOOD_TARGET);
            }
            prev_len = snake.len();
        }
    }
}
