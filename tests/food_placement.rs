use snake_engine::{Cell, Game};

#[test]
fn test_generate_food_within_bounds() {
    let mut game = Game::new(20, 20, 42).unwrap(); // Create a 20x20 game area
    game.clear_food(); // Clear initial food

    // Generate and test 50 food positions to ensure they're all within bounds
    for _ in 0..50 {
        game.generate_food();
        let food = game.food().first().unwrap();

        // Food should be within playable area (accounting for borders)
        assert!(food.0 >= 1 && food.0 <= 18, "Food x position {} should be within bounds 1..18", food.0);
        assert!(food.1 >= 1 && food.1 <= 18, "Food y position {} should be within bounds 1..18", food.1);

        game.clear_food(); // Clear for next iteration
    }
}

#[test]
fn test_generate_food_not_on_snake() {
    let mut game = Game::new(7, 7, 42).unwrap();
    game.clear_food();

    // Create a snake with multiple segments
    game.set_snake(vec![(5, 5), (5, 6), (5, 7), (6, 7), (7, 7)]);

    // Calculate total possible positions (accounting for borders)
    let width = game.frame_size().0.saturating_sub(4);
    let height = game.frame_size().1.saturating_sub(4);
    let total_positions = (width * height) as usize;
    let available_positions = total_positions - game.snake().len();

    // Generate food until we fill all available positions
    while game.food().len() < available_positions {
        game.generate_food();
    }

    // Food should not be on any snake segment
    for food in game.food() {
        assert!(!game.snake().contains(food), "Food {:?} should not be on snake {:?}", food, game.snake());
    }
}

fn all_play_cells(width: u16, height: u16) -> Vec<Cell> {
    let mut cells = Vec::new();
    for y in 1..height - 2 {
        for x in 1..width - 2 {
            cells.push((x, y));
        }
    }
    cells
}

#[test]
fn generated_food_is_free_and_new() {
    let mut game = Game::new(12, 9, 3).unwrap();
    for _ in 0..30 {
        let before = game.food().clone();
        game.generate_food();
        assert_eq!(game.food().len(), before.len() + 1);
        let placed = *game.food().last().unwrap();
        assert!(!before.contains(&placed));
        assert!(!game.snake().contains(&placed));
        assert!(placed.0 >= 1 && placed.0 < 10 && placed.1 >= 1 && placed.1 < 7);
    }
}

#[test]
fn generate_food_fills_the_last_free_cells() {
    let mut game = Game::new(7, 7, 5).unwrap();
    game.clear_food();
    game.set_snake(vec![(1, 1)]);
    // 16 playable cells, one under the snake.
    for _ in 0..15 {
        game.generate_food();
    }
    assert_eq!(game.food().len(), 15);
    let mut seen = game.food().clone();
    seen.push((1, 1));
    for c in all_play_cells(7, 7) {
        assert!(seen.contains(&c));
    }
}

#[test]
fn generate_food_on_full_board_changes_nothing() {
    let mut game = Game::new(7, 7, 9).unwrap();
    game.clear_food();
    game.set_snake(all_play_cells(7, 7));
    game.generate_food();
    assert!(game.food().is_empty());
    assert_eq!(game.pick_food_cell(&vec![(1, 1), (2, 2)]), None);
    assert_eq!(game.scan_free_cell(), None);
}

#[test]
fn pick_takes_first_free_draw() {
    let mut game = Game::new(10, 10, 1).unwrap();
    game.clear_food();
    game.set_snake(vec![(3, 3), (3, 4)]);
    game.set_food(vec![(5, 5)]);
    // Occupied, out of the playable area, then free.
    let draws = vec![(3, 4), (5, 5), (0, 2), (8, 1), (6, 2), (2, 6)];
    assert_eq!(game.pick_food_cell(&draws), Some((6, 2)));
}

#[test]
fn pick_falls_back_to_row_major_scan() {
    let mut game = Game::new(10, 10, 1).unwrap();
    game.clear_food();
    game.set_snake(vec![(1, 1), (2, 1), (3, 1)]);
    game.set_food(vec![(4, 1), (5, 1), (6, 1), (7, 1)]);
    // The first row is taken; the scan goes on with the second row.
    assert_eq!(game.pick_food_cell(&vec![]), Some((1, 2)));
    assert_eq!(game.pick_food_cell(&vec![(2, 1), (9, 9)]), Some((1, 2)));
    assert_eq!(game.scan_free_cell(), Some((1, 2)));
}

#[test]
fn pick_looks_at_no_more_than_max_attempts_draws() {
    let mut game = Game::new(10, 10, 1).unwrap();
    game.clear_food();
    game.set_snake(vec![(1, 1)]);
    let mut draws = vec![(1, 1); 100];
    draws.push((6, 6));
    assert_eq!(game.pick_food_cell(&draws), Some((2, 1)));
    draws[99] = (6, 6);
    assert_eq!(game.pick_food_cell(&draws), Some((6, 6)));
}

#[test]
fn is_free_cell_checks_area_snake_and_food() {
    let mut game = Game::new(10, 10, 1).unwrap();
    game.clear_food();
    game.set_snake(vec![(3, 3)]);
    game.set_food(vec![(4, 4)]);
    assert!(game.is_free_cell((1, 1)));
    assert!(game.is_free_cell((7, 7)));
    assert!(!game.is_free_cell((0, 1)));
    assert!(!game.is_free_cell((8, 1)));
    assert!(!game.is_free_cell((1, 8)));
    assert!(!game.is_free_cell((3, 3)));
    assert!(!game.is_free_cell((4, 4)));
}
