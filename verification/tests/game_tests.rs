use labyrinth::game::GameAction;
use labyrinth::game::Labyrinth;
use labyrinth::maze::PowerUP;
use labyrinth::settings::Settings;

fn game_settings(seed: u64) -> Settings {
    Settings {
        height: 20,
        width: 20,
        words: vec!["cat".to_string(), "dog".to_string()],
        seed,
        word_prob_permille: 500,
        wall_nodes: 2,
        nb_power_ups: 4,
        steps: 10,
        min_path_div: 5,
    }
}

fn start_game(mut seed: u64) -> Labyrinth {
    for _ in 0..20 {
        if let Ok(game) = Labyrinth::new(game_settings(seed)) {
            return game;
        }
        seed += 1;
    }
    panic!("no seed in the range produced a game");
}

#[test]
fn test_new_game_state() {
    let game = start_game(7);
    assert_eq!(game.score, 0);
    assert_eq!(game.steps, 10);
    assert!(!game.won);
    assert!(!game.lost);
    // the window opens with sight radius three
    assert_eq!(game.visible.cells.len(), 7);
    assert_eq!(game.visible.selected, (3, 3));
}

#[test]
fn test_score_formula() {
    // a three-letter word: l = 5, 5 * (5 / 3) = 5
    assert_eq!(Labyrinth::score("cat"), 5);
    // l = 6, 6 * 2 = 12
    assert_eq!(Labyrinth::score("maze"), 12);
    // l = 2, 2 * 0 = 0
    assert_eq!(Labyrinth::score(""), 0);
}

#[test]
fn test_selection_clamped() {
    let mut game = start_game(13);
    // the selection never leaves the ring around the center
    for _ in 0..5 {
        game.update(GameAction::GoUp);
    }
    assert_eq!(game.visible.selected.0, 2);
    for _ in 0..5 {
        game.update(GameAction::GoDown);
    }
    assert_eq!(game.visible.selected.0, 4);
    for _ in 0..5 {
        game.update(GameAction::GoLeft);
    }
    assert_eq!(game.visible.selected.1, 2);
    for _ in 0..5 {
        game.update(GameAction::GoRight);
    }
    assert_eq!(game.visible.selected.1, 4);
}

#[test]
fn test_confirm_into_wall_costs_nothing() {
    let mut game = start_game(19);
    // walling in the whole neighborhood makes every move refused
    let (px, py) = game.maze.player_location;
    for i in 0..game.maze.height {
        for j in 0..game.maze.width {
            if (i, j) != (px, py) {
                game.maze.cells[i][j].wall = true;
            }
        }
    }
    game.update_visual();
    game.update(GameAction::GoUp);
    let steps_before = game.steps;
    let location_before = game.maze.player_location;
    game.update(GameAction::Confirm);
    assert_eq!(game.steps, steps_before);
    assert_eq!(game.maze.player_location, location_before);
}

#[test]
fn test_confirm_moves_and_spends_a_step() {
    let mut game = start_game(29);
    // find a free neighbor of the start and step onto it
    let (px, py) = game.maze.player_location;
    let mut target: Option<(usize, usize)> = None;
    for d in 0..8 {
        if let Some(t) = game.maze.valid_coordenates((px, py), d) {
            if !game.maze.cells[t.0][t.1].visited && !game.maze.cells[t.0][t.1].exit
                && game.maze.cells[t.0][t.1].power_up.is_none() {
                target = Some(t);
                break;
            }
        }
    }
    if let Some((tx, ty)) = target {
        let steps_before = game.steps;
        let score_before = game.score;
        // steer the selection onto the target cell
        let row_act = if tx < px { GameAction::GoUp } else if tx > px { GameAction::GoDown } else {
            GameAction::GoUp
        };
        if tx != px {
            game.update(row_act);
        } else {
            game.update(GameAction::GoUp);
            game.update(GameAction::GoDown);
        }
        let col_act = if ty < py { GameAction::GoLeft } else if ty > py {
            GameAction::GoRight
        } else {
            GameAction::GoLeft
        };
        if ty != py {
            game.update(col_act);
        } else {
            game.update(GameAction::GoLeft);
            game.update(GameAction::GoRight);
        }
        game.update(GameAction::Confirm);
        assert_eq!(game.maze.player_location, (tx, ty));
        assert!(game.maze.cells[tx][ty].visited);
        // one step spent, unless a found word repaid it
        assert!(game.steps >= steps_before - 1);
        assert!(game.score >= score_before);
    }
}

/// Ariadne's thread lays out exactly the route the engine reports.
#[test]
fn test_ariadne_thread_lays_route() {
    let mut game = start_game(31);
    game.apply_power_up(PowerUP::AriadneThread);
    let route = game.maze.shortest_route().expect("a generated maze has a route");
    assert_eq!(game.visible.thread.len(), route.len());
    for (t, r) in game.visible.thread.iter().zip(route.iter()) {
        assert_eq!((t.0, t.1), (r.0 as i128, r.1 as i128));
    }
}

/// A torch in effect widens the visible window by one ring.
#[test]
fn test_torch_widens_window() {
    let mut game = start_game(41);
    game.apply_power_up(PowerUP::HeliosTorch);
    game.update_visual();
    assert_eq!(game.visible.cells.len(), 9);
}
