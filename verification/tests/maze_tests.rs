use labyrinth::maze::GenError;
use labyrinth::maze::Maze;
use labyrinth::maze::MazeCell;
use labyrinth::maze::PowerUP;
use labyrinth::settings::Settings;

fn small_settings(seed: u64) -> Settings {
    Settings {
        height: 20,
        width: 20,
        words: vec!["cat".to_string(), "dog".to_string(), "maze".to_string()],
        seed,
        word_prob_permille: 500,
        wall_nodes: 2,
        nb_power_ups: 4,
        steps: 10,
        min_path_div: 5,
    }
}

fn generate_some(mut seed: u64) -> (Maze, Settings) {
    for _ in 0..20 {
        let settings = small_settings(seed);
        if let Ok(maze) = Maze::new(&settings) {
            return (maze, settings);
        }
        seed += 1;
    }
    panic!("no seed in the range produced a maze");
}

fn cells_equal(a: &MazeCell, b: &MazeCell) -> bool {
    a.value == b.value
        && a.power_up == b.power_up
        && a.wall == b.wall
        && a.visited == b.visited
        && a.exit == b.exit
}

/// Two runs from one seed and configuration give bit-identical mazes.
#[test]
fn test_determinism() {
    let (first, settings) = generate_some(11);
    let second = Maze::new(&settings).expect("the same settings regenerate");
    assert_eq!(first.height, second.height);
    assert_eq!(first.width, second.width);
    assert_eq!(first.player_location, second.player_location);
    for i in 0..first.height {
        for j in 0..first.width {
            assert!(cells_equal(&first.cells[i][j], &second.cells[i][j]), "cell {} {}", i, j);
        }
    }
}

/// A generated maze is solvable and the route is longer than the
/// configured threshold.
#[test]
fn test_solvability() {
    let (maze, settings) = generate_some(23);
    let route = maze.shortest_route().expect("a generated maze has a route to the exit");
    assert!(route.len() > (settings.height + settings.width) / settings.min_path_div);
}

/// No cell is both a wall and the exit; exactly one cell is the exit;
/// collectibles sit on free cells that are neither the exit nor the
/// start, and exactly as many as the settings asked for.
#[test]
fn test_placement_exclusivity() {
    let (maze, settings) = generate_some(37);
    let mut exits = 0;
    let mut ups = 0;
    for i in 0..maze.height {
        for j in 0..maze.width {
            let cell = &maze.cells[i][j];
            assert!(!(cell.wall && cell.exit));
            if cell.exit {
                exits += 1;
            }
            if cell.power_up.is_some() {
                ups += 1;
                assert!(!cell.wall);
                assert!(!cell.exit);
                assert!((i, j) != maze.player_location);
            }
        }
    }
    assert_eq!(exits, 1);
    assert_eq!(ups, settings.nb_power_ups);
    // the fill reaches the whole open grid, the center included
    assert_ne!(maze.cells[maze.height / 2][maze.width / 2].value, '\0');
    let (px, py) = maze.player_location;
    assert!(!maze.cells[px][py].wall);
    assert!(maze.cells[px][py].visited);
    assert!(!maze.cells[px][py].exit);
}

/// Walking the returned route from the player lands on the exit after
/// exactly `route.len()` steps, each consecutive pair being
/// eight-directionally adjacent and wall-free.
#[test]
fn test_route_reconstruction() {
    let (maze, _) = generate_some(53);
    let route = maze.shortest_route().expect("a generated maze has a route to the exit");
    let mut prev = maze.player_location;
    for &(i, j) in route.iter() {
        assert!(i < maze.height && j < maze.width);
        assert!(!maze.cells[i][j].wall);
        let di = (i as i64 - prev.0 as i64).abs();
        let dj = (j as i64 - prev.1 as i64).abs();
        assert!(di <= 1 && dj <= 1 && (di, dj) != (0, 0));
        prev = (i, j);
    }
    let last = *route.last().expect("the route is nonempty");
    assert!(maze.cells[last.0][last.1].exit);
}

/// A route query against a mutated wall layout answers for the current
/// state: walling the player in leaves no route.
#[test]
fn test_route_after_mutation() {
    let (mut maze, _) = generate_some(71);
    let (px, py) = maze.player_location;
    for i in 0..maze.height {
        for j in 0..maze.width {
            if (i, j) != (px, py) {
                maze.cells[i][j].wall = true;
            }
        }
    }
    assert!(maze.shortest_route().is_none());
}

#[test]
fn test_zero_dimension_rejected() {
    let mut settings = small_settings(1);
    settings.height = 0;
    assert!(matches!(Maze::new(&settings), Err(GenError::InvalidConfig)));
    let mut settings = small_settings(1);
    settings.width = 0;
    assert!(matches!(Maze::new(&settings), Err(GenError::InvalidConfig)));
    let mut settings = small_settings(1);
    settings.min_path_div = 0;
    assert!(matches!(Maze::new(&settings), Err(GenError::InvalidConfig)));
}

/// On a one-cell maze the start can never leave the exit's cell, so
/// placement gives up instead of looping forever.
#[test]
fn test_retries_exhausted() {
    let settings = Settings {
        height: 1,
        width: 1,
        words: vec![],
        seed: 5,
        word_prob_permille: 0,
        wall_nodes: 0,
        nb_power_ups: 0,
        steps: 1,
        min_path_div: 1,
    };
    assert!(matches!(Maze::new(&settings), Err(GenError::RetriesExhausted)));
}

#[test]
fn test_valid_coordenates() {
    let (maze, _) = generate_some(3);
    // direction 7 is one row up: from the top edge it leaves the grid
    assert_eq!(maze.valid_coordenates((0, 5), 7), None);
    // direction 3 is one row down
    match maze.valid_coordenates((0, 5), 3) {
        Some((i, j)) => {
            assert_eq!((i, j), (1, 5));
            assert!(!maze.cells[1][5].wall);
        },
        None => {
            assert!(maze.cells[1][5].wall);
        },
    }
}

#[test]
fn test_wall_cell_constructor() {
    let cell = MazeCell::wall();
    assert!(cell.wall);
    assert!(!cell.exit);
    assert!(!cell.visited);
    assert!(cell.power_up.is_none());
    assert_eq!(cell.value, '\0');
}

#[test]
fn test_powerup_descriptions_distinct() {
    let all = [
        PowerUP::AriadneThread,
        PowerUP::HeliosTorch,
        PowerUP::OdinDraupnir,
        PowerUP::ThorMjolnir,
        PowerUP::BifrostBridge,
    ];
    for a in 0..all.len() {
        for b in 0..a {
            assert_ne!(all[a].description(), all[b].description());
        }
    }
}

/// The visible window pads cells beyond the maze's edge with walls and
/// copies the rest from the maze.
#[test]
fn test_visible_area_window() {
    let (maze, _) = generate_some(91);
    let view = maze.visible_area(3);
    assert_eq!(view.cells.len(), 7);
    let (px, py) = maze.player_location;
    for gi in 0..7usize {
        assert_eq!(view.cells[gi].len(), 7);
        for gj in 0..7usize {
            let mi = px as i64 - 3 + gi as i64;
            let mj = py as i64 - 3 + gj as i64;
            if mi >= 0 && mj >= 0 && (mi as usize) < maze.height && (mj as usize) < maze.width {
                assert!(cells_equal(
                    &view.cells[gi][gj],
                    &maze.cells[mi as usize][mj as usize],
                ));
            } else {
                assert!(view.cells[gi][gj].wall);
            }
        }
    }
    assert_eq!(view.selected, (3, 3));
    assert_eq!(view.offset, (px as i128 - 3, py as i128 - 3));
}

#[test]
fn test_get_powerup() {
    let mut view = labyrinth::maze::VisibleArea {
        cells: vec![vec![MazeCell::blank(); 3]; 3],
        selected: (1, 1),
        thread: Vec::new(),
        offset: (0, 0),
    };
    assert_eq!(view.get_powerup(), None);
    view.cells[1][1].power_up = Some(PowerUP::HeliosTorch);
    assert_eq!(view.get_powerup(), Some(PowerUP::HeliosTorch));
    view.cells[1][1].visited = true;
    assert_eq!(view.get_powerup(), None);
}

/// Every character the generator wrote is a lowercase letter or occurs
/// in the dictionary.
#[test]
fn test_characters_from_dictionary() {
    let (maze, settings) = generate_some(101);
    let dict: std::collections::BTreeSet<char> =
        settings.words.iter().flat_map(|w| w.chars()).collect();
    for i in 0..maze.height {
        for j in 0..maze.width {
            let v = maze.cells[i][j].value;
            assert_ne!(v, '\0');
            assert!(v.is_ascii_lowercase() || dict.contains(&v));
        }
    }
}
