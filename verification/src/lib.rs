//! A word-hunting labyrinth: a multi-pattern streaming matcher built as a
//! trie with failure links, a breadth-first reachability engine over an
//! eight-directional grid, and a seeded procedural generator that fills a
//! maze with word-biased characters, carves walls, and places the exit,
//! the start and the collectibles so that the maze is always solvable.

pub mod game;
pub mod matcher;
pub mod maze;
pub mod rng;
pub mod settings;

pub use matcher::Matcher;
pub use maze::Maze;
pub use maze::MazeCell;
pub use maze::PowerUP;
