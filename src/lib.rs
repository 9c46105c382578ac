pub mod coords;
pub mod engine;
pub mod game;
pub mod render;
pub mod topology;
pub mod yen;

pub use coords::{Coordinates, PlayerId};
pub use engine::{DisjointSet, EngineError, GameEngine};
pub use game::{other_player, Cell, GameAction, GameStatus, GameY, GameYError, Movement};
pub use render::RenderOptions;
pub use topology::{size_supported, BoardTopology, CellIndex, RegionMask, TriangularTopology};
pub use yen::YEN;
