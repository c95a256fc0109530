pub mod decomposition;
pub mod hand;
pub mod pool;
pub mod tile;

pub use hand::Hand;
pub use pool::TileSet;
pub use tile::{Color, Direction, Group, Icon, Rank, Tile};
