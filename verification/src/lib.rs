mod counting;
mod minesweeper;
mod random;

pub use counting::count_true;
pub use minesweeper::lemma_all_accounted_wins;
pub use minesweeper::lemma_flood_closed_step;
pub use minesweeper::lemma_flood_reaches;
pub use minesweeper::lemma_neighbor_count;
pub use minesweeper::lemma_open_flag_disjoint;
pub use minesweeper::sp_span;
pub use minesweeper::CellState;
pub use minesweeper::GameError;
pub use minesweeper::Minesweeper;
pub use minesweeper::OpenResult;
pub use minesweeper::Position;
pub use random::random_range;
