//! A jigsaw-style puzzle library: rectangular grids of four-sided pieces,
//! a generator that builds grids whose neighbouring sides always mate,
//! a scrambler that strips the positional information from a grid, and a
//! backtracking solver that enumerates the distinct reassemblies of a
//! piece collection up to a caller-supplied cap.

mod edge;
mod piece;
mod pool;
mod puzzle;
mod rng;
mod solver;

pub use edge::Edge;
pub use edge::lemma_fits_symmetric;
pub use edge::lemma_inverse_involution;
pub use piece::Piece;
pub use piece::PositionClass;
pub use piece::piece_has_edge;
pub use piece::same_pieces_up_to_rotation;
pub use piece::lemma_rotation_preserves_class;
pub use piece::lemma_rotation_preserves_edges;
pub use piece::lemma_rotation_same_edges_and_class;
pub use piece::lemma_rotation_order_four;
pub use pool::Pool;
pub use pool::bucket_contains;
pub use pool::cand_ok;
pub use pool::cands_lists;
pub use pool::wanted_from_slot;
pub use puzzle::Puzzle;
pub use rng::Rng;
pub use solver::SolveError;
pub use solver::anchor_rotation;
pub use solver::is_anchor;
pub use solver::has_start_piece;
pub use solver::slot_class;
pub use solver::valid_solution;
pub use solver::classes_match;
