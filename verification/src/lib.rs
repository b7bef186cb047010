//! A Monte-Carlo tree search engine for two-player, perfect-information,
//! zero-sum board games, with cross-turn tree reuse and a choice of leaf
//! evaluation: random playout, or a flood-fill territory heuristic.
//!
//! The engine is generic over [`game::GamePosition`], the contract a game
//! adapter must meet. All values are fixed-point integers: a leaf evaluation
//! is a number of thousandths in `0 ..= 1000`.

pub mod clock;
pub mod engine;
pub mod eval;
pub mod game;
pub mod node;
pub mod num;
pub mod rng;
pub mod table;
pub mod territory;

pub use engine::choose_move;
pub use engine::game_outcome;
pub use engine::reuse_root;
pub use engine::Config;
pub use engine::Outcome;
pub use eval::Policy;
pub use game::GamePosition;
pub use game::Side;
pub use node::Node;
