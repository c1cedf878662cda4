//! A Monte Carlo search tree for the game of Go.

pub mod arithmetic;
pub mod best;
pub mod children;
pub mod color;
pub mod double;
pub mod insert;
pub mod invariants;
pub mod laws;
pub mod laws_best;
pub mod laws_pretty;
pub mod laws_record;
pub mod laws_select;
pub mod laws_storage;
pub mod laws_text;
pub mod model;
pub mod moves;
pub mod node;
pub mod notation;
pub mod percentile;
pub mod pretty;
pub mod rank;
pub mod score;
pub mod search;
pub mod select;
pub mod series;
pub mod sgf;
pub mod single;
pub mod text;
pub mod vertex;

pub use best::Lottery;
pub use children::{
    BigChildrenImpl, Child, ChildMut, ChildrenImpl, ChildrenNonZeroIter, SmallChildrenImpl,
};
pub use color::Color;
pub use double::Double;
pub use insert::{can_insert, insert};
pub use node::Node;
pub use percentile::percentile;
pub use pretty::{to_pretty, GreedyPath, PrettyVertex, ToPretty};
pub use score::{FPU, PUCT};
pub use search::{probe, NodeTrace};
pub use sgf::{to_sgf, Position, ToSgf};
pub use single::{argmax_count, argmax_single, Single};
pub use vertex::{x_of, y_of, Placement};
