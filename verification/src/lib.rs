//! A small cellular-automaton playground: a dense 2-D grid of byte-valued
//! cells, Life-family birth/survival rules, a double-buffered automaton, and
//! two pathfinding routines (breadth-first search and A*) over the same grid.

mod automaton;
mod grid;
mod path;
mod rules;

pub use automaton::Automaton;
pub use automaton::next_cell;

pub use rules::ConstRules;
pub use rules::DynamicRules;
pub use rules::IsRules;
pub use rules::birth_part;
pub use rules::digits_of;
pub use rules::has_birth_marker;
pub use rules::has_survival_marker;
pub use rules::lemma_b3s23_is_life;
pub use rules::lemma_b3s23_parses;
pub use rules::life;
pub use rules::maze;
pub use rules::mazecetric;
pub use rules::seeds;
pub use rules::survival_part;

pub use path::is_route;
pub use path::lemma_blocked_start_no_path;
pub use path::lemma_searches_agree;
pub use path::path_points_view;
pub use path::path_result_ok;
pub use path::route_exists;

pub use grid::Grid;
pub use grid::GridDim;
pub use grid::Point;
pub use grid::adjacent4;
pub use grid::lemma_index_roundtrip;
pub use grid::lemma_outside_cells_count_dead;
