use vstd::prelude::*;

mod board;
mod entity;
mod errors;
mod game;
mod names;
mod rng;
mod room;

pub use board::{
    is_perfect_square, lattice_links_at, lemma_links_in_range, lemma_neighbor_symmetry,
    room_names_of, views, Board,
};
pub use entity::{
    contains_name, distinct_names, first_match, lemma_contains_push, lemma_distinct_push,
    lemma_distinct_remove, lemma_move_round_trip, list_text, Entity,
};
pub use errors::GameError;
pub use game::{
    chars_placed, items_placed, lemma_single_ownership,
    lemma_take_drop_round_trip, names_distinct, report_line, report_text, rooms_distinct,
    same_except_characters, same_except_items, same_room_shell, setup_names, Game, GameStatus,
    Place, RoomView, Solution, SolutionView, State, WinningState, MAX_CLUES,
};
pub use names::{
    eq_ignore_case, fold_char, lemma_name_eq_reflexive, lemma_name_eq_symmetric,
    lemma_name_eq_transitive, name_eq, str_eq,
};
pub use room::{spec_direction, spec_opposite, Direction, Room};
