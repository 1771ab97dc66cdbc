//! Route randomiser: orders a game's objectives at random, weighted by the
//! player's preferences and constrained by the flags they chose and by each
//! objective's unlock condition.

pub mod conditions;
pub mod data;
pub mod generation;
pub mod interface;
pub mod route_laws;
pub mod selection;
pub mod weights;

pub use conditions::{check_flags, check_flags_reporting, filter_objectives};
pub use generation::{
    build_generated_route, gen_rng, generate_ordered_objectives,
    generate_ordered_objectives_reporting, GenerationError, RouteRng,
};
pub use selection::{
    ask_game_selection, ask_selection, ask_selections, game_choices, get_game_selection,
    selection_choices, Informable,
};
