use vstd::prelude::*;

pub mod archetype_bots;
pub mod archetypes;
pub mod belief_bots;
pub mod bidding;
pub mod cards;
pub mod chance;
pub mod copycat_value;
pub mod counter_bots;
pub mod counter_sim;
pub mod dice;
pub mod face_bots;
pub mod face_model;
pub mod fixtures;
pub mod goof_game;
pub mod goof_players;
pub mod house_bots;
pub mod liar_players;
pub mod lookahead;
pub mod probe_cache;
pub mod rng;
pub mod standings;

verus! {

} // verus!
