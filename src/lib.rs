//! In-memory registry of positioned entities ("players") shared by many
//! clients, the change events that every mutation publishes, the decisions of
//! a per-connection subscription session, and the ordering of map files.

mod player;
mod event;
mod registry;
mod session;
mod maps;

pub use player::{
    Player, PlayerState, states, has_id, set_pos, digit_char, decimal, id_text,
    lemma_id_text_injective,
};
pub use event::{Event, Change, apply, replay};
pub use registry::{
    Registry, RegistryModel, Op, step, emitted, run, lemma_step_publishes_its_effect,
    lemma_subscriber_replay_matches, lemma_created_ids_distinct, lemma_move_unknown_changes_nothing,
    lemma_clear_empties,
};
pub use session::{
    Phase, Signal, Action, Reply, Session, next_phase, reply, run_session, sent, is_closing,
    forwarded, published, lemma_closed_sends_nothing, lemma_streaming_forwards_in_order,
    lemma_attached_session_sends, lemma_subscriber_mirrors_registry,
};
pub use maps::{
    name_bytes, is_json_name, find_byte, second_field, is_digit, all_digits, digits_value,
    parse_u32, map_stem, map_number, lex_lt, map_le, maps_sorted, json_names, number_of_map, map_precedes,
    sort_maps, is_map_file, json_maps, list_maps,
};
