//! CTC beam-search decoding over log-domain scores.
//!
//! Scores are fixed-point integers: a score of `s` stands for `s / 1000`
//! nats (natural-log units). All score arithmetic in this crate is exact
//! integer arithmetic, which keeps the score order total and well defined.

mod decoder;
mod score;
mod select;
mod state;

pub use decoder::{add_candidate, decode_begin, select_targets, DecoderOptions, DecoderOutput};
pub use score::log_add;
pub use select::top_k_by_score;
pub use state::{combine, sort_states, DecoderState};
