//! Versioned binary persistence: a streaming codec for fixed-width
//! little-endian primitives, length-prefixed strings and sequences, a
//! version-tag dispatch protocol for schema evolution, and the state machine
//! that loads user preferences in the background with default fallback.

mod bridge;
mod channel;
mod codec;
mod error;
mod orchestrator;
mod prefs;
mod storage;
mod wire;

pub use bridge::{blob_decodes, blob_enc, PersistSerializer};
pub use channel::{ByteSink, ByteSource, MemSink, MemSource, PersistReader, PersistWriter};
pub use codec::{
    decode_value, encode_value, lemma_round_trip, lemma_seq_enc_split, read_le_uint, round_trip,
    seq_enc, seq_encodable, write_le_uint, Persist,
};
pub use error::{is_read_error, is_write_error, PersistError};
pub use orchestrator::{
    is_run, lemma_load_starts_once, lemma_settled_is_absorbing, tick_phase, LoadAction, LoadState,
    PrefLoader,
};
pub use prefs::{
    default_keyboard_pref, lemma_payload_injective, lemma_record_leads_with_current_tag,
    InputKeyboardPref, KeyId, INPUT_KEYBOARD_PREF_VERSION, KEY_CODE_A, KEY_CODE_D, KEY_CODE_S,
    KEY_CODE_W,
};
pub use storage::{LocalStorage, Storage};
pub use wire::{le_bytes, le_value, pow256};
