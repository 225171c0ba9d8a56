pub mod aec;
pub mod aec_laws;
pub mod analyze;
pub mod buffer_laws;
pub mod bytes;
pub mod decoder;
pub mod engine;
pub mod engine_laws;
pub mod event_log;
pub mod handling_laws;
pub mod host;
pub mod jitter;
pub mod jitter_laws;
pub mod packets;
pub mod playback_laws;
pub mod playout;
pub mod protocol;
pub mod protocol_laws;
pub mod pull_laws;
pub mod resampler;
pub mod rng;
pub mod sender;
pub mod sender_laws;
pub mod soundpad;
pub mod soundpad_laws;
pub mod store_laws;
pub mod text;
pub mod tool_laws;
pub mod wire_laws;
