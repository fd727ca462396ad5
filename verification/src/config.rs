//! The program configuration, passed explicitly into the lookup and store
//! layers. Reading and parsing the configuration file is the caller's
//! business; the library only carries the parsed values.

use crate::anki::DeckModelInfo;
use vstd::prelude::*;

verus! {

/// Per-dictionary policy from the configuration file, synced into the
/// store's dictionary rows.
pub struct DictInfo {
    pub enabled: bool,
    pub priority: i64,
    pub fallback: bool,
}

/// Media fetching policy.
pub struct MediaConfig {
    pub custom_audio_server: String,
    pub fallback_forvo: bool,
    pub bail_on_empty: bool,
    pub add_picture: bool,
}

/// Where the flashcard service listens.
pub struct AnkiConnectConfig {
    pub port: usize,
    pub address: String,
}

/// Lookup policy.
pub struct LookupConfig {
    pub sort_freq: bool,
}

/// The whole configuration: dictionary policies keyed by title, in file
/// order.
pub struct Config {
    pub words_file: String,
    pub failed_words_file: String,
    pub anki: DeckModelInfo,
    pub dict: Vec<(String, DictInfo)>,
    pub media: MediaConfig,
    pub ankiconnect: AnkiConnectConfig,
    pub lookup: LookupConfig,
    pub is_japanese: bool,
}

} // verus!
