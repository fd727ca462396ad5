//! Data carried to the flashcard service. The HTTP client itself lives with
//! the caller; the library holds the card data and assembles its text
//! fields (see the text and pinyin modules).

use vstd::prelude::*;

verus! {

/// Where the flashcard service is reached.
pub struct AnkiConnect {
    pub port: usize,
    pub address: String,
}

/// Which deck, model and fields cards are written to.
pub struct DeckModelInfo {
    pub deck: String,
    pub model: String,
    pub word_field: String,
    pub sent_field: String,
    pub dict_field: String,
    pub img_field: String,
    pub audio_field: String,
    pub word_pinyin_field: String,
}

/// One media attachment: where to fetch it and what to store it as.
pub struct Media {
    pub filename: String,
    pub url: String,
}

/// One card's data, ready to send.
pub struct NoteData {
    pub word: String,
    pub sentence: String,
    pub meaning: String,
    pub image: Option<Media>,
    pub audio: Option<Media>,
    pub word_pinyin: String,
}

/// What the flashcard service answered to one add request.
pub struct AddResult {
    pub result: usize,
    pub error: String,
}

} // verus!
