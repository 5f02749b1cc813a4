//! Clipboard history: the record store's rules, the native bitmap decoder,
//! clipboard text decoding and the polling monitor's decisions.

mod bitmap;
mod capture;
mod error;
mod item;
mod monitor;
mod store;
mod util;

pub use item::{ClipboardItem, CustomFilter, ItemView};
pub use util::now_ts;
pub use error::{CaptureError, StoreError};
pub use bitmap::{decode_dib, lemma_first_output_row, parse_dib_header, DecodedImage, DibHeader, HEADER_LEN};
pub use capture::{ansi_text, encode_clipboard_dib, image_file_name, wide_text, IMAGE_DIR_NAME};
pub use store::{
    lemma_add_twice_keeps_one_record, lemma_clear_keeps_exactly_favorites,
    lemma_query_case_irrelevant, lemma_toggle_even_times_restores, lemma_toggle_twice_restores, contains_chars, ClipboardHistory,
};
pub use monitor::{MonitorState, POLL_INTERVAL_MS};
