//! A single-pass, line-oriented reformatter for loosely structured markup
//! text. It normalizes line endings, classifies each non-blank line by its
//! structural role, removes lines whose whitespace-insensitive signature was
//! already seen (structural container tags are exempt), and re-indents the
//! surviving lines to reflect nesting depth.

pub mod chars;
pub mod classify;
pub mod engine;
pub mod filename;
pub mod key;
pub mod laws;
pub mod text;
pub mod trusted;

pub use classify::is_container_element;
pub use classify::is_self_contained;
pub use classify::is_opening_tag;
pub use classify::is_closing_tag;
pub use engine::process_xml_with_deduplication;
pub use filename::get_output_filename;
pub use filename::u64_to_dec;
pub use key::normalize_whitespace;
pub use text::clean_content;

