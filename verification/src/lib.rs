//! Locating `@[path:line:column]` source annotations inside text.
//!
//! The library finds the annotations of a document, reads the locators they
//! hold, converts between byte offsets and positions of line and UTF-16
//! column, and builds the jump targets and the hover text that an editor
//! shows for them. Text is handled as UTF-8 bytes, and the contracts speak
//! of those bytes.

pub mod decimal;
pub mod documents;
pub mod encoding;
pub mod hover;
pub mod links;
pub mod locator;
pub mod resolver;
pub mod scanner;
pub mod text_index;
pub mod toolchain;
pub mod whitespace;

pub use documents::DocumentStore;
pub use hover::{
    build_column_indicator_line, hover_target, markdown_language_from_path, render_summary,
    render_token, summary_hover_byte_range, token_block, Hover, HoverTarget,
};
pub use links::{collect_location_links, goto_definition, LocationLink};
pub use locator::{
    format_locator, parse_columns, parse_locator_token, parse_tokens_from_annotation,
    split_locator_tokens, Locator, ParsedToken,
};
pub use resolver::resolve_target_url;
pub use scanner::{find_annotation_at_offset, find_annotations, AnnotationSpan};
pub use text_index::{
    compute_line_starts, fits_positions, line_start_for_offset, line_text_at, offset_to_position,
    position_to_offset, Position, Range, MAX_TEXT_LEN,
};
pub use toolchain::{
    summarize_text, try_summarize_output, Command, FirrtlSourceLocatorExtension, SUMMARY_LIMIT,
};
