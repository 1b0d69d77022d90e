//! Bidirectional mapping between an in-memory model of word-processing
//! document elements and their XML wire representation.
//!
//! The write path builds exact, schema-conformant byte sequences through
//! [`xml_builder::XMLBuilder`]; the read path decodes byte streams through a
//! small recursive-descent scanner, attribute decoders that tolerate the
//! lexical spellings of booleans and measurements, and a duplicate-resolution
//! pass that keeps the last occurrence per key.

pub mod documents;
pub mod errors;
pub mod reader;
pub mod resolve;
pub mod strings;
pub mod xml_builder;

pub use documents::abstract_numbering::AbstractNumbering;
pub use documents::comment_extended::CommentExtended;
pub use documents::comments_extended::CommentsExtended;
pub use documents::div::Div;
pub use documents::font_scheme::FontGroup;
pub use documents::font_scheme::FontScheme;
pub use documents::font_scheme::FontSchemeFont;
pub use documents::level::Level;
pub use documents::level::LevelJc;
pub use documents::level::LevelText;
pub use documents::level::NumberFormat;
pub use documents::level::ParagraphProperty;
pub use documents::level::Start;
pub use documents::paragraph::Paragraph;
pub use documents::paragraph::Run;
pub use documents::table_cell::TableCell;
pub use documents::table_cell::TableCellContent;
pub use documents::table_cell::TableCellProperty;
pub use documents::web_settings::WebSettings;
pub use errors::ReaderError;
pub use reader::attributes::is_false;
pub use reader::attributes::read_bool;
pub use reader::attributes::BoolValue;
pub use reader::from_xml::FromXML;
pub use reader::scan::Attribute;
pub use resolve::resolve_duplicates;
pub use resolve::Keyed;
pub use xml_builder::BuildXML;
pub use xml_builder::XMLBuilder;
