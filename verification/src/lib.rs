//! A small markup-scraping core: a permissive tokenizer for tag/text
//! structure, a stack-based tree builder, and a query engine that selects
//! tree nodes by tag name or by class attribute.

pub mod attrs;
pub mod html;
pub mod laws;
pub mod parser;
pub mod selector;
pub mod text;

pub use attrs::AttrMap;
pub use html::HtmlElement;
pub use html::HtmlParser;
pub use parser::Parser;
pub use parser::Token;
pub use selector::Selection;
pub use selector::Selector;
pub use selector::select_by_class;
pub use selector::select_by_tag_name;
