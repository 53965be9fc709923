//! A small string-templating engine: placeholders of the form
//! `{{ <path> }}` in a text are resolved against a structured (JSON-like)
//! context value by a path-query language and substituted into the text.

pub mod context;
pub mod engine;
pub mod json_api;
pub mod render;
pub mod template;
pub mod value;

pub use context::ContextEntry;
pub use context::TemplateContext;
pub use engine::RegexTemplateEngine;
pub use engine::TemplateEngine;
pub use engine::format_str;
pub use template::Match;
pub use template::Template;
pub use value::JsonValue;
pub use value::SpecValue;
