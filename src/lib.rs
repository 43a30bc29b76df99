//! Shape patterns for multi-dimensional arrays: a small pattern language
//! (`"b ... (h p) (w p) c"`), its parser, and a matcher that binds the named
//! dimensions of a concrete shape.

pub mod bindings;
pub mod cache;
pub mod matching;
pub mod parser;
pub mod pattern;
pub mod text;

pub use bindings::{
    collect_binding_map, collect_sorted_binding_list, lookup_binding, BindingMap, BindingName,
    ShapeBindingSource,
};
pub use cache::{cached_parse_shape_pattern, ParseCache};
pub use matching::ShapeMatch;
pub use parser::parse_shape_pattern;
pub use pattern::{PatternComponent, ShapePattern, ShapePatternError};
