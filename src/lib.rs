//! A table widget for terminal user interfaces, with a verified constraint
//! splitter, a verified scrolling viewport and a small drawing surface.
pub mod layout;
pub mod style;
pub mod text;
pub mod row;
pub mod viewport;
pub mod buffer;
pub mod block;
pub mod table;
