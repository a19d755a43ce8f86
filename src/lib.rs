//! Cursor themes: resolution of a theme name into shape icons over several
//! search roots and an inheritance chain, and extraction of pixel frames from
//! the two icon formats (legacy bitmap files and SVG directories).

pub mod frames;
pub mod index;
pub mod paths;
pub mod text;
pub mod theme;

pub use frames::{nearest_frames, svg_frames, xcursor_frames, Image};
pub use index::theme_inherits;
pub use paths::{join_path, search_roots};
pub use theme::{Cursor, CursorTheme, DirEntry, EntryKind, Format, Listing, Resolver, ThemeDir};
