//! The verified core of an in-memory image gallery.
pub mod app;
pub mod cache;
pub mod codec;
pub mod dates;
pub mod dirs;
pub mod encoding;
pub mod index;
pub mod listing;
pub mod names;
pub mod pages;
pub mod path;
pub mod serve;
pub mod status;
pub mod templates;
pub mod text;
pub mod upload;
pub mod watch;

pub use crate::app::load_image_info;
pub use crate::dirs::{relative_image_key, resolve_dirs, ImageDir};
pub use crate::index::scan_images;
pub use crate::listing::sort_image_list;
pub use crate::names::{is_supported_image_ext, sanitize_filename, unique_image_path};
