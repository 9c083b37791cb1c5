//! Directory browsing and file download over HTTP, and the password report of the
//! command line: the parts that decide and render.
//!
//! * [`resolve`] turns a request into a path that stays in the served directory.
//! * [`request`] decides, look by look at the disk, what a request is answered with.
//! * [`entries`] and [`listing`] make the page of a directory; [`pages`] states what stands on it,
//!   [`links`] where its links lead.
//! * [`media`] tells the media type of a file, [`size`] and [`modified`] show size and time.
//! * [`error`] says what a client is told when a request fails.
//! * [`genpass`] reports a generated password.
//!
//! Underneath, [`components`] reads paths as bytes, [`paths`] holds what is taken for granted
//! of `std::path`, [`encoding`] relates text to its bytes, and [`text`] builds text.

pub mod components;
pub mod encoding;
pub mod entries;
pub mod error;
pub mod genpass;
pub mod links;
pub mod listing;
pub mod media;
pub mod modified;
pub mod pages;
pub mod paths;
pub mod request;
pub mod resolve;
pub mod size;
pub mod text;

pub use crate::entries::{collect_entries, is_hidden, DirItem, ItemMeta, ListingEntry};
pub use crate::error::ServeError;
pub use crate::genpass::{password_report, GenPassOpts, GenPassReport, StrengthError};
pub use crate::listing::{render_breadcrumb, render_entry_row, render_listing};
pub use crate::media::mime_for;
pub use crate::modified::ModTime;
pub use crate::request::{advance, open_path, open_root, FileKind, Head, Step};
pub use crate::resolve::safe_join;
pub use crate::size::human_size;
pub use crate::text::html_escape;
