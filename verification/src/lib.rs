//! A terminal-backed file chooser for the XDG desktop portal: the verified core.
//!
//! The library holds what the backend decides: configuration defaults and
//! validation, chooser and terminal command lines, decoding of portal options,
//! validation of chooser output, `file:` URI encoding of raw path bytes, the
//! portal response codes, and the portal-policy rewrite and lookup.

pub mod cancel;
pub mod chooser;
pub mod config;
pub mod lines;
pub mod options;
pub mod paths;
pub mod response;
pub mod selection;
pub mod portal_config;
pub mod text;
