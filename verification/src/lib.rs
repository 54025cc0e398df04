//! Placement and request logic of a small replicated key-value index: which
//! volume servers hold a key, where on them its blob lives, and how the
//! index answers GET, PUT and DELETE requests.

pub mod base64_laws;
pub mod hashing;
pub mod hexfmt;
pub mod placement;
pub mod keypath;
pub mod record;
pub mod reply;
pub mod requests;
pub mod settings;
