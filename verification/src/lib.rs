//! Pasta: the verified core of a small pastebin service.

pub mod crypto;
pub mod encoding;
pub mod hash;
pub mod slug;
pub mod text;
pub mod util;
pub mod paste;
pub mod service;
