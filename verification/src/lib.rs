//! Verified core of a Google Drive browser: Drive listings, token and cache
//! state, image scanning of Google Docs, and the folders that lead to matches.

pub mod text;
pub mod drive;
pub mod folders;
pub mod google;
pub mod json;
pub mod state;
pub mod order;
pub mod scan;
pub mod laws;
