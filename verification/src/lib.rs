//! Verified core of a viewer for coding-agent session transcripts: reading
//! transcript lines, live-chain resolution, ongoing detection, token
//! accounting and the session metadata scan, the session picker (ordering,
//! caching, date grouping), the running-session registry, bookmarks, version
//! strings and bind-address selection.

pub mod registry;
pub mod session;
pub mod state;
pub mod strmap;
pub mod strset;
pub mod text;
pub mod tokens;
pub mod time;
pub mod api;
pub mod bookmarks;
pub mod dategroup;
pub mod json;
pub mod lines;
pub mod live_chain;
pub mod meta;
pub mod metadata;
pub mod net;
pub mod ongoing;
pub mod picker;
pub mod version;
