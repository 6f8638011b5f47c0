//! Offline-first core of a minimal Mattermost client: the data model, the
//! local cache with its queue of outgoing messages, the interpretation of
//! the server's replies, and the decisions that the commands take.

pub mod cache;
pub mod decimal;
pub mod json;
pub mod mattermost;
pub mod models;
pub mod session;
pub mod table;
pub mod timeline;
