//! A live, queryable view over append-only, line-delimited conversation logs.
//!
//! The library models the log directory as plain data: file contents are byte
//! vectors, identifiers and display text are strings, timestamps are integer
//! milliseconds.  Callers do the reading and writing of files and hand the
//! bytes in; every decision the library makes about those bytes is verified.
//!
//! The pieces: [`tail`] parses newly appended complete lines into messages
//! without ever consuming a partial write; [`convo`] answers whole-file
//! queries and the paginated views; [`history`] handles the roster log, the
//! deletion rewrite, and the durable hidden-session list; [`store`] owns the
//! caches and their invalidation rules; [`sessions`] assembles the externally
//! visible session list; [`watch`] classifies changed paths and debounces
//! event bursts; [`bus`] broadcasts notifications to independent subscribers;
//! [`json`] is the trusted boundary around the JSON field lookups.

pub mod alist;
pub mod bus;
pub mod convo;
pub mod history;
pub mod json;
pub mod models;
pub mod record;
pub mod sessions;
pub mod status;
pub mod store;
pub mod tail;
pub mod text;
pub mod watch;
