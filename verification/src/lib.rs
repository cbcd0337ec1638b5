//! Core engine of an HTTP request composer: building and classifying
//! dispatched requests, a workspace index of saved request files, the JSON
//! codec for those files, and a read-only view of version-control status.
pub mod config;
pub mod dispatch;
pub mod gitstatus;
pub mod json;
pub mod method;
pub mod query;
pub mod record;
pub mod text;
pub mod workspace;
