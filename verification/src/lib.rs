//! A verified single-user task tracker: an in-memory store of tasks
//! (message + status) with create/remove/update/mark/list operations,
//! a canonical JSON codec for whole-file persistence, and a command
//! dispatcher that maps argument vectors to store actions.

pub mod codec;
pub mod dispatch;
pub mod laws;
pub mod num;
pub mod store;
