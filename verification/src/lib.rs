//! The model behind a thought map: thoughts waiting in an inbox, placed on a
//! map as nodes, and joined by connections.

pub mod action;
pub mod app;
pub mod connection;
pub mod laws;
pub mod mode;
pub mod node;
pub mod seqs;
pub mod space;
pub mod thought;
