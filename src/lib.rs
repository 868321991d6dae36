//! Owner-scoped locks made of quests: the aggregate model, its reconstruction
//! from storage rows, an in-memory store with the relational write discipline,
//! and the command and query services built on them.

pub mod config;
pub mod dtos;
pub mod errors;
pub mod ids;
pub mod join;
pub mod lock;
pub mod models;
pub mod quest;
pub mod requests;
pub mod services;
pub mod share;
pub mod store;
pub mod text;
