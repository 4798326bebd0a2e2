//! Wallet synchronisation scheduling, memo backfill and the chat-message
//! protocol carried in shielded memo fields.

pub mod text;
pub mod decimal;
pub mod memo;
pub mod balance;
pub mod sorting;
pub mod hexfmt;
pub mod messages;
pub mod blocks;
pub mod scan;
pub mod backfill;
pub mod wallet;
