//! In-memory core of a Server-Sent-Events broadcaster: channels, clients,
//! identifier allocation, event fan-out and eviction of stale clients.

pub mod client;
pub mod clock;
pub mod frame;
pub mod ids;
pub mod server;
pub mod state;
pub mod stream;

pub use client::{Client, Delivery};
pub use ids::IdAllocator;
pub use server::{ChannelReport, EventServer, MaintenanceReport, ServerError, StreamReply};
