//! A runtime for sandboxed plugins: the buffer that host and guest share, the
//! dispatch of calls between them, the registry of type layouts, and the
//! world of entities that the host keeps for a plugin.

pub mod buffer;
pub mod components;
pub mod ecs;
pub mod error;
pub mod guest;
pub mod host;
pub mod layouts;
pub mod query;
pub mod rpc;
pub mod world;
pub mod sandbox;
