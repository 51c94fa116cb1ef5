//! Overlay routing core: a network-view maintainer fed by flood discovery,
//! a fragment assembler, a selective-retry send buffer, and the routing
//! handler that ties them together over source-routed packets.

pub mod assembler;
pub mod buffer;
pub mod channel;
pub mod files;
pub mod network;
pub mod packet;
pub mod routing_handler;
pub mod text;
pub mod types;

pub use assembler::FragmentAssembler;
pub use routing_handler::RoutingHandler;
