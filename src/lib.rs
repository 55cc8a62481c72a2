//! The topology layer of a multi-instance game server: world instances with
//! data-driven join policies, a lazily filled registry of named instances, and
//! a universe that routes new clients, moves them between instances and ticks
//! every instance it owns.

pub mod policy;
pub mod world;
pub mod registry;
pub mod universe;
