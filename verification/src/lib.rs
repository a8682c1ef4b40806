//! The shared logic of a multiplayer space game: the network protocol that clients and
//! the server speak, the server's handling of its clients, and the rules and decisions
//! of the game itself (object tables, behavior trees, path search, controls, shaders).
pub mod endian;
pub mod error;
pub mod ids;
pub mod id_list;
pub mod chunking;
pub mod remote;
pub mod serializeable;
pub mod text;
pub mod config;
pub mod server;
pub mod behavior;
pub mod game_controller;
pub mod render;
pub mod shading;
pub mod bvh;
pub mod controls;
pub mod game_rules;
pub mod pathfinding;
