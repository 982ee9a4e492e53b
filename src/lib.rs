//! A server-side realtime messaging core: the Engine.IO packet codec and
//! session model, and the Socket.IO room adapter and operator pipeline.

pub mod adapter;
pub mod operators;
pub mod packet;
pub mod payload;
pub mod session;
pub mod engine;
pub mod socketio;
pub mod sio;
