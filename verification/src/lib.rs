//! Scorpio: the verified core of a small websocket chat server.
//!
//! The library keeps the server's bookkeeping (who is connected, which
//! conversations exist, which conversation each client is talking in) and
//! decides, for every text message a client sends, how the bookkeeping changes
//! and which replies go to which peers. Sockets, channels and the rendering of
//! replies as text are left to the program around it.

pub mod addr;
pub mod state;
pub mod text;
pub mod server;
pub mod peers;
pub mod protocol;
pub mod laws;
