//! Tutti: reusable music state, authenticated sessions and link framing.

pub mod amy;
pub mod amy_wire;
pub mod bits;
pub mod ble;
pub mod bytes;
pub mod collections;
pub mod crypto;
pub mod music;
pub mod order;
pub mod realtime;
pub mod replica;
pub mod roundtable;
pub mod session;
pub mod text;
pub mod windowed;
