//! Verified link-protocol logic for talking to a TI-82 calculator over its
//! two-wire D-BUS port: number and variable encodings, packet framing,
//! transfer sequencing, program-token decoding and the host-side parsing of
//! the bridge's serial output.

pub mod buffers;
pub mod number;
pub mod encoding;
pub mod commands;
pub mod variables;
pub mod packet;
pub mod link;
pub mod transfer;
pub mod text;
pub mod tokens;
pub mod host;
pub mod bridge;
