//! Verified core of the kymux media transport: packet framing, sequence
//! unrolling, FEC admission checks, clock synchronisation and the receive
//! state machines.

pub mod error;
pub mod seq;
pub mod wire;
pub mod av;
pub mod serial;
pub mod fec;
pub mod audio_fec;
pub mod clock_sync;
pub mod util;
pub mod net;
pub mod auth;
pub mod driver;
pub mod control;
pub mod pacer;
pub mod uri;
pub mod kycom;
pub mod video_fec;
pub mod source_first;
pub mod gopstream;
pub mod connection;
pub mod telemetry;
pub mod text;
