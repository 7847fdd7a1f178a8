//! The stages of the sending side, each as a state that takes what
//! happened and says what to send.
//!
//! ```text
//!             ----------             ---------               -----------
//! listeners --| client |-> clients --| block |-> encodings --| packets |-> udp
//!             ----------             ---------               -----------
//! ```

pub mod client;
pub mod encoding;
pub mod heartbeat;
pub mod server;
pub mod udp;
