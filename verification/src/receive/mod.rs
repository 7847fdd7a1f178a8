//! The stages of the receiving side, each as a state that takes what
//! arrived and says what to do next.
//!
//! ```text
//!       -----------             ------------------            ---------
//! udp --| packets |-> reblock --| vec of packets |-> decode --| block |-> dispatch
//!       -----------             ------------------            ---------
//! ```

pub mod client;
pub mod decode;
pub mod dispatch;
pub mod reblock;
pub mod udp;
