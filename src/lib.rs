//! A network-controlled polyphonic synthesizer: the datagram protocol, the
//! generator language front-end and the control logic of the voice mixer.
pub mod client;
pub mod lang;
pub mod proto;
pub mod synth;
pub mod text;
