//! An encoder for Open Sound Control (OSC) packets.
//!
//! The library turns a tree of typed values — messages with addresses and
//! arguments, and time-tagged bundles that may nest — into the aligned,
//! big-endian OSC byte format. All byte production flows through the
//! [`output::Output`] sink abstraction, so the same recursive encoder can
//! fill a growable buffer, measure a packet's size without storing bytes,
//! or patch length prefixes in place.
//!
//! The wire format itself is modelled by the spec functions in [`wire`];
//! every encoding function is proved to produce exactly the bytes that the
//! model describes. The [`decode`] module models a conformant decoder at
//! the specification level and proves the round-trip law: decoding what
//! the encoder produced reconstructs the packet tree.

pub mod decode;
pub mod encoder;
pub mod output;
pub mod types;
pub mod wire;

pub use types::OscArray;
pub use types::OscBundle;
pub use types::OscColor;
pub use types::OscMessage;
pub use types::OscMidiMessage;
pub use types::OscPacket;
pub use types::OscTime;
pub use types::OscType;
