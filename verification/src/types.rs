//! The OSC data model: packets, messages, bundles, and typed arguments.
//!
//! A whole tree is built by the caller before encoding starts, is only
//! borrowed during an encode call, and is never mutated by the encoder.

use vstd::prelude::*;

verus! {

/// A 64-bit fixed-point OSC time tag, split into its two big-endian
/// 32-bit halves.
#[derive(Clone, Copy, Debug, PartialEq, Eq)]
pub struct OscTime {
    /// Whole seconds.
    pub seconds: u32,
    /// Fractional part of a second, in units of 1/2^32.
    pub fractional: u32,
}

/// A four-byte MIDI event carried as an OSC argument.
#[derive(Clone, Copy, Debug, PartialEq, Eq)]
pub struct OscMidiMessage {
    /// The port identifier.
    pub port: u8,
    /// The MIDI status byte.
    pub status: u8,
    /// First data byte.
    pub data1: u8,
    /// Second data byte.
    pub data2: u8,
}

/// An RGBA color carried as an OSC argument, one byte per channel.
#[derive(Clone, Copy, Debug, PartialEq, Eq)]
pub struct OscColor {
    /// Red channel.
    pub red: u8,
    /// Green channel.
    pub green: u8,
    /// Blue channel.
    pub blue: u8,
    /// Alpha channel.
    pub alpha: u8,
}

/// A typed OSC argument.
///
/// The two floating-point argument kinds carry their value as the raw
/// IEEE-754 bit pattern (`f32::to_bits` / `f64::to_bits`): the encoder
/// only ever moves those bits onto the wire unchanged, so the bit
/// pattern is the whole of what the format reads of such a value.
#[derive(Debug, PartialEq)]
pub enum OscType {
    /// 32-bit signed integer, tag `i`.
    Int(i32),
    /// 64-bit signed integer, tag `h`.
    Long(i64),
    /// 32-bit IEEE-754 float given by its bit pattern, tag `f`.
    Float(u32),
    /// 64-bit IEEE-754 float given by its bit pattern, tag `d`.
    Double(u64),
    /// A Unicode scalar value widened to 32 bits on the wire, tag `c`.
    Char(char),
    /// A piece of text, NUL-terminated and padded on the wire, tag `s`.
    Text(String),
    /// A raw byte sequence, length-prefixed and padded, tag `b`.
    Blob(Vec<u8>),
    /// A time tag argument, tag `t`.
    Time(OscTime),
    /// A MIDI event, tag `m`.
    Midi(OscMidiMessage),
    /// A color, tag `r`.
    Color(OscColor),
    /// A boolean; tag `T` or `F`, no data bytes.
    Bool(bool),
    /// Nil; tag `N`, no data bytes.
    Nil,
    /// Infinitum; tag `I`, no data bytes.
    Inf,
    /// An ordered collection of arguments, delimited by `[` and `]`
    /// in the type-tag string.
    Array(OscArray),
}

/// An ordered collection of OSC arguments, nested inside a message's
/// argument list.
#[derive(Debug, PartialEq)]
pub struct OscArray {
    /// The arguments of the array, in order.
    pub content: Vec<OscType>,
}

/// An OSC message: an address plus an ordered list of typed arguments.
#[derive(Debug, PartialEq)]
pub struct OscMessage {
    /// The address pattern the message is sent to.
    pub addr: String,
    /// The arguments, in order.
    pub args: Vec<OscType>,
}

/// An OSC bundle: a time tag plus an ordered collection of packets,
/// which may themselves be bundles.
#[derive(Debug, PartialEq)]
pub struct OscBundle {
    /// When the bundled packets are to take effect.
    pub timetag: OscTime,
    /// The bundled packets, in order.
    pub content: Vec<OscPacket>,
}

/// An OSC packet: either a single message or a bundle.
#[derive(Debug, PartialEq)]
pub enum OscPacket {
    /// A single message.
    Message(OscMessage),
    /// A time-tagged bundle of packets.
    Bundle(OscBundle),
}

} // verus!
