//! A specification-level model of a conformant decoder.
//!
//! Decoding the wire format back into a packet tree is a collaborator
//! of this library, not part of it. To state the round-trip law all
//! the same, this module models such a decoder as spec functions: they
//! read an encoded byte sequence back into a value tree, and the proof
//! functions show that what [`crate::wire`] says the encoder produces
//! decodes to a tree structurally equal to the one that was encoded.
//!
//! The decoded tree mirrors [`crate::types`] with mathematical leaves:
//! text becomes its byte sequence, a character its code point. The
//! view functions map an encoder-side tree onto the same ground.

use vstd::prelude::*;

use crate::types::OscBundle;
use crate::types::OscMessage;
use crate::types::OscPacket;
use crate::types::OscType;
use crate::wire;

verus! {

/// A decoded argument: what a conformant decoder reconstructs from
/// one argument's tag and data bytes.
pub enum DecodedArg {
    /// A 32-bit signed integer.
    Int(i32),
    /// A 64-bit signed integer.
    Long(i64),
    /// The bit pattern of a 32-bit float.
    Float(u32),
    /// The bit pattern of a 64-bit float.
    Double(u64),
    /// The 32-bit code point of a character.
    Char(u32),
    /// The bytes of a piece of text, without terminator or padding.
    Text(Seq<u8>),
    /// The bytes of a blob, without length prefix or padding.
    Blob(Seq<u8>),
    /// A time tag: seconds and fractional part.
    Time(u32, u32),
    /// A MIDI event: port, status and two data bytes.
    Midi(u8, u8, u8, u8),
    /// A color: red, green, blue and alpha.
    Color(u8, u8, u8, u8),
    /// A boolean, read off the tag alone.
    Bool(bool),
    /// Nil, read off the tag alone.
    Nil,
    /// Infinitum, read off the tag alone.
    Inf,
    /// An array of arguments.
    Array(Seq<DecodedArg>),
}

/// A decoded message: address bytes and arguments.
pub struct DecodedMessage {
    /// The bytes of the address.
    pub addr: Seq<u8>,
    /// The arguments, in order.
    pub args: Seq<DecodedArg>,
}

/// A decoded bundle: time tag halves and content packets.
pub struct DecodedBundle {
    /// Whole seconds of the time tag.
    pub seconds: u32,
    /// Fractional part of the time tag.
    pub fractional: u32,
    /// The bundled packets, in order.
    pub content: Seq<DecodedPacket>,
}

/// A decoded packet: a message or a bundle.
pub enum DecodedPacket {
    /// A single message.
    Message(DecodedMessage),
    /// A bundle of packets.
    Bundle(DecodedBundle),
}

/// What a conformant decoder reconstructs from one encoded argument.
pub open spec fn arg_view(t: OscType) -> DecodedArg
    decreases t, 0int,
{
    match t {
        OscType::Int(x) => DecodedArg::Int(x),
        OscType::Long(x) => DecodedArg::Long(x),
        OscType::Float(bits) => DecodedArg::Float(bits),
        OscType::Double(bits) => DecodedArg::Double(bits),
        OscType::Char(c) => DecodedArg::Char(c as u32),
        OscType::Text(s) => DecodedArg::Text(wire::text_bytes(s@)),
        OscType::Blob(b) => DecodedArg::Blob(b@),
        OscType::Time(tt) => DecodedArg::Time(tt.seconds, tt.fractional),
        OscType::Midi(m) => DecodedArg::Midi(m.port, m.status, m.data1, m.data2),
        OscType::Color(c) => DecodedArg::Color(c.red, c.green, c.blue, c.alpha),
        OscType::Bool(x) => DecodedArg::Bool(x),
        OscType::Nil => DecodedArg::Nil,
        OscType::Inf => DecodedArg::Inf,
        OscType::Array(a) => DecodedArg::Array(args_view(a.content@)),
    }
}

/// What a conformant decoder reconstructs from a list of arguments.
pub open spec fn args_view(ts: Seq<OscType>) -> Seq<DecodedArg>
    decreases ts, 1int,
{
    if ts.len() == 0 {
        Seq::empty()
    } else {
        seq![arg_view(ts[0])] + args_view(ts.drop_first())
    }
}

/// What a conformant decoder reconstructs from an encoded message.
pub open spec fn msg_view(m: OscMessage) -> DecodedMessage {
    DecodedMessage { addr: wire::text_bytes(m.addr@), args: args_view(m.args@) }
}

/// What a conformant decoder reconstructs from an encoded packet.
pub open spec fn packet_view(p: OscPacket) -> DecodedPacket
    decreases p, 0int,
{
    match p {
        OscPacket::Message(m) => DecodedPacket::Message(msg_view(m)),
        OscPacket::Bundle(b) => DecodedPacket::Bundle(
            DecodedBundle {
                seconds: b.timetag.seconds,
                fractional: b.timetag.fractional,
                content: packets_view(b.content@),
            },
        ),
    }
}

/// What a conformant decoder reconstructs from a list of packets.
pub open spec fn packets_view(ps: Seq<OscPacket>) -> Seq<DecodedPacket>
    decreases ps, 1int,
{
    if ps.len() == 0 {
        Seq::empty()
    } else {
        seq![packet_view(ps[0])] + packets_view(ps.drop_first())
    }
}

/// Whether a byte sequence holds no NUL byte.
pub open spec fn nul_free(b: Seq<u8>) -> bool {
    forall|i: int| 0 <= i < b.len() ==> b[i] != 0
}

/// Whether one argument can be read back from the wire: the bytes of
/// a text argument end at their first NUL, so the text itself must
/// hold none.
pub open spec fn readable_arg(t: OscType) -> bool
    decreases t, 0int,
{
    match t {
        OscType::Text(s) => nul_free(wire::text_bytes(s@)),
        OscType::Array(a) => readable_args(a.content@),
        _ => true,
    }
}

/// Whether every argument in a list can be read back from the wire.
pub open spec fn readable_args(ts: Seq<OscType>) -> bool
    decreases ts, 1int,
{
    forall|i: int| 0 <= i < ts.len() ==> readable_arg(#[trigger] ts[i])
}

/// Whether a message can be read back from the wire: its address ends
/// at its first NUL, so it must hold none, and it must not read as
/// the `#bundle` marker, which announces a bundle instead of a
/// message.
pub open spec fn readable_msg(m: OscMessage) -> bool {
    &&& nul_free(wire::text_bytes(m.addr@))
    &&& wire::text_bytes(m.addr@) != wire::bundle_marker()
    &&& readable_args(m.args@)
}

/// Whether a packet can be read back from the wire.
pub open spec fn readable_packet(p: OscPacket) -> bool
    decreases p, 0int,
{
    match p {
        OscPacket::Message(m) => readable_msg(m),
        OscPacket::Bundle(b) => forall|i: int|
            0 <= i < b.content@.len() ==> readable_packet(#[trigger] b.content@[i]),
    }
}

/// The position of the first NUL byte, or the sequence's length if
/// there is none.
pub open spec fn first_nul(b: Seq<u8>) -> int
    decreases b.len(),
{
    if b.len() == 0 {
        0
    } else if b[0] == 0 {
        0
    } else {
        1 + first_nul(b.drop_first())
    }
}

/// The first-NUL scan stops exactly where the first NUL stands.
pub proof fn lemma_first_nul_at(b: Seq<u8>, j: int)
    requires
        0 <= j <= b.len(),
        forall|i: int| 0 <= i < j ==> b[i] != 0,
        j < b.len() ==> b[j] == 0,
    ensures
        first_nul(b) == j,
    decreases b.len(),
{
    reveal_with_fuel(first_nul, 2);
    if b.len() != 0 && b[0] != 0 {
        assert forall|i: int| 0 <= i < j - 1 implies b.drop_first()[i] != 0 by {
            assert(b[i + 1] != 0);
        }
        lemma_first_nul_at(b.drop_first(), j - 1);
    }
}

/// Reads one text field: the bytes up to the first NUL, then skips to
/// the next multiple of 4 past the terminator. Fails when no
/// terminator or not enough padding is there.
pub open spec fn take_str(b: Seq<u8>) -> Option<(Seq<u8>, Seq<u8>)> {
    let j = first_nul(b);
    if j == b.len() {
        None
    } else if wire::pad4(j + 1) <= b.len() {
        Some((b.take(j), b.skip(wire::pad4(j + 1))))
    } else {
        None
    }
}

/// Reading a text field back: on what the text encoder wrote, the
/// reader recovers exactly the text and leaves exactly what follows.
pub proof fn lemma_take_str_rt(t: Seq<u8>, rest: Seq<u8>)
    requires
        nul_free(t),
    ensures
        take_str(wire::str_enc(t) + rest) == Some((t, rest)),
{
    let s = wire::str_enc(t) + rest;
    wire::lemma_str_enc(t);
    assert forall|i: int| 0 <= i < t.len() implies s[i] != 0 by {
        assert(s[i] == t[i]);
    }
    assert(s[t.len() as int] == 0);
    lemma_first_nul_at(s, t.len() as int);
    assert(wire::pad4(t.len() + 1 as int) == wire::str_enc(t).len());
    assert(s.take(t.len() as int) =~= t);
    assert(s.skip(wire::str_enc(t).len() as int) =~= rest);
}

/// The shape of one argument: what its type-tag characters alone
/// reveal of it. A boolean's value is part of its shape, because the
/// tag (`T` or `F`) carries it.
pub enum ArgShape {
    /// A 32-bit signed integer.
    Int,
    /// A 64-bit signed integer.
    Long,
    /// A 32-bit float.
    Float,
    /// A 64-bit float.
    Double,
    /// A character.
    Char,
    /// A piece of text.
    Text,
    /// A blob.
    Blob,
    /// A time tag.
    Time,
    /// A MIDI event.
    Midi,
    /// A color.
    Color,
    /// A boolean, with its value.
    Bool(bool),
    /// Nil.
    Nil,
    /// Infinitum.
    Inf,
    /// An array of arguments.
    Array(Seq<ArgShape>),
}

/// The shape of one argument.
pub open spec fn shape_of(t: OscType) -> ArgShape
    decreases t, 0int,
{
    match t {
        OscType::Int(_) => ArgShape::Int,
        OscType::Long(_) => ArgShape::Long,
        OscType::Float(_) => ArgShape::Float,
        OscType::Double(_) => ArgShape::Double,
        OscType::Char(_) => ArgShape::Char,
        OscType::Text(_) => ArgShape::Text,
        OscType::Blob(_) => ArgShape::Blob,
        OscType::Time(_) => ArgShape::Time,
        OscType::Midi(_) => ArgShape::Midi,
        OscType::Color(_) => ArgShape::Color,
        OscType::Bool(x) => ArgShape::Bool(x),
        OscType::Nil => ArgShape::Nil,
        OscType::Inf => ArgShape::Inf,
        OscType::Array(a) => ArgShape::Array(shapes_of(a.content@)),
    }
}

/// The shapes of a list of arguments, in order.
pub open spec fn shapes_of(ts: Seq<OscType>) -> Seq<ArgShape>
    decreases ts, 1int,
{
    if ts.len() == 0 {
        Seq::empty()
    } else {
        seq![shape_of(ts[0])] + shapes_of(ts.drop_first())
    }
}

/// The shape a single tag byte announces, if it is one of the simple
/// tags; brackets and unknown bytes announce none.
pub open spec fn simple_shape(b: u8) -> Option<ArgShape> {
    if b == wire::TAG_INT {
        Some(ArgShape::Int)
    } else if b == wire::TAG_LONG {
        Some(ArgShape::Long)
    } else if b == wire::TAG_FLOAT {
        Some(ArgShape::Float)
    } else if b == wire::TAG_DOUBLE {
        Some(ArgShape::Double)
    } else if b == wire::TAG_CHAR {
        Some(ArgShape::Char)
    } else if b == wire::TAG_TEXT {
        Some(ArgShape::Text)
    } else if b == wire::TAG_BLOB {
        Some(ArgShape::Blob)
    } else if b == wire::TAG_TIME {
        Some(ArgShape::Time)
    } else if b == wire::TAG_MIDI {
        Some(ArgShape::Midi)
    } else if b == wire::TAG_COLOR {
        Some(ArgShape::Color)
    } else if b == wire::TAG_TRUE {
        Some(ArgShape::Bool(true))
    } else if b == wire::TAG_FALSE {
        Some(ArgShape::Bool(false))
    } else if b == wire::TAG_NIL {
        Some(ArgShape::Nil)
    } else if b == wire::TAG_INF {
        Some(ArgShape::Inf)
    } else {
        None
    }
}

/// How many bytes a left-to-right scan passes before finding the `]`
/// that closes bracket depth `d`; the input's length if there is
/// none.
pub open spec fn close_from(s: Seq<u8>, d: int) -> nat
    decreases s.len(),
{
    if s.len() == 0 {
        0
    } else if s[0] == wire::TAG_CLOSE && d == 0 {
        0
    } else {
        1 + close_from(s.drop_first(), d + wire::bracket_delta(s[0]))
    }
}

/// The closing-bracket scan never runs past the end.
pub proof fn lemma_close_from_le(s: Seq<u8>, d: int)
    ensures
        close_from(s, d) <= s.len(),
    decreases s.len(),
{
    reveal_with_fuel(close_from, 2);
    if s.len() != 0 && !(s[0] == wire::TAG_CLOSE && d == 0) {
        lemma_close_from_le(s.drop_first(), d + wire::bracket_delta(s[0]));
    }
}

/// Reads a whole type-tag string (without its leading comma) back
/// into the shapes it announces. An array's shapes are read from the
/// characters between its brackets.
pub open spec fn parse_tags(s: Seq<u8>) -> Option<Seq<ArgShape>>
    decreases s.len(),
{
    if s.len() == 0 {
        Some(Seq::empty())
    } else if s[0] == wire::TAG_OPEN {
        let j = close_from(s.drop_first(), 0) as int;
        if j < s.len() - 1 {
            match parse_tags(s.drop_first().take(j)) {
                Some(inner) => match parse_tags(s.drop_first().skip(j + 1)) {
                    Some(tail) => Some(seq![ArgShape::Array(inner)] + tail),
                    None => None,
                },
                None => None,
            }
        } else {
            None
        }
    } else {
        match simple_shape(s[0]) {
            Some(sh) => match parse_tags(s.drop_first()) {
                Some(tail) => Some(seq![sh] + tail),
                None => None,
            },
            None => None,
        }
    }
}

/// The closing-bracket scan passes over a string whose prefixes,
/// counted on top of the starting depth, never close depth zero, and
/// goes on behind it at the depth the string leaves.
proof fn lemma_close_from_scan(w: Seq<u8>, s2: Seq<u8>, d: int)
    requires
        forall|j: int| 0 <= j <= w.len() ==> d + wire::bracket_net(#[trigger] w.take(j)) >= 0,
        d >= 0,
    ensures
        close_from(w + s2, d) == w.len() + close_from(s2, d + wire::bracket_net(w)),
    decreases w.len(),
{
    reveal_with_fuel(close_from, 2);
    reveal_with_fuel(wire::bracket_net, 2);
    if w.len() == 0 {
        assert(w + s2 =~= s2);
        assert(w.take(0) =~= w);
    } else {
        assert(w.take(1) =~= seq![w[0]]);
        assert(w.take(1).drop_first() =~= Seq::<u8>::empty());
        assert(wire::bracket_net(w.take(1)) == wire::bracket_delta(w[0]));
        let d2 = d + wire::bracket_delta(w[0]);
        assert(d2 >= 0) by {
            assert(d + wire::bracket_net(w.take(1)) >= 0);
        }
        assert(!(w[0] == wire::TAG_CLOSE && d == 0)) by {
            if w[0] == wire::TAG_CLOSE {
                assert(d + wire::bracket_net(w.take(1)) >= 0);
                assert(wire::bracket_delta(w[0]) == -1);
            }
        }
        assert((w + s2)[0] == w[0]);
        assert((w + s2).drop_first() =~= w.drop_first() + s2);
        assert forall|j: int| 0 <= j <= w.drop_first().len() implies d2 + wire::bracket_net(
            #[trigger] w.drop_first().take(j),
        ) >= 0 by {
            assert(w.take(j + 1)[0] == w[0]);
            assert(w.take(j + 1).drop_first() =~= w.drop_first().take(j));
            assert(wire::bracket_net(w.take(j + 1)) == wire::bracket_delta(w[0])
                + wire::bracket_net(w.drop_first().take(j)));
            assert(d + wire::bracket_net(w.take(j + 1)) >= 0);
        }
        lemma_close_from_scan(w.drop_first(), s2, d2);
        assert(wire::bracket_net(w) == wire::bracket_delta(w[0]) + wire::bracket_net(
            w.drop_first(),
        ));
    }
}

/// Reading one argument's tag characters: they announce the
/// argument's shape and leave whatever follows to be read next.
proof fn lemma_parse_tag_rt(t: OscType, w: Seq<u8>)
    ensures
        parse_tags(wire::tag_of(t) + w) == (match parse_tags(w) {
            Some(tail) => Some(seq![shape_of(t)] + tail),
            None => None::<Seq<ArgShape>>,
        }),
    decreases t, 0int,
{
    reveal_with_fuel(parse_tags, 2);
    let s = wire::tag_of(t) + w;
    match t {
        OscType::Array(a) => {
            let inner = wire::tags_of(a.content@);
            wire::lemma_tags_brackets(a.content@);
            wire::lemma_tags_prefixes_balanced(a.content@);
            assert(s[0] == wire::TAG_OPEN);
            assert(s.drop_first() =~= inner + (seq![wire::TAG_CLOSE] + w));
            assert forall|j: int| 0 <= j <= inner.len() implies 0 + wire::bracket_net(
                #[trigger] inner.take(j),
            ) >= 0 by {}
            lemma_close_from_scan(inner, seq![wire::TAG_CLOSE] + w, 0);
            reveal_with_fuel(close_from, 2);
            assert((seq![wire::TAG_CLOSE] + w)[0] == wire::TAG_CLOSE);
            assert(close_from(seq![wire::TAG_CLOSE] + w, 0) == 0);
            let j = close_from(s.drop_first(), 0) as int;
            assert(j == inner.len());
            assert(j < s.len() - 1);
            assert(s.drop_first().take(j) =~= inner);
            assert(s.drop_first().skip(j + 1) =~= w);
            lemma_parse_tags_rt(a.content@, Seq::empty());
            assert(inner + Seq::<u8>::empty() =~= inner);
            assert(parse_tags(Seq::<u8>::empty()) == Some(Seq::<ArgShape>::empty()));
            assert(parse_tags(inner) == Some(shapes_of(a.content@) + Seq::empty()));
            assert(shapes_of(a.content@) + Seq::<ArgShape>::empty() =~= shapes_of(a.content@));
        },
        OscType::Bool(x) => {
            assert(s[0] == wire::tag_of(t)[0]);
            assert(s.drop_first() =~= w);
            assert(simple_shape(s[0]) == Some(shape_of(t)));
        },
        _ => {
            assert(s[0] == wire::tag_of(t)[0]);
            assert(s.drop_first() =~= w);
            assert(simple_shape(s[0]) == Some(shape_of(t)));
        },
    }
}

/// Reading a list's tag characters: they announce the arguments'
/// shapes in order and leave whatever follows.
proof fn lemma_parse_tags_rt(ts: Seq<OscType>, w: Seq<u8>)
    ensures
        parse_tags(wire::tags_of(ts) + w) == (match parse_tags(w) {
            Some(tail) => Some(shapes_of(ts) + tail),
            None => None::<Seq<ArgShape>>,
        }),
    decreases ts, 1int,
{
    reveal_with_fuel(wire::tags_of, 2);
    reveal_with_fuel(shapes_of, 2);
    if ts.len() == 0 {
        assert(wire::tags_of(ts) + w =~= w);
        match parse_tags(w) {
            Some(tail) => {
                assert(shapes_of(ts) + tail =~= tail);
            },
            None => {},
        }
    } else {
        assert(wire::tags_of(ts) + w =~= wire::tag_of(ts[0]) + (wire::tags_of(ts.drop_first())
            + w));
        lemma_parse_tag_rt(ts[0], wire::tags_of(ts.drop_first()) + w);
        lemma_parse_tags_rt(ts.drop_first(), w);
        match parse_tags(w) {
            Some(tail) => {
                assert(seq![shape_of(ts[0])] + (shapes_of(ts.drop_first()) + tail) =~= shapes_of(
                    ts,
                ) + tail);
            },
            None => {},
        }
    }
}

/// Reads the data bytes of one argument of the given shape, returning
/// the decoded argument and what is left of the input.
pub open spec fn parse_arg_data(sh: ArgShape, b: Seq<u8>) -> Option<(DecodedArg, Seq<u8>)>
    decreases sh, 0int,
{
    match sh {
        ArgShape::Int => if b.len() >= 4 {
            Some((DecodedArg::Int(wire::from_be32(b.take(4)) as i32), b.skip(4)))
        } else {
            None
        },
        ArgShape::Long => if b.len() >= 8 {
            Some((DecodedArg::Long(wire::from_be64(b.take(8)) as i64), b.skip(8)))
        } else {
            None
        },
        ArgShape::Float => if b.len() >= 4 {
            Some((DecodedArg::Float(wire::from_be32(b.take(4))), b.skip(4)))
        } else {
            None
        },
        ArgShape::Double => if b.len() >= 8 {
            Some((DecodedArg::Double(wire::from_be64(b.take(8))), b.skip(8)))
        } else {
            None
        },
        ArgShape::Char => if b.len() >= 4 {
            Some((DecodedArg::Char(wire::from_be32(b.take(4))), b.skip(4)))
        } else {
            None
        },
        ArgShape::Text => match take_str(b) {
            Some((bytes, rest)) => Some((DecodedArg::Text(bytes), rest)),
            None => None,
        },
        ArgShape::Blob => if b.len() >= 4 {
            let n = wire::from_be32(b.take(4)) as int;
            if 4 + wire::pad4(n) <= b.len() {
                Some((DecodedArg::Blob(b.subrange(4, 4 + n)), b.skip(4 + wire::pad4(n))))
            } else {
                None
            }
        } else {
            None
        },
        ArgShape::Time => if b.len() >= 8 {
            Some(
                (
                    DecodedArg::Time(wire::from_be32(b.take(4)), wire::from_be32(b.subrange(4, 8))),
                    b.skip(8),
                ),
            )
        } else {
            None
        },
        ArgShape::Midi => if b.len() >= 4 {
            Some((DecodedArg::Midi(b[0], b[1], b[2], b[3]), b.skip(4)))
        } else {
            None
        },
        ArgShape::Color => if b.len() >= 4 {
            Some((DecodedArg::Color(b[0], b[1], b[2], b[3]), b.skip(4)))
        } else {
            None
        },
        ArgShape::Bool(x) => Some((DecodedArg::Bool(x), b)),
        ArgShape::Nil => Some((DecodedArg::Nil, b)),
        ArgShape::Inf => Some((DecodedArg::Inf, b)),
        ArgShape::Array(inner) => match parse_args_data(inner, b) {
            Some((vals, rest)) => Some((DecodedArg::Array(vals), rest)),
            None => None,
        },
    }
}

/// Reads the data bytes of a list of arguments of the given shapes,
/// in order.
pub open spec fn parse_args_data(ss: Seq<ArgShape>, b: Seq<u8>) -> Option<
    (Seq<DecodedArg>, Seq<u8>),
>
    decreases ss, 1int,
{
    if ss.len() == 0 {
        Some((Seq::empty(), b))
    } else {
        match parse_arg_data(ss[0], b) {
            Some((v, rest)) => match parse_args_data(ss.drop_first(), rest) {
                Some((vals, rest2)) => Some((seq![v] + vals, rest2)),
                None => None,
            },
            None => None,
        }
    }
}

/// Reading one argument's data back: on the bytes the encoder wrote
/// for it, the reader of its shape recovers the argument's value and
/// leaves exactly what follows.
proof fn lemma_parse_arg_data_rt(t: OscType, w: Seq<u8>)
    requires
        readable_arg(t),
        wire::arg_ok(t),
    ensures
        parse_arg_data(shape_of(t), wire::data_of(t) + w) == Some((arg_view(t), w)),
    decreases t, 0int,
{
    reveal_with_fuel(parse_arg_data, 2);
    let b = wire::data_of(t) + w;
    match t {
        OscType::Int(x) => {
            assert(b.take(4) =~= wire::be32(x as u32));
            wire::lemma_be32_inverse(x as u32);
            assert((x as u32) as i32 == x) by (bit_vector);
            assert(b.skip(4) =~= w);
        },
        OscType::Long(x) => {
            assert(b.take(8) =~= wire::be64(x as u64));
            wire::lemma_be64_inverse(x as u64);
            assert((x as u64) as i64 == x) by (bit_vector);
            assert(b.skip(8) =~= w);
        },
        OscType::Float(bits) => {
            assert(b.take(4) =~= wire::be32(bits));
            wire::lemma_be32_inverse(bits);
            assert(b.skip(4) =~= w);
        },
        OscType::Double(bits) => {
            assert(b.take(8) =~= wire::be64(bits));
            wire::lemma_be64_inverse(bits);
            assert(b.skip(8) =~= w);
        },
        OscType::Char(c) => {
            assert(b.take(4) =~= wire::be32(c as u32));
            wire::lemma_be32_inverse(c as u32);
            assert(b.skip(4) =~= w);
        },
        OscType::Text(s) => {
            assert(b =~= wire::str_enc(wire::text_bytes(s@)) + w);
            lemma_take_str_rt(wire::text_bytes(s@), w);
        },
        OscType::Blob(x) => {
            let len = x@.len() as int;
            wire::lemma_pad4(len);
            assert(b.take(4) =~= wire::be32(x@.len() as u32));
            wire::lemma_be32_inverse(x@.len() as u32);
            assert(wire::from_be32(b.take(4)) as int == len);
            assert(wire::data_of(t).len() == 4 + wire::pad4(len));
            assert(b.subrange(4, 4 + len) =~= x@);
            assert(b.skip(4 + wire::pad4(len)) =~= w);
        },
        OscType::Time(tt) => {
            assert(b.take(4) =~= wire::be32(tt.seconds));
            assert(b.subrange(4, 8) =~= wire::be32(tt.fractional));
            wire::lemma_be32_inverse(tt.seconds);
            wire::lemma_be32_inverse(tt.fractional);
            assert(b.skip(8) =~= w);
        },
        OscType::Midi(m) => {
            assert(b[0] == m.port && b[1] == m.status && b[2] == m.data1 && b[3] == m.data2);
            assert(b.skip(4) =~= w);
        },
        OscType::Color(c) => {
            assert(b[0] == c.red && b[1] == c.green && b[2] == c.blue && b[3] == c.alpha);
            assert(b.skip(4) =~= w);
        },
        OscType::Bool(_) => {
            assert(b =~= w);
        },
        OscType::Nil => {
            assert(b =~= w);
        },
        OscType::Inf => {
            assert(b =~= w);
        },
        OscType::Array(a) => {
            assert(b =~= wire::datas_of(a.content@) + w);
            lemma_parse_args_data_rt(a.content@, w);
        },
    }
}

/// Reading a list's data back, shape by shape, recovers the decoded
/// arguments in order and leaves exactly what follows.
proof fn lemma_parse_args_data_rt(ts: Seq<OscType>, w: Seq<u8>)
    requires
        readable_args(ts),
        wire::args_ok(ts),
    ensures
        parse_args_data(shapes_of(ts), wire::datas_of(ts) + w) == Some((args_view(ts), w)),
    decreases ts, 1int,
{
    reveal_with_fuel(parse_args_data, 2);
    reveal_with_fuel(shapes_of, 2);
    reveal_with_fuel(args_view, 2);
    reveal_with_fuel(wire::datas_of, 2);
    if ts.len() == 0 {
        assert(wire::datas_of(ts) + w =~= w);
        assert(shapes_of(ts).len() == 0);
    } else {
        assert(readable_arg(ts[0]));
        assert(wire::arg_ok(ts[0]));
        assert forall|i: int| 0 <= i < ts.drop_first().len() implies readable_arg(
            #[trigger] ts.drop_first()[i],
        ) && wire::arg_ok(ts.drop_first()[i]) by {
            assert(ts.drop_first()[i] == ts[i + 1]);
            assert(readable_arg(ts[i + 1]));
            assert(wire::arg_ok(ts[i + 1]));
        }
        assert(wire::datas_of(ts) + w =~= wire::data_of(ts[0]) + (wire::datas_of(ts.drop_first())
            + w));
        lemma_parse_arg_data_rt(ts[0], wire::datas_of(ts.drop_first()) + w);
        lemma_parse_args_data_rt(ts.drop_first(), w);
        assert(shapes_of(ts)[0] == shape_of(ts[0]));
        assert(shapes_of(ts).drop_first() =~= shapes_of(ts.drop_first()));
        assert(seq![arg_view(ts[0])] + args_view(ts.drop_first()) =~= args_view(ts));
    }
}

/// Reads a whole encoded message: the address, the comma-led type-tag
/// string, then every argument's data, which must use the input up
/// exactly.
pub open spec fn parse_msg(b: Seq<u8>) -> Option<DecodedMessage> {
    match take_str(b) {
        Some((addr, r1)) => match take_str(r1) {
            Some((tagstr, r2)) => if tagstr.len() >= 1 && tagstr[0] == wire::TAG_COMMA {
                match parse_tags(tagstr.drop_first()) {
                    Some(shapes) => match parse_args_data(shapes, r2) {
                        Some((vals, r3)) => if r3.len() == 0 {
                            Some(DecodedMessage { addr, args: vals })
                        } else {
                            None
                        },
                        None => None,
                    },
                    None => None,
                }
            } else {
                None
            },
            None => None,
        },
        None => None,
    }
}

/// Whether a packet stays within what the format's length fields can
/// represent: every blob's byte count fits its four-byte prefix, and
/// every packet nested in a bundle encodes to a byte count that fits
/// the four-byte length written before it.
pub open spec fn bounded_packet(p: OscPacket) -> bool
    decreases p, 0int,
{
    match p {
        OscPacket::Message(m) => wire::args_ok(m.args@),
        OscPacket::Bundle(b) => forall|i: int|
            0 <= i < b.content@.len() ==> bounded_packet(#[trigger] b.content@[i])
                && wire::packet_enc(b.content@[i]).len() <= u32::MAX,
    }
}

/// Reads a whole encoded packet: a bundle where the eight-byte
/// `#bundle` header stands, a message otherwise.
pub open spec fn parse_packet(b: Seq<u8>) -> Option<DecodedPacket>
    decreases b.len(), 1int,
{
    if b.len() >= 16 && b.take(8) == wire::str_enc(wire::bundle_marker()) {
        match parse_elems(b.skip(16)) {
            Some(content) => Some(
                DecodedPacket::Bundle(
                    DecodedBundle {
                        seconds: wire::from_be32(b.subrange(8, 12)),
                        fractional: wire::from_be32(b.subrange(12, 16)),
                        content,
                    },
                ),
            ),
            None => None,
        }
    } else {
        match parse_msg(b) {
            Some(m) => Some(DecodedPacket::Message(m)),
            None => None,
        }
    }
}

/// Reads a bundle's content area: length-prefixed packets until the
/// input is used up exactly.
pub open spec fn parse_elems(b: Seq<u8>) -> Option<Seq<DecodedPacket>>
    decreases b.len(), 0int,
{
    if b.len() == 0 {
        Some(Seq::empty())
    } else if b.len() < 4 {
        None
    } else {
        let n = wire::from_be32(b.take(4)) as int;
        if 4 + n <= b.len() {
            match parse_packet(b.subrange(4, 4 + n)) {
                Some(p) => match parse_elems(b.skip(4 + n)) {
                    Some(tail) => Some(seq![p] + tail),
                    None => None,
                },
                None => None,
            }
        } else {
            None
        }
    }
}

/// An encoded message never begins with the eight-byte bundle header:
/// the decoder cannot mistake it for a bundle.
proof fn lemma_msg_not_bundle_header(m: OscMessage)
    requires
        readable_msg(m),
    ensures
        !(wire::msg_enc(m).len() >= 16 && wire::msg_enc(m).take(8) == wire::str_enc(
            wire::bundle_marker(),
        )),
{
    let ab = wire::text_bytes(m.addr@);
    let e = wire::msg_enc(m);
    let header = wire::str_enc(wire::bundle_marker());
    wire::lemma_str_enc(wire::bundle_marker());
    wire::lemma_str_enc(ab);
    if e.len() >= 16 && e.take(8) == header {
        assert(header.len() == 8);
        assert(forall|i: int| 0 <= i < 8 ==> e[i] == header[i]) by {
            assert(forall|i: int| 0 <= i < 8 ==> e[i] == #[trigger] e.take(8)[i]);
        }
        assert(forall|i: int| 0 <= i < 7 ==> header[i] == wire::bundle_marker()[i]);
        assert(header[7] == 0);
        assert(forall|i: int|
            0 <= i < wire::str_enc(ab).len() ==> e[i] == #[trigger] wire::str_enc(ab)[i]);
        if ab.len() >= 8 {
            assert(e[7] == ab[7]);
            assert(ab[7] != 0);
        } else if ab.len() == 7 {
            assert(forall|i: int| 0 <= i < 7 ==> ab[i] == #[trigger] wire::bundle_marker()[i]);
            assert(ab =~= wire::bundle_marker());
        } else {
            assert(e[ab.len() as int] == wire::str_enc(ab)[ab.len() as int]);
            assert(wire::str_enc(ab)[ab.len() as int] == 0);
            assert(header[ab.len() as int] == wire::bundle_marker()[ab.len() as int]);
            assert(wire::bundle_marker()[ab.len() as int] != 0);
        }
    }
}

/// Reading a message back: on the bytes the message encoder wrote, a
/// conformant decoder reconstructs the address and every argument.
proof fn lemma_parse_msg_rt(m: OscMessage)
    requires
        readable_msg(m),
        wire::args_ok(m.args@),
    ensures
        parse_msg(wire::msg_enc(m)) == Some(msg_view(m)),
{
    let ab = wire::text_bytes(m.addr@);
    let tagstr = wire::tag_str(m.args@);
    let datas = wire::datas_of(m.args@);
    let e = wire::msg_enc(m);
    assert(e =~= wire::str_enc(ab) + (wire::str_enc(tagstr) + datas));
    lemma_take_str_rt(ab, wire::str_enc(tagstr) + datas);
    assert(nul_free(tagstr)) by {
        wire::lemma_tags_bytes_nonzero(m.args@);
        assert forall|i: int| 0 <= i < tagstr.len() implies tagstr[i] != 0 by {
            if i == 0 {
                assert(tagstr[0] == wire::TAG_COMMA);
            } else {
                assert(tagstr[i] == wire::tags_of(m.args@)[i - 1]);
            }
        }
    }
    lemma_take_str_rt(tagstr, datas);
    assert(tagstr[0] == wire::TAG_COMMA);
    assert(tagstr.drop_first() =~= wire::tags_of(m.args@));
    lemma_parse_tags_rt(m.args@, Seq::empty());
    assert(wire::tags_of(m.args@) + Seq::<u8>::empty() =~= wire::tags_of(m.args@));
    reveal_with_fuel(parse_tags, 1);
    assert(parse_tags(Seq::<u8>::empty()) == Some(Seq::<ArgShape>::empty()));
    assert(shapes_of(m.args@) + Seq::<ArgShape>::empty() =~= shapes_of(m.args@));
    lemma_parse_args_data_rt(m.args@, Seq::empty());
    assert(datas + Seq::<u8>::empty() =~= datas);
}

/// The round-trip law: a conformant decoder reconstructs, from the
/// bytes the encoder produces for a packet, a packet tree
/// structurally equal to the one that was encoded.
pub proof fn lemma_round_trip(p: OscPacket)
    requires
        readable_packet(p),
        bounded_packet(p),
    ensures
        parse_packet(wire::packet_enc(p)) == Some(packet_view(p)),
    decreases p, 0int,
{
    match p {
        OscPacket::Message(m) => {
            lemma_msg_not_bundle_header(m);
            lemma_parse_msg_rt(m);
        },
        OscPacket::Bundle(b) => {
            let e = wire::bundle_enc(b);
            wire::lemma_str_enc(wire::bundle_marker());
            assert(e.take(8) =~= wire::str_enc(wire::bundle_marker()));
            assert(e.subrange(8, 12) =~= wire::be32(b.timetag.seconds));
            assert(e.subrange(12, 16) =~= wire::be32(b.timetag.fractional));
            wire::lemma_be32_inverse(b.timetag.seconds);
            wire::lemma_be32_inverse(b.timetag.fractional);
            assert(e.skip(16) =~= wire::packets_enc(b.content@));
            lemma_parse_elems_rt(b.content@);
        },
    }
}

/// Reading a bundle's content area back, element by element, yields
/// the decoded packets in order.
proof fn lemma_parse_elems_rt(ps: Seq<OscPacket>)
    requires
        forall|i: int|
            0 <= i < ps.len() ==> readable_packet(#[trigger] ps[i]) && bounded_packet(ps[i])
                && wire::packet_enc(ps[i]).len() <= u32::MAX,
    ensures
        parse_elems(wire::packets_enc(ps)) == Some(packets_view(ps)),
    decreases ps, 1int,
{
    reveal_with_fuel(wire::packets_enc, 2);
    reveal_with_fuel(parse_elems, 2);
    reveal_with_fuel(packets_view, 2);
    if ps.len() == 0 {
        assert(wire::packets_enc(ps).len() == 0);
    } else {
        let s = wire::packets_enc(ps);
        let child = wire::packet_enc(ps[0]);
        assert(s =~= wire::be32(child.len() as u32) + child + wire::packets_enc(ps.drop_first()));
        assert(s.take(4) =~= wire::be32(child.len() as u32));
        wire::lemma_be32_inverse(child.len() as u32);
        assert(wire::from_be32(s.take(4)) as int == child.len());
        assert(s.subrange(4, 4 + child.len() as int) =~= child);
        assert(s.skip(4 + child.len() as int) =~= wire::packets_enc(ps.drop_first()));
        lemma_round_trip(ps[0]);
        assert forall|i: int| 0 <= i < ps.drop_first().len() implies readable_packet(
            #[trigger] ps.drop_first()[i],
        ) && bounded_packet(ps.drop_first()[i]) && wire::packet_enc(ps.drop_first()[i]).len()
            <= u32::MAX by {
            assert(ps.drop_first()[i] == ps[i + 1]);
            assert(readable_packet(ps[i + 1]) && bounded_packet(ps[i + 1]) && wire::packet_enc(
                ps[i + 1],
            ).len() <= u32::MAX);
        }
        lemma_parse_elems_rt(ps.drop_first());
        assert(seq![packet_view(ps[0])] + packets_view(ps.drop_first()) =~= packets_view(ps));
    }
}

} // verus!
