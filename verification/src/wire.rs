//! A mathematical model of the OSC wire format.
//!
//! The spec functions here say, byte for byte, what the encoding of every
//! value is; the executable encoders in [`crate::encoder`] are proved to
//! produce exactly these sequences. The proof functions state the format's
//! structural laws: alignment, text padding, and bundle framing.

use vstd::prelude::*;

use crate::types::OscBundle;
use crate::types::OscMessage;
use crate::types::OscPacket;
use crate::types::OscType;

verus! {

/// The smallest multiple of 4 that is at least `n`.
pub open spec fn pad4(n: int) -> int {
    if n % 4 == 0 {
        n
    } else {
        n + (4 - n % 4)
    }
}

/// `n` zero bytes.
pub open spec fn zeros(n: nat) -> Seq<u8> {
    Seq::new(n, |i: int| 0u8)
}

/// A text payload on the wire: the bytes themselves, then 1 to 4 NUL
/// bytes, as many as it takes to reach the next multiple of 4 past the
/// mandatory terminator.
pub open spec fn str_enc(b: Seq<u8>) -> Seq<u8> {
    b + zeros((pad4(b.len() + 1 as int) - b.len()) as nat)
}

/// The four big-endian bytes of a 32-bit value.
pub open spec fn be32(x: u32) -> Seq<u8> {
    seq![
        ((x >> 24) & 0xff) as u8,
        ((x >> 16) & 0xff) as u8,
        ((x >> 8) & 0xff) as u8,
        (x & 0xff) as u8,
    ]
}

/// The eight big-endian bytes of a 64-bit value.
pub open spec fn be64(x: u64) -> Seq<u8> {
    seq![
        ((x >> 56) & 0xff) as u8,
        ((x >> 48) & 0xff) as u8,
        ((x >> 40) & 0xff) as u8,
        ((x >> 32) & 0xff) as u8,
        ((x >> 24) & 0xff) as u8,
        ((x >> 16) & 0xff) as u8,
        ((x >> 8) & 0xff) as u8,
        (x & 0xff) as u8,
    ]
}

/// The 32-bit value read back from four big-endian bytes.
pub open spec fn from_be32(s: Seq<u8>) -> u32
    recommends
        s.len() == 4,
{
    (s[0] as u32) << 24 | (s[1] as u32) << 16 | (s[2] as u32) << 8 | (s[3] as u32)
}

/// The 64-bit value read back from eight big-endian bytes.
pub open spec fn from_be64(s: Seq<u8>) -> u64
    recommends
        s.len() == 8,
{
    (s[0] as u64) << 56 | (s[1] as u64) << 48 | (s[2] as u64) << 40 | (s[3] as u64) << 32 | (
    s[4] as u64) << 24 | (s[5] as u64) << 16 | (s[6] as u64) << 8 | (s[7] as u64)
}

/// The tag byte `i` of a 32-bit integer.
pub const TAG_INT: u8 = 105;

/// The tag byte `h` of a 64-bit integer.
pub const TAG_LONG: u8 = 104;

/// The tag byte `f` of a 32-bit float.
pub const TAG_FLOAT: u8 = 102;

/// The tag byte `d` of a 64-bit float.
pub const TAG_DOUBLE: u8 = 100;

/// The tag byte `c` of a character.
pub const TAG_CHAR: u8 = 99;

/// The tag byte `s` of a piece of text.
pub const TAG_TEXT: u8 = 115;

/// The tag byte `b` of a blob.
pub const TAG_BLOB: u8 = 98;

/// The tag byte `t` of a time tag.
pub const TAG_TIME: u8 = 116;

/// The tag byte `m` of a MIDI event.
pub const TAG_MIDI: u8 = 109;

/// The tag byte `r` of a color.
pub const TAG_COLOR: u8 = 114;

/// The tag byte `T` of true.
pub const TAG_TRUE: u8 = 84;

/// The tag byte `F` of false.
pub const TAG_FALSE: u8 = 70;

/// The tag byte `N` of nil.
pub const TAG_NIL: u8 = 78;

/// The tag byte `I` of infinitum.
pub const TAG_INF: u8 = 73;

/// The opening bracket `[` of an array's tags.
pub const TAG_OPEN: u8 = 91;

/// The closing bracket `]` of an array's tags.
pub const TAG_CLOSE: u8 = 93;

/// The comma that starts every type-tag string.
pub const TAG_COMMA: u8 = 44;

/// The UTF-8 bytes of a piece of text.
pub open spec fn text_bytes(s: Seq<char>) -> Seq<u8> {
    vstd::utf8::encode_utf8(s)
}

/// The type-tag character(s) of one argument: a single tag byte, except
/// that an array contributes the tags of its content wrapped in `[` `]`.
pub open spec fn tag_of(t: OscType) -> Seq<u8>
    decreases t, 0int,
{
    match t {
        OscType::Int(_) => seq![TAG_INT],
        OscType::Long(_) => seq![TAG_LONG],
        OscType::Float(_) => seq![TAG_FLOAT],
        OscType::Double(_) => seq![TAG_DOUBLE],
        OscType::Char(_) => seq![TAG_CHAR],
        OscType::Text(_) => seq![TAG_TEXT],
        OscType::Blob(_) => seq![TAG_BLOB],
        OscType::Time(_) => seq![TAG_TIME],
        OscType::Midi(_) => seq![TAG_MIDI],
        OscType::Color(_) => seq![TAG_COLOR],
        OscType::Bool(x) => if x {
            seq![TAG_TRUE]
        } else {
            seq![TAG_FALSE]
        },
        OscType::Nil => seq![TAG_NIL],
        OscType::Inf => seq![TAG_INF],
        OscType::Array(a) => seq![TAG_OPEN] + tags_of(a.content@) + seq![TAG_CLOSE],
    }
}

/// The type-tag characters of a list of arguments, in order.
pub open spec fn tags_of(ts: Seq<OscType>) -> Seq<u8>
    decreases ts, 1int,
{
    if ts.len() == 0 {
        Seq::empty()
    } else {
        tag_of(ts[0]) + tags_of(ts.drop_first())
    }
}

/// The data bytes of one argument. Bool, Nil and Infinitum contribute
/// no data at all; an array contributes the concatenated data of its
/// content, with no length prefix of its own.
pub open spec fn data_of(t: OscType) -> Seq<u8>
    decreases t, 0int,
{
    match t {
        OscType::Int(x) => be32(x as u32),
        OscType::Long(x) => be64(x as u64),
        OscType::Float(bits) => be32(bits),
        OscType::Double(bits) => be64(bits),
        OscType::Char(c) => be32(c as u32),
        OscType::Text(s) => str_enc(text_bytes(s@)),
        OscType::Blob(b) => be32(b@.len() as u32) + b@ + zeros(
            (pad4(b@.len() as int) - b@.len()) as nat,
        ),
        OscType::Time(tt) => be32(tt.seconds) + be32(tt.fractional),
        OscType::Midi(m) => seq![m.port, m.status, m.data1, m.data2],
        OscType::Color(c) => seq![c.red, c.green, c.blue, c.alpha],
        OscType::Bool(_) => Seq::empty(),
        OscType::Nil => Seq::empty(),
        OscType::Inf => Seq::empty(),
        OscType::Array(a) => datas_of(a.content@),
    }
}

/// The concatenated data bytes of a list of arguments, in order.
pub open spec fn datas_of(ts: Seq<OscType>) -> Seq<u8>
    decreases ts, 1int,
{
    if ts.len() == 0 {
        Seq::empty()
    } else {
        data_of(ts[0]) + datas_of(ts.drop_first())
    }
}

/// The complete type-tag string of a message: a comma, then one tag
/// per argument.
pub open spec fn tag_str(args: Seq<OscType>) -> Seq<u8> {
    seq![TAG_COMMA] + tags_of(args)
}

/// A message on the wire: the padded address, the padded type-tag
/// string, then the concatenated argument data.
pub open spec fn msg_enc(m: OscMessage) -> Seq<u8> {
    str_enc(text_bytes(m.addr@)) + str_enc(tag_str(m.args@)) + datas_of(m.args@)
}

/// The seven bytes of the literal `#bundle`.
pub open spec fn bundle_marker() -> Seq<u8> {
    seq![35u8, 98u8, 117u8, 110u8, 100u8, 108u8, 101u8]
}

/// A packet on the wire: a message or a bundle.
pub open spec fn packet_enc(p: OscPacket) -> Seq<u8>
    decreases p, 0int,
{
    match p {
        OscPacket::Message(m) => msg_enc(m),
        OscPacket::Bundle(b) => bundle_enc(b),
    }
}

/// A bundle element on the wire: a four-byte big-endian length, then
/// the element's own encoding, exactly as many bytes as the length
/// says.
pub open spec fn framed(p: OscPacket) -> Seq<u8>
    decreases p, 1int,
{
    be32(packet_enc(p).len() as u32) + packet_enc(p)
}

/// The framed encodings of a list of packets, in order.
pub open spec fn packets_enc(ps: Seq<OscPacket>) -> Seq<u8>
    decreases ps, 2int,
{
    if ps.len() == 0 {
        Seq::empty()
    } else {
        framed(ps[0]) + packets_enc(ps.drop_first())
    }
}

/// A bundle on the wire: the padded `#bundle` marker, the eight-byte
/// time tag, then each content packet framed by its length.
pub open spec fn bundle_enc(b: OscBundle) -> Seq<u8>
    decreases b, 3int,
{
    str_enc(bundle_marker()) + be32(b.timetag.seconds) + be32(b.timetag.fractional) + packets_enc(
        b.content@,
    )
}

/// Whether one argument stays within what the format's length fields
/// can represent: a blob's byte count must fit the four-byte length
/// prefix written before it.
pub open spec fn arg_ok(t: OscType) -> bool
    decreases t, 0int,
{
    match t {
        OscType::Blob(b) => b@.len() <= u32::MAX,
        OscType::Array(a) => args_ok(a.content@),
        _ => true,
    }
}

/// Whether every argument in a list stays within the format's length
/// fields.
pub open spec fn args_ok(ts: Seq<OscType>) -> bool
    decreases ts, 1int,
{
    forall|i: int| 0 <= i < ts.len() ==> arg_ok(#[trigger] ts[i])
}

/// Whether a message can be encoded on this machine: its arguments
/// stay within the format's length fields, and its whole encoding fits
/// in a byte count the machine can hold.
pub open spec fn msg_ok(m: OscMessage) -> bool {
    args_ok(m.args@) && msg_enc(m).len() <= usize::MAX
}

/// Whether a packet can be encoded on this machine. Besides the limits
/// on each message, every packet nested in a bundle must encode to a
/// byte count that fits the four-byte length prefix written before it.
pub open spec fn packet_ok(p: OscPacket) -> bool
    decreases p, 0int,
{
    match p {
        OscPacket::Message(m) => msg_ok(m),
        OscPacket::Bundle(b) => bundle_ok(b),
    }
}

/// Whether a bundle can be encoded on this machine.
pub open spec fn bundle_ok(b: OscBundle) -> bool
    decreases b, 1int,
{
    &&& bundle_enc(b).len() <= usize::MAX
    &&& forall|i: int|
        0 <= i < b.content@.len() ==> packet_ok(#[trigger] b.content@[i]) && packet_enc(
            b.content@[i],
        ).len() <= u32::MAX
}

/// Padding reaches the next multiple of 4 and never moves backwards
/// or further than 3 bytes ahead.
pub proof fn lemma_pad4(n: int)
    requires
        0 <= n,
    ensures
        n <= pad4(n) <= n + 3,
        pad4(n) % 4 == 0,
{
}

/// Padding commutes with a shift by a multiple of 4: text that starts
/// on an aligned boundary pads exactly as it would at the start.
pub proof fn lemma_pad4_shift(a: int, m: int)
    requires
        0 <= a,
        0 <= m,
        a % 4 == 0,
    ensures
        pad4(a + m) == a + pad4(m),
{
    assert((a + m) % 4 == m % 4) by {
        vstd::arithmetic::div_mod::lemma_add_mod_noop(a, m, 4);
        vstd::arithmetic::div_mod::lemma_small_mod((m % 4) as nat, 4);
    }
}

/// What the text encoding looks like: the text itself, then 1 to 4 NUL
/// bytes, ending on a multiple of 4.
pub proof fn lemma_str_enc(b: Seq<u8>)
    ensures
        str_enc(b).len() == pad4(b.len() + 1 as int),
        b.len() + 1 <= str_enc(b).len() <= b.len() + 4,
        str_enc(b).len() % 4 == 0,
        str_enc(b).take(b.len() as int) == b,
        forall|i: int| b.len() <= i < str_enc(b).len() ==> str_enc(b)[i] == 0,
{
    lemma_pad4(b.len() + 1 as int);
    assert(str_enc(b).take(b.len() as int) =~= b);
}

/// Appending one argument appends its tag characters.
pub proof fn lemma_tags_of_push(ts: Seq<OscType>, t: OscType)
    ensures
        tags_of(ts.push(t)) == tags_of(ts) + tag_of(t),
    decreases ts.len(),
{
    reveal_with_fuel(tags_of, 2);
    if ts.len() == 0 {
        assert(ts.push(t)[0] == t);
        assert(ts.push(t).drop_first() =~= Seq::<OscType>::empty());
        assert(tags_of(ts.push(t)) =~= tags_of(ts) + tag_of(t));
    } else {
        assert(ts.push(t).len() == ts.len() + 1);
        assert(ts.push(t)[0] == ts[0]);
        assert(ts.push(t).drop_first() =~= ts.drop_first().push(t));
        lemma_tags_of_push(ts.drop_first(), t);
        assert(tags_of(ts.push(t)) == tag_of(ts[0]) + tags_of(ts.drop_first().push(t)));
        assert(tags_of(ts.push(t)) =~= tags_of(ts) + tag_of(t));
    }
}

/// Appending one argument appends its data bytes.
pub proof fn lemma_datas_of_push(ts: Seq<OscType>, t: OscType)
    ensures
        datas_of(ts.push(t)) == datas_of(ts) + data_of(t),
    decreases ts.len(),
{
    reveal_with_fuel(datas_of, 2);
    if ts.len() == 0 {
        assert(ts.push(t)[0] == t);
        assert(ts.push(t).drop_first() =~= Seq::<OscType>::empty());
        assert(datas_of(ts.push(t)) =~= datas_of(ts) + data_of(t));
    } else {
        assert(ts.push(t).len() == ts.len() + 1);
        assert(ts.push(t)[0] == ts[0]);
        assert(ts.push(t).drop_first() =~= ts.drop_first().push(t));
        lemma_datas_of_push(ts.drop_first(), t);
        assert(datas_of(ts.push(t)) == data_of(ts[0]) + datas_of(ts.drop_first().push(t)));
        assert(datas_of(ts.push(t)) =~= datas_of(ts) + data_of(t));
    }
}

/// Appending one packet appends its framed encoding.
pub proof fn lemma_packets_enc_push(ps: Seq<OscPacket>, p: OscPacket)
    ensures
        packets_enc(ps.push(p)) == packets_enc(ps) + framed(p),
    decreases ps.len(),
{
    reveal_with_fuel(packets_enc, 2);
    if ps.len() == 0 {
        assert(ps.push(p)[0] == p);
        assert(ps.push(p).drop_first() =~= Seq::<OscPacket>::empty());
        assert(packets_enc(ps.push(p)) =~= packets_enc(ps) + framed(p));
    } else {
        assert(ps.push(p).len() == ps.len() + 1);
        assert(ps.push(p)[0] == ps[0]);
        assert(ps.push(p).drop_first() =~= ps.drop_first().push(p));
        lemma_packets_enc_push(ps.drop_first(), p);
        assert(packets_enc(ps.push(p)) == framed(ps[0]) + packets_enc(ps.drop_first().push(p)));
        assert(packets_enc(ps.push(p)) =~= packets_enc(ps) + framed(p));
    }
}

/// The data bytes of one argument always come in a multiple of 4.
pub proof fn lemma_data_of_aligned(t: OscType)
    ensures
        data_of(t).len() % 4 == 0,
    decreases t, 0int,
{
    match t {
        OscType::Text(s) => {
            lemma_str_enc(text_bytes(s@));
        },
        OscType::Blob(b) => {
            lemma_pad4(b@.len() as int);
            assert((4 + pad4(b@.len() as int)) % 4 == 0) by {
                vstd::arithmetic::div_mod::lemma_add_mod_noop(4, pad4(b@.len() as int), 4);
            }
        },
        OscType::Array(a) => {
            lemma_datas_of_aligned(a.content@);
        },
        _ => {},
    }
}

/// The concatenated data bytes of any argument list come in a multiple
/// of 4.
pub proof fn lemma_datas_of_aligned(ts: Seq<OscType>)
    ensures
        datas_of(ts).len() % 4 == 0,
    decreases ts, 1int,
{
    if ts.len() != 0 {
        lemma_data_of_aligned(ts[0]);
        lemma_datas_of_aligned(ts.drop_first());
        vstd::arithmetic::div_mod::lemma_add_mod_noop(
            data_of(ts[0]).len() as int,
            datas_of(ts.drop_first()).len() as int,
            4,
        );
    }
}

/// Everything a packet puts on the wire comes in a multiple of 4
/// bytes: the alignment guarantee of the whole format.
pub proof fn lemma_packet_enc_aligned(p: OscPacket)
    ensures
        packet_enc(p).len() % 4 == 0,
    decreases p, 0int,
{
    match p {
        OscPacket::Message(m) => {
            lemma_msg_enc_aligned(m);
        },
        OscPacket::Bundle(b) => {
            lemma_bundle_enc_aligned(b);
        },
    }
}

/// A message's encoding is a multiple of 4 bytes long.
pub proof fn lemma_msg_enc_aligned(m: OscMessage)
    ensures
        msg_enc(m).len() % 4 == 0,
{
    lemma_str_enc(text_bytes(m.addr@));
    lemma_str_enc(tag_str(m.args@));
    lemma_datas_of_aligned(m.args@);
    vstd::arithmetic::div_mod::lemma_add_mod_noop(
        str_enc(text_bytes(m.addr@)).len() as int,
        str_enc(tag_str(m.args@)).len() as int,
        4,
    );
    vstd::arithmetic::div_mod::lemma_add_mod_noop(
        (str_enc(text_bytes(m.addr@)).len() + str_enc(tag_str(m.args@)).len()) as int,
        datas_of(m.args@).len() as int,
        4,
    );
}

/// A bundle's encoding is a multiple of 4 bytes long.
pub proof fn lemma_bundle_enc_aligned(b: OscBundle)
    ensures
        bundle_enc(b).len() % 4 == 0,
    decreases b, 1int,
{
    lemma_str_enc(bundle_marker());
    lemma_packets_enc_aligned(b.content@);
    vstd::arithmetic::div_mod::lemma_add_mod_noop(
        16,
        packets_enc(b.content@).len() as int,
        4,
    );
}

/// A framed packet list's encoding is a multiple of 4 bytes long.
pub proof fn lemma_packets_enc_aligned(ps: Seq<OscPacket>)
    ensures
        packets_enc(ps).len() % 4 == 0,
    decreases ps, 2int,
{
    reveal_with_fuel(packets_enc, 2);
    if ps.len() != 0 {
        lemma_packet_enc_aligned(ps[0]);
        lemma_packets_enc_aligned(ps.drop_first());
        assert(packets_enc(ps).len() == 4 + packet_enc(ps[0]).len()
            + packets_enc(ps.drop_first()).len());
        vstd::arithmetic::div_mod::lemma_add_mod_noop(4, packet_enc(ps[0]).len() as int, 4);
        assert((4 + packet_enc(ps[0]).len()) % 4 == 0);
        vstd::arithmetic::div_mod::lemma_add_mod_noop(
            4 + packet_enc(ps[0]).len() as int,
            packets_enc(ps.drop_first()).len() as int,
            4,
        );
    }
}

/// Reading four big-endian bytes back gives the value they were made of.
pub proof fn lemma_be32_inverse(x: u32)
    ensures
        from_be32(be32(x)) == x,
{
    assert(((((x >> 24) & 0xff) as u8) as u32) << 24 | ((((x >> 16) & 0xff) as u8) as u32) << 16
        | ((((x >> 8) & 0xff) as u8) as u32) << 8 | (((x & 0xff) as u8) as u32) == x)
        by (bit_vector);
}

/// Reading eight big-endian bytes back gives the value they were made of.
pub proof fn lemma_be64_inverse(x: u64)
    ensures
        from_be64(be64(x)) == x,
{
    assert(((((x >> 56) & 0xff) as u8) as u64) << 56 | ((((x >> 48) & 0xff) as u8) as u64) << 48
        | ((((x >> 40) & 0xff) as u8) as u64) << 40 | ((((x >> 32) & 0xff) as u8) as u64) << 32
        | ((((x >> 24) & 0xff) as u8) as u64) << 24 | ((((x >> 16) & 0xff) as u8) as u64) << 16
        | ((((x >> 8) & 0xff) as u8) as u64) << 8 | (((x & 0xff) as u8) as u64) == x)
        by (bit_vector);
}

/// The tag characters of a list split anywhere: what comes of the
/// first `j` arguments, then what comes of the rest.
pub proof fn lemma_tags_of_split(ts: Seq<OscType>, j: int)
    requires
        0 <= j <= ts.len(),
    ensures
        tags_of(ts) == tags_of(ts.take(j)) + tags_of(ts.skip(j)),
    decreases j,
{
    reveal_with_fuel(tags_of, 2);
    if j == 0 {
        assert(ts.take(0) =~= Seq::<OscType>::empty());
        assert(ts.skip(0) =~= ts);
        assert(tags_of(ts) =~= tags_of(ts.take(0)) + tags_of(ts.skip(0)));
    } else {
        assert(ts.take(j)[0] == ts[0]);
        assert(ts.take(j).drop_first() =~= ts.drop_first().take(j - 1));
        assert(ts.skip(j) =~= ts.drop_first().skip(j - 1));
        lemma_tags_of_split(ts.drop_first(), j - 1);
        assert(tags_of(ts) =~= tags_of(ts.take(j)) + tags_of(ts.skip(j)));
    }
}

/// The data bytes of a list split anywhere: what comes of the first
/// `j` arguments, then what comes of the rest.
pub proof fn lemma_datas_of_split(ts: Seq<OscType>, j: int)
    requires
        0 <= j <= ts.len(),
    ensures
        datas_of(ts) == datas_of(ts.take(j)) + datas_of(ts.skip(j)),
    decreases j,
{
    reveal_with_fuel(datas_of, 2);
    if j == 0 {
        assert(ts.take(0) =~= Seq::<OscType>::empty());
        assert(ts.skip(0) =~= ts);
        assert(datas_of(ts) =~= datas_of(ts.take(0)) + datas_of(ts.skip(0)));
    } else {
        assert(ts.take(j)[0] == ts[0]);
        assert(ts.take(j).drop_first() =~= ts.drop_first().take(j - 1));
        assert(ts.skip(j) =~= ts.drop_first().skip(j - 1));
        lemma_datas_of_split(ts.drop_first(), j - 1);
        assert(datas_of(ts) =~= datas_of(ts.take(j)) + datas_of(ts.skip(j)));
    }
}

/// The framed encodings of a packet list split anywhere.
pub proof fn lemma_packets_enc_split(ps: Seq<OscPacket>, j: int)
    requires
        0 <= j <= ps.len(),
    ensures
        packets_enc(ps) == packets_enc(ps.take(j)) + packets_enc(ps.skip(j)),
    decreases j,
{
    reveal_with_fuel(packets_enc, 2);
    if j == 0 {
        assert(ps.take(0) =~= Seq::<OscPacket>::empty());
        assert(ps.skip(0) =~= ps);
        assert(packets_enc(ps) =~= packets_enc(ps.take(0)) + packets_enc(ps.skip(0)));
    } else {
        assert(ps.take(j)[0] == ps[0]);
        assert(ps.take(j).drop_first() =~= ps.drop_first().take(j - 1));
        assert(ps.skip(j) =~= ps.drop_first().skip(j - 1));
        lemma_packets_enc_split(ps.drop_first(), j - 1);
        assert(packets_enc(ps) =~= packets_enc(ps.take(j)) + packets_enc(ps.skip(j)));
    }
}

/// How deeply arrays nest in one argument: 0 for anything that is not
/// an array, and one more than the content's deepest nesting for an
/// array.
pub open spec fn arr_depth(t: OscType) -> int
    decreases t, 0int,
{
    match t {
        OscType::Array(a) => 1 + arrs_depth(a.content@),
        _ => 0,
    }
}

/// The deepest array nesting among a list of arguments.
pub open spec fn arrs_depth(ts: Seq<OscType>) -> int
    decreases ts, 1int,
{
    if ts.len() == 0 {
        0
    } else {
        vstd::math::max(arr_depth(ts[0]), arrs_depth(ts.drop_first()))
    }
}

/// What one byte does to the running bracket depth of a type-tag
/// string: `[` opens a level, `]` closes one, everything else leaves
/// it alone.
pub open spec fn bracket_delta(b: u8) -> int {
    if b == TAG_OPEN {
        1
    } else if b == TAG_CLOSE {
        -1
    } else {
        0
    }
}

/// The net bracket count of a byte string: openings minus closings.
pub open spec fn bracket_net(s: Seq<u8>) -> int
    decreases s.len(),
{
    if s.len() == 0 {
        0
    } else {
        bracket_delta(s[0]) + bracket_net(s.drop_first())
    }
}

/// The deepest bracket nesting reached while reading a byte string
/// from the left: the largest running bracket count over all prefixes
/// (at least 0, the depth of the empty prefix).
pub open spec fn bracket_depth(s: Seq<u8>) -> int
    decreases s.len(),
{
    if s.len() == 0 {
        0
    } else {
        vstd::math::max(0, bracket_delta(s[0]) + bracket_depth(s.drop_first()))
    }
}

/// The net bracket count of two byte strings in a row is the sum of
/// their counts.
pub proof fn lemma_bracket_net_concat(s1: Seq<u8>, s2: Seq<u8>)
    ensures
        bracket_net(s1 + s2) == bracket_net(s1) + bracket_net(s2),
    decreases s1.len(),
{
    reveal_with_fuel(bracket_net, 2);
    if s1.len() == 0 {
        assert(s1 + s2 =~= s2);
    } else {
        assert((s1 + s2).drop_first() =~= s1.drop_first() + s2);
        assert((s1 + s2)[0] == s1[0]);
        lemma_bracket_net_concat(s1.drop_first(), s2);
    }
}

/// The deepest nesting of two byte strings in a row: either it is
/// reached inside the first, or inside the second, on top of whatever
/// depth the first one leaves open.
pub proof fn lemma_bracket_depth_concat(s1: Seq<u8>, s2: Seq<u8>)
    ensures
        bracket_depth(s1 + s2) == vstd::math::max(
            bracket_depth(s1),
            bracket_net(s1) + bracket_depth(s2),
        ),
    decreases s1.len(),
{
    reveal_with_fuel(bracket_net, 2);
    reveal_with_fuel(bracket_depth, 2);
    if s1.len() == 0 {
        assert(s1 + s2 =~= s2);
        lemma_bracket_depth_nonneg(s2);
    } else {
        assert((s1 + s2).drop_first() =~= s1.drop_first() + s2);
        assert((s1 + s2)[0] == s1[0]);
        lemma_bracket_depth_concat(s1.drop_first(), s2);
        lemma_bracket_depth_nonneg(s2);
    }
}

/// The deepest bracket nesting is never negative.
pub proof fn lemma_bracket_depth_nonneg(s: Seq<u8>)
    ensures
        bracket_depth(s) >= 0,
    decreases s.len(),
{
    reveal_with_fuel(bracket_depth, 2);
    if s.len() != 0 {
        lemma_bracket_depth_nonneg(s.drop_first());
    }
}

/// Array nesting never goes negative either.
pub proof fn lemma_arrs_depth_nonneg(ts: Seq<OscType>)
    ensures
        arrs_depth(ts) >= 0,
    decreases ts, 2int,
{
    reveal_with_fuel(arrs_depth, 2);
    if ts.len() != 0 {
        lemma_arr_depth_nonneg(ts[0]);
        lemma_arrs_depth_nonneg(ts.drop_first());
    }
}

/// Array nesting of one argument never goes negative.
pub proof fn lemma_arr_depth_nonneg(t: OscType)
    ensures
        arr_depth(t) >= 0,
    decreases t, 0int,
{
    reveal_with_fuel(arr_depth, 2);
    match t {
        OscType::Array(a) => {
            lemma_arrs_depth_nonneg(a.content@);
        },
        _ => {},
    }
}

/// The bracket law of the type-tag string: one argument's tags are
/// balanced, and the deepest bracket nesting in them is exactly the
/// argument's own array nesting depth.
pub proof fn lemma_tag_brackets(t: OscType)
    ensures
        bracket_net(tag_of(t)) == 0,
        bracket_depth(tag_of(t)) == arr_depth(t),
    decreases t, 0int,
{
    reveal_with_fuel(bracket_net, 3);
    reveal_with_fuel(bracket_depth, 3);
    match t {
        OscType::Array(a) => {
            let inner = tags_of(a.content@);
            lemma_tags_brackets(a.content@);
            lemma_arrs_depth_nonneg(a.content@);
            lemma_bracket_net_concat(seq![TAG_OPEN] + inner, seq![TAG_CLOSE]);
            lemma_bracket_net_concat(seq![TAG_OPEN], inner);
            lemma_bracket_depth_concat(seq![TAG_OPEN] + inner, seq![TAG_CLOSE]);
            lemma_bracket_depth_concat(seq![TAG_OPEN], inner);
            assert((seq![TAG_OPEN])[0] == TAG_OPEN);
            assert((seq![TAG_OPEN]).drop_first() =~= Seq::<u8>::empty());
            assert((seq![TAG_CLOSE])[0] == TAG_CLOSE);
            assert((seq![TAG_CLOSE]).drop_first() =~= Seq::<u8>::empty());
        },
        OscType::Bool(x) => {
            assert(tag_of(t).drop_first() =~= Seq::<u8>::empty());
        },
        _ => {
            assert(tag_of(t).drop_first() =~= Seq::<u8>::empty());
        },
    }
}

/// The bracket law for a list of arguments: their tag characters are
/// balanced, and the deepest bracket nesting is the deepest array
/// nesting in the list.
pub proof fn lemma_tags_brackets(ts: Seq<OscType>)
    ensures
        bracket_net(tags_of(ts)) == 0,
        bracket_depth(tags_of(ts)) == arrs_depth(ts),
    decreases ts, 1int,
{
    reveal_with_fuel(tags_of, 2);
    reveal_with_fuel(arrs_depth, 2);
    reveal_with_fuel(bracket_net, 2);
    reveal_with_fuel(bracket_depth, 2);
    if ts.len() != 0 {
        lemma_tag_brackets(ts[0]);
        lemma_tags_brackets(ts.drop_first());
        lemma_bracket_net_concat(tag_of(ts[0]), tags_of(ts.drop_first()));
        lemma_bracket_depth_concat(tag_of(ts[0]), tags_of(ts.drop_first()));
        lemma_arrs_depth_nonneg(ts.drop_first());
        lemma_arr_depth_nonneg(ts[0]);
    }
}

/// Whether no prefix of a byte string closes more brackets than were
/// opened before it.
pub open spec fn prefixes_balanced(s: Seq<u8>) -> bool {
    forall|j: int| 0 <= j <= s.len() ==> bracket_net(#[trigger] s.take(j)) >= 0
}

/// Two strings whose prefixes never over-close, the first of which
/// leaves no bracket over-closed, never over-close in a row either.
pub proof fn lemma_prefixes_balanced_concat(s1: Seq<u8>, s2: Seq<u8>)
    requires
        prefixes_balanced(s1),
        prefixes_balanced(s2),
    ensures
        prefixes_balanced(s1 + s2),
{
    assert forall|j: int| 0 <= j <= (s1 + s2).len() implies bracket_net(#[trigger] (s1
        + s2).take(j)) >= 0 by {
        if j <= s1.len() {
            assert((s1 + s2).take(j) =~= s1.take(j));
        } else {
            assert((s1 + s2).take(j) =~= s1 + s2.take(j - s1.len()));
            lemma_bracket_net_concat(s1, s2.take(j - s1.len()));
            assert(s1.take(s1.len() as int) =~= s1);
        }
    }
}

/// No prefix of one argument's tag characters over-closes a bracket.
pub proof fn lemma_tag_prefixes_balanced(t: OscType)
    ensures
        prefixes_balanced(tag_of(t)),
    decreases t, 0int,
{
    reveal_with_fuel(bracket_net, 3);
    match t {
        OscType::Array(a) => {
            let inner = tags_of(a.content@);
            let opened = seq![TAG_OPEN] + inner;
            lemma_tags_prefixes_balanced(a.content@);
            lemma_tags_brackets(a.content@);
            assert(prefixes_balanced(seq![TAG_OPEN])) by {
                assert forall|j: int| 0 <= j <= 1 implies bracket_net(
                    #[trigger] seq![TAG_OPEN].take(j),
                ) >= 0 by {
                    if j == 0 {
                        assert(seq![TAG_OPEN].take(0) =~= Seq::<u8>::empty());
                    } else {
                        assert(seq![TAG_OPEN].take(1) =~= seq![TAG_OPEN]);
                        assert(seq![TAG_OPEN].drop_first() =~= Seq::<u8>::empty());
                    }
                }
            }
            lemma_prefixes_balanced_concat(seq![TAG_OPEN], inner);
            lemma_bracket_net_concat(seq![TAG_OPEN], inner);
            assert(seq![TAG_OPEN].drop_first() =~= Seq::<u8>::empty());
            assert(bracket_net(opened) == 1);
            assert forall|j: int| 0 <= j <= tag_of(t).len() implies bracket_net(
                #[trigger] tag_of(t).take(j),
            ) >= 0 by {
                if j <= opened.len() {
                    assert(tag_of(t).take(j) =~= opened.take(j));
                } else {
                    assert(tag_of(t).take(j) =~= tag_of(t));
                    lemma_tag_brackets(t);
                }
            }
        },
        OscType::Bool(_) => {
            lemma_single_tag_prefixes_balanced(t);
        },
        _ => {
            lemma_single_tag_prefixes_balanced(t);
        },
    }
}

/// A single non-bracket tag character never over-closes.
proof fn lemma_single_tag_prefixes_balanced(t: OscType)
    requires
        !(t is Array),
    ensures
        prefixes_balanced(tag_of(t)),
{
    reveal_with_fuel(bracket_net, 3);
    assert forall|j: int| 0 <= j <= tag_of(t).len() implies bracket_net(
        #[trigger] tag_of(t).take(j),
    ) >= 0 by {
        if j == 0 {
            assert(tag_of(t).take(0) =~= Seq::<u8>::empty());
        } else {
            assert(tag_of(t).take(j) =~= tag_of(t));
            assert(tag_of(t).drop_first() =~= Seq::<u8>::empty());
        }
    }
}

/// No prefix of a list's tag characters over-closes a bracket.
pub proof fn lemma_tags_prefixes_balanced(ts: Seq<OscType>)
    ensures
        prefixes_balanced(tags_of(ts)),
    decreases ts, 1int,
{
    reveal_with_fuel(tags_of, 2);
    reveal_with_fuel(bracket_net, 2);
    if ts.len() == 0 {
        assert forall|j: int| 0 <= j <= tags_of(ts).len() implies bracket_net(
            #[trigger] tags_of(ts).take(j),
        ) >= 0 by {
            assert(tags_of(ts).take(j) =~= Seq::<u8>::empty());
        }
    } else {
        lemma_tag_prefixes_balanced(ts[0]);
        lemma_tags_prefixes_balanced(ts.drop_first());
        lemma_prefixes_balanced_concat(tag_of(ts[0]), tags_of(ts.drop_first()));
    }
}

/// Every tag character is a printable byte, never a NUL: the type-tag
/// string ends at its first NUL.
pub proof fn lemma_tag_bytes_nonzero(t: OscType)
    ensures
        forall|i: int| 0 <= i < tag_of(t).len() ==> tag_of(t)[i] != 0,
    decreases t, 0int,
{
    reveal_with_fuel(tag_of, 2);
    match t {
        OscType::Array(a) => {
            let inner = tags_of(a.content@);
            lemma_tags_bytes_nonzero(a.content@);
            assert forall|i: int| 0 <= i < tag_of(t).len() implies tag_of(t)[i] != 0 by {
                if i == 0 {
                    assert(tag_of(t)[0] == TAG_OPEN);
                } else if i <= inner.len() {
                    assert(tag_of(t)[i] == inner[i - 1]);
                } else {
                    assert(tag_of(t)[i] == TAG_CLOSE);
                }
            }
        },
        OscType::Bool(_) => {},
        _ => {},
    }
}

/// Every tag character of a list of arguments is a non-NUL byte.
pub proof fn lemma_tags_bytes_nonzero(ts: Seq<OscType>)
    ensures
        forall|i: int| 0 <= i < tags_of(ts).len() ==> tags_of(ts)[i] != 0,
    decreases ts, 1int,
{
    reveal_with_fuel(tags_of, 2);
    if ts.len() != 0 {
        lemma_tag_bytes_nonzero(ts[0]);
        lemma_tags_bytes_nonzero(ts.drop_first());
        assert forall|i: int| 0 <= i < tags_of(ts).len() implies tags_of(ts)[i] != 0 by {
            if i < tag_of(ts[0]).len() {
                assert(tags_of(ts)[i] == tag_of(ts[0])[i]);
            } else {
                assert(tags_of(ts)[i] == tags_of(ts.drop_first())[i - tag_of(ts[0]).len()]);
            }
        }
    } else {
        assert(tags_of(ts).len() == 0);
    }
}

/// Bool, Nil and Infinitum contribute exactly one type-tag character
/// and no data bytes at all.
pub proof fn lemma_zero_payload(t: OscType)
    requires
        t is Bool || t is Nil || t is Inf,
    ensures
        tag_of(t).len() == 1,
        data_of(t) == Seq::<u8>::empty(),
{
}

/// The bytes of an encoded text field are recovered by reading to the
/// first NUL: for text that itself holds no NUL byte, the first NUL of
/// the encoding stands exactly where the text ends.
pub proof fn lemma_str_enc_first_nul(b: Seq<u8>)
    requires
        forall|i: int| 0 <= i < b.len() ==> b[i] != 0,
    ensures
        b.len() < str_enc(b).len(),
        str_enc(b)[b.len() as int] == 0,
        forall|i: int| 0 <= i < b.len() ==> str_enc(b)[i] == b[i] && str_enc(b)[i] != 0,
{
    lemma_str_enc(b);
}

/// Text encoding is one to one on NUL-free text: two texts that
/// encode alike are alike, so a decoder that reads to the first NUL
/// recovers exactly what was encoded.
pub proof fn lemma_str_enc_injective(b1: Seq<u8>, b2: Seq<u8>)
    requires
        forall|i: int| 0 <= i < b1.len() ==> b1[i] != 0,
        forall|i: int| 0 <= i < b2.len() ==> b2[i] != 0,
        str_enc(b1) == str_enc(b2),
    ensures
        b1 == b2,
{
    lemma_str_enc(b1);
    lemma_str_enc(b2);
    lemma_str_enc_first_nul(b1);
    lemma_str_enc_first_nul(b2);
    if b1.len() < b2.len() {
        assert(str_enc(b1)[b1.len() as int] == 0);
        assert(str_enc(b2)[b1.len() as int] != 0);
    }
    if b2.len() < b1.len() {
        assert(str_enc(b2)[b2.len() as int] == 0);
        assert(str_enc(b1)[b2.len() as int] != 0);
    }
    assert(b1 =~= b2);
}

/// Where the `i`-th framed element starts, counted from the beginning
/// of a bundle's content area.
pub open spec fn frames_before(ps: Seq<OscPacket>, i: int) -> int {
    packets_enc(ps.take(i)).len() as int
}

/// The framing law over a whole bundle: at its place inside the
/// bundle's encoding, every content packet stands behind a four-byte
/// prefix that reads back as exactly the byte length of the packet's
/// own encoding, which follows immediately.
#[verifier::rlimit(50)]
pub proof fn lemma_bundle_framing(b: OscBundle, i: int)
    requires
        bundle_ok(b),
        0 <= i < b.content@.len(),
    ensures
        ({
            let off = 16 + frames_before(b.content@, i);
            let child = packet_enc(b.content@[i]);
            &&& off + 4 + child.len() <= bundle_enc(b).len()
            &&& bundle_enc(b).subrange(off, off + 4) == be32(child.len() as u32)
            &&& from_be32(bundle_enc(b).subrange(off, off + 4)) == child.len()
            &&& bundle_enc(b).subrange(off + 4, off + 4 + child.len() as int) == child
        }),
{
    let ps = b.content@;
    let off = 16 + frames_before(ps, i);
    let child = packet_enc(ps[i]);
    lemma_packets_enc_split(ps, i);
    reveal_with_fuel(packets_enc, 2);
    assert(packets_enc(ps.skip(i)) == framed(ps[i]) + packets_enc(ps.skip(i).drop_first()));
    lemma_framed(ps[i]);
    assert(bundle_enc(b).subrange(off, off + 4) =~= be32(child.len() as u32));
    assert(bundle_enc(b).subrange(off + 4, off + 4 + child.len() as int) =~= child);
}

/// What an encode call appends to a sink is a function of the packet
/// alone, never of what the sink already holds; in particular a
/// cleared, reused buffer receives byte for byte what a fresh buffer
/// would.
pub proof fn lemma_reuse_equals_fresh(pre: Seq<u8>, p: OscPacket)
    requires
        pre == Seq::<u8>::empty(),
    ensures
        pre + packet_enc(p) == packet_enc(p),
{
    assert(pre + packet_enc(p) =~= packet_enc(p));
}

/// The framing guarantee of a bundle element: the four-byte prefix of
/// a framed packet reads back as exactly the byte length of the
/// encoding that follows it.
pub proof fn lemma_framed(p: OscPacket)
    requires
        packet_enc(p).len() <= u32::MAX,
    ensures
        framed(p).len() == 4 + packet_enc(p).len(),
        framed(p).skip(4) == packet_enc(p),
        framed(p).take(4) == be32(packet_enc(p).len() as u32),
        from_be32(framed(p).take(4)) == packet_enc(p).len(),
{
    lemma_be32_inverse(packet_enc(p).len() as u32);
    assert(framed(p).skip(4) =~= packet_enc(p));
    assert(framed(p).take(4) =~= be32(packet_enc(p).len() as u32));
}

} // verus!
