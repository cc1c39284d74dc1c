//! The executable OSC encoders.
//!
//! Every function here writes through the [`Output`] sink abstraction
//! and is proved to append exactly the bytes that the spec functions in
//! [`crate::wire`] describe, returning the number of bytes written.

use vstd::prelude::*;

use crate::output::Output;
use crate::types::OscBundle;
use crate::types::OscMessage;
use crate::types::OscPacket;
use crate::types::OscTime;
use crate::types::OscType;
use crate::wire;

verus! {

broadcast use vstd::std_specs::vec::group_vec_axioms;

/// Returns the position padded to 4 bytes: the smallest multiple of 4
/// that is at least `pos`.
pub fn pad(pos: u64) -> (r: u64)
    requires
        wire::pad4(pos as int) <= u64::MAX,
    ensures
        r == wire::pad4(pos as int),
{
    match pos % 4 {
        0 => pos,
        d => pos + (4 - d),
    }
}

/// Writes a single byte to the sink.
fn write_byte<O: Output>(out: &mut O, b: u8) -> (r: Result<usize, O::Err>)
    ensures
        (match r {
            Ok(n) => {
                &&& final(out).bytes() == old(out).bytes() + seq![b]
                &&& n == 1
            },
            Err(_) => true,
        }),
        O::infallible() ==> r is Ok,
{
    let mut v: Vec<u8> = Vec::new();
    v.push(b);
    proof {
        assert(v@ =~= seq![b]);
    }
    out.write(v.as_slice())
}

/// Writes `k` zero bytes to the sink.
fn write_zeros<O: Output>(out: &mut O, k: usize) -> (r: Result<usize, O::Err>)
    ensures
        (match r {
            Ok(n) => {
                &&& final(out).bytes() == old(out).bytes() + wire::zeros(k as nat)
                &&& n == k
            },
            Err(_) => true,
        }),
        O::infallible() ==> r is Ok,
{
    let mut v: Vec<u8> = Vec::new();
    let mut i: usize = 0;
    while i < k
        invariant
            i <= k,
            v@ == wire::zeros(i as nat),
        decreases k - i,
    {
        v.push(0u8);
        proof {
            assert(v@ =~= wire::zeros((i + 1) as nat));
        }
        i = i + 1;
    }
    out.write(v.as_slice())
}

/// The four big-endian bytes of `x`, as a buffer ready to be written.
fn be32_vec(x: u32) -> (r: Vec<u8>)
    ensures
        r@ == wire::be32(x),
{
    assert((x >> 24) & 0xff < 256 && (x >> 16) & 0xff < 256 && (x >> 8) & 0xff < 256 && x & 0xff
        < 256) by (bit_vector);
    let mut v: Vec<u8> = Vec::new();
    v.push(((x >> 24) & 0xff) as u8);
    v.push(((x >> 16) & 0xff) as u8);
    v.push(((x >> 8) & 0xff) as u8);
    v.push((x & 0xff) as u8);
    proof {
        assert(v@ =~= wire::be32(x));
    }
    v
}

/// The eight big-endian bytes of `x`, as a buffer ready to be written.
fn be64_vec(x: u64) -> (r: Vec<u8>)
    ensures
        r@ == wire::be64(x),
{
    assert((x >> 56) & 0xff < 256 && (x >> 48) & 0xff < 256 && (x >> 40) & 0xff < 256 && (x >> 32)
        & 0xff < 256 && (x >> 24) & 0xff < 256 && (x >> 16) & 0xff < 256 && (x >> 8) & 0xff < 256
        && x & 0xff < 256) by (bit_vector);
    let mut v: Vec<u8> = Vec::new();
    v.push(((x >> 56) & 0xff) as u8);
    v.push(((x >> 48) & 0xff) as u8);
    v.push(((x >> 40) & 0xff) as u8);
    v.push(((x >> 32) & 0xff) as u8);
    v.push(((x >> 24) & 0xff) as u8);
    v.push(((x >> 16) & 0xff) as u8);
    v.push(((x >> 8) & 0xff) as u8);
    v.push((x & 0xff) as u8);
    proof {
        assert(v@ =~= wire::be64(x));
    }
    v
}

/// Writes the eight bytes of a time tag: the seconds, then the
/// fractional part, each as a big-endian 32-bit value.
fn encode_time_tag_into<O: Output>(time: &OscTime, out: &mut O) -> (r: Result<usize, O::Err>)
    ensures
        (match r {
            Ok(n) => {
                &&& final(out).bytes() == old(out).bytes() + wire::be32(time.seconds)
                    + wire::be32(time.fractional)
                &&& n == 8
            },
            Err(_) => true,
        }),
        O::infallible() ==> r is Ok,
{
    let secs = be32_vec(time.seconds);
    out.write(secs.as_slice())?;
    let frac = be32_vec(time.fractional);
    out.write(frac.as_slice())?;
    Ok(8)
}

/// Writes the given text to the given sink, adding 1 to 4 NUL bytes so
/// that the length of what was written is a multiple of 4.
pub fn encode_string_into<O: Output>(s: &str, out: &mut O) -> (r: Result<usize, O::Err>)
    requires
        wire::str_enc(wire::text_bytes(s@)).len() <= usize::MAX,
    ensures
        (match r {
            Ok(n) => {
                &&& final(out).bytes() == old(out).bytes() + wire::str_enc(wire::text_bytes(s@))
                &&& n == wire::str_enc(wire::text_bytes(s@)).len()
            },
            Err(_) => true,
        }),
        O::infallible() ==> r is Ok,
{
    proof {
        wire::lemma_str_enc(wire::text_bytes(s@));
    }
    let len = s.len();
    let padded = pad(len as u64 + 1) as usize;
    out.reserve(padded)?;
    out.write(s.as_bytes())?;
    let n = write_zeros(out, padded - len)?;
    proof {
        assert(old(out).bytes() + wire::text_bytes(s@) + wire::zeros((padded - len) as nat) =~= old(
            out,
        ).bytes() + wire::str_enc(wire::text_bytes(s@)));
    }
    Ok(len + n)
}

/// Writes the type-tag character(s) of one argument: a single tag
/// byte, except that an array's content tags are wrapped in `[` `]`.
fn encode_arg_type<O: Output>(arg: &OscType, out: &mut O) -> (r: Result<usize, O::Err>)
    requires
        wire::tag_of(*arg).len() <= usize::MAX,
    ensures
        (match r {
            Ok(n) => {
                &&& final(out).bytes() == old(out).bytes() + wire::tag_of(*arg)
                &&& n == wire::tag_of(*arg).len()
            },
            Err(_) => true,
        }),
        O::infallible() ==> r is Ok,
    decreases *arg,
{
    match arg {
        OscType::Int(_) => write_byte(out, wire::TAG_INT),
        OscType::Long(_) => write_byte(out, wire::TAG_LONG),
        OscType::Float(_) => write_byte(out, wire::TAG_FLOAT),
        OscType::Double(_) => write_byte(out, wire::TAG_DOUBLE),
        OscType::Char(_) => write_byte(out, wire::TAG_CHAR),
        OscType::Text(_) => write_byte(out, wire::TAG_TEXT),
        OscType::Blob(_) => write_byte(out, wire::TAG_BLOB),
        OscType::Time(_) => write_byte(out, wire::TAG_TIME),
        OscType::Midi(_) => write_byte(out, wire::TAG_MIDI),
        OscType::Color(_) => write_byte(out, wire::TAG_COLOR),
        OscType::Bool(x) => write_byte(out, if *x { wire::TAG_TRUE } else { wire::TAG_FALSE }),
        OscType::Nil => write_byte(out, wire::TAG_NIL),
        OscType::Inf => write_byte(out, wire::TAG_INF),
        OscType::Array(a) => {
            let ghost ts = a.content@;
            proof {
                reveal_with_fuel(wire::tag_of, 2);
            }
            let mut written = write_byte(out, wire::TAG_OPEN)?;
            let mut i: usize = 0;
            while i < a.content.len()
                invariant
                    i <= ts.len(),
                    a.content@ == ts,
                    *arg == OscType::Array(*a),
                    wire::tag_of(*arg) == seq![wire::TAG_OPEN] + wire::tags_of(ts) + seq![
                        wire::TAG_CLOSE,
                    ],
                    wire::tag_of(*arg).len() <= usize::MAX,
                    written == 1 + wire::tags_of(ts.take(i as int)).len(),
                    out.bytes() == old(out).bytes() + seq![wire::TAG_OPEN] + wire::tags_of(
                        ts.take(i as int),
                    ),
                decreases ts.len() - i,
            {
                proof {
                    wire::lemma_tags_of_split(ts, i as int);
                    reveal_with_fuel(wire::tags_of, 2);
                    assert(wire::tags_of(ts.skip(i as int)) == wire::tag_of(ts[i as int])
                        + wire::tags_of(ts.skip(i as int).drop_first()));
                    assert(wire::tag_of(ts[i as int]).len() <= wire::tags_of(ts).len());
                    wire::lemma_tags_of_split(ts, i + 1);
                    assert(ts.take(i + 1) =~= ts.take(i as int).push(ts[i as int]));
                    wire::lemma_tags_of_push(ts.take(i as int), ts[i as int]);
                    assert(decreases_to!(*arg => a.content@[i as int]));
                }
                let n = encode_arg_type(&a.content[i], out)?;
                proof {
                    assert(old(out).bytes() + seq![wire::TAG_OPEN] + wire::tags_of(
                        ts.take(i as int),
                    ) + wire::tag_of(ts[i as int]) =~= old(out).bytes() + seq![wire::TAG_OPEN]
                        + wire::tags_of(ts.take(i + 1)));
                }
                written = written + n;
                i = i + 1;
            }
            proof {
                assert(ts.take(ts.len() as int) =~= ts);
            }
            let n = write_byte(out, wire::TAG_CLOSE)?;
            proof {
                assert(old(out).bytes() + seq![wire::TAG_OPEN] + wire::tags_of(ts) + seq![
                    wire::TAG_CLOSE,
                ] =~= old(out).bytes() + wire::tag_of(*arg));
            }
            Ok(written + n)
        },
    }
}

/// Writes the data bytes of one argument. Bool, Nil and Infinitum
/// write nothing; an array writes the concatenated data of its
/// content.
fn encode_arg_data<O: Output>(arg: &OscType, out: &mut O) -> (r: Result<usize, O::Err>)
    requires
        wire::arg_ok(*arg),
        wire::data_of(*arg).len() <= usize::MAX,
    ensures
        (match r {
            Ok(n) => {
                &&& final(out).bytes() == old(out).bytes() + wire::data_of(*arg)
                &&& n == wire::data_of(*arg).len()
            },
            Err(_) => true,
        }),
        O::infallible() ==> r is Ok,
    decreases *arg,
{
    match arg {
        OscType::Int(x) => {
            let v = be32_vec(*x as u32);
            out.write(v.as_slice())
        },
        OscType::Long(x) => {
            let v = be64_vec(*x as u64);
            out.write(v.as_slice())
        },
        OscType::Float(bits) => {
            let v = be32_vec(*bits);
            out.write(v.as_slice())
        },
        OscType::Double(bits) => {
            let v = be64_vec(*bits);
            out.write(v.as_slice())
        },
        OscType::Char(c) => {
            let v = be32_vec(*c as u32);
            out.write(v.as_slice())
        },
        OscType::Text(s) => encode_string_into(s.as_str(), out),
        OscType::Blob(x) => {
            proof {
                wire::lemma_pad4(x@.len() as int);
            }
            let len = x.len();
            let padded = pad(len as u64) as usize;
            out.reserve(4 + padded)?;
            let lv = be32_vec(len as u32);
            out.write(lv.as_slice())?;
            out.write(x.as_slice())?;
            write_zeros(out, padded - len)?;
            proof {
                assert(old(out).bytes() + wire::be32(len as u32) + x@ + wire::zeros(
                    (padded - len) as nat,
                ) =~= old(out).bytes() + wire::data_of(*arg));
            }
            Ok(4 + padded)
        },
        OscType::Time(time) => encode_time_tag_into(time, out),
        OscType::Midi(x) => {
            let mut v: Vec<u8> = Vec::new();
            v.push(x.port);
            v.push(x.status);
            v.push(x.data1);
            v.push(x.data2);
            proof {
                assert(v@ =~= wire::data_of(*arg));
            }
            out.write(v.as_slice())
        },
        OscType::Color(x) => {
            let mut v: Vec<u8> = Vec::new();
            v.push(x.red);
            v.push(x.green);
            v.push(x.blue);
            v.push(x.alpha);
            proof {
                assert(v@ =~= wire::data_of(*arg));
            }
            out.write(v.as_slice())
        },
        OscType::Bool(_) => {
            proof {
                assert(old(out).bytes() + wire::data_of(*arg) =~= old(out).bytes());
            }
            Ok(0)
        },
        OscType::Nil => {
            proof {
                assert(old(out).bytes() + wire::data_of(*arg) =~= old(out).bytes());
            }
            Ok(0)
        },
        OscType::Inf => {
            proof {
                assert(old(out).bytes() + wire::data_of(*arg) =~= old(out).bytes());
            }
            Ok(0)
        },
        OscType::Array(a) => {
            let ghost ts = a.content@;
            let mut written: usize = 0;
            let mut i: usize = 0;
            while i < a.content.len()
                invariant
                    i <= ts.len(),
                    a.content@ == ts,
                    *arg == OscType::Array(*a),
                    wire::arg_ok(*arg),
                    wire::data_of(*arg) == wire::datas_of(ts),
                    wire::data_of(*arg).len() <= usize::MAX,
                    written == wire::datas_of(ts.take(i as int)).len(),
                    out.bytes() == old(out).bytes() + wire::datas_of(ts.take(i as int)),
                decreases ts.len() - i,
            {
                proof {
                    reveal_with_fuel(wire::datas_of, 2);
                    reveal_with_fuel(wire::arg_ok, 2);
                    reveal_with_fuel(wire::args_ok, 2);
                    assert(wire::args_ok(ts));
                    assert(wire::arg_ok(ts[i as int]));
                    wire::lemma_datas_of_split(ts, i as int);
                    assert(wire::datas_of(ts.skip(i as int)) == wire::data_of(ts[i as int])
                        + wire::datas_of(ts.skip(i as int).drop_first()));
                    assert(wire::data_of(ts[i as int]).len() <= wire::datas_of(ts).len());
                    wire::lemma_datas_of_split(ts, i + 1);
                    assert(ts.take(i + 1) =~= ts.take(i as int).push(ts[i as int]));
                    wire::lemma_datas_of_push(ts.take(i as int), ts[i as int]);
                    assert(decreases_to!(*arg => a.content@[i as int]));
                }
                let n = encode_arg_data(&a.content[i], out)?;
                proof {
                    assert(old(out).bytes() + wire::datas_of(ts.take(i as int)) + wire::data_of(
                        ts[i as int],
                    ) =~= old(out).bytes() + wire::datas_of(ts.take(i + 1)));
                }
                written = written + n;
                i = i + 1;
            }
            proof {
                assert(ts.take(ts.len() as int) =~= ts);
            }
            Ok(written)
        },
    }
}

/// Writes one message: the padded address, then a comma and one tag
/// per argument padded as text, then every argument's data bytes in
/// the same order.
fn encode_message<O: Output>(msg: &OscMessage, out: &mut O) -> (r: Result<usize, O::Err>)
    requires
        wire::msg_ok(*msg),
    ensures
        (match r {
            Ok(n) => {
                &&& final(out).bytes() == old(out).bytes() + wire::msg_enc(*msg)
                &&& n == wire::msg_enc(*msg).len()
            },
            Err(_) => true,
        }),
        O::infallible() ==> r is Ok,
{
    let ghost args = msg.args@;
    let ghost addr_e = wire::str_enc(wire::text_bytes(msg.addr@));
    let ghost tstr = wire::tag_str(args);
    let ghost tstr_e = wire::str_enc(tstr);
    proof {
        wire::lemma_str_enc(wire::text_bytes(msg.addr@));
        wire::lemma_str_enc(tstr);
    }
    let mut written = encode_string_into(msg.addr.as_str(), out)?;
    let n_comma = write_byte(out, wire::TAG_COMMA)?;
    written = written + n_comma;
    let mut i: usize = 0;
    while i < msg.args.len()
        invariant
            i <= args.len(),
            msg.args@ == args,
            wire::msg_ok(*msg),
            addr_e == wire::str_enc(wire::text_bytes(msg.addr@)),
            tstr == wire::tag_str(args),
            tstr_e == wire::str_enc(tstr),
            tstr.len() + 1 <= tstr_e.len(),
            written == addr_e.len() + 1 + wire::tags_of(args.take(i as int)).len(),
            out.bytes() == old(out).bytes() + addr_e + seq![wire::TAG_COMMA] + wire::tags_of(
                args.take(i as int),
            ),
        decreases args.len() - i,
    {
        proof {
            wire::lemma_tags_of_split(args, i as int);
            reveal_with_fuel(wire::tags_of, 2);
            assert(wire::tags_of(args.skip(i as int)) == wire::tag_of(args[i as int])
                + wire::tags_of(args.skip(i as int).drop_first()));
            assert(wire::tag_of(args[i as int]).len() <= wire::tags_of(args).len());
            assert(wire::tags_of(args).len() + 1 == tstr.len());
            wire::lemma_tags_of_split(args, i + 1);
            assert(args.take(i + 1) =~= args.take(i as int).push(args[i as int]));
            wire::lemma_tags_of_push(args.take(i as int), args[i as int]);
        }
        let n = encode_arg_type(&msg.args[i], out)?;
        proof {
            assert(old(out).bytes() + addr_e + seq![wire::TAG_COMMA] + wire::tags_of(
                args.take(i as int),
            ) + wire::tag_of(args[i as int]) =~= old(out).bytes() + addr_e + seq![wire::TAG_COMMA]
                + wire::tags_of(args.take(i + 1)));
        }
        written = written + n;
        i = i + 1;
    }
    proof {
        assert(args.take(args.len() as int) =~= args);
        assert(seq![wire::TAG_COMMA] + wire::tags_of(args) =~= tstr);
        assert(written == addr_e.len() + tstr.len());
        wire::lemma_pad4_shift(addr_e.len() as int, tstr.len() + 1 as int);
        assert(wire::pad4(written + 1 as int) == addr_e.len() + tstr_e.len());
    }
    let padding = pad(written as u64 + 1) as usize - written;
    let n_pad = write_zeros(out, padding)?;
    written = written + n_pad;
    proof {
        assert(old(out).bytes() + addr_e + tstr + wire::zeros(padding as nat) =~= old(out).bytes()
            + addr_e + tstr_e);
    }
    let ghost pre_data = written as int;
    let mut j: usize = 0;
    while j < msg.args.len()
        invariant
            j <= args.len(),
            msg.args@ == args,
            wire::msg_ok(*msg),
            addr_e == wire::str_enc(wire::text_bytes(msg.addr@)),
            tstr_e == wire::str_enc(wire::tag_str(args)),
            pre_data == addr_e.len() + tstr_e.len(),
            written == pre_data + wire::datas_of(args.take(j as int)).len(),
            out.bytes() == old(out).bytes() + addr_e + tstr_e + wire::datas_of(
                args.take(j as int),
            ),
        decreases args.len() - j,
    {
        proof {
            reveal_with_fuel(wire::datas_of, 2);
            assert(wire::args_ok(args));
            assert(wire::arg_ok(args[j as int]));
            wire::lemma_datas_of_split(args, j as int);
            assert(wire::datas_of(args.skip(j as int)) == wire::data_of(args[j as int])
                + wire::datas_of(args.skip(j as int).drop_first()));
            assert(wire::data_of(args[j as int]).len() <= wire::datas_of(args).len());
            wire::lemma_datas_of_split(args, j + 1);
            assert(args.take(j + 1) =~= args.take(j as int).push(args[j as int]));
            wire::lemma_datas_of_push(args.take(j as int), args[j as int]);
        }
        let n = encode_arg_data(&msg.args[j], out)?;
        proof {
            assert(old(out).bytes() + addr_e + tstr_e + wire::datas_of(args.take(j as int))
                + wire::data_of(args[j as int]) =~= old(out).bytes() + addr_e + tstr_e
                + wire::datas_of(args.take(j + 1)));
        }
        written = written + n;
        j = j + 1;
    }
    proof {
        assert(args.take(args.len() as int) =~= args);
        assert(old(out).bytes() + addr_e + tstr_e + wire::datas_of(args) =~= old(out).bytes()
            + wire::msg_enc(*msg));
    }
    Ok(written)
}

/// Writes one bundle: the padded `#bundle` marker, the eight-byte time
/// tag, then each content packet behind a four-byte length prefix. The
/// prefix is reserved with `allocate` before the packet is encoded and
/// patched with `rewrite` once the packet's size is known.
#[verifier::rlimit(50)]
fn encode_bundle<O: Output>(bundle: &OscBundle, out: &mut O) -> (r: Result<usize, O::Err>)
    requires
        wire::bundle_ok(*bundle),
    ensures
        (match r {
            Ok(n) => {
                &&& final(out).bytes() == old(out).bytes() + wire::bundle_enc(*bundle)
                &&& n == wire::bundle_enc(*bundle).len()
            },
            Err(_) => true,
        }),
        O::infallible() ==> r is Ok,
    decreases *bundle,
{
    let ghost ps = bundle.content@;
    let ghost head = wire::str_enc(wire::bundle_marker()) + wire::be32(bundle.timetag.seconds)
        + wire::be32(bundle.timetag.fractional);
    let mut hdr: Vec<u8> = Vec::new();
    hdr.push(35u8);
    hdr.push(98u8);
    hdr.push(117u8);
    hdr.push(110u8);
    hdr.push(100u8);
    hdr.push(108u8);
    hdr.push(101u8);
    hdr.push(0u8);
    proof {
        wire::lemma_str_enc(wire::bundle_marker());
        assert(hdr@ =~= wire::str_enc(wire::bundle_marker()));
    }
    let mut written = out.write(hdr.as_slice())?;
    let n_tt = encode_time_tag_into(&bundle.timetag, out)?;
    written = written + n_tt;
    let mut i: usize = 0;
    while i < bundle.content.len()
        invariant
            i <= ps.len(),
            bundle.content@ == ps,
            wire::bundle_ok(*bundle),
            head == wire::str_enc(wire::bundle_marker()) + wire::be32(bundle.timetag.seconds)
                + wire::be32(bundle.timetag.fractional),
            head.len() == 16,
            wire::bundle_enc(*bundle) == head + wire::packets_enc(ps),
            wire::bundle_enc(*bundle).len() <= usize::MAX,
            written == 16 + wire::packets_enc(ps.take(i as int)).len(),
            out.bytes() == old(out).bytes() + head + wire::packets_enc(ps.take(i as int)),
        decreases ps.len() - i,
    {
        proof {
            assert(wire::packet_ok(ps[i as int]) && wire::packet_enc(ps[i as int]).len()
                <= u32::MAX);
            wire::lemma_packets_enc_split(ps, i as int);
            reveal_with_fuel(wire::packets_enc, 2);
            assert(wire::packets_enc(ps.skip(i as int)) == wire::framed(ps[i as int])
                + wire::packets_enc(ps.skip(i as int).drop_first()));
            assert(wire::framed(ps[i as int]).len() <= wire::packets_enc(ps).len());
            wire::lemma_packets_enc_split(ps, i + 1);
            assert(ps.take(i + 1) =~= ps.take(i as int).push(ps[i as int]));
            wire::lemma_packets_enc_push(ps.take(i as int), ps[i as int]);
        }
        let ghost before = out.bytes();
        let mark = out.allocate(4)?;
        written = written + 4;
        proof {
            assert(decreases_to!(*bundle => bundle.content@[i as int]));
        }
        let n = match &bundle.content[i] {
            OscPacket::Message(m) => encode_message(m, out)?,
            OscPacket::Bundle(b) => encode_bundle(b, out)?,
        };
        let prefix = be32_vec(n as u32);
        out.rewrite(mark, prefix.as_slice())?;
        proof {
            assert(out.bytes() =~= before + wire::be32(wire::packet_enc(ps[i as int]).len() as u32)
                + wire::packet_enc(ps[i as int]));
            assert(out.bytes() =~= old(out).bytes() + head + wire::packets_enc(ps.take(i + 1)));
        }
        written = written + n;
        i = i + 1;
    }
    proof {
        assert(ps.take(ps.len() as int) =~= ps);
        assert(old(out).bytes() + head + wire::packets_enc(ps) =~= old(out).bytes()
            + wire::bundle_enc(*bundle));
    }
    Ok(written)
}

/// Writes an OSC packet through the given sink and returns the number
/// of bytes written. If the sink reports an error, encoding stops and
/// the error is returned unchanged; the sink may then hold a partial
/// write and must be discarded or reset by the caller.
pub fn encode_into<O: Output>(packet: &OscPacket, out: &mut O) -> (r: Result<usize, O::Err>)
    requires
        wire::packet_ok(*packet),
    ensures
        (match r {
            Ok(n) => {
                &&& final(out).bytes() == old(out).bytes() + wire::packet_enc(*packet)
                &&& n == wire::packet_enc(*packet).len()
            },
            Err(_) => true,
        }),
        O::infallible() ==> r is Ok,
{
    match packet {
        OscPacket::Message(msg) => encode_message(msg, out),
        OscPacket::Bundle(bundle) => encode_bundle(bundle, out),
    }
}

/// Encodes an OSC packet into a fresh byte buffer: the convenience
/// path. Encoding into an owned buffer cannot fail.
pub fn encode(packet: &OscPacket) -> (r: Vec<u8>)
    requires
        wire::packet_ok(*packet),
    ensures
        r@ == wire::packet_enc(*packet),
{
    let mut bytes: Vec<u8> = Vec::new();
    match encode_into(packet, &mut bytes) {
        Ok(_) => bytes,
        Err(_) => bytes,
    }
}

/// NUL-terminates the byte representation of the text `s` and adds
/// NUL bytes until the length of the result is a multiple of 4.
pub fn encode_string(s: &str) -> (r: Vec<u8>)
    requires
        wire::str_enc(wire::text_bytes(s@)).len() <= usize::MAX,
    ensures
        r@ == wire::str_enc(wire::text_bytes(s@)),
{
    let mut bytes: Vec<u8> = Vec::new();
    match encode_string_into(s, &mut bytes) {
        Ok(_) => bytes,
        Err(_) => bytes,
    }
}

} // verus!
