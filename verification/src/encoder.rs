use crate::errors::OscError;
use crate::types::{
    lemma_vw_args, lemma_vw_packets, vw_args, vw_packets, OscMessage, OscPacket, OscPacketV,
    OscTime, OscType, OscTypeV,
};
use crate::utils::pad4;
use crate::wire::{
    be32, be64, bundle_chars, bundle_header, data_bytes, datas_bytes, enc_elems, enc_msg,
    enc_packet, enc_str, enc_stream, enc_tag_str, enc_time, has_empty_addr, lemma_bundle_header,
    lemma_datas_prefix_len, lemma_datas_push, lemma_enc_elems_prefix_len, lemma_enc_elems_push,
    lemma_enc_stream_prefix_len, lemma_enc_stream_push, lemma_tags_prefix_len, lemma_tags_push,
    splice, tag_bytes, tags_bytes, zero_bytes,
};
use vstd::prelude::*;

verus! {

/// A trait for values that can receive encoded OSC output via `encode_into`:
/// a growable in-memory buffer, or a seekable external sink. A sink is
/// modelled by the byte contents it has received so far; `mark` reserves a
/// fixed-size slot at the current position and `place` later fills exactly
/// that slot, which is how length prefixes are written before the length of
/// the nested frame is known.
pub trait Output {
    /// The error type which is returned from Output functions.
    type Err;

    /// The type which should be used to indicate the location of a mark.
    type Mark;

    /// The bytes this sink has received so far.
    spec fn contents(&self) -> Seq<u8>;

    /// Whether writes to this kind of sink always succeed, as they do for an
    /// in-memory buffer.
    spec fn infallible() -> bool;

    /// The position at which a mark's slot begins.
    spec fn mark_pos(m: &Self::Mark) -> int;

    /// The size of a mark's slot.
    spec fn mark_len(m: &Self::Mark) -> int;

    /// Appends a block of data to the output. Unlike the write of an I/O
    /// stream, it either writes all of the data or fails.
    fn write(&mut self, data: &[u8]) -> (r: Result<usize, Self::Err>)
        requires
            old(self).contents().len() + data@.len() <= usize::MAX,
        ensures
            r matches Ok(n) ==> n == data@.len() && final(self).contents() == old(self).contents() + data@,
            r is Err ==> !Self::infallible(),
    ;

    /// Reserves `size` zero bytes at the current position and returns a mark
    /// which may be used to fill the slot in later with `place`.
    fn mark(&mut self, size: usize) -> (r: Result<Self::Mark, Self::Err>)
        requires
            old(self).contents().len() + size <= usize::MAX,
        ensures
            r matches Ok(m) ==> final(self).contents() == old(self).contents() + zero_bytes(size as int)
                && Self::mark_pos(&m) == old(self).contents().len() && Self::mark_len(&m)
                == size as int,
            r is Err ==> !Self::infallible(),
    ;

    /// Consumes a previously-generated mark and fills its slot with data of
    /// exactly the reserved size; the rest of the contents stay as they are.
    fn place(&mut self, mark: Self::Mark, data: &[u8]) -> (r: Result<(), Self::Err>)
        requires
            0 <= Self::mark_pos(&mark),
            Self::mark_pos(&mark) + Self::mark_len(&mark) <= old(self).contents().len(),
            data@.len() == Self::mark_len(&mark),
        ensures
            r is Ok ==> final(self).contents() == splice(old(self).contents(), Self::mark_pos(&mark), data@),
            r is Err ==> !Self::infallible(),
    ;
}

impl Output for Vec<u8> {
    type Err = ();

    type Mark = (usize, usize);

    open spec fn contents(&self) -> Seq<u8> {
        self@
    }

    open spec fn infallible() -> bool {
        true
    }

    open spec fn mark_pos(m: &(usize, usize)) -> int {
        m.0 as int
    }

    open spec fn mark_len(m: &(usize, usize)) -> int {
        m.1 - m.0
    }

    fn write(&mut self, data: &[u8]) -> (r: Result<usize, ()>) {
        let n = data.len();
        for i in 0..n
            invariant
                n == data@.len(),
                self@ == old(self)@ + data@.take(i as int),
            decreases n - i,
        {
            self.push(data[i]);
            proof {
                assert(old(self)@ + data@.take(i + 1) =~= (old(self)@ + data@.take(i as int)).push(
                    data@[i as int],
                ));
            }
        }
        proof {
            assert(data@.take(n as int) =~= data@);
        }
        Ok(n)
    }

    fn mark(&mut self, size: usize) -> (r: Result<(usize, usize), ()>) {
        let start = self.len();
        let end = start + size;
        self.resize(end, 0);
        proof {
            assert(self@ =~= old(self)@ + zero_bytes(size as int));
        }
        Ok((start, end))
    }

    fn place(&mut self, mark: (usize, usize), data: &[u8]) -> (r: Result<(), ()>) {
        let (start, _end) = mark;
        let n = data.len();
        let total = self.len();
        for i in 0..n
            invariant
                n == data@.len(),
                start + n <= total == self@.len(),
                self@.len() == old(self)@.len(),
                forall|j: int| 0 <= j < start ==> self@[j] == old(self)@[j],
                forall|j: int| start + i <= j < self@.len() ==> self@[j] == old(self)@[j],
                forall|j: int| 0 <= j < i ==> self@[start + j] == data@[j],
            decreases n - i,
        {
            self[start + i] = data[i];
        }
        proof {
            assert(self@ =~= splice(old(self)@, start as int, data@));
        }
        Ok(())
    }
}

/// The four big-endian bytes of `x`.
fn be32_vec(x: u32) -> (v: Vec<u8>)
    ensures
        v@ == be32(x),
{
    let mut v: Vec<u8> = Vec::new();
    v.push((x >> 24) as u8);
    v.push((x >> 16) as u8);
    v.push((x >> 8) as u8);
    v.push(x as u8);
    proof {
        assert(v@ =~= be32(x));
    }
    v
}

/// The eight big-endian bytes of `x`.
fn be64_vec(x: u64) -> (v: Vec<u8>)
    ensures
        v@ == be64(x),
{
    let mut v: Vec<u8> = Vec::new();
    v.push((x >> 56) as u8);
    v.push((x >> 48) as u8);
    v.push((x >> 40) as u8);
    v.push((x >> 32) as u8);
    v.push((x >> 24) as u8);
    v.push((x >> 16) as u8);
    v.push((x >> 8) as u8);
    v.push(x as u8);
    proof {
        assert(v@ =~= be64(x));
    }
    v
}

/// Null terminates the byte representation of string `s` and
/// adds null bytes until the length of the result is a
/// multiple of 4.
pub fn encode_string(s: &str) -> (r: Vec<u8>)
    ensures
        r@ == enc_str(s@),
{
    let bytes = s.as_bytes();
    let _blen = bytes.len();
    let mut out: Vec<u8> = Vec::new();
    let _w = out.write(bytes);
    proof {
        assert(_w is Ok);
        assert(out@ =~= vstd::utf8::encode_utf8(s@) + zero_bytes(0));
    }
    let padding = 4 - bytes.len() % 4;
    let mut k: usize = 0;
    while k < padding
        invariant
            k <= padding <= 4,
            out@ == vstd::utf8::encode_utf8(s@) + zero_bytes(k as int),
        decreases padding - k,
    {
        out.push(0u8);
        k = k + 1;
        proof {
            assert(out@ =~= vstd::utf8::encode_utf8(s@) + zero_bytes(k as int));
        }
    }
    proof {
        let b = vstd::utf8::encode_utf8(s@);
        assert(padding == pad4(b.len() as int + 1) - b.len());
        assert(out@ =~= enc_str(s@));
    }
    out
}

/// Writes the given string `s` to the given Output, adding
/// 1-4 null bytes such that the length of the result is a
/// multiple of 4.
pub fn encode_string_into<O: Output>(s: &str, out: &mut O) -> (r: Result<usize, O::Err>)
    requires
        old(out).contents().len() + enc_str(s@).len() <= usize::MAX,
    ensures
        r matches Ok(n) ==> final(out).contents() == old(out).contents() + enc_str(s@) && n
            == enc_str(s@).len(),
        r is Err ==> !O::infallible(),
{
    let bytes = s.as_bytes();
    out.write(bytes)?;
    let padding = 4 - bytes.len() % 4;
    let mut zeros: Vec<u8> = Vec::new();
    let mut k: usize = 0;
    while k < padding
        invariant
            k <= padding <= 4,
            zeros@ == zero_bytes(k as int),
        decreases padding - k,
    {
        zeros.push(0u8);
        k = k + 1;
        proof {
            assert(zeros@ =~= zero_bytes(k as int));
        }
    }
    out.write(zeros.as_slice())?;
    proof {
        let b = vstd::utf8::encode_utf8(s@);
        assert(padding == pad4(b.len() as int + 1) - b.len());
        assert(out.contents() =~= old(out).contents() + enc_str(s@));
    }
    Ok(bytes.len() + padding)
}

/// Returns the position padded to 4 bytes.
pub fn pad(pos: u64) -> (r: u64)
    requires
        pos + 3 <= u64::MAX,
    ensures
        r == pad4(pos as int),
{
    match pos % 4 {
        0 => pos,
        d => pos + (4 - d),
    }
}

/// Writes the eight bytes of a time tag.
fn encode_time_tag_into<O: Output>(time: &OscTime, out: &mut O) -> (r: Result<usize, O::Err>)
    requires
        old(out).contents().len() + 8 <= usize::MAX,
    ensures
        r matches Ok(n) ==> final(out).contents() == old(out).contents() + enc_time(*time) && n == 8,
        r is Err ==> !O::infallible(),
{
    let sec = be32_vec(time.seconds);
    out.write(sec.as_slice())?;
    let frac = be32_vec(time.fractional);
    out.write(frac.as_slice())?;
    proof {
        assert(out.contents() =~= old(out).contents() + enc_time(*time));
    }
    Ok(8)
}


/// Appends one byte.
fn write_byte<O: Output>(out: &mut O, b: u8) -> (r: Result<usize, O::Err>)
    requires
        old(out).contents().len() + 1 <= usize::MAX,
    ensures
        r matches Ok(n) ==> final(out).contents() == old(out).contents() + seq![b] && n == 1,
        r is Err ==> !O::infallible(),
{
    let mut v: Vec<u8> = Vec::new();
    v.push(b);
    proof {
        assert(v@ =~= seq![b]);
    }
    out.write(v.as_slice())
}

/// Writes the type tag characters of one argument.
#[verifier::loop_isolation(false)]
fn encode_arg_type<O: Output>(arg: &OscType, out: &mut O) -> (r: Result<usize, O::Err>)
    requires
        old(out).contents().len() + tag_bytes(arg.vw()).len() <= usize::MAX,
    ensures
        r matches Ok(n) ==> final(out).contents() == old(out).contents() + tag_bytes(arg.vw()) && n
            == tag_bytes(arg.vw()).len(),
        r is Err ==> !O::infallible(),
    decreases arg,
{
    match arg {
        OscType::Int(_) => write_byte(out, 0x69),
        OscType::Long(_) => write_byte(out, 0x68),
        OscType::Float(_) => write_byte(out, 0x66),
        OscType::Double(_) => write_byte(out, 0x64),
        OscType::Char(_) => write_byte(out, 0x63),
        OscType::String(_) => write_byte(out, 0x73),
        OscType::Blob(_) => write_byte(out, 0x62),
        OscType::Time(_) => write_byte(out, 0x74),
        OscType::Midi(_) => write_byte(out, 0x6d),
        OscType::Color(_) => write_byte(out, 0x72),
        OscType::Bool(x) => write_byte(out, if *x { 0x54 } else { 0x46 }),
        OscType::Nil => write_byte(out, 0x4e),
        OscType::Inf => write_byte(out, 0x49),
        OscType::Array(a) => {
            let ghost xs = vw_args(a.content@);
            proof {
                lemma_vw_args(a.content@);
            }
            let mut written = write_byte(out, 0x5b)?;
            let n = a.content.len();
            for i in 0..n
                invariant
                    n == a.content.len(),
                    xs == vw_args(a.content@),
                    xs.len() == n,
                    forall|j: int| 0 <= j < n ==> xs[j] == #[trigger] a.content@[j].vw(),
                    arg.vw() == OscTypeV::Array(xs),
                    old(out).contents().len() + tag_bytes(arg.vw()).len() <= usize::MAX,
                    out.contents() == old(out).contents() + seq![0x5bu8] + tags_bytes(
                        xs.take(i as int),
                    ),
                    written == 1 + tags_bytes(xs.take(i as int)).len(),
                decreases n - i,
            {
                proof {
                    lemma_tags_push(xs.take(i as int), xs[i as int]);
                    assert(xs.take(i + 1) =~= xs.take(i as int).push(xs[i as int]));
                    lemma_tags_prefix_len(xs, i + 1);
                    assert(decreases_to!(*arg => a.content@[i as int]));
                }
                let w = encode_arg_type(&a.content[i], out);
                match w {
                    Ok(k) => {
                        written += k;
                    },
                    Err(e) => {
                        return Err(e);
                    },
                }
            }
            proof {
                assert(xs.take(n as int) =~= xs);
            }
            let w2 = write_byte(out, 0x5d)?;
            proof {
                assert(final(out).contents() =~= old(out).contents() + tag_bytes(arg.vw()));
            }
            Ok(written + w2)
        },
    }
}


/// Writes the payload bytes of one argument.
#[verifier::loop_isolation(false)]
fn encode_arg_data<O: Output>(arg: &OscType, out: &mut O) -> (r: Result<usize, O::Err>)
    requires
        old(out).contents().len() + data_bytes(arg.vw()).len() <= usize::MAX,
    ensures
        r matches Ok(n) ==> final(out).contents() == old(out).contents() + data_bytes(arg.vw())
            && n == data_bytes(arg.vw()).len(),
        r is Err ==> !O::infallible(),
    decreases arg,
{
    match arg {
        OscType::Int(x) => {
            let v = be32_vec(#[verifier::truncate] (*x as u32));
            out.write(v.as_slice())
        },
        OscType::Long(x) => {
            let v = be64_vec(#[verifier::truncate] (*x as u64));
            out.write(v.as_slice())
        },
        OscType::Float(x) => {
            let v = be32_vec(*x);
            out.write(v.as_slice())
        },
        OscType::Double(x) => {
            let v = be64_vec(*x);
            out.write(v.as_slice())
        },
        OscType::Char(c) => {
            let v = be32_vec(*c as u32);
            out.write(v.as_slice())
        },
        OscType::String(x) => encode_string_into(x.as_str(), out),
        OscType::Blob(x) => {
            let blen = x.len();
            let lenv = be32_vec(#[verifier::truncate] (blen as u32));
            let mut written = out.write(lenv.as_slice())?;
            written += out.write(x.as_slice())?;
            let padding = (4 - blen % 4) % 4;
            let mut zeros: Vec<u8> = Vec::new();
            let mut k: usize = 0;
            while k < padding
                invariant
                    k <= padding <= 3,
                    zeros@ == zero_bytes(k as int),
                decreases padding - k,
            {
                zeros.push(0u8);
                k = k + 1;
                proof {
                    assert(zeros@ =~= zero_bytes(k as int));
                }
            }
            written += out.write(zeros.as_slice())?;
            proof {
                assert(padding == pad4(blen as int) - blen);
                assert(final(out).contents() =~= old(out).contents() + data_bytes(arg.vw()));
            }
            Ok(written)
        },
        OscType::Time(t) => encode_time_tag_into(t, out),
        OscType::Midi(x) => {
            let mut v: Vec<u8> = Vec::new();
            v.push(x.port);
            v.push(x.status);
            v.push(x.data1);
            v.push(x.data2);
            proof {
                assert(v@ =~= data_bytes(arg.vw()));
            }
            out.write(v.as_slice())
        },
        OscType::Color(x) => {
            let mut v: Vec<u8> = Vec::new();
            v.push(x.red);
            v.push(x.green);
            v.push(x.blue);
            v.push(x.alpha);
            proof {
                assert(v@ =~= data_bytes(arg.vw()));
            }
            out.write(v.as_slice())
        },
        OscType::Bool(_) => Ok(0),
        OscType::Nil => Ok(0),
        OscType::Inf => Ok(0),
        OscType::Array(a) => {
            let ghost xs = vw_args(a.content@);
            proof {
                lemma_vw_args(a.content@);
            }
            let mut written: usize = 0;
            let n = a.content.len();
            for i in 0..n
                invariant
                    out.contents() == old(out).contents() + datas_bytes(xs.take(i as int)),
                    written == datas_bytes(xs.take(i as int)).len(),
                decreases n - i,
            {
                proof {
                    lemma_datas_push(xs.take(i as int), xs[i as int]);
                    assert(xs.take(i + 1) =~= xs.take(i as int).push(xs[i as int]));
                    lemma_datas_prefix_len(xs, i + 1);
                    assert(decreases_to!(*arg => a.content@[i as int]));
                }
                let w = encode_arg_data(&a.content[i], out);
                match w {
                    Ok(k) => {
                        written += k;
                    },
                    Err(e) => {
                        return Err(e);
                    },
                }
            }
            proof {
                assert(xs.take(n as int) =~= xs);
            }
            Ok(written)
        },
    }
}

/// Encodes one message: padded address, padded type tag string, payloads.
#[verifier::loop_isolation(false)]
#[verifier::rlimit(50)]
fn encode_message<O: Output>(msg: &OscMessage, out: &mut O) -> (r: Result<usize, O::Err>)
    requires
        old(out).contents().len() + enc_msg(msg.vw()).len() <= usize::MAX,
    ensures
        r matches Ok(n) ==> final(out).contents() == old(out).contents() + enc_msg(msg.vw()) && n
            == enc_msg(msg.vw()).len(),
        r is Err ==> !O::infallible(),
    decreases msg,
{
    let ghost argsv = vw_args(msg.args@);
    proof {
        lemma_vw_args(msg.args@);
        crate::wire::lemma_pad4(vstd::utf8::encode_utf8(msg.addr@).len() as int + 1);
        lemma_tags_prefix_len(argsv, argsv.len() as int);
    }
    let mut written = encode_string_into(msg.addr.as_str(), out)?;

    written += write_byte(out, 0x2c)?;
    let n = msg.args.len();
    for i in 0..n
        invariant
            out.contents() == old(out).contents() + enc_str(msg.addr@) + seq![0x2cu8] + tags_bytes(
                argsv.take(i as int),
            ),
            written == enc_str(msg.addr@).len() + 1 + tags_bytes(argsv.take(i as int)).len(),
        decreases n - i,
    {
        proof {
            lemma_tags_push(argsv.take(i as int), argsv[i as int]);
            assert(argsv.take(i + 1) =~= argsv.take(i as int).push(argsv[i as int]));
            lemma_tags_prefix_len(argsv, i + 1);
            lemma_datas_prefix_len(argsv, 0);
        }
        let w = encode_arg_type(&msg.args[i], out);
        match w {
            Ok(k) => {
                written += k;
            },
            Err(e) => {
                return Err(e);
            },
        }
    }
    proof {
        assert(argsv.take(n as int) =~= argsv);
    }

    let padding = 4 - written % 4;
    let mut zeros: Vec<u8> = Vec::new();
    let mut k: usize = 0;
    while k < padding
        invariant
            k <= padding <= 4,
            zeros@ == zero_bytes(k as int),
        decreases padding - k,
    {
        zeros.push(0u8);
        k = k + 1;
        proof {
            assert(zeros@ =~= zero_bytes(k as int));
        }
    }
    written += out.write(zeros.as_slice())?;
    proof {
        let tb = seq![0x2cu8] + tags_bytes(argsv);
        assert(enc_str(msg.addr@).len() % 4 == 0) by {
            crate::wire::lemma_pad4(vstd::utf8::encode_utf8(msg.addr@).len() as int + 1);
        }
        assert(padding == pad4(tb.len() as int + 1) - tb.len());
        assert(out.contents() =~= old(out).contents() + enc_str(msg.addr@) + enc_tag_str(argsv));
    }

    for i in 0..n
        invariant
            out.contents() == old(out).contents() + enc_str(msg.addr@) + enc_tag_str(argsv)
                + datas_bytes(argsv.take(i as int)),
            written == enc_str(msg.addr@).len() + enc_tag_str(argsv).len() + datas_bytes(
                argsv.take(i as int),
            ).len(),
        decreases n - i,
    {
        proof {
            lemma_datas_push(argsv.take(i as int), argsv[i as int]);
            assert(argsv.take(i + 1) =~= argsv.take(i as int).push(argsv[i as int]));
            lemma_datas_prefix_len(argsv, i + 1);
        }
        let w = encode_arg_data(&msg.args[i], out);
        match w {
            Ok(k) => {
                written += k;
            },
            Err(e) => {
                return Err(e);
            },
        }
    }
    proof {
        assert(argsv.take(n as int) =~= argsv);
        assert(out.contents() =~= old(out).contents() + enc_msg(msg.vw()));
    }
    Ok(written)
}

/// Takes a reference to an OSC packet and writes the encoded bytes to the
/// given output. On success, the number of bytes written will be returned.
/// If an error occurs during encoding, encoding will stop and the error will
/// be returned; the output may have been partially written.
#[verifier::loop_isolation(false)]
#[verifier::rlimit(60)]
pub fn encode_into<O: Output>(packet: &OscPacket, out: &mut O) -> (r: Result<usize, O::Err>)
    requires
        old(out).contents().len() + enc_packet(packet@).len() <= usize::MAX,
    ensures
        r matches Ok(n) ==> final(out).contents() == old(out).contents() + enc_packet(packet@) && n
            == enc_packet(packet@).len(),
        r is Err ==> !O::infallible(),
    decreases packet,
{
    match packet {
        OscPacket::Message(msg) => encode_message(msg, out),
        OscPacket::Bundle(bundle) => {
            let ghost elemsv = vw_packets(bundle.content@);
            proof {
                lemma_vw_packets(bundle.content@);
                lemma_bundle_header();
                reveal_strlit("#bundle");
                assert("#bundle"@ =~= bundle_chars());
                lemma_enc_elems_prefix_len(elemsv, 0);
            }
            let mut written = encode_string_into("#bundle", out)?;
            written += encode_time_tag_into(&bundle.timetag, out)?;

            let n = bundle.content.len();
            for i in 0..n
                invariant
                    out.contents() == old(out).contents() + bundle_header() + enc_time(
                        bundle.timetag,
                    ) + enc_elems(elemsv.take(i as int)),
                    written == 16 + enc_elems(elemsv.take(i as int)).len(),
                decreases n - i,
            {
                proof {
                    lemma_enc_elems_push(elemsv.take(i as int), elemsv[i as int]);
                    assert(elemsv.take(i + 1) =~= elemsv.take(i as int).push(elemsv[i as int]));
                    lemma_enc_elems_prefix_len(elemsv, i + 1);
                    assert(decreases_to!(*packet => bundle.content@[i as int]));
                }
                let ghost pre = out.contents();
                let m = out.mark(4)?;
                let w = encode_into(&bundle.content[i], out);
                let length: usize;
                match w {
                    Ok(k) => {
                        length = k;
                    },
                    Err(e) => {
                        return Err(e);
                    },
                }
                let lenv = be32_vec(#[verifier::truncate] (length as u32));
                let p = out.place(m, lenv.as_slice());
                match p {
                    Ok(_) => {},
                    Err(e) => {
                        return Err(e);
                    },
                }
                proof {
                    assert(out.contents() =~= pre + be32(
                        enc_packet(elemsv[i as int]).len() as u32,
                    ) + enc_packet(elemsv[i as int]));
                }
                written += 4 + length;
            }
            proof {
                assert(elemsv.take(n as int) =~= elemsv);
                assert(out.contents() =~= old(out).contents() + enc_packet(packet@));
            }
            Ok(written)
        },
    }
}

/// Whether some message in the packet has an empty address.
#[verifier::loop_isolation(false)]
fn check_empty_addr(p: &OscPacket) -> (r: bool)
    ensures
        r == has_empty_addr(p.vw()),
    decreases p,
{
    match p {
        OscPacket::Message(m) => m.addr.as_str().is_empty(),
        OscPacket::Bundle(b) => {
            proof {
                lemma_vw_packets(b.content@);
            }
            let n = b.content.len();
            for i in 0..n
                invariant
                    forall|j: int|
                        0 <= j < i ==> !has_empty_addr(#[trigger] vw_packets(b.content@)[j]),
                decreases n - i,
            {
                proof {
                    assert(decreases_to!(*p => b.content@[i as int]));
                }
                if check_empty_addr(&b.content[i]) {
                    proof {
                        let cv = vw_packets(b.content@);
                        assert((i as int) < cv.len() && has_empty_addr(cv[i as int]));
                        assert(p.vw() matches OscPacketV::Bundle(bv) && bv.content == cv);
                        assert(has_empty_addr(p.vw()));
                    }
                    return true;
                }
            }
            false
        },
    }
}

/// Takes a reference to an OSC packet and returns a byte vector on success.
/// Succeeds exactly when no message in the packet has an empty address, and
/// then returns exactly the wire encoding of the packet; a packet with an
/// empty address is rejected with `BadAddress`.
pub fn encode(packet: &OscPacket) -> (r: Result<Vec<u8>, OscError>)
    requires
        enc_packet(packet@).len() <= usize::MAX,
    ensures
        r matches Ok(b) ==> b@ == enc_packet(packet@) && !has_empty_addr(packet@) && b@.len() % 4
            == 0,
        r matches Err(e) ==> has_empty_addr(packet@) && e matches OscError::BadAddress(_),
{
    proof {
        crate::correctness::lemma_enc_packet_aligned(packet@);
    }
    if check_empty_addr(packet) {
        return Err(OscError::BadAddress("empty address".to_owned()));
    }
    let mut bytes: Vec<u8> = Vec::new();
    let w = encode_into(packet, &mut bytes);
    match w {
        Ok(_) => Ok(bytes),
        Err(_) => {
            proof {
                assert(false);
            }
            Ok(bytes)
        },
    }
}

/// Encodes a slice of packets for a stream transport: each packet's encoding
/// prefixed by its own byte length as a big-endian 32-bit word. Succeeds
/// exactly when no message in any of the packets has an empty address.
#[verifier::loop_isolation(false)]
pub fn encode_tcp(packets: &[OscPacket]) -> (r: Result<Vec<u8>, OscError>)
    requires
        enc_stream(vw_packets(packets@)).len() <= usize::MAX,
    ensures
        r matches Ok(b) ==> b@ == enc_stream(vw_packets(packets@)) && forall|i: int|
            0 <= i < packets@.len() ==> !has_empty_addr(#[trigger] vw_packets(packets@)[i]),
        r matches Err(e) ==> (exists|i: int|
            0 <= i < packets@.len() && has_empty_addr(#[trigger] vw_packets(packets@)[i]))
            && e matches OscError::BadAddress(_),
{
    let ghost sv = vw_packets(packets@);
    proof {
        lemma_vw_packets(packets@);
        lemma_enc_stream_prefix_len(sv, 0);
    }
    let mut out: Vec<u8> = Vec::new();
    let n = packets.len();
    for i in 0..n
        invariant
            out@ == enc_stream(sv.take(i as int)),
            forall|j: int| 0 <= j < i ==> !has_empty_addr(#[trigger] sv[j]),
        decreases n - i,
    {
        proof {
            lemma_enc_stream_push(sv.take(i as int), sv[i as int]);
            assert(sv.take(i + 1) =~= sv.take(i as int).push(sv[i as int]));
            lemma_enc_stream_prefix_len(sv, i + 1);
        }
        let p = vstd::slice::slice_index_get(packets, i);
        if check_empty_addr(p) {
            return Err(OscError::BadAddress("empty address".to_owned()));
        }
        let m = out.mark(4);
        let ghost pre = out@;
        let ghost markv = m->Ok_0;
        let w = encode_into(p, &mut out);
        let length: usize;
        match w {
            Ok(k) => {
                length = k;
            },
            Err(_) => {
                proof {
                    assert(false);
                }
                length = 0;
            },
        }
        let lenv = be32_vec(#[verifier::truncate] (length as u32));
        match m {
            Ok(mk) => {
                let _pl = out.place(mk, lenv.as_slice());
                proof {
                    assert(_pl is Ok);
                }
            },
            Err(_) => {
                proof {
                    assert(false);
                }
            },
        }
        proof {
            assert(out@ =~= enc_stream(sv.take(i + 1)));
        }
    }
    proof {
        assert(sv.take(n as int) =~= sv);
    }
    Ok(out)
}

} // verus!
