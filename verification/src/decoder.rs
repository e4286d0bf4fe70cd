use crate::errors::OscError;
use crate::types::{
    lemma_vw_args_push, lemma_vw_packets_push, vw_args, vw_packets, OscArray, OscBundle,
    OscMessage, OscPacket, OscTime, OscType,
};
use crate::wire::{
    be32_at, be64_at, bundle_chars, dec_arg, dec_args, dec_bundle, dec_elems, dec_msg, dec_packet,
    dec_str, dec_tcp, dec_tcp_vec, dec_time, first_nul, lemma_dec_arg_bounds,
    lemma_dec_packet_bounds, lemma_dec_str_bounds, lemma_first_nul,
};
use vstd::prelude::*;
use vstd::slice::{slice_index_get, slice_subrange, slice_to_vec};
use vstd::string::{StrSliceExecFns, StringExecFns};
use vstd::utf8::{char_u32_cast, decode_utf8, decode_utf8_encode_utf8, is_scalar, valid_utf8};

verus! {

/// Common MTU size for ethernet
pub const MTU: usize = 1536;

/// Relies on `String::from_utf8`: it succeeds exactly on valid UTF-8, and
/// the returned string holds exactly the given bytes, so its characters are
/// their UTF-8 decoding.
#[verifier::external_body]
fn bytes_to_string(bytes: Vec<u8>) -> (r: Result<String, String>)
    ensures
        r matches Ok(s) ==> valid_utf8(bytes@) && s@ == decode_utf8(bytes@),
        r is Err ==> !valid_utf8(bytes@),
{
    String::from_utf8(bytes).map_err(|e| e.to_string())
}

/// Relies on `char::from_u32`: it returns a character exactly for the values
/// that are Unicode scalar values, and that character casts back to the value.
pub assume_specification[ std::primitive::char::from_u32 ](i: u32) -> (r: Option<char>)
    ensures
        r matches Some(c) ==> is_scalar(i) && c as u32 == i,
        r is None ==> !is_scalar(i),
;

/// The position of the first NUL byte in `buf[pos..end]`, or `end`.
fn find_nul(buf: &[u8], pos: usize, end: usize) -> (r: usize)
    requires
        pos <= end <= buf@.len(),
    ensures
        r == first_nul(buf@, pos as int, end as int),
{
    let mut i = pos;
    while i < end
        invariant
            pos <= i <= end <= buf@.len(),
            first_nul(buf@, pos as int, end as int) == first_nul(buf@, i as int, end as int),
        decreases end - i,
    {
        if *slice_index_get(buf, i) == 0 {
            return i;
        }
        i += 1;
    }
    i
}

/// The big-endian 32-bit word at `pos`.
fn read_be32(buf: &[u8], pos: usize) -> (r: u32)
    requires
        pos + 4 <= buf@.len(),
    ensures
        r == be32_at(buf@, pos as int),
{
    let _n = buf.len();
    ((*slice_index_get(buf, pos) as u32) << 24u32) | ((*slice_index_get(buf, pos + 1) as u32)
        << 16u32) | ((*slice_index_get(buf, pos + 2) as u32) << 8u32) | (*slice_index_get(
        buf,
        pos + 3,
    ) as u32)
}

/// The big-endian 64-bit word at `pos`.
fn read_be64(buf: &[u8], pos: usize) -> (r: u64)
    requires
        pos + 8 <= buf@.len(),
    ensures
        r == be64_at(buf@, pos as int),
{
    let _n = buf.len();
    ((*slice_index_get(buf, pos) as u64) << 56u64) | ((*slice_index_get(buf, pos + 1) as u64)
        << 48u64) | ((*slice_index_get(buf, pos + 2) as u64) << 40u64) | ((*slice_index_get(
        buf,
        pos + 3,
    ) as u64) << 32u64) | ((*slice_index_get(buf, pos + 4) as u64) << 24u64) | ((*slice_index_get(
        buf,
        pos + 5,
    ) as u64) << 16u64) | ((*slice_index_get(buf, pos + 6) as u64) << 8u64) | (*slice_index_get(
        buf,
        pos + 7,
    ) as u64)
}

/// Reads one padded OSC string: the bytes up to the first NUL, as UTF-8,
/// then skips past the terminator to the next 4-byte boundary measured from
/// the start of `buf`.
fn read_osc_string(buf: &[u8], pos: usize, end: usize) -> (r: Result<(String, usize), OscError>)
    requires
        pos <= end <= buf@.len(),
    ensures
        match (r, dec_str(buf@, pos as int, end as int)) {
            (Ok((s, p)), Ok(sp)) => s@ == sp.0 && p == sp.1,
            (Err(e), Err(k)) => e.kind() == k,
            _ => false,
        },
{
    proof {
        lemma_first_nul(buf@, pos as int, end as int);
    }
    let nul = find_nul(buf, pos, end);
    let skip = 4 - nul % 4;
    if skip > end - nul {
        return Err(OscError::ReadError("string padding runs past the end of the input"));
    }
    let seg = slice_to_vec(slice_subrange(buf, pos, nul));
    match bytes_to_string(seg) {
        Ok(s) => Ok((s, nul + skip)),
        Err(m) => Err(OscError::StringError(m)),
    }
}

/// Reads the eight bytes of a time tag.
fn read_time_tag(buf: &[u8], pos: usize, end: usize) -> (r: Result<(OscTime, usize), OscError>)
    requires
        pos <= end <= buf@.len(),
    ensures
        match (r, dec_time(buf@, pos as int, end as int)) {
            (Ok((t, p)), Ok(tp)) => t == tp.0 && p == tp.1,
            (Err(e), Err(k)) => e.kind() == k,
            _ => false,
        },
{
    if end - pos >= 8 {
        Ok(
            (
                OscTime { seconds: read_be32(buf, pos), fractional: read_be32(buf, pos + 4) },
                pos + 8,
            ),
        )
    } else {
        Err(OscError::ReadError("time tag runs past the end of the input"))
    }
}

/// Reads one argument payload selected by the type tag character.
fn read_osc_arg(buf: &[u8], pos: usize, end: usize, tag: char) -> (r: Result<
    (OscType, usize),
    OscError,
>)
    requires
        pos <= end <= buf@.len(),
    ensures
        match (r, dec_arg(buf@, pos as int, end as int, tag)) {
            (Ok((v, p)), Ok(vp)) => v.vw() == vp.0 && p == vp.1,
            (Err(e), Err(k)) => e.kind() == k,
            _ => false,
        },
{
    match tag {
        'f' => {
            if end - pos >= 4 {
                Ok((OscType::Float(read_be32(buf, pos)), pos + 4))
            } else {
                Err(OscError::ReadError("float runs past the end of the input"))
            }
        },
        'd' => {
            if end - pos >= 8 {
                Ok((OscType::Double(read_be64(buf, pos)), pos + 8))
            } else {
                Err(OscError::ReadError("double runs past the end of the input"))
            }
        },
        'i' => {
            if end - pos >= 4 {
                Ok((OscType::Int(#[verifier::truncate] (read_be32(buf, pos) as i32)), pos + 4))
            } else {
                Err(OscError::ReadError("int runs past the end of the input"))
            }
        },
        'h' => {
            if end - pos >= 8 {
                Ok((OscType::Long(#[verifier::truncate] (read_be64(buf, pos) as i64)), pos + 8))
            } else {
                Err(OscError::ReadError("long runs past the end of the input"))
            }
        },
        's' => {
            match read_osc_string(buf, pos, end) {
                Ok((s, p)) => Ok((OscType::String(s), p)),
                Err(e) => Err(e),
            }
        },
        't' => {
            match read_time_tag(buf, pos, end) {
                Ok((t, p)) => Ok((OscType::Time(t), p)),
                Err(e) => Err(e),
            }
        },
        'b' => read_blob(buf, pos, end),
        'r' => {
            if end - pos >= 4 {
                Ok(
                    (
                        OscType::Color(
                            crate::types::OscColor {
                                red: *slice_index_get(buf, pos),
                                green: *slice_index_get(buf, pos + 1),
                                blue: *slice_index_get(buf, pos + 2),
                                alpha: *slice_index_get(buf, pos + 3),
                            },
                        ),
                        pos + 4,
                    ),
                )
            } else {
                Err(OscError::ReadError("color runs past the end of the input"))
            }
        },
        'T' => Ok((OscType::Bool(true), pos)),
        'F' => Ok((OscType::Bool(false), pos)),
        'N' => Ok((OscType::Nil, pos)),
        'I' => Ok((OscType::Inf, pos)),
        'c' => {
            if end - pos >= 4 {
                let u = read_be32(buf, pos);
                match std::primitive::char::from_u32(u) {
                    Some(c) => {
                        proof {
                            char_u32_cast(c, u);
                        }
                        Ok((OscType::Char(c), pos + 4))
                    },
                    None => Err(OscError::BadArg("argument is not a char".to_owned())),
                }
            } else {
                Err(OscError::ReadError("char runs past the end of the input"))
            }
        },
        'm' => {
            if end - pos >= 4 {
                Ok(
                    (
                        OscType::Midi(
                            crate::types::OscMidiMessage {
                                port: *slice_index_get(buf, pos),
                                status: *slice_index_get(buf, pos + 1),
                                data1: *slice_index_get(buf, pos + 2),
                                data2: *slice_index_get(buf, pos + 3),
                            },
                        ),
                        pos + 4,
                    ),
                )
            } else {
                Err(OscError::ReadError("midi message runs past the end of the input"))
            }
        },
        _ => Err(OscError::BadArg("unknown type tag".to_owned())),
    }
}

/// Reads a blob: its 32-bit length, that many raw bytes, then skips to the
/// next 4-byte boundary measured from the start of `buf`.
fn read_blob(buf: &[u8], pos: usize, end: usize) -> (r: Result<(OscType, usize), OscError>)
    requires
        pos <= end <= buf@.len(),
    ensures
        match (r, dec_arg(buf@, pos as int, end as int, 'b')) {
            (Ok((v, p)), Ok(vp)) => v.vw() == vp.0 && p == vp.1,
            (Err(e), Err(k)) => e.kind() == k,
            _ => false,
        },
{
    if end - pos < 4 {
        return Err(OscError::ReadError("blob length runs past the end of the input"));
    }
    let size32 = read_be32(buf, pos);
    if size32 as u64 > (end - (pos + 4)) as u64 {
        return Err(OscError::ReadError("blob runs past the end of the input"));
    }
    let size = size32 as usize;
    let data_end = pos + 4 + size;
    let skip = (4 - data_end % 4) % 4;
    if skip > end - data_end {
        return Err(OscError::ReadError("blob padding runs past the end of the input"));
    }
    let data = slice_to_vec(slice_subrange(buf, pos + 4, data_end));
    Ok((OscType::Blob(data), data_end + skip))
}

/// Reads the arguments selected by the tag string `tags` (whose first
/// character is skipped), keeping an explicit stack of in-progress argument
/// lists for `[`...`]` array groups.
#[verifier::loop_isolation(false)]
fn read_osc_args(buf: &[u8], pos: usize, end: usize, tags: &String) -> (r: Result<
    (Vec<OscType>, usize),
    OscError,
>)
    requires
        pos <= end <= buf@.len(),
        tags@.len() >= 1,
    ensures
        match (
            r,
            dec_args(buf@, pos as int, end as int, tags@.skip(1), 0, Seq::empty(), Seq::empty()),
        ) {
            (Ok((args, p)), Ok(ap)) => vw_args(args@) == ap.0 && p == ap.1,
            (Err(e), Err(k)) => e.kind() == k,
            _ => false,
        },
{
    let ghost tg = tags@.skip(1);
    let n = tags.as_str().unicode_len();
    let mut stack: Vec<Vec<OscType>> = Vec::new();
    let ghost mut stackv: Seq<Seq<crate::types::OscTypeV>> = Seq::empty();
    let mut args: Vec<OscType> = Vec::new();
    let mut p = pos;
    proof {
        assert(vw_args(args@) =~= Seq::<crate::types::OscTypeV>::empty());
    }
    let mut i: usize = 1;
    while i < n
        invariant
            1 <= i <= n || (n == 0 && i == 1),
            pos <= p <= end,
            stackv.len() == stack@.len(),
            forall|k: int| 0 <= k < stackv.len() ==> stackv[k] == vw_args(#[trigger] stack@[k]@),
            dec_args(buf@, pos as int, end as int, tg, 0, Seq::empty(), Seq::empty()) == dec_args(
                buf@,
                p as int,
                end as int,
                tg,
                i - 1,
                stackv,
                vw_args(args@),
            ),
        decreases n - i,
    {
        let ghost pre_stack = stackv;
        let ghost pre_cur = vw_args(args@);
        let ghost pre_p = p as int;
        let tag = tags.as_str().get_char(i);
        proof {
            assert(tg[i - 1] == tags@[i as int]);
        }
        if tag == '[' {
            let ghost curv = vw_args(args@);
            stack.push(args);
            args = Vec::new();
            proof {
                stackv = stackv.push(curv);
                assert(vw_args(args@) =~= Seq::<crate::types::OscTypeV>::empty());
            }
        } else if tag == ']' {
            match stack.pop() {
                Some(stashed) => {
                    let ghost curv = vw_args(args@);
                    let arr = OscType::Array(OscArray { content: args });
                    args = stashed;
                    proof {
                        assert(vw_args(args@) == stackv.last());
                        stackv = stackv.drop_last();
                        lemma_vw_args_push(args@, arr);
                    }
                    args.push(arr);
                },
                None => {
                    proof {
                        assert(dec_args(buf@, pre_p, end as int, tg, i - 1, pre_stack, pre_cur)
                            matches Err(k) && k == crate::errors::DecodeErrorKind::Message);
                    }
                    return Err(OscError::BadMessage("encountered ] outside an array"));
                },
            }
        } else {
            match read_osc_arg(buf, p, end, tag) {
                Ok((v, p2)) => {
                    proof {
                        lemma_vw_args_push(args@, v);
                        lemma_dec_arg_bounds(buf@, p as int, end as int, tag);
                    }
                    args.push(v);
                    p = p2;
                },
                Err(e) => {
                    return Err(e);
                },
            }
        }
        i += 1;
        proof {
            assert(dec_args(buf@, pre_p, end as int, tg, i - 2, pre_stack, pre_cur) == dec_args(
                buf@,
                p as int,
                end as int,
                tg,
                i - 1,
                stackv,
                vw_args(args@),
            ));
        }
    }
    proof {
        if n == 0 {
            assert(tg =~= Seq::<char>::empty());
        }
    }
    Ok((args, p))
}



/// Reads a message body after its address: the padded type tag string, then,
/// when that string has more than one byte, the arguments its tags select.
#[verifier::loop_isolation(false)]
fn decode_message(addr: String, buf: &[u8], pos: usize, end: usize) -> (r: Result<
    (OscPacket, usize),
    OscError,
>)
    requires
        pos <= end <= buf@.len(),
    ensures
        match (r, dec_msg(buf@, pos as int, end as int, addr@)) {
            (Ok((p, q)), Ok(pq)) => p.vw() == pq.0 && q == pq.1,
            (Err(e), Err(k)) => e.kind() == k,
            _ => false,
        },
{
    proof {
        lemma_first_nul(buf@, pos as int, end as int);
    }
    let ghost nul = first_nul(buf@, pos as int, end as int);
    match read_osc_string(buf, pos, end) {
        Ok((tags, p)) => {
            proof {
                decode_utf8_encode_utf8(buf@.subrange(pos as int, nul));
            }
            if tags.as_str().len() > 1 {
                match read_osc_args(buf, p, end, &tags) {
                    Ok((args, p2)) => Ok((OscPacket::Message(OscMessage { addr, args }), p2)),
                    Err(e) => Err(e),
                }
            } else {
                Ok((OscPacket::Message(OscMessage { addr, args: Vec::new() }), p))
            }
        },
        Err(e) => Err(e),
    }
}

/// Reads a bundle body after the marker: the time tag, then elements until
/// no complete length-prefixed element is left; an element that fails to
/// parse ends the bundle there.
fn decode_bundle(buf: &[u8], pos: usize, end: usize) -> (r: Result<(OscPacket, usize), OscError>)
    requires
        pos <= end <= buf@.len(),
    ensures
        match (r, dec_bundle(buf@, pos as int, end as int)) {
            (Ok((p, q)), Ok(pq)) => p.vw() == pq.0 && q == pq.1,
            (Err(e), Err(k)) => e.kind() == k,
            _ => false,
        },
    decreases end - pos, 1int,
{
    let (timetag, start) = match read_time_tag(buf, pos, end) {
        Ok(tp) => tp,
        Err(e) => {
            return Err(e);
        },
    };
    let mut content: Vec<OscPacket> = Vec::new();
    let mut p = start;
    loop
        invariant
            pos + 8 == start,
            start <= p <= end <= buf@.len(),
            dec_elems(buf@, start as int, end as int, Seq::empty()) == dec_elems(
                buf@,
                p as int,
                end as int,
                vw_packets(content@),
            ),
        ensures
            dec_elems(buf@, start as int, end as int, Seq::empty()) == (
                vw_packets(content@),
                p as int,
            ),
        decreases end - p,
    {
        if end - p < 4 {
            break ;
        }
        let size32 = read_be32(buf, p);
        if size32 as u64 > (end - (p + 4)) as u64 {
            break ;
        }
        let size = size32 as usize;
        let elem_end = p + 4 + size;
        match decode_packet(buf, p + 4, elem_end) {
            Ok((pkt, _)) => {
                proof {
                    lemma_vw_packets_push(content@, pkt);
                }
                content.push(pkt);
                p = elem_end;
            },
            Err(_) => {
                break ;
            },
        }
    }
    Ok((OscPacket::Bundle(OscBundle { timetag, content }), p))
}

/// Reads one packet out of `buf[pos..end]`: an empty range is an error, an
/// address beginning with `/` starts a message, the exact `#bundle` marker
/// starts a bundle, and any other leading string is an unrecognized packet.
#[verifier::loop_isolation(false)]
fn decode_packet(buf: &[u8], pos: usize, end: usize) -> (r: Result<(OscPacket, usize), OscError>)
    requires
        pos <= end <= buf@.len(),
    ensures
        match (r, dec_packet(buf@, pos as int, end as int)) {
            (Ok((p, q)), Ok(pq)) => p.vw() == pq.0 && q == pq.1,
            (Err(e), Err(k)) => e.kind() == k,
            _ => false,
        },
    decreases end - pos, 2int,
{
    if pos == end {
        return Err(OscError::BadPacket("Empty packet."));
    }
    proof {
        lemma_dec_str_bounds(buf@, pos as int, end as int);
    }
    match read_osc_string(buf, pos, end) {
        Ok((addr, p)) => {
            let a_len = addr.as_str().unicode_len();
            if a_len > 0 && addr.as_str().get_char(0) == '/' {
                decode_message(addr, buf, p, end)
            } else {
                let marker = <String as StringExecFns>::from_str("#bundle");
                proof {
                    reveal_strlit("#bundle");
                    assert(marker@ =~= bundle_chars());
                }
                if addr == marker {
                    decode_bundle(buf, p, end)
                } else {
                    Err(OscError::BadPacket("Invalid message address or bundle tag"))
                }
            }
        },
        Err(e) => Err(e),
    }
}

/// Takes a bytes slice representing a UDP packet and returns the OSC packet
/// as well as a slice of any bytes remaining after the OSC packet.
/// Succeeds exactly when the buffer parses as one packet, returning its
/// value and the unread suffix; the error kind names what went wrong.
pub fn decode_udp(msg: &[u8]) -> (r: Result<(&[u8], OscPacket), OscError>)
    ensures
        match (r, dec_packet(msg@, 0, msg@.len() as int)) {
            (Ok((rem, p)), Ok(pq)) => p@ == pq.0 && rem@ == msg@.subrange(
                pq.1,
                msg@.len() as int,
            ),
            (Err(e), Err(k)) => e.kind() == k,
            _ => false,
        },
{
    let end = msg.len();
    match decode_packet(msg, 0, end) {
        Ok((p, q)) => {
            proof {
                lemma_dec_packet_bounds(msg@, 0, end as int);
            }
            Ok((slice_subrange(msg, q, end), p))
        },
        Err(e) => Err(e),
    }
}

/// Takes a bytes slice from a stream transport and reads one length-prefixed
/// frame. A declared frame length larger than the bytes available is not an
/// error: the buffer comes back unchanged with `None`, and the caller is
/// expected to buffer more bytes and retry. Otherwise one packet is read
/// from after the prefix and the remainder after the packet is returned.
pub fn decode_tcp(msg: &[u8]) -> (r: Result<(&[u8], Option<OscPacket>), OscError>)
    ensures
        match (r, dec_tcp(msg@)) {
            (Ok((rem, Some(p))), Ok(pq)) => pq.0 matches Some(pv) && p@ == pv && rem@
                == msg@.subrange(pq.1, msg@.len() as int) && rem@.len() < msg@.len(),
            (Ok((rem, None)), Ok(pq)) => pq.0 is None && rem@ == msg@,
            (Err(e), Err(k)) => e.kind() == k,
            _ => false,
        },
{
    let end = msg.len();
    if end < 4 {
        return Err(OscError::ReadError("stream frame length runs past the end of the input"));
    }
    let declared = read_be32(msg, 0);
    if declared as u64 > end as u64 {
        return Ok((msg, None));
    }
    match decode_packet(msg, 4, end) {
        Ok((p, q)) => {
            proof {
                lemma_dec_packet_bounds(msg@, 4, end as int);
            }
            Ok((slice_subrange(msg, q, end), Some(p)))
        },
        Err(e) => Err(e),
    }
}

/// Takes a bytes slice from a stream transport and drains it frame by frame,
/// returning all packets read and the remainder after the last complete
/// frame. A packet that directly follows a bundle's frame is absorbed into
/// that bundle's content rather than returned separately, because the bundle
/// reader keeps taking complete length-prefixed elements as long as bytes
/// remain.
pub fn decode_tcp_vec(msg: &[u8]) -> (r: Result<(&[u8], Vec<OscPacket>), OscError>)
    ensures
        match (r, dec_tcp_vec(msg@, Seq::empty())) {
            (Ok((rem, ps)), Ok(pr)) => vw_packets(ps@) == pr.0 && rem@ == pr.1,
            (Err(e), Err(k)) => e.kind() == k,
            _ => false,
        },
{
    let mut input: &[u8] = msg;
    let mut packets: Vec<OscPacket> = Vec::new();
    loop
        invariant
            dec_tcp_vec(msg@, Seq::empty()) == dec_tcp_vec(input@, vw_packets(packets@)),
        decreases input@.len(),
    {
        match decode_tcp(input) {
            Err(e) => {
                return Err(e);
            },
            Ok((_rem, None)) => {
                return Ok((input, packets));
            },
            Ok((rem, Some(p))) => {
                proof {
                    lemma_vw_packets_push(packets@, p);
                }
                packets.push(p);
                input = rem;
                if input.is_empty() {
                    return Ok((input, packets));
                }
            },
        }
    }
}

} // verus!
