use crate::types::{OscBundleV, OscMessageV, OscPacketV, OscTypeV};
use crate::utils::pad4;
use crate::wire::{
    be32, be32_at, bundle_chars, bundle_header, data_bytes, datas_bytes, dec_arg, dec_args,
    dec_elems, dec_msg, dec_packet, dec_str, dec_tcp, dec_tcp_vec, dec_time, enc_elems,
    enc_packet, enc_str, enc_str_bytes, enc_stream, enc_tag_str, enc_time, first_nul,
    lemma_be32_of_be32, lemma_be64_of_be64, lemma_bundle_header, lemma_enc_elems_push,
    lemma_first_nul, lemma_pad4, tag_bytes, tags_bytes, wf_packet, wf_type,
};
use crate::errors::DecodeErrorKind;
use vstd::prelude::*;
use vstd::utf8::{
    decode_utf8, encode_scalar, encode_utf8, encode_utf8_decode_utf8, encode_utf8_valid_utf8,
    is_ascii_chars, is_ascii_chars_encode_utf8, valid_utf8,
};

verus! {

/// The UTF-8 encoding of a NUL-free character sequence contains no zero byte:
/// zero bytes on the wire come from the terminator and padding alone.
pub proof fn lemma_encode_utf8_nul_free(s: Seq<char>)
    requires
        crate::wire::nul_free(s),
    ensures
        forall|j: int| 0 <= j < encode_utf8(s).len() ==> #[trigger] encode_utf8(s)[j] != 0,
    decreases s.len(),
{
    if s.len() > 0 {
        let v = s[0] as u32;
        vstd::utf8::char_is_scalar(s[0]);
        assert(v != 0) by {
            vstd::utf8::char_u32_cast(s[0], v);
            assert('\0' as u32 == 0);
            if v == 0 {
                assert(s[0] == '\0');
            }
        }
        assert(forall|j: int|
            0 <= j < encode_scalar(v).len() ==> #[trigger] encode_scalar(v)[j] != 0) by {
            assert(v != 0 && v <= 0x7f ==> (v & 0x7f) as u8 != 0) by (bit_vector);
            assert((0xc0u8 | ((v >> 6) & 0x1f) as u8) != 0) by (bit_vector);
            assert((0xe0u8 | ((v >> 12) & 0x0f) as u8) != 0) by (bit_vector);
            assert((0xf0u8 | ((v >> 18) & 0x7) as u8) != 0) by (bit_vector);
            assert((0x80u8 | (v & 0x3f) as u8) != 0) by (bit_vector);
            assert((0x80u8 | ((v >> 6) & 0x3f) as u8) != 0) by (bit_vector);
            assert((0x80u8 | ((v >> 12) & 0x3f) as u8) != 0) by (bit_vector);
        }
        assert(crate::wire::nul_free(s.drop_first()));
        lemma_encode_utf8_nul_free(s.drop_first());
        assert forall|j: int| 0 <= j < encode_utf8(s).len() implies #[trigger] encode_utf8(s)[j]
            != 0 by {
            let k = encode_scalar(v).len() as int;
            if j < k {
                assert(encode_utf8(s)[j] == encode_scalar(v)[j]);
            } else {
                assert(encode_utf8(s)[j] == encode_utf8(s.drop_first())[j - k]);
            }
        }
    }
}

/// The tag characters of one argument: the character form of its tag bytes.
pub open spec fn tag_chars(t: OscTypeV) -> Seq<char>
    decreases t,
{
    match t {
        OscTypeV::Int(_) => seq!['i'],
        OscTypeV::Long(_) => seq!['h'],
        OscTypeV::Float(_) => seq!['f'],
        OscTypeV::Double(_) => seq!['d'],
        OscTypeV::Char(_) => seq!['c'],
        OscTypeV::String(_) => seq!['s'],
        OscTypeV::Blob(_) => seq!['b'],
        OscTypeV::Time(_) => seq!['t'],
        OscTypeV::Midi(_) => seq!['m'],
        OscTypeV::Color(_) => seq!['r'],
        OscTypeV::Bool(x) => if x {
            seq!['T']
        } else {
            seq!['F']
        },
        OscTypeV::Nil => seq!['N'],
        OscTypeV::Inf => seq!['I'],
        OscTypeV::Array(xs) => seq!['['] + tags_chars(xs) + seq![']'],
    }
}

/// The tag characters of a sequence of arguments, in order.
pub open spec fn tags_chars(s: Seq<OscTypeV>) -> Seq<char>
    decreases s,
{
    if s.len() == 0 {
        Seq::empty()
    } else {
        tags_chars(s.drop_last()) + tag_chars(s.last())
    }
}

/// The tag characters are the ASCII reading of the tag bytes, byte for byte,
/// all printable and in particular never NUL.
pub proof fn lemma_tag_chars_bytes(t: OscTypeV)
    ensures
        tag_chars(t).len() == tag_bytes(t).len(),
        forall|j: int|
            0 <= j < tag_chars(t).len() ==> (#[trigger] tag_chars(t)[j]) as u8 == tag_bytes(t)[j]
                && tag_chars(t)[j] as u32 == tag_bytes(t)[j] && 0 < tag_bytes(t)[j] < 0x80 && '\0'
                <= tag_chars(t)[j] <= '\u{7f}',
    decreases t,
{
    match t {
        OscTypeV::Array(xs) => {
            lemma_tags_chars_bytes(xs);
            assert forall|j: int| 0 <= j < tag_chars(t).len() implies (
            #[trigger] tag_chars(t)[j]) as u8 == tag_bytes(t)[j] && tag_chars(t)[j] as u32
                == tag_bytes(t)[j] && 0 < tag_bytes(t)[j] < 0x80 by {
                let inner = tags_chars(xs).len() as int;
                if j == 0 {
                    assert(tag_chars(t)[0] == '[' && tag_bytes(t)[0] == 0x5b);
                } else if j <= inner {
                    assert(tag_chars(t)[j] == tags_chars(xs)[j - 1]);
                    assert(tag_bytes(t)[j] == tags_bytes(xs)[j - 1]);
                } else {
                    assert(tag_chars(t)[j] == ']' && tag_bytes(t)[j] == 0x5d);
                }
            }
        },
        _ => {},
    }
}

/// The tag characters of an argument list are the ASCII reading of its tag
/// bytes.
pub proof fn lemma_tags_chars_bytes(s: Seq<OscTypeV>)
    ensures
        tags_chars(s).len() == tags_bytes(s).len(),
        forall|j: int|
            0 <= j < tags_chars(s).len() ==> (#[trigger] tags_chars(s)[j]) as u8 == tags_bytes(
                s,
            )[j] && tags_chars(s)[j] as u32 == tags_bytes(s)[j] && 0 < tags_bytes(s)[j] < 0x80
                && '\0' <= tags_chars(s)[j] <= '\u{7f}',
    decreases s,
{
    if s.len() > 0 {
        lemma_tags_chars_bytes(s.drop_last());
        lemma_tag_chars_bytes(s.last());
        assert forall|j: int| 0 <= j < tags_chars(s).len() implies (
        #[trigger] tags_chars(s)[j]) as u8 == tags_bytes(s)[j] && tags_chars(s)[j] as u32
            == tags_bytes(s)[j] && 0 < tags_bytes(s)[j] < 0x80 && '\0' <= tags_chars(s)[j]
            <= '\u{7f}' by {
            let k = tags_chars(s.drop_last()).len() as int;
            if j < k {
                assert(tags_chars(s)[j] == tags_chars(s.drop_last())[j]);
                assert(tags_bytes(s)[j] == tags_bytes(s.drop_last())[j]);
            } else {
                assert(tags_chars(s)[j] == tag_chars(s.last())[j - k]);
                assert(tags_bytes(s)[j] == tag_bytes(s.last())[j - k]);
            }
        }
    }
}

/// The padded type tag string of a message decodes back to its characters:
/// a comma followed by the tag characters of the arguments.
pub proof fn lemma_tag_str_chars(s: Seq<OscTypeV>)
    ensures
        is_ascii_chars(seq![','] + tags_chars(s)),
        encode_utf8(seq![','] + tags_chars(s)) == seq![0x2cu8] + tags_bytes(s),
        decode_utf8(seq![0x2cu8] + tags_bytes(s)) == seq![','] + tags_chars(s),
        valid_utf8(seq![0x2cu8] + tags_bytes(s)),
{
    let cs = seq![','] + tags_chars(s);
    let bs = seq![0x2cu8] + tags_bytes(s);
    lemma_tags_chars_bytes(s);
    assert(is_ascii_chars(cs)) by {
        assert forall|i: int| 0 <= i < cs.len() implies '\0' <= #[trigger] cs[i] <= '\u{7f}' by {
            if i == 0 {
                assert(cs[0] == ',');
            } else {
                assert(cs[i] == tags_chars(s)[i - 1]);
                assert(cs[i] as u32 == tags_bytes(s)[i - 1]);
            }
        }
    }
    is_ascii_chars_encode_utf8(cs);
    assert(encode_utf8(cs) =~= bs) by {
        assert forall|i: int| 0 <= i < bs.len() implies encode_utf8(cs)[i] == bs[i] by {
            assert(encode_utf8(cs)[i] == cs[i] as u8);
            if i == 0 {
                assert((',' as u8) == 0x2c);
            }
        }
    }
    encode_utf8_decode_utf8(cs);
    encode_utf8_valid_utf8(cs);
}

/// Splitting a tag list encoding: the bytes of a concatenation are the
/// concatenated bytes.
pub proof fn lemma_tags_bytes_concat(a: Seq<OscTypeV>, b: Seq<OscTypeV>)
    ensures
        tags_bytes(a + b) == tags_bytes(a) + tags_bytes(b),
    decreases b.len(),
{
    if b.len() == 0 {
        assert(a + b =~= a);
        assert(tags_bytes(a) + tags_bytes(b) =~= tags_bytes(a));
    } else {
        lemma_tags_bytes_concat(a, b.drop_last());
        assert((a + b).drop_last() =~= a + b.drop_last());
        assert((a + b).last() == b.last());
        assert(tags_bytes(a + b) =~= tags_bytes(a) + tags_bytes(b));
    }
}

/// The payload bytes of a concatenation are the concatenated payload bytes.
pub proof fn lemma_datas_bytes_concat(a: Seq<OscTypeV>, b: Seq<OscTypeV>)
    ensures
        datas_bytes(a + b) == datas_bytes(a) + datas_bytes(b),
    decreases b.len(),
{
    if b.len() == 0 {
        assert(a + b =~= a);
        assert(datas_bytes(a) + datas_bytes(b) =~= datas_bytes(a));
    } else {
        lemma_datas_bytes_concat(a, b.drop_last());
        assert((a + b).drop_last() =~= a + b.drop_last());
        assert((a + b).last() == b.last());
        assert(datas_bytes(a + b) =~= datas_bytes(a) + datas_bytes(b));
    }
}

/// The tag characters of a concatenation are the concatenated tag characters.
pub proof fn lemma_tags_chars_concat(a: Seq<OscTypeV>, b: Seq<OscTypeV>)
    ensures
        tags_chars(a + b) == tags_chars(a) + tags_chars(b),
    decreases b.len(),
{
    if b.len() == 0 {
        assert(a + b =~= a);
        assert(tags_chars(a) + tags_chars(b) =~= tags_chars(a));
    } else {
        lemma_tags_chars_concat(a, b.drop_last());
        assert((a + b).drop_last() =~= a + b.drop_last());
        assert((a + b).last() == b.last());
        assert(tags_chars(a + b) =~= tags_chars(a) + tags_chars(b));
    }
}

/// The length-prefixed elements of a concatenation are the concatenated
/// element encodings.
pub proof fn lemma_enc_elems_concat(a: Seq<OscPacketV>, b: Seq<OscPacketV>)
    ensures
        enc_elems(a + b) == enc_elems(a) + enc_elems(b),
    decreases b.len(),
{
    if b.len() == 0 {
        assert(a + b =~= a);
        assert(enc_elems(a) + enc_elems(b) =~= enc_elems(a));
    } else {
        lemma_enc_elems_concat(a, b.drop_last());
        assert((a + b).drop_last() =~= a + b.drop_last());
        assert((a + b).last() == b.last());
        assert(enc_elems(a + b) =~= enc_elems(a) + enc_elems(b));
    }
}

/// Every argument payload occupies a multiple of four bytes.
pub proof fn lemma_data_aligned(t: OscTypeV)
    ensures
        data_bytes(t).len() % 4 == 0,
    decreases t,
{
    match t {
        OscTypeV::String(s) => {
            lemma_pad4(encode_utf8(s).len() as int + 1);
        },
        OscTypeV::Blob(b) => {
            lemma_pad4(b.len() as int);
        },
        OscTypeV::Array(xs) => {
            lemma_datas_aligned(xs);
        },
        _ => {},
    }
}

/// The concatenated argument payloads occupy a multiple of four bytes.
pub proof fn lemma_datas_aligned(s: Seq<OscTypeV>)
    ensures
        datas_bytes(s).len() % 4 == 0,
    decreases s,
{
    if s.len() > 0 {
        lemma_datas_aligned(s.drop_last());
        lemma_data_aligned(s.last());
    }
}

/// Every encoded packet occupies a multiple of four bytes: the padding
/// invariant of the wire format.
pub proof fn lemma_enc_packet_aligned(p: OscPacketV)
    ensures
        enc_packet(p).len() % 4 == 0,
    decreases p,
{
    match p {
        OscPacketV::Message(m) => {
            lemma_pad4(encode_utf8(m.addr).len() as int + 1);
            lemma_pad4((seq![0x2cu8] + tags_bytes(m.args)).len() as int + 1);
            lemma_datas_aligned(m.args);
        },
        OscPacketV::Bundle(b) => {
            lemma_enc_elems_aligned(b.content);
        },
    }
}

/// The encoded elements of a bundle occupy a multiple of four bytes.
pub proof fn lemma_enc_elems_aligned(s: Seq<OscPacketV>)
    ensures
        enc_elems(s).len() % 4 == 0,
    decreases s,
{
    if s.len() > 0 {
        lemma_enc_elems_aligned(s.drop_last());
        lemma_enc_packet_aligned(s.last());
    }
}

/// Every encoded stream occupies a multiple of four bytes.
pub proof fn lemma_enc_stream_aligned(s: Seq<OscPacketV>)
    ensures
        enc_stream(s).len() % 4 == 0,
    decreases s,
{
    if s.len() > 0 {
        lemma_enc_stream_aligned(s.drop_last());
        lemma_enc_packet_aligned(s.last());
    }
}


/// A padded string region whose payload bytes are NUL-free and valid UTF-8
/// reads back as exactly those bytes' characters, ending past the padding.
pub proof fn lemma_roundtrip_str_bytes(b: Seq<u8>, pos: int, end: int, bs: Seq<u8>)
    requires
        forall|j: int| 0 <= j < bs.len() ==> #[trigger] bs[j] != 0,
        valid_utf8(bs),
        0 <= pos,
        pos % 4 == 0,
        pos + enc_str_bytes(bs).len() <= end <= b.len(),
        b.subrange(pos, pos + enc_str_bytes(bs).len() as int) == enc_str_bytes(bs),
    ensures
        dec_str(b, pos, end) == Ok::<(Seq<char>, int), DecodeErrorKind>(
            (decode_utf8(bs), pos + enc_str_bytes(bs).len()),
        ),
        first_nul(b, pos, end) == pos + bs.len(),
{
    let ulen = bs.len() as int;
    let total = enc_str_bytes(bs).len() as int;
    lemma_pad4(ulen + 1);
    assert(total == pad4(ulen + 1));
    let region = enc_str_bytes(bs);
    assert(forall|k: int| 0 <= k < total ==> b[pos + k] == #[trigger] region[k]);
    assert(forall|k: int| 0 <= k < ulen ==> #[trigger] region[k] == bs[k]);
    assert(forall|k: int| ulen <= k < total ==> #[trigger] region[k] == 0);
    lemma_first_nul(b, pos, end);
    let nul = first_nul(b, pos, end);
    assert(region[ulen] == 0);
    assert(b[pos + ulen] == region[ulen]);
    assert(nul == pos + ulen) by {
        if nul < pos + ulen {
            assert(region[nul - pos] != 0);
            assert(b[nul] == region[nul - pos]);
        }
        if nul > pos + ulen {
            assert(b[pos + ulen] != 0);
        }
    }
    let skip = 4 - (nul % 4);
    assert(skip == total - ulen) by {
        assert((pos + ulen) % 4 == ulen % 4);
    }
    assert(b.subrange(pos, nul) =~= bs);
    encode_utf8_valid_utf8(decode_utf8(bs));
}

/// A padded string region encoding a NUL-free character sequence reads back
/// as that sequence, ending past the padding.
pub proof fn lemma_roundtrip_str(b: Seq<u8>, pos: int, end: int, s: Seq<char>)
    requires
        crate::wire::nul_free(s),
        0 <= pos,
        pos % 4 == 0,
        pos + enc_str(s).len() <= end <= b.len(),
        b.subrange(pos, pos + enc_str(s).len() as int) == enc_str(s),
    ensures
        dec_str(b, pos, end) == Ok::<(Seq<char>, int), DecodeErrorKind>(
            (s, pos + enc_str(s).len()),
        ),
{
    lemma_encode_utf8_nul_free(s);
    encode_utf8_valid_utf8(s);
    lemma_roundtrip_str_bytes(b, pos, end, encode_utf8(s));
    encode_utf8_decode_utf8(s);
}

/// One flat (non-array) argument's payload reads back as the argument under
/// its own tag character, ending exactly after its payload.
pub proof fn lemma_roundtrip_arg(b: Seq<u8>, pos: int, end: int, t: OscTypeV)
    requires
        wf_type(t),
        !(t is Array),
        0 <= pos,
        pos % 4 == 0,
        pos + data_bytes(t).len() <= end <= b.len(),
        b.subrange(pos, pos + data_bytes(t).len() as int) == data_bytes(t),
    ensures
        dec_arg(b, pos, end, tag_chars(t)[0]) == Ok::<(OscTypeV, int), DecodeErrorKind>(
            (t, pos + data_bytes(t).len()),
        ),
{
    let d = data_bytes(t);
    assert(forall|k: int| 0 <= k < d.len() ==> b[pos + k] == #[trigger] d[k]);
    match t {
        OscTypeV::Int(x) => {
            lemma_be32_of_be32(x as u32);
            assert((x as u32) as i32 == x) by (bit_vector);
        },
        OscTypeV::Long(x) => {
            lemma_be64_of_be64(x as u64);
            assert((x as u64) as i64 == x) by (bit_vector);
        },
        OscTypeV::Float(x) => {
            lemma_be32_of_be32(x);
        },
        OscTypeV::Double(x) => {
            lemma_be64_of_be64(x);
        },
        OscTypeV::Char(c) => {
            lemma_be32_of_be32(c as u32);
            vstd::utf8::char_is_scalar(c);
            vstd::utf8::char_u32_cast(c, c as u32);
        },
        OscTypeV::String(sv) => {
            assert(b.subrange(pos, pos + enc_str(sv).len() as int) =~= enc_str(sv));
            lemma_roundtrip_str(b, pos, end, sv);
        },
        OscTypeV::Blob(bb) => {
            lemma_be32_of_be32(bb.len() as u32);
            lemma_pad4(bb.len() as int);
            let size = bb.len() as int;
            let data_end = pos + 4 + size;
            assert(be32_at(b, pos) == bb.len() as u32) by {
                assert(b[pos] == d[0] && b[pos + 1] == d[1] && b[pos + 2] == d[2] && b[pos + 3]
                    == d[3]);
            }
            assert(be32_at(b, pos) as int == size);
            assert(data_end % 4 == (4 + size) % 4);
            assert((4 - (data_end % 4)) % 4 == pad4(size) - size);
            assert forall|k: int| 0 <= k < size implies b.subrange(pos + 4, data_end)[k]
                == bb[k] by {
                assert(d[4 + k] == bb[k]);
                assert(b[pos + (4 + k)] == d[4 + k]);
            }
            assert(b.subrange(pos + 4, data_end) =~= bb);
        },
        OscTypeV::Time(tt) => {
            lemma_be32_of_be32(tt.seconds);
            lemma_be32_of_be32(tt.fractional);
            assert(be32_at(b, pos) == tt.seconds) by {
                assert(b[pos] == d[0] && b[pos + 1] == d[1] && b[pos + 2] == d[2] && b[pos + 3]
                    == d[3]);
            }
            assert(be32_at(b, pos + 4) == tt.fractional) by {
                assert(b[pos + 4] == d[4] && b[pos + 5] == d[5] && b[pos + 6] == d[6] && b[pos + 7]
                    == d[7]);
            }
        },
        OscTypeV::Midi(m) => {
            assert(b[pos] == m.port && b[pos + 1] == m.status && b[pos + 2] == m.data1 && b[pos
                + 3] == m.data2);
        },
        OscTypeV::Color(c) => {
            assert(b[pos] == c.red && b[pos + 1] == c.green && b[pos + 2] == c.blue && b[pos + 3]
                == c.alpha);
        },
        _ => {},
    }
}

/// Reading the arguments of `xs` from their concatenated payloads, with any
/// surrounding tag context, stack and already-read arguments, consumes
/// exactly their tags and payloads and appends exactly `xs`.
pub proof fn lemma_dec_args_chunk(
    b: Seq<u8>,
    pos: int,
    end: int,
    tags: Seq<char>,
    i: int,
    stack: Seq<Seq<OscTypeV>>,
    cur: Seq<OscTypeV>,
    xs: Seq<OscTypeV>,
)
    requires
        forall|k: int| 0 <= k < xs.len() ==> wf_type(#[trigger] xs[k]),
        0 <= pos,
        pos % 4 == 0,
        pos + datas_bytes(xs).len() <= end <= b.len(),
        b.subrange(pos, pos + datas_bytes(xs).len() as int) == datas_bytes(xs),
        0 <= i,
        i + tags_chars(xs).len() <= tags.len(),
        tags.subrange(i, i + tags_chars(xs).len() as int) == tags_chars(xs),
    ensures
        dec_args(b, pos, end, tags, i, stack, cur) == dec_args(
            b,
            pos + datas_bytes(xs).len() as int,
            end,
            tags,
            i + tags_chars(xs).len() as int,
            stack,
            cur + xs,
        ),
    decreases xs,
{
    if xs.len() == 0 {
        assert(cur + xs =~= cur);
        assert(datas_bytes(xs).len() == 0 && tags_chars(xs).len() == 0);
    } else {
        let x = xs[0];
        let rest = xs.drop_first();
        assert(xs =~= seq![x] + rest);
        lemma_datas_bytes_concat(seq![x], rest);
        lemma_tags_chars_concat(seq![x], rest);
        assert(datas_bytes(seq![x]) =~= data_bytes(x)) by {
            assert(seq![x].drop_last() =~= Seq::<OscTypeV>::empty());
            assert(seq![x].last() == x);
            assert(datas_bytes(Seq::<OscTypeV>::empty()) =~= Seq::<u8>::empty());
        }
        assert(tags_chars(seq![x]) =~= tag_chars(x)) by {
            assert(seq![x].drop_last() =~= Seq::<OscTypeV>::empty());
            assert(seq![x].last() == x);
            assert(tags_chars(Seq::<OscTypeV>::empty()) =~= Seq::<char>::empty());
        }
        let dx = data_bytes(x).len() as int;
        let drest = datas_bytes(rest).len() as int;
        let tx = tag_chars(x).len() as int;
        let trest = tags_chars(rest).len() as int;
        assert(datas_bytes(xs) =~= data_bytes(x) + datas_bytes(rest));
        assert(tags_chars(xs) =~= tag_chars(x) + tags_chars(rest));
        lemma_data_aligned(x);
        lemma_tag_chars_bytes(x);
        assert(b.subrange(pos, pos + dx) =~= data_bytes(x)) by {
            assert(forall|k: int|
                0 <= k < dx + drest ==> b[pos + k] == #[trigger] datas_bytes(xs)[k]);
        }
        assert(forall|k: int| 0 <= k < dx + drest ==> b[pos + k] == #[trigger] datas_bytes(xs)[k]);
        assert forall|k: int| 0 <= k < drest implies b.subrange(pos + dx, pos + dx + drest)[k]
            == datas_bytes(rest)[k] by {
            assert(datas_bytes(xs)[dx + k] == datas_bytes(rest)[k]);
            assert(b[pos + (dx + k)] == datas_bytes(xs)[dx + k]);
        }
        assert(b.subrange(pos + dx, pos + dx + drest) =~= datas_bytes(rest));
        assert(forall|k: int| 0 <= k < tx + trest ==> tags[i + k] == #[trigger] tags_chars(xs)[k]);
        assert(forall|k: int| 0 <= k < tx ==> tags_chars(xs)[k] == #[trigger] tag_chars(x)[k]);
        assert(forall|k: int|
            0 <= k < trest ==> tags_chars(xs)[tx + k] == #[trigger] tags_chars(rest)[k]);
        assert(tags.subrange(i + tx, i + tx + trest) =~= tags_chars(rest)) by {
            assert(forall|k: int|
                0 <= k < trest ==> #[trigger] tags.subrange(i + tx, i + tx + trest)[k] == tags[i
                    + tx + k]);
        }
        if x is Array {
            let ys = x->Array_0;
            assert(decreases_to!(xs => x));
            assert(decreases_to!(x => ys));
            assert(tag_chars(x)[0] == '[');
            assert(tags[i] == '[');
            assert(tags.subrange(i + 1, i + 1 + (tx - 2)) =~= tags_chars(ys)) by {
                assert(forall|k: int|
                    0 <= k < tags_chars(ys).len() ==> tag_chars(x)[1 + k] == #[trigger] tags_chars(
                        ys,
                    )[k]);
            }
            assert(b.subrange(pos, pos + dx) =~= datas_bytes(ys));
            lemma_dec_args_chunk(b, pos, end, tags, i + 1, stack.push(cur), Seq::empty(), ys);
            assert(Seq::<OscTypeV>::empty() + ys =~= ys);
            assert(tags[i + 1 + (tx - 2)] == ']') by {
                assert(tag_chars(x)[tx - 1] == ']');
            }
            assert(stack.push(cur).drop_last() =~= stack);
            assert(stack.push(cur).last() == cur);
            lemma_dec_args_chunk(
                b,
                pos + dx,
                end,
                tags,
                i + tx,
                stack,
                cur.push(OscTypeV::Array(ys)),
                rest,
            );
            assert(cur.push(OscTypeV::Array(ys)) + rest =~= cur + xs);
        } else {
            assert(tx == 1);
            assert(tags[i] == tag_chars(x)[0]);
            assert(tag_chars(x)[0] != '[' && tag_chars(x)[0] != ']') by {
                match x {
                    OscTypeV::Bool(v) => {},
                    _ => {},
                }
            }
            lemma_roundtrip_arg(b, pos, end, x);
            assert(decreases_to!(xs => rest));
            lemma_dec_args_chunk(b, pos + dx, end, tags, i + 1, stack, cur.push(x), rest);
            assert(cur.push(x) + rest =~= cur + xs);
        }
    }
}


/// Every argument has at least one tag character.
pub proof fn lemma_tag_chars_len(t: OscTypeV)
    ensures
        tag_chars(t).len() >= 1,
{
    match t {
        OscTypeV::Array(_) => {},
        _ => {},
    }
}

/// A message body region reads back as the message, ending exactly after the
/// payloads.
pub proof fn lemma_roundtrip_msg(b: Seq<u8>, pos: int, end: int, m: OscMessageV)
    requires
        forall|k: int| 0 <= k < m.args.len() ==> wf_type(#[trigger] m.args[k]),
        0 <= pos,
        pos % 4 == 0,
        pos + enc_tag_str(m.args).len() + datas_bytes(m.args).len() <= end <= b.len(),
        b.subrange(pos, pos + enc_tag_str(m.args).len() + datas_bytes(m.args).len() as int)
            == enc_tag_str(m.args) + datas_bytes(m.args),
    ensures
        dec_msg(b, pos, end, m.addr) == Ok::<(OscPacketV, int), DecodeErrorKind>(
            (
                OscPacketV::Message(m),
                pos + enc_tag_str(m.args).len() + datas_bytes(m.args).len(),
            ),
        ),
{
    let ab = m.args;
    let ts_bytes = seq![0x2cu8] + tags_bytes(ab);
    let tlen = enc_tag_str(ab).len() as int;
    let dlen = datas_bytes(ab).len() as int;
    lemma_tag_str_chars(ab);
    lemma_tags_chars_bytes(ab);
    assert(forall|k: int| 0 <= k < tlen + dlen ==> b[pos + k] == #[trigger] (enc_tag_str(ab)
        + datas_bytes(ab))[k]);
    assert forall|j: int| 0 <= j < ts_bytes.len() implies #[trigger] ts_bytes[j] != 0 by {
        if j == 0 {
            assert(ts_bytes[0] == 0x2c);
        } else {
            assert(ts_bytes[j] == tags_bytes(ab)[j - 1]);
            assert(tags_chars(ab)[j - 1] as u32 == tags_bytes(ab)[j - 1]);
        }
    }
    assert(b.subrange(pos, pos + tlen) =~= enc_str_bytes(ts_bytes)) by {
        assert(forall|k: int|
            0 <= k < tlen ==> b[pos + k] == #[trigger] (enc_tag_str(ab) + datas_bytes(ab))[k]);
        assert(forall|k: int|
            0 <= k < tlen ==> (enc_tag_str(ab) + datas_bytes(ab))[k] == #[trigger] enc_tag_str(
                ab,
            )[k]);
    }
    lemma_roundtrip_str_bytes(b, pos, end, ts_bytes);
    let nul = first_nul(b, pos, end);
    assert(nul - pos == ts_bytes.len());
    lemma_pad4(ts_bytes.len() as int + 1);
    assert((pos + tlen) % 4 == 0) by {
        assert(tlen == pad4(ts_bytes.len() as int + 1));
    }
    let chars = decode_utf8(ts_bytes);
    assert(chars == seq![','] + tags_chars(ab));
    if ab.len() == 0 {
        assert(tags_bytes(ab).len() == 0);
        assert(nul - pos == 1);
        assert(OscMessageV { addr: m.addr, args: Seq::empty() } =~~= m);
        assert(dlen == 0);
    } else {
        assert(tags_bytes(ab).len() >= 1) by {
            lemma_tag_chars_len(ab.last());
            lemma_tags_chars_bytes(ab);
            assert(tags_chars(ab).len() >= tag_chars(ab.last()).len());
        }
        assert(nul - pos > 1);
        let tc = tags_chars(ab);
        assert(chars.skip(1) =~= tc);
        assert(b.subrange(pos + tlen, pos + tlen + dlen) =~= datas_bytes(ab)) by {
            assert(forall|k: int|
                0 <= k < dlen ==> (enc_tag_str(ab) + datas_bytes(ab))[tlen + k]
                    == #[trigger] datas_bytes(ab)[k]);
            assert(forall|k: int|
                0 <= k < dlen ==> #[trigger] b.subrange(pos + tlen, pos + tlen + dlen)[k] == b[pos
                    + tlen + k]);
        }
        assert(tc.subrange(0, tc.len() as int) =~= tc);
        lemma_dec_args_chunk(b, pos + tlen, end, tc, 0, Seq::empty(), Seq::empty(), ab);
        assert(Seq::<OscTypeV>::empty() + ab =~= ab);
        assert(OscMessageV { addr: m.addr, args: ab } =~~= m);
    }
}


/// Splitting a region known to hold a concatenation: each half holds its part.
pub proof fn lemma_region_split(b: Seq<u8>, pos: int, u: Seq<u8>, v: Seq<u8>)
    requires
        0 <= pos,
        pos + u.len() + v.len() <= b.len(),
        b.subrange(pos, pos + u.len() + v.len() as int) == u + v,
    ensures
        b.subrange(pos, pos + u.len() as int) == u,
        b.subrange(pos + u.len() as int, pos + u.len() + v.len() as int) == v,
{
    let w = u + v;
    assert(forall|k: int|
        0 <= k < w.len() ==> b[pos + k] == #[trigger] b.subrange(pos, pos + w.len() as int)[k]);
    assert forall|k: int| 0 <= k < u.len() implies #[trigger] b.subrange(
        pos,
        pos + u.len() as int,
    )[k] == u[k] by {
        assert(w[k] == u[k]);
        assert(b[pos + k] == w[k]);
    }
    assert(b.subrange(pos, pos + u.len() as int) =~= u);
    assert forall|k: int| 0 <= k < v.len() implies #[trigger] b.subrange(
        pos + u.len() as int,
        pos + u.len() + v.len() as int,
    )[k] == v[k] by {
        assert(w[u.len() + k] == v[k]);
        assert(b[pos + (u.len() + k)] == w[u.len() + k]);
    }
    assert(b.subrange(pos + u.len() as int, pos + u.len() + v.len() as int) =~= v);
}

/// A region beginning with a big-endian 32-bit word: the word reads back.
pub proof fn lemma_region_be32(b: Seq<u8>, pos: int, x: u32)
    requires
        0 <= pos,
        pos + 4 <= b.len(),
        b.subrange(pos, pos + 4) == be32(x),
    ensures
        be32_at(b, pos) == x,
{
    assert(b[pos] == be32(x)[0] && b[pos + 1] == be32(x)[1] && b[pos + 2] == be32(x)[2] && b[pos
        + 3] == be32(x)[3]) by {
        assert(forall|k: int|
            0 <= k < 4 ==> #[trigger] b.subrange(pos, pos + 4)[k] == b[pos + k]);
    }
    lemma_be32_of_be32(x);
}


/// One length-prefixed element at the head of a region: the length word
/// reads back, the packet reads back, and the rest of the region follows.
#[verifier::rlimit(60)]
proof fn lemma_elems_step(b: Seq<u8>, pos: int, end: int, x: OscPacketV, rest_bytes: Seq<u8>)
    requires
        wf_packet(x),
        enc_packet(x).len() <= u32::MAX,
        0 <= pos,
        pos % 4 == 0,
        end <= b.len(),
        end == pos + 4 + enc_packet(x).len() + rest_bytes.len(),
        b.subrange(pos, end) == (be32(enc_packet(x).len() as u32) + enc_packet(x)) + rest_bytes,
    ensures
        be32_at(b, pos) as int == enc_packet(x).len(),
        dec_packet(b, pos + 4, pos + 4 + enc_packet(x).len() as int) == Ok::<
            (OscPacketV, int),
            DecodeErrorKind,
        >((x, pos + 4 + enc_packet(x).len() as int)),
        b.subrange(pos + 4 + enc_packet(x).len() as int, end) == rest_bytes,
        (pos + 4 + enc_packet(x).len()) % 4 == 0,
    decreases x, 1int,
{
    let ex = enc_packet(x);
    let exlen = ex.len() as int;
    lemma_region_split(b, pos, be32(exlen as u32) + ex, rest_bytes);
    lemma_region_split(b, pos, be32(exlen as u32), ex);
    lemma_region_be32(b, pos, exlen as u32);
    lemma_roundtrip_packet(b, pos + 4, pos + 4 + exlen, x);
    lemma_enc_packet_aligned(x);
}

/// A region holding the length-prefixed encodings of `content`, read as
/// bundle elements bounded exactly by the region's end, appends exactly
/// `content`.
pub proof fn lemma_roundtrip_elems(
    b: Seq<u8>,
    pos: int,
    end: int,
    content: Seq<OscPacketV>,
    acc: Seq<OscPacketV>,
)
    requires
        forall|k: int|
            0 <= k < content.len() ==> wf_packet(#[trigger] content[k]) && enc_packet(
                content[k],
            ).len() <= u32::MAX,
        0 <= pos,
        pos % 4 == 0,
        end == pos + enc_elems(content).len(),
        end <= b.len(),
        b.subrange(pos, end) == enc_elems(content),
    ensures
        dec_elems(b, pos, end, acc) == (acc + content, end),
    decreases content, 0int,
{
    if content.len() == 0 {
        assert(acc + content =~= acc);
    } else {
        let x = content[0];
        let rest = content.drop_first();
        assert(content =~= seq![x] + rest);
        lemma_enc_elems_concat(seq![x], rest);
        let ex = enc_packet(x);
        let exlen = ex.len() as int;
        assert(enc_elems(seq![x]) =~= be32(exlen as u32) + ex) by {
            assert(seq![x].drop_last() =~= Seq::<OscPacketV>::empty());
            assert(seq![x].last() == x);
            assert(enc_elems(Seq::<OscPacketV>::empty()) =~= Seq::<u8>::empty());
        }
        assert(decreases_to!(content => content[0]));
        lemma_elems_step(b, pos, end, x, enc_elems(rest));
        lemma_roundtrip_elems(b, pos + 4 + exlen, end, rest, acc.push(x));
        assert(acc.push(x) + rest =~= acc + content);
    }
}

/// A region holding exactly one encoded well-formed packet reads back as
/// that packet, ending exactly after it. A message may be followed by
/// further bytes up to `end`; a bundle's bound must be exact, since bundle
/// elements are read as long as bytes remain.
#[verifier::rlimit(100)]
pub proof fn lemma_roundtrip_packet(b: Seq<u8>, pos: int, end: int, p: OscPacketV)
    requires
        wf_packet(p),
        0 <= pos,
        pos % 4 == 0,
        pos + enc_packet(p).len() <= end <= b.len(),
        b.subrange(pos, pos + enc_packet(p).len() as int) == enc_packet(p),
        p is Bundle ==> end == pos + enc_packet(p).len(),
    ensures
        dec_packet(b, pos, end) == Ok::<(OscPacketV, int), DecodeErrorKind>(
            (p, pos + enc_packet(p).len()),
        ),
    decreases p, 0int,
{
    let e = enc_packet(p);
    assert(forall|k: int| 0 <= k < e.len() ==> b[pos + k] == #[trigger] e[k]);
    match p {
        OscPacketV::Message(m) => {
            let alen = enc_str(m.addr).len() as int;
            let tlen = enc_tag_str(m.args).len() as int;
            let dlen = datas_bytes(m.args).len() as int;
            assert(e =~= enc_str(m.addr) + (enc_tag_str(m.args) + datas_bytes(m.args)));
            lemma_pad4(encode_utf8(m.addr).len() as int + 1);
            assert(b.subrange(pos, pos + alen) =~= enc_str(m.addr)) by {
                assert(forall|k: int| 0 <= k < alen ==> e[k] == #[trigger] enc_str(m.addr)[k]);
                assert(forall|k: int|
                    0 <= k < alen ==> #[trigger] b.subrange(pos, pos + alen)[k] == b[pos + k]);
            }
            lemma_roundtrip_str(b, pos, end, m.addr);
            assert(pos < end);
            assert(b.subrange(pos + alen, pos + alen + tlen + dlen) =~= enc_tag_str(m.args)
                + datas_bytes(m.args)) by {
                assert(forall|k: int|
                    0 <= k < tlen + dlen ==> e[alen + k] == #[trigger] (enc_tag_str(m.args)
                        + datas_bytes(m.args))[k]);
                assert(forall|k: int|
                    0 <= k < tlen + dlen ==> #[trigger] b.subrange(
                        pos + alen,
                        pos + alen + tlen + dlen,
                    )[k] == b[pos + alen + k]);
            }
            lemma_roundtrip_msg(b, pos + alen, end, m);
        },
        OscPacketV::Bundle(bb) => {
            lemma_bundle_header();
            assert(e =~= enc_str(bundle_chars()) + enc_time(bb.timetag) + enc_elems(bb.content));
            assert(crate::wire::nul_free(bundle_chars())) by {
                assert(forall|i: int|
                    0 <= i < bundle_chars().len() ==> #[trigger] bundle_chars()[i] != '\0');
            }
            assert(b.subrange(pos, pos + 8) =~= enc_str(bundle_chars())) by {
                assert(forall|k: int|
                    0 <= k < 8 ==> #[trigger] b.subrange(pos, pos + 8)[k] == b[pos + k]);
            }
            lemma_roundtrip_str(b, pos, end, bundle_chars());
            assert(pos < end);
            assert(bundle_chars()[0] == '#');
            assert(!(bundle_chars()[0] == '/'));
            let t = bb.timetag;
            assert(b[pos + 8] == e[8] && b[pos + 9] == e[9] && b[pos + 10] == e[10] && b[pos + 11]
                == e[11]);
            assert(b[pos + 12] == e[12] && b[pos + 13] == e[13] && b[pos + 14] == e[14] && b[pos
                + 15] == e[15]);
            lemma_be32_of_be32(t.seconds);
            lemma_be32_of_be32(t.fractional);
            assert(be32_at(b, pos + 8) == t.seconds);
            assert(be32_at(b, pos + 12) == t.fractional);
            assert(dec_time(b, pos + 8, end) == Ok::<(crate::types::OscTime, int), DecodeErrorKind>(
                (t, pos + 16),
            ));
            assert(b.subrange(pos + 16, end) =~= enc_elems(bb.content)) by {
                assert(forall|k: int|
                    0 <= k < enc_elems(bb.content).len() ==> e[16 + k] == #[trigger] enc_elems(
                        bb.content,
                    )[k]);
                assert(forall|k: int|
                    0 <= k < enc_elems(bb.content).len() ==> #[trigger] b.subrange(pos + 16, end)[k]
                        == b[pos + 16 + k]);
            }
            assert(decreases_to!(p => bb.content));
            lemma_roundtrip_elems(b, pos + 16, end, bb.content, Seq::empty());
            assert(Seq::<OscPacketV>::empty() + bb.content =~= bb.content);
            assert(OscPacketV::Bundle(OscBundleV { timetag: t, content: bb.content }) =~~= p);
        },
    }
}


/// Round trip: for every well-formed packet, decoding its own encoding as a
/// datagram yields the packet back with the whole buffer consumed. Together
/// with the encoder's contract this says `decode_datagram(encode(p))` is the
/// empty remainder and `p` itself.
pub proof fn lemma_codec_round_trip(p: OscPacketV)
    requires
        wf_packet(p),
    ensures
        dec_packet(enc_packet(p), 0, enc_packet(p).len() as int) == Ok::<
            (OscPacketV, int),
            DecodeErrorKind,
        >((p, enc_packet(p).len() as int)),
{
    let e = enc_packet(p);
    assert(e.subrange(0, e.len() as int) =~= e);
    lemma_roundtrip_packet(e, 0, e.len() as int, p);
}

/// Stream framing, the "need more data" half: a buffer whose four-byte
/// length prefix declares more bytes than the buffer holds is not an error;
/// the frame read reports no packet and leaves the buffer untouched.
pub proof fn lemma_stream_insufficient(b: Seq<u8>)
    requires
        b.len() >= 4,
        be32_at(b, 0) as int > b.len(),
    ensures
        dec_tcp(b) == Ok::<(Option<OscPacketV>, int), DecodeErrorKind>((None, 0)),
{
}

/// Stream framing, the "enough data" half: a well-formed packet behind its
/// length prefix is read back exactly, with the read ending right after the
/// packet. A message frame may be followed by arbitrary further bytes; a
/// bundle frame must end the buffer, since a bundle absorbs whatever
/// complete elements follow it.
pub proof fn lemma_stream_frame(p: OscPacketV, rest: Seq<u8>)
    requires
        wf_packet(p),
        enc_packet(p).len() <= u32::MAX,
        p is Message || rest.len() == 0,
    ensures
        dec_tcp(be32(enc_packet(p).len() as u32) + enc_packet(p) + rest) == Ok::<
            (Option<OscPacketV>, int),
            DecodeErrorKind,
        >((Some(p), 4 + enc_packet(p).len() as int)),
{
    let e = enc_packet(p);
    let elen = e.len() as int;
    let b = be32(elen as u32) + e + rest;
    let head = be32(elen as u32);
    assert(b[0] == head[0] && b[1] == head[1] && b[2] == head[2] && b[3] == head[3]);
    lemma_be32_of_be32(elen as u32);
    assert(be32_at(b, 0) == elen as u32);
    assert(be32_at(b, 0) as int == elen);
    assert(b.subrange(4, 4 + elen) =~= e);
    lemma_roundtrip_packet(b, 4, b.len() as int, p);
}



/// The bundle with one more element is well-formed when its parts are.
proof fn lemma_absorbed_wf(bv: OscBundleV, q: OscPacketV)
    requires
        wf_packet(OscPacketV::Bundle(bv)),
        wf_packet(q),
        enc_packet(q).len() <= u32::MAX,
    ensures
        wf_packet(
            OscPacketV::Bundle(OscBundleV { timetag: bv.timetag, content: bv.content.push(q) }),
        ),
{
    let c2 = bv.content.push(q);
    let pb = OscPacketV::Bundle(bv);
    assert(wf_packet(pb));
    match pb {
        OscPacketV::Bundle(b2) => {
            assert(b2 == bv);
            assert forall|k: int| 0 <= k < c2.len() implies wf_packet(#[trigger] c2[k])
                && enc_packet(c2[k]).len() <= u32::MAX by {
                if k < bv.content.len() {
                    assert(c2[k] == b2.content[k]);
                    assert(wf_packet(b2.content[k]) && enc_packet(b2.content[k]).len()
                        <= u32::MAX);
                } else {
                    assert(c2[k] == q);
                }
            }
        },
        _ => {},
    }
}

/// The stream of a bundle frame followed by a packet frame is the bundle's
/// length prefix followed by the encoding of the bundle with that packet
/// appended as one more element.
proof fn lemma_absorbed_enc(bv: OscBundleV, q: OscPacketV)
    ensures
        enc_stream(seq![OscPacketV::Bundle(bv), q]) == be32(
            enc_packet(OscPacketV::Bundle(bv)).len() as u32,
        ) + enc_packet(
            OscPacketV::Bundle(OscBundleV { timetag: bv.timetag, content: bv.content.push(q) }),
        ),
        enc_packet(
            OscPacketV::Bundle(OscBundleV { timetag: bv.timetag, content: bv.content.push(q) }),
        ).len() == enc_packet(OscPacketV::Bundle(bv)).len() + 4 + enc_packet(q).len(),
{
    let pb = OscPacketV::Bundle(bv);
    let eb = enc_packet(pb);
    let eq = enc_packet(q);
    let absorbed = OscPacketV::Bundle(
        OscBundleV { timetag: bv.timetag, content: bv.content.push(q) },
    );
    let c2 = bv.content.push(q);
    lemma_enc_elems_push(bv.content, q);
    assert(enc_elems(c2) == enc_elems(bv.content) + be32(eq.len() as u32) + eq);
    assert(enc_packet(absorbed) == bundle_header() + enc_time(bv.timetag) + enc_elems(c2));
    assert(eb == bundle_header() + enc_time(bv.timetag) + enc_elems(bv.content));
    assert(enc_packet(absorbed) =~= eb + (be32(eq.len() as u32) + eq));
    let s1 = seq![pb];
    let s2 = seq![pb, q];
    assert(s2.drop_last() =~= s1);
    assert(s2.last() == q);
    assert(s1.drop_last() =~= Seq::<OscPacketV>::empty());
    assert(s1.last() == pb);
    assert(enc_stream(Seq::<OscPacketV>::empty()) =~= Seq::<u8>::empty());
    assert(enc_stream(s1) == enc_stream(Seq::<OscPacketV>::empty()) + be32(eb.len() as u32) + eb);
    assert(enc_stream(s1) =~= be32(eb.len() as u32) + eb);
    assert(enc_stream(s2) == enc_stream(s1) + be32(eq.len() as u32) + eq);
    assert(enc_stream(s2) =~= be32(eb.len() as u32) + enc_packet(absorbed));
}

/// A buffer that is one length word followed by exactly one well-formed
/// packet, whatever the word declares (as long as it is within the buffer),
/// reads as one frame holding that packet and consuming the whole buffer.
proof fn lemma_frame_full(b: Seq<u8>, p: OscPacketV)
    requires
        wf_packet(p),
        b.len() == 4 + enc_packet(p).len(),
        be32_at(b, 0) as int <= b.len(),
        b.subrange(4, b.len() as int) == enc_packet(p),
    ensures
        dec_tcp(b) == Ok::<(Option<OscPacketV>, int), DecodeErrorKind>((Some(p), b.len() as int)),
{
    lemma_roundtrip_packet(b, 4, b.len() as int, p);
}

/// One frame read from the absorbed stream gives the widened bundle and
/// consumes everything.
#[verifier::rlimit(100)]
proof fn lemma_absorbed_tcp(bv: OscBundleV, q: OscPacketV)
    requires
        wf_packet(OscPacketV::Bundle(bv)),
        wf_packet(q),
        enc_packet(OscPacketV::Bundle(bv)).len() <= u32::MAX,
        enc_packet(q).len() <= u32::MAX,
    ensures
        dec_tcp(enc_stream(seq![OscPacketV::Bundle(bv), q])) == Ok::<
            (Option<OscPacketV>, int),
            DecodeErrorKind,
        >(
            (
                Some(
                    OscPacketV::Bundle(
                        OscBundleV { timetag: bv.timetag, content: bv.content.push(q) },
                    ),
                ),
                enc_stream(seq![OscPacketV::Bundle(bv), q]).len() as int,
            ),
        ),
{
    let pb = OscPacketV::Bundle(bv);
    let eb = enc_packet(pb);
    let eblen = eb.len() as int;
    let absorbed = OscPacketV::Bundle(
        OscBundleV { timetag: bv.timetag, content: bv.content.push(q) },
    );
    let ea = enc_packet(absorbed);
    lemma_absorbed_enc(bv, q);
    lemma_absorbed_wf(bv, q);
    let stream = enc_stream(seq![pb, q]);
    let end = stream.len() as int;
    assert(stream.subrange(0, end) =~= stream);
    lemma_region_split(stream, 0, be32(eblen as u32), ea);
    lemma_region_be32(stream, 0, eblen as u32);
    assert(be32_at(stream, 0) as int == eblen);
    lemma_frame_full(stream, absorbed);
}

/// Trailing-packet absorption: when a bundle's stream frame is immediately
/// followed by another packet's frame, draining the stream yields a single
/// bundle whose content ends with the trailing packet, because the bundle
/// reader keeps taking complete length-prefixed elements as long as bytes
/// remain. This is the specified behavior of draining, surprising as it is.
pub proof fn lemma_trailing_packet_absorbed(bv: OscBundleV, q: OscPacketV)
    requires
        wf_packet(OscPacketV::Bundle(bv)),
        wf_packet(q),
        enc_packet(OscPacketV::Bundle(bv)).len() <= u32::MAX,
        enc_packet(q).len() <= u32::MAX,
    ensures
        dec_tcp_vec(enc_stream(seq![OscPacketV::Bundle(bv), q]), Seq::empty()) == Ok::<
            (Seq<OscPacketV>, Seq<u8>),
            DecodeErrorKind,
        >(
            (
                seq![
                    OscPacketV::Bundle(
                        OscBundleV { timetag: bv.timetag, content: bv.content.push(q) },
                    ),
                ],
                Seq::empty(),
            ),
        ),
{
    let pb = OscPacketV::Bundle(bv);
    let absorbed = OscPacketV::Bundle(
        OscBundleV { timetag: bv.timetag, content: bv.content.push(q) },
    );
    let stream = enc_stream(seq![pb, q]);
    let end = stream.len() as int;
    lemma_absorbed_tcp(bv, q);
    assert(stream.subrange(end, end) =~= Seq::<u8>::empty());
    assert(Seq::<OscPacketV>::empty().push(absorbed) =~= seq![absorbed]);
}

} // verus!
