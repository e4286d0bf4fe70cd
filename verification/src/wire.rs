use crate::errors::DecodeErrorKind;
use crate::types::{OscBundleV, OscColor, OscMessageV, OscMidiMessage, OscPacketV, OscTime, OscTypeV};
use crate::utils::pad4;
use vstd::prelude::*;
use vstd::utf8::{decode_utf8, encode_utf8, is_ascii_chars, is_ascii_chars_encode_utf8, is_scalar, valid_utf8};

verus! {

/// `n` zero bytes.
pub open spec fn zero_bytes(n: int) -> Seq<u8> {
    Seq::new(n as nat, |i| 0u8)
}

/// The four bytes of `x`, big-endian.
pub open spec fn be32(x: u32) -> Seq<u8> {
    seq![(x >> 24) as u8, (x >> 16) as u8, (x >> 8) as u8, x as u8]
}

/// The eight bytes of `x`, big-endian.
pub open spec fn be64(x: u64) -> Seq<u8> {
    seq![
        (x >> 56) as u8,
        (x >> 48) as u8,
        (x >> 40) as u8,
        (x >> 32) as u8,
        (x >> 24) as u8,
        (x >> 16) as u8,
        (x >> 8) as u8,
        x as u8,
    ]
}

/// The 32-bit value read big-endian from four bytes.
pub open spec fn be32_of(b0: u8, b1: u8, b2: u8, b3: u8) -> u32 {
    ((b0 as u32) << 24) | ((b1 as u32) << 16) | ((b2 as u32) << 8) | (b3 as u32)
}

/// The 64-bit value read big-endian from eight bytes.
pub open spec fn be64_of(b0: u8, b1: u8, b2: u8, b3: u8, b4: u8, b5: u8, b6: u8, b7: u8) -> u64 {
    ((b0 as u64) << 56) | ((b1 as u64) << 48) | ((b2 as u64) << 40) | ((b3 as u64) << 32) | (
    (b4 as u64) << 24) | ((b5 as u64) << 16) | ((b6 as u64) << 8) | (b7 as u64)
}

/// Reading back the four big-endian bytes of a 32-bit value gives the value.
pub proof fn lemma_be32_of_be32(x: u32)
    ensures
        be32_of((x >> 24) as u8, (x >> 16) as u8, (x >> 8) as u8, x as u8) == x,
{
    assert((((x >> 24) as u8 as u32) << 24) | (((x >> 16) as u8 as u32) << 16) | (((x
        >> 8) as u8 as u32) << 8) | (x as u8 as u32) == x) by (bit_vector);
}

/// Reading back the eight big-endian bytes of a 64-bit value gives the value.
pub proof fn lemma_be64_of_be64(x: u64)
    ensures
        be64_of(
            (x >> 56) as u8,
            (x >> 48) as u8,
            (x >> 40) as u8,
            (x >> 32) as u8,
            (x >> 24) as u8,
            (x >> 16) as u8,
            (x >> 8) as u8,
            x as u8,
        ) == x,
{
    assert((((x >> 56) as u8 as u64) << 56) | (((x >> 48) as u8 as u64) << 48) | (((x
        >> 40) as u8 as u64) << 40) | (((x >> 32) as u8 as u64) << 32) | (((x
        >> 24) as u8 as u64) << 24) | (((x >> 16) as u8 as u64) << 16) | (((x
        >> 8) as u8 as u64) << 8) | (x as u8 as u64) == x) by (bit_vector);
}

/// An OSC string on the wire: the UTF-8 bytes, one NUL terminator, and zero
/// padding up to the next multiple of 4 bytes.
pub open spec fn enc_str_bytes(b: Seq<u8>) -> Seq<u8> {
    b + zero_bytes(pad4(b.len() as int + 1) - b.len())
}

/// An OSC string on the wire, from its character sequence.
pub open spec fn enc_str(s: Seq<char>) -> Seq<u8> {
    enc_str_bytes(encode_utf8(s))
}

/// The bytes of the `#bundle` marker string, NUL-terminated and 4-aligned.
pub open spec fn bundle_header() -> Seq<u8> {
    seq![0x23u8, 0x62u8, 0x75u8, 0x6eu8, 0x64u8, 0x6cu8, 0x65u8, 0x00u8]
}

/// The characters of the `#bundle` marker string.
pub open spec fn bundle_chars() -> Seq<char> {
    seq!['#', 'b', 'u', 'n', 'd', 'l', 'e']
}

/// An eight-byte time tag: seconds, then fractional, each big-endian.
pub open spec fn enc_time(t: OscTime) -> Seq<u8> {
    be32(t.seconds) + be32(t.fractional)
}

/// The type tag characters of one argument, as bytes: one tag for a flat
/// argument, the bracketed tags of the content for an array.
pub open spec fn tag_bytes(t: OscTypeV) -> Seq<u8>
    decreases t,
{
    match t {
        OscTypeV::Int(_) => seq![0x69u8],  // 'i'
        OscTypeV::Long(_) => seq![0x68u8],  // 'h'
        OscTypeV::Float(_) => seq![0x66u8],  // 'f'
        OscTypeV::Double(_) => seq![0x64u8],  // 'd'
        OscTypeV::Char(_) => seq![0x63u8],  // 'c'
        OscTypeV::String(_) => seq![0x73u8],  // 's'
        OscTypeV::Blob(_) => seq![0x62u8],  // 'b'
        OscTypeV::Time(_) => seq![0x74u8],  // 't'
        OscTypeV::Midi(_) => seq![0x6du8],  // 'm'
        OscTypeV::Color(_) => seq![0x72u8],  // 'r'
        OscTypeV::Bool(x) => if x {
            seq![0x54u8]  // 'T'
        } else {
            seq![0x46u8]  // 'F'
        },
        OscTypeV::Nil => seq![0x4eu8],  // 'N'
        OscTypeV::Inf => seq![0x49u8],  // 'I'
        OscTypeV::Array(xs) => seq![0x5bu8] + tags_bytes(xs) + seq![0x5du8],  // '[' tags ']'
    }
}

/// The type tag bytes of a sequence of arguments, in order.
pub open spec fn tags_bytes(s: Seq<OscTypeV>) -> Seq<u8>
    decreases s,
{
    if s.len() == 0 {
        Seq::empty()
    } else {
        tags_bytes(s.drop_last()) + tag_bytes(s.last())
    }
}

/// The payload bytes of one argument. `Bool`, `Nil` and `Inf` contribute
/// nothing; an array contributes the concatenated payloads of its content,
/// its structure living in the tag string alone.
pub open spec fn data_bytes(t: OscTypeV) -> Seq<u8>
    decreases t,
{
    match t {
        OscTypeV::Int(x) => be32(x as u32),
        OscTypeV::Long(x) => be64(x as u64),
        OscTypeV::Float(x) => be32(x),
        OscTypeV::Double(x) => be64(x),
        OscTypeV::Char(c) => be32(c as u32),
        OscTypeV::String(s) => enc_str(s),
        OscTypeV::Blob(b) => be32(b.len() as u32) + b + zero_bytes(pad4(b.len() as int) - b.len()),
        OscTypeV::Time(t) => enc_time(t),
        OscTypeV::Midi(m) => seq![m.port, m.status, m.data1, m.data2],
        OscTypeV::Color(c) => seq![c.red, c.green, c.blue, c.alpha],
        OscTypeV::Bool(_) => Seq::empty(),
        OscTypeV::Nil => Seq::empty(),
        OscTypeV::Inf => Seq::empty(),
        OscTypeV::Array(xs) => datas_bytes(xs),
    }
}

/// The payload bytes of a sequence of arguments, in order.
pub open spec fn datas_bytes(s: Seq<OscTypeV>) -> Seq<u8>
    decreases s,
{
    if s.len() == 0 {
        Seq::empty()
    } else {
        datas_bytes(s.drop_last()) + data_bytes(s.last())
    }
}

/// The padded type tag string of a message: a comma, one tag per argument,
/// a NUL terminator and zero padding to the 4-byte grid.
pub open spec fn enc_tag_str(args: Seq<OscTypeV>) -> Seq<u8> {
    enc_str_bytes(seq![0x2cu8] + tags_bytes(args))
}

/// A message on the wire: padded address string, padded type tag string,
/// then the argument payloads in tag order.
pub open spec fn enc_msg(m: OscMessageV) -> Seq<u8> {
    enc_str(m.addr) + enc_tag_str(m.args) + datas_bytes(m.args)
}

/// A bundle on the wire: the `#bundle` marker, the time tag, then for each
/// child packet its length as a big-endian 32-bit word followed by its bytes.
pub open spec fn enc_bundle(b: OscBundleV) -> Seq<u8>
    decreases b,
{
    bundle_header() + enc_time(b.timetag) + enc_elems(b.content)
}

/// The length-prefixed bundle elements, in order.
pub open spec fn enc_elems(s: Seq<OscPacketV>) -> Seq<u8>
    decreases s,
{
    if s.len() == 0 {
        Seq::empty()
    } else {
        enc_elems(s.drop_last()) + be32(enc_packet(s.last()).len() as u32) + enc_packet(s.last())
    }
}

/// A packet on the wire.
pub open spec fn enc_packet(p: OscPacketV) -> Seq<u8>
    decreases p,
{
    match p {
        OscPacketV::Message(m) => enc_msg(m),
        OscPacketV::Bundle(b) => bundle_header() + enc_time(b.timetag) + enc_elems(b.content),
    }
}

/// A stream of packets on the wire: each packet's full encoding prefixed by
/// its own length as a big-endian 32-bit word.
pub open spec fn enc_stream(s: Seq<OscPacketV>) -> Seq<u8>
    decreases s,
{
    if s.len() == 0 {
        Seq::empty()
    } else {
        enc_stream(s.drop_last()) + be32(enc_packet(s.last()).len() as u32) + enc_packet(s.last())
    }
}

/// Whether some message in the packet has an empty address: the one input
/// the encoder rejects.
pub open spec fn has_empty_addr(p: OscPacketV) -> bool
    decreases p,
{
    match p {
        OscPacketV::Message(m) => m.addr.len() == 0,
        OscPacketV::Bundle(b) => exists|i: int|
            0 <= i < b.content.len() && has_empty_addr(#[trigger] b.content[i]),
    }
}

/// Machine-size bounds on an argument: blob lengths must fit the 32-bit
/// length word written before them.
pub open spec fn sized_type(t: OscTypeV) -> bool
    decreases t,
{
    match t {
        OscTypeV::Blob(b) => b.len() <= u32::MAX,
        OscTypeV::Array(xs) => forall|i: int|
            0 <= i < xs.len() ==> sized_type(#[trigger] xs[i]),
        _ => true,
    }
}

/// Machine-size bounds on a packet: every blob length and every nested
/// packet's encoded length must fit the 32-bit length words on the wire.
pub open spec fn sized_packet(p: OscPacketV) -> bool
    decreases p,
{
    match p {
        OscPacketV::Message(m) => forall|i: int|
            0 <= i < m.args.len() ==> sized_type(#[trigger] m.args[i]),
        OscPacketV::Bundle(b) => forall|i: int|
            0 <= i < b.content.len() ==> sized_packet(#[trigger] b.content[i]) && enc_packet(
                b.content[i],
            ).len() <= u32::MAX,
    }
}

/// A character sequence without the NUL character, which the wire format
/// reserves as the string terminator.
pub open spec fn nul_free(s: Seq<char>) -> bool {
    forall|i: int| 0 <= i < s.len() ==> s[i] != '\0'
}

/// A decodable argument value: strings carry no NUL character.
pub open spec fn wf_type(t: OscTypeV) -> bool
    decreases t,
{
    match t {
        OscTypeV::String(s) => nul_free(s),
        OscTypeV::Blob(b) => b.len() <= u32::MAX,
        OscTypeV::Array(xs) => forall|i: int| 0 <= i < xs.len() ==> wf_type(#[trigger] xs[i]),
        _ => true,
    }
}

/// A well-formed packet, the kind the codec round-trips: every address is
/// non-empty, begins with `/` and carries no NUL, every string argument
/// carries no NUL, and every length on the wire fits its 32-bit word.
pub open spec fn wf_packet(p: OscPacketV) -> bool
    decreases p,
{
    match p {
        OscPacketV::Message(m) => m.addr.len() > 0 && m.addr[0] == '/' && nul_free(m.addr)
            && forall|i: int| 0 <= i < m.args.len() ==> wf_type(#[trigger] m.args[i]),
        OscPacketV::Bundle(b) => forall|i: int|
            0 <= i < b.content.len() ==> wf_packet(#[trigger] b.content[i]) && enc_packet(
                b.content[i],
            ).len() <= u32::MAX,
    }
}


/// `s` with the bytes from `pos` on replaced by `d`, the rest unchanged: what
/// placing bytes into a reserved mark does to a sink's contents.
pub open spec fn splice(s: Seq<u8>, pos: int, d: Seq<u8>) -> Seq<u8> {
    s.subrange(0, pos) + d + s.subrange(pos + d.len(), s.len() as int)
}

/// The `#bundle` marker encodes, as a padded OSC string, to its eight
/// well-known bytes.
pub proof fn lemma_bundle_header()
    ensures
        enc_str(bundle_chars()) == bundle_header(),
{
    let c = bundle_chars();
    assert(is_ascii_chars(c)) by {
        assert(c[0] == '#' && c[1] == 'b' && c[2] == 'u' && c[3] == 'n' && c[4] == 'd' && c[5]
            == 'l' && c[6] == 'e');
    }
    is_ascii_chars_encode_utf8(c);
    assert(encode_utf8(c) =~= seq![0x23u8, 0x62u8, 0x75u8, 0x6eu8, 0x64u8, 0x6cu8, 0x65u8]);
    assert(enc_str(c) =~= bundle_header());
}

/// Encoding one more bundle element appends its length word and its bytes.
pub proof fn lemma_enc_elems_push(s: Seq<OscPacketV>, x: OscPacketV)
    ensures
        enc_elems(s.push(x)) == enc_elems(s) + be32(enc_packet(x).len() as u32) + enc_packet(x),
{
    assert(s.push(x).drop_last() =~= s);
    assert(s.push(x).last() == x);
    assert(enc_elems(s.push(x)) =~= enc_elems(s) + be32(enc_packet(x).len() as u32) + enc_packet(
        x,
    ));
}

/// Framing one more stream packet appends its length word and its bytes.
pub proof fn lemma_enc_stream_push(s: Seq<OscPacketV>, x: OscPacketV)
    ensures
        enc_stream(s.push(x)) == enc_stream(s) + be32(enc_packet(x).len() as u32) + enc_packet(x),
{
    assert(s.push(x).drop_last() =~= s);
    assert(s.push(x).last() == x);
    assert(enc_stream(s.push(x)) =~= enc_stream(s) + be32(enc_packet(x).len() as u32) + enc_packet(
        x,
    ));
}

/// One more tag appends its tag bytes.
pub proof fn lemma_tags_push(s: Seq<OscTypeV>, x: OscTypeV)
    ensures
        tags_bytes(s.push(x)) == tags_bytes(s) + tag_bytes(x),
{
    assert(s.push(x).drop_last() =~= s);
    assert(s.push(x).last() == x);
    assert(tags_bytes(s.push(x)) =~= tags_bytes(s) + tag_bytes(x));
}

/// One more argument appends its payload bytes.
pub proof fn lemma_datas_push(s: Seq<OscTypeV>, x: OscTypeV)
    ensures
        datas_bytes(s.push(x)) == datas_bytes(s) + data_bytes(x),
{
    assert(s.push(x).drop_last() =~= s);
    assert(s.push(x).last() == x);
    assert(datas_bytes(s.push(x)) =~= datas_bytes(s) + data_bytes(x));
}

/// The encoding of a prefix of the elements is no longer than the whole.
pub proof fn lemma_enc_elems_prefix_len(s: Seq<OscPacketV>, i: int)
    requires
        0 <= i <= s.len(),
    ensures
        enc_elems(s.take(i)).len() <= enc_elems(s).len(),
    decreases s.len() - i,
{
    if i == s.len() {
        assert(s.take(i) =~= s);
    } else {
        lemma_enc_elems_prefix_len(s, i + 1);
        lemma_enc_elems_push(s.take(i), s[i]);
        assert(s.take(i + 1) =~= s.take(i).push(s[i]));
    }
}

/// The tag bytes of a prefix of the arguments are no longer than the whole's.
pub proof fn lemma_tags_prefix_len(s: Seq<OscTypeV>, i: int)
    requires
        0 <= i <= s.len(),
    ensures
        tags_bytes(s.take(i)).len() <= tags_bytes(s).len(),
    decreases s.len() - i,
{
    if i == s.len() {
        assert(s.take(i) =~= s);
    } else {
        lemma_tags_prefix_len(s, i + 1);
        lemma_tags_push(s.take(i), s[i]);
        assert(s.take(i + 1) =~= s.take(i).push(s[i]));
    }
}

/// The payload bytes of a prefix of the arguments are no longer than the whole's.
pub proof fn lemma_datas_prefix_len(s: Seq<OscTypeV>, i: int)
    requires
        0 <= i <= s.len(),
    ensures
        datas_bytes(s.take(i)).len() <= datas_bytes(s).len(),
    decreases s.len() - i,
{
    if i == s.len() {
        assert(s.take(i) =~= s);
    } else {
        lemma_datas_prefix_len(s, i + 1);
        lemma_datas_push(s.take(i), s[i]);
        assert(s.take(i + 1) =~= s.take(i).push(s[i]));
    }
}

/// The stream framing of a prefix of the packets is no longer than the whole.
pub proof fn lemma_enc_stream_prefix_len(s: Seq<OscPacketV>, i: int)
    requires
        0 <= i <= s.len(),
    ensures
        enc_stream(s.take(i)).len() <= enc_stream(s).len(),
    decreases s.len() - i,
{
    if i == s.len() {
        assert(s.take(i) =~= s);
    } else {
        lemma_enc_stream_prefix_len(s, i + 1);
        lemma_enc_stream_push(s.take(i), s[i]);
        assert(s.take(i + 1) =~= s.take(i).push(s[i]));
    }
}


/// Rounding to the 4-byte grid moves a position forward by at most 3 and
/// lands on a multiple of 4.
pub proof fn lemma_pad4(n: int)
    requires
        n >= 0,
    ensures
        n <= pad4(n) < n + 4,
        pad4(n) % 4 == 0,
{
}


/// The 32-bit word at `pos`, big-endian.
pub open spec fn be32_at(b: Seq<u8>, pos: int) -> u32 {
    be32_of(b[pos], b[pos + 1], b[pos + 2], b[pos + 3])
}

/// The 64-bit word at `pos`, big-endian.
pub open spec fn be64_at(b: Seq<u8>, pos: int) -> u64 {
    be64_of(b[pos], b[pos + 1], b[pos + 2], b[pos + 3], b[pos + 4], b[pos + 5], b[pos + 6], b[pos + 7])
}

/// The position of the first NUL byte at or after `pos` and before `end`,
/// or `end` when there is none.
pub open spec fn first_nul(b: Seq<u8>, pos: int, end: int) -> int
    decreases end - pos,
{
    if pos >= end {
        end
    } else if b[pos] == 0 {
        pos
    } else {
        first_nul(b, pos + 1, end)
    }
}

/// Where the first NUL lies: between `pos` and `end`, nothing before it is
/// NUL, and it is a NUL unless the range ran out.
pub proof fn lemma_first_nul(b: Seq<u8>, pos: int, end: int)
    requires
        pos <= end,
    ensures
        pos <= first_nul(b, pos, end) <= end,
        forall|j: int| pos <= j < first_nul(b, pos, end) ==> b[j] != 0,
        first_nul(b, pos, end) < end ==> b[first_nul(b, pos, end)] == 0,
    decreases end - pos,
{
    if pos < end && b[pos] != 0 {
        lemma_first_nul(b, pos + 1, end);
    }
}

/// Reads one padded OSC string out of `b[pos..end]`: the bytes up to the
/// first NUL, decoded as UTF-8, with the read position skipped forward past
/// the terminator to the next multiple of 4 measured from the start of `b`.
pub open spec fn dec_str(b: Seq<u8>, pos: int, end: int) -> Result<(Seq<char>, int), DecodeErrorKind> {
    let nul = first_nul(b, pos, end);
    let skip = 4 - (nul % 4);
    if nul + skip > end {
        Err(DecodeErrorKind::Read)
    } else if valid_utf8(b.subrange(pos, nul)) {
        Ok((decode_utf8(b.subrange(pos, nul)), nul + skip))
    } else {
        Err(DecodeErrorKind::Utf8)
    }
}

/// A successful string read lands after `pos`, at most at `end`, on the
/// 4-byte grid.
pub proof fn lemma_dec_str_bounds(b: Seq<u8>, pos: int, end: int)
    requires
        0 <= pos <= end,
    ensures
        dec_str(b, pos, end) matches Ok(sp) ==> pos < sp.1 <= end && sp.1 % 4 == 0,
{
    lemma_first_nul(b, pos, end);
}

/// Reads an eight-byte time tag.
pub open spec fn dec_time(b: Seq<u8>, pos: int, end: int) -> Result<(OscTime, int), DecodeErrorKind> {
    if pos + 8 <= end {
        Ok((OscTime { seconds: be32_at(b, pos), fractional: be32_at(b, pos + 4) }, pos + 8))
    } else {
        Err(DecodeErrorKind::Read)
    }
}

/// Reads one argument payload selected by the type tag character.
pub open spec fn dec_arg(b: Seq<u8>, pos: int, end: int, tag: char) -> Result<
    (OscTypeV, int),
    DecodeErrorKind,
> {
    if tag == 'f' {
        if pos + 4 <= end {
            Ok((OscTypeV::Float(be32_at(b, pos)), pos + 4))
        } else {
            Err(DecodeErrorKind::Read)
        }
    } else if tag == 'd' {
        if pos + 8 <= end {
            Ok((OscTypeV::Double(be64_at(b, pos)), pos + 8))
        } else {
            Err(DecodeErrorKind::Read)
        }
    } else if tag == 'i' {
        if pos + 4 <= end {
            Ok((OscTypeV::Int(be32_at(b, pos) as i32), pos + 4))
        } else {
            Err(DecodeErrorKind::Read)
        }
    } else if tag == 'h' {
        if pos + 8 <= end {
            Ok((OscTypeV::Long(be64_at(b, pos) as i64), pos + 8))
        } else {
            Err(DecodeErrorKind::Read)
        }
    } else if tag == 's' {
        match dec_str(b, pos, end) {
            Ok((s, p)) => Ok((OscTypeV::String(s), p)),
            Err(k) => Err(k),
        }
    } else if tag == 't' {
        match dec_time(b, pos, end) {
            Ok((t, p)) => Ok((OscTypeV::Time(t), p)),
            Err(k) => Err(k),
        }
    } else if tag == 'b' {
        if pos + 4 > end {
            Err(DecodeErrorKind::Read)
        } else {
            let size = be32_at(b, pos) as int;
            let data_end = pos + 4 + size;
            if data_end > end {
                Err(DecodeErrorKind::Read)
            } else {
                let skip = (4 - (data_end % 4)) % 4;
                if data_end + skip > end {
                    Err(DecodeErrorKind::Read)
                } else {
                    Ok((OscTypeV::Blob(b.subrange(pos + 4, data_end)), data_end + skip))
                }
            }
        }
    } else if tag == 'r' {
        if pos + 4 <= end {
            Ok(
                (
                    OscTypeV::Color(
                        OscColor {
                            red: b[pos],
                            green: b[pos + 1],
                            blue: b[pos + 2],
                            alpha: b[pos + 3],
                        },
                    ),
                    pos + 4,
                ),
            )
        } else {
            Err(DecodeErrorKind::Read)
        }
    } else if tag == 'T' {
        Ok((OscTypeV::Bool(true), pos))
    } else if tag == 'F' {
        Ok((OscTypeV::Bool(false), pos))
    } else if tag == 'N' {
        Ok((OscTypeV::Nil, pos))
    } else if tag == 'I' {
        Ok((OscTypeV::Inf, pos))
    } else if tag == 'c' {
        if pos + 4 <= end {
            if is_scalar(be32_at(b, pos)) {
                Ok((OscTypeV::Char(be32_at(b, pos) as char), pos + 4))
            } else {
                Err(DecodeErrorKind::Arg)
            }
        } else {
            Err(DecodeErrorKind::Read)
        }
    } else if tag == 'm' {
        if pos + 4 <= end {
            Ok(
                (
                    OscTypeV::Midi(
                        OscMidiMessage {
                            port: b[pos],
                            status: b[pos + 1],
                            data1: b[pos + 2],
                            data2: b[pos + 3],
                        },
                    ),
                    pos + 4,
                ),
            )
        } else {
            Err(DecodeErrorKind::Read)
        }
    } else {
        Err(DecodeErrorKind::Arg)
    }
}

/// A successful argument read never moves backward or past `end`.
pub proof fn lemma_dec_arg_bounds(b: Seq<u8>, pos: int, end: int, tag: char)
    requires
        0 <= pos <= end,
    ensures
        dec_arg(b, pos, end, tag) matches Ok(vp) ==> pos <= vp.1 <= end,
{
    lemma_dec_str_bounds(b, pos, end);
}

/// Reads the arguments selected by the tag characters `tags[i..]`, driven by
/// an explicit stack of in-progress argument lists: `[` stashes the current
/// list and starts a fresh one, `]` wraps the current list as an array
/// argument of the list it stashed, an unmatched `]` is an error, and
/// unconsumed stashed lists are simply abandoned when the tags run out.
pub open spec fn dec_args(
    b: Seq<u8>,
    pos: int,
    end: int,
    tags: Seq<char>,
    i: int,
    stack: Seq<Seq<OscTypeV>>,
    cur: Seq<OscTypeV>,
) -> Result<(Seq<OscTypeV>, int), DecodeErrorKind>
    decreases end - pos, tags.len() - i, 1int,
    via check_dec_args
{
    if i >= tags.len() || pos > end || pos < 0 {
        Ok((cur, pos))
    } else if tags[i] == '[' {
        dec_args(b, pos, end, tags, i + 1, stack.push(cur), Seq::empty())
    } else if tags[i] == ']' {
        if stack.len() == 0 {
            Err(DecodeErrorKind::Message)
        } else {
            dec_args(b, pos, end, tags, i + 1, stack.drop_last(), stack.last().push(OscTypeV::Array(cur)))
        }
    } else {
        match dec_arg(b, pos, end, tags[i]) {
            Ok((v, p)) => dec_args(b, p, end, tags, i + 1, stack, cur.push(v)),
            Err(k) => Err(k),
        }
    }
}

#[via_fn]
proof fn check_dec_args(
    b: Seq<u8>,
    pos: int,
    end: int,
    tags: Seq<char>,
    i: int,
    stack: Seq<Seq<OscTypeV>>,
    cur: Seq<OscTypeV>,
) {
    if 0 <= pos <= end {
        lemma_dec_arg_bounds(b, pos, end, tags[i]);
    }
}

/// Reads a message body after the address: the padded tag string, then, when
/// the tag string has more than one byte, the arguments its tags select.
pub open spec fn dec_msg(b: Seq<u8>, pos: int, end: int, addr: Seq<char>) -> Result<
    (OscPacketV, int),
    DecodeErrorKind,
>
    decreases end - pos, 0int, 2int,
    via check_dec_msg
{
    let nul = first_nul(b, pos, end);
    match dec_str(b, pos, end) {
        Ok((tags, p)) => {
            if nul - pos > 1 {
                match dec_args(b, p, end, tags.skip(1), 0, Seq::empty(), Seq::empty()) {
                    Ok((args, p2)) => Ok(
                        (OscPacketV::Message(OscMessageV { addr, args }), p2),
                    ),
                    Err(k) => Err(k),
                }
            } else {
                Ok((OscPacketV::Message(OscMessageV { addr, args: Seq::empty() }), p))
            }
        },
        Err(k) => Err(k),
    }
}

#[via_fn]
proof fn check_dec_msg(b: Seq<u8>, pos: int, end: int, addr: Seq<char>) {
    if 0 <= pos <= end {
        lemma_dec_str_bounds(b, pos, end);
    }
}

/// Reads bundle elements until the remaining input has no complete
/// length-prefixed element left; an element that fails to parse ends the
/// bundle at that point rather than failing it.
pub open spec fn dec_elems(b: Seq<u8>, pos: int, end: int, acc: Seq<OscPacketV>) -> (
    Seq<OscPacketV>,
    int,
)
    decreases end - pos, 0int, 1int,
{
    if pos < 0 || pos + 4 > end {
        (acc, pos)
    } else {
        let size = be32_at(b, pos) as int;
        if pos + 4 + size > end {
            (acc, pos)
        } else {
            match dec_packet(b, pos + 4, pos + 4 + size) {
                Ok((p, _)) => dec_elems(b, pos + 4 + size, end, acc.push(p)),
                Err(_) => (acc, pos),
            }
        }
    }
}

/// Reads a bundle body after the `#bundle` marker: the time tag, then the
/// elements.
pub open spec fn dec_bundle(b: Seq<u8>, pos: int, end: int) -> Result<
    (OscPacketV, int),
    DecodeErrorKind,
>
    decreases end - pos, 0int, 2int,
{
    match dec_time(b, pos, end) {
        Ok((t, p)) => {
            let (content, p2) = dec_elems(b, p, end, Seq::empty());
            Ok((OscPacketV::Bundle(OscBundleV { timetag: t, content }), p2))
        },
        Err(k) => Err(k),
    }
}

/// Reads one packet out of `b[pos..end]`. An empty range is an error; the
/// leading padded string dispatches: an address beginning with `/` starts a
/// message, the exact `#bundle` marker starts a bundle, anything else is an
/// unrecognized packet.
pub open spec fn dec_packet(b: Seq<u8>, pos: int, end: int) -> Result<
    (OscPacketV, int),
    DecodeErrorKind,
>
    decreases end - pos, 0int, 3int,
    via check_dec_packet
{
    if pos >= end || pos < 0 {
        Err(DecodeErrorKind::Packet)
    } else {
        match dec_str(b, pos, end) {
            Ok((addr, p)) => {
                if addr.len() > 0 && addr[0] == '/' {
                    dec_msg(b, p, end, addr)
                } else if addr == bundle_chars() {
                    dec_bundle(b, p, end)
                } else {
                    Err(DecodeErrorKind::Packet)
                }
            },
            Err(k) => Err(k),
        }
    }
}

#[via_fn]
proof fn check_dec_packet(b: Seq<u8>, pos: int, end: int) {
    if 0 <= pos <= end {
        lemma_dec_str_bounds(b, pos, end);
    }
}

/// Reads one length-prefixed stream frame: with fewer than four bytes the
/// read fails; with a declared length larger than the whole input the result
/// is "insufficient data", `None` at position zero; otherwise one packet is
/// read from after the prefix, with the whole input as its bound.
pub open spec fn dec_tcp(b: Seq<u8>) -> Result<(Option<OscPacketV>, int), DecodeErrorKind> {
    if b.len() < 4 {
        Err(DecodeErrorKind::Read)
    } else if be32_at(b, 0) as int > b.len() {
        Ok((None, 0))
    } else {
        match dec_packet(b, 4, b.len() as int) {
            Ok((p, pos)) => Ok((Some(p), pos)),
            Err(k) => Err(k),
        }
    }
}

/// A successfully read packet ends after its start and at most at `end`.
pub proof fn lemma_dec_packet_bounds(b: Seq<u8>, pos: int, end: int)
    requires
        0 <= pos <= end,
    ensures
        dec_packet(b, pos, end) matches Ok(pp) ==> pos < pp.1 <= end,
    decreases end - pos, 0int, 3int,
{
    if pos < end {
        lemma_dec_str_bounds(b, pos, end);
        match dec_str(b, pos, end) {
            Ok((addr, p)) => {
                lemma_dec_msg_bounds(b, p, end, addr);
                lemma_dec_bundle_bounds(b, p, end);
            },
            Err(_) => {},
        }
    }
}

/// A successfully read message body ends at or after its start, at most at `end`.
pub proof fn lemma_dec_msg_bounds(b: Seq<u8>, pos: int, end: int, addr: Seq<char>)
    requires
        0 <= pos <= end,
    ensures
        dec_msg(b, pos, end, addr) matches Ok(pp) ==> pos < pp.1 <= end,
    decreases end - pos, 0int, 2int,
{
    lemma_dec_str_bounds(b, pos, end);
    match dec_str(b, pos, end) {
        Ok((tags, p)) => {
            lemma_dec_args_bounds(b, p, end, tags.skip(1), 0, Seq::empty(), Seq::empty());
        },
        Err(_) => {},
    }
}

/// Reading arguments never moves backward or past `end`.
pub proof fn lemma_dec_args_bounds(
    b: Seq<u8>,
    pos: int,
    end: int,
    tags: Seq<char>,
    i: int,
    stack: Seq<Seq<OscTypeV>>,
    cur: Seq<OscTypeV>,
)
    requires
        0 <= pos <= end,
    ensures
        dec_args(b, pos, end, tags, i, stack, cur) matches Ok(ap) ==> pos <= ap.1 <= end,
    decreases end - pos, tags.len() - i, 1int,
{
    if i < tags.len() {
        if tags[i] == '[' {
            lemma_dec_args_bounds(b, pos, end, tags, i + 1, stack.push(cur), Seq::empty());
        } else if tags[i] == ']' {
            if stack.len() > 0 {
                lemma_dec_args_bounds(
                    b,
                    pos,
                    end,
                    tags,
                    i + 1,
                    stack.drop_last(),
                    stack.last().push(OscTypeV::Array(cur)),
                );
            }
        } else {
            lemma_dec_arg_bounds(b, pos, end, tags[i]);
            match dec_arg(b, pos, end, tags[i]) {
                Ok((v, p)) => {
                    lemma_dec_args_bounds(b, p, end, tags, i + 1, stack, cur.push(v));
                },
                Err(_) => {},
            }
        }
    }
}

/// A bundle body read ends at or after its start, at most at `end`.
pub proof fn lemma_dec_bundle_bounds(b: Seq<u8>, pos: int, end: int)
    requires
        0 <= pos <= end,
    ensures
        dec_bundle(b, pos, end) matches Ok(pp) ==> pos < pp.1 <= end,
    decreases end - pos, 0int, 2int,
{
    match dec_time(b, pos, end) {
        Ok((t, p)) => {
            lemma_dec_elems_bounds(b, p, end, Seq::empty());
        },
        Err(_) => {},
    }
}

/// Reading bundle elements never moves backward or past `end`.
pub proof fn lemma_dec_elems_bounds(b: Seq<u8>, pos: int, end: int, acc: Seq<OscPacketV>)
    requires
        0 <= pos <= end,
    ensures
        pos <= dec_elems(b, pos, end, acc).1 <= end,
    decreases end - pos, 0int, 1int,
{
    if pos + 4 <= end {
        let size = be32_at(b, pos) as int;
        if pos + 4 + size <= end {
            match dec_packet(b, pos + 4, pos + 4 + size) {
                Ok((p, _)) => {
                    lemma_dec_elems_bounds(b, pos + 4 + size, end, acc.push(p));
                },
                Err(_) => {},
            }
        }
    }
}

/// Drains a stream buffer frame by frame: each complete frame's packet is
/// appended, and draining stops at the first incomplete frame, at the end of
/// the buffer, or with the first frame that fails to parse. Each frame is
/// read with its own buffer start as the alignment origin.
pub open spec fn dec_tcp_vec(b: Seq<u8>, acc: Seq<OscPacketV>) -> Result<
    (Seq<OscPacketV>, Seq<u8>),
    DecodeErrorKind,
>
    decreases b.len(),
    via check_dec_tcp_vec
{
    match dec_tcp(b) {
        Err(k) => Err(k),
        Ok((None, _)) => Ok((acc, b)),
        Ok((Some(p), pos)) => {
            let rem = b.subrange(pos, b.len() as int);
            if rem.len() == 0 {
                Ok((acc.push(p), rem))
            } else {
                dec_tcp_vec(rem, acc.push(p))
            }
        },
    }
}

#[via_fn]
proof fn check_dec_tcp_vec(b: Seq<u8>, acc: Seq<OscPacketV>) {
    if b.len() >= 4 {
        lemma_dec_packet_bounds(b, 4, b.len() as int);
    }
}

} // verus!
