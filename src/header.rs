//! The 128-byte file header.
use vstd::prelude::*;
use vstd::string::StringSliceAdditionalSpecFns;
use vstd::utf8::{decode_utf8, encode_utf8, valid_utf8};
use crate::model::{utf8_bytes, Header};
use crate::primitive::{
    append_bytes, bytes_be, bytes_of, lemma_uint_bound, lemma_pow256_values, read_uint, uint_be,
    uint_of, write_uint, Endianness,
};
use crate::types::ParseErrorKind;

verus! {

/// A header as read: byte order, version, subsystem offset and description bytes.
pub struct HeaderModel {
    pub byte_order: Endianness,
    pub version: u16,
    pub subsys_offset: u64,
    pub description: Seq<u8>,
}

pub open spec fn is_blank(b: u8) -> bool {
    b == 32 || b == 0
}

/// `b` without its trailing spaces and NULs.
pub open spec fn trim_end(b: Seq<u8>) -> Seq<u8>
    decreases b.len(),
{
    if b.len() > 0 && is_blank(b.last()) {
        trim_end(b.drop_last())
    } else {
        b
    }
}

/// The byte order that the marker bytes `a`, `b` name.
pub open spec fn marker_order(a: u8, b: u8) -> Option<Endianness> {
    if a == 73 && b == 77 {
        Some(Endianness::Little)
    } else if a == 77 && b == 73 {
        Some(Endianness::Big)
    } else {
        None
    }
}

pub open spec fn marker_bytes(e: Endianness) -> Seq<u8> {
    match e {
        Endianness::Little => seq![73u8, 77u8],
        Endianness::Big => seq![77u8, 73u8],
    }
}

/// Reads the header at the start of `s`.
pub open spec fn spec_header(s: Seq<u8>) -> Result<HeaderModel, ParseErrorKind> {
    if s.len() < 128 {
        Err(ParseErrorKind::Truncated)
    } else {
        match marker_order(s[126], s[127]) {
            None => Err(ParseErrorKind::HeaderMarker),
            Some(e) => Ok(
                HeaderModel {
                    byte_order: e,
                    version: uint_be(s.subrange(124, 126)) as u16,
                    subsys_offset: uint_of(s.subrange(116, 124), e) as u64,
                    description: trim_end(s.take(116)),
                },
            ),
        }
    }
}

/// The header read is the model: the description when it is UTF-8, else empty.
pub open spec fn header_matches(h: Header, m: HeaderModel) -> bool {
    &&& h.byte_order == m.byte_order
    &&& h.version == m.version
    &&& h.subsys_offset == m.subsys_offset
    &&& h.description@ == if valid_utf8(m.description) {
        decode_utf8(m.description)
    } else {
        Seq::empty()
    }
    &&& h.mat_identifier@.len() == 0
    &&& h.deflate_level == 1
}

pub open spec fn platform_text() -> Seq<u8> {
    encode_utf8(", Platform: PCWIN64, Created on: "@)
}

/// `t` cut or space-padded to 116 bytes.
pub open spec fn fit116(t: Seq<u8>) -> Seq<u8> {
    if t.len() >= 116 {
        t.take(116)
    } else {
        t + Seq::new((116 - t.len()) as nat, |i: int| 32u8)
    }
}

/// The header written for `h` at the time `ts`.
pub open spec fn header_bytes(h: Header, ts: Seq<u8>) -> Seq<u8> {
    fit116(utf8_bytes(h.mat_identifier) + platform_text() + ts) + bytes_of(
        h.subsys_offset as nat,
        8,
        h.byte_order,
    ) + bytes_be(h.version as nat, 2) + marker_bytes(h.byte_order)
}

/// Relies on `String::from_utf8`: it succeeds exactly on valid UTF-8, with the characters
/// that the bytes encode.
#[verifier::external_body]
pub(crate) fn utf8_string(b: Vec<u8>) -> (r: Option<String>)
    ensures
        r is Some <==> valid_utf8(b@),
        r matches Some(t) ==> t@ == decode_utf8(b@),
{
    String::from_utf8(b).ok()
}

/// The header for `header` with the creation time `timestamp`.
pub fn header_with_time(header: &Header, timestamp: &str) -> (r: Vec<u8>)
    ensures
        r@ == header_bytes(*header, timestamp.spec_bytes()),
{
    let mut text: Vec<u8> = Vec::new();
    append_bytes(&mut text, header.mat_identifier.as_str().as_bytes());
    append_bytes(&mut text, ", Platform: PCWIN64, Created on: ".as_bytes());
    append_bytes(&mut text, timestamp.as_bytes());
    let ghost t = text@;
    let mut out: Vec<u8> = Vec::new();
    let mut i: usize = 0;
    while i < 116
        invariant
            i <= 116,
            text@ == t,
            out@ =~= fit116(t).take(i as int),
        decreases 116 - i,
    {
        if i < text.len() {
            out.push(text[i]);
        } else {
            out.push(32u8);
        }
        i = i + 1;
        assert(out@ =~= fit116(t).take(i as int));
    }
    assert(fit116(t).take(116) =~= fit116(t));
    write_uint(&mut out, header.subsys_offset, 8, header.byte_order);
    write_uint(&mut out, header.version as u64, 2, Endianness::Big);
    match header.byte_order {
        Endianness::Little => {
            out.push(73u8);
            out.push(77u8);
        },
        Endianness::Big => {
            out.push(77u8);
            out.push(73u8);
        },
    }
    assert(out@ =~= header_bytes(*header, timestamp.spec_bytes()));
    out
}

/// Reads the header at the start of `i`.
pub fn parse_header(i: &[u8]) -> (r: Result<Header, ParseErrorKind>)
    ensures
        r matches Ok(h) ==> spec_header(i@) matches Ok(m) && header_matches(h, m),
        r matches Err(k) ==> spec_header(i@) == Err::<HeaderModel, _>(k),
{
    if i.len() < 128 {
        return Err(ParseErrorKind::Truncated);
    }
    let e = if i[126] == 73 && i[127] == 77 {
        Endianness::Little
    } else if i[126] == 77 && i[127] == 73 {
        Endianness::Big
    } else {
        return Err(ParseErrorKind::HeaderMarker);
    };
    let version = read_uint(i, 124, 2, Endianness::Big);
    let subsys_offset = read_uint(i, 116, 8, e);
    proof {
        lemma_uint_bound(i@.subrange(124, 126), Endianness::Big);
        lemma_pow256_values();
    }
    let mut n: usize = 116;
    while n > 0 && (i[n - 1] == 32 || i[n - 1] == 0)
        invariant
            n <= 116 <= i@.len(),
            trim_end(i@.take(116)) == trim_end(i@.take(n as int)),
        decreases n,
    {
        assert(i@.take(n as int).drop_last() =~= i@.take(n - 1));
        n = n - 1;
    }
    let mut d: Vec<u8> = Vec::new();
    append_bytes(&mut d, vstd::slice::slice_subrange(i, 0, n));
    assert(d@ =~= i@.take(n as int));
    assert(trim_end(i@.take(n as int)) == i@.take(n as int));
    let description = match utf8_string(d) {
        Some(s) => s,
        None => String::new(),
    };
    Ok(
        Header {
            version: version as u16,
            mat_identifier: String::new(),
            description,
            byte_order: e,
            subsys_offset,
            deflate_level: 1,
        },
    )
}

} // verus!
