//! Data element framing: the long and small tag forms, payloads and padding, and
//! vectors of fixed-width numbers.
use vstd::prelude::*;
use crate::primitive::{
    append_bytes, bytes_of, lemma_bytes_len, lemma_pow256_values, lemma_uint_bound,
    lemma_uint_of_bytes, pad8, padding8, pow256, read_uint, uint_of, write_uint, write_zeros, zeros,
    Endianness,
};
use crate::types::{DataType, ParseErrorKind};

verus! {

/// A tag as read: element type, payload length and the padding after the payload.
#[derive(Clone, Copy, Debug, PartialEq, Eq, Structural)]
pub struct DataElementTag {
    pub data_type: DataType,
    pub data_byte_size: u32,
    pub padding_byte_size: u32,
}

/// Where a data element's payload lies in the bytes it was read from.
#[derive(Clone, Copy, Debug, PartialEq, Eq, Structural)]
pub struct Frame {
    pub data_type: DataType,
    /// The tag was in the four-byte small form.
    pub small: bool,
    /// Offset of the payload.
    pub start: usize,
    /// Length of the payload.
    pub len: usize,
    /// Offset just past the payload and its padding, or the end of the input when the
    /// input ends inside the padding.
    pub next: usize,
}

/// Reads the tag at the start of `s`: the tag, and its own length (four or eight bytes).
/// Whether the payload follows is not looked at.
pub open spec fn spec_tag(s: Seq<u8>, e: Endianness) -> Result<(DataElementTag, nat), ParseErrorKind> {
    if s.len() < 4 {
        Err(ParseErrorKind::Truncated)
    } else {
        let w = uint_of(s.subrange(0, 4), e);
        if w / 0x1_0000 != 0 {
            let size = w / 0x1_0000;
            if size > 4 {
                Err(ParseErrorKind::InvalidTag)
            } else {
                match DataType::of_code(w % 0x1_0000) {
                    None => Err(ParseErrorKind::UnknownDataType),
                    Some(dt) => Ok(
                        (
                            DataElementTag {
                                data_type: dt,
                                data_byte_size: size as u32,
                                padding_byte_size: (4 - size) as u32,
                            },
                            4,
                        ),
                    ),
                }
            }
        } else {
            match DataType::of_code(w) {
                None => Err(ParseErrorKind::UnknownDataType),
                Some(dt) => if s.len() < 8 {
                    Err(ParseErrorKind::Truncated)
                } else {
                    let size = uint_of(s.subrange(4, 8), e);
                    Ok(
                        (
                            DataElementTag {
                                data_type: dt,
                                data_byte_size: size as u32,
                                padding_byte_size: pad8(size) as u32,
                            },
                            8,
                        ),
                    )
                },
            }
        }
    }
}

/// Reads the tag at the start of `s` and locates its payload, which must be there; the
/// padding after it is skipped as far as the input goes.
#[verifier::opaque]
pub open spec fn spec_frame(s: Seq<u8>, e: Endianness) -> Result<Frame, ParseErrorKind> {
    match spec_tag(s, e) {
        Err(k) => Err(k),
        Ok((t, h)) => {
            let end = h + t.data_byte_size;
            if s.len() < end {
                Err(ParseErrorKind::Truncated)
            } else {
                let next = if s.len() < end + t.padding_byte_size {
                    s.len() as int
                } else {
                    end + t.padding_byte_size
                };
                Ok(
                    Frame {
                        data_type: t.data_type,
                        small: h == 4,
                        start: h as usize,
                        len: t.data_byte_size as usize,
                        next: next as usize,
                    },
                )
            }
        },
    }
}

/// The payload that the frame `f` locates in `s`.
pub open spec fn payload_of(s: Seq<u8>, f: Frame) -> Seq<u8> {
    s.subrange(f.start as int, f.start + f.len)
}

/// Whether a payload of `n` bytes is written with a small-form tag: fewer than four bytes,
/// of a type that may be packed. With no bytes at all the small tag and its empty payload
/// are the same eight bytes as a long tag of size zero, and read back as such.
pub open spec fn uses_small_form(dt: DataType, n: nat) -> bool {
    n < 4 && dt.packable()
}

/// The tag of a data element of type `dt` with a payload of `n` bytes.
pub open spec fn tag_bytes(dt: DataType, n: nat, e: Endianness) -> Seq<u8> {
    if uses_small_form(dt, n) {
        bytes_of((dt.code() + n * 0x1_0000) as nat, 4, e)
    } else {
        bytes_of(dt.code() as nat, 4, e) + bytes_of(n, 4, e)
    }
}

/// Zero bytes after a payload of `n` bytes: up to eight bytes in all for the small form,
/// up to the next multiple of eight for the long form.
pub open spec fn padding_after(dt: DataType, n: nat) -> nat {
    if uses_small_form(dt, n) {
        (4 - n) as nat
    } else {
        pad8(n)
    }
}

/// The bytes of a data element of type `dt` carrying `p`.
pub open spec fn element_bytes(dt: DataType, p: Seq<u8>, e: Endianness) -> Seq<u8> {
    tag_bytes(dt, p.len(), e) + p + zeros(padding_after(dt, p.len()))
}

/// Reads the tag at the start of `i`; returns it and the tag's own length.
pub fn parse_data_element_tag(i: &[u8], e: Endianness) -> (r: Result<
    (DataElementTag, usize),
    ParseErrorKind,
>)
    ensures
        r matches Ok((t, n)) ==> spec_tag(i@, e) == Ok::<_, ParseErrorKind>((t, n as nat)),
        r matches Err(k) ==> spec_tag(i@, e) == Err::<(DataElementTag, nat), _>(k),
{
    if i.len() < 4 {
        return Err(ParseErrorKind::Truncated);
    }
    let w = read_uint(i, 0, 4, e);
    proof {
        lemma_uint_bound(i@.subrange(0, 4), e);
        lemma_pow256_values();
    }
    if w / 0x1_0000 != 0 {
        let size = w / 0x1_0000;
        if size > 4 {
            return Err(ParseErrorKind::InvalidTag);
        }
        match DataType::from_u32((w % 0x1_0000) as u32) {
            None => Err(ParseErrorKind::UnknownDataType),
            Some(dt) => Ok(
                (
                    DataElementTag {
                        data_type: dt,
                        data_byte_size: size as u32,
                        padding_byte_size: (4 - size) as u32,
                    },
                    4,
                ),
            ),
        }
    } else {
        match DataType::from_u32(w as u32) {
            None => Err(ParseErrorKind::UnknownDataType),
            Some(dt) => {
                if i.len() < 8 {
                    return Err(ParseErrorKind::Truncated);
                }
                let size = read_uint(i, 4, 4, e);
                proof {
                    lemma_uint_bound(i@.subrange(4, 8), e);
                }
                Ok(
                    (
                        DataElementTag {
                            data_type: dt,
                            data_byte_size: size as u32,
                            padding_byte_size: padding8(size as u32),
                        },
                        8,
                    ),
                )
            },
        }
    }
}

/// Reads the tag at the start of `s` and locates its payload.
pub fn parse_frame(s: &[u8], e: Endianness) -> (r: Result<Frame, ParseErrorKind>)
    ensures
        r == spec_frame(s@, e),
        r matches Ok(f) ==> f.start + f.len <= f.next <= s@.len() && 4 <= f.next,
{
    reveal(spec_frame);
    let (t, h) = parse_data_element_tag(s, e)?;
    let end: u64 = h as u64 + t.data_byte_size as u64;
    if (s.len() as u64) < end {
        return Err(ParseErrorKind::Truncated);
    }
    let next: u64 = if (s.len() as u64) < end + t.padding_byte_size as u64 {
        s.len() as u64
    } else {
        end + t.padding_byte_size as u64
    };
    Ok(
        Frame {
            data_type: t.data_type,
            small: h == 4,
            start: h,
            len: t.data_byte_size as usize,
            next: next as usize,
        },
    )
}

/// The tag of a data element of type `dt` with a payload of `data_byte_size` bytes, and the
/// number of zero bytes that follow the payload.
pub fn write_data_element_tag(data_type: DataType, data_byte_size: u32, e: Endianness) -> (r: (
    Vec<u8>,
    u32,
))
    ensures
        r.0@ == tag_bytes(data_type, data_byte_size as nat, e),
        r.1 == padding_after(data_type, data_byte_size as nat),
{
    let n = data_byte_size;
    let packable = !(matches!(data_type, DataType::Matrix) || matches!(data_type, DataType::Compressed));
    let code = data_type.to_u32();
    let mut out: Vec<u8> = Vec::new();
    if n < 4 && packable {
        write_uint(&mut out, code as u64 + (n as u64) * 0x1_0000, 4, e);
        assert(out@ =~= tag_bytes(data_type, n as nat, e));
        (out, 4 - n)
    } else {
        write_uint(&mut out, code as u64, 4, e);
        write_uint(&mut out, n as u64, 4, e);
        assert(out@ =~= tag_bytes(data_type, n as nat, e));
        (out, padding8(n))
    }
}

/// Appends a data element of type `dt` carrying `p` to `out`.
pub fn write_element(out: &mut Vec<u8>, dt: DataType, p: &[u8], e: Endianness)
    requires
        p@.len() < 0x1_0000_0000,
    ensures
        final(out)@ == old(out)@ + element_bytes(dt, p@, e),
{
    let ghost o = out@;
    let (tag, pad) = write_data_element_tag(dt, p.len() as u32, e);
    append_bytes(out, tag.as_slice());
    append_bytes(out, p);
    write_zeros(out, pad as usize);
    assert(out@ =~= o + element_bytes(dt, p@, e));
}

proof fn lemma_zero_bytes(e: Endianness)
    ensures
        bytes_of(0, 4, e) == zeros(4),
{
    reveal_with_fuel(crate::primitive::bytes_le, 5);
    reveal_with_fuel(crate::primitive::bytes_be, 5);
    assert(bytes_of(0, 4, e) =~= zeros(4));
}

/// A payload written by `write_element` is read back by `parse_frame`, and what follows
/// it is left in place.
pub proof fn lemma_frame_round_trip(dt: DataType, p: Seq<u8>, rest: Seq<u8>, e: Endianness)
    requires
        p.len() < 0x1_0000_0000,
        element_bytes(dt, p, e).len() + rest.len() <= usize::MAX,
    ensures
        ({
            let s = element_bytes(dt, p, e) + rest;
            &&& spec_frame(s, e) matches Ok(f)
            &&& f.data_type == dt
            &&& f.len == p.len()
            &&& f.next == element_bytes(dt, p, e).len()
            &&& payload_of(s, f) == p
            &&& s.subrange(f.next as int, s.len() as int) == rest
        }),
{
    reveal(spec_frame);
    lemma_pow256_values();
    let s = element_bytes(dt, p, e) + rest;
    let n = p.len();
    if uses_small_form(dt, n) && n > 0 {
        let w = (dt.code() + n * 0x1_0000) as nat;
        lemma_bytes_len(w, 4, e);
        lemma_uint_of_bytes(w, 4, e);
        assert(s.subrange(0, 4) =~= bytes_of(w, 4, e));
        assert(w / 0x1_0000 == n);
        assert(w % 0x1_0000 == dt.code());
        let f = spec_frame(s, e)->Ok_0;
        assert(payload_of(s, f) =~= p);
        assert(s.subrange(8, s.len() as int) =~= rest);
    } else if uses_small_form(dt, n) {
        lemma_bytes_len(dt.code() as nat, 4, e);
        lemma_uint_of_bytes(dt.code() as nat, 4, e);
        lemma_zero_bytes(e);
        lemma_uint_of_bytes(0, 4, e);
        assert(s.subrange(0, 4) =~= bytes_of(dt.code() as nat, 4, e));
        assert(s.subrange(4, 8) =~= zeros(4));
        let f = spec_frame(s, e)->Ok_0;
        assert(payload_of(s, f) =~= p);
        assert(s.subrange(8, s.len() as int) =~= rest);
    } else {
        lemma_bytes_len(dt.code() as nat, 4, e);
        lemma_bytes_len(n, 4, e);
        lemma_uint_of_bytes(dt.code() as nat, 4, e);
        lemma_uint_of_bytes(n, 4, e);
        assert(s.subrange(0, 4) =~= bytes_of(dt.code() as nat, 4, e));
        assert(s.subrange(4, 8) =~= bytes_of(n, 4, e));
        let f = spec_frame(s, e)->Ok_0;
        assert(payload_of(s, f) =~= p);
        assert(s.subrange(f.next as int, s.len() as int) =~= rest);
    }
}

impl DataType {
    /// Zero bytes after a payload of `num_bytes` bytes under a small (`packed`) or long tag,
    /// so that the element ends on a multiple of eight.
    pub fn get_padding(&self, num_bytes: u32, packed: bool) -> (r: u32)
        ensures
            r == pad8((if packed { 4nat } else { 8nat }) + num_bytes as nat),
    {
        let tag_size: u64 = if packed { 4 } else { 8 };
        let padding = (tag_size + num_bytes as u64) % 8;
        if padding == 0 {
            0
        } else {
            (8 - padding) as u32
        }
    }

    /// Bytes taken by `num_elements` elements.
    pub fn get_numbytes(&self, num_elements: u32) -> (r: u32)
        requires
            self.width() * num_elements <= u32::MAX,
        ensures
            r == self.width() * num_elements,
    {
        self.byte_size() * num_elements
    }

    /// Whether a payload of `num_bytes` bytes is written with a small-form tag.
    pub fn is_packable(&self, num_bytes: u32) -> (r: bool)
        ensures
            r == uses_small_form(*self, num_bytes as nat),
    {
        num_bytes < 4 && !(matches!(self, DataType::Matrix) || matches!(
            self,
            DataType::Compressed,
        ))
    }

    /// Bytes taken by a whole element of `num_elements` elements: tag, payload and padding.
    pub fn computer_array_size(&self, num_elements: u32) -> (r: u32)
        requires
            self.width() * num_elements + 16 <= u32::MAX,
        ensures
            r == tag_bytes(*self, (self.width() * num_elements) as nat, Endianness::Little).len()
                + self.width() * num_elements + padding_after(
                *self,
                (self.width() * num_elements) as nat,
            ),
    {
        let num_bytes = self.get_numbytes(num_elements);
        proof {
            lemma_bytes_len((self.code() + num_bytes * 0x1_0000) as nat, 4, Endianness::Little);
            lemma_bytes_len(self.code() as nat, 4, Endianness::Little);
            lemma_bytes_len(num_bytes as nat, 4, Endianness::Little);
        }
        if self.is_packable(num_bytes) {
            4 + num_bytes + (4 - num_bytes)
        } else {
            8 + num_bytes + padding8(num_bytes)
        }
    }
}

/// Bytes of the numbers in `v`, each in `w` bytes.
pub open spec fn encode_elems(v: Seq<u64>, w: nat, e: Endianness) -> Seq<u8>
    decreases v.len(),
{
    if v.len() == 0 {
        Seq::empty()
    } else {
        encode_elems(v.drop_last(), w, e) + bytes_of(v.last() as nat, w, e)
    }
}

/// The numbers held in `p`, `w` bytes each; a partial last number is ignored.
pub open spec fn decode_elems(p: Seq<u8>, w: nat, e: Endianness) -> Seq<u64> {
    Seq::new(p.len() / w, |i: int| uint_of(p.subrange(i * w, i * w + w), e) as u64)
}

proof fn lemma_encode_elems(v: Seq<u64>, w: nat, e: Endianness, i: int)
    requires
        0 <= i < v.len(),
        w > 0,
    ensures
        encode_elems(v, w, e).len() == v.len() * w,
        i * w + w <= v.len() * w,
        encode_elems(v, w, e).subrange(i * w, i * w + w) == bytes_of(v[i] as nat, w, e),
    decreases v.len(),
{
    let u = v.drop_last();
    lemma_bytes_len(v.last() as nat, w, e);
    lemma_encode_len(v, w, e);
    lemma_encode_len(u, w, e);
    assert(i * w + w <= v.len() * w) by (nonlinear_arith)
        requires
            0 <= i < v.len(),
            w > 0,
    ;
    if i < v.len() - 1 {
        lemma_encode_elems(u, w, e, i);
        assert(encode_elems(v, w, e).subrange(i * w, i * w + w) =~= encode_elems(u, w, e).subrange(
            i * w,
            i * w + w,
        ));
    } else {
        assert(i * w == u.len() * w);
        assert(encode_elems(v, w, e).subrange(i * w, i * w + w) =~= bytes_of(v[i] as nat, w, e));
    }
}

/// Each number takes `w` bytes.
pub proof fn lemma_encode_len(v: Seq<u64>, w: nat, e: Endianness)
    ensures
        encode_elems(v, w, e).len() == v.len() * w,
    decreases v.len(),
{
    if v.len() > 0 {
        lemma_encode_len(v.drop_last(), w, e);
        lemma_bytes_len(v.last() as nat, w, e);
        assert(v.len() * w == (v.len() - 1) * w + w) by (nonlinear_arith);
    }
}

/// Numbers written by `encode_elems` are read back by `decode_elems`.
pub proof fn lemma_elems_round_trip(v: Seq<u64>, w: nat, e: Endianness)
    requires
        w > 0,
        forall|i: int| 0 <= i < v.len() ==> v[i] < pow256(w),
    ensures
        decode_elems(encode_elems(v, w, e), w, e) == v,
{
    let b = encode_elems(v, w, e);
    lemma_encode_len(v, w, e);
    assert(b.len() / w == v.len()) by (nonlinear_arith)
        requires
            b.len() == v.len() * w,
            w > 0,
    ;
    assert forall|i: int| 0 <= i < v.len() implies #[trigger] decode_elems(b, w, e)[i] == v[i] by {
        lemma_encode_elems(v, w, e, i);
        lemma_uint_of_bytes(v[i] as nat, w, e);
    }
    assert(decode_elems(b, w, e) =~= v);
}

/// Reads the numbers of `len` bytes at `start`, `w` bytes each.
pub fn read_elems(s: &[u8], start: usize, len: usize, w: usize, e: Endianness) -> (r: Vec<u64>)
    requires
        start + len <= s@.len(),
        1 <= w <= 8,
    ensures
        r@ == decode_elems(s@.subrange(start as int, start + len), w as nat, e),
        forall|i: int| 0 <= i < r@.len() ==> r@[i] < pow256(w as nat),
{
    let ghost p = s@.subrange(start as int, start + len);
    let count = len / w;
    let slen = s.len();
    let mut r: Vec<u64> = Vec::new();
    let mut i: usize = 0;
    while i < count
        invariant
            start + len <= s@.len(),
            slen == s@.len(),
            1 <= w <= 8,
            count == len / w,
            i <= count,
            p == s@.subrange(start as int, start + len),
            r@ =~= decode_elems(p, w as nat, e).subrange(0, i as int),
            forall|k: int| 0 <= k < r@.len() ==> r@[k] < pow256(w as nat),
        decreases count - i,
    {
        assert(i * w + w <= len) by (nonlinear_arith)
            requires
                i < count,
                count == len / w,
                w >= 1,
        ;
        let x = read_uint(s, start + i * w, w, e);
        proof {
            assert(s@.subrange(start + i * w, start + i * w + w) =~= p.subrange(i * w, i * w + w));
            lemma_uint_bound(p.subrange(i * w, i * w + w), e);
            assert(p.subrange(i * w, i * w + w).len() == w);
        }
        r.push(x);
        i = i + 1;
        assert(r@ =~= decode_elems(p, w as nat, e).subrange(0, i as int));
    }
    assert(decode_elems(p, w as nat, e).subrange(0, i as int) =~= decode_elems(p, w as nat, e));
    r
}

/// Appends the numbers of `v` to `out`, `w` bytes each.
pub fn write_elems(out: &mut Vec<u8>, v: &Vec<u64>, w: usize, e: Endianness)
    requires
        w <= 8,
    ensures
        final(out)@ == old(out)@ + encode_elems(v@, w as nat, e),
{
    let mut i: usize = 0;
    while i < v.len()
        invariant
            w <= 8,
            i <= v@.len(),
            out@ == old(out)@ + encode_elems(v@.subrange(0, i as int), w as nat, e),
        decreases v@.len() - i,
    {
        let ghost before = out@;
        write_uint(out, v[i], w, e);
        proof {
            let t = v@.subrange(0, i + 1);
            assert(t.drop_last() =~= v@.subrange(0, i as int));
            assert(out@ =~= old(out)@ + encode_elems(t, w as nat, e));
        }
        i = i + 1;
    }
    assert(v@.subrange(0, i as int) =~= v@);
}

} // verus!
