//! Properties that relate the reader and the writer.
use vstd::prelude::*;
use vstd::utf8::{
    decode_utf8, decode_utf8_encode_utf8, encode_utf8, encode_utf8_decode_utf8,
    encode_utf8_valid_utf8, pop_first_scalar, valid_utf8, valid_utf8_concat,
};
use crate::codec::{
    element_bytes, encode_elems, lemma_elems_round_trip, lemma_frame_round_trip, payload_of,
    spec_frame, uses_small_form,
};
use crate::convert::{coerced_bits, coerced_seq, permitted, value_of};
use crate::matrix::{
    dims_ok, dims_product, spec_assemble, spec_dims, spec_flags, spec_imag, spec_matrix, spec_name,
    spec_part, ElementModel, MatrixModel,
};
use crate::header::{
    fit116, header_bytes, is_blank, marker_bytes, platform_text, spec_header, trim_end,
};
use crate::model::{size_product, utf8_bytes, Array, Header};
use crate::reader::{convertible, matrices, spec_element, spec_elements, spec_inner_element};
use crate::zlib::zlib_inflated;
use crate::numeric::{bits_seq, fits, Element, NumericData};
use crate::primitive::{
    bytes_of, lemma_bytes_len, lemma_pow256_values, lemma_uint_of_bytes, pow256, Endianness,
};
use crate::types::{ArrayFlags, DataType, MatlabType};
use crate::writer::{
    body_bytes, compressed_element, compressible, dims_bits, inflates_back, flags_payload,
    zlib_stream, lemma_payload_parts, matrix_element, matrix_payload, name_limit, part_bytes,
    writable,
};

verus! {

/// Every element written is aligned: a small-form element takes exactly eight bytes, and a
/// long-form element, compressed ones included, ends on a multiple of eight.
pub proof fn lemma_element_alignment(dt: DataType, p: Seq<u8>, e: Endianness)
    requires
        p.len() < 0x1_0000_0000,
    ensures
        uses_small_form(dt, p.len()) ==> element_bytes(dt, p, e).len() == 8,
        element_bytes(dt, p, e).len() % 8 == 0,
{
    lemma_bytes_len((dt.code() + p.len() * 0x1_0000) as nat, 4, e);
    lemma_bytes_len(dt.code() as nat, 4, e);
    lemma_bytes_len(p.len(), 4, e);
}

proof fn lemma_bits_seq_fits<T: Element>(v: Seq<T>)
    ensures
        fits(bits_seq(v), T::size()),
{
    assert forall|i: int| 0 <= i < bits_seq(v).len() implies bits_seq(v)[i] < pow256(T::size()) by {
        v[i].lemma_bits_bound();
    }
}

proof fn lemma_opt_fits<T: Element>(v: Option<Vec<T>>)
    ensures
        v matches Some(x) ==> fits(bits_seq(x@), T::size()),
{
    if let Some(x) = v {
        lemma_bits_seq_fits(x@);
    }
}

/// Stored numbers always fit their element type.
pub proof fn lemma_data_fits(d: NumericData)
    ensures
        fits(d.real_bits(), d.data_type().width()),
        d.imag_bits() matches Some(im) ==> fits(im, d.data_type().width()),
{
    match d {
        NumericData::Int8 { real: x, imag: y } => {
            lemma_bits_seq_fits(x@);
            lemma_opt_fits(y);
        },
        NumericData::UInt8 { real: x, imag: y } => {
            lemma_bits_seq_fits(x@);
            lemma_opt_fits(y);
        },
        NumericData::Int16 { real: x, imag: y } => {
            lemma_bits_seq_fits(x@);
            lemma_opt_fits(y);
        },
        NumericData::UInt16 { real: x, imag: y } => {
            lemma_bits_seq_fits(x@);
            lemma_opt_fits(y);
        },
        NumericData::Int32 { real: x, imag: y } => {
            lemma_bits_seq_fits(x@);
            lemma_opt_fits(y);
        },
        NumericData::UInt32 { real: x, imag: y } => {
            lemma_bits_seq_fits(x@);
            lemma_opt_fits(y);
        },
        NumericData::Int64 { real: x, imag: y } => {
            lemma_bits_seq_fits(x@);
            lemma_opt_fits(y);
        },
        NumericData::UInt64 { real: x, imag: y } => {
            lemma_bits_seq_fits(x@);
            lemma_opt_fits(y);
        },
        NumericData::Single { real: x, imag: y } => {
            lemma_bits_seq_fits(x@);
            lemma_opt_fits(y);
        },
        NumericData::Double { real: x, imag: y } => {
            lemma_bits_seq_fits(x@);
            lemma_opt_fits(y);
        },
    }
}

/// The dimensions as written.
pub open spec fn written_dims(size: Seq<usize>) -> Seq<i32> {
    Seq::new(size.len(), |i: int| dims_bits(size)[i] as u32 as i32)
}

/// What the reader makes of the matrix element written for `a`.
pub open spec fn model_of(a: Array) -> MatrixModel {
    let dt = a.data.data_type();
    MatrixModel {
        flags: a.array_flags,
        dims: written_dims(a.size@),
        name: name_limit(utf8_bytes(a.name)),
        real: (dt, a.data.real_bits()),
        imag: match a.data.imag_bits() {
            Some(im) => Some((dt, im)),
            None => None,
        },
    }
}

proof fn lemma_written_dims(size: Seq<usize>)
    requires
        forall|i: int| 0 <= i < size.len() ==> size[i] <= 0x7fff_ffff,
    ensures
        forall|i: int| 0 <= i < size.len() ==> #[trigger] written_dims(size)[i] == size[i] as int,
        dims_product(written_dims(size)) == size_product(size),
    decreases size.len(),
{
    assert forall|i: int| 0 <= i < size.len() implies #[trigger] written_dims(size)[i]
        == size[i] as int by {
        let x = size[i];
        assert(x <= 0x7fff_ffff ==> (x as u64 as u32 as i32) as int == x as int) by (bit_vector);
    }
    if size.len() > 0 {
        let u = size.drop_last();
        lemma_written_dims(u);
        assert(written_dims(size).drop_last() =~= written_dims(u));
    }
}

proof fn lemma_word(fl: ArrayFlags)
    ensures
        fl.word() % 256 == fl.class.code(),
        ArrayFlags::from_word(fl.word(), fl.class, fl.nzmax) == fl,
{
    let c = fl.class.code();
    assert(1 <= c <= 17);
    let k: u32 = ((if fl.complex { 0x0800u32 } else { 0 }) + (if fl.global { 0x0400u32 } else { 0 })
        + (if fl.logical { 0x0200u32 } else { 0 })) as u32;
    assert(fl.word() == k + c);
    assert((k + c) % 256 == c);
    assert(((k + c) / 0x0800) % 2 == 1 <==> fl.complex);
    assert(((k + c) / 0x0400) % 2 == 1 <==> fl.global);
    assert(((k + c) / 0x0200) % 2 == 1 <==> fl.logical);
}

#[verifier::spinoff_prover]
proof fn lemma_flags_round_trip(fl: ArrayFlags, rest: Seq<u8>, e: Endianness)
    requires
        element_bytes(DataType::UInt32, flags_payload(fl, e), e).len() + rest.len() <= usize::MAX,
    ensures
        spec_flags(element_bytes(DataType::UInt32, flags_payload(fl, e), e) + rest, e) == Ok::<
            _,
            crate::types::ParseErrorKind,
        >((fl, element_bytes(DataType::UInt32, flags_payload(fl, e), e).len())),
{
    lemma_pow256_values();
    let q = flags_payload(fl, e);
    let s = element_bytes(DataType::UInt32, q, e) + rest;
    lemma_bytes_len(fl.word() as nat, 4, e);
    lemma_bytes_len(fl.nzmax as nat, 4, e);
    lemma_frame_round_trip(DataType::UInt32, q, rest, e);
    let f = spec_frame(s, e)->Ok_0;
    assert(payload_of(s, f) == q);
    lemma_uint_of_bytes(fl.word() as nat, 4, e);
    lemma_uint_of_bytes(fl.nzmax as nat, 4, e);
    assert(q.subrange(0, 4) =~= bytes_of(fl.word() as nat, 4, e));
    assert(q.subrange(4, 8) =~= bytes_of(fl.nzmax as nat, 4, e));
    lemma_word(fl);
}

proof fn lemma_part_round_trip(dt: DataType, bits: Seq<u64>, rest: Seq<u8>, e: Endianness)
    requires
        dt.is_numeric(),
        fits(bits, dt.width()),
        encode_elems(bits, dt.width(), e).len() < 0x1_0000_0000,
        part_bytes(dt, bits, e).len() + rest.len() <= usize::MAX,
    ensures
        spec_part(part_bytes(dt, bits, e) + rest, e) == Ok::<_, crate::types::ParseErrorKind>(
            ((dt, bits), part_bytes(dt, bits, e).len()),
        ),
{
    let q = encode_elems(bits, dt.width(), e);
    lemma_frame_round_trip(dt, q, rest, e);
    lemma_elems_round_trip(bits, dt.width(), e);
}

#[verifier::spinoff_prover]
proof fn lemma_dims_round_trip(size: Seq<usize>, rest: Seq<u8>, e: Endianness)
    requires
        forall|i: int| 0 <= i < size.len() ==> size[i] <= 0x7fff_ffff,
        encode_elems(dims_bits(size), 4, e).len() < 0x1_0000_0000,
        element_bytes(DataType::Int32, encode_elems(dims_bits(size), 4, e), e).len() + rest.len()
            <= usize::MAX,
    ensures
        spec_dims(element_bytes(DataType::Int32, encode_elems(dims_bits(size), 4, e), e) + rest, e)
            == Ok::<_, crate::types::ParseErrorKind>(
            (
                written_dims(size),
                element_bytes(DataType::Int32, encode_elems(dims_bits(size), 4, e), e).len(),
            ),
        ),
{
    lemma_pow256_values();
    let dq = encode_elems(dims_bits(size), 4, e);
    let s = element_bytes(DataType::Int32, dq, e) + rest;
    lemma_frame_round_trip(DataType::Int32, dq, rest, e);
    assert forall|i: int| 0 <= i < dims_bits(size).len() implies dims_bits(size)[i] < pow256(4) by {}
    lemma_elems_round_trip(dims_bits(size), 4, e);
    let f = spec_frame(s, e)->Ok_0;
    assert(payload_of(s, f) == dq);
    assert(Seq::new(dims_bits(size).len(), |i: int| dims_bits(size)[i] as u32 as i32)
        =~= written_dims(size));
}

proof fn lemma_name_round_trip(nq: Seq<u8>, rest: Seq<u8>, e: Endianness)
    requires
        nq.len() < 0x1_0000_0000,
        element_bytes(DataType::Int8, nq, e).len() + rest.len() <= usize::MAX,
    ensures
        spec_name(element_bytes(DataType::Int8, nq, e) + rest, e) == Ok::<
            _,
            crate::types::ParseErrorKind,
        >((nq, element_bytes(DataType::Int8, nq, e).len())),
{
    lemma_frame_round_trip(DataType::Int8, nq, rest, e);
}

proof fn lemma_matrix_unfold(
    p: Seq<u8>,
    e: Endianness,
    fl: ArrayFlags,
    n1: nat,
    d: Seq<i32>,
    n2: nat,
    nm: Seq<u8>,
    n3: nat,
    re: (DataType, Seq<u64>),
    n4: nat,
    im: Option<(DataType, Seq<u64>)>,
)
    requires
        spec_flags(p, e) == Ok::<_, crate::types::ParseErrorKind>((fl, n1)),
        fl.class.is_numeric(),
        spec_dims(p.skip(n1 as int), e) == Ok::<_, crate::types::ParseErrorKind>((d, n2)),
        spec_name(p.skip(n1 as int).skip(n2 as int), e) == Ok::<_, crate::types::ParseErrorKind>(
            (nm, n3),
        ),
        spec_part(p.skip(n1 as int).skip(n2 as int).skip(n3 as int), e) == Ok::<
            _,
            crate::types::ParseErrorKind,
        >((re, n4)),
        spec_imag(
            p.skip(n1 as int).skip(n2 as int).skip(n3 as int).skip(n4 as int),
            e,
            fl.complex,
        ) == Ok::<_, crate::types::ParseErrorKind>(im),
    ensures
        spec_matrix(p, e) == spec_assemble(fl, d, nm, re, im),
{
    reveal(spec_matrix);
}

proof fn lemma_skip_concat(x: Seq<u8>, y: Seq<u8>)
    ensures
        (x + y).skip(x.len() as int) == y,
{
    assert((x + y).skip(x.len() as int) =~= y);
}

/// A matrix element written for a well-formed array is read back as that array: its flags,
/// dimensions, numbers and its name, cut to 63 bytes.
#[verifier::spinoff_prover]
#[verifier::rlimit(100)]
pub proof fn lemma_matrix_round_trip(a: Array, e: Endianness)
    requires
        a.wf(),
        writable(a, e),
        valid_utf8(name_limit(utf8_bytes(a.name))),
        matrix_payload(a, e).len() <= usize::MAX,
    ensures
        spec_matrix(matrix_payload(a, e), e) == Ok::<_, crate::types::ParseErrorKind>(
            ElementModel::Matrix(model_of(a)),
        ),
{
    let dt = a.data.data_type();
    let b1 = element_bytes(DataType::UInt32, flags_payload(a.array_flags, e), e);
    let dq = encode_elems(dims_bits(a.size@), 4, e);
    let b2 = element_bytes(DataType::Int32, dq, e);
    let nq = name_limit(utf8_bytes(a.name));
    let b3 = element_bytes(DataType::Int8, nq, e);
    let b4 = part_bytes(dt, a.data.real_bits(), e);
    let b5 = match a.data.imag_bits() {
        Some(im) => part_bytes(dt, im, e),
        None => Seq::<u8>::empty(),
    };
    let p = matrix_payload(a, e);
    let im_model = match a.data.imag_bits() {
        Some(im) => Some((dt, im)),
        None => None,
    };
    lemma_payload_parts(a, e);
    lemma_data_fits(a.data);
    let p2 = p.skip(b1.len() as int);
    let p3 = p2.skip(b2.len() as int);
    let p4 = p3.skip(b3.len() as int);
    let p5 = p4.skip(b4.len() as int);
    assert(spec_flags(p, e) == Ok::<_, crate::types::ParseErrorKind>((a.array_flags, b1.len())))
        by {
        lemma_flags_round_trip(a.array_flags, b2 + (b3 + (b4 + b5)), e);
    }
    assert(spec_dims(p2, e) == Ok::<_, crate::types::ParseErrorKind>(
        (written_dims(a.size@), b2.len()),
    )) by {
        lemma_skip_concat(b1, b2 + (b3 + (b4 + b5)));
        lemma_dims_round_trip(a.size@, b3 + (b4 + b5), e);
    }
    assert(spec_name(p3, e) == Ok::<_, crate::types::ParseErrorKind>((nq, b3.len()))) by {
        lemma_skip_concat(b1, b2 + (b3 + (b4 + b5)));
        lemma_skip_concat(b2, b3 + (b4 + b5));
        lemma_name_round_trip(nq, b4 + b5, e);
    }
    assert(spec_part(p4, e) == Ok::<_, crate::types::ParseErrorKind>(
        ((dt, a.data.real_bits()), b4.len()),
    )) by {
        lemma_skip_concat(b1, b2 + (b3 + (b4 + b5)));
        lemma_skip_concat(b2, b3 + (b4 + b5));
        lemma_skip_concat(b3, b4 + b5);
        lemma_part_round_trip(dt, a.data.real_bits(), b5, e);
    }
    assert(spec_imag(p5, e, a.array_flags.complex) == Ok::<_, crate::types::ParseErrorKind>(
        im_model,
    )) by {
        lemma_skip_concat(b1, b2 + (b3 + (b4 + b5)));
        lemma_skip_concat(b2, b3 + (b4 + b5));
        lemma_skip_concat(b3, b4 + b5);
        lemma_skip_concat(b4, b5);
        match a.data.imag_bits() {
            Some(im) => {
                lemma_part_round_trip(dt, im, Seq::empty(), e);
                assert(b5 + Seq::<u8>::empty() =~= b5);
            },
            None => {},
        }
    }
    lemma_matrix_unfold(
        p,
        e,
        a.array_flags,
        b1.len(),
        written_dims(a.size@),
        b2.len(),
        nq,
        b3.len(),
        (dt, a.data.real_bits()),
        b4.len(),
        im_model,
    );
    assert(spec_assemble(a.array_flags, written_dims(a.size@), nq, (dt, a.data.real_bits()), im_model)
        == Ok::<_, crate::types::ParseErrorKind>(ElementModel::Matrix(model_of(a)))) by {
        lemma_written_dims(a.size@);
        assert(dims_ok(written_dims(a.size@), a.data.real_bits().len()));
    }
}

/// An array read back from the matrix element written for `a` equals `a`; a name longer than
/// 63 bytes comes back as its first 63 bytes.
pub proof fn lemma_array_round_trip(a: Array, b: Array)
    requires
        a.wf(),
        forall|i: int| 0 <= i < a.size@.len() ==> a.size@[i] <= 0x7fff_ffff,
        crate::reader::array_of(b, model_of(a)),
    ensures
        b.array_flags == a.array_flags,
        b.size@ == a.size@,
        b.data.data_type() == a.data.data_type(),
        b.data.real_bits() == a.data.real_bits(),
        b.data.imag_bits() == a.data.imag_bits(),
        utf8_bytes(a.name).len() <= 63 ==> b.name@ == a.name@,
        b.name@ == decode_utf8(name_limit(utf8_bytes(a.name))),
{
    let dt = a.data.data_type();
    let class = a.array_flags.class;
    lemma_written_dims(a.size@);
    assert forall|i: int| 0 <= i < a.size@.len() implies #[trigger] b.size@[i] == a.size@[i] by {
        let x = a.size@[i];
        assert(x <= 0x7fff_ffff ==> ((x as u64 as u32 as i32) as usize) == x) by (bit_vector);
    }
    assert(b.size@ =~= a.size@);
    assert(coerced_seq(dt, class, a.data.real_bits()) =~= a.data.real_bits());
    if let Some(im) = a.data.imag_bits() {
        assert(coerced_seq(dt, class, im) =~= im);
    }
    encode_utf8_decode_utf8(a.name@);
}

/// The matrix read from an array's element does not depend on the byte order it was
/// written in.
pub proof fn lemma_endianness_independence(a: Array)
    requires
        a.wf(),
        writable(a, Endianness::Little),
        writable(a, Endianness::Big),
        valid_utf8(name_limit(utf8_bytes(a.name))),
        matrix_payload(a, Endianness::Little).len() <= usize::MAX,
        matrix_payload(a, Endianness::Big).len() <= usize::MAX,
    ensures
        spec_matrix(matrix_payload(a, Endianness::Little), Endianness::Little) == spec_matrix(
            matrix_payload(a, Endianness::Big),
            Endianness::Big,
        ),
{
    lemma_matrix_round_trip(a, Endianness::Little);
    lemma_matrix_round_trip(a, Endianness::Big);
}

/// A compressed top-level element reads as the element its payload inflates to, and takes
/// exactly its own bytes.
pub proof fn lemma_compression_transparency(z: Seq<u8>, x: Seq<u8>, rest: Seq<u8>, e: Endianness)
    requires
        zlib_inflated(z) == Some(x),
        z.len() < 0x1_0000_0000,
        element_bytes(DataType::Compressed, z, e).len() + rest.len() <= usize::MAX,
    ensures
        spec_element(element_bytes(DataType::Compressed, z, e) + rest, e) == match spec_inner_element(
            x,
            e,
            crate::reader::COMPRESSION_NESTING as nat,
        ) {
            Ok(m) => Ok((m, element_bytes(DataType::Compressed, z, e).len())),
            Err(k) => Err(k),
        },
        spec_frame(x, e) matches Ok(f) && f.data_type is Matrix ==> spec_inner_element(x, e, crate::reader::COMPRESSION_NESTING as nat)
            == match spec_element(x, e) {
            Ok((m, _)) => Ok(m),
            Err(k) => Err::<ElementModel, _>(k),
        },
{
    reveal(spec_element);
    lemma_frame_round_trip(DataType::Compressed, z, rest, e);
}

/// The payload of a matrix element is a sequence of aligned sub-elements, so the element
/// itself ends on a multiple of eight.
#[verifier::spinoff_prover]
pub proof fn lemma_matrix_alignment(a: Array, e: Endianness, level: i8)
    requires
        writable(a, e),
    ensures
        matrix_payload(a, e).len() % 8 == 0,
        crate::writer::matrix_element(a, e).len() % 8 == 0,
        compressible(a, e, level) ==> compressed_element(a, e, level).len() % 8 == 0,
{
    if compressible(a, e, level) {
        lemma_element_alignment(DataType::Compressed, zlib_stream(matrix_element(a, e), level), e);
    }
    let dt = a.data.data_type();
    let q1 = flags_payload(a.array_flags, e);
    let q2 = encode_elems(dims_bits(a.size@), 4, e);
    let q3 = name_limit(utf8_bytes(a.name));
    let q4 = encode_elems(a.data.real_bits(), dt.width(), e);
    let b1 = element_bytes(DataType::UInt32, q1, e);
    let b2 = element_bytes(DataType::Int32, q2, e);
    let b3 = element_bytes(DataType::Int8, q3, e);
    let b4 = element_bytes(dt, q4, e);
    let b5 = match a.data.imag_bits() {
        Some(im) => part_bytes(dt, im, e),
        None => Seq::<u8>::empty(),
    };
    assert(b1.len() % 8 == 0) by {
        lemma_bytes_len(a.array_flags.word() as nat, 4, e);
        lemma_bytes_len(a.array_flags.nzmax as nat, 4, e);
        lemma_element_alignment(DataType::UInt32, q1, e);
    }
    assert(b2.len() % 8 == 0) by {
        lemma_element_alignment(DataType::Int32, q2, e);
    }
    assert(b3.len() % 8 == 0) by {
        lemma_element_alignment(DataType::Int8, q3, e);
    }
    assert(b4.len() % 8 == 0) by {
        lemma_element_alignment(dt, q4, e);
    }
    assert(b5.len() % 8 == 0) by {
        if let Some(im) = a.data.imag_bits() {
            lemma_element_alignment(dt, encode_elems(im, dt.width(), e), e);
        }
    }
    let p = matrix_payload(a, e);
    lemma_payload_parts(a, e);
    let (l1, l2, l3, l4, l5) = (b1.len() as int, b2.len() as int, b3.len() as int, b4.len() as int, b5.len() as int);
    assert((l1 + l2 + l3 + l4 + l5) % 8 == 0) by (nonlinear_arith)
        requires
            l1 % 8 == 0,
            l2 % 8 == 0,
            l3 % 8 == 0,
            l4 % 8 == 0,
            l5 % 8 == 0,
    ;
    assert(crate::writer::matrix_element(a, e).len() % 8 == 0) by {
        lemma_element_alignment(DataType::Matrix, p, e);
    }
}

/// Widening keeps the value: the number read into an integer class equals the stored one
/// whenever the class can hold it.
pub proof fn lemma_coercion_value(src: DataType, class: MatlabType, raw: u64)
    requires
        permitted(src, class),
        raw < pow256(src.width()),
    ensures
        !(class is Double) && !(class is Single) && (value_of(src, raw) >= 0 || class is Int16
            || class is Int32 || class is Int64) ==> value_of(
            class.natural_type()->Some_0,
            coerced_bits(src, class, raw),
        ) == value_of(src, raw),
{
    lemma_pow256_values();
    crate::primitive::lemma_pow256_mono(src.width(), 8);
    reveal_with_fuel(pow256, 9);
}

proof fn lemma_trim_keeps(b: Seq<u8>, j: int)
    requires
        0 <= j < b.len(),
        !is_blank(b[j]),
    ensures
        j < trim_end(b).len() <= b.len(),
        trim_end(b) == b.take(trim_end(b).len() as int),
    decreases b.len(),
{
    if is_blank(b.last()) {
        assert(j < b.len() - 1);
        lemma_trim_keeps(b.drop_last(), j);
        assert(b.drop_last().take(trim_end(b).len() as int) =~= b.take(trim_end(b).len() as int));
    } else {
        assert(b.take(b.len() as int) =~= b);
    }
}

proof fn lemma_platform_starts_with_comma()
    ensures
        platform_text().len() > 0,
        platform_text()[0] == 44,
{
    reveal_strlit(", Platform: PCWIN64, Created on: ");
    let c = ", Platform: PCWIN64, Created on: "@;
    assert(c[0] == ',');
    let v = c[0] as u32;
    assert(v == 44);
    assert((v & 0x7F) as u8 == 44u8) by (bit_vector)
        requires
            v == 44,
    ;
}

/// A header written in either byte order is read back with that byte order, its version
/// and subsystem offset, and a description that begins with the identifier it was written
/// with.
pub proof fn lemma_header_round_trip(h: Header, ts: Seq<u8>, rest: Seq<u8>)
    requires
        utf8_bytes(h.mat_identifier).len() < 116,
    ensures
        header_bytes(h, ts).len() == 128,
        spec_header(header_bytes(h, ts) + rest) matches Ok(hm) && hm.byte_order == h.byte_order
            && hm.version == h.version && hm.subsys_offset == h.subsys_offset
            && hm.description.len() > utf8_bytes(h.mat_identifier).len()
            && hm.description.take(utf8_bytes(h.mat_identifier).len() as int) == utf8_bytes(
            h.mat_identifier,
        ),
{
    lemma_pow256_values();
    let id = utf8_bytes(h.mat_identifier);
    let t = id + platform_text() + ts;
    let f = fit116(t);
    let e = h.byte_order;
    lemma_bytes_len(h.subsys_offset as nat, 8, e);
    lemma_bytes_len(h.version as nat, 2, Endianness::Big);
    let hb = header_bytes(h, ts);
    let s = hb + rest;
    assert(f.len() == 116);
    assert(s.take(116) =~= f);
    assert(s.subrange(116, 124) =~= bytes_of(h.subsys_offset as nat, 8, e));
    assert(s.subrange(124, 126) =~= crate::primitive::bytes_be(h.version as nat, 2));
    lemma_uint_of_bytes(h.subsys_offset as nat, 8, e);
    lemma_uint_of_bytes(h.version as nat, 2, Endianness::Big);
    assert(s[126] == marker_bytes(e)[0]);
    assert(s[127] == marker_bytes(e)[1]);
    lemma_platform_starts_with_comma();
    assert(f[id.len() as int] == 44);
    lemma_trim_keeps(f, id.len() as int);
    let d = trim_end(f);
    assert forall|i: int| 0 <= i < id.len() implies f[i] == id[i] by {
        assert(t[i] == id[i]);
    }
    assert(d.take(id.len() as int) =~= id);
}

proof fn lemma_body_first(arrays: Seq<Array>, e: Endianness, level: i8)
    requires
        arrays.len() > 0,
    ensures
        body_bytes(arrays, e, level) == compressed_element(arrays[0], e, level) + body_bytes(
            arrays.drop_first(),
            e,
            level,
        ),
    decreases arrays.len(),
{
    if arrays.len() == 1 {
        assert(arrays.drop_last() =~= Seq::<Array>::empty());
        assert(arrays.drop_first() =~= Seq::<Array>::empty());
        assert(body_bytes(Seq::<Array>::empty(), e, level) == Seq::<u8>::empty());
        assert(arrays.last() == arrays[0]);
        assert(body_bytes(arrays, e, level) =~= compressed_element(arrays[0], e, level) + Seq::<u8>::empty());
    } else {
        let u = arrays.drop_last();
        lemma_body_first(u, e, level);
        assert(u.drop_first() =~= arrays.drop_first().drop_last());
        assert(arrays.drop_first().last() == arrays.last());
        assert(body_bytes(arrays, e, level) =~= compressed_element(arrays[0], e, level) + body_bytes(
            arrays.drop_first(),
            e,
            level,
        ));
    }
}

proof fn lemma_matrices_prepend(m: MatrixModel, s: Seq<ElementModel>)
    ensures
        matrices(seq![ElementModel::Matrix(m)] + s) == seq![m] + matrices(s),
    decreases s.len(),
{
    let h = seq![ElementModel::Matrix(m)];
    if s.len() == 0 {
        assert(h + s =~= h);
        assert(h.drop_last() =~= Seq::<ElementModel>::empty());
        assert(matrices(Seq::<ElementModel>::empty()) == Seq::<MatrixModel>::empty());
        assert(matrices(h) == Seq::<MatrixModel>::empty().push(m));
        assert(seq![m] + matrices(s) =~= seq![m]);
    } else {
        lemma_matrices_prepend(m, s.drop_last());
        assert((h + s).drop_last() =~= h + s.drop_last());
        assert((h + s).last() == s.last());
        match s.last() {
            ElementModel::Matrix(x) => {
                assert(seq![m] + matrices(s.drop_last()).push(x) =~= (seq![m] + matrices(
                    s.drop_last(),
                )).push(x));
            },
            _ => {},
        }
    }
}

/// An array that the writer accepts and the reader can read back whole.
pub open spec fn round_trips(a: Array, e: Endianness, level: i8) -> bool {
    &&& a.wf()
    &&& compressible(a, e, level)
    &&& inflates_back(a, e, level)
    &&& valid_utf8(name_limit(utf8_bytes(a.name)))
    &&& matrix_element(a, e).len() <= usize::MAX
}

proof fn lemma_compressed_step(a: Array, rest: Seq<u8>, e: Endianness, level: i8)
    requires
        round_trips(a, e, level),
        compressed_element(a, e, level).len() + rest.len() <= usize::MAX,
    ensures
        spec_elements(compressed_element(a, e, level) + rest, e) == seq![ElementModel::Matrix(model_of(a))]
            + spec_elements(rest, e),
{
    let x = matrix_element(a, e);
    let z = zlib_stream(x, level);
    let ce = compressed_element(a, e, level);
    lemma_compression_transparency(z, x, rest, e);
    lemma_frame_round_trip(DataType::Matrix, matrix_payload(a, e), Seq::empty(), e);
    assert(x + Seq::<u8>::empty() =~= x);
    lemma_matrix_round_trip(a, e);
    assert(spec_inner_element(x, e, crate::reader::COMPRESSION_NESTING as nat) == Ok::<_, crate::types::ParseErrorKind>(
        ElementModel::Matrix(model_of(a)),
    ));
    assert(spec_element(ce + rest, e) == Ok::<_, crate::types::ParseErrorKind>(
        (ElementModel::Matrix(model_of(a)), ce.len()),
    ));
    crate::reader::lemma_elements_step(ce + rest, e);
    lemma_skip_concat(ce, rest);
}

proof fn lemma_body_elements(arrays: Seq<Array>, e: Endianness, level: i8)
    requires
        forall|i: int| 0 <= i < arrays.len() ==> round_trips(#[trigger] arrays[i], e, level),
        body_bytes(arrays, e, level).len() <= usize::MAX,
    ensures
        matrices(spec_elements(body_bytes(arrays, e, level), e)) == Seq::new(
            arrays.len(),
            |i: int| model_of(arrays[i]),
        ),
    decreases arrays.len(),
{
    if arrays.len() == 0 {
        crate::reader::lemma_elements_stop(body_bytes(arrays, e, level), e);
        assert(matrices(Seq::<ElementModel>::empty()) =~= Seq::<MatrixModel>::empty());
        assert(Seq::new(arrays.len(), |i: int| model_of(arrays[i])) =~= Seq::<MatrixModel>::empty());
    } else {
        let t = arrays.drop_first();
        lemma_body_first(arrays, e, level);
        assert forall|i: int| 0 <= i < t.len() implies round_trips(#[trigger] t[i], e, level) by {
            assert(t[i] == arrays[i + 1]);
        }
        lemma_body_elements(t, e, level);
        assert(round_trips(arrays[0], e, level));
        lemma_compressed_step(arrays[0], body_bytes(t, e, level), e, level);
        lemma_matrices_prepend(model_of(arrays[0]), spec_elements(body_bytes(t, e, level), e));
        assert(Seq::new(arrays.len(), |i: int| model_of(arrays[i])) =~= seq![model_of(arrays[0])]
            + Seq::new(t.len(), |i: int| model_of(t[i])));
    }
}

/// A file written for well-formed arrays is read back with the header's byte order and
/// version, and with one matrix per array, each the array's own. That each array can be
/// compressed and that its stream inflates back is what `write_body` promises when it
/// succeeds.
pub proof fn lemma_file_round_trip(h: Header, ts: Seq<u8>, arrays: Seq<Array>)
    requires
        utf8_bytes(h.mat_identifier).len() < 116,
        forall|i: int| 0 <= i < arrays.len() ==> round_trips(#[trigger] arrays[i], h.byte_order, h.deflate_level),
        header_bytes(h, ts).len() + body_bytes(arrays, h.byte_order, h.deflate_level).len() <= usize::MAX,
    ensures
        ({
            let file = header_bytes(h, ts) + body_bytes(arrays, h.byte_order, h.deflate_level);
            &&& spec_header(file) matches Ok(hm) && hm.byte_order == h.byte_order && hm.version
                == h.version
            &&& matrices(spec_elements(file.skip(128), h.byte_order)) == Seq::new(
                arrays.len(),
                |i: int| model_of(arrays[i]),
            )
            &&& forall|i: int|
                0 <= i < arrays.len() ==> convertible(#[trigger] model_of(arrays[i]))
        }),
{
    let e = h.byte_order;
    let level = h.deflate_level;
    let body = body_bytes(arrays, e, level);
    lemma_header_round_trip(h, ts, body);
    lemma_skip_concat(header_bytes(h, ts), body);
    lemma_body_elements(arrays, e, level);
}

proof fn lemma_ascii_valid(b: Seq<u8>)
    requires
        forall|i: int| 0 <= i < b.len() ==> b[i] < 128,
    ensures
        valid_utf8(b),
    decreases b.len(),
{
    if b.len() > 0 {
        let x = b[0];
        assert(x < 128 ==> ((x & 0x7F) as u32) <= 0x7f) by (bit_vector);
        let t = b.subrange(1, b.len() as int);
        lemma_ascii_valid(t);
        assert(pop_first_scalar(b) =~= t);
    }
}

proof fn lemma_trim_padded(t: Seq<u8>, n: nat)
    requires
        t.len() > 0,
        !is_blank(t.last()),
    ensures
        trim_end(t + Seq::new(n, |i: int| 32u8)) == t,
    decreases n,
{
    let f = t + Seq::new(n, |i: int| 32u8);
    if n == 0 {
        assert(f =~= t);
    } else {
        lemma_trim_padded(t, (n - 1) as nat);
        assert(f.drop_last() =~= t + Seq::new((n - 1) as nat, |i: int| 32u8));
    }
}

/// With a stamp of ASCII text that ends in a printable byte and a header text that fits in
/// 116 bytes, the description read back is exactly the identifier, the platform text and
/// the stamp, and it is valid UTF-8, so the description string holds the identifier as its
/// start.
pub proof fn lemma_header_description(h: Header, ts: Seq<u8>, rest: Seq<u8>)
    requires
        (utf8_bytes(h.mat_identifier) + platform_text() + ts).len() <= 116,
        ts.len() > 0,
        !is_blank(ts.last()),
        forall|i: int| 0 <= i < ts.len() ==> ts[i] < 128,
    ensures
        spec_header(header_bytes(h, ts) + rest) matches Ok(hm) && hm.description == utf8_bytes(
            h.mat_identifier,
        ) + platform_text() + ts && valid_utf8(hm.description) && encode_utf8(
            decode_utf8(hm.description),
        ) == hm.description,
{
    let id = utf8_bytes(h.mat_identifier);
    let t = id + platform_text() + ts;
    lemma_header_round_trip(h, ts, rest);
    let s = header_bytes(h, ts) + rest;
    assert(s.take(116) =~= fit116(t));
    assert(t.last() == ts.last());
    lemma_trim_padded(t, (116 - t.len()) as nat);
    encode_utf8_valid_utf8(h.mat_identifier@);
    encode_utf8_valid_utf8(", Platform: PCWIN64, Created on: "@);
    lemma_ascii_valid(ts);
    valid_utf8_concat(id, platform_text());
    valid_utf8_concat(id + platform_text(), ts);
    decode_utf8_encode_utf8(t);
}

/// A matrix element whose flags name a class that is neither numeric nor sparse (an opaque
/// object, a cell, a structure, ...) is read as unsupported and passed over whole, so the
/// elements after it are still read; nothing after its flags is looked at.
pub proof fn lemma_other_classes_are_skipped(s: Seq<u8>, e: Endianness, fl: ArrayFlags, n: nat)
    requires
        spec_frame(s, e) is Ok,
        spec_frame(s, e)->Ok_0.data_type is Matrix,
        spec_flags(payload_of(s, spec_frame(s, e)->Ok_0), e) == Ok::<
            _,
            crate::types::ParseErrorKind,
        >((fl, n)),
        !fl.class.is_numeric(),
        !(fl.class is Sparse),
    ensures
        spec_element(s, e) == Ok::<_, crate::types::ParseErrorKind>(
            (ElementModel::Unsupported, spec_frame(s, e)->Ok_0.next as nat),
        ),
{
    reveal(spec_element);
    reveal(spec_matrix);
}

} // verus!
