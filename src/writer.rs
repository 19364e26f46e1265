//! Encoding of arrays and headers.
use vstd::prelude::*;
use vstd::slice::slice_subrange;
use vstd::string::StringSliceAdditionalSpecFns;
use crate::codec::{element_bytes, encode_elems, write_element, write_elems};
use crate::error::MatError;
use crate::model::{utf8_bytes, Array, MatFile};
use crate::primitive::{append_bytes, bytes_of, write_uint, Endianness};
use crate::types::{ArrayFlags, DataType};
use crate::zlib::{deflate, deflate_stored, zlib_deflated, zlib_inflated, zlib_stored};

verus! {

/// Longest name, in bytes, that is written.
pub const NAME_LENGTH_MAX: usize = 63;

/// The first 63 bytes of a name.
pub open spec fn name_limit(b: Seq<u8>) -> Seq<u8> {
    if b.len() > 63 {
        b.take(63)
    } else {
        b
    }
}

pub open spec fn flags_payload(fl: ArrayFlags, e: Endianness) -> Seq<u8> {
    bytes_of(fl.word() as nat, 4, e) + bytes_of(fl.nzmax as nat, 4, e)
}

pub open spec fn dims_bits(size: Seq<usize>) -> Seq<u64> {
    Seq::new(size.len(), |i: int| size[i] as u64)
}

/// The sub-element holding the numbers `bits` of type `dt`.
pub open spec fn part_bytes(dt: DataType, bits: Seq<u64>, e: Endianness) -> Seq<u8> {
    element_bytes(dt, encode_elems(bits, dt.width(), e), e)
}

/// The payload of the matrix element for `a`.
#[verifier::opaque]
pub open spec fn matrix_payload(a: Array, e: Endianness) -> Seq<u8> {
    let dt = a.data.data_type();
    element_bytes(DataType::UInt32, flags_payload(a.array_flags, e), e) + element_bytes(
        DataType::Int32,
        encode_elems(dims_bits(a.size@), 4, e),
        e,
    ) + element_bytes(DataType::Int8, name_limit(utf8_bytes(a.name)), e) + part_bytes(
        dt,
        a.data.real_bits(),
        e,
    ) + match a.data.imag_bits() {
        Some(im) => part_bytes(dt, im, e),
        None => Seq::empty(),
    }
}

/// The payload split into its sub-elements.
pub proof fn lemma_payload_parts(a: Array, e: Endianness)
    ensures
        matrix_payload(a, e) == element_bytes(DataType::UInt32, flags_payload(a.array_flags, e), e)
            + (element_bytes(DataType::Int32, encode_elems(dims_bits(a.size@), 4, e), e) + (
        element_bytes(DataType::Int8, name_limit(utf8_bytes(a.name)), e) + (part_bytes(
            a.data.data_type(),
            a.data.real_bits(),
            e,
        ) + match a.data.imag_bits() {
            Some(im) => part_bytes(a.data.data_type(), im, e),
            None => Seq::empty(),
        }))),
{
    reveal(matrix_payload);
    assert(matrix_payload(a, e) =~= element_bytes(
        DataType::UInt32,
        flags_payload(a.array_flags, e),
        e,
    ) + (element_bytes(DataType::Int32, encode_elems(dims_bits(a.size@), 4, e), e) + (
    element_bytes(DataType::Int8, name_limit(utf8_bytes(a.name)), e) + (part_bytes(
        a.data.data_type(),
        a.data.real_bits(),
        e,
    ) + match a.data.imag_bits() {
        Some(im) => part_bytes(a.data.data_type(), im, e),
        None => Seq::empty(),
    }))));
}

/// The matrix element for `a`.
pub open spec fn matrix_element(a: Array, e: Endianness) -> Seq<u8> {
    element_bytes(DataType::Matrix, matrix_payload(a, e), e)
}

/// The compressed element that holds the matrix element for `a`.
pub open spec fn compressed_element(a: Array, e: Endianness, level: i8) -> Seq<u8> {
    element_bytes(DataType::Compressed, zlib_stream(matrix_element(a, e), level), e)
}

/// Whether `a` can be written: its class is numeric and matches its storage, it has an
/// imaginary part exactly when flagged complex, each dimension fits in an `i32`, and every
/// payload fits in a 32-bit length.
pub open spec fn writable(a: Array, e: Endianness) -> bool {
    let dt = a.data.data_type();
    &&& a.array_flags.class.natural_type() == Some(dt)
    &&& (a.array_flags.complex <==> a.data.imag_bits() is Some)
    &&& forall|i: int| 0 <= i < a.size@.len() ==> a.size@[i] <= 0x7fff_ffff
    &&& encode_elems(dims_bits(a.size@), 4, e).len() < 0x1_0000_0000
    &&& encode_elems(a.data.real_bits(), dt.width(), e).len() < 0x1_0000_0000
    &&& (a.data.imag_bits() matches Some(im) ==> encode_elems(im, dt.width(), e).len()
        < 0x1_0000_0000)
    &&& matrix_payload(a, e).len() < 0x1_0000_0000
}

/// The bytes of the body: the compressed elements of `arrays` in order.
pub open spec fn body_bytes(arrays: Seq<Array>, e: Endianness, level: i8) -> Seq<u8>
    decreases arrays.len(),
{
    if arrays.len() == 0 {
        Seq::empty()
    } else {
        body_bytes(arrays.drop_last(), e, level) + compressed_element(arrays.last(), e, level)
    }
}

/// Number of name bytes that are written.
pub fn get_limited_name_size(name: &str) -> (r: Result<usize, MatError>)
    ensures
        r matches Ok(n) && n == name_limit(name.spec_bytes()).len(),
{
    let len = name.as_bytes().len();
    if len > NAME_LENGTH_MAX {
        Ok(NAME_LENGTH_MAX)
    } else {
        Ok(len)
    }
}

fn params_error() -> (r: MatError)
    ensures
        r is ParamsError,
{
    MatError::ParamsError("the array cannot be written".to_owned())
}

/// Appends the flags sub-element.
pub fn write_array_flags_subelement(out: &mut Vec<u8>, array_flags: &ArrayFlags, e: Endianness)
    ensures
        final(out)@ == old(out)@ + element_bytes(DataType::UInt32, flags_payload(*array_flags, e), e),
{
    let mut p: Vec<u8> = Vec::new();
    write_uint(&mut p, array_flags.to_word() as u64, 4, e);
    write_uint(&mut p, array_flags.nzmax as u64, 4, e);
    proof {
        crate::primitive::lemma_bytes_len(array_flags.word() as nat, 4, e);
        crate::primitive::lemma_bytes_len(array_flags.nzmax as nat, 4, e);
    }
    assert(p@ =~= flags_payload(*array_flags, e));
    write_element(out, DataType::UInt32, p.as_slice(), e);
}

/// Appends the dimensions sub-element; fails when a dimension does not fit in an `i32` or
/// the payload is too long.
pub fn write_dimensions_array_subelement(out: &mut Vec<u8>, size: &Vec<usize>, e: Endianness) -> (r:
    Result<(), MatError>)
    ensures
        r is Ok <==> (forall|i: int| 0 <= i < size@.len() ==> size@[i] <= 0x7fff_ffff)
            && encode_elems(dims_bits(size@), 4, e).len() < 0x1_0000_0000,
        r is Ok ==> final(out)@ == old(out)@ + element_bytes(
            DataType::Int32,
            encode_elems(dims_bits(size@), 4, e),
            e,
        ),
        r matches Err(k) ==> k is ParamsError,
{
    let mut bits: Vec<u64> = Vec::new();
    let mut i: usize = 0;
    while i < size.len()
        invariant
            i <= size@.len(),
            bits@ =~= dims_bits(size@.subrange(0, i as int)),
            forall|k: int| 0 <= k < i ==> size@[k] <= 0x7fff_ffff,
        decreases size@.len() - i,
    {
        if size[i] > 0x7fff_ffff {
            return Err(params_error());
        }
        bits.push(size[i] as u64);
        i = i + 1;
        assert(bits@ =~= dims_bits(size@.subrange(0, i as int)));
    }
    assert(size@.subrange(0, i as int) =~= size@);
    let mut p: Vec<u8> = Vec::new();
    write_elems(&mut p, &bits, 4, e);
    assert(p@ =~= encode_elems(dims_bits(size@), 4, e));
    if p.len() as u64 >= 0x1_0000_0000 {
        return Err(params_error());
    }
    write_element(out, DataType::Int32, p.as_slice(), e);
    Ok(())
}

/// Appends the name sub-element, with at most 63 bytes of the name.
pub fn write_array_name_subelement(out: &mut Vec<u8>, name: &str, e: Endianness)
    ensures
        final(out)@ == old(out)@ + element_bytes(DataType::Int8, name_limit(name.spec_bytes()), e),
{
    let b = name.as_bytes();
    let n = match get_limited_name_size(name) {
        Ok(n) => n,
        Err(_) => 0,
    };
    let p = slice_subrange(b, 0, n);
    assert(p@ =~= name_limit(name.spec_bytes()));
    write_element(out, DataType::Int8, p, e);
}

/// Appends a numeric sub-element of type `dt` holding `bits`; fails when the payload is too
/// long.
pub fn write_numeric_subelement(out: &mut Vec<u8>, dt: DataType, bits: &Vec<u64>, e: Endianness) -> (r:
    Result<(), MatError>)
    ensures
        r is Ok <==> encode_elems(bits@, dt.width(), e).len() < 0x1_0000_0000,
        r is Ok ==> final(out)@ == old(out)@ + part_bytes(dt, bits@, e),
        r matches Err(k) ==> k is ParamsError,
{
    let w = dt.byte_size();
    let mut p: Vec<u8> = Vec::new();
    write_elems(&mut p, bits, w as usize, e);
    assert(p@ =~= encode_elems(bits@, dt.width(), e));
    if p.len() as u64 >= 0x1_0000_0000 {
        return Err(params_error());
    }
    write_element(out, dt, p.as_slice(), e);
    Ok(())
}

/// The matrix element for `array`.
pub fn write_matrix_data_element(array: &Array, e: Endianness) -> (r: Result<Vec<u8>, MatError>)
    ensures
        r is Ok <==> writable(*array, e),
        r matches Ok(b) ==> b@ == matrix_element(*array, e),
        r matches Err(k) ==> k is ParamsError,
{
    let dt = array.data.element_type();
    match array.array_flags.class.numeric_data_type() {
        Some(t) => {
            if t != dt {
                return Err(params_error());
            }
        },
        None => return Err(params_error()),
    }
    let im = array.data.imag_bits_vec();
    if array.array_flags.complex != im.is_some() {
        return Err(params_error());
    }
    let mut p: Vec<u8> = Vec::new();
    write_array_flags_subelement(&mut p, &array.array_flags, e);
    write_dimensions_array_subelement(&mut p, &array.size, e)?;
    write_array_name_subelement(&mut p, array.name.as_str(), e);
    let re = array.data.real_bits_vec();
    write_numeric_subelement(&mut p, dt, &re, e)?;
    match &im {
        Some(x) => {
            write_numeric_subelement(&mut p, dt, x, e)?;
        },
        None => {},
    }
    reveal(matrix_payload);
    assert(p@ =~= matrix_payload(*array, e));
    if p.len() as u64 >= 0x1_0000_0000 {
        return Err(params_error());
    }
    let mut out: Vec<u8> = Vec::new();
    write_element(&mut out, DataType::Matrix, p.as_slice(), e);
    assert(out@ =~= matrix_element(*array, e));
    Ok(out)
}

/// The zlib stream written for the matrix element of `a` inflates back to it.
pub open spec fn inflates_back(a: Array, e: Endianness, level: i8) -> bool {
    zlib_inflated(zlib_stream(matrix_element(a, e), level)) == Some(matrix_element(a, e))
}

/// Whether the compressed element of `a` can be written: the matrix element can, and its
/// zlib stream has a 32-bit length.
pub open spec fn compressible(a: Array, e: Endianness, level: i8) -> bool {
    &&& writable(a, e)
    &&& zlib_stream(matrix_element(a, e), level).len() < 0x1_0000_0000
}

/// The zlib stream of `m` at compression level `level`: stored blocks at level 0, libflate's
/// default encoding otherwise.
pub open spec fn zlib_stream(m: Seq<u8>, level: i8) -> Seq<u8> {
    if level == 0 {
        zlib_stored(m)
    } else {
        zlib_deflated(m)
    }
}

/// zlib-compresses `source_bytes` at compression level `level`.
pub fn write_compressed_data_element(source_bytes: &[u8], level: i8) -> (r: Result<Vec<u8>, MatError>)
    ensures
        r is Ok,
        r matches Ok(v) ==> v@ == zlib_stream(source_bytes@, level) && zlib_inflated(v@) == Some(
            source_bytes@,
        ),
{
    let z = if level == 0 {
        deflate_stored(source_bytes)
    } else {
        deflate(source_bytes)
    };
    match z {
        Ok(v) => Ok(v),
        Err(err) => Err(MatError::IOError(err)),
    }
}

/// The compressed element, at compression level `level`, that holds the matrix element for
/// `array`.
pub fn write_next_data_element(array: &Array, e: Endianness, level: i8) -> (r: Result<
    Vec<u8>,
    MatError,
>)
    ensures
        r is Ok <==> compressible(*array, e, level),
        r matches Ok(b) ==> b@ == compressed_element(*array, e, level) && inflates_back(*array, e, level),
        r matches Err(k) ==> k is ParamsError,
{
    let m = write_matrix_data_element(array, e)?;
    let z = match write_compressed_data_element(m.as_slice(), level) {
        Ok(z) => z,
        Err(_) => return Err(params_error()),
    };
    if z.len() as u64 >= 0x1_0000_0000 {
        return Err(params_error());
    }
    let mut out: Vec<u8> = Vec::new();
    write_element(&mut out, DataType::Compressed, z.as_slice(), e);
    assert(out@ =~= compressed_element(*array, e, level));
    Ok(out)
}

/// The body of `mat`: its arrays, each as a compressed element at the header's compression
/// level, in order.
pub fn write_body(mat: &MatFile) -> (r: Result<Vec<u8>, MatError>)
    ensures
        r is Ok <==> forall|i: int|
            0 <= i < mat.arrays@.len() ==> compressible(#[trigger] mat.arrays@[i], mat.header.byte_order, mat.header.deflate_level),
        r matches Ok(b) ==> b@ == body_bytes(mat.arrays@, mat.header.byte_order, mat.header.deflate_level) && forall|i: int|
            0 <= i < mat.arrays@.len() ==> inflates_back(#[trigger] mat.arrays@[i], mat.header.byte_order, mat.header.deflate_level),
        r matches Err(k) ==> k is ParamsError,
{
    let e = mat.header.byte_order;
    let level = mat.header.deflate_level;
    let mut out: Vec<u8> = Vec::new();
    let mut i: usize = 0;
    while i < mat.arrays.len()
        invariant
            i <= mat.arrays@.len(),
            e == mat.header.byte_order,
            level == mat.header.deflate_level,
            out@ == body_bytes(mat.arrays@.subrange(0, i as int), e, level),
            forall|k: int| 0 <= k < i ==> compressible(#[trigger] mat.arrays@[k], e, level),
            forall|k: int| 0 <= k < i ==> inflates_back(#[trigger] mat.arrays@[k], e, level),
        decreases mat.arrays@.len() - i,
    {
        let b = write_next_data_element(&mat.arrays[i], e, level)?;
        append_bytes(&mut out, b.as_slice());
        proof {
            let t = mat.arrays@.subrange(0, i + 1);
            assert(t.drop_last() =~= mat.arrays@.subrange(0, i as int));
        }
        i = i + 1;
    }
    assert(mat.arrays@.subrange(0, i as int) =~= mat.arrays@);
    Ok(out)
}

} // verus!
