//! The matrix record: flags, dimensions, name and numeric parts, read and written.
use vstd::prelude::*;
use vstd::slice::{slice_subrange, slice_to_vec};
use vstd::utf8::{decode_utf8, valid_utf8};
use crate::header::utf8_string;
use crate::codec::{decode_elems, parse_frame, payload_of, read_elems, spec_frame};
use crate::primitive::{lemma_pow256_values, lemma_uint_bound, read_uint, uint_of, Endianness};
use crate::numeric::fits;
use crate::types::{ArrayFlags, DataType, MatlabType, ParseErrorKind};

verus! {

/// Numbers as read from a numeric sub-element, in its own element type.
#[derive(Clone, Debug)]
pub struct RawPart {
    pub data_type: DataType,
    pub bits: Vec<u64>,
}

/// A matrix record as read, before its numbers are brought to the class's type.
pub struct MatrixModel {
    pub flags: ArrayFlags,
    pub dims: Seq<i32>,
    pub name: Seq<u8>,
    pub real: (DataType, Seq<u64>),
    pub imag: Option<(DataType, Seq<u64>)>,
}

/// The framing of a sparse matrix as read: row indices and column shifts beside the numbers.
pub struct SparseModel {
    pub flags: ArrayFlags,
    pub dims: Seq<i32>,
    pub name: Seq<u8>,
    pub row_index: Seq<i32>,
    pub column_shift: Seq<i32>,
    pub real: (DataType, Seq<u64>),
    pub imag: Option<(DataType, Seq<u64>)>,
}

/// A top-level element as read from bytes.
pub enum ElementModel {
    Matrix(MatrixModel),
    Sparse(SparseModel),
    Unsupported,
}

/// A top-level data element as read.
#[derive(Clone, Debug)]
pub enum DataElement {
    NumericMatrix(ArrayFlags, Vec<i32>, String, RawPart, Option<RawPart>),
    /// Flags, dimensions, name, row indices, column shifts, real and imaginary parts.
    SparseMatrix(ArrayFlags, Vec<i32>, String, Vec<i32>, Vec<i32>, RawPart, Option<RawPart>),
    Unsupported,
}

pub open spec fn part_view(p: RawPart) -> (DataType, Seq<u64>) {
    (p.data_type, p.bits@)
}

impl DataElement {
    /// Every stored number fits its element type, the dimensions count the numbers, and an
    /// imaginary part of the same length is there exactly when the flags say complex.
    pub open spec fn consistent(self) -> bool {
        match self {
            DataElement::NumericMatrix(fl, d, _, re, im) => {
                &&& fits(re.bits@, re.data_type.width())
                &&& dims_ok(d@, re.bits@.len())
                &&& (fl.complex <==> im is Some)
                &&& (im matches Some(x) ==> fits(x.bits@, x.data_type.width()) && x.bits@.len()
                    == re.bits@.len())
            },
            DataElement::SparseMatrix(..) => true,
            DataElement::Unsupported => true,
        }
    }

    /// The element matches the model read from bytes.
    pub open spec fn matches_model(self, m: ElementModel) -> bool {
        match (self, m) {
            (DataElement::Unsupported, ElementModel::Unsupported) => true,
            (DataElement::NumericMatrix(fl, d, nm, re, im), ElementModel::Matrix(mm)) => {
                &&& fl == mm.flags
                &&& d@ == mm.dims
                &&& nm@ == decode_utf8(mm.name)
                &&& part_view(re) == mm.real
                &&& match im {
                    Some(x) => mm.imag == Some(part_view(x)),
                    None => mm.imag is None,
                }
            },
            (
                DataElement::SparseMatrix(fl, d, nm, ri, cs, re, im),
                ElementModel::Sparse(sm),
            ) => {
                &&& fl == sm.flags
                &&& d@ == sm.dims
                &&& nm@ == decode_utf8(sm.name)
                &&& ri@ == sm.row_index
                &&& cs@ == sm.column_shift
                &&& part_view(re) == sm.real
                &&& match im {
                    Some(x) => sm.imag == Some(part_view(x)),
                    None => sm.imag is None,
                }
            },
            _ => false,
        }
    }
}

pub open spec fn dims_product(d: Seq<i32>) -> int
    decreases d.len(),
{
    if d.len() == 0 {
        1
    } else {
        dims_product(d.drop_last()) * d.last()
    }
}

/// At least two dimensions, none negative, whose product is `n`.
pub open spec fn dims_ok(d: Seq<i32>, n: nat) -> bool {
    &&& d.len() >= 2
    &&& forall|i: int| 0 <= i < d.len() ==> d[i] >= 0
    &&& dims_product(d) == n
}

/// Reads the flags sub-element: a `UInt32` element of eight bytes.
pub open spec fn spec_flags(s: Seq<u8>, e: Endianness) -> Result<(ArrayFlags, nat), ParseErrorKind> {
    match spec_frame(s, e) {
        Err(k) => Err(k),
        Ok(f) => if !(f.data_type is UInt32) || f.len != 8 {
            Err(ParseErrorKind::UnexpectedSubElement)
        } else {
            let p = payload_of(s, f);
            let w = uint_of(p.subrange(0, 4), e);
            match MatlabType::of_code(w % 256) {
                None => Err(ParseErrorKind::UnknownClass),
                Some(c) => Ok(
                    (
                        ArrayFlags::from_word(w as u32, c, uint_of(p.subrange(4, 8), e) as u32),
                        f.next as nat,
                    ),
                ),
            }
        },
    }
}

/// Reads the dimensions sub-element: an `Int32` element.
pub open spec fn spec_dims(s: Seq<u8>, e: Endianness) -> Result<(Seq<i32>, nat), ParseErrorKind> {
    match spec_frame(s, e) {
        Err(k) => Err(k),
        Ok(f) => if !(f.data_type is Int32) {
            Err(ParseErrorKind::UnexpectedSubElement)
        } else {
            let v = decode_elems(payload_of(s, f), 4, e);
            Ok((Seq::new(v.len(), |i: int| v[i] as u32 as i32), f.next as nat))
        },
    }
}

/// Reads the name sub-element.
pub open spec fn spec_name(s: Seq<u8>, e: Endianness) -> Result<(Seq<u8>, nat), ParseErrorKind> {
    match spec_frame(s, e) {
        Err(k) => Err(k),
        Ok(f) => Ok((payload_of(s, f), f.next as nat)),
    }
}

/// Reads a numeric sub-element.
pub open spec fn spec_part(s: Seq<u8>, e: Endianness) -> Result<
    ((DataType, Seq<u64>), nat),
    ParseErrorKind,
> {
    match spec_frame(s, e) {
        Err(k) => Err(k),
        Ok(f) => if !f.data_type.is_numeric() {
            Err(ParseErrorKind::UnexpectedSubElement)
        } else {
            Ok(
                (
                    (f.data_type, decode_elems(payload_of(s, f), f.data_type.width(), e)),
                    f.next as nat,
                ),
            )
        },
    }
}

/// Reads the imaginary part that follows, when the flags call for one.
pub open spec fn spec_imag(s: Seq<u8>, e: Endianness, complex: bool) -> Result<
    Option<(DataType, Seq<u64>)>,
    ParseErrorKind,
> {
    if complex {
        match spec_part(s, e) {
            Err(k) => Err(k),
            Ok((im, _)) => Ok(Some(im)),
        }
    } else {
        Ok(None)
    }
}

/// Checks the pieces of a numeric matrix against each other.
pub open spec fn spec_assemble(
    fl: ArrayFlags,
    d: Seq<i32>,
    nm: Seq<u8>,
    re: (DataType, Seq<u64>),
    im: Option<(DataType, Seq<u64>)>,
) -> Result<ElementModel, ParseErrorKind> {
    if !dims_ok(d, re.1.len()) {
        Err(ParseErrorKind::Dimensions)
    } else if im matches Some(x) && x.1.len() != re.1.len() {
        Err(ParseErrorKind::Dimensions)
    } else if !valid_utf8(nm) {
        Err(ParseErrorKind::Name)
    } else {
        Ok(ElementModel::Matrix(MatrixModel { flags: fl, dims: d, name: nm, real: re, imag: im }))
    }
}

/// Reads the sub-elements of a sparse matrix that follow its flags: dimensions, name, row
/// indices, column shifts, and the numeric parts.
pub open spec fn spec_sparse(q: Seq<u8>, e: Endianness, fl: ArrayFlags) -> Result<
    ElementModel,
    ParseErrorKind,
> {
    match spec_dims(q, e) {
        Err(k) => Err(k),
        Ok((d, n2)) => {
            let q3 = q.skip(n2 as int);
            match spec_name(q3, e) {
                Err(k) => Err(k),
                Ok((nm, n3)) => {
                    let q4 = q3.skip(n3 as int);
                    match spec_dims(q4, e) {
                        Err(k) => Err(k),
                        Ok((ri, n4)) => {
                            let q5 = q4.skip(n4 as int);
                            match spec_dims(q5, e) {
                                Err(k) => Err(k),
                                Ok((cs, n5)) => {
                                    let q6 = q5.skip(n5 as int);
                                    match spec_part(q6, e) {
                                        Err(k) => Err(k),
                                        Ok((re, n6)) => match spec_imag(
                                            q6.skip(n6 as int),
                                            e,
                                            fl.complex,
                                        ) {
                                            Err(k) => Err(k),
                                            Ok(im) => if !valid_utf8(nm) {
                                                Err(ParseErrorKind::Name)
                                            } else {
                                                Ok(
                                                    ElementModel::Sparse(
                                                        SparseModel {
                                                            flags: fl,
                                                            dims: d,
                                                            name: nm,
                                                            row_index: ri,
                                                            column_shift: cs,
                                                            real: re,
                                                            imag: im,
                                                        },
                                                    ),
                                                )
                                            },
                                        },
                                    }
                                },
                            }
                        },
                    }
                },
            }
        },
    }
}

/// Reads the sub-elements of a sparse matrix that follow its flags `flags`.
pub fn parse_sparse_matrix_subelements(q: &[u8], e: Endianness, flags: ArrayFlags) -> (r: Result<
    DataElement,
    ParseErrorKind,
>)
    ensures
        r matches Ok(el) ==> spec_sparse(q@, e, flags) matches Ok(m) && el.matches_model(m),
        r matches Err(k) ==> spec_sparse(q@, e, flags) == Err::<ElementModel, _>(k),
{
    let (d, n2) = parse_dimensions_array_subelement(q, e)?;
    let q3 = slice_subrange(q, n2, q.len());
    assert(q3@ =~= q@.skip(n2 as int));
    let (nm, n3) = parse_array_name_subelement(q3, e)?;
    let q4 = slice_subrange(q3, n3, q3.len());
    assert(q4@ =~= q3@.skip(n3 as int));
    let (ri, n4) = parse_dimensions_array_subelement(q4, e)?;
    let q5 = slice_subrange(q4, n4, q4.len());
    assert(q5@ =~= q4@.skip(n4 as int));
    let (cs, n5) = parse_dimensions_array_subelement(q5, e)?;
    let q6 = slice_subrange(q5, n5, q5.len());
    assert(q6@ =~= q5@.skip(n5 as int));
    let (re, n6) = parse_numeric_subelement(q6, e)?;
    let q7 = slice_subrange(q6, n6, q6.len());
    assert(q7@ =~= q6@.skip(n6 as int));
    let im = if flags.complex {
        let (x, _n7) = parse_numeric_subelement(q7, e)?;
        Some(x)
    } else {
        None
    };
    match utf8_string(nm) {
        None => Err(ParseErrorKind::Name),
        Some(name) => Ok(DataElement::SparseMatrix(flags, d, name, ri, cs, re, im)),
    }
}

/// Reads the payload of a matrix element. Classes other than the ten numeric ones are
/// passed over as unsupported.
#[verifier::opaque]
pub open spec fn spec_matrix(p: Seq<u8>, e: Endianness) -> Result<ElementModel, ParseErrorKind> {
    match spec_flags(p, e) {
        Err(k) => Err(k),
        Ok((fl, n1)) => if fl.class is Sparse {
            spec_sparse(p.skip(n1 as int), e, fl)
        } else if !fl.class.is_numeric() {
            Ok(ElementModel::Unsupported)
        } else {
            let p2 = p.skip(n1 as int);
            match spec_dims(p2, e) {
                Err(k) => Err(k),
                Ok((d, n2)) => {
                    let p3 = p2.skip(n2 as int);
                    match spec_name(p3, e) {
                        Err(k) => Err(k),
                        Ok((nm, n3)) => {
                            let p4 = p3.skip(n3 as int);
                            match spec_part(p4, e) {
                                Err(k) => Err(k),
                                Ok((re, n4)) => match spec_imag(p4.skip(n4 as int), e, fl.complex) {
                                    Err(k) => Err(k),
                                    Ok(im) => spec_assemble(fl, d, nm, re, im),
                                },
                            }
                        },
                    }
                },
            }
        },
    }
}

/// Reads the flags sub-element at the start of `s`; returns the flags and the bytes taken.
pub fn parse_array_flags_subelement(s: &[u8], e: Endianness) -> (r: Result<(ArrayFlags, usize), ParseErrorKind>)
    ensures
        r matches Ok((fl, n)) ==> spec_flags(s@, e) == Ok::<_, ParseErrorKind>((fl, n as nat))
            && n <= s@.len(),
        r matches Err(k) ==> spec_flags(s@, e) == Err::<(ArrayFlags, nat), _>(k),
{
    let f = parse_frame(s, e)?;
    if !matches!(f.data_type, DataType::UInt32) || f.len != 8 {
        return Err(ParseErrorKind::UnexpectedSubElement);
    }
    let w = read_uint(s, f.start, 4, e);
    let nz = read_uint(s, f.start + 4, 4, e);
    proof {
        let p = payload_of(s@, f);
        assert(p.subrange(0, 4) =~= s@.subrange(f.start as int, f.start + 4));
        assert(p.subrange(4, 8) =~= s@.subrange(f.start + 4, f.start + 8));
        lemma_uint_bound(p.subrange(0, 4), e);
        lemma_uint_bound(p.subrange(4, 8), e);
        lemma_pow256_values();
    }
    match MatlabType::from_u32((w % 256) as u32) {
        None => Err(ParseErrorKind::UnknownClass),
        Some(c) => {
            let w32 = w as u32;
            let fl = ArrayFlags {
                complex: (w32 / 0x0800) % 2 == 1,
                global: (w32 / 0x0400) % 2 == 1,
                logical: (w32 / 0x0200) % 2 == 1,
                class: c,
                nzmax: nz as u32,
            };
            Ok((fl, f.next))
        },
    }
}

/// Reads the dimensions sub-element at the start of `s`; returns them and the bytes taken.
pub fn parse_dimensions_array_subelement(s: &[u8], e: Endianness) -> (r: Result<(Vec<i32>, usize), ParseErrorKind>)
    ensures
        r matches Ok((d, n)) ==> spec_dims(s@, e) == Ok::<_, ParseErrorKind>((d@, n as nat))
            && n <= s@.len(),
        r matches Err(k) ==> spec_dims(s@, e) == Err::<(Seq<i32>, nat), _>(k),
{
    let f = parse_frame(s, e)?;
    if !matches!(f.data_type, DataType::Int32) {
        return Err(ParseErrorKind::UnexpectedSubElement);
    }
    let v = read_elems(s, f.start, f.len, 4, e);
    let mut d: Vec<i32> = Vec::new();
    let mut i: usize = 0;
    while i < v.len()
        invariant
            i <= v@.len(),
            d@ =~= Seq::new(i as nat, |k: int| v@[k] as u32 as i32),
        decreases v@.len() - i,
    {
        d.push(v[i] as u32 as i32);
        i = i + 1;
    }
    assert(d@ =~= Seq::new(v@.len(), |k: int| v@[k] as u32 as i32));
    Ok((d, f.next))
}

/// Reads the name sub-element at the start of `s`; returns its bytes and the bytes taken.
pub fn parse_array_name_subelement(s: &[u8], e: Endianness) -> (r: Result<(Vec<u8>, usize), ParseErrorKind>)
    ensures
        r matches Ok((b, n)) ==> spec_name(s@, e) == Ok::<_, ParseErrorKind>((b@, n as nat))
            && n <= s@.len(),
        r matches Err(k) ==> spec_name(s@, e) == Err::<(Seq<u8>, nat), _>(k),
{
    let f = parse_frame(s, e)?;
    let p = slice_subrange(s, f.start, f.start + f.len);
    let b = slice_to_vec(p);
    Ok((b, f.next))
}

/// Reads a numeric sub-element at the start of `s`; returns its numbers and the bytes taken.
pub fn parse_numeric_subelement(s: &[u8], e: Endianness) -> (r: Result<(RawPart, usize), ParseErrorKind>)
    ensures
        r matches Ok((x, n)) ==> spec_part(s@, e) == Ok::<_, ParseErrorKind>((part_view(x), n as nat))
            && n <= s@.len() && fits(x.bits@, x.data_type.width()),
        r matches Err(k) ==> spec_part(s@, e) == Err::<((DataType, Seq<u64>), nat), _>(k),
{
    let f = parse_frame(s, e)?;
    if !f.data_type.is_numeric_type() {
        return Err(ParseErrorKind::UnexpectedSubElement);
    }
    let w = f.data_type.byte_size();
    let bits = read_elems(s, f.start, f.len, w as usize, e);
    Ok((RawPart { data_type: f.data_type, bits }, f.next))
}

proof fn lemma_product_with_zero(d: Seq<i32>, k: int)
    requires
        0 <= k < d.len(),
        d[k] == 0,
    ensures
        dims_product(d) == 0,
    decreases d.len(),
{
    if k < d.len() - 1 {
        lemma_product_with_zero(d.drop_last(), k);
    }
}

proof fn lemma_product_grows(d: Seq<i32>, i: int)
    requires
        0 <= i <= d.len(),
        forall|k: int| 0 <= k < d.len() ==> d[k] >= 1,
    ensures
        dims_product(d) >= dims_product(d.subrange(0, i)) >= 1,
    decreases d.len(),
{
    if d.len() > 0 {
        let u = d.drop_last();
        if i == d.len() {
            assert(d.subrange(0, i) =~= d);
            lemma_product_grows(u, i - 1);
            assert(u.subrange(0, i - 1) =~= u);
        } else {
            lemma_product_grows(u, i);
            assert(u.subrange(0, i) =~= d.subrange(0, i));
        }
        let a = dims_product(u);
        let b = d.last() as int;
        assert(a * b >= a) by (nonlinear_arith)
            requires
                a >= 1,
                b >= 1,
        ;
    } else {
        assert(d.subrange(0, i) =~= d);
    }
}

/// Whether `d` are acceptable dimensions for `n` numbers.
pub fn check_dims(d: &Vec<i32>, n: usize) -> (r: bool)
    ensures
        r == dims_ok(d@, n as nat),
{
    if d.len() < 2 {
        return false;
    }
    let mut i: usize = 0;
    let mut zero = false;
    while i < d.len()
        invariant
            i <= d@.len(),
            forall|k: int| 0 <= k < i ==> d@[k] >= 0,
            zero ==> exists|k: int| 0 <= k < i && d@[k] == 0,
            !zero ==> forall|k: int| 0 <= k < i ==> d@[k] != 0,
        decreases d@.len() - i,
    {
        if d[i] < 0 {
            return false;
        }
        if d[i] == 0 {
            zero = true;
        }
        i = i + 1;
    }
    if zero {
        proof {
            let k = choose|k: int| 0 <= k < d@.len() && d@[k] == 0;
            lemma_product_with_zero(d@, k);
        }
        return n == 0;
    }
    if n == 0 {
        proof {
            lemma_product_grows(d@, 0);
        }
        return false;
    }
    let mut prod: u128 = 1;
    let mut j: usize = 0;
    assert(d@.subrange(0, 0) =~= Seq::<i32>::empty());
    while j < d.len()
        invariant
            j <= d@.len(),
            forall|k: int| 0 <= k < d@.len() ==> d@[k] >= 1,
            prod == dims_product(d@.subrange(0, j as int)),
            prod <= n,
        decreases d@.len() - j,
    {
        let x = d[j] as u128;
        assert(prod * x <= 0xffff_ffff_ffff_ffff * 0x8000_0000) by (nonlinear_arith)
            requires
                prod <= 0xffff_ffff_ffff_ffff,
                x <= 0x8000_0000,
        ;
        assert(d@.subrange(0, j + 1).drop_last() =~= d@.subrange(0, j as int));
        prod = prod * x;
        j = j + 1;
        if prod > n as u128 {
            proof {
                lemma_product_grows(d@, j as int);
            }
            return false;
        }
    }
    assert(d@.subrange(0, j as int) =~= d@);
    prod == n as u128
}

/// Reads the payload of a matrix element.
pub fn parse_matrix_data_element(p: &[u8], e: Endianness) -> (r: Result<DataElement, ParseErrorKind>)
    ensures
        r matches Ok(el) ==> spec_matrix(p@, e) matches Ok(m) && el.matches_model(m) && el.consistent(),
        r matches Err(k) ==> spec_matrix(p@, e) == Err::<ElementModel, _>(k),
{
    reveal(spec_matrix);
    let (fl, n1) = parse_array_flags_subelement(p, e)?;
    if matches!(fl.class, MatlabType::Sparse) {
        let q = slice_subrange(p, n1, p.len());
        assert(q@ =~= p@.skip(n1 as int));
        return parse_sparse_matrix_subelements(q, e, fl);
    }
    if fl.class.numeric_data_type().is_none() {
        return Ok(DataElement::Unsupported);
    }
    let p2 = slice_subrange(p, n1, p.len());
    assert(p2@ =~= p@.skip(n1 as int));
    let (d, n2) = parse_dimensions_array_subelement(p2, e)?;
    let p3 = slice_subrange(p2, n2, p2.len());
    assert(p3@ =~= p2@.skip(n2 as int));
    let (nm, n3) = parse_array_name_subelement(p3, e)?;
    let p4 = slice_subrange(p3, n3, p3.len());
    assert(p4@ =~= p3@.skip(n3 as int));
    let (re, n4) = parse_numeric_subelement(p4, e)?;
    let p5 = slice_subrange(p4, n4, p4.len());
    assert(p5@ =~= p4@.skip(n4 as int));
    let im = if fl.complex {
        let (x, _n5) = parse_numeric_subelement(p5, e)?;
        Some(x)
    } else {
        None
    };
    if !check_dims(&d, re.bits.len()) {
        return Err(ParseErrorKind::Dimensions);
    }
    match &im {
        Some(x) => {
            if x.bits.len() != re.bits.len() {
                return Err(ParseErrorKind::Dimensions);
            }
        },
        None => {},
    }
    match utf8_string(nm) {
        None => Err(ParseErrorKind::Name),
        Some(name) => Ok(DataElement::NumericMatrix(fl, d, name, re, im)),
    }
}

} // verus!
