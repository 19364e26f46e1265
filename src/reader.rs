//! Reading a whole file: the header, then top-level elements until the bytes run out or
//! one cannot be read.
use vstd::prelude::*;
use vstd::slice::slice_subrange;
use crate::codec::{parse_frame, payload_of, spec_frame};
use crate::convert::{coerced_seq, permitted};
use crate::error::MatError;
use crate::header::{header_matches, parse_header, spec_header, HeaderModel};
use crate::matrix::{
    parse_matrix_data_element, spec_matrix, DataElement, ElementModel, MatrixModel, RawPart,
};
use crate::matrix::{dims_ok, dims_product};
use crate::model::{size_product, Array, Header, MatFile};
use crate::numeric::NumericData;
use crate::primitive::Endianness;
use crate::types::{DataType, ParseErrorKind};
use crate::zlib::{inflate, zlib_inflated};

verus! {

/// How many compressed elements may nest inside one another; one nested deeper is passed
/// over as unsupported, so that reading always ends.
pub const COMPRESSION_NESTING: u32 = 8;

/// The one element inside an inflated stream, unpacking compressed elements in turn while
/// `depth` allows.
pub open spec fn spec_inner_element(x: Seq<u8>, e: Endianness, depth: nat) -> Result<
    ElementModel,
    ParseErrorKind,
>
    decreases depth,
{
    match spec_frame(x, e) {
        Err(k) => Err(k),
        Ok(f) => if f.data_type is Matrix {
            spec_matrix(payload_of(x, f), e)
        } else if f.data_type is Compressed && depth > 0 {
            match zlib_inflated(payload_of(x, f)) {
                None => Err(ParseErrorKind::Compression),
                Some(y) => spec_inner_element(y, e, (depth - 1) as nat),
            }
        } else {
            Ok(ElementModel::Unsupported)
        },
    }
}

/// The top-level element at the start of `s`, and the bytes it takes.
#[verifier::opaque]
pub open spec fn spec_element(s: Seq<u8>, e: Endianness) -> Result<(ElementModel, nat), ParseErrorKind> {
    match spec_frame(s, e) {
        Err(k) => Err(k),
        Ok(f) => {
            let p = payload_of(s, f);
            if f.data_type is Matrix {
                match spec_matrix(p, e) {
                    Err(k) => Err(k),
                    Ok(m) => Ok((m, f.next as nat)),
                }
            } else if f.data_type is Compressed {
                match zlib_inflated(p) {
                    None => Err(ParseErrorKind::Compression),
                    Some(x) => match spec_inner_element(x, e, COMPRESSION_NESTING as nat) {
                        Err(k) => Err(k),
                        Ok(m) => Ok((m, f.next as nat)),
                    },
                }
            } else {
                Ok((ElementModel::Unsupported, f.next as nat))
            }
        },
    }
}

/// The top-level elements of `s`, up to the first that cannot be read.
#[verifier::opaque]
pub open spec fn spec_elements(s: Seq<u8>, e: Endianness) -> Seq<ElementModel>
    decreases s.len(),
{
    if s.len() == 0 {
        Seq::empty()
    } else {
        match spec_element(s, e) {
            Err(_) => Seq::empty(),
            Ok((m, n)) => if 0 < n <= s.len() {
                seq![m] + spec_elements(s.skip(n as int), e)
            } else {
                seq![m]
            },
        }
    }
}

/// A readable first element is followed by the elements of the rest.
pub proof fn lemma_elements_step(s: Seq<u8>, e: Endianness)
    requires
        s.len() > 0,
        spec_element(s, e) matches Ok((m, n)) && 0 < n <= s.len(),
    ensures
        spec_elements(s, e) == seq![spec_element(s, e)->Ok_0.0] + spec_elements(
            s.skip(spec_element(s, e)->Ok_0.1 as int),
            e,
        ),
{
    reveal(spec_elements);
}

/// Reading stops at the end of the bytes or at an element that cannot be read.
pub proof fn lemma_elements_stop(s: Seq<u8>, e: Endianness)
    requires
        s.len() == 0 || spec_element(s, e) is Err,
    ensures
        spec_elements(s, e) == Seq::<ElementModel>::empty(),
{
    reveal(spec_elements);
}

/// The numeric matrices among `els`, in order.
pub open spec fn matrices(els: Seq<ElementModel>) -> Seq<MatrixModel>
    decreases els.len(),
{
    if els.len() == 0 {
        Seq::empty()
    } else {
        let rest = matrices(els.drop_last());
        match els.last() {
            ElementModel::Matrix(m) => rest.push(m),
            _ => rest,
        }
    }
}

/// Both parts of `m` may be brought to its class.
pub open spec fn convertible(m: MatrixModel) -> bool {
    &&& permitted(m.real.0, m.flags.class)
    &&& (m.imag matches Some(x) ==> permitted(x.0, m.flags.class))
}

/// `a` is the array that `m` describes, its numbers brought to its class.
pub open spec fn array_of(a: Array, m: MatrixModel) -> bool {
    &&& a.array_flags == m.flags
    &&& a.size@ == Seq::new(m.dims.len(), |i: int| m.dims[i] as usize)
    &&& a.name@ == vstd::utf8::decode_utf8(m.name)
    &&& Some(a.data.data_type()) == m.flags.class.natural_type()
    &&& a.data.real_bits() == coerced_seq(m.real.0, m.flags.class, m.real.1)
    &&& a.data.imag_bits() == match m.imag {
        Some(x) => Some(coerced_seq(x.0, m.flags.class, x.1)),
        None => None,
    }
}

/// The header and the top-level elements read from a file.
pub struct ParseResult {
    pub header: Header,
    pub data_elements: Vec<DataElement>,
}

fn parse_inner_element(x: &[u8], e: Endianness, depth: u32) -> (r: Result<DataElement, ParseErrorKind>)
    ensures
        r matches Ok(el) ==> spec_inner_element(x@, e, depth as nat) matches Ok(m) && el.matches_model(
            m,
        ) && el.consistent(),
        r matches Err(k) ==> spec_inner_element(x@, e, depth as nat) == Err::<ElementModel, _>(k),
    decreases depth,
{
    let f = parse_frame(x, e)?;
    let p = slice_subrange(x, f.start, f.start + f.len);
    if matches!(f.data_type, DataType::Matrix) {
        parse_matrix_data_element(p, e)
    } else if matches!(f.data_type, DataType::Compressed) && depth > 0 {
        match inflate(p) {
            None => Err(ParseErrorKind::Compression),
            Some(buf) => parse_inner_element(buf.as_slice(), e, depth - 1),
        }
    } else {
        Ok(DataElement::Unsupported)
    }
}

/// Inflates a compressed payload and reads the element inside it, unpacking compressed
/// elements nested in it up to `COMPRESSION_NESTING` deep.
pub fn parse_compressed_data_element(i: &[u8], e: Endianness) -> (r: Result<
    DataElement,
    ParseErrorKind,
>)
    ensures
        zlib_inflated(i@) is None ==> r == Err::<DataElement, _>(ParseErrorKind::Compression),
        zlib_inflated(i@) matches Some(x) ==> (r matches Ok(el) ==> spec_inner_element(
            x,
            e,
            COMPRESSION_NESTING as nat,
        ) matches Ok(m) && el.matches_model(m) && el.consistent()) && (r matches Err(k)
            ==> spec_inner_element(x, e, COMPRESSION_NESTING as nat) == Err::<ElementModel, _>(k)),
{
    match inflate(i) {
        None => Err(ParseErrorKind::Compression),
        Some(buf) => parse_inner_element(buf.as_slice(), e, COMPRESSION_NESTING),
    }
}

/// Reads the top-level element at the start of `i`; returns it and the bytes it takes.
pub fn parse_next_data_element(i: &[u8], e: Endianness) -> (r: Result<
    (DataElement, usize),
    ParseErrorKind,
>)
    ensures
        r matches Ok((el, n)) ==> spec_element(i@, e) matches Ok((m, n2)) && n2 == n
            && el.matches_model(m) && el.consistent() && 0 < n <= i@.len(),
        r matches Err(k) ==> spec_element(i@, e) == Err::<(ElementModel, nat), _>(k),
{
    reveal(spec_element);
    let f = parse_frame(i, e)?;
    let p = slice_subrange(i, f.start, f.start + f.len);
    if matches!(f.data_type, DataType::Matrix) {
        let el = parse_matrix_data_element(p, e)?;
        Ok((el, f.next))
    } else if matches!(f.data_type, DataType::Compressed) {
        let el = parse_compressed_data_element(p, e)?;
        Ok((el, f.next))
    } else {
        Ok((DataElement::Unsupported, f.next))
    }
}

/// Reads the header and then top-level elements until the bytes run out or one cannot be
/// read.
pub fn parse_all(i: &[u8]) -> (r: Result<ParseResult, ParseErrorKind>)
    ensures
        r matches Err(k) ==> spec_header(i@) == Err::<HeaderModel, _>(k),
        r matches Ok(pr) ==> spec_header(i@) matches Ok(hm) && header_matches(pr.header, hm) && ({
            let ms = spec_elements(i@.skip(128), hm.byte_order);
            &&& pr.data_elements@.len() == ms.len()
            &&& forall|k: int|
                0 <= k < ms.len() ==> (#[trigger] pr.data_elements@[k]).matches_model(ms[k])
                    && pr.data_elements@[k].consistent()
        }),
{
    let header = parse_header(i)?;
    let e = header.byte_order;
    let ghost hm = spec_header(i@)->Ok_0;
    let ghost all = i@.skip(128);
    let mut pos: usize = 128;
    let mut data_elements: Vec<DataElement> = Vec::new();
    let ghost mut models: Seq<ElementModel> = Seq::empty();
    loop
        invariant
            128 <= pos <= i@.len(),
            spec_header(i@) == Ok::<_, ParseErrorKind>(hm),
            header_matches(header, hm),
            e == hm.byte_order,
            all == i@.skip(128),
            spec_elements(all, e) == models + spec_elements(i@.skip(pos as int), e),
            data_elements@.len() == models.len(),
            forall|k: int|
                0 <= k < models.len() ==> (#[trigger] data_elements@[k]).matches_model(models[k])
                    && data_elements@[k].consistent(),
        ensures
            spec_header(i@) == Ok::<_, ParseErrorKind>(hm),
            header_matches(header, hm),
            e == hm.byte_order,
            spec_elements(all, e) == models,
            data_elements@.len() == models.len(),
            forall|k: int|
                0 <= k < models.len() ==> (#[trigger] data_elements@[k]).matches_model(models[k])
                    && data_elements@[k].consistent(),
        decreases i@.len() - pos,
    {
        if pos >= i.len() {
            proof {
                assert(i@.skip(pos as int) =~= Seq::<u8>::empty());
                lemma_elements_stop(i@.skip(pos as int), e);
                assert(models + spec_elements(i@.skip(pos as int), e) =~= models);
            }
            break;
        }
        let rest = slice_subrange(i, pos, i.len());
        assert(rest@ =~= i@.skip(pos as int));
        match parse_next_data_element(rest, e) {
            Ok((el, n)) => {
                let ghost m = spec_element(rest@, e)->Ok_0.0;
                proof {
                    lemma_elements_step(rest@, e);
                    assert(rest@.skip(n as int) =~= i@.skip(pos + n));
                    assert(models.push(m) + spec_elements(i@.skip(pos + n), e) =~= models + (seq![m]
                        + spec_elements(rest@.skip(n as int), e)));
                    models = models.push(m);
                }
                data_elements.push(el);
                pos = pos + n;
            },
            Err(_) => {
                proof {
                    lemma_elements_stop(rest@, e);
                }
                assert(models + spec_elements(rest@, e) =~= models);
                break;
            },
        }
    }
    Ok(ParseResult { header, data_elements })
}

fn copy_part(p: &RawPart) -> (r: RawPart)
    ensures
        r.data_type == p.data_type,
        r.bits@ == p.bits@,
{
    let mut bits: Vec<u64> = Vec::new();
    let mut i: usize = 0;
    while i < p.bits.len()
        invariant
            i <= p.bits@.len(),
            bits@ =~= p.bits@.take(i as int),
        decreases p.bits@.len() - i,
    {
        bits.push(p.bits[i]);
        i = i + 1;
        assert(bits@ =~= p.bits@.take(i as int));
    }
    assert(p.bits@.take(i as int) =~= p.bits@);
    RawPart { data_type: p.data_type, bits }
}

fn array_from_element(
    flags: crate::types::ArrayFlags,
    dims: &Vec<i32>,
    name: &String,
    re: &RawPart,
    im: &Option<RawPart>,
) -> (r: Result<Array, MatError>)
    requires
        crate::numeric::fits(re.bits@, re.data_type.width()),
        im matches Some(x) ==> crate::numeric::fits(x.bits@, x.data_type.width()),
    ensures
        r is Ok <==> permitted(re.data_type, flags.class) && (im matches Some(x) ==> permitted(
            x.data_type,
            flags.class,
        )),
        r matches Ok(a) ==> {
            &&& a.array_flags == flags
            &&& a.size@ == Seq::new(dims@.len(), |i: int| dims@[i] as usize)
            &&& a.name@ == name@
            &&& Some(a.data.data_type()) == flags.class.natural_type()
            &&& a.data.real_bits() == coerced_seq(re.data_type, flags.class, re.bits@)
            &&& a.data.imag_bits() == match im {
                Some(x) => Some(coerced_seq(x.data_type, flags.class, x.bits@)),
                None => None,
            }
        },
        r matches Err(k) ==> k is ConversionError,
{
    let re2 = copy_part(re);
    let im2 = match im {
        Some(x) => Some(copy_part(x)),
        None => None,
    };
    let data = NumericData::try_from(flags.class, re2, im2)?;
    let mut size: Vec<usize> = Vec::new();
    let mut i: usize = 0;
    while i < dims.len()
        invariant
            i <= dims@.len(),
            size@ =~= Seq::new(i as nat, |k: int| dims@[k] as usize),
        decreases dims@.len() - i,
    {
        size.push(dims[i] as usize);
        i = i + 1;
    }
    Ok(Array { array_flags: flags, name: name.clone(), size, data })
}

proof fn lemma_size_from_dims(d: Seq<i32>, n: nat)
    requires
        dims_ok(d, n),
    ensures
        size_product(Seq::new(d.len(), |i: int| d[i] as usize)) == n,
{
    lemma_size_product_of_dims(d);
}

proof fn lemma_size_product_of_dims(d: Seq<i32>)
    requires
        forall|i: int| 0 <= i < d.len() ==> d[i] >= 0,
    ensures
        size_product(Seq::new(d.len(), |i: int| d[i] as usize)) == dims_product(d),
    decreases d.len(),
{
    if d.len() > 0 {
        let u = d.drop_last();
        lemma_size_product_of_dims(u);
        let x = d.last();
        assert(x >= 0);
        assert((x as usize) as int == x as int) by (bit_vector)
            requires
                x >= 0,
        ;
        assert(Seq::new(d.len(), |i: int| d[i] as usize).drop_last() =~= Seq::new(
            u.len(),
            |i: int| u[i] as usize,
        ));
    }
}

proof fn lemma_matrices_prefix(s: Seq<ElementModel>, j: int)
    requires
        0 <= j <= s.len(),
    ensures
        matrices(s.take(j)).len() <= matrices(s).len(),
        forall|k: int|
            0 <= k < matrices(s.take(j)).len() ==> #[trigger] matrices(s.take(j))[k] == matrices(
                s,
            )[k],
    decreases s.len(),
{
    if j < s.len() {
        let u = s.drop_last();
        lemma_matrices_prefix(u, j);
        assert(u.take(j) =~= s.take(j));
    } else {
        assert(s.take(j) =~= s);
    }
}

impl MatFile {
    /// Reads a file held in memory. A top-level element that cannot be read ends the file;
    /// the arrays before it are kept. Numbers that cannot be brought to their array's class
    /// fail the whole read.
    pub fn parse(bytes: &[u8]) -> (r: Result<MatFile, MatError>)
        ensures
            spec_header(bytes@) matches Err(k) ==> (r matches Err(x) && x == MatError::ParseError(k)),
            spec_header(bytes@) matches Ok(hm) ==> {
                let ms = matrices(spec_elements(bytes@.skip(128), hm.byte_order));
                &&& r is Ok <==> forall|k: int| 0 <= k < ms.len() ==> convertible(#[trigger] ms[k])
                &&& r matches Ok(m) ==> header_matches(m.header, hm) && m.arrays@.len() == ms.len()
                    && forall|k: int| 0 <= k < ms.len() ==> array_of(#[trigger] m.arrays@[k], ms[k])
                    && m.arrays@[k].wf()
                &&& r matches Err(x) ==> x is ConversionError
            },
    {
        let pr = match parse_all(bytes) {
            Ok(pr) => pr,
            Err(k) => return Err(MatError::ParseError(k)),
        };
        let ghost hm = spec_header(bytes@)->Ok_0;
        let ghost models = spec_elements(bytes@.skip(128), pr.header.byte_order);
        let ghost ms = matrices(models);
        let mut arrays: Vec<Array> = Vec::new();
        let mut i: usize = 0;
        while i < pr.data_elements.len()
            invariant
                i <= pr.data_elements@.len() == models.len(),
                spec_header(bytes@) == Ok::<_, ParseErrorKind>(hm),
                header_matches(pr.header, hm),
                models == spec_elements(bytes@.skip(128), hm.byte_order),
                ms == matrices(models),
                forall|k: int|
                    0 <= k < models.len() ==> (#[trigger] pr.data_elements@[k]).matches_model(
                        models[k],
                    ) && pr.data_elements@[k].consistent(),
                arrays@.len() == matrices(models.take(i as int)).len(),
                forall|k: int|
                    0 <= k < arrays@.len() ==> array_of(
                        #[trigger] arrays@[k],
                        matrices(models.take(i as int))[k],
                    ) && arrays@[k].wf(),
                forall|k: int|
                    0 <= k < matrices(models.take(i as int)).len() ==> convertible(
                        #[trigger] matrices(models.take(i as int))[k],
                    ),
            decreases pr.data_elements@.len() - i,
        {
            let ghost t = models.take(i + 1);
            assert(t.drop_last() =~= models.take(i as int));
            assert(t.last() == models[i as int]);
            match &pr.data_elements[i] {
                DataElement::NumericMatrix(fl, d, nm, re, im) => {
                    let ghost mm = models[i as int]->Matrix_0;
                    match array_from_element(*fl, d, nm, re, im) {
                        Ok(a) => {
                            proof {
                                lemma_size_from_dims(d@, re.bits@.len());
                            }
                            arrays.push(a);
                        },
                        Err(x) => {
                            proof {
                                lemma_matrices_prefix(models, i + 1);
                                let idx = matrices(t).len() - 1;
                                assert(matrices(t)[idx] == mm);
                                assert(!convertible(ms[idx]));
                            }
                            return Err(x);
                        },
                    }
                },
                _ => {},
            }
            i = i + 1;
        }
        assert(models.take(i as int) =~= models);
        Ok(MatFile { header: pr.header, arrays })
    }
}

} // verus!
