//! Named arrays in memory and the file that holds them.
use vstd::prelude::*;
use vstd::utf8::{encode_utf8, encode_utf8_decode_utf8};
use crate::convert::{coerced_seq, permitted, try_convert_number_format};
use crate::error::MatError;
use crate::matrix::RawPart;
use crate::numeric::{bits_seq, fits, from_bits_vec, opt_bits, Element, NumericData};
use crate::primitive::{bytes_be, bytes_le, lemma_pow256_values, pow256, Endianness};
use crate::types::{ArrayFlags, DataType, MatlabType};

verus! {

/// File-level metadata.
#[derive(Clone, Debug)]
pub struct Header {
    pub version: u16,
    pub mat_identifier: String,
    pub description: String,
    pub byte_order: Endianness,
    pub subsys_offset: u64,
    /// zlib level asked for on write (0 none, 1 fastest); the writer uses libflate's
    /// default encoder whatever the level.
    pub deflate_level: i8,
}

/// A named numeric array stored column-major.
#[derive(Clone, Debug)]
pub struct Array {
    pub array_flags: ArrayFlags,
    pub name: String,
    pub size: Vec<usize>,
    pub data: NumericData,
}

/// A header and its arrays in insertion order.
#[derive(Clone, Debug)]
pub struct MatFile {
    pub header: Header,
    pub arrays: Vec<Array>,
}

pub open spec fn size_product(s: Seq<usize>) -> int
    decreases s.len(),
{
    if s.len() == 0 {
        1
    } else {
        size_product(s.drop_last()) * s.last()
    }
}

/// The bytes of a string in UTF-8.
pub open spec fn utf8_bytes(s: String) -> Seq<u8> {
    encode_utf8(s@)
}

pub open spec fn zero_seq(n: nat) -> Seq<u64> {
    Seq::new(n, |i: int| 0u64)
}

impl Array {
    /// At least two dimensions whose product counts the numbers; the class stores its
    /// numbers in their natural type; an imaginary part exactly when complex.
    pub open spec fn wf(self) -> bool {
        &&& self.size@.len() >= 2
        &&& self.array_flags.class.natural_type() == Some(self.data.data_type())
        &&& size_product(self.size@) == self.data.real_bits().len()
        &&& self.data.parts_agree()
        &&& (self.array_flags.complex <==> self.data.imag_bits() is Some)
    }

    /// Linear position of `(row, col)` in column-major order, when it addresses an element.
    pub open spec fn index_of(self, row: int, col: int) -> Option<int> {
        if self.size@.len() >= 2 && row < self.size@[0] && col < self.size@[1] && row + col
            * self.size@[0] < self.data.real_bits().len() {
            Some(row + col * self.size@[0])
        } else {
            None
        }
    }

    pub fn name(&self) -> (r: &str)
        ensures
            r@ == self.name@,
    {
        self.name.as_str()
    }

    pub fn size(&self) -> (r: &Vec<usize>)
        ensures
            r == &self.size,
    {
        &self.size
    }

    pub fn ndims(&self) -> (r: usize)
        ensures
            r == self.size@.len(),
    {
        self.size.len()
    }

    pub fn data(&self) -> (r: &NumericData)
        ensures
            r == &self.data,
    {
        &self.data
    }

    /// The number of elements, as a 32-bit count.
    pub fn get_num_elements(&self) -> (r: u32)
        requires
            self.wf(),
        ensures
            r == size_product(self.size@) as u32,
    {
        let n = self.data.real_len();
        n as u32
    }

    /// `index` when it lies within dimension `dim`, else `dim`.
    pub fn check_index_bound(&self, index: usize, dim: usize) -> (r: usize)
        requires
            dim < self.size@.len(),
        ensures
            r == if index < self.size@[dim as int] {
                index
            } else {
                dim
            },
    {
        if index < self.size[dim] {
            index
        } else {
            dim
        }
    }

    fn position(&self, row: usize, col: usize) -> (r: Option<usize>)
        ensures
            r matches Some(i) ==> self.index_of(row as int, col as int) == Some(i as int),
            r is None ==> self.index_of(row as int, col as int) is None,
    {
        if self.size.len() < 2 {
            return None;
        }
        let rows = self.size[0];
        if row >= rows || col >= self.size[1] {
            return None;
        }
        let c = col as u128;
        let w = rows as u128;
        assert(c * w <= 0xffff_ffff_ffff_ffff * 0xffff_ffff_ffff_ffff) by (nonlinear_arith)
            requires
                c <= 0xffff_ffff_ffff_ffff,
                w <= 0xffff_ffff_ffff_ffff,
        ;
        let idx: u128 = row as u128 + c * w;
        let n = self.data.real_len();
        if idx < n as u128 {
            Some(idx as usize)
        } else {
            None
        }
    }

    /// Writes `bits` at `(row, col)` of the real part; an index outside the array, or bits
    /// too wide for the element type, change nothing.
    pub fn set_real_bits(&mut self, row: usize, col: usize, bits: u64)
        ensures
            final(self).array_flags == old(self).array_flags,
            final(self).name == old(self).name,
            final(self).size == old(self).size,
            final(self).data.data_type() == old(self).data.data_type(),
            final(self).data.imag_bits() == old(self).data.imag_bits(),
            final(self).data.real_bits() == match old(self).index_of(row as int, col as int) {
                Some(i) => if bits < pow256(old(self).data.data_type().width()) {
                    old(self).data.real_bits().update(i, bits)
                } else {
                    old(self).data.real_bits()
                },
                None => old(self).data.real_bits(),
            },
    {
        match self.position(row, col) {
            Some(i) => self.data.set_real(i, bits),
            None => {},
        }
    }

    /// Writes `value` at `(row, col)` of an `Int8` array; other classes and positions
    /// outside the array change nothing.
    pub fn set_int8(&mut self, row: usize, col: usize, value: i8)
        ensures
            final(self).array_flags == old(self).array_flags,
            final(self).name == old(self).name,
            final(self).size == old(self).size,
            final(self).data.data_type() == old(self).data.data_type(),
            final(self).data.imag_bits() == old(self).data.imag_bits(),
            final(self).data.real_bits() == match old(self).index_of(row as int, col as int) {
                Some(i) => if old(self).data.data_type() is Int8 {
                    old(self).data.real_bits().update(i, value.bits())
                } else {
                    old(self).data.real_bits()
                },
                None => old(self).data.real_bits(),
            },
    {
        if matches!(self.data, NumericData::Int8 { .. }) {
            proof {
                value.lemma_bits_bound();
            }
            self.set_real_bits(row, col, value.to_bits());
        }
    }

    /// Writes `value` at `(row, col)` of an `UInt8` array; other classes and positions
    /// outside the array change nothing.
    pub fn set_uint8(&mut self, row: usize, col: usize, value: u8)
        ensures
            final(self).array_flags == old(self).array_flags,
            final(self).name == old(self).name,
            final(self).size == old(self).size,
            final(self).data.data_type() == old(self).data.data_type(),
            final(self).data.imag_bits() == old(self).data.imag_bits(),
            final(self).data.real_bits() == match old(self).index_of(row as int, col as int) {
                Some(i) => if old(self).data.data_type() is UInt8 {
                    old(self).data.real_bits().update(i, value.bits())
                } else {
                    old(self).data.real_bits()
                },
                None => old(self).data.real_bits(),
            },
    {
        if matches!(self.data, NumericData::UInt8 { .. }) {
            proof {
                value.lemma_bits_bound();
            }
            self.set_real_bits(row, col, value.to_bits());
        }
    }

    /// Writes `value` at `(row, col)` of an `Int16` array; other classes and positions
    /// outside the array change nothing.
    pub fn set_int16(&mut self, row: usize, col: usize, value: i16)
        ensures
            final(self).array_flags == old(self).array_flags,
            final(self).name == old(self).name,
            final(self).size == old(self).size,
            final(self).data.data_type() == old(self).data.data_type(),
            final(self).data.imag_bits() == old(self).data.imag_bits(),
            final(self).data.real_bits() == match old(self).index_of(row as int, col as int) {
                Some(i) => if old(self).data.data_type() is Int16 {
                    old(self).data.real_bits().update(i, value.bits())
                } else {
                    old(self).data.real_bits()
                },
                None => old(self).data.real_bits(),
            },
    {
        if matches!(self.data, NumericData::Int16 { .. }) {
            proof {
                value.lemma_bits_bound();
            }
            self.set_real_bits(row, col, value.to_bits());
        }
    }

    /// Writes `value` at `(row, col)` of an `UInt16` array; other classes and positions
    /// outside the array change nothing.
    pub fn set_uint16(&mut self, row: usize, col: usize, value: u16)
        ensures
            final(self).array_flags == old(self).array_flags,
            final(self).name == old(self).name,
            final(self).size == old(self).size,
            final(self).data.data_type() == old(self).data.data_type(),
            final(self).data.imag_bits() == old(self).data.imag_bits(),
            final(self).data.real_bits() == match old(self).index_of(row as int, col as int) {
                Some(i) => if old(self).data.data_type() is UInt16 {
                    old(self).data.real_bits().update(i, value.bits())
                } else {
                    old(self).data.real_bits()
                },
                None => old(self).data.real_bits(),
            },
    {
        if matches!(self.data, NumericData::UInt16 { .. }) {
            proof {
                value.lemma_bits_bound();
            }
            self.set_real_bits(row, col, value.to_bits());
        }
    }

    /// Writes `value` at `(row, col)` of an `Int32` array; other classes and positions
    /// outside the array change nothing.
    pub fn set_int32(&mut self, row: usize, col: usize, value: i32)
        ensures
            final(self).array_flags == old(self).array_flags,
            final(self).name == old(self).name,
            final(self).size == old(self).size,
            final(self).data.data_type() == old(self).data.data_type(),
            final(self).data.imag_bits() == old(self).data.imag_bits(),
            final(self).data.real_bits() == match old(self).index_of(row as int, col as int) {
                Some(i) => if old(self).data.data_type() is Int32 {
                    old(self).data.real_bits().update(i, value.bits())
                } else {
                    old(self).data.real_bits()
                },
                None => old(self).data.real_bits(),
            },
    {
        if matches!(self.data, NumericData::Int32 { .. }) {
            proof {
                value.lemma_bits_bound();
            }
            self.set_real_bits(row, col, value.to_bits());
        }
    }

    /// Writes `value` at `(row, col)` of an `UInt32` array; other classes and positions
    /// outside the array change nothing.
    pub fn set_uint32(&mut self, row: usize, col: usize, value: u32)
        ensures
            final(self).array_flags == old(self).array_flags,
            final(self).name == old(self).name,
            final(self).size == old(self).size,
            final(self).data.data_type() == old(self).data.data_type(),
            final(self).data.imag_bits() == old(self).data.imag_bits(),
            final(self).data.real_bits() == match old(self).index_of(row as int, col as int) {
                Some(i) => if old(self).data.data_type() is UInt32 {
                    old(self).data.real_bits().update(i, value.bits())
                } else {
                    old(self).data.real_bits()
                },
                None => old(self).data.real_bits(),
            },
    {
        if matches!(self.data, NumericData::UInt32 { .. }) {
            proof {
                value.lemma_bits_bound();
            }
            self.set_real_bits(row, col, value.to_bits());
        }
    }

    /// Writes `value` at `(row, col)` of an `Int64` array; other classes and positions
    /// outside the array change nothing.
    pub fn set_int64(&mut self, row: usize, col: usize, value: i64)
        ensures
            final(self).array_flags == old(self).array_flags,
            final(self).name == old(self).name,
            final(self).size == old(self).size,
            final(self).data.data_type() == old(self).data.data_type(),
            final(self).data.imag_bits() == old(self).data.imag_bits(),
            final(self).data.real_bits() == match old(self).index_of(row as int, col as int) {
                Some(i) => if old(self).data.data_type() is Int64 {
                    old(self).data.real_bits().update(i, value.bits())
                } else {
                    old(self).data.real_bits()
                },
                None => old(self).data.real_bits(),
            },
    {
        if matches!(self.data, NumericData::Int64 { .. }) {
            proof {
                value.lemma_bits_bound();
            }
            self.set_real_bits(row, col, value.to_bits());
        }
    }

    /// Writes `value` at `(row, col)` of an `UInt64` array; other classes and positions
    /// outside the array change nothing.
    pub fn set_uint64(&mut self, row: usize, col: usize, value: u64)
        ensures
            final(self).array_flags == old(self).array_flags,
            final(self).name == old(self).name,
            final(self).size == old(self).size,
            final(self).data.data_type() == old(self).data.data_type(),
            final(self).data.imag_bits() == old(self).data.imag_bits(),
            final(self).data.real_bits() == match old(self).index_of(row as int, col as int) {
                Some(i) => if old(self).data.data_type() is UInt64 {
                    old(self).data.real_bits().update(i, value.bits())
                } else {
                    old(self).data.real_bits()
                },
                None => old(self).data.real_bits(),
            },
    {
        if matches!(self.data, NumericData::UInt64 { .. }) {
            proof {
                value.lemma_bits_bound();
            }
            self.set_real_bits(row, col, value.to_bits());
        }
    }

    /// Writes the IEEE-754 bits `value` at `(row, col)` of a `Single` array; other classes
    /// and positions outside the array change nothing.
    pub fn set_single(&mut self, row: usize, col: usize, value: u32)
        ensures
            final(self).array_flags == old(self).array_flags,
            final(self).name == old(self).name,
            final(self).size == old(self).size,
            final(self).data.data_type() == old(self).data.data_type(),
            final(self).data.imag_bits() == old(self).data.imag_bits(),
            final(self).data.real_bits() == match old(self).index_of(row as int, col as int) {
                Some(i) => if old(self).data.data_type() is Single {
                    old(self).data.real_bits().update(i, value as u64)
                } else {
                    old(self).data.real_bits()
                },
                None => old(self).data.real_bits(),
            },
    {
        if matches!(self.data, NumericData::Single { .. }) {
            proof {
                value.lemma_bits_bound();
            }
            self.set_real_bits(row, col, value as u64);
        }
    }

    /// Writes the IEEE-754 bits `value` at `(row, col)` of a `Double` array; other classes
    /// and positions outside the array change nothing.
    pub fn set_double(&mut self, row: usize, col: usize, value: u64)
        ensures
            final(self).array_flags == old(self).array_flags,
            final(self).name == old(self).name,
            final(self).size == old(self).size,
            final(self).data.data_type() == old(self).data.data_type(),
            final(self).data.imag_bits() == old(self).data.imag_bits(),
            final(self).data.real_bits() == match old(self).index_of(row as int, col as int) {
                Some(i) => if old(self).data.data_type() is Double {
                    old(self).data.real_bits().update(i, value as u64)
                } else {
                    old(self).data.real_bits()
                },
                None => old(self).data.real_bits(),
            },
    {
        if matches!(self.data, NumericData::Double { .. }) {
            proof {
                value.lemma_bits_bound();
            }
            self.set_real_bits(row, col, value as u64);
        }
    }

    /// Writes `bits` at `(row, col)` of the imaginary part; an index outside the array, a
    /// real array, or bits too wide for the element type, change nothing.
    pub fn set_imag_bits(&mut self, row: usize, col: usize, bits: u64)
        requires
            old(self).data.parts_agree(),
        ensures
            final(self).array_flags == old(self).array_flags,
            final(self).name == old(self).name,
            final(self).size == old(self).size,
            final(self).data.data_type() == old(self).data.data_type(),
            final(self).data.real_bits() == old(self).data.real_bits(),
            final(self).data.imag_bits() == match (
                old(self).index_of(row as int, col as int),
                old(self).data.imag_bits(),
            ) {
                (Some(i), Some(im)) => if bits < pow256(old(self).data.data_type().width()) {
                    Some(im.update(i, bits))
                } else {
                    Some(im)
                },
                _ => old(self).data.imag_bits(),
            },
    {
        match self.position(row, col) {
            Some(i) => self.data.set_imag(i, bits),
            None => {},
        }
    }
}

/// Writes `x` at `i` when `i` is in range.
fn set_in<T: Element>(v: &mut Vec<T>, i: usize, x: T)
    ensures
        bits_seq(final(v)@) == if i < old(v)@.len() {
            bits_seq(old(v)@).update(i as int, x.bits())
        } else {
            bits_seq(old(v)@)
        },
{
    if i < v.len() {
        v.set(i, x);
        assert(bits_seq(v@) =~= bits_seq(old(v)@).update(i as int, x.bits()));
    }
}

impl NumericData {
    pub fn real_len(&self) -> (r: usize)
        ensures
            r == self.real_bits().len(),
    {
        match self {
            NumericData::Int8 { real: x, .. } => x.len(),
            NumericData::UInt8 { real: x, .. } => x.len(),
            NumericData::Int16 { real: x, .. } => x.len(),
            NumericData::UInt16 { real: x, .. } => x.len(),
            NumericData::Int32 { real: x, .. } => x.len(),
            NumericData::UInt32 { real: x, .. } => x.len(),
            NumericData::Int64 { real: x, .. } => x.len(),
            NumericData::UInt64 { real: x, .. } => x.len(),
            NumericData::Single { real: x, .. } => x.len(),
            NumericData::Double { real: x, .. } => x.len(),
        }
    }

    /// Writes `bits` at `i` of the real part when `i` is in range and the bits fit.
    pub fn set_real(&mut self, i: usize, bits: u64)
        ensures
            final(self).data_type() == old(self).data_type(),
            final(self).imag_bits() == old(self).imag_bits(),
            final(self).real_bits() == if i < old(self).real_bits().len() && bits < pow256(
                old(self).data_type().width(),
            ) {
                old(self).real_bits().update(i as int, bits)
            } else {
                old(self).real_bits()
            },
    {
        proof {
            lemma_pow256_values();
        }
        match self {
            NumericData::Int8 { real: x, .. } => if bits < 0x100 {
                set_in(x, i, i8::from_bits(bits))
            },
            NumericData::UInt8 { real: x, .. } => if bits < 0x100 {
                set_in(x, i, u8::from_bits(bits))
            },
            NumericData::Int16 { real: x, .. } => if bits < 0x1_0000 {
                set_in(x, i, i16::from_bits(bits))
            },
            NumericData::UInt16 { real: x, .. } => if bits < 0x1_0000 {
                set_in(x, i, u16::from_bits(bits))
            },
            NumericData::Int32 { real: x, .. } => if bits < 0x1_0000_0000 {
                set_in(x, i, i32::from_bits(bits))
            },
            NumericData::UInt32 { real: x, .. } => if bits < 0x1_0000_0000 {
                set_in(x, i, u32::from_bits(bits))
            },
            NumericData::Int64 { real: x, .. } => set_in(x, i, i64::from_bits(bits)),
            NumericData::UInt64 { real: x, .. } => set_in(x, i, bits),
            NumericData::Single { real: x, .. } => if bits < 0x1_0000_0000 {
                set_in(x, i, u32::from_bits(bits))
            },
            NumericData::Double { real: x, .. } => set_in(x, i, bits),
        }
    }
    /// Writes `bits` at `i` of the imaginary part when there is one, `i` is in range and the
    /// bits fit.
    pub fn set_imag(&mut self, i: usize, bits: u64)
        ensures
            final(self).data_type() == old(self).data_type(),
            final(self).real_bits() == old(self).real_bits(),
            final(self).imag_bits() == match old(self).imag_bits() {
                Some(im) => if i < im.len() && bits < pow256(old(self).data_type().width()) {
                    Some(im.update(i as int, bits))
                } else {
                    Some(im)
                },
                None => None,
            },
    {
        proof {
            lemma_pow256_values();
        }
        match self {
            NumericData::Int8 { imag: Some(x), .. } => if bits < 0x100 {
                set_in(x, i, i8::from_bits(bits))
            },
            NumericData::UInt8 { imag: Some(x), .. } => if bits < 0x100 {
                set_in(x, i, u8::from_bits(bits))
            },
            NumericData::Int16 { imag: Some(x), .. } => if bits < 0x1_0000 {
                set_in(x, i, i16::from_bits(bits))
            },
            NumericData::UInt16 { imag: Some(x), .. } => if bits < 0x1_0000 {
                set_in(x, i, u16::from_bits(bits))
            },
            NumericData::Int32 { imag: Some(x), .. } => if bits < 0x1_0000_0000 {
                set_in(x, i, i32::from_bits(bits))
            },
            NumericData::UInt32 { imag: Some(x), .. } => if bits < 0x1_0000_0000 {
                set_in(x, i, u32::from_bits(bits))
            },
            NumericData::Int64 { imag: Some(x), .. } => set_in(x, i, i64::from_bits(bits)),
            NumericData::UInt64 { imag: Some(x), .. } => set_in(x, i, u64::from_bits(bits)),
            NumericData::Single { imag: Some(x), .. } => if bits < 0x1_0000_0000 {
                set_in(x, i, u32::from_bits(bits))
            },
            NumericData::Double { imag: Some(x), .. } => set_in(x, i, u64::from_bits(bits)),
            _ => {},
        }
    }
}

fn zero_bits(n: usize) -> (r: Vec<u64>)
    ensures
        r@ == zero_seq(n as nat),
{
    let mut r: Vec<u64> = Vec::new();
    let mut i: usize = 0;
    while i < n
        invariant
            i <= n,
            r@ =~= zero_seq(i as nat),
        decreases n - i,
    {
        r.push(0);
        i = i + 1;
        assert(r@ =~= zero_seq(i as nat));
    }
    r
}

fn opt_from<T: Element>(v: &Option<Vec<u64>>) -> (r: Option<Vec<T>>)
    requires
        v matches Some(x) ==> fits(x@, T::size()),
    ensures
        opt_bits(r) == match v {
            Some(x) => Some(x@),
            None => None::<Seq<u64>>,
        },
{
    match v {
        Some(x) => Some(from_bits_vec(x)),
        None => None,
    }
}

pub open spec fn opt_view(v: Option<Vec<u64>>) -> Option<Seq<u64>> {
    match v {
        Some(x) => Some(x@),
        None => None,
    }
}

impl NumericData {
    /// Typed storage of element type `t` holding the given bits.
    pub fn from_bits(t: DataType, re: &Vec<u64>, im: &Option<Vec<u64>>) -> (r: NumericData)
        requires
            t.is_numeric(),
            fits(re@, t.width()),
            im matches Some(x) ==> fits(x@, t.width()),
        ensures
            r.data_type() == t,
            r.real_bits() == re@,
            r.imag_bits() == opt_view(*im),
    {
        match t {
            DataType::Int8 => NumericData::Int8 { real: from_bits_vec(re), imag: opt_from(im) },
            DataType::UInt8 => NumericData::UInt8 { real: from_bits_vec(re), imag: opt_from(im) },
            DataType::Int16 => NumericData::Int16 { real: from_bits_vec(re), imag: opt_from(im) },
            DataType::UInt16 => NumericData::UInt16 { real: from_bits_vec(re), imag: opt_from(im) },
            DataType::Int32 => NumericData::Int32 { real: from_bits_vec(re), imag: opt_from(im) },
            DataType::UInt32 => NumericData::UInt32 { real: from_bits_vec(re), imag: opt_from(im) },
            DataType::Int64 => NumericData::Int64 { real: from_bits_vec(re), imag: opt_from(im) },
            DataType::UInt64 => NumericData::UInt64 { real: from_bits_vec(re), imag: opt_from(im) },
            DataType::Single => NumericData::Single { real: from_bits_vec(re), imag: opt_from(im) },
            _ => NumericData::Double { real: from_bits_vec(re), imag: opt_from(im) },
        }
    }

    /// Zero-filled storage of `n` numbers for class `class`, with an imaginary part when
    /// `complex`; none for a class that is not numeric.
    pub fn zeroed(class: MatlabType, n: usize, complex: bool) -> (r: Option<NumericData>)
        ensures
            r is Some <==> class.is_numeric(),
            r matches Some(d) ==> Some(d.data_type()) == class.natural_type() && d.real_bits()
                == zero_seq(n as nat) && d.imag_bits() == if complex {
                Some(zero_seq(n as nat))
            } else {
                None
            },
    {
        let t = match class.numeric_data_type() {
            Some(t) => t,
            None => return None,
        };
        proof {
            lemma_pow256_values();
            crate::primitive::lemma_pow256_mono(0, t.width());
        }
        let re = zero_bits(n);
        let im = if complex {
            Some(zero_bits(n))
        } else {
            None
        };
        Some(NumericData::from_bits(t, &re, &im))
    }

    /// Brings the numbers read for an array to the natural type of class `target_type`.
    pub fn try_from(target_type: MatlabType, re_part: RawPart, imag: Option<RawPart>) -> (r: Result<
        NumericData,
        MatError,
    >)
        requires
            fits(re_part.bits@, re_part.data_type.width()),
            imag matches Some(x) ==> fits(x.bits@, x.data_type.width()),
        ensures
            r is Ok <==> permitted(re_part.data_type, target_type) && (imag matches Some(x)
                ==> permitted(x.data_type, target_type)),
            r matches Ok(d) ==> Some(d.data_type()) == target_type.natural_type() && d.real_bits()
                == coerced_seq(re_part.data_type, target_type, re_part.bits@) && d.imag_bits()
                == match imag {
                Some(x) => Some(coerced_seq(x.data_type, target_type, x.bits@)),
                None => None,
            },
            r matches Err(k) ==> k is ConversionError,
    {
        let re = try_convert_number_format(target_type, re_part)?;
        let im = match imag {
            Some(x) => Some(try_convert_number_format(target_type, x)?),
            None => None,
        };
        let t = re.data_type;
        let im_bits = match im {
            Some(x) => Some(x.bits),
            None => None,
        };
        Ok(NumericData::from_bits(t, &re.bits, &im_bits))
    }
}

/// Relies on `u16::to_ne_bytes`: the two bytes of 1 in the host's byte order.
#[verifier::external_body]
fn host_order_of_one() -> (r: [u8; 2])
    ensures
        r@ == bytes_le(1, 2) || r@ == bytes_be(1, 2),
{
    1u16.to_ne_bytes()
}

fn same_bytes(a: &[u8], b: &[u8]) -> (r: bool)
    ensures
        r == (a@ == b@),
{
    if a.len() != b.len() {
        return false;
    }
    let mut i: usize = 0;
    while i < a.len()
        invariant
            i <= a@.len() == b@.len(),
            a@.subrange(0, i as int) == b@.subrange(0, i as int),
        decreases a@.len() - i,
    {
        if a[i] != b[i] {
            assert(a@[i as int] != b@[i as int]);
            return false;
        }
        assert(a@.subrange(0, i + 1) =~= a@.subrange(0, i as int).push(a@[i as int]));
        assert(b@.subrange(0, i + 1) =~= b@.subrange(0, i as int).push(b@[i as int]));
        i = i + 1;
    }
    assert(a@.subrange(0, i as int) =~= a@);
    assert(b@.subrange(0, i as int) =~= b@);
    true
}

impl MatFile {
    /// An empty file in the host's byte order.
    pub fn new_mat_file() -> (r: MatFile)
        ensures
            r.arrays@.len() == 0,
            r.header.version == 0x0100,
            r.header.mat_identifier@ == "MATLAB 5.0 MAT-file"@,
            r.header.description@.len() == 0,
            r.header.subsys_offset == 0,
            r.header.deflate_level == 1,
    {
        let one = host_order_of_one();
        let order = if one[0] == 1 {
            Endianness::Little
        } else {
            Endianness::Big
        };
        MatFile {
            arrays: Vec::new(),
            header: Header {
                version: 0x0100,
                mat_identifier: "MATLAB 5.0 MAT-file".to_owned(),
                description: String::new(),
                byte_order: order,
                subsys_offset: 0,
                deflate_level: 1,
            },
        }
    }

    /// Appends `array`; returns the file for further calls.
    pub fn add_array(&mut self, array: Array) -> (r: &mut MatFile)
        ensures
            r.header == old(self).header,
            r.arrays@ == old(self).arrays@.push(array),
            *final(self) == *final(r),
    {
        self.arrays.push(array);
        self
    }

    /// The first array named `name`.
    pub fn find_by_name(&self, name: &str) -> (r: Option<&Array>)
        ensures
            r matches Some(a) ==> exists|i: int|
                0 <= i < self.arrays@.len() && *a == self.arrays@[i] && self.arrays@[i].name@
                    == name@ && forall|j: int| 0 <= j < i ==> self.arrays@[j].name@ != name@,
            r is None ==> forall|i: int| 0 <= i < self.arrays@.len() ==> self.arrays@[i].name@ != name@,
    {
        let target = name.as_bytes();
        let mut i: usize = 0;
        while i < self.arrays.len()
            invariant
                i <= self.arrays@.len(),
                target@ == encode_utf8(name@),
                forall|j: int| 0 <= j < i ==> self.arrays@[j].name@ != name@,
            decreases self.arrays@.len() - i,
        {
            let a = &self.arrays[i];
            let candidate = a.name.as_str().as_bytes();
            proof {
                encode_utf8_decode_utf8(a.name@);
                encode_utf8_decode_utf8(name@);
            }
            if same_bytes(candidate, target) {
                return Some(a);
            }
            i = i + 1;
        }
        None
    }

    /// A zero-filled `rows` by `cols` array of class `mat_type`, with an imaginary part when
    /// `complex`.
    pub fn new_matrix(name: &str, rows: usize, cols: usize, complex: bool, mat_type: MatlabType) -> (r:
        Result<Array, MatError>)
        ensures
            r is Ok <==> mat_type.is_numeric() && rows * cols <= usize::MAX,
            r matches Ok(a) ==> {
                &&& a.wf()
                &&& a.name@ == name@
                &&& a.size@ == seq![rows, cols]
                &&& a.array_flags == ArrayFlags {
                    complex,
                    global: false,
                    logical: false,
                    class: mat_type,
                    nzmax: 0,
                }
                &&& a.data.real_bits() == zero_seq((rows * cols) as nat)
                &&& a.data.imag_bits() == if complex {
                    Some(zero_seq((rows * cols) as nat))
                } else {
                    None
                }
            },
            r matches Err(k) ==> k is ParamsError,
    {
        let r128 = rows as u128;
        let c128 = cols as u128;
        assert(r128 * c128 <= 0xffff_ffff_ffff_ffff * 0xffff_ffff_ffff_ffff) by (nonlinear_arith)
            requires
                r128 <= 0xffff_ffff_ffff_ffff,
                c128 <= 0xffff_ffff_ffff_ffff,
        ;
        let n: u128 = r128 * c128;
        if n > usize::MAX as u128 {
            return Err(MatError::ParamsError("the array has too many elements".to_owned()));
        }
        let count = n as usize;
        let data = match NumericData::zeroed(mat_type, count, complex) {
            Some(d) => d,
            None => return Err(MatError::ParamsError("the class is not numeric".to_owned())),
        };
        let array_flags = ArrayFlags {
            complex,
            global: false,
            logical: false,
            class: mat_type,
            nzmax: 0,
        };
        let mut size: Vec<usize> = Vec::new();
        size.push(rows);
        size.push(cols);
        proof {
            reveal_with_fuel(size_product, 3);
            assert(size@.drop_last().drop_last() =~= Seq::<usize>::empty());
        }
        Ok(Array { array_flags, name: name.to_owned(), size, data })
    }
}

} // verus!
