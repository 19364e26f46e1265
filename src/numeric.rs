//! Typed numeric storage and its raw bit view.
use vstd::prelude::*;
use crate::primitive::{lemma_pow256_values, pow256};
use crate::types::DataType;

verus! {

/// A number stored in a fixed number of bytes; floats are held as their bit patterns.
pub trait Element: Sized + Copy {
    /// The element's bits, zero-extended to 64.
    spec fn bits(self) -> u64;

    /// Bytes per element.
    spec fn size() -> nat;

    fn to_bits(self) -> (r: u64)
        ensures
            r == self.bits(),
    ;

    fn from_bits(r: u64) -> (x: Self)
        requires
            r < pow256(Self::size()),
        ensures
            x.bits() == r,
    ;

    proof fn lemma_bits_bound(self)
        ensures
            self.bits() < pow256(Self::size()),
    ;
}

impl Element for i8 {
    open spec fn bits(self) -> u64 {
        self as u8 as u64
    }

    open spec fn size() -> nat {
        1
    }

    fn to_bits(self) -> (r: u64) {
        self as u8 as u64
    }

    fn from_bits(r: u64) -> (x: i8) {
        proof {
            lemma_pow256_values();
        }
        assert(r < 0x100 ==> (r as u8) as i8 as u8 as u64 == r) by (bit_vector);
        r as u8 as i8
    }

    proof fn lemma_bits_bound(self) {
        lemma_pow256_values();
        let x = self;
        assert((x as u8 as u64) < 0x100) by (bit_vector);
    }
}

impl Element for u8 {
    open spec fn bits(self) -> u64 {
        self as u64
    }

    open spec fn size() -> nat {
        1
    }

    fn to_bits(self) -> (r: u64) {
        self as u64
    }

    fn from_bits(r: u64) -> (x: u8) {
        proof {
            lemma_pow256_values();
        }
        r as u8
    }

    proof fn lemma_bits_bound(self) {
        lemma_pow256_values();
    }
}

impl Element for i16 {
    open spec fn bits(self) -> u64 {
        self as u16 as u64
    }

    open spec fn size() -> nat {
        2
    }

    fn to_bits(self) -> (r: u64) {
        self as u16 as u64
    }

    fn from_bits(r: u64) -> (x: i16) {
        proof {
            lemma_pow256_values();
        }
        assert(r < 0x1_0000 ==> (r as u16) as i16 as u16 as u64 == r) by (bit_vector);
        r as u16 as i16
    }

    proof fn lemma_bits_bound(self) {
        lemma_pow256_values();
        let x = self;
        assert((x as u16 as u64) < 0x1_0000) by (bit_vector);
    }
}

impl Element for u16 {
    open spec fn bits(self) -> u64 {
        self as u64
    }

    open spec fn size() -> nat {
        2
    }

    fn to_bits(self) -> (r: u64) {
        self as u64
    }

    fn from_bits(r: u64) -> (x: u16) {
        proof {
            lemma_pow256_values();
        }
        r as u16
    }

    proof fn lemma_bits_bound(self) {
        lemma_pow256_values();
    }
}

impl Element for i32 {
    open spec fn bits(self) -> u64 {
        self as u32 as u64
    }

    open spec fn size() -> nat {
        4
    }

    fn to_bits(self) -> (r: u64) {
        self as u32 as u64
    }

    fn from_bits(r: u64) -> (x: i32) {
        proof {
            lemma_pow256_values();
        }
        assert(r < 0x1_0000_0000 ==> (r as u32) as i32 as u32 as u64 == r) by (bit_vector);
        r as u32 as i32
    }

    proof fn lemma_bits_bound(self) {
        lemma_pow256_values();
        let x = self;
        assert((x as u32 as u64) < 0x1_0000_0000) by (bit_vector);
    }
}

impl Element for u32 {
    open spec fn bits(self) -> u64 {
        self as u64
    }

    open spec fn size() -> nat {
        4
    }

    fn to_bits(self) -> (r: u64) {
        self as u64
    }

    fn from_bits(r: u64) -> (x: u32) {
        proof {
            lemma_pow256_values();
        }
        r as u32
    }

    proof fn lemma_bits_bound(self) {
        lemma_pow256_values();
    }
}

impl Element for i64 {
    open spec fn bits(self) -> u64 {
        self as u64
    }

    open spec fn size() -> nat {
        8
    }

    fn to_bits(self) -> (r: u64) {
        self as u64
    }

    fn from_bits(r: u64) -> (x: i64) {
        assert((r as i64) as u64 == r) by (bit_vector);
        r as i64
    }

    proof fn lemma_bits_bound(self) {
        lemma_pow256_values();
    }
}

impl Element for u64 {
    open spec fn bits(self) -> u64 {
        self
    }

    open spec fn size() -> nat {
        8
    }

    fn to_bits(self) -> (r: u64) {
        self
    }

    fn from_bits(r: u64) -> (x: u64) {
        r
    }

    proof fn lemma_bits_bound(self) {
        lemma_pow256_values();
    }
}

pub open spec fn bits_seq<T: Element>(v: Seq<T>) -> Seq<u64> {
    Seq::new(v.len(), |i: int| v[i].bits())
}

/// Every entry of `r` fits in `n` bytes.
pub open spec fn fits(r: Seq<u64>, n: nat) -> bool {
    forall|i: int| 0 <= i < r.len() ==> r[i] < pow256(n)
}

/// The bits of each element of `v`.
pub fn to_bits_vec<T: Element>(v: &Vec<T>) -> (r: Vec<u64>)
    ensures
        r@ == bits_seq(v@),
{
    let mut r: Vec<u64> = Vec::new();
    let mut i: usize = 0;
    while i < v.len()
        invariant
            i <= v@.len(),
            r@ =~= bits_seq(v@.subrange(0, i as int)),
        decreases v@.len() - i,
    {
        let b = v[i].to_bits();
        r.push(b);
        i = i + 1;
        assert(r@ =~= bits_seq(v@.subrange(0, i as int)));
    }
    assert(v@.subrange(0, i as int) =~= v@);
    r
}

/// The elements whose bits are `r`.
pub fn from_bits_vec<T: Element>(r: &Vec<u64>) -> (v: Vec<T>)
    requires
        fits(r@, T::size()),
    ensures
        bits_seq(v@) == r@,
{
    let mut v: Vec<T> = Vec::new();
    let mut i: usize = 0;
    while i < r.len()
        invariant
            i <= r@.len(),
            fits(r@, T::size()),
            bits_seq(v@) =~= r@.subrange(0, i as int),
        decreases r@.len() - i,
    {
        let x = T::from_bits(r[i]);
        let ghost old_v = v@;
        assert(bits_seq(old_v).len() == i);
        v.push(x);
        proof {
            assert forall|k: int| 0 <= k < v@.len() implies #[trigger] bits_seq(v@)[k] == r@[k] by {
                if k < i {
                    assert(v@[k] == old_v[k]);
                    assert(bits_seq(old_v)[k] == r@.subrange(0, i as int)[k]);
                }
            }
        }
        i = i + 1;
        assert(bits_seq(v@) =~= r@.subrange(0, i as int));
    }
    assert(r@.subrange(0, i as int) =~= r@);
    v
}

/// The values of an array, one variant per numeric class, each with a real part and an
/// optional imaginary part. `Single` and `Double` hold IEEE-754 bit patterns.
#[derive(Clone, Debug)]
pub enum NumericData {
    Int8 { real: Vec<i8>, imag: Option<Vec<i8>> },
    UInt8 { real: Vec<u8>, imag: Option<Vec<u8>> },
    Int16 { real: Vec<i16>, imag: Option<Vec<i16>> },
    UInt16 { real: Vec<u16>, imag: Option<Vec<u16>> },
    Int32 { real: Vec<i32>, imag: Option<Vec<i32>> },
    UInt32 { real: Vec<u32>, imag: Option<Vec<u32>> },
    Int64 { real: Vec<i64>, imag: Option<Vec<i64>> },
    UInt64 { real: Vec<u64>, imag: Option<Vec<u64>> },
    Single { real: Vec<u32>, imag: Option<Vec<u32>> },
    Double { real: Vec<u64>, imag: Option<Vec<u64>> },
}

pub open spec fn opt_bits<T: Element>(v: Option<Vec<T>>) -> Option<Seq<u64>> {
    match v {
        Some(x) => Some(bits_seq(x@)),
        None => None,
    }
}

impl NumericData {
    /// Element type of the stored values.
    pub open spec fn data_type(self) -> DataType {
        match self {
            NumericData::Int8 { .. } => DataType::Int8,
            NumericData::UInt8 { .. } => DataType::UInt8,
            NumericData::Int16 { .. } => DataType::Int16,
            NumericData::UInt16 { .. } => DataType::UInt16,
            NumericData::Int32 { .. } => DataType::Int32,
            NumericData::UInt32 { .. } => DataType::UInt32,
            NumericData::Int64 { .. } => DataType::Int64,
            NumericData::UInt64 { .. } => DataType::UInt64,
            NumericData::Single { .. } => DataType::Single,
            NumericData::Double { .. } => DataType::Double,
        }
    }

    /// Bits of the real part.
    pub open spec fn real_bits(self) -> Seq<u64> {
        match self {
            NumericData::Int8 { real: x, .. } => bits_seq(x@),
            NumericData::UInt8 { real: x, .. } => bits_seq(x@),
            NumericData::Int16 { real: x, .. } => bits_seq(x@),
            NumericData::UInt16 { real: x, .. } => bits_seq(x@),
            NumericData::Int32 { real: x, .. } => bits_seq(x@),
            NumericData::UInt32 { real: x, .. } => bits_seq(x@),
            NumericData::Int64 { real: x, .. } => bits_seq(x@),
            NumericData::UInt64 { real: x, .. } => bits_seq(x@),
            NumericData::Single { real: x, .. } => bits_seq(x@),
            NumericData::Double { real: x, .. } => bits_seq(x@),
        }
    }

    /// Bits of the imaginary part, if there is one.
    pub open spec fn imag_bits(self) -> Option<Seq<u64>> {
        match self {
            NumericData::Int8 { imag, .. } => opt_bits(imag),
            NumericData::UInt8 { imag, .. } => opt_bits(imag),
            NumericData::Int16 { imag, .. } => opt_bits(imag),
            NumericData::UInt16 { imag, .. } => opt_bits(imag),
            NumericData::Int32 { imag, .. } => opt_bits(imag),
            NumericData::UInt32 { imag, .. } => opt_bits(imag),
            NumericData::Int64 { imag, .. } => opt_bits(imag),
            NumericData::UInt64 { imag, .. } => opt_bits(imag),
            NumericData::Single { imag, .. } => opt_bits(imag),
            NumericData::Double { imag, .. } => opt_bits(imag),
        }
    }

    /// Real and imaginary parts agree in length.
    pub open spec fn parts_agree(self) -> bool {
        self.imag_bits() matches Some(im) ==> im.len() == self.real_bits().len()
    }

    /// The bits of the real part.
    pub fn real_bits_vec(&self) -> (r: Vec<u64>)
        ensures
            r@ == self.real_bits(),
    {
        match self {
            NumericData::Int8 { real: x, .. } => to_bits_vec(x),
            NumericData::UInt8 { real: x, .. } => to_bits_vec(x),
            NumericData::Int16 { real: x, .. } => to_bits_vec(x),
            NumericData::UInt16 { real: x, .. } => to_bits_vec(x),
            NumericData::Int32 { real: x, .. } => to_bits_vec(x),
            NumericData::UInt32 { real: x, .. } => to_bits_vec(x),
            NumericData::Int64 { real: x, .. } => to_bits_vec(x),
            NumericData::UInt64 { real: x, .. } => to_bits_vec(x),
            NumericData::Single { real: x, .. } => to_bits_vec(x),
            NumericData::Double { real: x, .. } => to_bits_vec(x),
        }
    }

    /// The bits of the imaginary part, if there is one.
    pub fn imag_bits_vec(&self) -> (r: Option<Vec<u64>>)
        ensures
            r matches Some(v) ==> self.imag_bits() == Some(v@),
            r is None ==> self.imag_bits() is None,
    {
        match self {
            NumericData::Int8 { imag: Some(v), .. } => Some(to_bits_vec(v)),
            NumericData::UInt8 { imag: Some(v), .. } => Some(to_bits_vec(v)),
            NumericData::Int16 { imag: Some(v), .. } => Some(to_bits_vec(v)),
            NumericData::UInt16 { imag: Some(v), .. } => Some(to_bits_vec(v)),
            NumericData::Int32 { imag: Some(v), .. } => Some(to_bits_vec(v)),
            NumericData::UInt32 { imag: Some(v), .. } => Some(to_bits_vec(v)),
            NumericData::Int64 { imag: Some(v), .. } => Some(to_bits_vec(v)),
            NumericData::UInt64 { imag: Some(v), .. } => Some(to_bits_vec(v)),
            NumericData::Single { imag: Some(v), .. } => Some(to_bits_vec(v)),
            NumericData::Double { imag: Some(v), .. } => Some(to_bits_vec(v)),
            _ => None,
        }
    }

    pub fn element_type(&self) -> (r: DataType)
        ensures
            r == self.data_type(),
    {
        match self {
            NumericData::Int8 { .. } => DataType::Int8,
            NumericData::UInt8 { .. } => DataType::UInt8,
            NumericData::Int16 { .. } => DataType::Int16,
            NumericData::UInt16 { .. } => DataType::UInt16,
            NumericData::Int32 { .. } => DataType::Int32,
            NumericData::UInt32 { .. } => DataType::UInt32,
            NumericData::Int64 { .. } => DataType::Int64,
            NumericData::UInt64 { .. } => DataType::UInt64,
            NumericData::Single { .. } => DataType::Single,
            NumericData::Double { .. } => DataType::Double,
        }
    }
}

} // verus!
