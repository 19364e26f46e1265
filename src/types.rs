//! Wire element types, array classes, array flags and errors.
use vstd::prelude::*;

verus! {

/// Element type carried in a data element tag.
#[derive(Clone, Copy, Debug, PartialEq, Eq, Structural)]
pub enum DataType {
    Int8,
    UInt8,
    Int16,
    UInt16,
    Int32,
    UInt32,
    Single,
    Double,
    Int64,
    UInt64,
    Matrix,
    Compressed,
    Utf8,
    Utf16,
    Utf32,
}

impl DataType {
    /// Code of the type on the wire.
    pub open spec fn code(self) -> u32 {
        match self {
            DataType::Int8 => 1,
            DataType::UInt8 => 2,
            DataType::Int16 => 3,
            DataType::UInt16 => 4,
            DataType::Int32 => 5,
            DataType::UInt32 => 6,
            DataType::Single => 7,
            DataType::Double => 9,
            DataType::Int64 => 12,
            DataType::UInt64 => 13,
            DataType::Matrix => 14,
            DataType::Compressed => 15,
            DataType::Utf8 => 16,
            DataType::Utf16 => 17,
            DataType::Utf32 => 18,
        }
    }

    /// Bytes per element; types without an element size count as one.
    pub open spec fn width(self) -> nat {
        match self {
            DataType::Int16 | DataType::UInt16 | DataType::Utf16 => 2,
            DataType::Int32 | DataType::UInt32 | DataType::Single | DataType::Utf32 => 4,
            DataType::Int64 | DataType::UInt64 | DataType::Double => 8,
            _ => 1,
        }
    }

    /// The ten types that hold numbers.
    pub open spec fn is_numeric(self) -> bool {
        match self {
            DataType::Matrix | DataType::Compressed | DataType::Utf8 | DataType::Utf16
            | DataType::Utf32 => false,
            _ => true,
        }
    }

    pub open spec fn is_signed(self) -> bool {
        match self {
            DataType::Int8 | DataType::Int16 | DataType::Int32 | DataType::Int64 => true,
            _ => false,
        }
    }

    /// Whether a tag of this type may use the four-byte small form.
    pub open spec fn packable(self) -> bool {
        !(self is Matrix || self is Compressed)
    }

    pub fn to_u32(&self) -> (r: u32)
        ensures
            r == self.code(),
    {
        match self {
            DataType::Int8 => 1,
            DataType::UInt8 => 2,
            DataType::Int16 => 3,
            DataType::UInt16 => 4,
            DataType::Int32 => 5,
            DataType::UInt32 => 6,
            DataType::Single => 7,
            DataType::Double => 9,
            DataType::Int64 => 12,
            DataType::UInt64 => 13,
            DataType::Matrix => 14,
            DataType::Compressed => 15,
            DataType::Utf8 => 16,
            DataType::Utf16 => 17,
            DataType::Utf32 => 18,
        }
    }

    /// The type with wire code `v`, if there is one.
    pub open spec fn of_code(v: nat) -> Option<DataType> {
        if v == 1 {
            Some(DataType::Int8)
        } else if v == 2 {
            Some(DataType::UInt8)
        } else if v == 3 {
            Some(DataType::Int16)
        } else if v == 4 {
            Some(DataType::UInt16)
        } else if v == 5 {
            Some(DataType::Int32)
        } else if v == 6 {
            Some(DataType::UInt32)
        } else if v == 7 {
            Some(DataType::Single)
        } else if v == 9 {
            Some(DataType::Double)
        } else if v == 12 {
            Some(DataType::Int64)
        } else if v == 13 {
            Some(DataType::UInt64)
        } else if v == 14 {
            Some(DataType::Matrix)
        } else if v == 15 {
            Some(DataType::Compressed)
        } else if v == 16 {
            Some(DataType::Utf8)
        } else if v == 17 {
            Some(DataType::Utf16)
        } else if v == 18 {
            Some(DataType::Utf32)
        } else {
            None
        }
    }

    pub fn from_u32(v: u32) -> (r: Option<DataType>)
        ensures
            r == DataType::of_code(v as nat),
    {
        match v {
            1 => Some(DataType::Int8),
            2 => Some(DataType::UInt8),
            3 => Some(DataType::Int16),
            4 => Some(DataType::UInt16),
            5 => Some(DataType::Int32),
            6 => Some(DataType::UInt32),
            7 => Some(DataType::Single),
            9 => Some(DataType::Double),
            12 => Some(DataType::Int64),
            13 => Some(DataType::UInt64),
            14 => Some(DataType::Matrix),
            15 => Some(DataType::Compressed),
            16 => Some(DataType::Utf8),
            17 => Some(DataType::Utf16),
            18 => Some(DataType::Utf32),
            _ => None,
        }
    }

    pub fn byte_size(&self) -> (r: u32)
        ensures
            r == self.width(),
    {
        match self {
            DataType::Int16 | DataType::UInt16 | DataType::Utf16 => 2,
            DataType::Int32 | DataType::UInt32 | DataType::Single | DataType::Utf32 => 4,
            DataType::Int64 | DataType::UInt64 | DataType::Double => 8,
            _ => 1,
        }
    }

    pub fn is_numeric_type(&self) -> (r: bool)
        ensures
            r == self.is_numeric(),
    {
        match self {
            DataType::Matrix | DataType::Compressed | DataType::Utf8 | DataType::Utf16
            | DataType::Utf32 => false,
            _ => true,
        }
    }
}

/// Class of an array.
#[derive(Clone, Copy, Debug, PartialEq, Eq, Structural)]
pub enum MatlabType {
    Cell,
    Struct,
    Object,
    Char,
    Sparse,
    Double,
    Single,
    Int8,
    UInt8,
    Int16,
    UInt16,
    Int32,
    UInt32,
    Int64,
    UInt64,
    Function,
    Opaque,
}

impl MatlabType {
    /// Code of the class in the low byte of the flags word.
    pub open spec fn code(self) -> u32 {
        match self {
            MatlabType::Cell => 1,
            MatlabType::Struct => 2,
            MatlabType::Object => 3,
            MatlabType::Char => 4,
            MatlabType::Sparse => 5,
            MatlabType::Double => 6,
            MatlabType::Single => 7,
            MatlabType::Int8 => 8,
            MatlabType::UInt8 => 9,
            MatlabType::Int16 => 10,
            MatlabType::UInt16 => 11,
            MatlabType::Int32 => 12,
            MatlabType::UInt32 => 13,
            MatlabType::Int64 => 14,
            MatlabType::UInt64 => 15,
            MatlabType::Function => 16,
            MatlabType::Opaque => 17,
        }
    }

    /// Element type in which an array of this class stores its values.
    pub open spec fn natural_type(self) -> Option<DataType> {
        match self {
            MatlabType::Double => Some(DataType::Double),
            MatlabType::Single => Some(DataType::Single),
            MatlabType::Int8 => Some(DataType::Int8),
            MatlabType::UInt8 => Some(DataType::UInt8),
            MatlabType::Int16 => Some(DataType::Int16),
            MatlabType::UInt16 => Some(DataType::UInt16),
            MatlabType::Int32 => Some(DataType::Int32),
            MatlabType::UInt32 => Some(DataType::UInt32),
            MatlabType::Int64 => Some(DataType::Int64),
            MatlabType::UInt64 => Some(DataType::UInt64),
            _ => None,
        }
    }

    pub open spec fn is_numeric(self) -> bool {
        self.natural_type() is Some
    }

    pub fn numeric_data_type(&self) -> (r: Option<DataType>)
        ensures
            r == self.natural_type(),
    {
        match self {
            MatlabType::Double => Some(DataType::Double),
            MatlabType::Single => Some(DataType::Single),
            MatlabType::Int8 => Some(DataType::Int8),
            MatlabType::UInt8 => Some(DataType::UInt8),
            MatlabType::Int16 => Some(DataType::Int16),
            MatlabType::UInt16 => Some(DataType::UInt16),
            MatlabType::Int32 => Some(DataType::Int32),
            MatlabType::UInt32 => Some(DataType::UInt32),
            MatlabType::Int64 => Some(DataType::Int64),
            MatlabType::UInt64 => Some(DataType::UInt64),
            _ => None,
        }
    }

    pub fn to_u32(&self) -> (r: u32)
        ensures
            r == self.code(),
    {
        match self {
            MatlabType::Cell => 1,
            MatlabType::Struct => 2,
            MatlabType::Object => 3,
            MatlabType::Char => 4,
            MatlabType::Sparse => 5,
            MatlabType::Double => 6,
            MatlabType::Single => 7,
            MatlabType::Int8 => 8,
            MatlabType::UInt8 => 9,
            MatlabType::Int16 => 10,
            MatlabType::UInt16 => 11,
            MatlabType::Int32 => 12,
            MatlabType::UInt32 => 13,
            MatlabType::Int64 => 14,
            MatlabType::UInt64 => 15,
            MatlabType::Function => 16,
            MatlabType::Opaque => 17,
        }
    }

    /// The class with code `v`, if there is one.
    pub open spec fn of_code(v: nat) -> Option<MatlabType> {
        if v == 1 {
            Some(MatlabType::Cell)
        } else if v == 2 {
            Some(MatlabType::Struct)
        } else if v == 3 {
            Some(MatlabType::Object)
        } else if v == 4 {
            Some(MatlabType::Char)
        } else if v == 5 {
            Some(MatlabType::Sparse)
        } else if v == 6 {
            Some(MatlabType::Double)
        } else if v == 7 {
            Some(MatlabType::Single)
        } else if v == 8 {
            Some(MatlabType::Int8)
        } else if v == 9 {
            Some(MatlabType::UInt8)
        } else if v == 10 {
            Some(MatlabType::Int16)
        } else if v == 11 {
            Some(MatlabType::UInt16)
        } else if v == 12 {
            Some(MatlabType::Int32)
        } else if v == 13 {
            Some(MatlabType::UInt32)
        } else if v == 14 {
            Some(MatlabType::Int64)
        } else if v == 15 {
            Some(MatlabType::UInt64)
        } else if v == 16 {
            Some(MatlabType::Function)
        } else if v == 17 {
            Some(MatlabType::Opaque)
        } else {
            None
        }
    }

    pub fn from_u32(v: u32) -> (r: Option<MatlabType>)
        ensures
            r == MatlabType::of_code(v as nat),
    {
        match v {
            1 => Some(MatlabType::Cell),
            2 => Some(MatlabType::Struct),
            3 => Some(MatlabType::Object),
            4 => Some(MatlabType::Char),
            5 => Some(MatlabType::Sparse),
            6 => Some(MatlabType::Double),
            7 => Some(MatlabType::Single),
            8 => Some(MatlabType::Int8),
            9 => Some(MatlabType::UInt8),
            10 => Some(MatlabType::Int16),
            11 => Some(MatlabType::UInt16),
            12 => Some(MatlabType::Int32),
            13 => Some(MatlabType::UInt32),
            14 => Some(MatlabType::Int64),
            15 => Some(MatlabType::UInt64),
            16 => Some(MatlabType::Function),
            17 => Some(MatlabType::Opaque),
            _ => None,
        }
    }
}

/// The flags sub-element of an array.
#[derive(Clone, Copy, Debug, PartialEq, Eq, Structural)]
pub struct ArrayFlags {
    pub complex: bool,
    pub global: bool,
    pub logical: bool,
    pub class: MatlabType,
    pub nzmax: u32,
}

impl ArrayFlags {
    /// The flags-and-class word.
    pub open spec fn word(self) -> u32 {
        ((if self.complex { 0x0800u32 } else { 0 }) + (if self.global { 0x0400u32 } else { 0 })
            + (if self.logical { 0x0200u32 } else { 0 }) + self.class.code()) as u32
    }

    /// The flags that the word `w` and the class `class` stand for.
    pub open spec fn from_word(w: u32, class: MatlabType, nzmax: u32) -> ArrayFlags {
        ArrayFlags {
            complex: (w / 0x0800) % 2 == 1,
            global: (w / 0x0400) % 2 == 1,
            logical: (w / 0x0200) % 2 == 1,
            class,
            nzmax,
        }
    }

    pub fn to_word(&self) -> (r: u32)
        ensures
            r == self.word(),
    {
        let mut w: u32 = self.class.to_u32();
        if self.complex {
            w = w + 0x0800;
        }
        if self.global {
            w = w + 0x0400;
        }
        if self.logical {
            w = w + 0x0200;
        }
        w
    }
}

/// What made a byte stream unreadable.
#[derive(Clone, Copy, Debug, PartialEq, Eq, Structural)]
pub enum ParseErrorKind {
    /// The input ends inside a header, tag or payload.
    Truncated,
    /// The header's byte-order marker is neither "IM" nor "MI".
    HeaderMarker,
    /// A tag names no known element type.
    UnknownDataType,
    /// A flags word names no known class.
    UnknownClass,
    /// A small-form tag claims more than four bytes.
    InvalidTag,
    /// A sub-element has the wrong type or size for its place.
    UnexpectedSubElement,
    /// The dimensions are negative, fewer than two, or disagree with the data.
    Dimensions,
    /// An array name is not UTF-8.
    Name,
    /// A compressed payload does not inflate.
    Compression,
}

} // verus!
