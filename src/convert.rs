//! Widening of stored numbers to the natural element type of their array's class.
use vstd::prelude::*;
use crate::error::MatError;
use crate::float::{f32_bits, f32_bits_of, f64_bits, f64_bits_of};
use crate::matrix::RawPart;
use crate::numeric::fits;
use crate::primitive::{lemma_pow256_values, pow256};
use crate::types::{DataType, MatlabType};

verus! {

/// The number that `raw` stands for as an element of type `dt`.
pub open spec fn value_of(dt: DataType, raw: u64) -> int {
    match dt {
        DataType::Int8 => if raw >= 0x80 { raw - 0x100 } else { raw as int },
        DataType::Int16 => if raw >= 0x8000 { raw - 0x1_0000 } else { raw as int },
        DataType::Int32 => if raw >= 0x8000_0000 { raw - 0x1_0000_0000 } else { raw as int },
        DataType::Int64 => if raw >= 0x8000_0000_0000_0000 {
            raw - 0x1_0000_0000_0000_0000
        } else {
            raw as int
        },
        _ => raw as int,
    }
}

/// Whether numbers stored as `src` may be read into an array of class `class`: the class's
/// own type, or a type that widens to it without loss.
pub open spec fn permitted(src: DataType, class: MatlabType) -> bool {
    match class.natural_type() {
        None => false,
        Some(t) => src == t || match class {
            MatlabType::Double | MatlabType::Single | MatlabType::Int64 | MatlabType::UInt64 => {
                src is UInt8 || src is Int16 || src is UInt16 || src is Int32
            },
            MatlabType::Int32 | MatlabType::UInt32 => src is UInt8 || src is Int16 || src is UInt16,
            MatlabType::Int16 | MatlabType::UInt16 => src is UInt8,
            _ => false,
        },
    }
}

/// `v` as an unsigned number of `n` bits, in two's complement.
pub open spec fn wrap(v: int, n: nat) -> int {
    if v < 0 {
        v + pow256(n)
    } else {
        v
    }
}

/// Bits of the element of class `class` that the stored `raw` of type `src` becomes.
pub open spec fn coerced_bits(src: DataType, class: MatlabType, raw: u64) -> u64 {
    if class.natural_type() == Some(src) {
        raw
    } else {
        let v = value_of(src, raw);
        match class {
            MatlabType::Double => f64_bits(v) as u64,
            MatlabType::Single => f32_bits(v) as u64,
            MatlabType::Int64 | MatlabType::UInt64 => wrap(v, 8) as u64,
            MatlabType::Int32 | MatlabType::UInt32 => wrap(v, 4) as u64,
            MatlabType::Int16 | MatlabType::UInt16 => wrap(v, 2) as u64,
            _ => raw,
        }
    }
}

pub open spec fn coerced_seq(src: DataType, class: MatlabType, raw: Seq<u64>) -> Seq<u64> {
    Seq::new(raw.len(), |i: int| coerced_bits(src, class, raw[i]))
}

fn is_permitted(src: DataType, class: MatlabType) -> (r: bool)
    ensures
        r == permitted(src, class),
{
    let widening = match class {
        MatlabType::Double | MatlabType::Single | MatlabType::Int64 | MatlabType::UInt64 => {
            matches!(src, DataType::UInt8) || matches!(src, DataType::Int16)
                || matches!(src, DataType::UInt16) || matches!(src, DataType::Int32)
        },
        MatlabType::Int32 | MatlabType::UInt32 => {
            matches!(src, DataType::UInt8) || matches!(src, DataType::Int16)
                || matches!(src, DataType::UInt16)
        },
        MatlabType::Int16 | MatlabType::UInt16 => matches!(src, DataType::UInt8),
        _ => false,
    };
    match class.numeric_data_type() {
        None => false,
        Some(t) => t == src || widening,
    }
}

fn coerce_one(src: DataType, class: MatlabType, raw: u64) -> (r: u64)
    requires
        permitted(src, class),
        raw < pow256(src.width()),
    ensures
        r == coerced_bits(src, class, raw),
        r < pow256(class.natural_type()->Some_0.width()),
{
    proof {
        lemma_pow256_values();
    }
    let t = class.numeric_data_type();
    if t == Some(src) {
        return raw;
    }
    let v: i64 = match src {
        DataType::Int16 => if raw >= 0x8000 { raw as i64 - 0x1_0000 } else { raw as i64 },
        DataType::Int32 => if raw >= 0x8000_0000 { raw as i64 - 0x1_0000_0000 } else { raw as i64 },
        _ => raw as i64,
    };
    assert(v == value_of(src, raw));
    match class {
        MatlabType::Double => f64_bits_of(v),
        MatlabType::Single => f32_bits_of(v),
        MatlabType::Int64 | MatlabType::UInt64 => if v < 0 {
            0xffff_ffff_ffff_ffff - ((-(v + 1)) as u64)
        } else {
            v as u64
        },
        MatlabType::Int32 | MatlabType::UInt32 => if v < 0 {
            (v + 0x1_0000_0000) as u64
        } else {
            v as u64
        },
        _ => v as u64,
    }
}

/// Brings stored numbers to the natural element type of class `target_type`.
pub fn try_convert_number_format(target_type: MatlabType, data: RawPart) -> (r: Result<
    RawPart,
    MatError,
>)
    requires
        fits(data.bits@, data.data_type.width()),
    ensures
        r is Ok <==> permitted(data.data_type, target_type),
        r matches Ok(x) ==> Some(x.data_type) == target_type.natural_type() && x.bits@
            == coerced_seq(data.data_type, target_type, data.bits@) && fits(
            x.bits@,
            x.data_type.width(),
        ),
        r matches Err(k) ==> k is ConversionError,
{
    if !is_permitted(data.data_type, target_type) {
        return Err(MatError::ConversionError);
    }
    let t = match target_type.numeric_data_type() {
        Some(t) => t,
        None => return Err(MatError::ConversionError),
    };
    let src = data.data_type;
    let mut out: Vec<u64> = Vec::new();
    let mut i: usize = 0;
    while i < data.bits.len()
        invariant
            permitted(src, target_type),
            target_type.natural_type() == Some(t),
            fits(data.bits@, src.width()),
            i <= data.bits@.len(),
            out@ =~= coerced_seq(src, target_type, data.bits@.subrange(0, i as int)),
            fits(out@, t.width()),
        decreases data.bits@.len() - i,
    {
        let x = coerce_one(src, target_type, data.bits[i]);
        out.push(x);
        i = i + 1;
        assert(out@ =~= coerced_seq(src, target_type, data.bits@.subrange(0, i as int)));
    }
    assert(data.bits@.subrange(0, i as int) =~= data.bits@);
    Ok(RawPart { data_type: t, bits: out })
}

} // verus!
