use matfile::codec::write_data_element_tag;
use matfile::convert::try_convert_number_format;
use matfile::float::{f32_bits_of, f64_bits_of};
use matfile::header::{header_with_time, parse_header};
use matfile::matrix::{check_dims, parse_array_flags_subelement, RawPart};
use matfile::reader::{parse_all, parse_compressed_data_element};
use matfile::writer::{
    get_limited_name_size, write_body,
    write_compressed_data_element, write_matrix_data_element,
};
use matfile::{
    Array, ArrayFlags, DataElement, DataType, Endianness, MatError, MatFile, MatlabType,
    NumericData, ParseErrorKind,
};
use std::io::Read;

const NUMERIC: [MatlabType; 10] = [
    MatlabType::Double,
    MatlabType::Single,
    MatlabType::Int8,
    MatlabType::UInt8,
    MatlabType::Int16,
    MatlabType::UInt16,
    MatlabType::Int32,
    MatlabType::UInt32,
    MatlabType::Int64,
    MatlabType::UInt64,
];

fn write_header(mat: &MatFile) -> Option<Vec<u8>> {
    let stamp = chrono::Local::now().format("%a %b %e %T %Y").to_string();
    Some(header_with_time(&mat.header, &stamp))
}

fn file_bytes(mat: &MatFile) -> Vec<u8> {
    let mut b = write_header(mat).unwrap();
    b.extend(write_body(mat).unwrap());
    b
}

fn same_array(a: &Array, b: &Array) -> bool {
    a.array_flags == b.array_flags
        && a.name == b.name
        && a.size == b.size
        && format!("{:?}", a.data) == format!("{:?}", b.data)
}

/// Fills every element of `a` with a pattern that depends on its position.
fn fill(a: &mut Array, rows: usize, cols: usize) {
    for c in 0..cols {
        for r in 0..rows {
            let k = (r + c * rows) as i64;
            let v = k * 37 - 100;
            match a.data {
                NumericData::Int8 { .. } => a.set_int8(r, c, (v % 128) as i8),
                NumericData::UInt8 { .. } => a.set_uint8(r, c, (k % 256) as u8),
                NumericData::Int16 { .. } => a.set_int16(r, c, v as i16),
                NumericData::UInt16 { .. } => a.set_uint16(r, c, (k * 301) as u16),
                NumericData::Int32 { .. } => a.set_int32(r, c, (v * 1000) as i32),
                NumericData::UInt32 { .. } => a.set_uint32(r, c, (k * 70001) as u32),
                NumericData::Int64 { .. } => a.set_int64(r, c, v * 1_000_000_007),
                NumericData::UInt64 { .. } => a.set_uint64(r, c, (k as u64) << 40 | 7),
                NumericData::Single { .. } => a.set_single(r, c, (v as f32 / 4.0).to_bits()),
                NumericData::Double { .. } => a.set_double(r, c, (v as f64 / 8.0).to_bits()),
            }
            a.set_imag_bits(r, c, (k as u64) % 100);
        }
    }
}

fn round_trip(mat: &MatFile) -> MatFile {
    MatFile::parse(&file_bytes(mat)).unwrap()
}

#[test]
fn write_matfile() {
    let mut new_matfile = MatFile::new_mat_file();
    let rows = 4;
    let cols = 5;
    let mut matrix =
        MatFile::new_matrix("matrixIdentity", rows, cols, false, MatlabType::Int8).unwrap();
    let mut count = 1;
    for i in 0..rows {
        for j in 0..cols {
            matrix.set_int8(i, j, count);
            count += 1;
        }
    }
    new_matfile.add_array(matrix);
    let matfile = round_trip(&new_matfile);
    let array = matfile.find_by_name("matrixIdentity").unwrap();
    assert_eq!(array.size(), &vec![4, 5]);
    let mut expected = vec![0i8; 20];
    let mut count = 1;
    for i in 0..rows {
        for j in 0..cols {
            expected[i + j * rows] = count;
            count += 1;
        }
    }
    match array.data() {
        NumericData::Int8 { real, imag } => {
            assert_eq!(real, &expected);
            assert!(imag.is_none());
        }
        other => panic!("unexpected data {:?}", other),
    }
}

#[test]
fn name() {
    let mut mat = MatFile::new_mat_file();
    mat.add_array(MatFile::new_matrix("x", 2, 3, false, MatlabType::Double).unwrap());
    mat.add_array(MatFile::new_matrix("y", 1, 1, true, MatlabType::UInt16).unwrap());
    let r = parse_all(&file_bytes(&mat)).unwrap();
    assert_eq!(r.data_elements.len(), 2);
    for el in &r.data_elements {
        assert!(matches!(el, DataElement::NumericMatrix(..)));
    }
}

#[test]
fn test_product() {
    assert!(!check_dims(&vec![1, 2, -3], 6));
    assert!(check_dims(&vec![1, 2, 3], 6));
    assert!(!check_dims(&vec![1, 2, 3], 5));
}

#[test]
fn decode() {
    let encoded_data = [
        120, 156, 243, 72, 205, 201, 201, 87, 8, 207, 47, 202, 73, 81, 4, 0, 28, 73, 4, 62,
    ];
    let r = parse_compressed_data_element(&encoded_data, Endianness::Little);
    // "Hello World!" inflates fine but is not a data element.
    assert!(!matches!(r, Err(ParseErrorKind::Compression)));
    assert!(r.is_err());
    let r = parse_compressed_data_element(&encoded_data[..10], Endianness::Little);
    assert!(matches!(r, Err(ParseErrorKind::Compression)));
}

#[test]
fn write_array_flags_subelement() {
    for endianness in [Endianness::Little, Endianness::Big] {
        let arraysflag = ArrayFlags {
            complex: false,
            global: false,
            logical: false,
            class: MatlabType::Opaque,
            nzmax: 0,
        };
        let mut r = Vec::new();
        matfile::writer::write_array_flags_subelement(&mut r, &arraysflag, endianness);
        assert_eq!(r.len(), 16);
        let (flags, n) = parse_array_flags_subelement(&r, endianness).unwrap();
        assert_eq!(flags, arraysflag);
        assert_eq!(n, 16);
    }
    let flags = ArrayFlags {
        complex: true,
        global: true,
        logical: true,
        class: MatlabType::UInt8,
        nzmax: 9,
    };
    let mut r = Vec::new();
    matfile::writer::write_array_flags_subelement(&mut r, &flags, Endianness::Little);
    assert_eq!(r, vec![6, 0, 0, 0, 8, 0, 0, 0, 9, 0x0e, 0, 0, 9, 0, 0, 0]);
    assert_eq!(parse_array_flags_subelement(&r, Endianness::Little).unwrap().0, flags);
}

#[test]
fn compress_test() {
    let bytes = b"Hello World!";
    let r = write_compressed_data_element(bytes, 1).unwrap();
    assert_eq!(
        r,
        vec![
            120, 156, 5, 192, 49, 13, 0, 0, 8, 3, 65, 43, 224, 6, 7, 24, 128, 237, 147, 38, 245,
            63, 244, 230, 65, 181, 50, 215, 1, 28, 73, 4, 62
        ]
    );
    let mut buf = Vec::new();
    libflate::zlib::Decoder::new(&r[..]).unwrap().read_to_end(&mut buf).unwrap();
    assert_eq!(buf, bytes.to_vec());
}

#[test]
fn vec_test() {
    assert_eq!(14 % 8, 6);
    let (tag, padding) = write_data_element_tag(DataType::Double, 14, Endianness::Little);
    assert_eq!(tag, vec![9, 0, 0, 0, 14, 0, 0, 0]);
    assert_eq!(padding, 2);
}

#[test]
fn int8_column_major_values() {
    let mut mat = MatFile::new_mat_file();
    let mut m = MatFile::new_matrix("matrixIdentity", 4, 5, false, MatlabType::Int8).unwrap();
    let mut v = 1i8;
    for c in 0..5 {
        for r in 0..4 {
            m.set_int8(r, c, v);
            v += 1;
        }
    }
    mat.add_array(m);
    let back = round_trip(&mat);
    let a = back.find_by_name("matrixIdentity").unwrap();
    assert_eq!(a.array_flags.class, MatlabType::Int8);
    assert_eq!(a.size(), &vec![4, 5]);
    assert_eq!(a.ndims(), 2);
    assert_eq!(a.get_num_elements(), 20);
    match a.data() {
        NumericData::Int8 { real, .. } => assert_eq!(real, &(1..=20).collect::<Vec<i8>>()),
        other => panic!("unexpected data {:?}", other),
    }
}

#[test]
fn complex_double_bit_exact() {
    let mut mat = MatFile::new_mat_file();
    let mut m = MatFile::new_matrix("z", 2, 2, true, MatlabType::Double).unwrap();
    let re = [1.0f64, 2.0, 3.0, 4.0];
    let im = [0.5f64, -0.5, 0.25, -0.25];
    for k in 0..4 {
        m.set_double(k % 2, k / 2, re[k].to_bits());
        m.set_imag_bits(k % 2, k / 2, im[k].to_bits());
    }
    mat.add_array(m.clone());
    let back = round_trip(&mat);
    let a = back.find_by_name("z").unwrap();
    assert!(same_array(a, &m));
    match a.data() {
        NumericData::Double { real, imag: Some(imag) } => {
            assert_eq!(real, &re.iter().map(|x| x.to_bits()).collect::<Vec<u64>>());
            assert_eq!(imag, &im.iter().map(|x| x.to_bits()).collect::<Vec<u64>>());
        }
        other => panic!("unexpected data {:?}", other),
    }
}

fn be32(v: u32) -> Vec<u8> {
    v.to_be_bytes().to_vec()
}

/// A big-endian file holding one 1x1 matrix of class `class` whose real part is the single
/// element `value` of type `dt` in small form.
fn hand_crafted(class_code: u32, dt_code: u32, value: &[u8]) -> Vec<u8> {
    let mut f = vec![b' '; 116];
    f.extend([0u8; 8]);
    f.extend([0x01, 0x00, b'M', b'I']);
    let mut body = Vec::new();
    body.extend(be32(6));
    body.extend(be32(8));
    body.extend(be32(class_code));
    body.extend(be32(0));
    body.extend(be32(5));
    body.extend(be32(8));
    body.extend(be32(1));
    body.extend(be32(1));
    body.extend(be32((1 << 16) | 1));
    body.extend([b'a', 0, 0, 0]);
    body.extend(be32(((value.len() as u32) << 16) | dt_code));
    let mut v = value.to_vec();
    v.resize(4, 0);
    body.extend(v);
    f.extend(be32(14));
    f.extend(be32(body.len() as u32));
    f.extend(body);
    f
}

#[test]
fn uint8_read_into_double() {
    let bytes = hand_crafted(6, 2, &[42]);
    let mat = MatFile::parse(&bytes).unwrap();
    assert_eq!(mat.header.byte_order, Endianness::Big);
    assert_eq!(mat.header.version, 0x0100);
    assert_eq!(mat.arrays.len(), 1);
    let a = &mat.arrays[0];
    assert_eq!(a.name(), "a");
    match a.data() {
        NumericData::Double { real, imag } => {
            assert_eq!(real, &vec![42.0f64.to_bits()]);
            assert!(imag.is_none());
        }
        other => panic!("unexpected data {:?}", other),
    }
}

#[test]
fn compressed_equals_plain() {
    let mut m = MatFile::new_matrix("c", 3, 2, false, MatlabType::Int32).unwrap();
    fill(&mut m, 3, 2);
    let e = Endianness::Little;
    let plain = write_matrix_data_element(&m, e).unwrap();
    let z = write_compressed_data_element(&plain, 1).unwrap();
    let mut header = vec![b' '; 116];
    header.extend([0u8; 8]);
    header.extend([0x01, 0x00, b'I', b'M']);
    let mut a = header.clone();
    a.extend(plain);
    let mut b = header;
    b.extend(15u32.to_le_bytes());
    b.extend((z.len() as u32).to_le_bytes());
    b.extend(z);
    let pa = MatFile::parse(&a).unwrap();
    let pb = MatFile::parse(&b).unwrap();
    assert_eq!(pa.arrays.len(), 1);
    assert_eq!(pb.arrays.len(), 1);
    assert!(same_array(&pa.arrays[0], &pb.arrays[0]));
    assert!(same_array(&pa.arrays[0], &m));
}

#[test]
fn trailing_opaque_is_skipped() {
    let mut mat = MatFile::new_mat_file();
    mat.header.byte_order = Endianness::Big;
    mat.add_array(MatFile::new_matrix("first", 1, 2, false, MatlabType::UInt8).unwrap());
    let mut bytes = file_bytes(&mat);
    let mut body = Vec::new();
    body.extend(be32(6));
    body.extend(be32(8));
    body.extend(be32(17));
    body.extend(be32(0));
    body.extend([1, 2, 3, 4, 5, 6, 7, 8]);
    bytes.extend(be32(14));
    bytes.extend(be32(body.len() as u32));
    bytes.extend(body);
    let back = MatFile::parse(&bytes).unwrap();
    assert_eq!(back.arrays.len(), 1);
    assert_eq!(back.arrays[0].name(), "first");
    // A truncated element at the end ends the file without an error.
    bytes.extend([0, 0, 0, 14, 0, 0]);
    assert_eq!(MatFile::parse(&bytes).unwrap().arrays.len(), 1);
}

#[test]
fn cell_class_is_rejected() {
    let r = MatFile::new_matrix("x", 2, 2, false, MatlabType::Cell);
    assert!(matches!(r, Err(MatError::ParamsError(_))));
    for class in [
        MatlabType::Struct,
        MatlabType::Object,
        MatlabType::Char,
        MatlabType::Sparse,
        MatlabType::Function,
        MatlabType::Opaque,
    ] {
        assert!(matches!(
            MatFile::new_matrix("x", 2, 2, false, class),
            Err(MatError::ParamsError(_))
        ));
    }
    assert!(matches!(
        MatFile::new_matrix("x", usize::MAX, 2, false, MatlabType::Double),
        Err(MatError::ParamsError(_))
    ));
}

#[test]
fn header_round_trip_both_orders() {
    for order in [Endianness::Little, Endianness::Big] {
        let mut mat = MatFile::new_mat_file();
        mat.header.byte_order = order;
        mat.header.subsys_offset = 0x0102_0304_0506_0708;
        let bytes = write_header(&mat).unwrap();
        assert_eq!(bytes.len(), 128);
        let h = parse_header(&bytes).unwrap();
        assert_eq!(h.byte_order, order);
        assert_eq!(h.version, 0x0100);
        assert_eq!(h.subsys_offset, 0x0102_0304_0506_0708);
        assert!(h.description.starts_with("MATLAB 5.0 MAT-file, Platform: PCWIN64, Created on: "));
        assert!(!h.description.ends_with(' '));
        assert!(h.description.len() > "MATLAB 5.0 MAT-file, Platform: PCWIN64, Created on: ".len());
        assert_eq!(h.mat_identifier, "");
    }
}

#[test]
fn header_with_fixed_time() {
    let mat = MatFile::new_mat_file();
    let mut h = mat.header.clone();
    h.byte_order = Endianness::Little;
    let b = header_with_time(&h, "Sun Jul  8 00:34:59 2001");
    let text = "MATLAB 5.0 MAT-file, Platform: PCWIN64, Created on: Sun Jul  8 00:34:59 2001";
    assert_eq!(&b[..text.len()], text.as_bytes());
    assert!(b[text.len()..116].iter().all(|&x| x == b' '));
    assert_eq!(&b[116..124], &[0u8; 8]);
    assert_eq!(&b[124..128], &[0x01, 0x00, b'I', b'M']);
    let long = "x".repeat(200);
    let b = header_with_time(&h, &long);
    assert_eq!(b.len(), 128);
    assert_eq!(b[115], b'x');
}

#[test]
fn header_errors() {
    assert!(matches!(parse_header(&[0u8; 100]), Err(ParseErrorKind::Truncated)));
    let mut b = vec![b' '; 128];
    b[126] = b'X';
    b[127] = b'Y';
    assert!(matches!(parse_header(&b), Err(ParseErrorKind::HeaderMarker)));
    assert!(matches!(MatFile::parse(&b), Err(MatError::ParseError(ParseErrorKind::HeaderMarker))));
    b[126] = b'I';
    b[127] = b'M';
    let mat = MatFile::parse(&b).unwrap();
    assert_eq!(mat.arrays.len(), 0);
    assert_eq!(mat.header.description, "");
}

#[test]
fn every_class_round_trips() {
    for class in NUMERIC {
        for (rows, cols) in [(1, 1), (1, 3), (3, 4), (16, 16), (2, 128)] {
            for complex in [false, true] {
                let mut mat = MatFile::new_mat_file();
                let mut m = MatFile::new_matrix("arr", rows, cols, complex, class).unwrap();
                fill(&mut m, rows, cols);
                mat.add_array(m.clone());
                let back = round_trip(&mat);
                assert_eq!(back.arrays.len(), 1);
                assert!(same_array(&back.arrays[0], &m), "{:?} {}x{}", class, rows, cols);
            }
        }
    }
}

#[test]
fn endianness_does_not_matter() {
    for class in NUMERIC {
        let mut m = MatFile::new_matrix("e", 5, 3, true, class).unwrap();
        fill(&mut m, 5, 3);
        let mut little = MatFile::new_mat_file();
        little.header.byte_order = Endianness::Little;
        little.add_array(m.clone());
        let mut big = MatFile::new_mat_file();
        big.header.byte_order = Endianness::Big;
        big.add_array(m.clone());
        let bl = file_bytes(&little);
        let bb = file_bytes(&big);
        let a = MatFile::parse(&bl).unwrap();
        let b = MatFile::parse(&bb).unwrap();
        assert!(same_array(&a.arrays[0], &b.arrays[0]));
        assert_eq!(b.header.byte_order, Endianness::Big);
    }
}

#[test]
fn elements_are_aligned() {
    for (rows, cols) in [(1, 1), (1, 2), (1, 3), (3, 3)] {
        for name in ["a", "abcd", "abcdefghi"] {
            let m = MatFile::new_matrix(name, rows, cols, true, MatlabType::UInt8).unwrap();
            let b = write_matrix_data_element(&m, Endianness::Big).unwrap();
            assert_eq!(b.len() % 8, 0);
        }
    }
    for n in 0..4u32 {
        let (tag, pad) = write_data_element_tag(DataType::Int8, n, Endianness::Little);
        assert_eq!(tag.len() + n as usize + pad as usize, 8);
        assert_eq!(tag, vec![1, 0, n as u8, 0]);
    }
    for n in [4u32, 5, 8, 13] {
        let (tag, pad) = write_data_element_tag(DataType::Int8, n, Endianness::Big);
        assert_eq!(tag.len(), 8);
        assert_eq!((tag.len() + n as usize + pad as usize) % 8, 0);
    }
    let (tag, pad) = write_data_element_tag(DataType::Matrix, 2, Endianness::Little);
    assert_eq!(tag, vec![14, 0, 0, 0, 2, 0, 0, 0]);
    assert_eq!(pad, 6);
    let (tag, pad) = write_data_element_tag(DataType::Compressed, 13, Endianness::Big);
    assert_eq!(tag, vec![0, 0, 0, 15, 0, 0, 0, 13]);
    assert_eq!(pad, 3);
    for class in NUMERIC {
        let mut m = MatFile::new_matrix("al", 3, 5, true, class).unwrap();
        fill(&mut m, 3, 5);
        let b = matfile::writer::write_next_data_element(&m, Endianness::Little, 1).unwrap();
        assert_eq!(b.len() % 8, 0);
    }
    let mut mat = MatFile::new_mat_file();
    mat.add_array(MatFile::new_matrix("a", 1, 3, false, MatlabType::UInt8).unwrap());
    mat.add_array(MatFile::new_matrix("b", 2, 7, false, MatlabType::Int16).unwrap());
    assert_eq!(file_bytes(&mat).len() % 8, 0);
}

fn part(dt: DataType, bits: Vec<u64>) -> RawPart {
    RawPart { data_type: dt, bits }
}

#[test]
fn narrower_types_are_widened() {
    let r = try_convert_number_format(MatlabType::Int32, part(DataType::Int16, vec![0xfffb, 7]))
        .unwrap();
    assert_eq!(r.data_type, DataType::Int32);
    assert_eq!(r.bits, vec![(-5i32) as u32 as u64, 7]);
    let r = try_convert_number_format(MatlabType::UInt32, part(DataType::Int16, vec![0xffff]))
        .unwrap();
    assert_eq!(r.bits, vec![0xffff_ffff]);
    let r = try_convert_number_format(MatlabType::Int64, part(DataType::Int32, vec![0x8000_0000]))
        .unwrap();
    assert_eq!(r.bits, vec![(i32::MIN as i64) as u64]);
    let r = try_convert_number_format(MatlabType::Double, part(DataType::Int16, vec![0x8000]))
        .unwrap();
    assert_eq!(r.bits, vec![(-32768.0f64).to_bits()]);
    let r = try_convert_number_format(MatlabType::Single, part(DataType::Int32, vec![16_777_217]))
        .unwrap();
    assert_eq!(r.bits, vec![(16_777_217i32 as f32).to_bits() as u64]);
    let r = try_convert_number_format(MatlabType::Int16, part(DataType::UInt8, vec![200])).unwrap();
    assert_eq!(r.bits, vec![200]);
    for (class, dt) in [
        (MatlabType::Int8, DataType::UInt8),
        (MatlabType::UInt8, DataType::Int8),
        (MatlabType::Int16, DataType::Int8),
        (MatlabType::Int32, DataType::UInt32),
        (MatlabType::Double, DataType::Int64),
        (MatlabType::Single, DataType::Double),
        (MatlabType::Cell, DataType::Double),
    ] {
        assert!(matches!(
            try_convert_number_format(class, part(dt, vec![1])),
            Err(MatError::ConversionError)
        ));
    }
}

#[test]
fn disallowed_stored_type_fails_the_read() {
    // An Int8 value in a Double array is not a permitted widening.
    let bytes = hand_crafted(6, 1, &[5]);
    assert!(matches!(MatFile::parse(&bytes), Err(MatError::ConversionError)));
    // UInt16 into UInt32 is.
    let bytes = hand_crafted(13, 4, &[0x12, 0x34]);
    let mat = MatFile::parse(&bytes).unwrap();
    match mat.arrays[0].data() {
        NumericData::UInt32 { real, .. } => assert_eq!(real, &vec![0x1234]),
        other => panic!("unexpected data {:?}", other),
    }
}

#[test]
fn integers_become_exact_floats() {
    let samples: Vec<i64> = vec![
        0, 1, -1, 2, 3, 7, 100, -100, 255, 256, 65535, -32768, 1 << 24, (1 << 24) + 1,
        (1 << 24) + 3, (1 << 25) - 1, 123_456_789, -123_456_789, i32::MAX as i64,
        i32::MIN as i64, 0x7fff_ff80, 0x7fff_ffc0,
    ];
    for v in samples {
        assert_eq!(f64_bits_of(v), (v as f64).to_bits(), "{}", v);
        assert_eq!(f32_bits_of(v), (v as f32).to_bits() as u64, "{}", v);
    }
    let mut v: i64 = -2_147_483_648;
    while v < 2_147_483_647 {
        assert_eq!(f32_bits_of(v), (v as i32 as f32).to_bits() as u64, "{}", v);
        v += 8_388_607;
    }
}

#[test]
fn setters_are_column_major() {
    let mut m = MatFile::new_matrix("m", 3, 4, false, MatlabType::Int8).unwrap();
    m.set_int8(1, 2, 9);
    match m.data() {
        NumericData::Int8 { real, .. } => {
            assert_eq!(real[1 + 2 * 3], 9);
            assert_eq!(real.iter().filter(|&&x| x != 0).count(), 1);
        }
        other => panic!("unexpected data {:?}", other),
    }
    m.set_int8(3, 0, 5);
    m.set_int8(0, 4, 5);
    m.set_int16(0, 0, 5);
    m.set_imag_bits(0, 0, 5);
    match m.data() {
        NumericData::Int8 { real, imag } => {
            assert_eq!(real.iter().filter(|&&x| x != 0).count(), 1);
            assert!(imag.is_none());
        }
        other => panic!("unexpected data {:?}", other),
    }
    assert_eq!(m.check_index_bound(2, 0), 2);
    assert_eq!(m.check_index_bound(3, 0), 0);
    assert_eq!(m.check_index_bound(9, 1), 1);
}

#[test]
fn long_names_are_cut() {
    let long: String = (0..70).map(|i| (b'a' + (i % 26) as u8) as char).collect();
    assert_eq!(get_limited_name_size(&long).unwrap(), 63);
    assert_eq!(get_limited_name_size("abc").unwrap(), 3);
    assert_eq!(get_limited_name_size("").unwrap(), 0);
    let mut mat = MatFile::new_mat_file();
    mat.add_array(MatFile::new_matrix(&long, 1, 1, false, MatlabType::Double).unwrap());
    let back = round_trip(&mat);
    assert_eq!(back.arrays[0].name(), &long[..63]);
    assert!(back.find_by_name(&long).is_none());
    assert!(back.find_by_name(&long[..63]).is_some());
}

#[test]
fn find_by_name_returns_first() {
    let mut mat = MatFile::new_mat_file();
    mat.add_array(MatFile::new_matrix("dup", 1, 1, false, MatlabType::Int8).unwrap());
    mat.add_array(MatFile::new_matrix("dup", 2, 2, false, MatlabType::Int8).unwrap());
    mat.add_array(MatFile::new_matrix("", 1, 1, false, MatlabType::Int8).unwrap());
    assert_eq!(mat.find_by_name("dup").unwrap().size(), &vec![1, 1]);
    assert!(mat.find_by_name("nope").is_none());
    let back = round_trip(&mat);
    assert_eq!(back.arrays.len(), 3);
    assert_eq!(back.find_by_name("dup").unwrap().size(), &vec![1, 1]);
    assert_eq!(back.arrays[2].name(), "");
}

#[test]
fn new_file_uses_host_order() {
    let mat = MatFile::new_mat_file();
    let host = if 1u16.to_ne_bytes()[0] == 1 { Endianness::Little } else { Endianness::Big };
    assert_eq!(mat.header.byte_order, host);
    assert_eq!(mat.header.version, 0x0100);
    assert_eq!(mat.header.mat_identifier, "MATLAB 5.0 MAT-file");
    assert!(mat.arrays.is_empty());
}

#[test]
fn malformed_matrices_end_the_file() {
    // A name that is not UTF-8.
    let mut bytes = hand_crafted(6, 2, &[1]);
    let pos = bytes.iter().position(|&b| b == b'a').unwrap();
    bytes[pos] = 0xff;
    assert_eq!(MatFile::parse(&bytes).unwrap().arrays.len(), 0);
    let body = &bytes[128..];
    let r = matfile::reader::parse_next_data_element(body, Endianness::Big);
    assert!(matches!(r, Err(ParseErrorKind::Name)));
    // A tag with an unknown type.
    let mut bad = bytes[..128].to_vec();
    bad.extend(be32(99));
    bad.extend(be32(0));
    assert_eq!(MatFile::parse(&bad).unwrap().arrays.len(), 0);
    let r = matfile::reader::parse_next_data_element(&bad[128..], Endianness::Big);
    assert!(matches!(r, Err(ParseErrorKind::UnknownDataType)));
    // A small-form tag that claims more than four bytes.
    let r = matfile::reader::parse_next_data_element(&[0, 9, 0, 1, 0, 0, 0, 0], Endianness::Big);
    assert!(matches!(r, Err(ParseErrorKind::InvalidTag)));
    // Dimensions that disagree with the data.
    let mut dims = hand_crafted(6, 2, &[1]);
    let at = 128 + 8 + 16 + 8 + 4;
    dims[at + 3] = 2;
    let r = matfile::reader::parse_next_data_element(&dims[128..], Endianness::Big);
    assert!(matches!(r, Err(ParseErrorKind::Dimensions)));
    // An unknown class.
    let crafted = hand_crafted(40, 2, &[1]);
    let r = matfile::reader::parse_next_data_element(&crafted[128..], Endianness::Big);
    assert!(matches!(r, Err(ParseErrorKind::UnknownClass)));
    // Flags of the wrong type.
    let mut flags = hand_crafted(6, 2, &[1]);
    flags[128 + 8 + 3] = 5;
    let r = matfile::reader::parse_next_data_element(&flags[128..], Endianness::Big);
    assert!(matches!(r, Err(ParseErrorKind::UnexpectedSubElement)));
}

#[test]
fn unwritable_arrays_are_refused() {
    let mut m = MatFile::new_matrix("m", 2, 2, false, MatlabType::Int8).unwrap();
    m.array_flags.class = MatlabType::Cell;
    assert!(matches!(write_matrix_data_element(&m, Endianness::Little), Err(MatError::ParamsError(_))));
    let mut mat = MatFile::new_mat_file();
    mat.add_array(m);
    assert!(matches!(write_body(&mat), Err(MatError::ParamsError(_))));
    let mut m = MatFile::new_matrix("m", 2, 2, false, MatlabType::Int8).unwrap();
    m.array_flags.complex = true;
    assert!(matches!(write_matrix_data_element(&m, Endianness::Little), Err(MatError::ParamsError(_))));
    let mut m = MatFile::new_matrix("m", 1, 1, false, MatlabType::Int8).unwrap();
    m.size = vec![1, 1, 0x8000_0000];
    assert!(matches!(write_matrix_data_element(&m, Endianness::Little), Err(MatError::ParamsError(_))));
}

#[test]
fn data_type_sizes() {
    assert_eq!(DataType::Double.get_numbytes(3), 24);
    assert_eq!(DataType::Int16.get_numbytes(5), 10);
    assert_eq!(DataType::Int8.get_padding(3, true), 1);
    assert_eq!(DataType::Int8.get_padding(13, false), 3);
    assert_eq!(DataType::Matrix.get_padding(13, false), 3);
    assert_eq!(DataType::Int8.computer_array_size(0), 8);
    assert!(DataType::UInt8.is_packable(3));
    assert!(!DataType::UInt8.is_packable(4));
    assert!(DataType::UInt8.is_packable(0));
    assert!(!DataType::Compressed.is_packable(2));
    assert_eq!(DataType::UInt8.computer_array_size(3), 8);
    assert_eq!(DataType::Int32.computer_array_size(1), 16);
    assert_eq!(DataType::Double.computer_array_size(2), 24);
    assert_eq!(DataType::Int16.computer_array_size(5), 24);
    let (tag, n) = matfile::codec::parse_data_element_tag(
        &[1, 0, 3, 0, b'a', b'b', b'c', 0],
        Endianness::Little,
    )
    .unwrap();
    assert_eq!(n, 4);
    assert_eq!(tag.data_type, DataType::Int8);
    assert_eq!(tag.data_byte_size, 3);
    assert_eq!(tag.padding_byte_size, 1);
    let mut long = vec![0, 0, 0, 9, 0, 0, 0, 8];
    long.extend([0u8; 8]);
    let (tag, n) = matfile::codec::parse_data_element_tag(&long, Endianness::Big).unwrap();
    assert_eq!((tag.data_type, tag.data_byte_size, tag.padding_byte_size, n), (DataType::Double, 8, 0, 8));
    // The tag reads without its payload; the frame needs the payload.
    let (tag, n) = matfile::codec::parse_data_element_tag(&long[..8], Endianness::Big).unwrap();
    assert_eq!((tag.data_byte_size, n), (8, 8));
    assert!(matches!(
        matfile::codec::parse_frame(&long[..12], Endianness::Big),
        Err(ParseErrorKind::Truncated)
    ));
    assert!(matches!(
        matfile::codec::parse_data_element_tag(&long[..6], Endianness::Big),
        Err(ParseErrorKind::Truncated)
    ));
    // An empty payload written small reads back as a long tag of size zero.
    let mut empty = Vec::new();
    matfile::codec::write_element(&mut empty, DataType::Int8, &[], Endianness::Little);
    assert_eq!(empty, vec![1, 0, 0, 0, 0, 0, 0, 0]);
    let f = matfile::codec::parse_frame(&empty, Endianness::Little).unwrap();
    assert_eq!((f.len, f.next), (0, 8));
}

#[test]
fn level_zero_stores_without_compression() {
    let bytes = b"Hello World!";
    let r = write_compressed_data_element(bytes, 0).unwrap();
    assert_eq!(
        r,
        vec![
            120, 1, 1, 12, 0, 243, 255, 72, 101, 108, 108, 111, 32, 87, 111, 114, 108, 100, 33, 28,
            73, 4, 62
        ]
    );
    let mut mat = MatFile::new_mat_file();
    mat.header.deflate_level = 0;
    let mut m = MatFile::new_matrix("stored", 4, 3, true, MatlabType::UInt16).unwrap();
    fill(&mut m, 4, 3);
    mat.add_array(m.clone());
    let bytes = file_bytes(&mat);
    let back = MatFile::parse(&bytes).unwrap();
    assert!(same_array(&back.arrays[0], &m));
    mat.header.deflate_level = 1;
    assert!(file_bytes(&mat).len() < bytes.len());
}

#[test]
fn nested_compression_is_unpacked() {
    let mut m = MatFile::new_matrix("deep", 2, 2, false, MatlabType::Double).unwrap();
    fill(&mut m, 2, 2);
    let e = Endianness::Little;
    let mut element = write_matrix_data_element(&m, e).unwrap();
    for _ in 0..3 {
        let z = write_compressed_data_element(&element, 1).unwrap();
        let mut wrapped = Vec::new();
        matfile::codec::write_element(&mut wrapped, DataType::Compressed, &z, e);
        element = wrapped;
    }
    let mut file = vec![b' '; 116];
    file.extend([0u8; 8]);
    file.extend([0x01, 0x00, b'I', b'M']);
    file.extend(element);
    let back = MatFile::parse(&file).unwrap();
    assert_eq!(back.arrays.len(), 1);
    assert!(same_array(&back.arrays[0], &m));
}

#[test]
fn sparse_framing_is_read_and_passed_over() {
    let mut body = Vec::new();
    body.extend(be32(6));
    body.extend(be32(8));
    body.extend(be32(5));
    body.extend(be32(2));
    body.extend(be32(5));
    body.extend(be32(8));
    body.extend(be32(3));
    body.extend(be32(3));
    body.extend(be32((1 << 16) | 1));
    body.extend([b's', 0, 0, 0]);
    body.extend(be32(5));
    body.extend(be32(8));
    body.extend(be32(0));
    body.extend(be32(2));
    body.extend(be32(5));
    body.extend(be32(16));
    for v in [0u32, 1, 1, 2] {
        body.extend(be32(v));
    }
    body.extend(be32(9));
    body.extend(be32(16));
    body.extend(1.5f64.to_bits().to_be_bytes());
    body.extend((-2.0f64).to_bits().to_be_bytes());
    let mut element = be32(14);
    element.extend(be32(body.len() as u32));
    element.extend(body);
    let (el, n) = matfile::reader::parse_next_data_element(&element, Endianness::Big).unwrap();
    assert_eq!(n, element.len());
    match el {
        DataElement::SparseMatrix(flags, dims, name, rows, cols, re, im) => {
            assert_eq!(flags.class, MatlabType::Sparse);
            assert_eq!(flags.nzmax, 2);
            assert_eq!(dims, vec![3, 3]);
            assert_eq!(name, "s");
            assert_eq!(rows, vec![0, 2]);
            assert_eq!(cols, vec![0, 1, 1, 2]);
            assert_eq!(re.data_type, DataType::Double);
            assert_eq!(re.bits, vec![1.5f64.to_bits(), (-2.0f64).to_bits()]);
            assert!(im.is_none());
        }
        other => panic!("unexpected element {:?}", other),
    }
    let mut mat = MatFile::new_mat_file();
    mat.header.byte_order = Endianness::Big;
    mat.add_array(MatFile::new_matrix("after", 1, 1, false, MatlabType::Int8).unwrap());
    let body = write_body(&mat).unwrap();
    let mut file = write_header(&mat).unwrap();
    file.extend(element);
    file.extend(body);
    let back = MatFile::parse(&file).unwrap();
    assert_eq!(back.arrays.len(), 1);
    assert_eq!(back.arrays[0].name(), "after");
}
