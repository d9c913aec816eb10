use prism_ann::error::PrismError;
use prism_ann::io::{
    build_store_with_synthetic_attrs, load_bvecs, load_fvecs, load_ivecs, read_ibin, read_spmat,
    read_u8bin, word_from,
};

fn bits(values: &[f32]) -> Vec<u32> {
    values.iter().map(|value| value.to_bits()).collect()
}

#[test]
fn test_build_store_with_synthetic_attrs() {
    let vectors = bits(&vec![0.0f32; 100 * 4]);
    let store = build_store_with_synthetic_attrs(vectors, 4, &[10, 5, 3]).unwrap();
    assert_eq!(store.len(), 100);
    assert_eq!(store.k(), 3);
    assert!(store.cardinality(0).unwrap() <= 10);
    assert!(store.cardinality(1).unwrap() <= 5);
    assert!(store.cardinality(2).unwrap() <= 3);
}

#[test]
fn synthetic_attributes_reject_zero_and_overflowing_cardinalities() {
    assert!(matches!(
        build_store_with_synthetic_attrs(bits(&[0.0]), 1, &[0]),
        Err(PrismError::InvalidInput(_))
    ));
    if usize::BITS >= 64 {
        let huge = u32::MAX as usize + 1;
        assert!(matches!(
            build_store_with_synthetic_attrs(bits(&[0.0]), 1, &[huge, huge, 2]),
            Err(PrismError::Overflow(_))
        ));
    }
}

#[test]
fn vector_loaders_reject_negative_mismatched_and_trailing_dimensions() {
    let negative = (-1i32).to_le_bytes();
    assert!(matches!(load_fvecs(&negative), Err(PrismError::InvalidFormat(_))));

    let mut mismatched = Vec::new();
    mismatched.extend_from_slice(&2i32.to_le_bytes());
    mismatched.extend_from_slice(&1.0f32.to_le_bytes());
    mismatched.extend_from_slice(&2.0f32.to_le_bytes());
    mismatched.extend_from_slice(&3i32.to_le_bytes());
    mismatched.extend_from_slice(&3.0f32.to_le_bytes());
    mismatched.extend_from_slice(&4.0f32.to_le_bytes());
    assert!(matches!(load_fvecs(&mismatched), Err(PrismError::InvalidFormat(_))));

    let mut trailing = Vec::new();
    trailing.extend_from_slice(&1i32.to_le_bytes());
    trailing.push(7);
    trailing.push(8);
    assert!(matches!(load_bvecs(&trailing), Err(PrismError::InvalidFormat(_))));
}

#[test]
fn vector_loaders_reject_nonfinite_values_and_negative_ids() {
    let mut fvecs = Vec::new();
    fvecs.extend_from_slice(&1i32.to_le_bytes());
    fvecs.extend_from_slice(&f32::NAN.to_le_bytes());
    assert!(matches!(load_fvecs(&fvecs), Err(PrismError::InvalidFormat(_))));

    let mut ivecs = Vec::new();
    ivecs.extend_from_slice(&1i32.to_le_bytes());
    ivecs.extend_from_slice(&(-1i32).to_le_bytes());
    assert!(matches!(load_ivecs(&ivecs), Err(PrismError::InvalidFormat(_))));
}

#[test]
fn vector_loaders_read_what_a_writer_wrote() {
    let rows = [[1.5f32, -2.0, 0.25], [9.0, 8.0, -7.5]];
    let mut fvecs = Vec::new();
    let mut ivecs = Vec::new();
    let mut bvecs = Vec::new();
    for row in rows {
        fvecs.extend_from_slice(&3i32.to_le_bytes());
        ivecs.extend_from_slice(&3i32.to_le_bytes());
        bvecs.extend_from_slice(&3i32.to_le_bytes());
        for value in row {
            fvecs.extend_from_slice(&value.to_le_bytes());
            ivecs.extend_from_slice(&(value.abs() as i32).to_le_bytes());
            bvecs.push(value.abs() as u8);
        }
    }
    let (values, dim) = load_fvecs(&fvecs).unwrap();
    assert_eq!(dim, 3);
    assert_eq!(values, bits(&[1.5, -2.0, 0.25, 9.0, 8.0, -7.5]));
    assert_eq!(load_ivecs(&ivecs).unwrap(), vec![vec![1, 2, 0], vec![9, 8, 7]]);
    let (values, dim) = load_bvecs(&bvecs).unwrap();
    assert_eq!(dim, 3);
    assert_eq!(values, bits(&[1.0, 2.0, 0.0, 9.0, 8.0, 7.0]));
}

#[test]
fn synthetic_attributes_count_in_mixed_radix() {
    let store = build_store_with_synthetic_attrs(bits(&[0.0; 12]), 1, &[2, 3]).unwrap();
    for point in 0..12u32 {
        assert_eq!(store.attr(point, 0), Some(point % 2));
        assert_eq!(store.attr(point, 1), Some(point / 2 % 3));
    }
}

#[test]
fn words_are_read_little_endian() {
    assert_eq!(word_from(&[0xff, 0x01, 0x02, 0x03, 0x04], 1), 0x0403_0201);
}

#[test]
fn tables_are_read_with_their_shape() {
    let mut bytes = Vec::new();
    bytes.extend_from_slice(&2u32.to_le_bytes());
    bytes.extend_from_slice(&3u32.to_le_bytes());
    let mut table = bytes.clone();
    table.extend_from_slice(&[1, 2, 3, 4, 5, 6]);
    assert_eq!(read_u8bin(&table).unwrap(), (vec![1, 2, 3, 4, 5, 6], 2, 3));
    table.pop();
    assert!(matches!(read_u8bin(&table), Err(PrismError::InvalidFormat(_))));

    let mut table = bytes;
    for value in [1i32, -2, 3, -4, 5, i32::MIN] {
        table.extend_from_slice(&value.to_le_bytes());
    }
    assert_eq!(read_ibin(&table).unwrap(), (vec![1, -2, 3, -4, 5, i32::MIN], 2, 3));
    assert!(matches!(read_ibin(&table[..7]), Err(PrismError::InvalidFormat(_))));
}

#[test]
fn sparse_files_hold_rows_of_tags() {
    let mut bytes = Vec::new();
    for value in [2i64, 5, 3] {
        bytes.extend_from_slice(&value.to_le_bytes());
    }
    for value in [0i64, 1, 3] {
        bytes.extend_from_slice(&value.to_le_bytes());
    }
    for value in [4i32, 0, 2] {
        bytes.extend_from_slice(&value.to_le_bytes());
    }
    for value in [1.0f32; 3] {
        bytes.extend_from_slice(&value.to_le_bytes());
    }
    let matrix = read_spmat(&bytes).unwrap();
    assert_eq!((matrix.rows(), matrix.cols()), (2, 5));
    assert_eq!(matrix.row_tags(0), &[4]);
    assert_eq!(matrix.row_tags(1), &[0, 2]);
    assert!(matrix.validate(2).is_ok());
    assert!(matches!(matrix.validate(3), Err(PrismError::InvalidInput(_))));
    assert!(matches!(read_spmat(&bytes[..20]), Err(PrismError::InvalidFormat(_))));
}
