use neural::idx::{
    one_hot, parse_images, parse_labels, read_to_u32, samples, DataType, IdxError, BYTES_PER_IMAGE,
    TEST_SAMPLES,
};
use neural::matrix::MatBase;

fn header(magic: u32, rest: usize) -> Vec<u8> {
    let mut v = magic.to_be_bytes().to_vec();
    v.extend(std::iter::repeat(0u8).take(rest));
    v
}

#[test]
fn u32_is_big_endian() {
    assert_eq!(read_to_u32(&[0, 0, 8, 1]), 2049);
    assert_eq!(read_to_u32(&[0x12, 0x34, 0x56, 0x78, 0xff]), 0x1234_5678);
    assert_eq!(read_to_u32(&[0xff, 0xff, 0xff, 0xff]), u32::MAX);
}

#[test]
fn sample_counts() {
    assert_eq!(samples(DataType::Train), 60000);
    assert_eq!(samples(DataType::Test), 10000);
}

#[test]
fn labels_parse() {
    let mut bytes = header(2049, 4);
    for k in 0..TEST_SAMPLES {
        bytes.push((k % 10) as u8);
    }
    let labels = parse_labels(&bytes, DataType::Test).unwrap();
    assert_eq!(labels.len(), 10000);
    assert_eq!(labels[0], 0);
    assert_eq!(labels[13], 3);
    assert_eq!(labels[9999], 9);
}

#[test]
fn labels_errors() {
    assert_eq!(parse_labels(&vec![0, 0, 8], DataType::Test), Err(IdxError::TooShort { len: 3 }));
    assert_eq!(parse_labels(&header(2051, 4), DataType::Test), Err(IdxError::BadMagic { magic: 2051 }));
    assert_eq!(
        parse_labels(&header(2049, 4 + 5), DataType::Train),
        Err(IdxError::BadLength { expected: 60000, found: 5 })
    );
}

#[test]
fn images_parse() {
    let mut bytes = header(2051, 12);
    for k in 0..(BYTES_PER_IMAGE * TEST_SAMPLES) {
        bytes.push((k / BYTES_PER_IMAGE % 256) as u8);
    }
    let images = parse_images(&bytes, DataType::Test).unwrap();
    assert_eq!(images.len(), 10000);
    assert!(images.iter().all(|im| im.len() == 784));
    assert_eq!(images[0][0], 0);
    assert_eq!(images[1][783], 1);
    assert_eq!(images[300][5], 44);
}

#[test]
fn images_errors() {
    assert_eq!(parse_images(&header(2051, 4), DataType::Test), Err(IdxError::TooShort { len: 8 }));
    assert_eq!(parse_images(&header(2049, 12), DataType::Test), Err(IdxError::BadMagic { magic: 2049 }));
    assert_eq!(
        parse_images(&header(2051, 12 + 784), DataType::Test),
        Err(IdxError::BadLength { expected: 7_840_000, found: 784 })
    );
}

#[test]
fn one_hot_column() {
    let m = one_hot(3, 0.0f32, 1.0f32);
    assert_eq!(m.shape(), (10, 1));
    assert_eq!(m.data(), &vec![0.0, 0.0, 0.0, 1.0, 0.0, 0.0, 0.0, 0.0, 0.0, 0.0]);
    assert_eq!(m.max_index(|b, x| b >= x), (3, 0));
}
