//! The IDX byte format of the MNIST digit files: a big-endian header (a magic
//! number, then counts) followed by one byte per label or per pixel.

use crate::matrix::{cell, Mat, MatBase};
use vstd::prelude::*;

verus! {

/// The magic number that opens a label file.
pub const LABEL_MAGIC_NUMBER: u32 = 2049;

/// The magic number that opens an image file.
pub const IMAGE_MAGIC_NUMBER: u32 = 2051;

/// The number of samples in the training files.
pub const TRAIN_SAMPLES: usize = 60000;

/// The number of samples in the test files.
pub const TEST_SAMPLES: usize = 10000;

/// Where the labels start in a label file.
pub const LABEL_DATA_OFFSET: usize = 8;

/// Where the pixels start in an image file.
pub const IMAGE_DATA_OFFSET: usize = 16;

/// The pixels of one image.
pub const BYTES_PER_IMAGE: usize = 784;

/// The pixels along one side of an image.
pub const BYTES_PER_AXIS: usize = 28;

/// The number of digit classes.
pub const CLASSES: usize = 10;

/// Which of the two file sets is meant.
#[derive(Clone, Copy, Debug, PartialEq, Eq)]
pub enum DataType {
    Train,
    Test,
}

/// Why a file's bytes are not a label or an image file of the expected set.
#[derive(Clone, Copy, Debug, PartialEq, Eq)]
pub enum IdxError {
    /// Shorter than its header.
    TooShort { len: usize },
    /// The header opens with another magic number.
    BadMagic { magic: u32 },
    /// The data after the header has another length.
    BadLength { expected: usize, found: usize },
}

/// The number of samples in a set.
pub open spec fn samples_spec(data_type: DataType) -> nat {
    match data_type {
        DataType::Train => TRAIN_SAMPLES as nat,
        DataType::Test => TEST_SAMPLES as nat,
    }
}

/// The number of samples in a set.
pub fn samples(data_type: DataType) -> (r: usize)
    ensures
        r == samples_spec(data_type),
{
    match data_type {
        DataType::Train => TRAIN_SAMPLES,
        DataType::Test => TEST_SAMPLES,
    }
}

/// The unsigned integer that the first four bytes of `b` spell, most significant first.
pub open spec fn be_u32(b: Seq<u8>) -> int {
    b[0] * 0x100_0000 + b[1] * 0x1_0000 + b[2] * 0x100 + b[3]
}

/// Reads a `u32` from the first four bytes of `buf`, big-endian.
pub fn read_to_u32(buf: &[u8]) -> (r: u32)
    requires
        buf.len() >= 4,
    ensures
        r == be_u32(buf@),
{
    (buf[0] as u32) * 0x100_0000 + (buf[1] as u32) * 0x1_0000 + (buf[2] as u32) * 0x100
        + buf[3] as u32
}

/// The bytes of `v` from `start` on.
fn tail(v: &Vec<u8>, start: usize) -> (r: Vec<u8>)
    requires
        start <= v.len(),
    ensures
        r@ == v@.subrange(start as int, v.len() as int),
{
    let mut r: Vec<u8> = Vec::with_capacity(v.len() - start);
    let mut k: usize = start;
    while k < v.len()
        invariant
            start <= k <= v.len(),
            r@ == v@.subrange(start as int, k as int),
        decreases v.len() - k,
    {
        r.push(v[k]);
        k = k + 1;
        assert(r@ =~= v@.subrange(start as int, k as int));
    }
    r
}

/// The labels of a label file of the given set: one byte per sample after the
/// header.
///
/// Fails when the bytes are shorter than the header, open with another magic
/// number, or hold another number of labels than the set has, checked in that
/// order.
pub fn parse_labels(bytes: &Vec<u8>, data_type: DataType) -> (r: Result<Vec<u8>, IdxError>)
    ensures
        bytes.len() < LABEL_DATA_OFFSET ==> r == Err::<Vec<u8>, IdxError>(
            IdxError::TooShort { len: bytes.len() },
        ),
        bytes.len() >= LABEL_DATA_OFFSET && be_u32(bytes@) != LABEL_MAGIC_NUMBER ==> r == Err::<
            Vec<u8>,
            IdxError,
        >(IdxError::BadMagic { magic: be_u32(bytes@) as u32 }),
        bytes.len() >= LABEL_DATA_OFFSET && be_u32(bytes@) == LABEL_MAGIC_NUMBER && bytes.len()
            - LABEL_DATA_OFFSET != samples_spec(data_type) ==> r == Err::<Vec<u8>, IdxError>(
            IdxError::BadLength {
                expected: samples_spec(data_type) as usize,
                found: (bytes.len() - LABEL_DATA_OFFSET) as usize,
            },
        ),
        r is Ok <==> (bytes.len() >= LABEL_DATA_OFFSET && be_u32(bytes@) == LABEL_MAGIC_NUMBER
            && bytes.len() - LABEL_DATA_OFFSET == samples_spec(data_type)),
        r matches Ok(v) ==> v@ == bytes@.subrange(LABEL_DATA_OFFSET as int, bytes.len() as int),
{
    if bytes.len() < LABEL_DATA_OFFSET {
        return Err(IdxError::TooShort { len: bytes.len() });
    }
    let magic = read_to_u32(bytes.as_slice());
    if magic != LABEL_MAGIC_NUMBER {
        return Err(IdxError::BadMagic { magic });
    }
    let expected = samples(data_type);
    let found = bytes.len() - LABEL_DATA_OFFSET;
    if found != expected {
        return Err(IdxError::BadLength { expected, found });
    }
    Ok(tail(bytes, LABEL_DATA_OFFSET))
}

/// The images of an image file of the given set: after the header, one run of
/// `BYTES_PER_IMAGE` pixel bytes per sample, each image in order.
///
/// Fails when the bytes are shorter than the header, open with another magic
/// number, or hold another number of pixels than the set's images have, checked
/// in that order.
pub fn parse_images(bytes: &Vec<u8>, data_type: DataType) -> (r: Result<Vec<Vec<u8>>, IdxError>)
    ensures
        bytes.len() < IMAGE_DATA_OFFSET ==> r == Err::<Vec<Vec<u8>>, IdxError>(
            IdxError::TooShort { len: bytes.len() },
        ),
        bytes.len() >= IMAGE_DATA_OFFSET && be_u32(bytes@) != IMAGE_MAGIC_NUMBER ==> r == Err::<
            Vec<Vec<u8>>,
            IdxError,
        >(IdxError::BadMagic { magic: be_u32(bytes@) as u32 }),
        bytes.len() >= IMAGE_DATA_OFFSET && be_u32(bytes@) == IMAGE_MAGIC_NUMBER && bytes.len()
            - IMAGE_DATA_OFFSET != BYTES_PER_IMAGE * samples_spec(data_type) ==> r == Err::<
            Vec<Vec<u8>>,
            IdxError,
        >(
            IdxError::BadLength {
                expected: (BYTES_PER_IMAGE * samples_spec(data_type)) as usize,
                found: (bytes.len() - IMAGE_DATA_OFFSET) as usize,
            },
        ),
        r is Ok <==> (bytes.len() >= IMAGE_DATA_OFFSET && be_u32(bytes@) == IMAGE_MAGIC_NUMBER
            && bytes.len() - IMAGE_DATA_OFFSET == BYTES_PER_IMAGE * samples_spec(data_type)),
        r matches Ok(images) ==> {
            &&& images.len() == samples_spec(data_type)
            &&& forall|k: int|
                0 <= k < images.len() ==> (#[trigger] images[k])@ == bytes@.subrange(
                    IMAGE_DATA_OFFSET + BYTES_PER_IMAGE * k,
                    IMAGE_DATA_OFFSET + BYTES_PER_IMAGE * (k + 1),
                )
        },
{
    if bytes.len() < IMAGE_DATA_OFFSET {
        return Err(IdxError::TooShort { len: bytes.len() });
    }
    let magic = read_to_u32(bytes.as_slice());
    if magic != IMAGE_MAGIC_NUMBER {
        return Err(IdxError::BadMagic { magic });
    }
    let count = samples(data_type);
    let expected = BYTES_PER_IMAGE * count;
    let found = bytes.len() - IMAGE_DATA_OFFSET;
    if found != expected {
        return Err(IdxError::BadLength { expected, found });
    }
    let mut images: Vec<Vec<u8>> = Vec::with_capacity(count);
    let mut start: usize = IMAGE_DATA_OFFSET;
    while images.len() < count
        invariant
            count == samples_spec(data_type),
            bytes.len() == IMAGE_DATA_OFFSET + BYTES_PER_IMAGE * count,
            images.len() <= count,
            start == IMAGE_DATA_OFFSET + BYTES_PER_IMAGE * images.len(),
            forall|k: int|
                0 <= k < images.len() ==> (#[trigger] images[k])@ == bytes@.subrange(
                    IMAGE_DATA_OFFSET + BYTES_PER_IMAGE * k,
                    IMAGE_DATA_OFFSET + BYTES_PER_IMAGE * (k + 1),
                ),
        decreases count - images.len(),
    {
        let end = start + BYTES_PER_IMAGE;
        let mut image: Vec<u8> = Vec::with_capacity(BYTES_PER_IMAGE);
        let mut k: usize = start;
        while k < end
            invariant
                start <= k <= end,
                end == start + BYTES_PER_IMAGE,
                end <= bytes.len(),
                image@ == bytes@.subrange(start as int, k as int),
            decreases end - k,
        {
            image.push(bytes[k]);
            k = k + 1;
            assert(image@ =~= bytes@.subrange(start as int, k as int));
        }
        images.push(image);
        start = end;
    }
    Ok(images)
}

/// The one-hot column of a digit class: `one` in row `hot`, `zero` in every other
/// row of a `CLASSES` by 1 matrix.
pub fn one_hot<T: Copy>(hot: usize, zero: T, one: T) -> (r: Mat<T>)
    requires
        hot < CLASSES,
    ensures
        r.wf(),
        r.rows_spec() == CLASSES,
        r.cols_spec() == 1,
        forall|i: int| 0 <= i < CLASSES ==> #[trigger] cell(&r, i, 0) == if i == hot {
            one
        } else {
            zero
        },
{
    let mut r = Mat::filled((CLASSES, 1), zero);
    r.set(hot, 0, one);
    r
}

} // verus!
