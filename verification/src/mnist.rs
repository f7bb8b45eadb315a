use std::io::Read;
use vstd::prelude::*;
use crate::array::{lemma_product4, lemma_product1, NdArray};
use crate::shape::product;
use crate::error::MLError;

verus! {

/// Magic number that opens an IDX file of images.
pub const IDX_IMAGES_MAGIC: u32 = 2051;

/// Magic number that opens an IDX file of labels.
pub const IDX_LABELS_MAGIC: u32 = 2049;

/// The big-endian unsigned 32-bit integer stored at `at..at + 4` in `s`.
pub open spec fn be_u32(s: Seq<u8>, at: int) -> int {
    s[at] * 16777216 + s[at + 1] * 65536 + s[at + 2] * 256 + s[at + 3]
}

/// What the error of reading past the end of the data says.
pub open spec fn eof_message() -> Seq<char> {
    "failed to fill whole buffer"@
}

/// `r` is the error of reading past the end of the data.
pub open spec fn is_eof_error<A>(r: Result<A, MLError>) -> bool {
    r matches Err(MLError::IoError(m)) && m@ == eof_message()
}

/// The data that a gzip decoder gives back for a compressed stream, or the
/// text of the error it reports.
pub uninterp spec fn gz_decoded(data: Seq<u8>) -> Result<Seq<u8>, Seq<char>>;

/// Calls `byteorder::BigEndian::read_u32` on the four bytes at `at`; that
/// function is `u32::from_be_bytes` of those bytes, which the contract states.
#[verifier::external_body]
fn read_be_u32(bytes: &[u8], at: usize) -> (r: u32)
    requires
        at + 4 <= bytes@.len(),
    ensures
        r == be_u32(bytes@, at as int),
{
    <byteorder::BigEndian as byteorder::ByteOrder>::read_u32(&bytes[at..at + 4])
}

/// Decompresses a gzip stream with `flate2::read::GzDecoder` (a single gzip
/// member) read to its end. The contract names the outcome, which depends on
/// the bytes alone: the decompressed bytes, or the text of the decoder's
/// error.
#[verifier::external_body]
fn gunzip(data: &[u8]) -> (r: Result<Vec<u8>, String>)
    ensures
        match r {
            Ok(v) => gz_decoded(data@) == Ok::<Seq<u8>, Seq<char>>(v@),
            Err(e) => gz_decoded(data@) == Err::<Seq<u8>, Seq<char>>(e@),
        },
{
    let mut out = Vec::new();
    match flate2::read::GzDecoder::new(data).read_to_end(&mut out) {
        Ok(_) => Ok(out),
        Err(e) => Err(e.to_string()),
    }
}

fn eof_error() -> (e: MLError)
    ensures
        e matches MLError::IoError(m) && m@ == eof_message(),
{
    MLError::IoError(String::from_str("failed to fill whole buffer"))
}

/// The IDX image header, when `raw` holds one: magic number, then the
/// number of images, of rows and of columns, each big-endian.
pub open spec fn idx_image_dims(raw: Seq<u8>) -> (int, int, int) {
    (be_u32(raw, 4), be_u32(raw, 8), be_u32(raw, 12))
}

/// The header of an IDX image file is one the decoder accepts: when the
/// magic number is there it is that of an image file, and when the three
/// extents are there the running products `images * rows` and
/// `images * rows * columns` fit in a `usize`.
pub open spec fn idx_image_header_ok(raw: Seq<u8>) -> bool {
    &&& raw.len() >= 4 ==> be_u32(raw, 0) == IDX_IMAGES_MAGIC
    &&& raw.len() >= 16 ==> {
        &&& idx_image_dims(raw).0 * idx_image_dims(raw).1 <= usize::MAX
        &&& idx_image_dims(raw).0 * idx_image_dims(raw).1 * idx_image_dims(raw).2 <= usize::MAX
    }
}

/// `r` is what decoding the uncompressed IDX image file `raw` gives.
pub open spec fn idx_images_decoded(raw: Seq<u8>, r: Result<NdArray<u8>, MLError>) -> bool {
    &&& raw.len() < 16 ==> is_eof_error(r)
    &&& raw.len() >= 16 ==> {
        let (n, rows, cols) = idx_image_dims(raw);
        if raw.len() < 16 + n * rows * cols {
            is_eof_error(r)
        } else {
            &&& r is Ok
            &&& r->Ok_0.well_formed()
            &&& r->Ok_0.dims() == seq![n as usize, 1usize, rows as usize, cols as usize]
            &&& r->Ok_0.elems() == raw.subrange(16, 16 + n * rows * cols)
        }
    }
}

/// Decodes an uncompressed IDX image file: a 16-byte header (magic number,
/// number of images, rows, columns) followed by one byte per pixel. The
/// pixels come back in an array of extents `(images, 1, rows, columns)`;
/// bytes past the last pixel are ignored. Data that ends early is an
/// `IoError` saying so.
pub fn decode_idx_images(raw: &[u8]) -> (r: Result<NdArray<u8>, MLError>)
    requires
        idx_image_header_ok(raw@),
    ensures
        idx_images_decoded(raw@, r),
{
    if raw.len() < 16 {
        return Err(eof_error());
    }
    let n = read_be_u32(raw, 4) as usize;
    let rows = read_be_u32(raw, 8) as usize;
    let cols = read_be_u32(raw, 12) as usize;
    let ghost dims = idx_image_dims(raw@);
    assert(n == dims.0 && rows == dims.1 && cols == dims.2);
    let total = n * rows * cols;
    if raw.len() - 16 < total {
        return Err(eof_error());
    }
    let mut pixels: Vec<u8> = Vec::new();
    let mut i: usize = 0;
    while i < total
        invariant
            i <= total,
            16 + total <= raw@.len(),
            raw@.len() <= usize::MAX,
            pixels@ == raw@.subrange(16, 16 + i),
        decreases total - i,
    {
        pixels.push(raw[16 + i]);
        i = i + 1;
        assert(pixels@ =~= raw@.subrange(16, 16 + i));
    }
    let mut shape: Vec<usize> = Vec::new();
    shape.push(n);
    shape.push(1);
    shape.push(rows);
    shape.push(cols);
    proof {
        lemma_product4(shape@);
        assert(n * 1 * rows * cols == n * rows * cols) by (nonlinear_arith);
        assert(shape@ =~= seq![n, 1usize, rows, cols]);
    }
    match NdArray::from_shape_vec(shape, pixels) {
        Some(a) => Ok(a),
        None => {
            proof {
                assert(false);
            }
            Err(eof_error())
        },
    }
}

/// The header of an IDX label file is one the decoder accepts: when the
/// magic number is there it is that of a label file.
pub open spec fn idx_label_header_ok(raw: Seq<u8>) -> bool {
    raw.len() >= 4 ==> be_u32(raw, 0) == IDX_LABELS_MAGIC
}

/// `r` is what decoding the uncompressed IDX label file `raw` gives.
pub open spec fn idx_labels_decoded(raw: Seq<u8>, r: Result<NdArray<u8>, MLError>) -> bool {
    &&& raw.len() < 8 ==> is_eof_error(r)
    &&& raw.len() >= 8 ==> {
        let n = be_u32(raw, 4);
        if raw.len() < 8 + n {
            is_eof_error(r)
        } else {
            &&& r is Ok
            &&& r->Ok_0.well_formed()
            &&& r->Ok_0.dims() == seq![n as usize]
            &&& r->Ok_0.elems() == raw.subrange(8, 8 + n)
        }
    }
}

/// Decodes an uncompressed IDX label file: an 8-byte header (magic number,
/// number of labels) followed by one byte per label, returned as a
/// one-dimensional array; bytes past the last label are ignored. Data that
/// ends early is an `IoError` saying so.
pub fn decode_idx_labels(raw: &[u8]) -> (r: Result<NdArray<u8>, MLError>)
    requires
        idx_label_header_ok(raw@),
    ensures
        idx_labels_decoded(raw@, r),
{
    if raw.len() < 8 {
        return Err(eof_error());
    }
    let n = read_be_u32(raw, 4) as usize;
    if raw.len() - 8 < n {
        return Err(eof_error());
    }
    let mut labels: Vec<u8> = Vec::new();
    let mut i: usize = 0;
    while i < n
        invariant
            i <= n,
            8 + n <= raw@.len(),
            raw@.len() <= usize::MAX,
            labels@ == raw@.subrange(8, 8 + i),
        decreases n - i,
    {
        labels.push(raw[8 + i]);
        i = i + 1;
        assert(labels@ =~= raw@.subrange(8, 8 + i));
    }
    let mut shape: Vec<usize> = Vec::new();
    shape.push(n);
    proof {
        lemma_product1(shape@);
        assert(shape@ =~= seq![n]);
    }
    match NdArray::from_shape_vec(shape, labels) {
        Some(a) => Ok(a),
        None => {
            proof {
                assert(false);
            }
            Err(eof_error())
        },
    }
}

/// Decompresses and decodes a gzip-compressed IDX image file, with pixel
/// values as stored (`0..=255`). A decompression error comes back as an
/// `IoError` with the decoder's text. `None` when the decompressed header
/// fails the format check: a magic number other than that of an image file,
/// or extents whose product does not fit in a `usize`.
pub fn parse_idx_images(compressed: &[u8]) -> (r: Option<Result<NdArray<u8>, MLError>>)
    ensures
        match gz_decoded(compressed@) {
            Err(msg) => r matches Some(Err(MLError::IoError(m))) && m@ == msg,
            Ok(raw) => if idx_image_header_ok(raw) {
                r is Some && idx_images_decoded(raw, r->Some_0)
            } else {
                r is None
            },
        },
{
    let raw = match gunzip(compressed) {
        Ok(raw) => raw,
        Err(msg) => {
            return Some(Err(MLError::IoError(msg)));
        },
    };
    if raw.len() >= 4 && read_be_u32(raw.as_slice(), 0) != IDX_IMAGES_MAGIC {
        return None;
    }
    if raw.len() >= 16 {
        let n = read_be_u32(raw.as_slice(), 4) as usize;
        let rows = read_be_u32(raw.as_slice(), 8) as usize;
        let cols = read_be_u32(raw.as_slice(), 12) as usize;
        let fits = match n.checked_mul(rows) {
            Some(nr) => match nr.checked_mul(cols) {
                Some(_) => true,
                None => false,
            },
            None => false,
        };
        if !fits {
            return None;
        }
    }
    Some(decode_idx_images(raw.as_slice()))
}

/// Decompresses and decodes a gzip-compressed IDX label file, with labels as
/// stored. A decompression error comes back as an `IoError` with the
/// decoder's text. `None` when the decompressed data opens with a magic
/// number other than that of a label file.
pub fn parse_idx_labels(compressed: &[u8]) -> (r: Option<Result<NdArray<u8>, MLError>>)
    ensures
        match gz_decoded(compressed@) {
            Err(msg) => r matches Some(Err(MLError::IoError(m))) && m@ == msg,
            Ok(raw) => if idx_label_header_ok(raw) {
                r is Some && idx_labels_decoded(raw, r->Some_0)
            } else {
                r is None
            },
        },
{
    let raw = match gunzip(compressed) {
        Ok(raw) => raw,
        Err(msg) => {
            return Some(Err(MLError::IoError(msg)));
        },
    };
    if raw.len() >= 4 && read_be_u32(raw.as_slice(), 0) != IDX_LABELS_MAGIC {
        return None;
    }
    Some(decode_idx_labels(raw.as_slice()))
}

/// `b` holds rows `start..end`, along the first axis, of `a`.
pub open spec fn holds_rows<T>(a: NdArray<T>, start: int, end: int, b: NdArray<T>) -> bool {
    &&& b.well_formed()
    &&& b.dims() == seq![(end - start) as usize] + a.dims().skip(1)
    &&& b.elems() == a.elems().subrange(start * product(a.dims().skip(1)), end * product(a.dims().skip(1)))
}

/// Where a batch that starts at sample `start` ends, for batches of
/// `batch_size` samples out of `n`.
pub open spec fn batch_end(start: nat, batch_size: nat, n: nat) -> nat {
    if start + batch_size < n {
        start + batch_size
    } else {
        n
    }
}

/// Where the batcher stands after one more call, from position `cur`: the
/// end of the batch it hands out, or back at the first sample once every
/// sample has been handed out.
pub open spec fn next_position(cur: nat, batch_size: nat, n: nat) -> nat {
    if cur >= n {
        0
    } else {
        batch_end(cur, batch_size, n)
    }
}

/// Where the batcher stands after `k` calls from the first sample.
pub open spec fn position_after(k: nat, batch_size: nat, n: nat) -> nat
    decreases k,
{
    if k == 0 {
        0
    } else {
        next_position(position_after((k - 1) as nat, batch_size, n), batch_size, n)
    }
}

/// One epoch of a batcher with positive batch size over `n` samples: the
/// `k`-th call hands out samples `k * batch_size` up to the lesser of
/// `(k + 1) * batch_size` and `n`, so consecutive batches tile `0..n` in
/// order; once call number `ceil(n / batch_size)` has handed out the last
/// sample, the next call reports the end and the batcher is back at the
/// first sample.
pub proof fn lemma_epoch(k: nat, batch_size: nat, n: nat)
    requires
        batch_size > 0,
    ensures
        k * batch_size < n ==> position_after(k, batch_size, n) == k * batch_size,
        k * batch_size < n ==> batch_end(position_after(k, batch_size, n), batch_size, n) == if (k + 1)
            * batch_size < n {
            (k + 1) * batch_size
        } else {
            n
        },
        (k * batch_size < n && n <= (k + 1) * batch_size) ==> position_after(k + 1, batch_size, n) == n
            && position_after(k + 2, batch_size, n) == 0,
    decreases k,
{
    if k > 0 {
        lemma_epoch((k - 1) as nat, batch_size, n);
        let kk = (k - 1) as nat;
        assert(kk * batch_size < k * batch_size) by (nonlinear_arith)
            requires
                kk + 1 == k,
                batch_size > 0,
        ;
        assert(kk * batch_size + batch_size == k * batch_size) by (nonlinear_arith)
            requires
                kk + 1 == k,
        ;
        assert(position_after(k, batch_size, n) == next_position(position_after(kk, batch_size, n), batch_size, n));
    } else {
        assert(0 * batch_size == 0) by (nonlinear_arith);
    }
    assert(k * batch_size + batch_size == (k + 1) * batch_size) by (nonlinear_arith);
    if k * batch_size < n && n <= (k + 1) * batch_size {
        assert(position_after(k + 1, batch_size, n) == next_position(position_after(k, batch_size, n), batch_size, n));
        assert(position_after(k + 2, batch_size, n) == next_position(position_after(k + 1, batch_size, n), batch_size, n));
    }
}

/// Hands out a data set of images and labels in consecutive batches; after
/// the last batch it reports the end once and starts over.
pub struct MnistBatcher<T> {
    images: NdArray<T>,
    labels: NdArray<T>,
    batch_size: usize,
    current_idx: usize,
}

impl<T: Copy> MnistBatcher<T> {
    /// The images, stacked along the first axis.
    pub closed spec fn images(&self) -> NdArray<T> {
        self.images
    }

    /// The labels, one per image.
    pub closed spec fn labels(&self) -> NdArray<T> {
        self.labels
    }

    /// The number of samples per batch.
    pub closed spec fn batch_size(&self) -> usize {
        self.batch_size
    }

    /// The index of the first sample of the next batch.
    pub closed spec fn position(&self) -> usize {
        self.current_idx
    }

    /// A batcher over `images` and `labels`, which must hold the same number
    /// of samples, starting at the first sample.
    pub fn new(images: NdArray<T>, labels: NdArray<T>, batch_size: usize) -> (b: MnistBatcher<T>)
        requires
            images.dims().len() >= 1,
            labels.dims().len() >= 1,
            images.dims()[0] == labels.dims()[0],
        ensures
            b.images() == images,
            b.labels() == labels,
            b.batch_size() == batch_size,
            b.position() == 0,
    {
        MnistBatcher { images, labels, batch_size, current_idx: 0 }
    }

    /// The next batch: samples `position..min(position + batch_size, n)` of
    /// the images (four-dimensional) and of the labels (one-dimensional).
    /// When every sample has been handed out, `None`, and the batcher starts
    /// over from the first sample.
    pub fn next(&mut self) -> (r: Option<(NdArray<T>, NdArray<T>)>)
        requires
            old(self).images().well_formed(),
            old(self).labels().well_formed(),
            old(self).images().dims().len() == 4,
            old(self).labels().dims().len() == 1,
            old(self).images().dims()[0] == old(self).labels().dims()[0],
            old(self).position() < old(self).images().dims()[0] ==> old(self).position() + old(self).batch_size()
                <= usize::MAX,
        ensures
            final(self).images() == old(self).images(),
            final(self).labels() == old(self).labels(),
            final(self).batch_size() == old(self).batch_size(),
            final(self).position() == next_position(
                old(self).position() as nat,
                old(self).batch_size() as nat,
                old(self).images().dims()[0] as nat,
            ),
            old(self).position() >= old(self).images().dims()[0] ==> r is None,
            old(self).position() < old(self).images().dims()[0] ==> {
                let start = old(self).position() as int;
                let end = batch_end(
                    old(self).position() as nat,
                    old(self).batch_size() as nat,
                    old(self).images().dims()[0] as nat,
                ) as int;
                &&& r is Some
                &&& holds_rows(old(self).images(), start, end, r->Some_0.0)
                &&& holds_rows(old(self).labels(), start, end, r->Some_0.1)
            },
    {
        let n = self.images.shape()[0];
        if self.current_idx >= n {
            self.current_idx = 0;
            return None;
        }
        let end = if self.current_idx + self.batch_size < n {
            self.current_idx + self.batch_size
        } else {
            n
        };
        let batch_images = self.images.slice_rows(self.current_idx, end);
        let batch_labels = self.labels.slice_rows(self.current_idx, end);
        self.current_idx = end;
        Some((batch_images, batch_labels))
    }
}

} // verus!
