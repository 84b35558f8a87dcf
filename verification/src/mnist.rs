//! The labelled-image data set: gzip-compressed files whose content is a
//! big-endian header followed by raw bytes.
//!
//! A label file is the magic number `0x00000801`, the number of labels, and
//! one byte for each label. An image file is the magic number `0x00000803`,
//! the number of images, the number of rows and of columns of an image, and
//! one byte for each pixel.

use std::io::{Cursor, Read};

use byteorder::{BigEndian, ReadBytesExt};
use flate2::read::GzDecoder;
use nalgebra::DMatrix;
use vstd::prelude::*;
use vstd::slice::slice_subrange;

verus! {

/// The magic number that opens a label file.
pub const LABELS_MAGIC: u32 = 0x0000_0801;

/// The magic number that opens an image file.
pub const IMAGES_MAGIC: u32 = 0x0000_0803;

/// The number of bytes of a label file's header.
pub const LABELS_HEADER: usize = 8;

/// The number of bytes of an image file's header.
pub const IMAGES_HEADER: usize = 16;

/// The value of four bytes read as a big-endian unsigned integer.
pub open spec fn be_u32(b: Seq<u8>) -> int
    recommends
        b.len() == 4,
{
    b[0] * 0x100_0000 + b[1] * 0x1_0000 + b[2] * 0x100 + b[3]
}

/// The header word that starts at `offset` in `data`.
pub open spec fn word(data: Seq<u8>, offset: int) -> int
    recommends
        0 <= offset,
        offset + 4 <= data.len(),
{
    be_u32(data.subrange(offset, offset + 4))
}

/// What the gzip decoder of `flate2` makes of a compressed stream: the
/// bytes of its first member, or nothing where the decoder reports an error.
pub uninterp spec fn gunzip(raw: Seq<u8>) -> Option<Seq<u8>>;

/// Calls `flate2::read::GzDecoder::new` on the bytes and reads the decoder to
/// its end with `read_to_end`. The decoder's output depends on the input
/// bytes alone, so it has a name, `gunzip`; an error of the decoder is `None`.
#[verifier::external_body]
fn inflate(raw: &[u8]) -> (content: Option<Vec<u8>>)
    ensures
        content.is_some() == gunzip(raw@).is_some(),
        content matches Some(bytes) ==> gunzip(raw@) == Some(bytes@),
{
    let mut content: Vec<u8> = Vec::new();
    match GzDecoder::new(raw).read_to_end(&mut content) {
        Ok(_) => Some(content),
        Err(_) => None,
    }
}

/// Calls `byteorder::ReadBytesExt::read_u32::<BigEndian>` on a cursor placed
/// at `offset` in `data`. The call fails exactly when fewer than four bytes
/// follow `offset`; otherwise it yields the big-endian value of the four
/// bytes there.
#[verifier::external_body]
fn word_at(data: &[u8], offset: usize) -> (found: Option<u32>)
    ensures
        found.is_some() <==> offset + 4 <= data@.len(),
        found matches Some(w) ==> w == word(data@, offset as int),
{
    let mut reader = Cursor::new(data);
    reader.set_position(offset as u64);
    reader.read_u32::<BigEndian>().ok()
}

/// The content of a compressed data file, or `None` where `raw` is no gzip
/// stream that the decoder accepts.
pub fn import_data(raw: &[u8]) -> (content: Option<Vec<u8>>)
    ensures
        content.is_some() == gunzip(raw@).is_some(),
        content matches Some(bytes) ==> gunzip(raw@) == Some(bytes@),
{
    inflate(raw)
}

/// Why `data` is no label file, or `None` where it is one.
pub open spec fn labels_fault(data: Seq<u8>) -> Option<Seq<char>> {
    if data.len() < LABELS_HEADER {
        Some("could not read header"@)
    } else if word(data, 0) != LABELS_MAGIC {
        Some("invalid magic"@)
    } else if word(data, 4) != data.len() - LABELS_HEADER {
        Some("invalid sizes"@)
    } else {
        None
    }
}

/// The labels of a label file: every byte after the header. The file is
/// refused where its header is cut short, where its magic number is not
/// that of a label file, and where the count it declares is not the number
/// of bytes that follow the header.
pub fn get_labels(data: &[u8]) -> (r: Result<&[u8], &'static str>)
    ensures
        match r {
            Ok(labels) => labels_fault(data@).is_none() && labels@ == data@.skip(
                LABELS_HEADER as int,
            ),
            Err(e) => labels_fault(data@) == Some(e@),
        },
{
    let magic = word_at(data, 0);
    let count = word_at(data, 4);
    match (magic, count) {
        (Some(magic), Some(count)) => {
            if magic == LABELS_MAGIC {
                if count as usize == data.len() - LABELS_HEADER {
                    Ok(slice_subrange(data, LABELS_HEADER, data.len()))
                } else {
                    Err("invalid sizes")
                }
            } else {
                Err("invalid magic")
            }
        },
        _ => Err("could not read header"),
    }
}

/// A matrix of bytes, held by `nalgebra` as a `DMatrix<u8>`.
#[verifier::external_body]
pub struct ByteMatrix {
    inner: DMatrix<u8>,
}

/// The numbers of rows and of columns of a byte matrix.
pub uninterp spec fn byte_matrix_shape(m: ByteMatrix) -> (nat, nat);

/// The entries of a byte matrix in the order in which `nalgebra` stores
/// them: column after column.
pub uninterp spec fn byte_matrix_cells(m: ByteMatrix) -> Seq<u8>;

/// Calls `nalgebra::DMatrix::from_iterator`, which fills the matrix column
/// by column from the iterator and panics unless the iterator yields exactly
/// `rows * cols` items.
#[verifier::external_body]
fn byte_matrix_from_iterator(rows: usize, cols: usize, bytes: &[u8]) -> (m: ByteMatrix)
    requires
        bytes@.len() == rows * cols,
    ensures
        byte_matrix_shape(m) == (rows as nat, cols as nat),
        byte_matrix_cells(m) == bytes@,
{
    ByteMatrix { inner: DMatrix::<u8>::from_iterator(rows, cols, bytes.iter().copied()) }
}

/// Calls `nalgebra::Matrix::nrows`.
#[verifier::external_body]
fn byte_matrix_nrows(m: &ByteMatrix) -> (n: usize)
    ensures
        n == byte_matrix_shape(*m).0,
{
    m.inner.nrows()
}

/// Calls `nalgebra::Matrix::ncols`.
#[verifier::external_body]
fn byte_matrix_ncols(m: &ByteMatrix) -> (n: usize)
    ensures
        n == byte_matrix_shape(*m).1,
{
    m.inner.ncols()
}

/// Calls `nalgebra::Matrix::as_slice`, which for a `DMatrix` is the whole
/// storage, one entry for each pair of a row and a column, and copies it.
#[verifier::external_body]
fn byte_matrix_as_slice(m: &ByteMatrix) -> (cells: Vec<u8>)
    ensures
        cells@ == byte_matrix_cells(*m),
        cells@.len() == byte_matrix_shape(*m).0 * byte_matrix_shape(*m).1,
{
    m.inner.as_slice().to_vec()
}

impl ByteMatrix {
    /// The number of rows.
    pub open spec fn rows(self) -> nat {
        byte_matrix_shape(self).0
    }

    /// The number of columns.
    pub open spec fn cols(self) -> nat {
        byte_matrix_shape(self).1
    }

    /// The entries, column after column.
    pub open spec fn cells(self) -> Seq<u8> {
        byte_matrix_cells(self)
    }

    /// The number of rows.
    pub fn nrows(&self) -> (n: usize)
        ensures
            n == self.rows(),
    {
        byte_matrix_nrows(self)
    }

    /// The number of columns.
    pub fn ncols(&self) -> (n: usize)
        ensures
            n == self.cols(),
    {
        byte_matrix_ncols(self)
    }

    /// The entries, column after column.
    pub fn to_vec(&self) -> (cells: Vec<u8>)
        ensures
            cells@ == self.cells(),
            cells@.len() == self.rows() * self.cols(),
    {
        byte_matrix_as_slice(self)
    }
}

/// The images of an image file.
#[derive(Debug)]
pub struct Images<'a> {
    size: (usize, usize),
    data: &'a [u8],
}

/// What an `Images` value stands for.
pub struct ImagesView {
    /// The number of rows of one image.
    pub rows: nat,
    /// The number of columns of one image.
    pub cols: nat,
    /// The pixels of all the images, one image after the other.
    pub pixels: Seq<u8>,
}

impl ImagesView {
    /// The number of pixels of one image.
    pub open spec fn area(self) -> nat {
        self.rows * self.cols
    }

    /// Whether image `n` can be handed out: its pixels lie wholly inside
    /// the data, and `n` passes the bound `n + cols <= pixels.len()`.
    pub open spec fn holds(self, n: nat) -> bool {
        &&& n + self.cols <= self.pixels.len()
        &&& (n + 1) * self.area() <= self.pixels.len()
    }

    /// The pixels of image `n`.
    pub open spec fn image(self, n: nat) -> Seq<u8>
        recommends
            self.holds(n),
    {
        self.pixels.subrange((n * self.area()) as int, ((n + 1) * self.area()) as int)
    }
}

impl<'a> View for Images<'a> {
    type V = ImagesView;

    closed spec fn view(&self) -> ImagesView {
        ImagesView { rows: self.size.0 as nat, cols: self.size.1 as nat, pixels: self.data@ }
    }
}

/// Why `data` is no image file, or `None` where it is one.
pub open spec fn images_fault(data: Seq<u8>) -> Option<Seq<char>> {
    if data.len() < IMAGES_HEADER {
        Some("could not read header"@)
    } else if word(data, 0) != IMAGES_MAGIC {
        Some("invalid magic"@)
    } else if word(data, 4) * word(data, 8) * word(data, 12) != data.len() - IMAGES_HEADER {
        Some("invalid sizes"@)
    } else {
        None
    }
}

/// A product grows with each of its factors.
proof fn lemma_mul_le(a: nat, b: nat, c: nat)
    requires
        a <= b,
    ensures
        a * c <= b * c,
        c * a <= c * b,
{
    assert(a * c <= b * c) by (nonlinear_arith)
        requires
            a <= b,
    ;
    assert(c * a <= c * b) by (nonlinear_arith)
        requires
            a <= b,
    ;
}

/// An image file holds the images that it declares: where an image has a
/// pixel, image `n` can be handed out exactly when `n` is less than the
/// number of images in the header.
pub proof fn declared_images_are_held(data: Seq<u8>, images: ImagesView, n: nat)
    requires
        images_fault(data).is_none(),
        images.rows == word(data, 8),
        images.cols == word(data, 12),
        images.pixels == data.skip(IMAGES_HEADER as int),
        images.area() > 0,
    ensures
        images.holds(n) <==> n < word(data, 4),
{
    let count = word(data, 4);
    let area = images.area() as int;
    let len = images.pixels.len() as int;
    assert(count * images.rows * images.cols == count * area) by (nonlinear_arith)
        requires
            area == images.rows * images.cols,
    ;
    assert(len == count * area);
    assert(images.cols <= area) by (nonlinear_arith)
        requires
            area == images.rows * images.cols,
            area > 0,
    ;
    if n < count {
        assert((n + 1) * area <= count * area) by (nonlinear_arith)
            requires
                n + 1 <= count,
                area > 0,
        ;
        assert(n + images.cols <= (n + 1) * area) by (nonlinear_arith)
            requires
                images.cols <= area,
                area > 0,
                n >= 0,
        ;
    } else {
        assert((n + 1) * area > count * area) by (nonlinear_arith)
            requires
                n + 1 > count,
                area > 0,
        ;
    }
}

impl<'a> Images<'a> {
    /// The images of an image file: their size is the header's, their
    /// pixels are every byte after the header. The file is refused where its
    /// header is cut short, where its magic number is not that of an image
    /// file, and where the product of the three counts it declares is not
    /// the number of bytes that follow the header.
    pub fn new<'b>(data: &'b [u8]) -> (r: Result<Images<'b>, &'static str>)
        ensures
            match r {
                Ok(images) => {
                    &&& images_fault(data@).is_none()
                    &&& images@.rows == word(data@, 8)
                    &&& images@.cols == word(data@, 12)
                    &&& images@.pixels == data@.skip(IMAGES_HEADER as int)
                },
                Err(e) => images_fault(data@) == Some(e@),
            },
    {
        let magic = word_at(data, 0);
        let count = word_at(data, 4);
        let rows = word_at(data, 8);
        let cols = word_at(data, 12);
        match (magic, count, rows, cols) {
            (Some(magic), Some(count), Some(rows), Some(cols)) => {
                if magic == IMAGES_MAGIC {
                    assert(rows as int * cols as int <= 0xffff_ffff * 0xffff_ffff)
                        by (nonlinear_arith)
                        requires
                            0 <= rows <= 0xffff_ffff,
                            0 <= cols <= 0xffff_ffff,
                    ;
                    let per_image: u64 = rows as u64 * cols as u64;
                    assert(count as int * rows as int * cols as int == count as int
                        * per_image as int) by (nonlinear_arith)
                        requires
                            per_image as int == rows as int * cols as int,
                    ;
                    assert(0 <= count as int * per_image as int <= 0xffff_ffff
                        * 0xffff_ffff_ffff_ffff) by (nonlinear_arith)
                        requires
                            0 <= count <= 0xffff_ffff,
                            0 <= per_image <= 0xffff_ffff_ffff_ffff,
                    ;
                    let declared: u128 = count as u128 * per_image as u128;
                    if declared == (data.len() - IMAGES_HEADER) as u128 {
                        Ok(
                            Images {
                                size: (rows as usize, cols as usize),
                                data: slice_subrange(data, IMAGES_HEADER, data.len()),
                            },
                        )
                    } else {
                        Err("invalid sizes")
                    }
                } else {
                    Err("invalid magic")
                }
            },
            _ => Err("could not read header"),
        }
    }

    /// The numbers of rows and of columns of one image.
    pub fn size(&self) -> (size: (usize, usize))
        ensures
            size.0 == self@.rows,
            size.1 == self@.cols,
    {
        self.size
    }

    /// The number of bytes of pixel data.
    pub fn len(&self) -> (len: usize)
        ensures
            len == self@.pixels.len(),
    {
        self.data.len()
    }

    /// Where image `n` starts in the pixel data, if the image can be handed
    /// out.
    fn start(&self, n: usize) -> (r: Option<(usize, usize)>)
        ensures
            match r {
                Some((start, area)) => {
                    &&& self@.holds(n as nat)
                    &&& area == self@.area()
                    &&& start == n * self@.area()
                    &&& start + area <= self@.pixels.len()
                },
                None => !self@.holds(n as nat),
            },
    {
        let len = self.data.len();
        let rows = self.size.0;
        let cols = self.size.1;
        if cols > len || n > len - cols {
            return None;
        }
        let area = match rows.checked_mul(cols) {
            Some(area) => area,
            None => {
                proof {
                    lemma_mul_le(1, (n + 1) as nat, self@.area());
                }
                return None;
            },
        };
        if area > len {
            proof {
                lemma_mul_le(1, (n + 1) as nat, self@.area());
            }
            return None;
        }
        if area == 0 {
            assert(n as nat * self@.area() == 0) by (nonlinear_arith)
                requires
                    self@.area() == 0,
            ;
            assert((n as nat + 1) * self@.area() == 0) by (nonlinear_arith)
                requires
                    self@.area() == 0,
            ;
            return Some((0, 0));
        }
        let fit = len / area;
        assert((n + 1) * area == n * area + area) by (nonlinear_arith);
        if n >= fit {
            proof {
                assert(len < (fit + 1) * area) by (nonlinear_arith)
                    requires
                        fit == len as int / area as int,
                        area > 0,
                        len >= 0,
                ;
                lemma_mul_le((fit + 1) as nat, (n + 1) as nat, area as nat);
            }
            return None;
        }
        proof {
            assert(fit * area <= len) by (nonlinear_arith)
                requires
                    fit == len as int / area as int,
                    area > 0,
                    len >= 0,
            ;
            lemma_mul_le((n + 1) as nat, fit as nat, area as nat);
        }
        Some((n * area, area))
    }

    /// Image `n` as a matrix of `rows` by `cols` bytes, filled column by
    /// column from the image's pixels; `None` where the image cannot be
    /// handed out.
    pub fn get(&self, n: usize) -> (r: Option<ByteMatrix>)
        ensures
            r.is_some() == self@.holds(n as nat),
            r matches Some(m) ==> {
                &&& m.rows() == self@.rows
                &&& m.cols() == self@.cols
                &&& m.cells() == self@.image(n as nat)
            },
    {
        match self.start(n) {
            Some((start, area)) => {
                assert((n + 1) * area == n * area + area) by (nonlinear_arith);
                let len = self.data.len();
                assert(start + area <= len);
                let pixels = slice_subrange(self.data, start, start + area);
                Some(byte_matrix_from_iterator(self.size.0, self.size.1, pixels))
            },
            None => None,
        }
    }

    /// Image `n` as a single column of `rows * cols` bytes, in the order of
    /// the image's pixels; `None` where the image cannot be handed out.
    pub fn get_flat(&self, n: usize) -> (r: Option<ByteMatrix>)
        ensures
            r.is_some() == self@.holds(n as nat),
            r matches Some(m) ==> {
                &&& m.rows() == self@.area()
                &&& m.cols() == 1
                &&& m.cells() == self@.image(n as nat)
            },
    {
        match self.start(n) {
            Some((start, area)) => {
                assert((n + 1) * area == n * area + area) by (nonlinear_arith);
                let len = self.data.len();
                assert(start + area <= len);
                let pixels = slice_subrange(self.data, start, start + area);
                Some(byte_matrix_from_iterator(area, 1, pixels))
            },
            None => None,
        }
    }
}

} // verus!
