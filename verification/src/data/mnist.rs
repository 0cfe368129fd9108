//! IDX file format parsing (the format of the MNIST database).
//!
//! IDX3 (images): magic `0x00000803` then dims (big-endian u32) then u8 data.
//! IDX1 (labels): magic `0x00000801` then count then u8 labels. Both may be
//! gzip-compressed (the usual distribution), detected by the `1f 8b` magic.
//!
//! Data is normalized to `[0, 1]` at load time (torchvision's
//! `transforms.ToTensor()` semantics) and the images tensor is shaped
//! `(n, 1, rows, cols)`; labels stay a 1-D tensor of class indices.

use std::io::Read;
use vstd::prelude::*;
use vstd::string::*;
use crate::elem::Elem;
use crate::error::{ErrorText, OxitorchError, OxitorchResult};
use crate::index::{lemma_rank1, lemma_rank3, product};
use crate::tensor::Tensor;
use crate::text::{hex_string, hex_text, join2, join3, join4, nat_text, u64_string, usize_string};

verus! {

/// A parsed MNIST-style dataset: images `(n, 1, rows, cols)` in `[0, 1]` and
/// labels `(n,)` class indices.
pub struct MnistData<E> {
    /// Normalized images, row-major, shape `(n, 1, rows, cols)`.
    pub images: Tensor<E>,
    /// Class labels, shape `(n,)`.
    pub labels: Tensor<E>,
}

// ---- headers ----------------------------------------------------------------------------

/// The big-endian 32-bit number at byte `at`.
pub open spec fn be_value(b: Seq<u8>, at: int) -> int {
    b[at] * 16_777_216 + b[at + 1] * 65_536 + b[at + 2] * 256 + b[at + 3]
}

/// The complaint about a header that ends too early.
pub open spec fn truncated_error(at: int) -> ErrorText {
    ErrorText::OutOfBounds("IDX header truncated at byte "@ + nat_text(at as nat))
}

/// Reads the big-endian 32-bit number at byte `at`.
pub fn be_u32(b: &[u8], at: usize) -> (r: OxitorchResult<u32>)
    ensures
        match r {
            Ok(v) => at + 4 <= b.len() && v == be_value(b@, at as int),
            Err(e) => at + 4 > b.len() && e@ == truncated_error(at as int),
        },
{
    if b.len() < 4 || at > b.len() - 4 {
        return Err(
            OxitorchError::OutOfBounds(
                join2("IDX header truncated at byte ", usize_string(at).as_str()),
            ),
        );
    }
    Ok(
        b[at] as u32 * 16_777_216 + b[at + 1] as u32 * 65_536 + b[at + 2] as u32 * 256 + b[at
            + 3] as u32,
    )
}

// ---- images -----------------------------------------------------------------------------

/// Why bytes are no IDX3 file, if they are not.
pub open spec fn idx3_error(b: Seq<u8>) -> Option<ErrorText> {
    let n = be_value(b, 4);
    let rows = be_value(b, 8);
    let cols = be_value(b, 12);
    if b.len() < 4 {
        Some(truncated_error(0))
    } else if be_value(b, 0) != 0x0803 {
        Some(ErrorText::Other("bad IDX3 magic: "@ + hex_text(be_value(b, 0) as u32)))
    } else if b.len() < 8 {
        Some(truncated_error(4))
    } else if b.len() < 12 {
        Some(truncated_error(8))
    } else if b.len() < 16 {
        Some(truncated_error(12))
    } else if n * rows > usize::MAX || n * rows * cols + 16 > usize::MAX {
        Some(ErrorText::Other("IDX3 size overflow"@))
    } else if b.len() < 16 + n * rows * cols {
        Some(
            ErrorText::OutOfBounds(
                "IDX3 truncated: have "@ + nat_text(b.len()) + " bytes, need "@ + nat_text(
                    (16 + n * rows * cols) as nat,
                ),
            ),
        )
    } else {
        None
    }
}

/// `r` is a pixel scaled to `[0, 1]`: the byte divided by 255.
pub open spec fn is_pixel<E: Elem>(v: u8, r: E) -> bool {
    exists|x: E, full: E| #[trigger]
        call_ensures(E::divide, (x, full), r) && call_ensures(E::from_byte, (v,), x)
            && call_ensures(E::from_byte, (255u8,), full)
}

/// `t` holds the images of an IDX3 file.
pub open spec fn idx3_result<E: Elem>(b: Seq<u8>, t: Tensor<E>) -> bool {
    &&& t.dims() == seq![
        be_value(b, 4) as usize,
        1usize,
        be_value(b, 8) as usize,
        be_value(b, 12) as usize,
    ]
    &&& t.count() == be_value(b, 4) * be_value(b, 8) * be_value(b, 12)
    &&& t.contiguous_layout()
    &&& forall|p: int| 0 <= p < t.count() ==> is_pixel(b[16 + p], #[trigger] t.data()[p])
}

/// Parses IDX3 images into an `(n, 1, rows, cols)` tensor in `[0, 1]`.
pub fn parse_idx3<E: Elem>(b: &[u8]) -> (r: OxitorchResult<Tensor<E>>)
    ensures
        match r {
            Ok(t) => idx3_error(b@) is None && idx3_result(b@, t),
            Err(e) => idx3_error(b@) == Some(e@),
        },
{
    let magic: u32 = match be_u32(b, 0) {
        Ok(v) => v,
        Err(e) => {
            return Err(e);
        },
    };
    if magic != 0x0803 {
        return Err(OxitorchError::Other(join2("bad IDX3 magic: ", hex_string(magic).as_str())));
    }
    let n: u32 = match be_u32(b, 4) {
        Ok(v) => v,
        Err(e) => {
            return Err(e);
        },
    };
    let rows: u32 = match be_u32(b, 8) {
        Ok(v) => v,
        Err(e) => {
            return Err(e);
        },
    };
    let cols: u32 = match be_u32(b, 12) {
        Ok(v) => v,
        Err(e) => {
            return Err(e);
        },
    };
    let need: Option<usize> = match (n as usize).checked_mul(rows as usize) {
        Some(v) => match v.checked_mul(cols as usize) {
            Some(count) => count.checked_add(16),
            None => None,
        },
        None => None,
    };
    let need: usize = match need {
        Some(v) => v,
        None => {
            return Err(OxitorchError::Other("IDX3 size overflow".to_string()));
        },
    };
    if b.len() < need {
        return Err(
            OxitorchError::OutOfBounds(
                join4(
                    "IDX3 truncated: have ",
                    usize_string(b.len()).as_str(),
                    " bytes, need ",
                    usize_string(need).as_str(),
                ),
            ),
        );
    }
    let mut data: Vec<E> = Vec::with_capacity(need - 16);
    let mut p: usize = 16;
    while p < need
        invariant
            16 <= p <= need <= b.len(),
            data.len() == p - 16,
            forall|q: int| 0 <= q < p - 16 ==> is_pixel(b@[16 + q], #[trigger] data@[q]),
        decreases need - p,
    {
        let x = E::from_byte(b[p]);
        let full = E::from_byte(255);
        let v = E::divide(x, full);
        assert(is_pixel(b@[16 + (p - 16)], v));
        data.push(v);
        p = p + 1;
    }
    let dims: Vec<usize> = vec![n as usize, 1, rows as usize, cols as usize];
    proof {
        assert(dims@ =~= seq![n as usize, 1usize, rows as usize, cols as usize]);
        let rest = dims@.skip(1);
        lemma_rank3(rest, 0, 0, 0);
        assert(product(dims@) == n * (1 * (rows * cols)));
        assert(n * (1 * (rows * cols)) == n * rows * cols) by (nonlinear_arith);
    }
    Ok(Tensor::from_results(dims.as_slice(), data))
}

// ---- labels -----------------------------------------------------------------------------

/// Why bytes are no IDX1 file, if they are not.
pub open spec fn idx1_error(b: Seq<u8>) -> Option<ErrorText> {
    let n = be_value(b, 4);
    if b.len() < 4 {
        Some(truncated_error(0))
    } else if be_value(b, 0) != 0x0801 {
        Some(ErrorText::Other("bad IDX1 magic: "@ + hex_text(be_value(b, 0) as u32)))
    } else if b.len() < 8 {
        Some(truncated_error(4))
    } else if b.len() < 8 + n {
        Some(
            ErrorText::OutOfBounds(
                "IDX1 truncated: have "@ + nat_text(b.len()) + " bytes, need "@ + nat_text(
                    (8 + n) as nat,
                ),
            ),
        )
    } else {
        None
    }
}

/// `t` holds the labels of an IDX1 file.
pub open spec fn idx1_result<E: Elem>(b: Seq<u8>, t: Tensor<E>) -> bool {
    &&& t.dims() == seq![be_value(b, 4) as usize]
    &&& t.count() == be_value(b, 4)
    &&& t.contiguous_layout()
    &&& forall|p: int|
        0 <= p < t.count() ==> call_ensures(E::from_byte, (b[8 + p],), #[trigger] t.data()[p])
}

/// Parses IDX1 labels into an `(n,)` tensor.
pub fn parse_idx1<E: Elem>(b: &[u8]) -> (r: OxitorchResult<Tensor<E>>)
    ensures
        match r {
            Ok(t) => idx1_error(b@) is None && idx1_result(b@, t),
            Err(e) => idx1_error(b@) == Some(e@),
        },
{
    let magic: u32 = match be_u32(b, 0) {
        Ok(v) => v,
        Err(e) => {
            return Err(e);
        },
    };
    if magic != 0x0801 {
        return Err(OxitorchError::Other(join2("bad IDX1 magic: ", hex_string(magic).as_str())));
    }
    let n: u32 = match be_u32(b, 4) {
        Ok(v) => v,
        Err(e) => {
            return Err(e);
        },
    };
    let need: u64 = 8 + n as u64;
    if (b.len() as u64) < need {
        return Err(
            OxitorchError::OutOfBounds(
                join4(
                    "IDX1 truncated: have ",
                    usize_string(b.len()).as_str(),
                    " bytes, need ",
                    u64_string(need).as_str(),
                ),
            ),
        );
    }
    let end: usize = need as usize;
    let mut data: Vec<E> = Vec::with_capacity(end - 8);
    let mut p: usize = 8;
    while p < end
        invariant
            8 <= p <= end <= b.len(),
            data.len() == p - 8,
            forall|q: int|
                0 <= q < p - 8 ==> call_ensures(E::from_byte, (b@[8 + q],), #[trigger] data@[q]),
        decreases end - p,
    {
        let v = E::from_byte(b[p]);
        assert(b@[8 + (p - 8)] == b@[p as int]);
        data.push(v);
        p = p + 1;
    }
    let dims: Vec<usize> = vec![n as usize];
    proof {
        assert(dims@ =~= seq![n as usize]);
        lemma_rank1(dims@, 0);
    }
    Ok(Tensor::from_results(dims.as_slice(), data))
}

/// Why two files make no dataset, if they do not.
pub open spec fn mnist_error(images: Seq<u8>, labels: Seq<u8>) -> Option<ErrorText> {
    if idx3_error(images) is Some {
        idx3_error(images)
    } else if idx1_error(labels) is Some {
        idx1_error(labels)
    } else if be_value(images, 4) != be_value(labels, 4) {
        Some(
            ErrorText::Other(
                "MNIST images/labels length mismatch: "@ + nat_text(be_value(images, 4) as nat)
                    + " vs "@ + nat_text(be_value(labels, 4) as nat),
            ),
        )
    } else {
        None
    }
}

impl<E: Elem> MnistData<E> {
    /// Parses raw IDX3 + IDX1 bytes into tensors.
    ///
    /// Fails on bad magic, truncation, or length mismatches.
    pub fn from_idx(images_bytes: &[u8], labels_bytes: &[u8]) -> (r: OxitorchResult<Self>)
        ensures
            match r {
                Ok(d) => mnist_error(images_bytes@, labels_bytes@) is None && idx3_result(
                    images_bytes@,
                    d.images,
                ) && idx1_result(labels_bytes@, d.labels),
                Err(e) => mnist_error(images_bytes@, labels_bytes@) == Some(e@),
            },
    {
        let images: Tensor<E> = match parse_idx3(images_bytes) {
            Ok(t) => t,
            Err(e) => {
                return Err(e);
            },
        };
        let labels: Tensor<E> = match parse_idx1(labels_bytes) {
            Ok(t) => t,
            Err(e) => {
                return Err(e);
            },
        };
        let n_images: usize = images.shape()[0];
        let n_labels: usize = labels.shape()[0];
        proof {
            lemma_be_value(images_bytes@, 4);
            lemma_be_value(labels_bytes@, 4);
        }
        if n_images != n_labels {
            return Err(
                OxitorchError::Other(
                    join4(
                        "MNIST images/labels length mismatch: ",
                        usize_string(n_images).as_str(),
                        " vs ",
                        usize_string(n_labels).as_str(),
                    ),
                ),
            );
        }
        Ok(MnistData { images, labels })
    }
}

proof fn lemma_be_value(b: Seq<u8>, at: int)
    ensures
        0 <= be_value(b, at) <= u32::MAX,
{
}

// ---- files ------------------------------------------------------------------------------

/// The name of the images file of a split, uncompressed.
pub open spec fn images_name(train: bool) -> Seq<char> {
    if train {
        "train-images-idx3-ubyte"@
    } else {
        "t10k-images-idx3-ubyte"@
    }
}

/// The name of the labels file of a split, uncompressed.
pub open spec fn labels_name(train: bool) -> Seq<char> {
    if train {
        "train-labels-idx1-ubyte"@
    } else {
        "t10k-labels-idx1-ubyte"@
    }
}

/// The names of the images and labels files of a split; the compressed files
/// add `.gz`.
pub fn file_names(train: bool) -> (r: (&'static str, &'static str))
    ensures
        r.0@ == images_name(train),
        r.1@ == labels_name(train),
{
    if train {
        ("train-images-idx3-ubyte", "train-labels-idx1-ubyte")
    } else {
        ("t10k-images-idx3-ubyte", "t10k-labels-idx1-ubyte")
    }
}

/// Which of a file's two forms to read, from whether each exists: `true` for
/// the compressed one. The plain one goes first.
pub fn pick_compressed(plain: &str, plain_exists: bool, gz_exists: bool) -> (r: OxitorchResult<
    bool,
>)
    ensures
        match r {
            Ok(gz) => (plain_exists || gz_exists) && gz == !plain_exists,
            Err(e) => !plain_exists && !gz_exists && e@ == ErrorText::Other(
                "MNIST file not found: "@ + plain@ + " (or .gz)"@,
            ),
        },
{
    if plain_exists {
        Ok(false)
    } else if gz_exists {
        Ok(true)
    } else {
        Err(OxitorchError::Other(join3("MNIST file not found: ", plain, " (or .gz)")))
    }
}

/// What decompressing a gzip member gives: its bytes, or why it is damaged.
pub uninterp spec fn gunzipped(data: Seq<u8>) -> Result<Seq<u8>, Seq<char>>;

/// The bytes, or the text of the failure.
pub open spec fn gunzip_view(r: Result<Vec<u8>, String>) -> Result<Seq<u8>, Seq<char>> {
    match r {
        Ok(v) => Ok(v@),
        Err(m) => Err(m@),
    }
}

/// `flate2::read::GzDecoder`, read to the end: the decompressed bytes of the
/// first gzip member of `data`, or the text of the decoder's error. The
/// format is not spelled out here; the result is named [`gunzipped`] and
/// depends on the bytes alone.
#[verifier::external_body]
fn gunzip(data: &[u8]) -> (r: Result<Vec<u8>, String>)
    ensures
        gunzip_view(r) == gunzipped(data@),
{
    let mut out = Vec::new();
    let done = flate2::read::GzDecoder::new(data).read_to_end(&mut out);
    done.map(|_| out).map_err(|e| e.to_string())
}

/// The bytes start like a gzip file.
pub open spec fn looks_compressed(b: Seq<u8>) -> bool {
    b.len() >= 2 && b[0] == 0x1f && b[1] == 0x8b
}

/// The content of a file, given what decompressing it gave.
pub fn decoded(path: &str, unpacked: Result<Vec<u8>, String>) -> (r: OxitorchResult<Vec<u8>>)
    ensures
        match unpacked {
            Ok(v) => r == Ok::<Vec<u8>, OxitorchError>(v),
            Err(m) => r is Err && r->Err_0@ == ErrorText::Other(
                "gunzip "@ + path@ + ": "@ + m@,
            ),
        },
{
    match unpacked {
        Ok(v) => Ok(v),
        Err(m) => Err(OxitorchError::Other(join4("gunzip ", path, ": ", m.as_str()))),
    }
}

/// The content of a file read from `path`: decompressed when it starts with
/// the gzip magic, otherwise as it is.
pub fn decode_file(path: &str, buf: Vec<u8>) -> (r: OxitorchResult<Vec<u8>>)
    ensures
        if looks_compressed(buf@) {
            match gunzipped(buf@) {
                Ok(v) => r is Ok && r->Ok_0@ == v,
                Err(m) => r is Err && r->Err_0@ == ErrorText::Other(
                    "gunzip "@ + path@ + ": "@ + m,
                ),
            }
        } else {
            r is Ok && r->Ok_0@ == buf@
        },
{
    if buf.len() >= 2 && buf[0] == 0x1f && buf[1] == 0x8b {
        return decoded(path, gunzip(buf.as_slice()));
    }
    Ok(buf)
}

} // verus!
