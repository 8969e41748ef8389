//! Input classification and OCR request construction.
use vstd::prelude::*;
use crate::ImageMode;
use crate::text::{lit, lit_bytes, bytes_eq, ascii_lower, ext_of, ext_of_lower};
use crate::codec::{b64_encode, b64_encode_of};
use vstd::slice::slice_to_vec;

verus! {

/// What a file's extension says about how to submit it.
#[derive(Clone, Copy, PartialEq, Eq, Structural, Debug)]
pub enum FileKind {
    /// Submitted directly as a document.
    Pdf,
    /// Submitted directly as an image.
    RasterImage,
    /// Converted to a document first.
    Convertible,
    /// Rejected before any request is made.
    Unsupported,
}

/// The extension (lower case) of a raster image type the service accepts.
pub open spec fn is_image_ext(e: Seq<u8>) -> bool {
    ||| e == lit("jpg")
    ||| e == lit("jpeg")
    ||| e == lit("png")
    ||| e == lit("gif")
    ||| e == lit("bmp")
    ||| e == lit("tiff")
    ||| e == lit("tif")
    ||| e == lit("webp")
}

/// The extension (lower case) of an office document that is converted to a
/// document before submission.
pub open spec fn is_convertible_ext(e: Seq<u8>) -> bool {
    ||| e == lit("doc")
    ||| e == lit("docx")
    ||| e == lit("odt")
    ||| e == lit("rtf")
    ||| e == lit("txt")
    ||| e == lit("html")
    ||| e == lit("htm")
    ||| e == lit("pptx")
    ||| e == lit("ppt")
    ||| e == lit("odp")
    ||| e == lit("xlsx")
    ||| e == lit("xls")
    ||| e == lit("ods")
    ||| e == lit("csv")
    ||| e == lit("epub")
}

/// How a file with the given lower-case extension is handled.
pub open spec fn classify_spec(e: Seq<u8>) -> FileKind {
    if e == lit("pdf") {
        FileKind::Pdf
    } else if is_image_ext(e) {
        FileKind::RasterImage
    } else if is_convertible_ext(e) {
        FileKind::Convertible
    } else {
        FileKind::Unsupported
    }
}

/// Compares `a` against an ASCII literal.
fn is_lit(a: &[u8], s: &str) -> (r: bool)
    requires
        s.is_ascii(),
    ensures
        r == (a@ == lit(s)),
{
    let v = lit_bytes(s);
    bytes_eq(a, v.as_slice())
}

/// Whether `ext` (already lower case) is an accepted raster image extension.
pub fn is_image_extension(ext: &[u8]) -> (r: bool)
    ensures
        r == is_image_ext(ext@),
{
    proof {
        reveal_strlit("jpg");
        reveal_strlit("jpeg");
        reveal_strlit("png");
        reveal_strlit("gif");
        reveal_strlit("bmp");
        reveal_strlit("tiff");
        reveal_strlit("tif");
        reveal_strlit("webp");
    }
    is_lit(ext, "jpg") || is_lit(ext, "jpeg") || is_lit(ext, "png") || is_lit(ext, "gif") || is_lit(
        ext,
        "bmp",
    ) || is_lit(ext, "tiff") || is_lit(ext, "tif") || is_lit(ext, "webp")
}

/// Whether `ext` (already lower case) is a convertible office-document
/// extension.
pub fn is_convertible_extension(ext: &[u8]) -> (r: bool)
    ensures
        r == is_convertible_ext(ext@),
{
    proof {
        reveal_strlit("doc");
        reveal_strlit("docx");
        reveal_strlit("odt");
        reveal_strlit("rtf");
        reveal_strlit("txt");
        reveal_strlit("html");
        reveal_strlit("htm");
        reveal_strlit("pptx");
        reveal_strlit("ppt");
        reveal_strlit("odp");
        reveal_strlit("xlsx");
        reveal_strlit("xls");
        reveal_strlit("ods");
        reveal_strlit("csv");
        reveal_strlit("epub");
    }
    is_lit(ext, "doc") || is_lit(ext, "docx") || is_lit(ext, "odt") || is_lit(ext, "rtf") || is_lit(
        ext,
        "txt",
    ) || is_lit(ext, "html") || is_lit(ext, "htm") || is_lit(ext, "pptx") || is_lit(ext, "ppt")
        || is_lit(ext, "odp") || is_lit(ext, "xlsx") || is_lit(ext, "xls") || is_lit(ext, "ods")
        || is_lit(ext, "csv") || is_lit(ext, "epub")
}

/// Classifies a file by its lower-case extension.
pub fn classify_extension(ext: &[u8]) -> (k: FileKind)
    ensures
        k == classify_spec(ext@),
{
    proof {
        reveal_strlit("pdf");
    }
    if is_lit(ext, "pdf") {
        FileKind::Pdf
    } else if is_image_extension(ext) {
        FileKind::RasterImage
    } else if is_convertible_extension(ext) {
        FileKind::Convertible
    } else {
        FileKind::Unsupported
    }
}

/// The MIME type for a lower-case image extension; a generic octet-stream
/// type for anything unrecognized.
pub open spec fn mime_for_ext_spec(e: Seq<u8>) -> Seq<u8> {
    if e == lit("jpg") || e == lit("jpeg") {
        lit("image/jpeg")
    } else if e == lit("png") {
        lit("image/png")
    } else if e == lit("gif") {
        lit("image/gif")
    } else if e == lit("bmp") {
        lit("image/bmp")
    } else if e == lit("tiff") || e == lit("tif") {
        lit("image/tiff")
    } else if e == lit("webp") {
        lit("image/webp")
    } else {
        lit("application/octet-stream")
    }
}

/// The MIME type for a lower-case image extension.
pub fn mime_for_ext(ext: &[u8]) -> (r: Vec<u8>)
    ensures
        r@ == mime_for_ext_spec(ext@),
{
    proof {
        reveal_strlit("jpg");
        reveal_strlit("jpeg");
        reveal_strlit("png");
        reveal_strlit("gif");
        reveal_strlit("bmp");
        reveal_strlit("tiff");
        reveal_strlit("tif");
        reveal_strlit("webp");
        reveal_strlit("image/jpeg");
        reveal_strlit("image/png");
        reveal_strlit("image/gif");
        reveal_strlit("image/bmp");
        reveal_strlit("image/tiff");
        reveal_strlit("image/webp");
        reveal_strlit("application/octet-stream");
    }
    if is_lit(ext, "jpg") || is_lit(ext, "jpeg") {
        lit_bytes("image/jpeg")
    } else if is_lit(ext, "png") {
        lit_bytes("image/png")
    } else if is_lit(ext, "gif") {
        lit_bytes("image/gif")
    } else if is_lit(ext, "bmp") {
        lit_bytes("image/bmp")
    } else if is_lit(ext, "tiff") || is_lit(ext, "tif") {
        lit_bytes("image/tiff")
    } else if is_lit(ext, "webp") {
        lit_bytes("image/webp")
    } else {
        lit_bytes("application/octet-stream")
    }
}

/// A data URI carrying `payload` (base64 text) under `mime`.
pub open spec fn data_uri(mime: Seq<u8>, payload: Seq<u8>) -> Seq<u8> {
    lit("data:") + mime + lit(";base64,") + payload
}

/// Builds a data URI from a MIME type and base64 text.
pub fn data_uri_bytes(mime: &[u8], payload: &[u8]) -> (r: Vec<u8>)
    ensures
        r@ == data_uri(mime@, payload@),
{
    proof {
        reveal_strlit("data:");
        reveal_strlit(";base64,");
    }
    let mut out = lit_bytes("data:");
    crate::text::push_bytes(&mut out, mime);
    let sep = lit_bytes(";base64,");
    crate::text::push_bytes(&mut out, sep.as_slice());
    crate::text::push_bytes(&mut out, payload);
    proof {
        assert(out@ =~= data_uri(mime@, payload@));
    }
    out
}

/// The payload of an OCR request: either a document or a bare image, each
/// carried as a data URI.
#[derive(Clone, PartialEq, Eq, Debug)]
pub enum Document {
    /// A document, with the original input's file name.
    DocumentUrl { document_url: Vec<u8>, document_name: Vec<u8> },
    /// A raster image.
    ImageUrl { image_url: Vec<u8> },
}

/// One OCR request: the model to run, the document payload, and whether
/// the response should carry image payloads (omitted entirely, rather than
/// set to false, when images are discarded).
#[derive(Clone, PartialEq, Eq, Debug)]
pub struct OcrRequest {
    pub model: Vec<u8>,
    pub document: Document,
    pub include_image_base64: Option<bool>,
}

/// The input file's extension is neither a document, an image, nor a
/// convertible office format.
#[derive(Clone, PartialEq, Eq, Debug)]
pub struct UnsupportedFileType {
    pub ext: Vec<u8>,
}

/// The lower-case extension of a file name; empty when it has none.
pub open spec fn effective_ext_spec(name: Seq<u8>) -> Seq<u8> {
    match ext_of(name) {
        Option::Some(e) => ascii_lower(e),
        Option::None => Seq::<u8>::empty(),
    }
}

/// Builds the OCR request for a file.
///
/// `effective_name` names the file whose bytes are submitted (the original
/// input, or the document it was converted to); `original_name` is the
/// input's own file name, which a document request carries.  The file's
/// bytes are base64-encoded into a data URI.  A file that is neither a
/// document nor an accepted image is rejected, named by its extension,
/// before any request exists.
pub fn build_ocr_request(
    original_name: &[u8],
    effective_name: &[u8],
    file_bytes: &[u8],
    mode: ImageMode,
    model: &[u8],
) -> (r: Result<OcrRequest, UnsupportedFileType>)
    ensures
        ({
            let e = effective_ext_spec(effective_name@);
            &&& (r is Ok <==> (e == lit("pdf") || is_image_ext(e)))
            &&& (r matches Ok(req) ==> {
                &&& req.model@ == model@
                &&& req.include_image_base64 == (if mode == ImageMode::Discard {
                    Option::<bool>::None
                } else {
                    Option::Some(true)
                })
                &&& (e == lit("pdf") ==> ({
                    &&& req.document matches Document::DocumentUrl { document_url, document_name }
                    &&& document_url@ == data_uri(
                        lit("application/pdf"),
                        b64_encode_of(file_bytes@),
                    )
                    &&& document_name@ == original_name@
                }))
                &&& (e != lit("pdf") ==> ({
                    &&& req.document matches Document::ImageUrl { image_url }
                    &&& image_url@ == data_uri(mime_for_ext_spec(e), b64_encode_of(file_bytes@))
                }))
            })
            &&& (r matches Err(err) ==> err.ext@ == effective_ext_spec(original_name@))
        }),
{
    proof {
        reveal_strlit("pdf");
        reveal_strlit("application/pdf");
    }
    let eff_ext: Vec<u8> = match ext_of_lower(effective_name) {
        Some(e) => e,
        None => Vec::new(),
    };
    proof {
        assert(eff_ext@ =~= effective_ext_spec(effective_name@));
    }
    if is_lit(eff_ext.as_slice(), "pdf") {
        let b64 = b64_encode(file_bytes);
        let mime = lit_bytes("application/pdf");
        let url = data_uri_bytes(mime.as_slice(), b64.as_slice());
        let name = slice_to_vec(original_name);
        Ok(
            OcrRequest {
                model: slice_to_vec(model),
                document: Document::DocumentUrl { document_url: url, document_name: name },
                include_image_base64: include_flag(mode),
            },
        )
    } else if is_image_extension(eff_ext.as_slice()) {
        let b64 = b64_encode(file_bytes);
        let mime = mime_for_ext(eff_ext.as_slice());
        let url = data_uri_bytes(mime.as_slice(), b64.as_slice());
        Ok(
            OcrRequest {
                model: slice_to_vec(model),
                document: Document::ImageUrl { image_url: url },
                include_image_base64: include_flag(mode),
            },
        )
    } else {
        let orig_ext: Vec<u8> = match ext_of_lower(original_name) {
            Some(e) => e,
            None => Vec::new(),
        };
        proof {
            assert(orig_ext@ =~= effective_ext_spec(original_name@));
        }
        Err(UnsupportedFileType { ext: orig_ext })
    }
}

/// The include-image flag a request carries: absent when images are
/// discarded, true otherwise.
fn include_flag(mode: ImageMode) -> (r: Option<bool>)
    ensures
        r == (if mode == ImageMode::Discard {
            Option::<bool>::None
        } else {
            Option::Some(true)
        }),
{
    match mode {
        ImageMode::Discard => None,
        _ => Some(true),
    }
}

/// Whether an HTTP status code reports success: any code in the 2xx range.
pub fn is_success_status(status: u16) -> (r: bool)
    ensures
        r == (200 <= status && status < 300),
{
    200 <= status && status < 300
}

} // verus!
