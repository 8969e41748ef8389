//! Tests for input classification, request construction and text helpers.
use mistral_ocr::ImageMode;
use mistral_ocr::codec::{b64_encode, decode_image_base64};
use mistral_ocr::request::{
    build_ocr_request, classify_extension, is_success_status, mime_for_ext, Document, FileKind,
};
use mistral_ocr::text::{replace_all_bytes, trim_end_bytes, u64_dec};

#[test]
fn unsupported_extension_fails_before_any_request_exists() {
    // No request value is ever produced for such an input, so no HTTP
    // call can be attempted with it.
    let err = build_ocr_request(b"notes.xyz", b"notes.xyz", b"hello", ImageMode::Separate, b"m")
        .unwrap_err();
    assert_eq!(err.ext, b"xyz".to_vec());
    let err = build_ocr_request(b"noext", b"noext", b"hello", ImageMode::Discard, b"m")
        .unwrap_err();
    assert_eq!(err.ext, b"".to_vec());
}

#[test]
fn pdf_request_carries_data_uri_and_original_name() {
    let req = build_ocr_request(b"Paper.PDF", b"Paper.PDF", b"hello", ImageMode::Separate, b"model-x")
        .unwrap();
    assert_eq!(req.model, b"model-x".to_vec());
    assert_eq!(req.include_image_base64, Some(true));
    match req.document {
        Document::DocumentUrl {
            document_url,
            document_name,
        } => {
            assert_eq!(document_url, b"data:application/pdf;base64,aGVsbG8=".to_vec());
            assert_eq!(document_name, b"Paper.PDF".to_vec());
        }
        other => panic!("expected DocumentUrl, got {other:?}"),
    }
}

#[test]
fn image_request_carries_mime_derived_data_uri() {
    let req = build_ocr_request(b"pic.PNG", b"pic.PNG", b"hello", ImageMode::Inline, b"m").unwrap();
    match req.document {
        Document::ImageUrl { image_url } => {
            assert_eq!(image_url, b"data:image/png;base64,aGVsbG8=".to_vec());
        }
        other => panic!("expected ImageUrl, got {other:?}"),
    }
}

#[test]
fn discard_mode_omits_the_include_flag_entirely() {
    let req = build_ocr_request(b"a.pdf", b"a.pdf", b"x", ImageMode::Discard, b"m").unwrap();
    assert_eq!(req.include_image_base64, None);
    for mode in [ImageMode::Separate, ImageMode::Inline, ImageMode::Archive] {
        let req = build_ocr_request(b"a.pdf", b"a.pdf", b"x", mode, b"m").unwrap();
        assert_eq!(req.include_image_base64, Some(true));
    }
}

#[test]
fn extensions_classify_as_documented() {
    assert_eq!(classify_extension(b"pdf"), FileKind::Pdf);
    for e in ["jpg", "jpeg", "png", "gif", "bmp", "tiff", "tif", "webp"] {
        assert_eq!(classify_extension(e.as_bytes()), FileKind::RasterImage);
    }
    for e in [
        "doc", "docx", "odt", "rtf", "txt", "html", "htm", "pptx", "ppt", "odp", "xlsx", "xls",
        "ods", "csv", "epub",
    ] {
        assert_eq!(classify_extension(e.as_bytes()), FileKind::Convertible);
    }
    assert_eq!(classify_extension(b"xyz"), FileKind::Unsupported);
    assert_eq!(classify_extension(b""), FileKind::Unsupported);
}

#[test]
fn mime_lookup_matches_the_table() {
    assert_eq!(mime_for_ext(b"jpg"), b"image/jpeg".to_vec());
    assert_eq!(mime_for_ext(b"jpeg"), b"image/jpeg".to_vec());
    assert_eq!(mime_for_ext(b"png"), b"image/png".to_vec());
    assert_eq!(mime_for_ext(b"gif"), b"image/gif".to_vec());
    assert_eq!(mime_for_ext(b"bmp"), b"image/bmp".to_vec());
    assert_eq!(mime_for_ext(b"tiff"), b"image/tiff".to_vec());
    assert_eq!(mime_for_ext(b"tif"), b"image/tiff".to_vec());
    assert_eq!(mime_for_ext(b"webp"), b"image/webp".to_vec());
    assert_eq!(mime_for_ext(b"xyz"), b"application/octet-stream".to_vec());
}

#[test]
fn success_statuses_are_exactly_the_2xx_range() {
    assert!(!is_success_status(199));
    assert!(is_success_status(200));
    assert!(is_success_status(204));
    assert!(is_success_status(299));
    assert!(!is_success_status(300));
    assert!(!is_success_status(404));
    assert!(!is_success_status(500));
}

#[test]
fn payload_decoding_strips_a_data_header_first() {
    assert_eq!(decode_image_base64(b"aGVsbG8="), Some(b"hello".to_vec()));
    assert_eq!(
        decode_image_base64(b"data:image/png;base64,aGVsbG8="),
        Some(b"hello".to_vec())
    );
    assert_eq!(decode_image_base64(b"!!!not-base64!!!"), None);
    assert_eq!(decode_image_base64(b"data:image/png;base64,@@@"), None);
}

#[test]
fn payload_decoding_inverts_standard_encoding() {
    let raw: Vec<u8> = (0u16..=255).map(|b| b as u8).collect();
    let encoded = b64_encode(&raw);
    assert_eq!(decode_image_base64(&encoded), Some(raw));
    assert_eq!(decode_image_base64(&b64_encode(b"")), Some(b"".to_vec()));
}

#[test]
fn replace_all_rewrites_every_occurrence() {
    let out = replace_all_bytes(b"a](x) b ](x) c", b"](x)", b"](y/x)");
    assert_eq!(out, b"a](y/x) b ](y/x) c".to_vec());
    let unchanged = replace_all_bytes(b"nothing here", b"](x)", b"](y)");
    assert_eq!(unchanged, b"nothing here".to_vec());
}

#[test]
fn trailing_whitespace_is_trimmed() {
    assert_eq!(trim_end_bytes(b"text \t\r\n"), b"text".to_vec());
    assert_eq!(trim_end_bytes(b"  lead kept"), b"  lead kept".to_vec());
    assert_eq!(trim_end_bytes(b" \n "), b"".to_vec());
}

#[test]
fn trailing_unicode_whitespace_is_trimmed_like_str_trim_end() {
    for tail in ["\u{85}", "\u{a0}", "\u{1680}", "\u{2003}", "\u{2028}", "\u{202f}", "\u{3000}"] {
        let text = format!("kept{tail} {tail}");
        assert_eq!(trim_end_bytes(text.as_bytes()), text.trim_end().as_bytes().to_vec());
        assert_eq!(trim_end_bytes(text.as_bytes()), b"kept".to_vec());
    }
    let kept = "caf\u{e9}";
    assert_eq!(trim_end_bytes(kept.as_bytes()), kept.as_bytes().to_vec());
}

#[test]
fn decimal_formatting_is_exact() {
    assert_eq!(u64_dec(1), b"1".to_vec());
    assert_eq!(u64_dec(10), b"10".to_vec());
    assert_eq!(u64_dec(42), b"42".to_vec());
    assert_eq!(u64_dec(4294967296), b"4294967296".to_vec());
}
