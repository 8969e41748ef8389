//! Tests for the response renderer and output planner.
use mistral_ocr::ImageMode;
use mistral_ocr::render::{
    plan_output, render_response, OcrImage, OcrPage, OcrResponse, OutputError, OutputPlan,
};
use base64::Engine;
use std::io::Read;

fn contains(haystack: &[u8], needle: &[u8]) -> bool {
    if needle.is_empty() {
        return true;
    }
    haystack.windows(needle.len()).any(|w| w == needle)
}

fn img(id: &str, payload: &str) -> OcrImage {
    OcrImage {
        id: Some(id.as_bytes().to_vec()),
        image_base64: Some(payload.as_bytes().to_vec()),
    }
}

fn page(index: u32, markdown: &str, images: Vec<OcrImage>) -> OcrPage {
    OcrPage {
        index,
        markdown: markdown.as_bytes().to_vec(),
        images,
    }
}

// "hello" and "world" in standard base64.
const B64_HELLO: &str = "aGVsbG8=";
const B64_WORLD: &str = "d29ybGQ=";

fn two_page_response() -> OcrResponse {
    OcrResponse {
        pages: vec![
            page(0, "first ![a](img-0.jpeg) end", vec![img("img-0.jpeg", B64_HELLO)]),
            page(1, "second ![b](img-1.jpeg) end\n", vec![img("img-1.jpeg", B64_WORLD)]),
        ],
    }
}

#[test]
fn rewriting_modes_remove_the_anchor() {
    for mode in [ImageMode::Separate, ImageMode::Inline, ImageMode::Archive] {
        let out = render_response(&two_page_response(), mode, b"out").unwrap();
        assert!(!contains(&out.markdown, b"](img-0.jpeg)"));
        assert!(!contains(&out.markdown, b"](img-1.jpeg)"));
    }
}

#[test]
fn discard_leaves_anchors_alone() {
    let out = render_response(&two_page_response(), ImageMode::Discard, b"out").unwrap();
    assert!(contains(&out.markdown, b"](img-0.jpeg)"));
    assert!(contains(&out.markdown, b"](img-1.jpeg)"));
    assert!(out.staged.is_empty());
}

#[test]
fn single_page_has_no_heading() {
    let resp = OcrResponse {
        pages: vec![page(0, "only page \n ", vec![])],
    };
    let out = render_response(&resp, ImageMode::Discard, b"out").unwrap();
    assert_eq!(out.markdown, b"only page\n\n".to_vec());
    assert!(!contains(&out.markdown, b"# Page"));
}

#[test]
fn multi_page_headings_increase_in_page_order() {
    let resp = OcrResponse {
        pages: vec![
            page(0, "alpha", vec![]),
            page(1, "beta", vec![]),
            page(2, "gamma", vec![]),
        ],
    };
    let out = render_response(&resp, ImageMode::Discard, b"out").unwrap();
    assert_eq!(
        out.markdown,
        b"# Page 1\n\nalpha\n\n# Page 2\n\nbeta\n\n# Page 3\n\ngamma\n\n".to_vec()
    );
}

#[test]
fn separate_mode_plans_directory_and_rewrites() {
    let resp = two_page_response();
    let plan = plan_output(&resp, ImageMode::Separate, b"out").unwrap();
    match plan {
        OutputPlan::MarkdownWithImages {
            text,
            dir_name,
            images,
        } => {
            assert_eq!(dir_name, b"out_images".to_vec());
            assert!(contains(&text, b"](out_images/img-0.jpeg)"));
            assert!(contains(&text, b"](out_images/img-1.jpeg)"));
            assert_eq!(images.len(), 2);
            assert_eq!(images[0].name, b"img-0.jpeg".to_vec());
            assert_eq!(images[0].bytes, b"hello".to_vec());
            assert_eq!(images[1].name, b"img-1.jpeg".to_vec());
            assert_eq!(images[1].bytes, b"world".to_vec());
        }
        other => panic!("expected MarkdownWithImages, got {other:?}"),
    }
}

#[test]
fn archive_zip_holds_one_md_entry_and_the_decoded_images() {
    let resp = two_page_response();
    let plan = plan_output(&resp, ImageMode::Archive, b"out").unwrap();
    let bytes = match plan {
        OutputPlan::ZipArchive { bytes } => bytes,
        other => panic!("expected ZipArchive, got {other:?}"),
    };
    let mut zip = zip::ZipArchive::new(std::io::Cursor::new(bytes)).unwrap();
    let names: Vec<String> = (0..zip.len()).map(|i| {
        zip.by_index(i).unwrap().name().to_string()
    }).collect();
    let md_entries: Vec<&String> = names.iter().filter(|n| n.ends_with(".md")).collect();
    assert_eq!(md_entries, vec![&"out.md".to_string()]);
    assert_eq!(names, vec!["out.md", "images/img-0.jpeg", "images/img-1.jpeg"]);

    let mut md = Vec::new();
    zip.by_name("out.md").unwrap().read_to_end(&mut md).unwrap();
    assert!(contains(&md, b"](images/img-0.jpeg)"));
    assert!(contains(&md, b"](images/img-1.jpeg)"));

    let mut first = Vec::new();
    zip.by_name("images/img-0.jpeg").unwrap().read_to_end(&mut first).unwrap();
    assert_eq!(first, b"hello".to_vec());
    let mut second = Vec::new();
    zip.by_name("images/img-1.jpeg").unwrap().read_to_end(&mut second).unwrap();
    assert_eq!(second, b"world".to_vec());
}

#[test]
fn archive_round_trips_arbitrary_bytes() {
    let raw: Vec<u8> = (0u16..=255).map(|b| b as u8).collect();
    let encoded = base64::engine::general_purpose::STANDARD.encode(&raw);
    let resp = OcrResponse {
        pages: vec![page(0, "x ![i](blob.bin) y", vec![img("blob.bin", &encoded)])],
    };
    let plan = plan_output(&resp, ImageMode::Archive, b"stem").unwrap();
    let bytes = match plan {
        OutputPlan::ZipArchive { bytes } => bytes,
        other => panic!("expected ZipArchive, got {other:?}"),
    };
    let mut zip = zip::ZipArchive::new(std::io::Cursor::new(bytes)).unwrap();
    let mut back = Vec::new();
    zip.by_name("images/blob.bin").unwrap().read_to_end(&mut back).unwrap();
    assert_eq!(back, raw);
}

#[test]
fn inline_reuses_a_data_uri_verbatim() {
    let payload = "data:image/png;base64,AAAA";
    let resp = OcrResponse {
        pages: vec![page(0, "see ![p](pic.png).", vec![img("pic.png", payload)])],
    };
    let out = render_response(&resp, ImageMode::Inline, b"out").unwrap();
    assert_eq!(out.markdown, b"see ![p](data:image/png;base64,AAAA).\n\n".to_vec());
}

#[test]
fn inline_wraps_a_bare_payload_under_the_ids_mime() {
    let resp = OcrResponse {
        pages: vec![page(0, "see ![p](a.png).", vec![img("a.png", "AAAA")])],
    };
    let out = render_response(&resp, ImageMode::Inline, b"out").unwrap();
    assert_eq!(out.markdown, b"see ![p](data:image/png;base64,AAAA).\n\n".to_vec());
}

#[test]
fn inline_defaults_to_jpeg_when_the_id_has_no_extension() {
    let resp = OcrResponse {
        pages: vec![page(0, "![p](raw)", vec![img("raw", "AAAA")])],
    };
    let out = render_response(&resp, ImageMode::Inline, b"out").unwrap();
    assert_eq!(out.markdown, b"![p](data:image/jpeg;base64,AAAA)\n\n".to_vec());
}

#[test]
fn discard_plans_a_flat_markdown() {
    let resp = two_page_response();
    let plan = plan_output(&resp, ImageMode::Discard, b"out").unwrap();
    match plan {
        OutputPlan::Markdown { text } => {
            assert!(contains(&text, b"](img-0.jpeg)"));
            assert!(contains(&text, b"](img-1.jpeg)"));
        }
        other => panic!("expected Markdown, got {other:?}"),
    }
}

#[test]
fn missing_id_or_payload_is_skipped_without_error() {
    let broken_payload = OcrImage {
        id: None,
        image_base64: Some(b"!!!not-base64!!!".to_vec()),
    };
    let missing_payload = OcrImage {
        id: Some(b"img-9.png".to_vec()),
        image_base64: None,
    };
    let resp = OcrResponse {
        pages: vec![page(0, "a ![x](img-9.png) b", vec![broken_payload, missing_payload])],
    };
    let out = render_response(&resp, ImageMode::Separate, b"out").unwrap();
    assert_eq!(out.markdown, b"a ![x](img-9.png) b\n\n".to_vec());
    assert!(out.staged.is_empty());
}

#[test]
fn undecodable_payload_fails_naming_the_image() {
    let resp = OcrResponse {
        pages: vec![page(0, "![x](bad.png)", vec![img("bad.png", "!!!not-base64!!!")])],
    };
    for mode in [ImageMode::Separate, ImageMode::Archive] {
        let err = render_response(&resp, mode, b"out").unwrap_err();
        assert_eq!(err.id, b"bad.png".to_vec());
        match plan_output(&resp, mode, b"out").unwrap_err() {
            OutputError::UndecodableImage { id } => assert_eq!(id, b"bad.png".to_vec()),
            other => panic!("expected UndecodableImage, got {other:?}"),
        }
    }
    // Inlining never decodes, so the same response renders.
    assert!(render_response(&resp, ImageMode::Inline, b"out").is_ok());
}

#[test]
fn an_empty_response_renders_an_empty_document() {
    let resp = OcrResponse { pages: vec![] };
    let out = render_response(&resp, ImageMode::Separate, b"out").unwrap();
    assert!(out.markdown.is_empty());
    assert!(out.staged.is_empty());
}

#[test]
fn archive_without_images_holds_only_the_markdown_entry() {
    let resp = OcrResponse {
        pages: vec![page(0, "plain text", vec![])],
    };
    let plan = plan_output(&resp, ImageMode::Archive, b"solo").unwrap();
    let bytes = match plan {
        OutputPlan::ZipArchive { bytes } => bytes,
        other => panic!("expected ZipArchive, got {other:?}"),
    };
    let mut zip = zip::ZipArchive::new(std::io::Cursor::new(bytes)).unwrap();
    assert_eq!(zip.len(), 1);
    assert_eq!(zip.by_index(0).unwrap().name(), "solo.md");
}

#[test]
fn every_occurrence_of_an_anchor_is_rewritten() {
    let md = "one ![a](pic.png) two ![b](pic.png)";
    let resp = OcrResponse {
        pages: vec![page(0, md, vec![img("pic.png", "AAAA")])],
    };
    let out = render_response(&resp, ImageMode::Archive, b"out").unwrap();
    assert!(!contains(&out.markdown, b"](pic.png)"));
    assert_eq!(
        out.markdown,
        b"one ![a](images/pic.png) two ![b](images/pic.png)\n\n".to_vec()
    );
    assert_eq!(out.staged.len(), 1);
}

#[test]
fn duplicate_archive_entry_names_fail_the_archive() {
    let resp = OcrResponse {
        pages: vec![page(
            0,
            "![a](dup.png) ![b](dup.png)",
            vec![img("dup.png", "AAAA"), img("dup.png", "BBBB")],
        )],
    };
    match plan_output(&resp, ImageMode::Archive, b"out").unwrap_err() {
        OutputError::ArchiveFailure => {}
        other => panic!("expected ArchiveFailure, got {other:?}"),
    }
}

#[test]
fn pages_keep_response_order_not_index_order() {
    let resp = OcrResponse {
        pages: vec![page(1, "later", vec![]), page(0, "earlier", vec![])],
    };
    let out = render_response(&resp, ImageMode::Discard, b"out").unwrap();
    assert_eq!(out.markdown, b"# Page 2\n\nlater\n\n# Page 1\n\nearlier\n\n".to_vec());
}
