//! The response renderer: rewriting image anchors and assembling output.
//!
//! A response is an ordered sequence of pages, each carrying markdown and
//! embedded images.  Rendering trims each page, rewrites the markdown
//! anchor `](id)` of every present image according to the selected image
//! mode, prefixes page headings when the response has more than one page,
//! and plans the output artifact: a flat markdown text, a text plus a
//! directory of decoded images, or a zip archive.
use vstd::prelude::*;
use vstd::slice::slice_to_vec;
use crate::ImageMode;
use crate::text::{
    lit,
    lit_bytes,
    push_bytes,
    replace_all,
    replace_all_bytes,
    trim_end_spec,
    trim_end_bytes,
    ascii_lower,
    ext_of,
    dec_spec,
    u64_dec,
};
use crate::codec::{
    image_bytes_of,
    decode_image_base64,
    zip_entries_of,
    zip_write_ok,
    archive_writable,
    zip_archive_bytes,
};
use crate::request::{mime_for_ext_spec, mime_for_ext, data_uri, data_uri_bytes};

verus! {

/// One embedded image of a page: its id (also the literal anchor text in
/// the page's markdown) and its base64 payload.  Either may be absent, in
/// which case the image is skipped.
#[derive(Clone, PartialEq, Eq, Debug)]
pub struct OcrImage {
    pub id: Option<Vec<u8>>,
    pub image_base64: Option<Vec<u8>>,
}

/// The mathematical value of an image.
pub struct ImageV {
    pub id: Option<Seq<u8>>,
    pub payload: Option<Seq<u8>>,
}

impl View for OcrImage {
    type V = ImageV;

    open spec fn view(&self) -> ImageV {
        ImageV {
            id: match self.id {
                Option::Some(v) => Option::Some(v@),
                Option::None => Option::None,
            },
            payload: match self.image_base64 {
                Option::Some(v) => Option::Some(v@),
                Option::None => Option::None,
            },
        }
    }
}

/// One page of a response: its zero-based index, its markdown text, and
/// its embedded images in response order.
#[derive(Clone, PartialEq, Eq, Debug)]
pub struct OcrPage {
    pub index: u32,
    pub markdown: Vec<u8>,
    pub images: Vec<OcrImage>,
}

/// The mathematical value of a page.
pub struct PageV {
    pub index: u32,
    pub markdown: Seq<u8>,
    pub images: Seq<ImageV>,
}

impl View for OcrPage {
    type V = PageV;

    open spec fn view(&self) -> PageV {
        PageV {
            index: self.index,
            markdown: self.markdown@,
            images: self.images@.map_values(|img: OcrImage| img@),
        }
    }
}

/// A whole response: its pages, in the order the service returned them.
#[derive(Clone, PartialEq, Eq, Debug)]
pub struct OcrResponse {
    pub pages: Vec<OcrPage>,
}

impl View for OcrResponse {
    type V = Seq<PageV>;

    open spec fn view(&self) -> Seq<PageV> {
        self.pages@.map_values(|p: OcrPage| p@)
    }
}

/// A decoded image planned for output: the file name it is written under
/// (the image's id) and its decoded bytes.
#[derive(Clone, PartialEq, Eq, Debug)]
pub struct StagedImage {
    pub name: Vec<u8>,
    pub bytes: Vec<u8>,
}

impl View for StagedImage {
    type V = (Seq<u8>, Seq<u8>);

    open spec fn view(&self) -> (Seq<u8>, Seq<u8>) {
        (self.name@, self.bytes@)
    }
}

/// The values of a sequence of staged images.
pub open spec fn staged_view(v: Seq<StagedImage>) -> Seq<(Seq<u8>, Seq<u8>)> {
    v.map_values(|s: StagedImage| s@)
}

/// The markdown anchor the service embeds for an image id: `](id)`.
pub open spec fn anchor_of(id: Seq<u8>) -> Seq<u8> {
    lit("](") + id + lit(")")
}

/// The name of the sibling directory that holds separately written images.
pub open spec fn images_dir_name_spec(stem: Seq<u8>) -> Seq<u8> {
    stem + lit("_images")
}

/// The name of the images directory for an output stem.
pub fn images_dir_name(stem: &[u8]) -> (r: Vec<u8>)
    ensures
        r@ == images_dir_name_spec(stem@),
{
    proof {
        reveal_strlit("_images");
    }
    let mut out = slice_to_vec(stem);
    let tail = lit_bytes("_images");
    push_bytes(&mut out, tail.as_slice());
    out
}

/// The MIME type an inlined image is given: derived from its id's
/// extension, with jpeg assumed when the id has none.
pub open spec fn inline_mime(id: Seq<u8>) -> Seq<u8> {
    mime_for_ext_spec(
        match ext_of(id) {
            Option::Some(e) => ascii_lower(e),
            Option::None => lit("jpeg"),
        },
    )
}

/// What an image's anchor is rewritten to point at: a path into the
/// images directory, a path inside the archive, or a data URI (the
/// payload itself when it already is one).
pub open spec fn rewrite_target(mode: ImageMode, stem: Seq<u8>, id: Seq<u8>, payload: Seq<u8>) -> Seq<u8> {
    match mode {
        ImageMode::Discard => id,
        ImageMode::Separate => images_dir_name_spec(stem) + lit("/") + id,
        ImageMode::Inline => if lit("data:").is_prefix_of(payload) {
            payload
        } else {
            data_uri(inline_mime(id), payload)
        },
        ImageMode::Archive => lit("images/") + id,
    }
}

/// A page's markdown after one image is handled: when the image has both
/// an id and a payload and images are not discarded, every occurrence of
/// its anchor is replaced; otherwise the text is untouched.
pub open spec fn rewrite_one(md: Seq<u8>, img: ImageV, mode: ImageMode, stem: Seq<u8>) -> Seq<u8> {
    if mode == ImageMode::Discard {
        md
    } else {
        match (img.id, img.payload) {
            (Option::Some(id), Option::Some(p)) => replace_all(
                md,
                anchor_of(id),
                anchor_of(rewrite_target(mode, stem, id, p)),
            ),
            _ => md,
        }
    }
}

/// A page's markdown after its images are handled in response order.
pub open spec fn rewrite_imgs(md: Seq<u8>, imgs: Seq<ImageV>, mode: ImageMode, stem: Seq<u8>) -> Seq<u8>
    decreases imgs.len(),
{
    if imgs.len() == 0 {
        md
    } else {
        rewrite_imgs(rewrite_one(md, imgs[0], mode, stem), imgs.skip(1), mode, stem)
    }
}

/// Whether a mode decodes image payloads to bytes.
pub open spec fn needs_decode(mode: ImageMode) -> bool {
    mode == ImageMode::Separate || mode == ImageMode::Archive
}

/// Whether an image carries both an id and a payload.
pub open spec fn img_present(img: ImageV) -> bool {
    img.id is Some && img.payload is Some
}

/// Whether an image renders without error: under a decoding mode, a
/// present image's payload must decode.
pub open spec fn img_ok(img: ImageV, mode: ImageMode) -> bool {
    needs_decode(mode) && img_present(img) ==> image_bytes_of(img.payload->Some_0) is Some
}

/// Whether every image of a sequence renders without error.
pub open spec fn imgs_ok(imgs: Seq<ImageV>, mode: ImageMode) -> bool {
    forall|i: int| 0 <= i < imgs.len() ==> img_ok(#[trigger] imgs[i], mode)
}

/// What one image stages for output: under a decoding mode, a present
/// image's id and decoded bytes.
pub open spec fn staged_one(img: ImageV, mode: ImageMode) -> Seq<(Seq<u8>, Seq<u8>)> {
    if needs_decode(mode) && img_present(img) {
        seq![(img.id->Some_0, image_bytes_of(img.payload->Some_0)->Some_0)]
    } else {
        Seq::<(Seq<u8>, Seq<u8>)>::empty()
    }
}

/// What a sequence of images stages, in order.
pub open spec fn staged_imgs(imgs: Seq<ImageV>, mode: ImageMode) -> Seq<(Seq<u8>, Seq<u8>)>
    decreases imgs.len(),
{
    if imgs.len() == 0 {
        Seq::<(Seq<u8>, Seq<u8>)>::empty()
    } else {
        staged_one(imgs[0], mode) + staged_imgs(imgs.skip(1), mode)
    }
}

/// A page's rendered body: its markdown trimmed of trailing whitespace,
/// with every present image's anchor rewritten.
pub open spec fn page_body(p: PageV, mode: ImageMode, stem: Seq<u8>) -> Seq<u8> {
    rewrite_imgs(trim_end_spec(p.markdown), p.images, mode, stem)
}

/// The heading a page receives in a multi-page document: its one-based
/// number.
pub open spec fn heading_of(index: u32) -> Seq<u8> {
    lit("# Page ") + dec_spec((index + 1) as nat) + lit("\n\n")
}

/// One page's segment of the output document: a heading when the response
/// has several pages, the rendered body, and a blank line.
pub open spec fn page_segment(p: PageV, mode: ImageMode, stem: Seq<u8>, multi: bool) -> Seq<u8> {
    (if multi {
        heading_of(p.index)
    } else {
        Seq::<u8>::empty()
    }) + page_body(p, mode, stem) + lit("\n\n")
}

/// The segments of the given pages, concatenated in order.
pub open spec fn doc_pages(pages: Seq<PageV>, mode: ImageMode, stem: Seq<u8>, multi: bool) -> Seq<u8>
    decreases pages.len(),
{
    if pages.len() == 0 {
        Seq::<u8>::empty()
    } else {
        page_segment(pages[0], mode, stem, multi) + doc_pages(pages.skip(1), mode, stem, multi)
    }
}

/// The whole rendered document: pages in response order, with headings
/// exactly when the response has two or more pages.
pub open spec fn doc_of(pages: Seq<PageV>, mode: ImageMode, stem: Seq<u8>) -> Seq<u8> {
    doc_pages(pages, mode, stem, pages.len() > 1)
}

/// Everything the given pages stage for output, in order.
pub open spec fn staged_pages(pages: Seq<PageV>, mode: ImageMode) -> Seq<(Seq<u8>, Seq<u8>)>
    decreases pages.len(),
{
    if pages.len() == 0 {
        Seq::<(Seq<u8>, Seq<u8>)>::empty()
    } else {
        staged_imgs(pages[0].images, mode) + staged_pages(pages.skip(1), mode)
    }
}

/// Whether a whole response renders without error.
pub open spec fn response_ok(pages: Seq<PageV>, mode: ImageMode) -> bool {
    forall|i: int| 0 <= i < pages.len() ==> imgs_ok(#[trigger] pages[i].images, mode)
}

/// Whether some present image of the response carries this id and a
/// payload that does not decode.
pub open spec fn is_failing_image(pages: Seq<PageV>, mode: ImageMode, id: Seq<u8>) -> bool {
    exists|i: int, j: int|
        0 <= i < pages.len() && 0 <= j < pages[i].images.len() && {
            let img = #[trigger] pages[i].images[j];
            &&& img_present(img)
            &&& img.id->Some_0 == id
            &&& needs_decode(mode)
            &&& image_bytes_of(img.payload->Some_0) is None
        }
}

/// An image payload that should decode did not; the image's id names it.
#[derive(Clone, PartialEq, Eq, Debug)]
pub struct RenderError {
    pub id: Vec<u8>,
}

/// A rendered response: the output markdown and the decoded images it
/// stages (empty unless the mode writes or archives image files).
#[derive(Clone, PartialEq, Eq, Debug)]
pub struct Rendered {
    pub markdown: Vec<u8>,
    pub staged: Vec<StagedImage>,
}

/// Renders one page's body, appending whatever it stages.
fn rewrite_page(page: &OcrPage, mode: ImageMode, stem: &[u8], staged: &mut Vec<StagedImage>) -> (r:
    Result<Vec<u8>, RenderError>)
    ensures
        (r matches Ok(md) ==> {
            &&& md@ == page_body(page@, mode, stem@)
            &&& staged_view(final(staged)@) == staged_view(old(staged)@) + staged_imgs(
                page@.images,
                mode,
            )
            &&& imgs_ok(page@.images, mode)
        }),
        (r matches Err(e) ==> {
            &&& !imgs_ok(page@.images, mode)
            &&& exists|j: int|
                0 <= j < page@.images.len() && {
                    let img = #[trigger] page@.images[j];
                    &&& img_present(img)
                    &&& img.id->Some_0 == e.id@
                    &&& needs_decode(mode)
                    &&& image_bytes_of(img.payload->Some_0) is None
                }
        }),
        (r is Ok <==> imgs_ok(page@.images, mode)),
{
    let ghost imgs = page@.images;
    let mut md = trim_end_bytes(page.markdown.as_slice());
    let mut j: usize = 0;
    proof {
        assert(imgs.skip(0) =~= imgs);
    }
    while j < page.images.len()
        invariant
            0 <= j <= page.images@.len(),
            imgs == page@.images,
            imgs.len() == page.images@.len(),
            page_body(page@, mode, stem@) == rewrite_imgs(md@, imgs.skip(j as int), mode, stem@),
            staged_view(old(staged)@) + staged_imgs(imgs, mode) == staged_view(staged@)
                + staged_imgs(imgs.skip(j as int), mode),
            forall|k: int| 0 <= k < j ==> img_ok(#[trigger] imgs[k], mode),
        decreases page.images@.len() - j,
    {
        let ghost img = imgs[j as int];
        proof {
            reveal_strlit("](");
            reveal_strlit(")");
            reveal_strlit("data:");
            reveal_strlit("/");
            reveal_strlit("images/");
            reveal_strlit("jpeg");
            assert(imgs.skip(j as int)[0] == img);
            assert(imgs.skip(j as int).skip(1) =~= imgs.skip(j + 1));
            assert(rewrite_imgs(md@, imgs.skip(j as int), mode, stem@) == rewrite_imgs(
                rewrite_one(md@, img, mode, stem@),
                imgs.skip(j + 1),
                mode,
                stem@,
            ));
            assert(staged_imgs(imgs.skip(j as int), mode) == staged_one(img, mode) + staged_imgs(
                imgs.skip(j + 1),
                mode,
            ));
        }
        let entry = &page.images[j];
        if mode == ImageMode::Discard || entry.id.is_none() || entry.image_base64.is_none() {
            proof {
                assert(rewrite_one(md@, img, mode, stem@) == md@);
                assert(staged_one(img, mode) =~= Seq::<(Seq<u8>, Seq<u8>)>::empty());
                assert(staged_imgs(imgs.skip(j as int), mode) =~= staged_imgs(
                    imgs.skip(j + 1),
                    mode,
                ));
                assert(img_ok(img, mode));
            }
            j = j + 1;
            continue ;
        }
        let id = entry.id.as_ref().unwrap();
        let payload = entry.image_base64.as_ref().unwrap();
        proof {
            assert(img.id->Some_0 == id@);
            assert(img.payload->Some_0 == payload@);
        }
        // The target the anchor is rewritten to, staging decoded bytes
        // where the mode calls for them.
        let target: Vec<u8> = match mode {
            ImageMode::Separate => {
                match decode_image_base64(payload.as_slice()) {
                    Some(bytes) => {
                        staged.push(StagedImage { name: slice_to_vec(id.as_slice()), bytes });
                        let mut t = images_dir_name(stem);
                        let slash = lit_bytes("/");
                        push_bytes(&mut t, slash.as_slice());
                        push_bytes(&mut t, id.as_slice());
                        proof {
                            assert(t@ =~= rewrite_target(mode, stem@, id@, payload@));
                        }
                        t
                    },
                    None => {
                        proof {
                            assert(!img_ok(imgs[j as int], mode));
                            assert(!imgs_ok(imgs, mode));
                        }
                        return Err(RenderError { id: slice_to_vec(id.as_slice()) });
                    },
                }
            },
            ImageMode::Archive => {
                match decode_image_base64(payload.as_slice()) {
                    Some(bytes) => {
                        staged.push(StagedImage { name: slice_to_vec(id.as_slice()), bytes });
                        let mut t = lit_bytes("images/");
                        push_bytes(&mut t, id.as_slice());
                        proof {
                            assert(t@ =~= rewrite_target(mode, stem@, id@, payload@));
                        }
                        t
                    },
                    None => {
                        proof {
                            assert(!img_ok(imgs[j as int], mode));
                            assert(!imgs_ok(imgs, mode));
                        }
                        return Err(RenderError { id: slice_to_vec(id.as_slice()) });
                    },
                }
            },
            _ => {
                // Inline: reuse a payload that already is a data URI,
                // else wrap it under a MIME type derived from the id.
                let pre = lit_bytes("data:");
                if payload.len() >= pre.len() && crate::text::bytes_eq(
                    &payload.as_slice()[0..pre.len()],
                    pre.as_slice(),
                ) {
                    proof {
                        assert(lit("data:").is_prefix_of(payload@));
                    }
                    slice_to_vec(payload.as_slice())
                } else {
                    proof {
                        assert(!lit("data:").is_prefix_of(payload@)) by {
                            if lit("data:").is_prefix_of(payload@) {
                                assert(payload@.subrange(0, lit("data:").len() as int) == lit(
                                    "data:",
                                ));
                            }
                        }
                    }
                    let mime = match crate::text::ext_of_lower(id.as_slice()) {
                        Some(e) => mime_for_ext(e.as_slice()),
                        None => mime_for_ext(lit_bytes("jpeg").as_slice()),
                    };
                    data_uri_bytes(mime.as_slice(), payload.as_slice())
                }
            },
        };
        proof {
            assert(target@ == rewrite_target(mode, stem@, id@, payload@));
        }
        let mut pat = lit_bytes("](");
        push_bytes(&mut pat, id.as_slice());
        let close = lit_bytes(")");
        push_bytes(&mut pat, close.as_slice());
        let mut rep = lit_bytes("](");
        push_bytes(&mut rep, target.as_slice());
        push_bytes(&mut rep, close.as_slice());
        proof {
            assert(pat@ =~= anchor_of(id@));
            assert(rep@ =~= anchor_of(rewrite_target(mode, stem@, id@, payload@)));
            assert(pat@.len() > 0);
            assert(rewrite_one(md@, img, mode, stem@) == replace_all(md@, pat@, rep@));
        }
        md = replace_all_bytes(md.as_slice(), pat.as_slice(), rep.as_slice());
        j = j + 1;
    }
    proof {
        assert(imgs.skip(imgs.len() as int) =~= Seq::<ImageV>::empty());
        assert(staged_imgs(Seq::<ImageV>::empty(), mode) =~= Seq::<(Seq<u8>, Seq<u8>)>::empty());
        assert(staged_view(staged@) + Seq::<(Seq<u8>, Seq<u8>)>::empty() =~= staged_view(staged@));
        assert(imgs_ok(imgs, mode));
    }
    Ok(md)
}

/// Renders a whole response: pages concatenated in response order, with a
/// heading before each page exactly when there are two or more, and
/// everything the selected mode stages.  Fails, naming the image, exactly
/// when a payload that must decode does not.
pub fn render_response(resp: &OcrResponse, mode: ImageMode, stem: &[u8]) -> (r: Result<
    Rendered,
    RenderError,
>)
    ensures
        (r matches Ok(out) ==> {
            &&& out.markdown@ == doc_of(resp@, mode, stem@)
            &&& staged_view(out.staged@) == staged_pages(resp@, mode)
        }),
        (r matches Err(e) ==> is_failing_image(resp@, mode, e.id@)),
        (r is Ok <==> response_ok(resp@, mode)),
{
    let ghost pages = resp@;
    let multi = resp.pages.len() > 1;
    let mut out: Vec<u8> = Vec::new();
    let mut staged: Vec<StagedImage> = Vec::new();
    let mut i: usize = 0;
    proof {
        assert(pages.skip(0) =~= pages);
        assert(staged_view(Seq::<StagedImage>::empty()) =~= Seq::<(Seq<u8>, Seq<u8>)>::empty());
        assert(Seq::<u8>::empty() + doc_pages(pages, mode, stem@, multi) =~= doc_pages(
            pages,
            mode,
            stem@,
            multi,
        ));
        assert(Seq::<(Seq<u8>, Seq<u8>)>::empty() + staged_pages(pages, mode) =~= staged_pages(
            pages,
            mode,
        ));
    }
    while i < resp.pages.len()
        invariant
            0 <= i <= resp.pages@.len(),
            pages == resp@,
            pages.len() == resp.pages@.len(),
            multi == (pages.len() > 1),
            doc_pages(pages, mode, stem@, multi) == out@ + doc_pages(
                pages.skip(i as int),
                mode,
                stem@,
                multi,
            ),
            staged_pages(pages, mode) == staged_view(staged@) + staged_pages(
                pages.skip(i as int),
                mode,
            ),
            forall|k: int| 0 <= k < i ==> imgs_ok(#[trigger] pages[k].images, mode),
        decreases resp.pages@.len() - i,
    {
        let ghost pv = pages[i as int];
        proof {
            reveal_strlit("# Page ");
            reveal_strlit("\n\n");
            assert(pages.skip(i as int)[0] == pv);
            assert(pages.skip(i as int).skip(1) =~= pages.skip(i + 1));
            assert(doc_pages(pages.skip(i as int), mode, stem@, multi) == page_segment(
                pv,
                mode,
                stem@,
                multi,
            ) + doc_pages(pages.skip(i + 1), mode, stem@, multi));
            assert(staged_pages(pages.skip(i as int), mode) == staged_imgs(pv.images, mode)
                + staged_pages(pages.skip(i + 1), mode));
        }
        let page = &resp.pages[i];
        proof {
            assert(page@ == pv);
        }
        let ghost out_before = out@;
        if multi {
            let hd = lit_bytes("# Page ");
            push_bytes(&mut out, hd.as_slice());
            let num = u64_dec((page.index as u64) + 1);
            push_bytes(&mut out, num.as_slice());
            let nn = lit_bytes("\n\n");
            push_bytes(&mut out, nn.as_slice());
            proof {
                assert(out@ =~= out_before + heading_of(pv.index));
            }
        }
        let body = match rewrite_page(page, mode, stem, &mut staged) {
            Ok(b) => b,
            Err(e) => {
                proof {
                    let j = choose|j: int|
                        0 <= j < pv.images.len() && {
                            let img = #[trigger] pv.images[j];
                            &&& img_present(img)
                            &&& img.id->Some_0 == e.id@
                            &&& needs_decode(mode)
                            &&& image_bytes_of(img.payload->Some_0) is None
                        };
                    assert(0 <= i < pages.len() && 0 <= j < pages[i as int].images.len() && {
                        let img = pages[i as int].images[j];
                        &&& img_present(img)
                        &&& img.id->Some_0 == e.id@
                        &&& needs_decode(mode)
                        &&& image_bytes_of(img.payload->Some_0) is None
                    });
                    assert(is_failing_image(pages, mode, e.id@));
                    assert(!imgs_ok(pages[i as int].images, mode));
                    assert(!response_ok(pages, mode));
                }
                return Err(e);
            },
        };
        push_bytes(&mut out, body.as_slice());
        let nn = lit_bytes("\n\n");
        push_bytes(&mut out, nn.as_slice());
        proof {
            assert(out@ =~= out_before + page_segment(pv, mode, stem@, multi));
            assert(out_before + page_segment(pv, mode, stem@, multi) + doc_pages(
                pages.skip(i + 1),
                mode,
                stem@,
                multi,
            ) =~= out_before + (page_segment(pv, mode, stem@, multi) + doc_pages(
                pages.skip(i + 1),
                mode,
                stem@,
                multi,
            )));
        }
        i = i + 1;
    }
    proof {
        assert(pages.skip(pages.len() as int) =~= Seq::<PageV>::empty());
        assert(doc_pages(Seq::<PageV>::empty(), mode, stem@, multi) =~= Seq::<u8>::empty());
        assert(staged_pages(Seq::<PageV>::empty(), mode) =~= Seq::<(Seq<u8>, Seq<u8>)>::empty());
        assert(out@ + Seq::<u8>::empty() =~= out@);
        assert(staged_view(staged@) + Seq::<(Seq<u8>, Seq<u8>)>::empty() =~= staged_view(staged@));
        assert(response_ok(pages, mode));
    }
    Ok(Rendered { markdown: out, staged })
}

/// The name of the markdown entry inside an archive.
pub open spec fn md_entry_name(stem: Seq<u8>) -> Seq<u8> {
    stem + lit(".md")
}

/// The entries of the output archive: the markdown under the output stem,
/// then one entry per staged image under `images/`.
pub open spec fn archive_entries(stem: Seq<u8>, md: Seq<u8>, staged: Seq<(Seq<u8>, Seq<u8>)>) -> Seq<
    (Seq<u8>, Seq<u8>),
> {
    seq![(md_entry_name(stem), md)] + staged.map_values(
        |e: (Seq<u8>, Seq<u8>)| (lit("images/") + e.0, e.1),
    )
}

/// Packs a rendered response into a zip archive: one markdown entry, then
/// the staged images under `images/`.  Succeeds exactly when the archive
/// writer takes the entries, and always when they are writable: pairwise
/// distinct names, valid UTF-8, within the format's size fields.
pub fn build_archive(stem: &[u8], rendered: &Rendered) -> (r: Option<Vec<u8>>)
    ensures
        (r matches Some(v) ==> zip_entries_of(v@) == Option::Some(
            archive_entries(stem@, rendered.markdown@, staged_view(rendered.staged@)),
        )),
        (r is Some <==> zip_write_ok(
            archive_entries(stem@, rendered.markdown@, staged_view(rendered.staged@)),
        )),
        (archive_writable(archive_entries(stem@, rendered.markdown@, staged_view(rendered.staged@)))
            ==> r is Some),
{
    proof {
        reveal_strlit(".md");
    }
    let ghost target = archive_entries(stem@, rendered.markdown@, staged_view(rendered.staged@));
    let mut names: Vec<Vec<u8>> = Vec::new();
    let mut contents: Vec<Vec<u8>> = Vec::new();
    let mut mdname = slice_to_vec(stem);
    let tail = lit_bytes(".md");
    push_bytes(&mut mdname, tail.as_slice());
    names.push(mdname);
    contents.push(slice_to_vec(rendered.markdown.as_slice()));
    let mut i: usize = 0;
    proof {
        assert(target.len() == 1 + rendered.staged@.len());
        assert(names@[0]@ =~= target[0].0);
    }
    while i < rendered.staged.len()
        invariant
            0 <= i <= rendered.staged@.len(),
            names@.len() == i + 1,
            contents@.len() == i + 1,
            target == archive_entries(stem@, rendered.markdown@, staged_view(rendered.staged@)),
            target.len() == 1 + rendered.staged@.len(),
            forall|k: int|
                0 <= k <= i ==> (#[trigger] names@[k])@ == target[k].0 && contents@[k]@
                    == target[k].1,
        decreases rendered.staged@.len() - i,
    {
        proof {
            reveal_strlit("images/");
        }
        let s = &rendered.staged[i];
        let mut nm = lit_bytes("images/");
        push_bytes(&mut nm, s.name.as_slice());
        names.push(nm);
        contents.push(slice_to_vec(s.bytes.as_slice()));
        proof {
            assert(staged_view(rendered.staged@)[i as int] == rendered.staged@[i as int]@);
            assert(target[i + 1].0 =~= lit("images/") + s.name@);
            assert(target[i + 1].1 == s.bytes@);
            assert(names@[i + 1]@ =~= target[i + 1].0);
        }
        i = i + 1;
    }
    proof {
        assert(Seq::new(names@.len(), |k: int| (names@[k]@, contents@[k]@)) =~= target);
    }
    zip_archive_bytes(&names, &contents)
}

/// The artifact one run produces.
#[derive(Clone, PartialEq, Eq, Debug)]
pub enum OutputPlan {
    /// A single markdown text, written to the output path as given.
    Markdown { text: Vec<u8> },
    /// A markdown text plus a sibling directory of decoded image files.
    MarkdownWithImages { text: Vec<u8>, dir_name: Vec<u8>, images: Vec<StagedImage> },
    /// One zip archive, written to the output path with a `.zip` extension.
    ZipArchive { bytes: Vec<u8> },
}

/// Why no artifact could be planned.
#[derive(Clone, PartialEq, Eq, Debug)]
pub enum OutputError {
    /// An image payload that must decode did not; the image's id names it.
    UndecodableImage { id: Vec<u8> },
    /// The archive writer failed.
    ArchiveFailure,
}

/// Modes that decode nothing render every response.
pub proof fn lemma_no_decode_ok(pages: Seq<PageV>, mode: ImageMode)
    requires
        !needs_decode(mode),
    ensures
        response_ok(pages, mode),
{
    assert forall|i: int| 0 <= i < pages.len() implies imgs_ok(#[trigger] pages[i].images, mode) by {
        assert forall|j: int|
            0 <= j < pages[i].images.len() implies img_ok(#[trigger] pages[i].images[j], mode) by {}
    }
}

/// Plans the output artifact for a response: the rendered markdown alone,
/// the markdown plus an images directory, or a zip archive, as the mode
/// selects.  Discarding and inlining never fail; a decoding mode fails
/// exactly when some payload does not decode, naming the image.
pub fn plan_output(resp: &OcrResponse, mode: ImageMode, stem: &[u8]) -> (r: Result<
    OutputPlan,
    OutputError,
>)
    ensures
        ((mode == ImageMode::Discard || mode == ImageMode::Inline) ==> ({
            &&& r is Ok
            &&& (r matches Ok(p) ==> ({
                &&& p matches OutputPlan::Markdown { text }
                &&& text@ == doc_of(resp@, mode, stem@)
            }))
        })),
        (mode == ImageMode::Separate ==> ({
            &&& (r is Ok <==> response_ok(resp@, mode))
            &&& (r matches Ok(p) ==> ({
                &&& p matches OutputPlan::MarkdownWithImages { text, dir_name, images }
                &&& text@ == doc_of(resp@, mode, stem@)
                &&& dir_name@ == images_dir_name_spec(stem@)
                &&& staged_view(images@) == staged_pages(resp@, mode)
            }))
        })),
        (mode == ImageMode::Archive ==> ({
            &&& (r matches Ok(p) ==> ({
                &&& response_ok(resp@, mode)
                &&& p matches OutputPlan::ZipArchive { bytes }
                &&& zip_entries_of(bytes@) == Option::Some(
                    archive_entries(
                        stem@,
                        doc_of(resp@, mode, stem@),
                        staged_pages(resp@, mode),
                    ),
                )
            }))
            &&& (!response_ok(resp@, mode) ==> r is Err)
            &&& ((response_ok(resp@, mode) && archive_writable(
                archive_entries(stem@, doc_of(resp@, mode, stem@), staged_pages(resp@, mode)),
            )) ==> r is Ok)
        })),
        (r matches Err(e) ==> ({
            &&& (e matches OutputError::UndecodableImage { id } ==> !response_ok(resp@, mode)
                && is_failing_image(resp@, mode, id@))
            &&& needs_decode(mode)
        })),
{
    proof {
        if !needs_decode(mode) {
            lemma_no_decode_ok(resp@, mode);
        }
    }
    match render_response(resp, mode, stem) {
        Err(e) => Err(OutputError::UndecodableImage { id: e.id }),
        Ok(rendered) => {
            match mode {
                ImageMode::Discard => Ok(OutputPlan::Markdown { text: rendered.markdown }),
                ImageMode::Inline => Ok(OutputPlan::Markdown { text: rendered.markdown }),
                ImageMode::Separate => Ok(
                    OutputPlan::MarkdownWithImages {
                        text: rendered.markdown,
                        dir_name: images_dir_name(stem),
                        images: rendered.staged,
                    },
                ),
                ImageMode::Archive => {
                    match build_archive(stem, &rendered) {
                        Some(bytes) => Ok(OutputPlan::ZipArchive { bytes }),
                        None => Err(OutputError::ArchiveFailure),
                    }
                },
            }
        },
    }
}

} // verus!
