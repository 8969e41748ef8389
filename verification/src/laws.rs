//! The renderer's laws: what holds of anchor rewriting, headings, staging
//! and the four image modes, proved over the spec functions the renderer's
//! contracts use.
use vstd::prelude::*;
use crate::ImageMode;
use crate::text::{
    lit,
    byte_free,
    prefix_of,
    marker_shaped,
    contains_seq,
    match_at,
    replace_all,
    lemma_replace_all_removes,
    lemma_replace_all_preserves_absent,
    trim_end_spec,
};
use crate::request::{data_uri, mime_for_ext_spec};
use crate::render::{
    anchor_of,
    images_dir_name_spec,
    inline_mime,
    rewrite_target,
    rewrite_one,
    rewrite_imgs,
    staged_one,
    staged_imgs,
    img_present,
    img_ok,
    needs_decode,
    page_body,
    page_segment,
    heading_of,
    doc_pages,
    doc_of,
    ImageV,
    PageV,
};

verus! {

/// A name free of the bracket and parenthesis bytes that delimit anchors.
pub open spec fn plain_name(s: Seq<u8>) -> bool {
    byte_free(s, 93) && byte_free(s, 41)
}

/// An image id of the ordinary shape: free of anchor delimiters and of the
/// slash and colon that every rewritten target contains.
pub open spec fn sane_id(s: Seq<u8>) -> bool {
    plain_name(s) && byte_free(s, 47) && byte_free(s, 58)
}

/// The shape of an anchor: it starts with the bracket byte, which occurs
/// nowhere else in it.
pub proof fn lemma_anchor_bytes(id: Seq<u8>)
    requires
        plain_name(id),
    ensures
        anchor_of(id).len() == id.len() + 3,
        anchor_of(id)[0] == 93,
        anchor_of(id)[id.len() as int + 2] == 41,
        byte_free(anchor_of(id).skip(1), 93),
        forall|k: int| 0 <= k < id.len() ==> anchor_of(id)[k + 2] == id[k],
{
    reveal_strlit("](");
    reveal_strlit(")");
    assert(lit("](").len() == 2);
    assert(lit("](")[0] == 93);
    assert(lit("](")[1] == 40);
    assert(lit(")").len() == 1);
    assert(lit(")")[0] == 41);
    let a = anchor_of(id);
    assert forall|k: int| 0 <= k < a.skip(1).len() implies a.skip(1)[k] != 93 by {
        assert(a.skip(1)[k] == a[k + 1]);
        if k + 1 >= 2 && k + 1 < 2 + id.len() {
            assert(a[k + 1] == id[k - 1]);
        }
    }
}

/// Anchors of distinct plain names prefix neither each other.
pub proof fn lemma_anchor_prefix_free(a: Seq<u8>, b: Seq<u8>)
    requires
        plain_name(a),
        plain_name(b),
        a != b,
    ensures
        !prefix_of(anchor_of(a), anchor_of(b)),
{
    lemma_anchor_bytes(a);
    lemma_anchor_bytes(b);
    if prefix_of(anchor_of(a), anchor_of(b)) {
        if a.len() == b.len() {
            assert(a =~= b) by {
                assert forall|k: int| 0 <= k < a.len() implies a[k] == b[k] by {
                    assert(anchor_of(a)[k + 2] == a[k]);
                    assert(anchor_of(b)[k + 2] == b[k]);
                }
            }
        } else {
            assert(a.len() < b.len());
            let k = a.len() + 2;
            assert(anchor_of(a)[k as int] == 41);
            assert(anchor_of(b)[(a.len() as int) + 2] == b[a.len() as int]);
            assert(b[a.len() as int] != 41);
            assert(false);
        }
    }
}

/// The anchors of an id and of a distinct target form a marker-shaped
/// pattern and replacement.
pub proof fn lemma_anchor_marker_shaped(id: Seq<u8>, target: Seq<u8>)
    requires
        plain_name(id),
        plain_name(target),
        id != target,
    ensures
        marker_shaped(anchor_of(id), anchor_of(target)),
{
    lemma_anchor_bytes(id);
    lemma_anchor_bytes(target);
    lemma_anchor_prefix_free(id, target);
    lemma_anchor_prefix_free(target, id);
}

/// Every MIME type the lookup can return is free of anchor delimiters and
/// of the colon.
pub proof fn lemma_mime_plain(e: Seq<u8>)
    ensures
        plain_name(mime_for_ext_spec(e)),
        byte_free(mime_for_ext_spec(e), 58),
{
    reveal_strlit("image/jpeg");
    reveal_strlit("image/png");
    reveal_strlit("image/gif");
    reveal_strlit("image/bmp");
    reveal_strlit("image/tiff");
    reveal_strlit("image/webp");
    reveal_strlit("application/octet-stream");
}

/// A rewritten target is free of anchor delimiters and carries a slash or
/// colon that no ordinary id carries.
pub proof fn lemma_target_shape(mode: ImageMode, stem: Seq<u8>, id: Seq<u8>, payload: Seq<u8>)
    requires
        mode != ImageMode::Discard,
        plain_name(stem),
        sane_id(id),
        mode == ImageMode::Inline ==> plain_name(payload),
    ensures
        plain_name(rewrite_target(mode, stem, id, payload)),
        exists|i: int|
            0 <= i < rewrite_target(mode, stem, id, payload).len() && ((#[trigger] rewrite_target(
                mode,
                stem,
                id,
                payload,
            )[i]) == 47 || rewrite_target(mode, stem, id, payload)[i] == 58),
{
    reveal_strlit("_images");
    reveal_strlit("/");
    reveal_strlit("images/");
    reveal_strlit("data:");
    reveal_strlit(";base64,");
    let t = rewrite_target(mode, stem, id, payload);
    match mode {
        ImageMode::Discard => {
        },
        ImageMode::Separate => {
            let d = images_dir_name_spec(stem);
            assert(t == d + lit("/") + id);
            assert(t[d.len() as int] == 47);
            assert(plain_name(t)) by {
                assert forall|k: int| 0 <= k < t.len() implies t[k] != 93 && t[k] != 41 by {
                    if k < stem.len() {
                        assert(t[k] == stem[k]);
                    } else if k < d.len() {
                        assert(t[k] == lit("_images")[k - stem.len()]);
                    } else if k == d.len() {
                    } else {
                        assert(t[k] == id[k - d.len() - 1]);
                    }
                }
            }
        },
        ImageMode::Inline => {
            if lit("data:").is_prefix_of(payload) {
                assert(t == payload);
                assert(t[4] == lit("data:")[4]) by {
                    assert(payload.subrange(0, 5)[4] == payload[4]);
                }
                assert(t[4] == 58);
            } else {
                lemma_mime_plain(inline_ext_of(id));
                let m = inline_mime(id);
                assert(t == lit("data:") + m + lit(";base64,") + payload);
                assert(t[4] == 58);
                assert(plain_name(t)) by {
                    assert(plain_name(m)) by {
                        lemma_inline_mime_plain(id);
                    }
                    assert forall|k: int| 0 <= k < t.len() implies t[k] != 93 && t[k] != 41 by {
                        if k < 5 {
                            assert(t[k] == lit("data:")[k]);
                        } else if k < 5 + m.len() {
                            assert(t[k] == m[k - 5]);
                        } else if k < 5 + m.len() + 8 {
                            assert(t[k] == lit(";base64,")[k - 5 - m.len()]);
                        } else {
                            assert(t[k] == payload[k - 5 - m.len() - 8]);
                        }
                    }
                }
            }
        },
        ImageMode::Archive => {
            assert(t == lit("images/") + id);
            assert(t[6] == 47);
            assert(plain_name(t)) by {
                assert forall|k: int| 0 <= k < t.len() implies t[k] != 93 && t[k] != 41 by {
                    if k < 7 {
                        assert(t[k] == lit("images/")[k]);
                    } else {
                        assert(t[k] == id[k - 7]);
                    }
                }
            }
        },
    }
}

/// The extension sequence an inlined image's MIME type is looked up under.
pub open spec fn inline_ext_of(id: Seq<u8>) -> Seq<u8> {
    match crate::text::ext_of(id) {
        Option::Some(e) => crate::text::ascii_lower(e),
        Option::None => lit("jpeg"),
    }
}

/// The MIME type of an inlined image is free of anchor delimiters.
pub proof fn lemma_inline_mime_plain(id: Seq<u8>)
    ensures
        plain_name(inline_mime(id)),
{
    lemma_mime_plain(inline_ext_of(id));
    assert(inline_mime(id) == mime_for_ext_spec(inline_ext_of(id)));
}

/// An ordinary id never equals a rewritten target.
pub proof fn lemma_sane_id_not_target(
    mode: ImageMode,
    stem: Seq<u8>,
    id: Seq<u8>,
    payload: Seq<u8>,
    s: Seq<u8>,
)
    requires
        mode != ImageMode::Discard,
        plain_name(stem),
        sane_id(id),
        mode == ImageMode::Inline ==> plain_name(payload),
        sane_id(s),
    ensures
        s != rewrite_target(mode, stem, id, payload),
{
    lemma_target_shape(mode, stem, id, payload);
    let t = rewrite_target(mode, stem, id, payload);
    if s == t {
        let i = choose|i: int| 0 <= i < t.len() && ((#[trigger] t[i]) == 47 || t[i] == 58);
        assert(s[i] != 47 && s[i] != 58);
        assert(false);
    }
}

/// Rewriting a present image removes its anchor: the literal `](id)` no
/// longer occurs anywhere in the page's markdown.
pub proof fn lemma_rewrite_removes_anchor(
    md: Seq<u8>,
    mode: ImageMode,
    stem: Seq<u8>,
    id: Seq<u8>,
    payload: Seq<u8>,
)
    requires
        mode != ImageMode::Discard,
        plain_name(stem),
        sane_id(id),
        mode == ImageMode::Inline ==> plain_name(payload),
    ensures
        !contains_seq(
            replace_all(md, anchor_of(id), anchor_of(rewrite_target(mode, stem, id, payload))),
            anchor_of(id),
        ),
{
    let t = rewrite_target(mode, stem, id, payload);
    lemma_target_shape(mode, stem, id, payload);
    lemma_sane_id_not_target(mode, stem, id, payload, id);
    lemma_anchor_marker_shaped(id, t);
    lemma_replace_all_removes(md, anchor_of(id), anchor_of(t));
}

/// An anchor already absent stays absent while another image's anchor is
/// rewritten.
pub proof fn lemma_rewrite_keeps_anchor_absent(
    md: Seq<u8>,
    mode: ImageMode,
    stem: Seq<u8>,
    id: Seq<u8>,
    payload: Seq<u8>,
    other: Seq<u8>,
)
    requires
        mode != ImageMode::Discard,
        plain_name(stem),
        sane_id(id),
        mode == ImageMode::Inline ==> plain_name(payload),
        sane_id(other),
        !contains_seq(md, anchor_of(other)),
    ensures
        !contains_seq(
            replace_all(md, anchor_of(id), anchor_of(rewrite_target(mode, stem, id, payload))),
            anchor_of(other),
        ),
{
    let t = rewrite_target(mode, stem, id, payload);
    lemma_target_shape(mode, stem, id, payload);
    lemma_sane_id_not_target(mode, stem, id, payload, id);
    lemma_sane_id_not_target(mode, stem, id, payload, other);
    lemma_anchor_marker_shaped(id, t);
    lemma_anchor_bytes(other);
    lemma_anchor_bytes(id);
    lemma_anchor_prefix_free(other, t);
    lemma_anchor_prefix_free(t, other);
    lemma_replace_all_preserves_absent(md, anchor_of(id), anchor_of(t), anchor_of(other));
}

/// Every image of the sequence has an ordinary id (and, when inlining, a
/// delimiter-free payload) wherever both fields are present.
pub open spec fn sane_images(imgs: Seq<ImageV>, mode: ImageMode) -> bool {
    forall|k: int|
        0 <= k < imgs.len() ==> (img_present(#[trigger] imgs[k]) ==> sane_id(imgs[k].id->Some_0)
            && (mode == ImageMode::Inline ==> plain_name(imgs[k].payload->Some_0)))
}

/// An absent anchor stays absent through the whole image pass.
pub proof fn lemma_rewrite_imgs_keeps_absent(
    md: Seq<u8>,
    imgs: Seq<ImageV>,
    mode: ImageMode,
    stem: Seq<u8>,
    other: Seq<u8>,
)
    requires
        mode != ImageMode::Discard,
        plain_name(stem),
        sane_images(imgs, mode),
        sane_id(other),
        !contains_seq(md, anchor_of(other)),
    ensures
        !contains_seq(rewrite_imgs(md, imgs, mode, stem), anchor_of(other)),
    decreases imgs.len(),
{
    if imgs.len() == 0 {
    } else {
        let md1 = rewrite_one(md, imgs[0], mode, stem);
        if img_present(imgs[0]) {
            lemma_rewrite_keeps_anchor_absent(
                md,
                mode,
                stem,
                imgs[0].id->Some_0,
                imgs[0].payload->Some_0,
                other,
            );
        } else {
            assert(md1 == md);
        }
        assert(sane_images(imgs.skip(1), mode)) by {
            assert(forall|k: int|
                0 <= k < imgs.skip(1).len() ==> imgs.skip(1)[k] == imgs[k + 1]);
        }
        lemma_rewrite_imgs_keeps_absent(md1, imgs.skip(1), mode, stem, other);
    }
}

/// Under any rewriting mode, after a page's images are handled the anchor
/// of every present image is fully replaced: it does not occur anywhere in
/// the page's rendered markdown.  (Discarding leaves anchors untouched by
/// design; an id carrying anchor delimiters or a path separator is outside
/// the shape the service emits and is not covered.)
pub proof fn lemma_page_anchors_absent(
    md: Seq<u8>,
    imgs: Seq<ImageV>,
    mode: ImageMode,
    stem: Seq<u8>,
)
    requires
        mode != ImageMode::Discard,
        plain_name(stem),
        sane_images(imgs, mode),
    ensures
        forall|k: int|
            0 <= k < imgs.len() && img_present(#[trigger] imgs[k]) ==> !contains_seq(
                rewrite_imgs(md, imgs, mode, stem),
                anchor_of(imgs[k].id->Some_0),
            ),
    decreases imgs.len(),
{
    if imgs.len() == 0 {
    } else {
        let md1 = rewrite_one(md, imgs[0], mode, stem);
        assert(sane_images(imgs.skip(1), mode)) by {
            assert(forall|k: int|
                0 <= k < imgs.skip(1).len() ==> imgs.skip(1)[k] == imgs[k + 1]);
        }
        lemma_page_anchors_absent(md1, imgs.skip(1), mode, stem);
        if img_present(imgs[0]) {
            lemma_rewrite_removes_anchor(
                md,
                mode,
                stem,
                imgs[0].id->Some_0,
                imgs[0].payload->Some_0,
            );
            lemma_rewrite_imgs_keeps_absent(
                md1,
                imgs.skip(1),
                mode,
                stem,
                imgs[0].id->Some_0,
            );
        }
        assert forall|k: int|
            0 <= k < imgs.len() && img_present(#[trigger] imgs[k]) implies !contains_seq(
            rewrite_imgs(md, imgs, mode, stem),
            anchor_of(imgs[k].id->Some_0),
        ) by {
            if k > 0 {
                assert(imgs.skip(1)[k - 1] == imgs[k]);
            }
        }
    }
}

/// Inlining reuses a payload that already is a data URI verbatim, with no
/// re-encoding; any other payload is wrapped in a data URI under the MIME
/// type derived from the id's extension.
pub proof fn lemma_inline_target(stem: Seq<u8>, id: Seq<u8>, payload: Seq<u8>)
    ensures
        lit("data:").is_prefix_of(payload) ==> rewrite_target(ImageMode::Inline, stem, id, payload)
            == payload,
        !lit("data:").is_prefix_of(payload) ==> rewrite_target(ImageMode::Inline, stem, id, payload)
            == data_uri(inline_mime(id), payload),
{
}

/// Discarding images rewrites nothing: every page body is exactly the
/// page's markdown, trimmed of trailing whitespace.
pub proof fn lemma_discard_rewrites_nothing(md: Seq<u8>, imgs: Seq<ImageV>, stem: Seq<u8>)
    ensures
        rewrite_imgs(md, imgs, ImageMode::Discard, stem) == md,
    decreases imgs.len(),
{
    if imgs.len() > 0 {
        assert(rewrite_one(md, imgs[0], ImageMode::Discard, stem) == md);
        lemma_discard_rewrites_nothing(md, imgs.skip(1), stem);
    }
}

/// Discarding images changes a page to nothing but its trimmed markdown.
pub proof fn lemma_discard_page_body(p: PageV, stem: Seq<u8>)
    ensures
        page_body(p, ImageMode::Discard, stem) == trim_end_spec(p.markdown),
{
    lemma_discard_rewrites_nothing(trim_end_spec(p.markdown), p.images, stem);
}

/// Discarding images leaves the whole document's text untouched: every
/// page of the document renders as nothing but its trimmed markdown.
pub proof fn lemma_discard_document(pages: Seq<PageV>, stem: Seq<u8>)
    ensures
        forall|k: int|
            0 <= k < pages.len() ==> page_body(#[trigger] pages[k], ImageMode::Discard, stem)
                == trim_end_spec(pages[k].markdown),
{
    assert forall|k: int| 0 <= k < pages.len() implies page_body(
        #[trigger] pages[k],
        ImageMode::Discard,
        stem,
    ) == trim_end_spec(pages[k].markdown) by {
        lemma_discard_page_body(pages[k], stem);
    }
}

/// Discarding and inlining stage nothing: no image file and no archive
/// entry is ever planned by those modes.
pub proof fn lemma_no_decode_stages_nothing(imgs: Seq<ImageV>, mode: ImageMode)
    requires
        !needs_decode(mode),
    ensures
        staged_imgs(imgs, mode) == Seq::<(Seq<u8>, Seq<u8>)>::empty(),
    decreases imgs.len(),
{
    if imgs.len() > 0 {
        assert(staged_one(imgs[0], mode) =~= Seq::<(Seq<u8>, Seq<u8>)>::empty());
        lemma_no_decode_stages_nothing(imgs.skip(1), mode);
        assert(staged_one(imgs[0], mode) + staged_imgs(imgs.skip(1), mode) =~= Seq::<
            (Seq<u8>, Seq<u8>),
        >::empty());
    }
}

/// An image missing its id or its payload is skipped without error: the
/// markdown is left unmodified and nothing is staged, whatever the mode.
pub proof fn lemma_missing_field_skipped(md: Seq<u8>, img: ImageV, mode: ImageMode, stem: Seq<u8>)
    requires
        img.id is None || img.payload is None,
    ensures
        rewrite_one(md, img, mode, stem) == md,
        staged_one(img, mode) == Seq::<(Seq<u8>, Seq<u8>)>::empty(),
        img_ok(img, mode),
{
    assert(staged_one(img, mode) =~= Seq::<(Seq<u8>, Seq<u8>)>::empty());
}

/// An anchor of an id avoiding some byte avoids that byte too, for any
/// byte other than its own delimiters.
pub proof fn lemma_anchor_byte_free(id: Seq<u8>, b: u8)
    requires
        b != 93,
        b != 40,
        b != 41,
        byte_free(id, b),
    ensures
        byte_free(anchor_of(id), b),
{
    reveal_strlit("](");
    reveal_strlit(")");
    let a = anchor_of(id);
    assert forall|k: int| 0 <= k < a.len() implies a[k] != b by {
        if k < 2 {
            assert(a[k] == lit("](")[k]);
        } else if k < 2 + id.len() {
            assert(a[k] == id[k - 2]);
        } else {
            assert(a[k] == lit(")")[k - 2 - id.len()]);
        }
    }
}

/// A page heading holds no bracket byte, and ends in a newline.
pub proof fn lemma_heading_bytes(index: u32)
    ensures
        byte_free(heading_of(index), 93),
        heading_of(index).len() >= 2,
        heading_of(index)[heading_of(index).len() - 1] == 10,
{
    reveal_strlit("# Page ");
    reveal_strlit("\n\n");
    crate::text::lemma_dec_digits((index + 1) as nat);
    let h = heading_of(index);
    let d = crate::text::dec_spec((index + 1) as nat);
    assert forall|k: int| 0 <= k < h.len() implies h[k] != 93 by {
        if k < 7 {
            assert(h[k] == lit("# Page ")[k]);
        } else if k < 7 + d.len() {
            assert(h[k] == d[k - 7]);
        } else {
            assert(h[k] == lit("\n\n")[k - 7 - d.len()]);
        }
    }
    assert(h[h.len() - 1] == lit("\n\n")[1]);
}

/// An anchor absent from a page's body is absent from the page's whole
/// rendered segment: the heading holds no bracket and the blank line no
/// anchor byte, so no occurrence can arise around the body.
pub proof fn lemma_segment_anchor_absent(
    p: PageV,
    mode: ImageMode,
    stem: Seq<u8>,
    multi: bool,
    id: Seq<u8>,
)
    requires
        plain_name(id),
        byte_free(id, 10),
        !contains_seq(page_body(p, mode, stem), anchor_of(id)),
    ensures
        !contains_seq(page_segment(p, mode, stem, multi), anchor_of(id)),
{
    reveal_strlit("\n\n");
    let a = anchor_of(id);
    lemma_anchor_bytes(id);
    lemma_anchor_byte_free(id, 10);
    let h = if multi {
        heading_of(p.index)
    } else {
        Seq::<u8>::empty()
    };
    if multi {
        lemma_heading_bytes(p.index);
    }
    let b = page_body(p, mode, stem);
    let nn = lit("\n\n");
    let seg = page_segment(p, mode, stem, multi);
    assert(seg == h + b + nn);
    assert forall|i: int| !match_at(seg, a, i) by {
        if 0 <= i && i + a.len() <= seg.len() && match_at(seg, a, i) {
            crate::text::lemma_match_at_indexes(seg, a, i);
            assert(seg[i + 0] == a[0]);
            if i < h.len() {
                assert(seg[i] == h[i]);
                assert(false);
            } else if i + a.len() <= h.len() + b.len() {
                assert(match_at(b, a, i - h.len())) by {
                    assert(b.subrange(i - h.len(), i - h.len() + a.len()) =~= seg.subrange(
                        i,
                        i + a.len(),
                    ));
                }
                assert(contains_seq(b, a));
                assert(false);
            } else if i >= h.len() + b.len() {
                assert(seg[i] == nn[i - h.len() - b.len()]);
                assert(nn[i - h.len() - b.len()] == 10);
                assert(false);
            } else {
                let k = h.len() + b.len() - i;
                assert(0 < k < a.len());
                assert(seg[i + k] == a[k]);
                assert(seg[h.len() as int + b.len() as int] == nn[0]);
                assert(nn[0] == 10);
                assert(false);
            }
        }
    }
}

/// An anchor absent from every page's body is absent from the whole
/// document: segments end in a blank line no anchor can span.
pub proof fn lemma_doc_pages_anchor_absent(
    pages: Seq<PageV>,
    mode: ImageMode,
    stem: Seq<u8>,
    multi: bool,
    id: Seq<u8>,
)
    requires
        plain_name(id),
        byte_free(id, 10),
        forall|k: int|
            0 <= k < pages.len() ==> !contains_seq(
                page_body(#[trigger] pages[k], mode, stem),
                anchor_of(id),
            ),
    ensures
        !contains_seq(doc_pages(pages, mode, stem, multi), anchor_of(id)),
    decreases pages.len(),
{
    reveal_strlit("\n\n");
    let a = anchor_of(id);
    lemma_anchor_bytes(id);
    lemma_anchor_byte_free(id, 10);
    let doc = doc_pages(pages, mode, stem, multi);
    if pages.len() == 0 {
        assert forall|i: int| !match_at(doc, a, i) by {}
    } else {
        lemma_segment_anchor_absent(pages[0], mode, stem, multi, id);
        assert(forall|k: int| 0 <= k < pages.skip(1).len() ==> pages.skip(1)[k] == pages[k + 1]);
        lemma_doc_pages_anchor_absent(pages.skip(1), mode, stem, multi, id);
        let seg = page_segment(pages[0], mode, stem, multi);
        let rest = doc_pages(pages.skip(1), mode, stem, multi);
        assert(doc == seg + rest);
        assert(seg.len() >= 2 && seg[seg.len() - 1] == 10) by {
            assert(seg == (if multi {
                heading_of(pages[0].index)
            } else {
                Seq::<u8>::empty()
            }) + page_body(pages[0], mode, stem) + lit("\n\n"));
            assert(seg[seg.len() - 1] == lit("\n\n")[1]);
        }
        assert forall|i: int| !match_at(doc, a, i) by {
            if 0 <= i && i + a.len() <= doc.len() && match_at(doc, a, i) {
                crate::text::lemma_match_at_indexes(doc, a, i);
                if i + a.len() <= seg.len() {
                    assert(match_at(seg, a, i)) by {
                        assert(seg.subrange(i, i + a.len()) =~= doc.subrange(i, i + a.len()));
                    }
                    assert(contains_seq(seg, a));
                    assert(false);
                } else if i >= seg.len() {
                    assert(match_at(rest, a, i - seg.len())) by {
                        assert(rest.subrange(i - seg.len(), i - seg.len() + a.len())
                            =~= doc.subrange(i, i + a.len()));
                    }
                    assert(contains_seq(rest, a));
                    assert(false);
                } else {
                    let k = seg.len() - 1 - i;
                    assert(0 <= k < a.len());
                    assert(doc[i + k] == a[k]);
                    assert(doc[seg.len() - 1] == seg[seg.len() - 1]);
                    assert(false);
                }
            }
        }
    }
}

/// Every image of every page is of the ordinary shape: ids free of anchor
/// delimiters, separators and newlines; inlined payloads free of anchor
/// delimiters.
pub open spec fn doc_sane_image(img: ImageV, mode: ImageMode) -> bool {
    img_present(img) ==> sane_id(img.id->Some_0) && byte_free(img.id->Some_0, 10) && (mode
        == ImageMode::Inline ==> plain_name(img.payload->Some_0))
}

/// Every image of every page of the response is of the ordinary shape.
pub open spec fn doc_sane_images(pages: Seq<PageV>, mode: ImageMode) -> bool {
    forall|k: int, j: int|
        0 <= k < pages.len() && 0 <= j < pages[k].images.len() ==> doc_sane_image(
            #[trigger] pages[k].images[j],
            mode,
        )
}

/// Some image of the sequence carries this id and a payload.
pub open spec fn has_image_with_id(imgs: Seq<ImageV>, id: Seq<u8>) -> bool {
    exists|j: int|
        0 <= j < imgs.len() && img_present(#[trigger] imgs[j]) && imgs[j].id->Some_0 == id
}

/// The document-level law of anchor rewriting: under any rewriting mode,
/// an anchor whose id every mentioning page carries as a present image
/// occurs nowhere in the whole rendered document.  In particular, for a
/// response where each page's anchors are its own images' ids, every
/// anchor is fully replaced.
pub proof fn lemma_doc_anchors_absent(
    pages: Seq<PageV>,
    mode: ImageMode,
    stem: Seq<u8>,
    id: Seq<u8>,
)
    requires
        mode != ImageMode::Discard,
        plain_name(stem),
        doc_sane_images(pages, mode),
        sane_id(id),
        byte_free(id, 10),
        forall|k: int|
            0 <= k < pages.len() ==> has_image_with_id((#[trigger] pages[k]).images, id)
                || !contains_seq(trim_end_spec(pages[k].markdown), anchor_of(id)),
    ensures
        !contains_seq(doc_of(pages, mode, stem), anchor_of(id)),
{
    assert forall|k: int| 0 <= k < pages.len() implies !contains_seq(
        page_body(#[trigger] pages[k], mode, stem),
        anchor_of(id),
    ) by {
        let imgs = pages[k].images;
        let md = trim_end_spec(pages[k].markdown);
        assert(sane_images(imgs, mode)) by {
            assert forall|j: int| 0 <= j < imgs.len() implies (img_present(#[trigger] imgs[j])
                ==> sane_id(imgs[j].id->Some_0) && (mode == ImageMode::Inline ==> plain_name(
                imgs[j].payload->Some_0,
            ))) by {
                assert(doc_sane_image(pages[k].images[j], mode));
            }
        }
        if has_image_with_id(imgs, id) {
            let j = choose|j: int|
                0 <= j < imgs.len() && img_present(#[trigger] imgs[j]) && imgs[j].id->Some_0 == id;
            lemma_page_anchors_absent(md, imgs, mode, stem);
            assert(!contains_seq(rewrite_imgs(md, imgs, mode, stem), anchor_of(imgs[j].id->Some_0)));
        } else {
            lemma_rewrite_imgs_keeps_absent(md, imgs, mode, stem, id);
        }
    }
    lemma_doc_pages_anchor_absent(pages, mode, stem, pages.len() > 1, id);
}

/// A single-page response is rendered without a page heading; a response
/// of two or more pages renders every page behind the heading of its
/// one-based number, in response order.
pub proof fn lemma_page_headings(pages: Seq<PageV>, mode: ImageMode, stem: Seq<u8>)
    ensures
        pages.len() == 1 ==> doc_of(pages, mode, stem) == page_body(pages[0], mode, stem) + lit(
            "\n\n",
        ),
        pages.len() >= 2 ==> forall|k: int|
            0 <= k < pages.len() ==> page_segment(#[trigger] pages[k], mode, stem, true)
                == heading_of(pages[k].index) + (page_body(pages[k], mode, stem) + lit("\n\n")),
        (forall|k: int| 0 <= k < pages.len() ==> (#[trigger] pages[k].index) == k) ==> forall|
            k1: int,
            k2: int,
        |
            0 <= k1 < k2 < pages.len() ==> pages[k1].index + 1 < pages[k2].index + 1,
{
    if pages.len() == 1 {
        assert(doc_of(pages, mode, stem) == page_segment(pages[0], mode, stem, false) + doc_pages(
            pages.skip(1),
            mode,
            stem,
            false,
        ));
        assert(pages.skip(1) =~= Seq::<PageV>::empty());
        assert(doc_pages(Seq::<PageV>::empty(), mode, stem, false) =~= Seq::<u8>::empty());
        assert(page_segment(pages[0], mode, stem, false) + Seq::<u8>::empty() =~= page_segment(
            pages[0],
            mode,
            stem,
            false,
        ));
        assert(page_segment(pages[0], mode, stem, false) =~= page_body(pages[0], mode, stem) + lit(
            "\n\n",
        ));
    }
    assert forall|k: int| 0 <= k < pages.len() implies page_segment(
        #[trigger] pages[k],
        mode,
        stem,
        true,
    ) == heading_of(pages[k].index) + (page_body(pages[k], mode, stem) + lit("\n\n")) by {
        assert(page_segment(pages[k], mode, stem, true) =~= heading_of(pages[k].index) + (page_body(
            pages[k],
            mode,
            stem,
        ) + lit("\n\n")));
    }
}

} // verus!
