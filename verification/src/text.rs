//! Byte-level text utilities for the markdown renderer.
//!
//! All text handled by the library is a sequence of bytes; the functions
//! here give the renderer verified searching, splicing and formatting.
use vstd::prelude::*;
use vstd::slice::slice_to_vec;
use vstd::string::StrSliceExecFns;

verus! {

/// The bytes of an ASCII character sequence, one byte per character.
pub open spec fn ascii_seq(cs: Seq<char>) -> Seq<u8> {
    Seq::new(cs.len(), |i: int| cs[i] as u8)
}

/// The bytes of an ASCII string literal; the spec-level form of the
/// constant strings the renderer splices into the output.
pub open spec fn lit(s: &str) -> Seq<u8> {
    ascii_seq(s@)
}

/// The bytes of an ASCII string, as a vector.
pub fn lit_bytes(s: &str) -> (r: Vec<u8>)
    requires
        s.is_ascii(),
    ensures
        r@ == lit(s),
{
    broadcast use vstd::string::is_ascii_spec_bytes;

    let r = s.as_bytes_vec();
    proof {
        assert(r@ =~= lit(s));
    }
    r
}

/// Byte-wise equality of two slices.
pub fn bytes_eq(a: &[u8], b: &[u8]) -> (r: bool)
    ensures
        r == (a@ == b@),
{
    if a.len() != b.len() {
        proof {
            assert(a@.len() != b@.len());
        }
        return false;
    }
    let mut i: usize = 0;
    while i < a.len()
        invariant
            0 <= i <= a@.len(),
            a@.len() == b@.len(),
            forall|j: int| 0 <= j < i ==> a@[j] == b@[j],
        decreases a@.len() - i,
    {
        if a[i] != b[i] {
            return false;
        }
        i = i + 1;
    }
    proof {
        assert(a@ =~= b@);
    }
    true
}

/// Appends the bytes of `src` to `dst`.
pub fn push_bytes(dst: &mut Vec<u8>, src: &[u8])
    ensures
        final(dst)@ == old(dst)@ + src@,
{
    dst.extend_from_slice(src);
}

/// `pat` occurs in `text` starting at position `i`.
pub open spec fn match_at(text: Seq<u8>, pat: Seq<u8>, i: int) -> bool {
    &&& 0 <= i
    &&& i + pat.len() <= text.len()
    &&& text.subrange(i, i + pat.len() as int) == pat
}

/// `pat` occurs somewhere in `text`.
pub open spec fn contains_seq(text: Seq<u8>, pat: Seq<u8>) -> bool {
    exists|i: int| match_at(text, pat, i)
}

/// Every occurrence of `pat` in `text` replaced by `rep`, scanning left to
/// right and never rescanning the replacement, exactly as `str::replace`
/// does.  An empty pattern replaces nothing.
pub open spec fn replace_all(text: Seq<u8>, pat: Seq<u8>, rep: Seq<u8>) -> Seq<u8>
    decreases text.len(),
{
    if pat.len() == 0 || text.len() < pat.len() {
        text
    } else if text.subrange(0, pat.len() as int) == pat {
        rep + replace_all(text.skip(pat.len() as int), pat, rep)
    } else {
        seq![text[0]] + replace_all(text.skip(1), pat, rep)
    }
}

/// Replaces every occurrence of `pat` in `text` by `rep`.
pub fn replace_all_bytes(text: &[u8], pat: &[u8], rep: &[u8]) -> (r: Vec<u8>)
    requires
        pat@.len() > 0,
    ensures
        r@ == replace_all(text@, pat@, rep@),
{
    let mut out: Vec<u8> = Vec::new();
    let mut c: usize = 0;
    proof {
        assert(text@.skip(0) =~= text@);
        assert(Seq::<u8>::empty() + replace_all(text@, pat@, rep@) =~= replace_all(
            text@,
            pat@,
            rep@,
        ));
    }
    while c < text.len()
        invariant
            0 <= c <= text@.len(),
            pat@.len() > 0,
            replace_all(text@, pat@, rep@) == out@ + replace_all(text@.skip(c as int), pat@, rep@),
        decreases text@.len() - c,
    {
        if pat.len() <= text.len() - c && bytes_eq(&text[c..c + pat.len()], pat) {
            proof {
                assert(text@.skip(c as int).subrange(0, pat@.len() as int) =~= text@.subrange(
                    c as int,
                    c + pat@.len(),
                ));
                assert(text@.skip(c as int).skip(pat@.len() as int) =~= text@.skip(
                    c + pat@.len(),
                ));
                assert(replace_all(text@.skip(c as int), pat@, rep@) == rep@ + replace_all(
                    text@.skip(c + pat@.len()),
                    pat@,
                    rep@,
                ));
            }
            push_bytes(&mut out, rep);
            c = c + pat.len();
        } else {
            proof {
                let sk = text@.skip(c as int);
                if sk.len() >= pat@.len() {
                    assert(sk.subrange(0, pat@.len() as int) =~= text@.subrange(
                        c as int,
                        c + pat@.len(),
                    ));
                    assert(sk.subrange(0, pat@.len() as int) != pat@);
                    assert(replace_all(sk, pat@, rep@) == seq![sk[0]] + replace_all(
                        sk.skip(1),
                        pat@,
                        rep@,
                    ));
                } else {
                    assert(replace_all(sk, pat@, rep@) == sk);
                    assert(replace_all(sk.skip(1), pat@, rep@) == sk.skip(1));
                    assert(sk =~= seq![sk[0]] + sk.skip(1));
                }
                assert(sk[0] == text@[c as int]);
                assert(sk.skip(1) =~= text@.skip(c + 1));
            }
            out.push(text[c]);
            c = c + 1;
        }
    }
    proof {
        assert(text@.skip(c as int) =~= Seq::<u8>::empty());
        assert(replace_all(Seq::<u8>::empty(), pat@, rep@) == Seq::<u8>::empty());
        assert(out@ + Seq::<u8>::empty() =~= out@);
    }
    out
}

/// No byte of `s` is `b`.
pub open spec fn byte_free(s: Seq<u8>, b: u8) -> bool {
    forall|i: int| 0 <= i < s.len() ==> s[i] != b
}

/// `q` is a prefix of `t`.
pub open spec fn prefix_of(q: Seq<u8>, t: Seq<u8>) -> bool {
    q.len() <= t.len() && forall|i: int| 0 <= i < q.len() ==> q[i] == t[i]
}

/// A pattern and replacement shaped like the renderer's anchors: both
/// start with the same marker byte, the marker occurs nowhere else in
/// either, and neither is a prefix of the other.
pub open spec fn marker_shaped(pat: Seq<u8>, rep: Seq<u8>) -> bool {
    &&& pat.len() > 0
    &&& rep.len() > 0
    &&& rep[0] == pat[0]
    &&& byte_free(pat.skip(1), pat[0])
    &&& byte_free(rep.skip(1), pat[0])
    &&& !prefix_of(pat, rep)
    &&& !prefix_of(rep, pat)
}

/// `match_at` said with indexes instead of a subrange.
pub proof fn lemma_match_at_indexes(text: Seq<u8>, pat: Seq<u8>, i: int)
    requires
        0 <= i,
        i + pat.len() <= text.len(),
    ensures
        match_at(text, pat, i) <==> (forall|k: int| 0 <= k < pat.len() ==> text[i + k] == pat[k]),
{
    if match_at(text, pat, i) {
        assert forall|k: int| 0 <= k < pat.len() implies text[i + k] == pat[k] by {
            assert(text.subrange(i, i + pat.len() as int)[k] == text[i + k]);
        }
    }
    if forall|k: int| 0 <= k < pat.len() ==> text[i + k] == pat[k] {
        assert(text.subrange(i, i + pat.len() as int) =~= pat);
    }
}

/// A text whose prefix is free of the marker byte passes that prefix
/// through replacement unchanged: what `replace_all` produces can only
/// begin with a marker-free sequence that `text` itself begins with.
pub proof fn lemma_prefix_transparent(text: Seq<u8>, pat: Seq<u8>, rep: Seq<u8>, q: Seq<u8>)
    requires
        pat.len() > 0,
        rep.len() > 0,
        rep[0] == pat[0],
        byte_free(q, pat[0]),
        prefix_of(q, replace_all(text, pat, rep)),
    ensures
        prefix_of(q, text),
    decreases text.len(),
{
    let res = replace_all(text, pat, rep);
    let p = pat.len() as int;
    if q.len() == 0 {
    } else if text.len() < p {
        assert(res == text);
    } else if text.subrange(0, p) == pat {
        let rest = replace_all(text.skip(p), pat, rep);
        assert(res == rep + rest);
        assert(res[0] == rep[0]);
        assert(q[0] == res[0]);
        assert(false);
    } else {
        let rest = replace_all(text.skip(1), pat, rep);
        assert(res == seq![text[0]] + rest);
        assert(q[0] == text[0]);
        assert(prefix_of(q.skip(1), rest)) by {
            assert forall|k: int| 0 <= k < q.skip(1).len() implies q.skip(1)[k] == rest[k] by {
                assert(q.skip(1)[k] == q[k + 1]);
                assert(res[k + 1] == rest[k]);
            }
        }
        assert(byte_free(q.skip(1), pat[0]));
        lemma_prefix_transparent(text.skip(1), pat, rep, q.skip(1));
        assert(prefix_of(q, text)) by {
            assert forall|k: int| 0 <= k < q.len() implies q[k] == text[k] by {
                if k > 0 {
                    assert(q.skip(1)[k - 1] == text.skip(1)[k - 1]);
                }
            }
        }
    }
}

/// Replacing every occurrence of a marker-shaped pattern removes it: the
/// pattern does not occur anywhere in the result, not even across the
/// seams the replacement creates.
pub proof fn lemma_replace_all_removes(text: Seq<u8>, pat: Seq<u8>, rep: Seq<u8>)
    requires
        marker_shaped(pat, rep),
    ensures
        !contains_seq(replace_all(text, pat, rep), pat),
    decreases text.len(),
{
    let res = replace_all(text, pat, rep);
    let p = pat.len() as int;
    if text.len() < p {
        assert(res == text);
        assert forall|i: int| !match_at(res, pat, i) by {}
    } else if text.subrange(0, p) == pat {
        lemma_replace_all_removes(text.skip(p), pat, rep);
        let rest = replace_all(text.skip(p), pat, rep);
        assert(res == rep + rest);
        assert forall|i: int| !match_at(res, pat, i) by {
            if 0 <= i && i + p <= res.len() && match_at(res, pat, i) {
                lemma_match_at_indexes(res, pat, i);
                if i == 0 {
                    if p <= rep.len() {
                        assert(prefix_of(pat, rep)) by {
                            assert forall|k: int| 0 <= k < pat.len() implies pat[k] == rep[k] by {
                                assert(res[0 + k] == pat[k]);
                                assert(res[k] == rep[k]);
                            }
                        }
                    } else {
                        assert(prefix_of(rep, pat)) by {
                            assert forall|k: int| 0 <= k < rep.len() implies rep[k] == pat[k] by {
                                assert(res[0 + k] == pat[k]);
                                assert(res[k] == rep[k]);
                            }
                        }
                    }
                    assert(false);
                } else if i < rep.len() {
                    assert(res[i + 0] == pat[0]);
                    assert(res[i] == rep[i]);
                    assert(rep.skip(1)[i - 1] == rep[i]);
                    assert(false);
                } else {
                    assert(match_at(rest, pat, i - rep.len())) by {
                        assert(rest.subrange(i - rep.len(), i - rep.len() + p) =~= res.subrange(
                            i,
                            i + p,
                        ));
                    }
                    assert(contains_seq(rest, pat));
                    assert(false);
                }
            }
        }
    } else {
        lemma_replace_all_removes(text.skip(1), pat, rep);
        let rest = replace_all(text.skip(1), pat, rep);
        assert(res == seq![text[0]] + rest);
        assert forall|i: int| !match_at(res, pat, i) by {
            if 0 <= i && i + p <= res.len() && match_at(res, pat, i) {
                lemma_match_at_indexes(res, pat, i);
                if i == 0 {
                    assert(text[0] == pat[0]) by {
                        assert(res[0int + 0int] == pat[0]);
                    }
                    assert(prefix_of(pat.skip(1), rest)) by {
                        assert forall|k: int| 0 <= k < pat.skip(1).len() implies pat.skip(1)[k]
                            == rest[k] by {
                            assert(res[0 + (k + 1)] == pat[k + 1]);
                            assert(res[k + 1] == rest[k]);
                        }
                    }
                    lemma_prefix_transparent(text.skip(1), pat, rep, pat.skip(1));
                    assert(text.subrange(0, p) =~= pat) by {
                        assert forall|k: int| 0 <= k < p implies text[k] == pat[k] by {
                            if k > 0 {
                                assert(pat.skip(1)[k - 1] == text.skip(1)[k - 1]);
                            }
                        }
                    }
                    assert(false);
                } else {
                    assert(match_at(rest, pat, i - 1)) by {
                        assert(rest.subrange(i - 1, i - 1 + p) =~= res.subrange(i, i + p));
                    }
                    assert(contains_seq(rest, pat));
                    assert(false);
                }
            }
        }
    }
}

/// Replacing one marker-shaped pattern cannot introduce another
/// marker-shaped pattern that was absent: an anchor already rewritten
/// stays gone while later anchors are rewritten.
pub proof fn lemma_replace_all_preserves_absent(
    text: Seq<u8>,
    pat: Seq<u8>,
    rep: Seq<u8>,
    q: Seq<u8>,
)
    requires
        marker_shaped(pat, rep),
        q.len() > 0,
        q[0] == pat[0],
        byte_free(q.skip(1), pat[0]),
        !prefix_of(q, rep),
        !prefix_of(rep, q),
        !contains_seq(text, q),
    ensures
        !contains_seq(replace_all(text, pat, rep), q),
    decreases text.len(),
{
    let res = replace_all(text, pat, rep);
    let p = pat.len() as int;
    if text.len() < p {
        assert(res == text);
    } else if text.subrange(0, p) == pat {
        let rest = replace_all(text.skip(p), pat, rep);
        assert(res == rep + rest);
        assert forall|i: int| !match_at(text.skip(p), q, i) by {
            if 0 <= i && i + q.len() <= text.skip(p).len() && match_at(text.skip(p), q, i) {
                assert(match_at(text, q, i + p)) by {
                    assert(text.subrange(i + p, i + p + q.len()) =~= text.skip(p).subrange(
                        i,
                        i + q.len(),
                    ));
                }
                assert(contains_seq(text, q));
                assert(false);
            }
        }
        lemma_replace_all_preserves_absent(text.skip(p), pat, rep, q);
        assert forall|i: int| !match_at(res, q, i) by {
            if 0 <= i && i + q.len() <= res.len() && match_at(res, q, i) {
                lemma_match_at_indexes(res, q, i);
                if i == 0 {
                    if q.len() <= rep.len() {
                        assert(prefix_of(q, rep)) by {
                            assert forall|k: int| 0 <= k < q.len() implies q[k] == rep[k] by {
                                assert(res[0 + k] == q[k]);
                                assert(res[k] == rep[k]);
                            }
                        }
                    } else {
                        assert(prefix_of(rep, q)) by {
                            assert forall|k: int| 0 <= k < rep.len() implies rep[k] == q[k] by {
                                assert(res[0 + k] == q[k]);
                                assert(res[k] == rep[k]);
                            }
                        }
                    }
                    assert(false);
                } else if i < rep.len() {
                    assert(res[i + 0] == q[0]);
                    assert(res[i] == rep[i]);
                    assert(rep.skip(1)[i - 1] == rep[i]);
                    assert(false);
                } else {
                    assert(match_at(rest, q, i - rep.len())) by {
                        assert(rest.subrange(i - rep.len(), i - rep.len() + q.len())
                            =~= res.subrange(i, i + q.len()));
                    }
                    assert(contains_seq(rest, q));
                    assert(false);
                }
            }
        }
    } else {
        let rest = replace_all(text.skip(1), pat, rep);
        assert(res == seq![text[0]] + rest);
        assert forall|i: int| !match_at(text.skip(1), q, i) by {
            if 0 <= i && i + q.len() <= text.skip(1).len() && match_at(text.skip(1), q, i) {
                assert(match_at(text, q, i + 1)) by {
                    assert(text.subrange(i + 1, i + 1 + q.len()) =~= text.skip(1).subrange(
                        i,
                        i + q.len(),
                    ));
                }
                assert(contains_seq(text, q));
                assert(false);
            }
        }
        lemma_replace_all_preserves_absent(text.skip(1), pat, rep, q);
        assert forall|i: int| !match_at(res, q, i) by {
            if 0 <= i && i + q.len() <= res.len() && match_at(res, q, i) {
                lemma_match_at_indexes(res, q, i);
                if i == 0 {
                    assert(text[0] == q[0]) by {
                        assert(res[0int + 0int] == q[0]);
                    }
                    assert(prefix_of(q.skip(1), rest)) by {
                        assert forall|k: int| 0 <= k < q.skip(1).len() implies q.skip(1)[k]
                            == rest[k] by {
                            assert(res[0 + (k + 1)] == q[k + 1]);
                            assert(res[k + 1] == rest[k]);
                        }
                    }
                    lemma_prefix_transparent(text.skip(1), pat, rep, q.skip(1));
                    assert(match_at(text, q, 0)) by {
                        assert(text.subrange(0, q.len() as int) =~= q) by {
                            assert forall|k: int| 0 <= k < q.len() implies text[k] == q[k] by {
                                if k > 0 {
                                    assert(q.skip(1)[k - 1] == text.skip(1)[k - 1]);
                                }
                            }
                        }
                    }
                    assert(contains_seq(text, q));
                    assert(false);
                } else {
                    assert(match_at(rest, q, i - 1)) by {
                        assert(rest.subrange(i - 1, i - 1 + q.len()) =~= res.subrange(
                            i,
                            i + q.len(),
                        ));
                    }
                    assert(contains_seq(rest, q));
                    assert(false);
                }
            }
        }
    }
}

/// An ASCII whitespace byte: tab, newline, vertical tab, form feed,
/// carriage return or space.
pub open spec fn is_ws_byte(b: u8) -> bool {
    b == 9 || b == 10 || b == 11 || b == 12 || b == 13 || b == 32
}

/// The two-byte UTF-8 encoding of a whitespace character: the next line
/// and no-break space characters.
pub open spec fn is_ws_pair(a: u8, b: u8) -> bool {
    a == 0xc2 && (b == 0x85 || b == 0xa0)
}

/// The three-byte UTF-8 encoding of a whitespace character: the ogham
/// space mark, the typographic spaces, the line and paragraph separators,
/// the narrow no-break space, the medium mathematical space and the
/// ideographic space.
pub open spec fn is_ws_triple(a: u8, b: u8, c: u8) -> bool {
    ||| (a == 0xe1 && b == 0x9a && c == 0x80)
    ||| (a == 0xe2 && b == 0x80 && (0x80 <= c <= 0x8a || c == 0xa8 || c == 0xa9 || c == 0xaf))
    ||| (a == 0xe2 && b == 0x81 && c == 0x9f)
    ||| (a == 0xe3 && b == 0x80 && c == 0x80)
}

/// How many bytes the whitespace character ending `text` takes: the length
/// of the UTF-8 encoding of the final whitespace character, or zero when
/// the text does not end in whitespace.
pub open spec fn ws_suffix_len(text: Seq<u8>) -> int {
    if text.len() >= 1 && is_ws_byte(text[text.len() - 1]) {
        1
    } else if text.len() >= 2 && is_ws_pair(text[text.len() - 2], text[text.len() - 1]) {
        2
    } else if text.len() >= 3 && is_ws_triple(
        text[text.len() - 3],
        text[text.len() - 2],
        text[text.len() - 1],
    ) {
        3
    } else {
        0
    }
}

/// `text` with every trailing whitespace character removed, whitespace as
/// `str::trim_end` has it, over its UTF-8 encoding.
pub open spec fn trim_end_spec(text: Seq<u8>) -> Seq<u8>
    decreases text.len(),
{
    let k = ws_suffix_len(text);
    if k == 0 {
        text
    } else {
        trim_end_spec(text.subrange(0, text.len() - k))
    }
}

/// Removes trailing whitespace characters, as `str::trim_end` does.
pub fn trim_end_bytes(text: &[u8]) -> (r: Vec<u8>)
    ensures
        r@ == trim_end_spec(text@),
{
    let mut k: usize = text.len();
    proof {
        assert(text@.subrange(0, text@.len() as int) =~= text@);
    }
    loop
        invariant
            0 <= k <= text@.len(),
            trim_end_spec(text@) == trim_end_spec(text@.subrange(0, k as int)),
        ensures
            0 <= k <= text@.len(),
            trim_end_spec(text@) == text@.subrange(0, k as int),
        decreases k,
    {
        let ghost pre = text@.subrange(0, k as int);
        let s: usize = if k >= 1 && {
            let b = text[k - 1];
            b == 9 || b == 10 || b == 11 || b == 12 || b == 13 || b == 32
        } {
            1
        } else if k >= 2 && text[k - 2] == 0xc2 && (text[k - 1] == 0x85 || text[k - 1] == 0xa0) {
            2
        } else if k >= 3 && {
            let a = text[k - 3];
            let b = text[k - 2];
            let c = text[k - 1];
            (a == 0xe1 && b == 0x9a && c == 0x80) || (a == 0xe2 && b == 0x80 && (0x80 <= c && c
                <= 0x8a || c == 0xa8 || c == 0xa9 || c == 0xaf)) || (a == 0xe2 && b == 0x81 && c
                == 0x9f) || (a == 0xe3 && b == 0x80 && c == 0x80)
        } {
            3
        } else {
            0
        };
        proof {
            assert(pre.len() == k);
            if k >= 1 {
                assert(pre[pre.len() - 1] == text@[k - 1]);
            }
            if k >= 2 {
                assert(pre[pre.len() - 2] == text@[k - 2]);
            }
            if k >= 3 {
                assert(pre[pre.len() - 3] == text@[k - 3]);
            }
            assert(ws_suffix_len(pre) == s);
        }
        if s == 0 {
            proof {
                assert(trim_end_spec(pre) == pre);
            }
            break ;
        }
        proof {
            assert(pre.subrange(0, pre.len() - s) =~= text@.subrange(0, k - s));
            assert(trim_end_spec(pre) == trim_end_spec(text@.subrange(0, k - s)));
        }
        k = k - s;
    }
    slice_to_vec(&text[0..k])
}

/// An upper-case ASCII letter mapped to lower case; any other byte kept.
pub open spec fn lower_byte(b: u8) -> u8 {
    if 65 <= b && b <= 90 {
        (b + 32) as u8
    } else {
        b
    }
}

/// `text` with ASCII letters mapped to lower case.
pub open spec fn ascii_lower(text: Seq<u8>) -> Seq<u8> {
    Seq::new(text.len(), |i: int| lower_byte(text[i]))
}

/// Maps ASCII letters to lower case.
pub fn ascii_lower_bytes(text: &[u8]) -> (r: Vec<u8>)
    ensures
        r@ == ascii_lower(text@),
{
    let mut out: Vec<u8> = Vec::new();
    let mut i: usize = 0;
    while i < text.len()
        invariant
            0 <= i <= text@.len(),
            out@ =~= ascii_lower(text@).subrange(0, i as int),
        decreases text@.len() - i,
    {
        let b = text[i];
        if 65 <= b && b <= 90 {
            out.push(b + 32);
        } else {
            out.push(b);
        }
        proof {
            assert(out@ =~= ascii_lower(text@).subrange(0, i + 1));
        }
        i = i + 1;
    }
    proof {
        assert(out@ =~= ascii_lower(text@));
    }
    out
}

/// The position of the first occurrence of byte `b` in `text`.
pub open spec fn find_byte(text: Seq<u8>, b: u8) -> Option<int>
    decreases text.len(),
{
    if text.len() == 0 {
        Option::None
    } else if text[0] == b {
        Option::Some(0)
    } else {
        match find_byte(text.skip(1), b) {
            Option::Some(i) => Option::Some(i + 1),
            Option::None => Option::None,
        }
    }
}

/// What `find_byte` returns: the position of the first occurrence of `b`,
/// or nothing when `b` does not occur.
pub proof fn lemma_find_byte(text: Seq<u8>, b: u8)
    ensures
        match find_byte(text, b) {
            Option::Some(i) => 0 <= i < text.len() && text[i] == b && (forall|j: int|
                0 <= j < i ==> text[j] != b),
            Option::None => forall|j: int| 0 <= j < text.len() ==> text[j] != b,
        },
    decreases text.len(),
{
    if text.len() == 0 {
    } else if text[0] == b {
    } else {
        lemma_find_byte(text.skip(1), b);
        let tl = text.skip(1);
        assert(forall|j: int| 0 <= j < tl.len() ==> tl[j] == text[j + 1]);
        match find_byte(tl, b) {
            Option::Some(i) => {
                assert(text[i + 1] == b);
                assert forall|j: int| 0 <= j < i + 1 implies text[j] != b by {
                    if j > 0 {
                        assert(tl[j - 1] != b);
                    }
                }
            },
            Option::None => {
                assert forall|j: int| 0 <= j < text.len() implies text[j] != b by {
                    if j > 0 {
                        assert(tl[j - 1] != b);
                    }
                }
            },
        }
    }
}

/// The position of the first occurrence of `b` in `text`.
pub fn find_byte_exec(text: &[u8], b: u8) -> (r: Option<usize>)
    ensures
        match r {
            Option::Some(i) => find_byte(text@, b) == Option::Some(i as int) && i < text@.len(),
            Option::None => find_byte(text@, b) is None,
        },
{
    proof {
        lemma_find_byte(text@, b);
    }
    let mut i: usize = 0;
    while i < text.len()
        invariant
            0 <= i <= text@.len(),
            forall|j: int| 0 <= j < i ==> text@[j] != b,
            match find_byte(text@, b) {
                Option::Some(k) => 0 <= k < text@.len() && text@[k] == b && (forall|j: int|
                    0 <= j < k ==> text@[j] != b),
                Option::None => forall|j: int| 0 <= j < text@.len() ==> text@[j] != b,
            },
        decreases text@.len() - i,
    {
        if text[i] == b {
            proof {
                assert(find_byte(text@, b) is Some);
                let k = find_byte(text@, b)->Some_0;
                assert(!(k < i) && !(i < k));
            }
            return Some(i);
        }
        i = i + 1;
    }
    proof {
        if find_byte(text@, b) is Some {
            let k = find_byte(text@, b)->Some_0;
            assert(text@[k] != b);
        }
    }
    None
}

/// The position of the last occurrence of byte `b` in `text`.
pub open spec fn rfind_byte(text: Seq<u8>, b: u8) -> Option<int>
    decreases text.len(),
{
    if text.len() == 0 {
        Option::None
    } else if text[text.len() - 1] == b {
        Option::Some(text.len() - 1)
    } else {
        rfind_byte(text.drop_last(), b)
    }
}

/// The final path component of a name: everything after the last slash.
pub open spec fn final_component(name: Seq<u8>) -> Seq<u8> {
    match rfind_byte(name, 47) {
        Option::Some(i) => name.skip(i + 1),
        Option::None => name,
    }
}

/// The extension of a file name: what follows the last dot of its final
/// component, and nothing when there is no dot or the component starts
/// with its only dot.
pub open spec fn ext_of(name: Seq<u8>) -> Option<Seq<u8>> {
    let base = final_component(name);
    match rfind_byte(base, 46) {
        Option::Some(i) => if i == 0 {
            Option::None
        } else {
            Option::Some(base.skip(i + 1))
        },
        Option::None => Option::None,
    }
}

/// The position of the last occurrence of `b` in `text`.
pub fn rfind_byte_exec(text: &[u8], b: u8) -> (r: Option<usize>)
    ensures
        match r {
            Option::Some(i) => rfind_byte(text@, b) == Option::Some(i as int) && i < text@.len(),
            Option::None => rfind_byte(text@, b) is None,
        },
{
    let mut k: usize = text.len();
    proof {
        assert(text@.subrange(0, text@.len() as int) =~= text@);
    }
    while k > 0
        invariant
            0 <= k <= text@.len(),
            rfind_byte(text@, b) == rfind_byte(text@.subrange(0, k as int), b),
        decreases k,
    {
        if text[k - 1] == b {
            proof {
                let pre = text@.subrange(0, k as int);
                assert(pre[pre.len() - 1] == b);
                assert(rfind_byte(pre, b) == Option::Some(k - 1));
            }
            return Some(k - 1);
        }
        proof {
            let pre = text@.subrange(0, k as int);
            assert(pre[pre.len() - 1] != b);
            assert(pre.drop_last() =~= text@.subrange(0, k - 1));
        }
        k = k - 1;
    }
    proof {
        assert(text@.subrange(0, 0) =~= Seq::<u8>::empty());
    }
    None
}

/// The extension of a file name, lower-cased; nothing when it has none.
pub fn ext_of_lower(name: &[u8]) -> (r: Option<Vec<u8>>)
    ensures
        match r {
            Option::Some(e) => ext_of(name@) is Some && e@ == ascii_lower(ext_of(name@)->Some_0),
            Option::None => ext_of(name@) is None,
        },
{
    let n: usize = name.len();
    let base_start: usize = match rfind_byte_exec(name, 47) {
        Some(i) => i + 1,
        None => 0,
    };
    let base = &name[base_start..name.len()];
    proof {
        assert(base@ =~= final_component(name@));
    }
    match rfind_byte_exec(base, 46) {
        Some(i) => {
            if i == 0 {
                None
            } else {
                let e = &base[i + 1..base.len()];
                proof {
                    assert(e@ =~= final_component(name@).skip(i + 1));
                }
                Some(ascii_lower_bytes(e))
            }
        },
        None => None,
    }
}

/// The decimal digits of `n`, most significant first.
pub open spec fn dec_spec(n: nat) -> Seq<u8>
    decreases n,
{
    if n < 10 {
        seq![(48 + n) as u8]
    } else {
        dec_spec(n / 10) + seq![(48 + n % 10) as u8]
    }
}

/// Decimal digits are digit bytes.
pub proof fn lemma_dec_digits(n: nat)
    ensures
        dec_spec(n).len() > 0,
        forall|k: int| 0 <= k < dec_spec(n).len() ==> 48 <= #[trigger] dec_spec(n)[k] <= 57,
    decreases n,
{
    if n < 10 {
    } else {
        lemma_dec_digits(n / 10);
        assert forall|k: int| 0 <= k < dec_spec(n).len() implies 48 <= #[trigger] dec_spec(n)[k]
            <= 57 by {
            if k < dec_spec(n / 10).len() {
                assert(dec_spec(n)[k] == dec_spec(n / 10)[k]);
            } else {
                assert(dec_spec(n)[k] == (48 + n % 10) as u8);
            }
        }
    }
}

/// Formats `n` in decimal.
pub fn u64_dec(n: u64) -> (r: Vec<u8>)
    ensures
        r@ == dec_spec(n as nat),
    decreases n,
{
    if n < 10 {
        let mut v: Vec<u8> = Vec::new();
        v.push(48 + (n as u8));
        proof {
            assert(v@ =~= dec_spec(n as nat));
        }
        v
    } else {
        let mut v = u64_dec(n / 10);
        v.push(48 + ((n % 10) as u8));
        proof {
            assert(v@ =~= dec_spec(n as nat));
        }
        v
    }
}

} // verus!
