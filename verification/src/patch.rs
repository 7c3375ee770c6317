//! The metadata patcher.
//!
//! The metadata document is treated as text with two tag-delimited regions:
//! the content of the title element, and the value of the sort-title meta
//! tag's `content` attribute. Each region, when present, is replaced by the
//! resolved naming string; an absent region is a benign no-op. No byte
//! outside the two regions is altered: the result is stated as
//! prefix + value + suffix over the original bytes.

use vstd::prelude::*;

use crate::search::{
    append_bytes, find_byte_from, find_from, first_idx, lemma_first_idx_is, lemma_first_idx_none,
    lemma_sub_idx, lemma_sub_idx_is, lemma_sub_idx_none, match_at, sub_idx, sub_to_vec,
    to_vec_bytes,
};

verus! {

/// `"<dc:title"`: the opening of the title element.
pub open spec fn title_open() -> Seq<u8> {
    seq![60u8, 100u8, 99u8, 58u8, 116u8, 105u8, 116u8, 108u8, 101u8]
}

/// `"</dc:title"`: the closing of the title element.
pub open spec fn title_close() -> Seq<u8> {
    seq![60u8, 47u8, 100u8, 99u8, 58u8, 116u8, 105u8, 116u8, 108u8, 101u8]
}

/// `"title_sort"`: the marker of the sort-title meta tag.
pub open spec fn sort_key() -> Seq<u8> {
    seq![116u8, 105u8, 116u8, 108u8, 101u8, 95u8, 115u8, 111u8, 114u8, 116u8]
}

/// `"content=\""`: the opening of the sort-title value.
pub open spec fn sort_open() -> Seq<u8> {
    seq![99u8, 111u8, 110u8, 116u8, 101u8, 110u8, 116u8, 61u8, 34u8]
}

/// `"\"/>"`: the closing of the sort-title tag.
pub open spec fn sort_close() -> Seq<u8> {
    seq![34u8, 47u8, 62u8]
}

/// The half-open byte range of the title element's content: after the first
/// `>` that follows the first `"<dc:title"`, up to the following
/// `"</dc:title"`. `None` when any of the three marks is missing.
pub open spec fn title_region(doc: Seq<u8>) -> Option<(int, int)> {
    let a = sub_idx(doc, title_open());
    if a < 0 {
        None
    } else {
        let g = first_idx(doc.subrange(a + title_open().len(), doc.len() as int), 62u8);
        if g < 0 {
            None
        } else {
            let cs = a + title_open().len() + g + 1;
            let c = sub_idx(doc.subrange(cs, doc.len() as int), title_close());
            if c < 0 {
                None
            } else {
                Some((cs, cs + c))
            }
        }
    }
}

/// The half-open byte range of the sort-title value: after the first
/// `"content=\""` that follows the first `"title_sort"`, up to the
/// following `"\"/>"`. `None` when any of the three marks is missing.
pub open spec fn sort_region(doc: Seq<u8>) -> Option<(int, int)> {
    let a = sub_idx(doc, sort_key());
    if a < 0 {
        None
    } else {
        let o = sub_idx(doc.subrange(a + sort_key().len(), doc.len() as int), sort_open());
        if o < 0 {
            None
        } else {
            let cs = a + sort_key().len() + o + sort_open().len();
            let c = sub_idx(doc.subrange(cs, doc.len() as int), sort_close());
            if c < 0 {
                None
            } else {
                Some((cs, cs + c))
            }
        }
    }
}

/// `doc` with the byte range `r`, if any, replaced by `v`.
pub open spec fn replace_region(doc: Seq<u8>, r: Option<(int, int)>, v: Seq<u8>) -> Seq<u8> {
    match r {
        None => doc,
        Some((cs, ce)) => doc.subrange(0, cs) + v + doc.subrange(ce, doc.len() as int),
    }
}

/// `doc` with the title element's content replaced by `v`, when present.
pub open spec fn patched_title(doc: Seq<u8>, v: Seq<u8>) -> Seq<u8> {
    replace_region(doc, title_region(doc), v)
}

/// `doc` with the sort-title value replaced by `v`, when present.
pub open spec fn patched_sort(doc: Seq<u8>, v: Seq<u8>) -> Seq<u8> {
    replace_region(doc, sort_region(doc), v)
}

/// The full patch: title content first, then sort-title value, both set to
/// the same resolved string.
pub open spec fn patched_metadata(doc: Seq<u8>, v: Seq<u8>) -> Seq<u8> {
    patched_sort(patched_title(doc, v), v)
}

/// A region is always within the document, with its start not past its end.
pub proof fn lemma_title_region_bounds(doc: Seq<u8>)
    ensures
        title_region(doc) matches Some(r) ==> 0 <= r.0 <= r.1 <= doc.len(),
{
    lemma_sub_idx(doc, title_open());
    let a = sub_idx(doc, title_open());
    if a >= 0 {
        let after = doc.subrange(a + title_open().len(), doc.len() as int);
        crate::search::lemma_first_idx(after, 62u8);
        let g = first_idx(after, 62u8);
        if g >= 0 {
            let cs = a + title_open().len() + g + 1;
            let tail = doc.subrange(cs, doc.len() as int);
            lemma_sub_idx(tail, title_close());
            let c = sub_idx(tail, title_close());
            if c >= 0 {
                assert(c + title_close().len() <= tail.len());
            }
        }
    }
}

pub proof fn lemma_sort_region_bounds(doc: Seq<u8>)
    ensures
        sort_region(doc) matches Some(r) ==> 0 <= r.0 <= r.1 <= doc.len(),
{
    lemma_sub_idx(doc, sort_key());
    let a = sub_idx(doc, sort_key());
    if a >= 0 {
        let after = doc.subrange(a + sort_key().len(), doc.len() as int);
        lemma_sub_idx(after, sort_open());
        let o = sub_idx(after, sort_open());
        if o >= 0 {
            assert(o + sort_open().len() <= after.len());
            let cs = a + sort_key().len() + o + sort_open().len();
            let tail = doc.subrange(cs, doc.len() as int);
            lemma_sub_idx(tail, sort_close());
            let c = sub_idx(tail, sort_close());
            if c >= 0 {
                assert(c + sort_close().len() <= tail.len());
            }
        }
    }
}

/// Replacing a region with the exact bytes it already holds changes
/// nothing: a no-op-equivalent patch leaves the document byte-identical.
pub proof fn lemma_patch_noop(doc: Seq<u8>, v: Seq<u8>)
    requires
        title_region(doc) matches Some(r) ==> doc.subrange(r.0, r.1) == v,
        sort_region(doc) matches Some(r) ==> doc.subrange(r.0, r.1) == v,
    ensures
        patched_metadata(doc, v) == doc,
{
    lemma_title_region_bounds(doc);
    match title_region(doc) {
        None => {},
        Some((cs, ce)) => {
            assert(doc.subrange(0, cs) + v + doc.subrange(ce, doc.len() as int) =~= doc);
        },
    }
    assert(patched_title(doc, v) == doc);
    lemma_sort_region_bounds(doc);
    match sort_region(doc) {
        None => {},
        Some((cs, ce)) => {
            assert(doc.subrange(0, cs) + v + doc.subrange(ce, doc.len() as int) =~= doc);
        },
    }
}

/// The title element's marks stand wholly before the sort-title value: the
/// shape the metadata-document contract guarantees (one title element, one
/// separate sort-title meta tag after it).
pub open spec fn regions_separate(doc: Seq<u8>) -> bool {
    match (title_region(doc), sort_region(doc)) {
        (Some(tr), Some(sr)) => tr.1 + title_close().len() <= sr.0,
        _ => true,
    }
}

/// No-op round-trip law, title side: when the resolved value equals the
/// title element's current content, the full patch — whatever it does to
/// the sort-title value — leaves the title element and its content
/// byte-identical, at the same place.
#[verifier::rlimit(60)]
pub proof fn lemma_title_round_trip(doc: Seq<u8>, v: Seq<u8>)
    requires
        title_region(doc) matches Some(tr) && doc.subrange(tr.0, tr.1) == v,
        regions_separate(doc),
    ensures
        ({
            let t = patched_metadata(doc, v);
            match title_region(doc) {
                Some(tr) => title_region(t) == Some(tr) && t.subrange(tr.0, tr.1) == v,
                None => true,
            }
        }),
{
    lemma_title_region_bounds(doc);
    match title_region(doc) {
        None => {},
        Some((rs, re)) => {
            assert(doc.subrange(0, rs) + v + doc.subrange(re, doc.len() as int) =~= doc);
            assert(patched_title(doc, v) == doc);
            match sort_region(doc) {
                None => {
                    assert(patched_metadata(doc, v) == doc);
                },
                Some((c, d)) => {
                    lemma_sort_region_bounds(doc);
                    let t = patched_metadata(doc, v);
                    assert(t == doc.subrange(0, c) + v + doc.subrange(d, doc.len() as int));
                    assert(forall|j: int| 0 <= j < c ==> t[j] == doc[j]);
                    // Unpack how the title region of `doc` was found.
                    lemma_sub_idx(doc, title_open());
                    let a = sub_idx(doc, title_open());
                    let m = title_open().len() as int;
                    let after = doc.subrange(a + m, doc.len() as int);
                    crate::search::lemma_first_idx(after, 62u8);
                    let g = first_idx(after, 62u8);
                    let cs = a + m + g + 1;
                    let tail = doc.subrange(cs, doc.len() as int);
                    lemma_sub_idx(tail, title_close());
                    let cl = sub_idx(tail, title_close());
                    let k = title_close().len() as int;
                    assert(rs == cs && re == cs + cl);
                    assert(cl + k <= tail.len());
                    assert(re + k <= c);
                    // Every byte the three searches inspected sits before
                    // `c`, where `t` and `doc` agree; so each search lands
                    // at the same spot in `t`.
                    // 1) the first title-open occurrence is unmoved
                    assert(t.subrange(a, a + m) =~= doc.subrange(a, a + m));
                    assert(match_at(t, title_open(), a));
                    assert forall|j: int| 0 <= j < a implies !match_at(t, title_open(), j) by {
                        if match_at(t, title_open(), j) {
                            assert(t.subrange(j, j + m) =~= doc.subrange(j, j + m));
                            assert(match_at(doc, title_open(), j));
                        }
                    }
                    lemma_sub_idx_is(t, title_open(), a);
                    // 2) the first `>` after it is unmoved
                    let tafter = t.subrange(a + m, t.len() as int);
                    assert(tafter[g] == t[a + m + g]);
                    assert(t[a + m + g] == doc[a + m + g]);
                    assert(after[g] == doc[a + m + g]);
                    assert forall|j: int| 0 <= j < g implies tafter[j] != 62u8 by {
                        assert(tafter[j] == t[a + m + j]);
                        assert(t[a + m + j] == doc[a + m + j]);
                        assert(after[j] == doc[a + m + j]);
                        assert(after[j] != 62u8);
                    }
                    crate::search::lemma_first_idx_is(tafter, 62u8, g);
                    // 3) the title-close occurrence is unmoved
                    let ttail = t.subrange(cs, t.len() as int);
                    assert(ttail.subrange(cl, cl + k) =~= t.subrange(cs + cl, cs + cl + k));
                    assert(t.subrange(cs + cl, cs + cl + k) =~= doc.subrange(cs + cl, cs + cl + k));
                    assert(doc.subrange(cs + cl, cs + cl + k) =~= tail.subrange(cl, cl + k));
                    assert(match_at(ttail, title_close(), cl));
                    assert forall|j: int| 0 <= j < cl implies !match_at(ttail, title_close(), j) by {
                        if match_at(ttail, title_close(), j) {
                            assert(ttail.subrange(j, j + k) =~= t.subrange(cs + j, cs + j + k));
                            assert(t.subrange(cs + j, cs + j + k) =~= doc.subrange(
                                cs + j,
                                cs + j + k,
                            ));
                            assert(doc.subrange(cs + j, cs + j + k) =~= tail.subrange(j, j + k));
                            assert(match_at(tail, title_close(), j));
                        }
                    }
                    lemma_sub_idx_is(ttail, title_close(), cl);
                    assert(title_region(t) == Some((cs, cs + cl)));
                    assert(t.subrange(cs, cs + cl) =~= doc.subrange(cs, cs + cl));
                },
            }
        },
    }
}

/// The executable title-open pattern.
fn pat_title_open() -> (r: Vec<u8>)
    ensures
        r@ == title_open(),
{
    let r = to_vec_bytes("<dc:title".as_bytes());
    proof {
        reveal_strlit("<dc:title");
        broadcast use vstd::string::is_ascii_spec_bytes;

        assert(vstd::string::is_ascii("<dc:title"));
        assert(r@ =~= title_open());
    }
    r
}

fn pat_title_close() -> (r: Vec<u8>)
    ensures
        r@ == title_close(),
{
    let r = to_vec_bytes("</dc:title".as_bytes());
    proof {
        reveal_strlit("</dc:title");
        broadcast use vstd::string::is_ascii_spec_bytes;

        assert(vstd::string::is_ascii("</dc:title"));
        assert(r@ =~= title_close());
    }
    r
}

fn pat_sort_key() -> (r: Vec<u8>)
    ensures
        r@ == sort_key(),
{
    let r = to_vec_bytes("title_sort".as_bytes());
    proof {
        reveal_strlit("title_sort");
        broadcast use vstd::string::is_ascii_spec_bytes;

        assert(vstd::string::is_ascii("title_sort"));
        assert(r@ =~= sort_key());
    }
    r
}

fn pat_sort_open() -> (r: Vec<u8>)
    ensures
        r@ == sort_open(),
{
    let r = to_vec_bytes("content=\"".as_bytes());
    proof {
        reveal_strlit("content=\"");
        broadcast use vstd::string::is_ascii_spec_bytes;

        assert(vstd::string::is_ascii("content=\""));
        assert(r@ =~= sort_open());
    }
    r
}

fn pat_sort_close() -> (r: Vec<u8>)
    ensures
        r@ == sort_close(),
{
    let r = to_vec_bytes("\"/>".as_bytes());
    proof {
        reveal_strlit("\"/>");
        broadcast use vstd::string::is_ascii_spec_bytes;

        assert(vstd::string::is_ascii("\"/>"));
        assert(r@ =~= sort_close());
    }
    r
}

/// Builds `doc[0..cs] + v + doc[ce..]`.
fn splice(doc: &[u8], cs: usize, ce: usize, v: &[u8]) -> (r: Vec<u8>)
    requires
        cs <= ce <= doc@.len(),
    ensures
        r@ == doc@.subrange(0, cs as int) + v@ + doc@.subrange(ce as int, doc@.len() as int),
{
    let mut r = sub_to_vec(doc, 0, cs);
    append_bytes(&mut r, v);
    let tail = sub_to_vec(doc, ce, doc.len());
    append_bytes(&mut r, tail.as_slice());
    r
}

/// Replaces the title element's content of `doc` with `v`; a document
/// without the title marks comes back unchanged.
pub fn patch_title(doc: &[u8], v: &[u8]) -> (r: Vec<u8>)
    ensures
        r@ == patched_title(doc@, v@),
{
    let dn = doc.len();
    let open = pat_title_open();
    let close = pat_title_close();
    match find_from(doc, open.as_slice(), 0) {
        None => {
            proof {
                lemma_sub_idx_none(doc@, title_open());
            }
            to_vec_bytes(doc)
        },
        Some(a) => {
            proof {
                lemma_sub_idx_is(doc@, title_open(), a as int);
            }
            let after = a + open.len();
            match find_byte_from(doc, 62u8, after) {
                None => {
                    proof {
                        let sub = doc@.subrange(after as int, doc@.len() as int);
                        assert(forall|j: int| 0 <= j < sub.len() ==> sub[j] == doc@[after + j]);
                        lemma_first_idx_none(sub, 62u8);
                    }
                    to_vec_bytes(doc)
                },
                Some(gp) => {
                    proof {
                        let sub = doc@.subrange(after as int, doc@.len() as int);
                        assert(forall|j: int| 0 <= j < sub.len() ==> sub[j] == doc@[after + j]);
                        lemma_first_idx_is(sub, 62u8, gp - after);
                    }
                    let cs = gp + 1;
                    match find_from(doc, close.as_slice(), cs) {
                        None => {
                            proof {
                                let tail = doc@.subrange(cs as int, doc@.len() as int);
                                assert forall|j: int|
                                    0 <= j < tail.len() + 1 implies !match_at(
                                    tail,
                                    title_close(),
                                    j,
                                ) by {
                                    if match_at(tail, title_close(), j) {
                                        assert(doc@.subrange(cs + j, cs + j + title_close().len())
                                            =~= tail.subrange(j, j + title_close().len()));
                                        assert(match_at(doc@, title_close(), cs + j));
                                    }
                                }
                                lemma_sub_idx_none(tail, title_close());
                            }
                            to_vec_bytes(doc)
                        },
                        Some(cp) => {
                            proof {
                                let tail = doc@.subrange(cs as int, doc@.len() as int);
                                assert(tail.subrange(
                                    cp - cs,
                                    cp - cs + title_close().len(),
                                ) =~= doc@.subrange(cp as int, cp + title_close().len()));
                                assert(match_at(tail, title_close(), cp - cs));
                                assert forall|j: int| 0 <= j < cp - cs implies !match_at(
                                    tail,
                                    title_close(),
                                    j,
                                ) by {
                                    if match_at(tail, title_close(), j) {
                                        assert(doc@.subrange(cs + j, cs + j + title_close().len())
                                            =~= tail.subrange(j, j + title_close().len()));
                                        assert(match_at(doc@, title_close(), cs + j));
                                    }
                                }
                                lemma_sub_idx_is(tail, title_close(), cp - cs);
                            }
                            splice(doc, cs, cp, v)
                        },
                    }
                },
            }
        },
    }
}

/// Replaces the sort-title value of `doc` with `v`; a document without the
/// sort-title marks comes back unchanged.
pub fn patch_sort(doc: &[u8], v: &[u8]) -> (r: Vec<u8>)
    ensures
        r@ == patched_sort(doc@, v@),
{
    let dn = doc.len();
    let key = pat_sort_key();
    let open = pat_sort_open();
    let close = pat_sort_close();
    match find_from(doc, key.as_slice(), 0) {
        None => {
            proof {
                lemma_sub_idx_none(doc@, sort_key());
            }
            to_vec_bytes(doc)
        },
        Some(a) => {
            proof {
                lemma_sub_idx_is(doc@, sort_key(), a as int);
            }
            let after = a + key.len();
            match find_from(doc, open.as_slice(), after) {
                None => {
                    proof {
                        let sub = doc@.subrange(after as int, doc@.len() as int);
                        assert forall|j: int| 0 <= j < sub.len() + 1 implies !match_at(
                            sub,
                            sort_open(),
                            j,
                        ) by {
                            if match_at(sub, sort_open(), j) {
                                assert(doc@.subrange(after + j, after + j + sort_open().len())
                                    =~= sub.subrange(j, j + sort_open().len()));
                                assert(match_at(doc@, sort_open(), after + j));
                            }
                        }
                        lemma_sub_idx_none(sub, sort_open());
                    }
                    to_vec_bytes(doc)
                },
                Some(op) => {
                    proof {
                        let sub = doc@.subrange(after as int, doc@.len() as int);
                        assert(sub.subrange(op - after, op - after + sort_open().len())
                            =~= doc@.subrange(op as int, op + sort_open().len()));
                        assert(match_at(sub, sort_open(), op - after));
                        assert forall|j: int| 0 <= j < op - after implies !match_at(
                            sub,
                            sort_open(),
                            j,
                        ) by {
                            if match_at(sub, sort_open(), j) {
                                assert(doc@.subrange(after + j, after + j + sort_open().len())
                                    =~= sub.subrange(j, j + sort_open().len()));
                                assert(match_at(doc@, sort_open(), after + j));
                            }
                        }
                        lemma_sub_idx_is(sub, sort_open(), op - after);
                    }
                    let cs = op + open.len();
                    match find_from(doc, close.as_slice(), cs) {
                        None => {
                            proof {
                                let tail = doc@.subrange(cs as int, doc@.len() as int);
                                assert forall|j: int|
                                    0 <= j < tail.len() + 1 implies !match_at(
                                    tail,
                                    sort_close(),
                                    j,
                                ) by {
                                    if match_at(tail, sort_close(), j) {
                                        assert(doc@.subrange(cs + j, cs + j + sort_close().len())
                                            =~= tail.subrange(j, j + sort_close().len()));
                                        assert(match_at(doc@, sort_close(), cs + j));
                                    }
                                }
                                lemma_sub_idx_none(tail, sort_close());
                            }
                            to_vec_bytes(doc)
                        },
                        Some(cp) => {
                            proof {
                                let tail = doc@.subrange(cs as int, doc@.len() as int);
                                assert(tail.subrange(
                                    cp - cs,
                                    cp - cs + sort_close().len(),
                                ) =~= doc@.subrange(cp as int, cp + sort_close().len()));
                                assert(match_at(tail, sort_close(), cp - cs));
                                assert forall|j: int| 0 <= j < cp - cs implies !match_at(
                                    tail,
                                    sort_close(),
                                    j,
                                ) by {
                                    if match_at(tail, sort_close(), j) {
                                        assert(doc@.subrange(cs + j, cs + j + sort_close().len())
                                            =~= tail.subrange(j, j + sort_close().len()));
                                        assert(match_at(doc@, sort_close(), cs + j));
                                    }
                                }
                                lemma_sub_idx_is(tail, sort_close(), cp - cs);
                            }
                            splice(doc, cs, cp, v)
                        },
                    }
                },
            }
        },
    }
}

/// Applies the full metadata patch: the title element's content and the
/// sort-title value are both set to the resolved string `v`; absent marks
/// are left alone, and no other byte of the document is altered.
pub fn patch_metadata(doc: &[u8], v: &[u8]) -> (r: Vec<u8>)
    ensures
        r@ == patched_metadata(doc@, v@),
{
    let t = patch_title(doc, v);
    patch_sort(t.as_slice(), v)
}

} // verus!
