//! The template substitution engine.
//!
//! A format template is scanned once, left to right. Each placeholder token
//! `${name}` is replaced by the value that the substitution table maps `name`
//! to; a name outside the table, or a `${` with no closing `}`, is a hard
//! error carrying the offending name. A `$` not followed by `{` is ordinary
//! text. Specifications are stated over the template's UTF-8 bytes.

use vstd::prelude::*;
use vstd::utf8::{
    encode_utf8, encode_utf8_valid_utf8, decode_utf8_encode_utf8, is_char_boundary,
    is_char_boundary_iff_not_is_continuation_byte, partial_valid_utf8,
    partial_valid_utf8_extend_ascii_block, pop_first_scalar, valid_first_scalar, valid_utf8,
    valid_utf8_concat, valid_utf8_split,
};

use crate::errors::EditError;
use crate::search::{
    append_bytes, bytes_eq, find_byte_from, first_idx, lemma_first_idx, lemma_first_idx_is,
    lemma_first_idx_none, sub_to_vec, to_vec_bytes,
};
use crate::strconv::bytes_to_string;

verus! {

/// Value mapped to `name` by the entries of `tb` from index `i` on; the
/// first matching entry wins.
pub open spec fn lookup_from(tb: Seq<(Seq<u8>, Seq<u8>)>, i: int, name: Seq<u8>) -> Option<Seq<u8>>
    decreases tb.len() - i,
{
    if i < 0 || i >= tb.len() {
        None
    } else if tb[i].0 == name {
        Some(tb[i].1)
    } else {
        lookup_from(tb, i + 1, name)
    }
}

/// Value mapped to `name` by the table, if any.
pub open spec fn lookup(tb: Seq<(Seq<u8>, Seq<u8>)>, name: Seq<u8>) -> Option<Seq<u8>> {
    lookup_from(tb, 0, name)
}

/// The result of substituting every `${name}` token of `t` using `tb`:
/// the substituted text, or the first unrecognized (or unterminated)
/// placeholder name.
pub open spec fn subst_spec(t: Seq<u8>, tb: Seq<(Seq<u8>, Seq<u8>)>) -> Result<Seq<u8>, Seq<u8>>
    decreases t.len(),
{
    let d = first_idx(t, 36);
    if !(0 <= d < t.len()) {
        Ok(t)
    } else if d + 1 < t.len() && t[d + 1] == 123 {
        let rest = t.subrange(d + 2, t.len() as int);
        let j = first_idx(rest, 125);
        if !(0 <= j < rest.len()) {
            Err(rest)
        } else {
            let name = rest.subrange(0, j);
            match lookup(tb, name) {
                Some(v) => match subst_spec(rest.subrange(j + 1, rest.len() as int), tb) {
                    Ok(r) => Ok(t.subrange(0, d) + v + r),
                    Err(e) => Err(e),
                },
                None => Err(name),
            }
        }
    } else {
        match subst_spec(t.subrange(d + 1, t.len() as int), tb) {
            Ok(r) => Ok(t.subrange(0, d + 1) + r),
            Err(e) => Err(e),
        }
    }
}

/// The byte view of an executable substitution table.
pub open spec fn table_view(tb: Seq<(Vec<u8>, Vec<u8>)>) -> Seq<(Seq<u8>, Seq<u8>)> {
    tb.map_values(|p: (Vec<u8>, Vec<u8>)| (p.0@, p.1@))
}

/// The table's value for `name`, cloned out, by first match.
fn table_get(tb: &Vec<(Vec<u8>, Vec<u8>)>, i: usize, name: &Vec<u8>) -> (r: Option<Vec<u8>>)
    requires
        i <= tb@.len(),
    ensures
        match r {
            Some(v) => lookup_from(table_view(tb@), i as int, name@) == Some(v@),
            None => lookup_from(table_view(tb@), i as int, name@) is None,
        },
    decreases tb@.len() - i,
{
    if i >= tb.len() {
        None
    } else {
        if bytes_eq(tb[i].0.as_slice(), name.as_slice()) {
            assert(table_view(tb@)[i as int].0 == name@);
            Some(tb[i].1.clone())
        } else {
            assert(table_view(tb@)[i as int].0 != name@);
            table_get(tb, i + 1, name)
        }
    }
}

/// Substitution on the suffix of `t` that starts at `pos`.
fn subst_at(t: &[u8], pos: usize, tb: &Vec<(Vec<u8>, Vec<u8>)>) -> (r: Result<Vec<u8>, Vec<u8>>)
    requires
        pos <= t@.len(),
    ensures
        match r {
            Ok(v) => subst_spec(t@.subrange(pos as int, t@.len() as int), table_view(tb@)) == Ok::<
                Seq<u8>,
                Seq<u8>,
            >(v@),
            Err(e) => subst_spec(t@.subrange(pos as int, t@.len() as int), table_view(tb@))
                == Err::<Seq<u8>, Seq<u8>>(e@),
        },
    decreases t@.len() - pos,
{
    let ghost s = t@.subrange(pos as int, t@.len() as int);
    let n = t.len();
    match find_byte_from(t, 36, pos) {
        None => {
            proof {
                assert(forall|j: int| 0 <= j < s.len() ==> s[j] == t@[pos + j]);
                lemma_first_idx_none(s, 36);
            }
            Ok(sub_to_vec(t, pos, n))
        },
        Some(d) => {
            proof {
                assert(forall|j: int| 0 <= j < s.len() ==> s[j] == t@[pos + j]);
                lemma_first_idx_is(s, 36, d - pos);
            }
            let ghost sd = d - pos;
            if d + 1 < n && t[d + 1] == 123 {
                let ghost rest = s.subrange(sd + 2, s.len() as int);
                proof {
                    assert(rest =~= t@.subrange(d + 2, n as int));
                }
                match find_byte_from(t, 125, d + 2) {
                    None => {
                        proof {
                            assert(forall|j: int|
                                0 <= j < rest.len() ==> rest[j] == t@[d + 2 + j]);
                            lemma_first_idx_none(rest, 125);
                        }
                        Err(sub_to_vec(t, d + 2, n))
                    },
                    Some(k) => {
                        proof {
                            assert(forall|j: int|
                                0 <= j < rest.len() ==> rest[j] == t@[d + 2 + j]);
                            lemma_first_idx_is(rest, 125, k - (d + 2));
                        }
                        let ghost sk = k - (d + 2);
                        let name = sub_to_vec(t, d + 2, k);
                        proof {
                            assert(name@ =~= rest.subrange(0, sk));
                        }
                        match table_get(tb, 0, &name) {
                            None => Err(name),
                            Some(v) => {
                                proof {
                                    assert(rest.subrange(sk + 1, rest.len() as int) =~= t@.subrange(
                                        k + 1,
                                        n as int,
                                    ));
                                }
                                match subst_at(t, k + 1, tb) {
                                    Err(e) => Err(e),
                                    Ok(rtail) => {
                                        let mut out = sub_to_vec(t, pos, d);
                                        proof {
                                            assert(out@ =~= s.subrange(0, sd));
                                        }
                                        append_bytes(&mut out, v.as_slice());
                                        append_bytes(&mut out, rtail.as_slice());
                                        Ok(out)
                                    },
                                }
                            },
                        }
                    },
                }
            } else {
                proof {
                    assert(s.subrange(sd + 1, s.len() as int) =~= t@.subrange(d + 1, n as int));
                }
                match subst_at(t, d + 1, tb) {
                    Err(e) => Err(e),
                    Ok(rtail) => {
                        let mut out = sub_to_vec(t, pos, d + 1);
                        proof {
                            assert(out@ =~= s.subrange(0, sd + 1));
                        }
                        append_bytes(&mut out, rtail.as_slice());
                        Ok(out)
                    },
                }
            }
        },
    }
}

/// Substitutes every `${name}` token of `t` using the table, or fails with
/// the first unrecognized placeholder name; in the error case no output is
/// produced at all.
pub fn substitute_bytes(t: &[u8], tb: &Vec<(Vec<u8>, Vec<u8>)>) -> (r: Result<Vec<u8>, Vec<u8>>)
    ensures
        match r {
            Ok(v) => subst_spec(t@, table_view(tb@)) == Ok::<Seq<u8>, Seq<u8>>(v@),
            Err(e) => subst_spec(t@, table_view(tb@)) == Err::<Seq<u8>, Seq<u8>>(e@),
        },
{
    proof {
        assert(t@.subrange(0, t@.len() as int) =~= t@);
    }
    subst_at(t, 0, tb)
}

/// A sequence of bytes below 0x80 is valid UTF-8.
pub proof fn lemma_valid_ascii(s: Seq<u8>)
    requires
        forall|i: int| 0 <= i < s.len() ==> s[i] < 128,
    ensures
        valid_utf8(s),
{
    assert(s.subrange(0, 0) =~= Seq::<u8>::empty());
    assert(partial_valid_utf8(s, 0));
    partial_valid_utf8_extend_ascii_block(s, 0, s.len() as int);
    assert(s.subrange(0, s.len() as int) =~= s);
}

/// Cutting a valid UTF-8 sequence just before or just after an ASCII byte
/// leaves valid pieces on both sides.
pub proof fn lemma_valid_cut_after_ascii(s: Seq<u8>, i: int)
    requires
        valid_utf8(s),
        0 <= i < s.len(),
        s[i] < 128,
    ensures
        valid_utf8(s.subrange(0, i)),
        valid_utf8(s.subrange(0, i + 1)),
        valid_utf8(s.subrange(i + 1, s.len() as int)),
{
    is_char_boundary_iff_not_is_continuation_byte(s, i);
    valid_utf8_split(s, i);
    let suf = s.subrange(i, s.len() as int);
    assert(valid_utf8(suf));
    assert(valid_first_scalar(suf));
    assert(pop_first_scalar(suf) =~= s.subrange(i + 1, s.len() as int));
    assert(valid_utf8(s.subrange(i + 1, s.len() as int)));
    lemma_valid_ascii(s.subrange(i, i + 1));
    valid_utf8_concat(s.subrange(0, i), s.subrange(i, i + 1));
    assert(s.subrange(0, i) + s.subrange(i, i + 1) =~= s.subrange(0, i + 1));
}

proof fn lemma_lookup_valid(tb: Seq<(Seq<u8>, Seq<u8>)>, i: int, name: Seq<u8>)
    requires
        forall|k: int| 0 <= k < tb.len() ==> valid_utf8(#[trigger] tb[k].1),
    ensures
        lookup_from(tb, i, name) matches Some(v) ==> valid_utf8(v),
    decreases tb.len() - i,
{
    if 0 <= i < tb.len() {
        lemma_lookup_valid(tb, i + 1, name);
    }
}

/// Substitution of valid UTF-8 text by valid UTF-8 values yields valid
/// UTF-8, on both the success and the failure side.
pub proof fn lemma_subst_valid(t: Seq<u8>, tb: Seq<(Seq<u8>, Seq<u8>)>)
    requires
        valid_utf8(t),
        forall|k: int| 0 <= k < tb.len() ==> valid_utf8(#[trigger] tb[k].1),
    ensures
        match subst_spec(t, tb) {
            Ok(v) => valid_utf8(v),
            Err(e) => valid_utf8(e),
        },
    decreases t.len(),
{
    lemma_first_idx(t, 36);
    let d = first_idx(t, 36);
    if !(0 <= d < t.len()) {
    } else if d + 1 < t.len() && t[d + 1] == 123 {
        lemma_valid_cut_after_ascii(t, d);
        let r1 = t.subrange(d + 1, t.len() as int);
        let rest = t.subrange(d + 2, t.len() as int);
        assert(r1[0] == 123);
        lemma_valid_cut_after_ascii(r1, 0);
        assert(r1.subrange(1, r1.len() as int) =~= rest);
        assert(valid_utf8(rest));
        lemma_first_idx(rest, 125);
        let j = first_idx(rest, 125);
        if !(0 <= j < rest.len()) {
        } else {
            lemma_valid_cut_after_ascii(rest, j);
            let name = rest.subrange(0, j);
            match lookup(tb, name) {
                Some(v) => {
                    lemma_lookup_valid(tb, 0, name);
                    let tail = rest.subrange(j + 1, rest.len() as int);
                    lemma_subst_valid(tail, tb);
                    match subst_spec(tail, tb) {
                        Ok(r) => {
                            valid_utf8_concat(t.subrange(0, d), v);
                            valid_utf8_concat(t.subrange(0, d) + v, r);
                        },
                        Err(_) => {},
                    }
                },
                None => {},
            }
        }
    } else {
        lemma_valid_cut_after_ascii(t, d);
        let tail = t.subrange(d + 1, t.len() as int);
        lemma_subst_valid(tail, tb);
        match subst_spec(tail, tb) {
            Ok(r) => {
                valid_utf8_concat(t.subrange(0, d + 1), r);
            },
            Err(_) => {},
        }
    }
}

/// The decimal digits of `n`, most significant first.
pub open spec fn dec_digits(n: nat) -> Seq<u8>
    decreases n,
{
    if n < 10 {
        seq![(48 + n) as u8]
    } else {
        dec_digits(n / 10).push((48 + n % 10) as u8)
    }
}

/// What the `position` placeholder resolves to for a book at 0-based
/// position `order` in its series: the decimal of `order + 1`, zero-padded
/// on the left to at least two digits.
pub open spec fn position_text(order: nat) -> Seq<u8> {
    let d = dec_digits(order + 1);
    if d.len() < 2 {
        seq![48u8] + d
    } else {
        d
    }
}

pub proof fn lemma_dec_digits_ascii(n: nat)
    ensures
        forall|i: int|
            0 <= i < dec_digits(n).len() ==> 48 <= #[trigger] dec_digits(n)[i] <= 57,
    decreases n,
{
    if n >= 10 {
        lemma_dec_digits_ascii(n / 10);
        let d = dec_digits(n / 10);
        assert(dec_digits(n) == d.push((48 + n % 10) as u8));
        assert forall|i: int| 0 <= i < dec_digits(n).len() implies 48 <= #[trigger] dec_digits(
            n,
        )[i] <= 57 by {
            if i < d.len() {
                assert(dec_digits(n)[i] == d[i]);
            } else {
                assert(dec_digits(n)[i] == (48 + n % 10) as u8);
            }
        }
    }
}

/// The `position` substitution is always zero-padded to width two or more,
/// and is made of decimal digits only.
pub proof fn lemma_position_min_width(order: nat)
    ensures
        position_text(order).len() >= 2,
        forall|i: int|
            0 <= i < position_text(order).len() ==> 48 <= #[trigger] position_text(order)[i]
                <= 57,
{
    lemma_dec_digits_ascii(order + 1);
}

fn dec_digits_exec(n: usize) -> (r: Vec<u8>)
    ensures
        r@ == dec_digits(n as nat),
    decreases n,
{
    if n < 10 {
        let mut r: Vec<u8> = Vec::new();
        r.push(48 + n as u8);
        proof {
            assert(r@ =~= dec_digits(n as nat));
        }
        r
    } else {
        let mut r = dec_digits_exec(n / 10);
        r.push(48 + (n % 10) as u8);
        proof {
            assert(r@ =~= dec_digits(n as nat));
        }
        r
    }
}

/// The `position` replacement text for a 0-based order.
pub fn position_bytes(order: usize) -> (r: Vec<u8>)
    requires
        order < usize::MAX,
    ensures
        r@ == position_text(order as nat),
{
    let d = dec_digits_exec(order + 1);
    if d.len() < 2 {
        let mut r: Vec<u8> = Vec::new();
        r.push(48);
        append_bytes(&mut r, d.as_slice());
        proof {
            assert(r@ =~= position_text(order as nat));
        }
        r
    } else {
        d
    }
}

/// The substitution table of this domain: `position`, `title` and `series`.
pub open spec fn std_table(pos: Seq<u8>, title: Seq<char>, series: Seq<char>) -> Seq<
    (Seq<u8>, Seq<u8>),
> {
    seq![
        (encode_utf8("position"@), pos),
        (encode_utf8("title"@), encode_utf8(title)),
        (encode_utf8("series"@), encode_utf8(series)),
    ]
}

/// What resolving a book's naming format yields: the format template with
/// `${position}`, `${title}` and `${series}` substituted, or the first
/// unrecognized placeholder name.
pub open spec fn resolved_spec(
    format: Seq<char>,
    order: nat,
    title: Seq<char>,
    series: Seq<char>,
) -> Result<Seq<u8>, Seq<u8>> {
    subst_spec(encode_utf8(format), std_table(position_text(order), title, series))
}

/// Resolves the naming format for the book at 0-based position `order`,
/// failing exactly on an unrecognized placeholder, whose name the error
/// carries.
pub fn resolve_format(format: &str, order: usize, title: &str, series: &str) -> (r: Result<
    Vec<u8>,
    EditError,
>)
    requires
        order < usize::MAX,
    ensures
        match r {
            Ok(v) => resolved_spec(format@, order as nat, title@, series@) == Ok::<
                Seq<u8>,
                Seq<u8>,
            >(v@),
            Err(e) => resolved_spec(format@, order as nat, title@, series@) is Err && (e matches
            EditError::UnknownPlaceholder(s) && resolved_spec(
                format@,
                order as nat,
                title@,
                series@,
            ) == Err::<Seq<u8>, Seq<u8>>(encode_utf8(s@))),
        },
{
    let fb = format.as_bytes();
    let mut tb: Vec<(Vec<u8>, Vec<u8>)> = Vec::new();
    tb.push((to_vec_bytes("position".as_bytes()), position_bytes(order)));
    tb.push((to_vec_bytes("title".as_bytes()), to_vec_bytes(title.as_bytes())));
    tb.push((to_vec_bytes("series".as_bytes()), to_vec_bytes(series.as_bytes())));
    proof {
        assert(table_view(tb@) =~= std_table(position_text(order as nat), title@, series@));
    }
    match substitute_bytes(fb, &tb) {
        Ok(v) => Ok(v),
        Err(e) => {
            proof {
                encode_utf8_valid_utf8(format@);
                encode_utf8_valid_utf8(title@);
                encode_utf8_valid_utf8(series@);
                lemma_position_min_width(order as nat);
                lemma_valid_ascii(position_text(order as nat));
                assert(forall|k: int|
                    0 <= k < table_view(tb@).len() ==> valid_utf8(#[trigger] table_view(tb@)[k].1));
                lemma_subst_valid(fb@, table_view(tb@));
                assert(valid_utf8(e@));
            }
            match bytes_to_string(e) {
                Some(s) => {
                    proof {
                        decode_utf8_encode_utf8(
                            resolved_spec(format@, order as nat, title@, series@)->Err_0,
                        );
                    }
                    Err(EditError::UnknownPlaceholder(s))
                },
                None => {
                    proof {
                        assert(false);
                    }
                    Err(EditError::IoError)
                },
            }
        },
    }
}


/// The default naming format resolves, for every position, title and
/// series, to the series name, the padded position in parentheses, a dash,
/// and the title — exactly `series (NN) - title`.
#[verifier::rlimit(100)]
pub proof fn lemma_default_format_resolves(order: nat, title: Seq<char>, series: Seq<char>)
    ensures
        resolved_spec("${series} (${position}) - ${title}"@, order, title, series) == Ok::<
            Seq<u8>,
            Seq<u8>,
        >(
            encode_utf8(series) + encode_utf8(" ("@) + position_text(order) + encode_utf8(") - "@)
                + encode_utf8(title),
        ),
{
    reveal_strlit("${series} (${position}) - ${title}");
    reveal_strlit(" (");
    reveal_strlit(") - ");
    reveal_strlit("position");
    reveal_strlit("title");
    reveal_strlit("series");
    let f = "${series} (${position}) - ${title}"@;
    assert(vstd::utf8::is_ascii_chars(f));
    vstd::utf8::is_ascii_chars_encode_utf8(f);
    assert(vstd::utf8::is_ascii_chars("position"@));
    vstd::utf8::is_ascii_chars_encode_utf8("position"@);
    assert(vstd::utf8::is_ascii_chars("title"@));
    vstd::utf8::is_ascii_chars_encode_utf8("title"@);
    assert(vstd::utf8::is_ascii_chars("series"@));
    vstd::utf8::is_ascii_chars_encode_utf8("series"@);
    assert(vstd::utf8::is_ascii_chars(" ("@));
    vstd::utf8::is_ascii_chars_encode_utf8(" ("@);
    assert(vstd::utf8::is_ascii_chars(") - "@));
    vstd::utf8::is_ascii_chars_encode_utf8(") - "@);
    let t = encode_utf8(f);
    let tb = std_table(position_text(order), title, series);
    assert(t.len() == 34);
    assert(forall|i: int| 0 <= i < 34 ==> #[trigger] t[i] == f[i] as u8);

    // Token 1: `${series}` at the very front.
    lemma_first_idx_is(t, 36, 0);
    let rest1 = t.subrange(2, 34);
    assert forall|j: int| 0 <= j < 6 implies rest1[j] != 125u8 by {
        assert(rest1[j] == t[2 + j]);
    }
    assert(rest1[6] == t[8]);
    lemma_first_idx_is(rest1, 125, 6);
    let name1 = rest1.subrange(0, 6);
    assert(name1 =~= encode_utf8("series"@));
    assert(encode_utf8("position"@).len() == 8);
    assert(encode_utf8("title"@).len() == 5);
    assert(lookup_from(tb, 0, name1) == lookup_from(tb, 1, name1));
    assert(lookup_from(tb, 1, name1) == lookup_from(tb, 2, name1));
    assert(lookup(tb, name1) == Some(encode_utf8(series)));
    let s2 = rest1.subrange(7, 32);
    assert(s2 =~= t.subrange(9, 34));

    // Token 2: `${position}` after the literal ` (`.
    assert forall|j: int| 0 <= j < 2 implies s2[j] != 36u8 by {
        assert(s2[j] == t[9 + j]);
    }
    assert(s2[2] == t[11]);
    lemma_first_idx_is(s2, 36, 2);
    assert(s2[3] == t[12]);
    let rest2 = s2.subrange(4, 25);
    assert(rest2 =~= t.subrange(13, 34));
    assert forall|j: int| 0 <= j < 8 implies rest2[j] != 125u8 by {
        assert(rest2[j] == t[13 + j]);
    }
    assert(rest2[8] == t[21]);
    lemma_first_idx_is(rest2, 125, 8);
    let name2 = rest2.subrange(0, 8);
    assert(name2 =~= encode_utf8("position"@));
    assert(lookup(tb, name2) == Some(position_text(order)));
    let s3 = rest2.subrange(9, 21);
    assert(s3 =~= t.subrange(22, 34));

    // Token 3: `${title}` after the literal `) - `.
    assert forall|j: int| 0 <= j < 4 implies s3[j] != 36u8 by {
        assert(s3[j] == t[22 + j]);
    }
    assert(s3[4] == t[26]);
    lemma_first_idx_is(s3, 36, 4);
    assert(s3[5] == t[27]);
    let rest3 = s3.subrange(6, 12);
    assert(rest3 =~= t.subrange(28, 34));
    assert forall|j: int| 0 <= j < 5 implies rest3[j] != 125u8 by {
        assert(rest3[j] == t[28 + j]);
    }
    assert(rest3[5] == t[33]);
    lemma_first_idx_is(rest3, 125, 5);
    let name3 = rest3.subrange(0, 5);
    assert(name3 =~= encode_utf8("title"@));
    assert(lookup_from(tb, 0, name3) == lookup_from(tb, 1, name3));
    assert(lookup(tb, name3) == Some(encode_utf8(title)));
    let s4 = rest3.subrange(6, 6);
    assert(s4.len() == 0);

    // Nothing follows the last token.
    lemma_first_idx_none(s4, 36);
    assert(subst_spec(s4, tb) == Ok::<Seq<u8>, Seq<u8>>(s4));
    let r3 = s3.subrange(0, 4) + encode_utf8(title) + s4;
    assert(subst_spec(s3, tb) == Ok::<Seq<u8>, Seq<u8>>(r3));
    let r2 = s2.subrange(0, 2) + position_text(order) + r3;
    assert(subst_spec(s2, tb) == Ok::<Seq<u8>, Seq<u8>>(r2));
    let r1 = t.subrange(0, 0) + encode_utf8(series) + r2;
    assert(subst_spec(t, tb) == Ok::<Seq<u8>, Seq<u8>>(r1));
    assert(s3.subrange(0, 4) =~= encode_utf8(") - "@));
    assert(s2.subrange(0, 2) =~= encode_utf8(" ("@));
    assert(r1 =~= encode_utf8(series) + encode_utf8(" ("@) + position_text(order) + encode_utf8(
        ") - "@,
    ) + encode_utf8(title));
}

} // verus!
