use ebook_meta_editor::errors::EditError;
use ebook_meta_editor::substitute::{position_bytes, resolve_format, substitute_bytes};

fn table(pairs: &[(&str, &str)]) -> Vec<(Vec<u8>, Vec<u8>)> {
    pairs
        .iter()
        .map(|(k, v)| (k.as_bytes().to_vec(), v.as_bytes().to_vec()))
        .collect()
}

#[test]
fn replaces_every_occurrence_once() {
    let tb = table(&[("a", "1"), ("b", "22")]);
    let r = substitute_bytes(b"x ${a} y ${b} ${a}!", &tb).unwrap();
    assert_eq!(r, b"x 1 y 22 1!".to_vec());
}

#[test]
fn unknown_placeholder_fails_with_its_name() {
    let tb = table(&[("a", "1")]);
    let r = substitute_bytes(b"pre ${nope} post", &tb);
    assert_eq!(r, Err(b"nope".to_vec()));
}

#[test]
fn unknown_placeholder_fails_even_after_known_ones() {
    let tb = table(&[("a", "1")]);
    let r = substitute_bytes(b"${a} then ${mystery}", &tb);
    assert_eq!(r, Err(b"mystery".to_vec()));
}

#[test]
fn unterminated_placeholder_fails() {
    let tb = table(&[("a", "1")]);
    let r = substitute_bytes(b"x ${a", &tb);
    assert_eq!(r, Err(b"a".to_vec()));
}

#[test]
fn lone_dollar_is_literal() {
    let tb = table(&[("a", "1")]);
    let r = substitute_bytes(b"cost: 5$ or $6", &tb).unwrap();
    assert_eq!(r, b"cost: 5$ or $6".to_vec());
}

#[test]
fn empty_template_stays_empty() {
    let tb = table(&[]);
    let r = substitute_bytes(b"", &tb).unwrap();
    assert_eq!(r, Vec::<u8>::new());
}

#[test]
fn empty_value_is_allowed() {
    let tb = table(&[("a", "")]);
    let r = substitute_bytes(b"[${a}]", &tb).unwrap();
    assert_eq!(r, b"[]".to_vec());
}

#[test]
fn position_is_zero_padded_to_two() {
    // 0-based order 1 renders as the 1-based position 2, padded to "02".
    assert_eq!(position_bytes(1), b"02".to_vec());
    // 0-based order 11 renders as "12" with no extra padding.
    assert_eq!(position_bytes(11), b"12".to_vec());
    assert_eq!(position_bytes(0), b"01".to_vec());
    assert_eq!(position_bytes(99), b"100".to_vec());
}

#[test]
fn resolve_format_fills_all_three_fields() {
    let r = resolve_format("${series} (${position}) - ${title}", 0, "The Title", "Foo").unwrap();
    assert_eq!(r, b"Foo (01) - The Title".to_vec());
}

#[test]
fn resolve_format_reports_unknown_placeholder() {
    let r = resolve_format("${series_name}", 0, "T", "S");
    match r {
        Err(EditError::UnknownPlaceholder(name)) => assert_eq!(name, "series_name"),
        _ => panic!("expected an unknown-placeholder error"),
    }
}

#[test]
fn resolve_format_unicode_values_pass_through() {
    let r = resolve_format("${title} \u{2014} ${series}", 3, "T\u{e9}l\u{e9}", "S\u{fc}r").unwrap();
    assert_eq!(r, "T\u{e9}l\u{e9} \u{2014} S\u{fc}r".as_bytes().to_vec());
}
