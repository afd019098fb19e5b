use fluosubtraction_rust::functions::{bubblecake_fields, bubblepattern_fields, check_cake_extension, CakeReadError};
use fluosubtraction_rust::text::{split_spans, SPACE, TAB};

fn texts<'a>(s: &'a str, spans: &[(usize, usize)]) -> Vec<&'a str> {
    spans.iter().map(|&(a, b)| &s[a..b]).collect()
}

#[test]
fn split_spans_matches_str_split() {
    let s = "a b  c ";
    let spans = split_spans(s.as_bytes(), 0, s.len(), SPACE);
    assert_eq!(texts(s, &spans), s.split(' ').collect::<Vec<_>>());
    assert_eq!(spans, vec![(0, 1), (2, 3), (4, 4), (5, 6), (7, 7)]);
}

#[test]
fn split_spans_of_empty_text_is_one_empty_piece() {
    let spans = split_spans(b"", 0, 0, TAB);
    assert_eq!(spans, vec![(0, 0)]);
}

#[test]
fn split_spans_of_a_subrange() {
    let s = "xx1 2yy";
    let spans = split_spans(s.as_bytes(), 2, 5, SPACE);
    assert_eq!(spans, vec![(2, 3), (4, 5)]);
}

#[test]
fn split_law_on_concrete_text() {
    // k separators give k + 1 pieces, none holding a separator, and joining
    // them gives the text back.
    let s = "1.5\t2.5 3\t\t4";
    let spans = split_spans(s.as_bytes(), 0, s.len(), TAB);
    let pieces = texts(s, &spans);
    assert_eq!(pieces.len(), s.matches('\t').count() + 1);
    assert!(pieces.iter().all(|p| !p.contains('\t')));
    assert_eq!(pieces.join("\t"), s);
}

#[test]
fn extension_check_accepts_edf() {
    assert!(check_cake_extension("sample_001.edf").is_ok());
    assert!(check_cake_extension(".edf").is_ok());
}

#[test]
fn extension_check_refuses_others() {
    assert!(matches!(check_cake_extension("sample.cbf"), Err(CakeReadError)));
    assert!(matches!(check_cake_extension("edf"), Err(CakeReadError)));
    assert!(matches!(check_cake_extension("sample.EDF"), Err(CakeReadError)));
    assert!(matches!(check_cake_extension(""), Err(CakeReadError)));
}

#[test]
fn bubblepattern_columns() {
    let s = "10.0 100.0 1.0\t10.5 200.0 2.0\t11.0 300.0 3.0";
    let r = bubblepattern_fields(s);
    assert_eq!(texts(s, &r.tth), vec!["10.0", "10.5", "11.0"]);
    assert_eq!(texts(s, &r.intensity), vec!["100.0", "200.0", "300.0"]);
    assert_eq!(texts(s, &r.sigma), vec!["1.0", "2.0", "3.0"]);
    assert!(r.extra.is_empty());
}

#[test]
fn bubblepattern_short_and_long_points() {
    let s = "1 2\t3 4 5 6 7\t8";
    let r = bubblepattern_fields(s);
    assert_eq!(texts(s, &r.tth), vec!["1", "3", "8"]);
    assert_eq!(texts(s, &r.intensity), vec!["2", "4"]);
    assert_eq!(texts(s, &r.sigma), vec!["5"]);
    assert_eq!(texts(s, &r.extra), vec!["6", "7"]);
}

#[test]
fn bubblepattern_empty_field_has_one_empty_point() {
    let r = bubblepattern_fields("");
    assert_eq!(r.tth, vec![(0, 0)]);
    assert!(r.intensity.is_empty());
    assert!(r.sigma.is_empty());
}

#[test]
fn bubblepattern_one_position_per_point() {
    let s = "1 2 3\t4 5\t6\t7 8 9";
    let r = bubblepattern_fields(s);
    assert_eq!(r.tth.len(), s.matches('\t').count() + 1);
    assert!(r.sigma.len() <= r.intensity.len() && r.intensity.len() <= r.tth.len());
}

#[test]
fn bubblecake_four_values() {
    let s = "2.5 30.0 -180.0 180.0";
    let r = bubblecake_fields(s).unwrap();
    assert_eq!(&s[r.tth0.0..r.tth0.1], "2.5");
    assert_eq!(&s[r.tthend.0..r.tthend.1], "30.0");
    assert_eq!(&s[r.chi0.0..r.chi0.1], "-180.0");
    assert_eq!(&s[r.chiend.0..r.chiend.1], "180.0");
}

#[test]
fn bubblecake_ignores_what_follows() {
    let s = "1 2 3 4 5 junk";
    let r = bubblecake_fields(s).unwrap();
    assert_eq!(&s[r.chiend.0..r.chiend.1], "4");
}

#[test]
fn bubblecake_needs_four_values() {
    assert!(bubblecake_fields("1 2 3").is_none());
    assert!(bubblecake_fields("").is_none());
    assert!(bubblecake_fields("1\t2\t3\t4").is_none());
}

#[test]
fn values_past_the_third_are_ignored() {
    let s = "1 2 3 4 5\t6 7 8 9";
    let s2 = "1 2 3\t6 7 8";
    let (r, r2) = (bubblepattern_fields(s), bubblepattern_fields(s2));
    assert_eq!(texts(s, &r.tth), texts(s2, &r2.tth));
    assert_eq!(texts(s, &r.intensity), texts(s2, &r2.intensity));
    assert_eq!(texts(s, &r.sigma), texts(s2, &r2.sigma));
    assert_eq!(texts(s, &r.extra), vec!["4", "5", "9"]);
    assert!(r2.extra.is_empty());
}
