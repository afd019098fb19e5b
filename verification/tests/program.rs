use fluosubtraction_rust::program::{choose_tthindex, replace_all};

#[test]
fn given_tthindex_is_kept() {
    assert_eq!(choose_tthindex(Some(7), 1000), 7);
}

#[test]
fn default_tthindex_is_ninety_percent() {
    assert_eq!(choose_tthindex(None, 1000), 900);
    assert_eq!(choose_tthindex(None, 1234), 1110);
    assert_eq!(choose_tthindex(None, 0), 0);
}

#[test]
fn output_names() {
    let f = "data/sample.edf";
    assert_eq!(replace_all(f, ".edf", "_fluosub.edf"), b"data/sample_fluosub.edf".to_vec());
    assert_eq!(replace_all(f, ".edf", "_fluosub.xy"), b"data/sample_fluosub.xy".to_vec());
}

#[test]
fn replace_all_matches_str_replace() {
    for s in ["a.edf.edf", "no extension", ".edf", "x.ed", "..edff", "", "é.edf"] {
        assert_eq!(replace_all(s, ".edf", "_fluosub.edf"), s.replace(".edf", "_fluosub.edf").into_bytes());
    }
    assert_eq!(replace_all("aaaa", "aa", "b"), b"bb".to_vec());
    assert_eq!(replace_all("aaa", "aa", "b"), b"ba".to_vec());
}

#[test]
fn replace_by_itself_changes_nothing() {
    let s = "sample.edf.edf";
    assert_eq!(replace_all(s, ".edf", ".edf"), s.as_bytes().to_vec());
}

#[test]
fn output_name_ends_in_replacement() {
    for f in ["a.edf", ".edf", "x.edf.edf", "run_fluosub.edf", "é/b.edf"] {
        let out = String::from_utf8(replace_all(f, ".edf", "_fluosub.xy")).unwrap();
        assert!(out.ends_with("_fluosub.xy"), "{out}");
    }
}

#[test]
fn replace_all_output_is_utf8() {
    for s in ["ré.edf", "日本.edf.x", "a.edfé"] {
        assert!(String::from_utf8(replace_all(s, ".edf", "_fluosub.edf")).is_ok());
    }
}
