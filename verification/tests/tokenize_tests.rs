use watchprice::tokenize::tokenize_watch_info;

#[test]
fn lowercases_and_strips_accents() {
    let t = tokenize_watch_info("A. Lange & Söhne");
    assert_eq!(t, vec!["a.", "lange", "sohne"]);
}

#[test]
fn drops_ampersand_words() {
    let t = tokenize_watch_info("Titanium & Carbotech");
    assert_eq!(t, vec!["titanium", "carbotech"]);
}

#[test]
fn strips_fsot_marker() {
    let t = tokenize_watch_info("FSOT: Rolex");
    // the marker strip removes the four letters and keeps the colon
    assert_eq!(t, vec![":", "rolex"]);
}

#[test]
fn strips_leading_parenthesis_and_dash() {
    let t = tokenize_watch_info("(mint -box");
    assert_eq!(t, vec!["mint", "box"]);
}

#[test]
fn trailing_punctuation_strips_two_characters() {
    // each trailing-punctuation strip removes two characters while the
    // word stays longer than two characters
    let t = tokenize_watch_info("set. watch,");
    assert_eq!(t, vec!["se", "watc"]);
}

#[test]
fn short_words_keep_their_punctuation() {
    let t = tokenize_watch_info("a. 41");
    assert_eq!(t, vec!["a.", "41"]);
}

#[test]
fn empty_input_yields_no_tokens() {
    let t = tokenize_watch_info("");
    assert!(t.is_empty());
    let t2 = tokenize_watch_info("   \t  ");
    assert!(t2.is_empty());
}
