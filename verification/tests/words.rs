use scripture_layout::words::words;

fn all(s: &str) -> Vec<String> {
    let mut pieces = words(s);
    let mut out = Vec::new();
    while let Some(piece) = pieces.next() {
        out.push(piece);
    }
    out
}

#[test]
fn words_are_cut_at_single_spaces() {
    assert_eq!(all("In the  beginning"), vec!["In", " ", "the", " ", " ", "beginning"]);
}

#[test]
fn words_of_an_empty_string_are_none() {
    assert!(all("").is_empty());
    let mut pieces = words("");
    assert_eq!(pieces.next(), None);
    assert_eq!(pieces.next(), None);
}

#[test]
fn spaces_at_the_ends_are_pieces() {
    assert_eq!(all(" a "), vec![" ", "a", " "]);
    assert_eq!(all("word"), vec!["word"]);
}

#[test]
fn only_the_space_character_cuts() {
    assert_eq!(all("a\tb c"), vec!["a\tb", " ", "c"]);
}
