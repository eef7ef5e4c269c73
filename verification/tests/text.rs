use phoenixdb::collection::text::tokenize;

#[test]
fn lowercases_splits_and_drops_stopwords() {
    assert_eq!(
        tokenize("The Quick, brown FOX — jumps!"),
        ["quick", "brown", "fox", "jump"]
    );
}

#[test]
fn plurals_are_stemmed_conservatively() {
    assert_eq!(
        tokenize("databases queries boxes"),
        ["database", "query", "boxe"]
    );
    assert_eq!(tokenize("class status bus"), ["class", "status", "bus"]);
}

#[test]
fn cjk_is_indexed_as_bigrams() {
    assert_eq!(tokenize("東京都"), ["東京", "京都"]);
    assert_eq!(tokenize("猫"), ["猫"]);
    assert_eq!(
        tokenize("rust 数据库 fast"),
        ["rust", "数据", "据库", "fast"]
    );
}

#[test]
fn other_scripts_and_numbers_work() {
    assert_eq!(tokenize("Привет мир 2024"), ["привет", "мир", "2024"]);
    assert_eq!(tokenize("café naïve"), ["café", "naïve"]);
}

#[test]
fn absurdly_long_tokens_are_skipped() {
    let long = "x".repeat(200);
    assert_eq!(tokenize(&format!("keep {long} this")), ["keep"]);
}

#[test]
fn separators_part_texts() {
    for (a, b) in [("red apples", "blue cars"), ("東京", "都"), ("", "x"), ("class ", " queries")] {
        for sep in [' ', '-', '\0', '—'] {
            let mut parts = tokenize(a);
            parts.extend(tokenize(b));
            assert_eq!(tokenize(&format!("{a}{sep}{b}")), parts, "{a}{sep}{b}");
        }
    }
    assert_ne!(tokenize("東京都"), tokenize("東京 都"), "no separator, no cut");
}

#[test]
fn no_term_holds_a_nul() {
    for text in ["a\0b", "\0", "İstanbul\0Straße", "東\0京"] {
        assert!(tokenize(text).iter().all(|t| !t.contains('\0')));
    }
    assert_eq!(tokenize("東\0京"), ["東", "京"]);
}
