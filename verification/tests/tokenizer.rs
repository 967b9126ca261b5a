use ferricula::text::is_whitespace;
use ferricula::tokenizer::{extract_terms, extract_terms_lowercased, stem, tokenize, tokenize_lowercased};

#[test]
fn tokenize_basic() {
    let tokens = tokenize("The Weber bracket departs from Newton");
    assert!(tokens.contains(&"weber".to_string()));
    assert!(tokens.contains(&"bracket".to_string()));
    assert!(tokens.contains(&"departs".to_string()));
    assert!(tokens.contains(&"newton".to_string()));
    // "the" and "from" are stopwords
    assert!(!tokens.contains(&"the".to_string()));
    assert!(!tokens.contains(&"from".to_string()));
}

#[test]
fn stem_plurals() {
    assert_eq!(stem("caresses"), "caress");
    assert_eq!(stem("ponies"), "poni");
    assert_eq!(stem("cats"), "cat");
}

#[test]
fn stem_past_tenses() {
    assert_eq!(stem("agreed"), "agre");
    assert_eq!(stem("plastered"), "plaster");
    assert_eq!(stem("hopping"), "hop");
    assert_eq!(stem("hoping"), "hope");
}

#[test]
fn stem_derivational() {
    assert_eq!(stem("relational"), "relat");
    assert_eq!(stem("conditional"), "condit");
    assert_eq!(stem("electrical"), "electr");
}

#[test]
fn extract_terms_pipeline() {
    let terms = extract_terms("The Weber bracket departs from Newton");
    assert!(terms.contains(&"weber".to_string()));
    assert!(terms.contains(&"bracket".to_string()));
    assert!(terms.contains(&"newton".to_string()));
    // "departs" should be stemmed to "depart"
    assert!(terms.contains(&"depart".to_string()));
}

#[test]
fn tokenize_exact_order_and_filtering() {
    let tokens = tokenize("A cat, the DOG; x yz!");
    assert_eq!(tokens, vec!["cat".to_string(), "dog".to_string(), "yz".to_string()]);
}

#[test]
fn stem_short_words_unchanged() {
    assert_eq!(stem("is"), "is");
    assert_eq!(stem("a"), "a");
}

#[test]
fn lowercase_text_tokens_and_terms() {
    assert_eq!(tokenize_lowercased("the weber bracket, from newton"), vec!["weber", "bracket", "newton"]);
    // Uppercase letters are kept as they are here: the caller lowercased.
    assert_eq!(tokenize_lowercased("Weber a x"), vec!["Weber"]);
    assert_eq!(extract_terms_lowercased("running dogs jumped"), vec!["run", "dog", "jump"]);
    assert_eq!(extract_terms("Running DOGS jumped"), extract_terms_lowercased("running dogs jumped"));
}

#[test]
fn whitespace_is_unicode_white_space() {
    for c in [' ', '\t', '\n', '\r', '\u{b}', '\u{c}', '\u{85}', '\u{a0}', '\u{2003}', '\u{3000}'] {
        assert!(is_whitespace(c));
        assert_eq!(is_whitespace(c), c.is_whitespace());
    }
    for c in ['a', '_', '\u{200b}', '\u{feff}', '0'] {
        assert!(!is_whitespace(c));
        assert_eq!(is_whitespace(c), c.is_whitespace());
    }
}
