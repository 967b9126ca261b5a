use ferricula::pali::{expand, expansions_lowercased, glossary, has_pali, has_pali_lowercased};

#[test]
fn expand_pali_to_code() {
    let expanded = expand("anicca governs all memory");
    assert!(expanded.contains("decay"));
    assert!(expanded.contains("impermanence"));
}

#[test]
fn expand_code_to_pali() {
    let expanded = expand("the decay rate controls fidelity");
    assert!(expanded.contains("anicca"));
    assert!(expanded.contains("ojā"));
}

#[test]
fn expand_bidirectional() {
    let expanded = expand("consolidation implements saṅkhāra");
    // saṅkhāra → code terms
    assert!(expanded.contains("formation"));
    // consolidation → pali
    assert!(expanded.contains("saṅkhāra"));
}

#[test]
fn no_expansion_for_unknown() {
    let text = "the quick brown fox";
    let expanded = expand(text);
    assert_eq!(expanded, text); // no ` | ` appended
}

#[test]
fn expand_dream_to_bhavana() {
    let expanded = expand("dream cycle consolidation");
    assert!(expanded.contains("bhāvanā"));
    assert!(expanded.contains("saṅkhāra"));
}

#[test]
fn has_pali_detects() {
    assert!(has_pali("the anicca of all things"));
    assert!(has_pali("vedanā tags every memory"));
    assert!(!has_pali("the quick brown fox"));
}

#[test]
fn expand_exact_output_for_single_term() {
    assert_eq!(
        expand("sati"),
        "sati | recall search remember mindfulness attention"
    );
}

#[test]
fn expand_lists_each_term_once() {
    let expanded = expand("alpha alpha");
    let tail = expanded.split(" | ").nth(1).unwrap();
    let items: Vec<&str> = tail.split(' ').collect();
    assert_eq!(tail, "anicca (impermanence) jarā (aging)");
    assert_eq!(items.len(), 4);
}

#[test]
fn glossary_has_all_entries() {
    let g = glossary();
    assert_eq!(g.len(), 26);
    assert_eq!(g[0].0, "phassa");
    assert_eq!(g[25].1, "aggregate");
}

#[test]
fn expansions_follow_the_words_of_the_text() {
    assert_eq!(
        expand("the decay rate controls fidelity"),
        "the decay rate controls fidelity | anicca (impermanence) jarā (aging) ojā (nutriment)"
    );
}

#[test]
fn has_pali_ignores_english_meanings() {
    assert!(!has_pali("remind me"));
    assert!(!has_pali("a feeling of impermanence"));
    assert!(has_pali("ANICCA"));
}

#[test]
fn lowercase_text_expansions() {
    let exps = expansions_lowercased("anicca governs all memory");
    assert!(exps.contains(&"decay".to_string()));
    assert!(exps.contains(&"impermanence".to_string()));
    assert!(expansions_lowercased("nothing to see here").is_empty());
    assert!(has_pali_lowercased("the dukkha of it"));
    assert!(!has_pali_lowercased("the DUKKHA of it"));
    assert!(has_pali("the DUKKHA of it"));
}
