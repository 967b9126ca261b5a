//! Word-level tokenizer and Porter stemmer for term extraction.
//!
//! Each stemming step is stated as a spec function over `Seq<char>`; the
//! executable steps are proved to compute exactly those functions.
use vstd::prelude::*;

use crate::text::{
    chars_eq_str, chars_of, char_alphanumeric, char_utf8_width, ends_with, is_alphanumeric,
    seq_ends_with, str_eq, str_lowercase, string_from_chars, to_lowercase, utf8_len, utf8_len_of,
};

verus! {

// ---------------------------------------------------------------------------
// Letter classes
// ---------------------------------------------------------------------------

pub open spec fn is_vowel_letter(c: char) -> bool {
    c == 'a' || c == 'e' || c == 'i' || c == 'o' || c == 'u'
}

/// Porter's consonant test: a letter other than a, e, i, o, u, and other than
/// a `y` preceded by a consonant.
pub open spec fn consonant_at(s: Seq<char>, i: int) -> bool
    decreases i,
{
    if is_vowel_letter(s[i]) {
        false
    } else if s[i] == 'y' {
        if i <= 0 {
            true
        } else {
            !consonant_at(s, i - 1)
        }
    } else {
        true
    }
}

/// Number of vowel-to-consonant boundaries among the first `n` letters.
pub open spec fn vc_count(s: Seq<char>, n: int) -> nat
    decreases n,
{
    if n <= 1 {
        0
    } else if !consonant_at(s, n - 2) && consonant_at(s, n - 1) {
        vc_count(s, n - 1) + 1
    } else {
        vc_count(s, n - 1)
    }
}

/// Porter's measure m: the number of VC sequences in `[C](VC)^m[V]`.
pub open spec fn measure_of(s: Seq<char>) -> nat {
    vc_count(s, s.len() as int)
}

pub open spec fn has_vowel_spec(s: Seq<char>) -> bool {
    exists|i: int| 0 <= i < s.len() && !#[trigger] consonant_at(s, i)
}

pub open spec fn ends_double_consonant_spec(s: Seq<char>) -> bool {
    s.len() >= 2 && s[s.len() - 1] == s[s.len() - 2] && consonant_at(s, s.len() - 1)
}

/// `*o`: the word ends consonant-vowel-consonant, the last not w, x or y.
pub open spec fn ends_cvc_spec(s: Seq<char>) -> bool {
    &&& s.len() >= 3
    &&& consonant_at(s, s.len() - 3)
    &&& !consonant_at(s, s.len() - 2)
    &&& consonant_at(s, s.len() - 1)
    &&& !(s[s.len() - 1] == 'w' || s[s.len() - 1] == 'x' || s[s.len() - 1] == 'y')
}

/// The word without the given suffix.
pub open spec fn strip(s: Seq<char>, suffix: Seq<char>) -> Seq<char> {
    s.subrange(0, s.len() - suffix.len())
}

pub open spec fn replace_spec(s: Seq<char>, suffix: Seq<char>, rep: Seq<char>) -> Seq<char> {
    strip(s, suffix) + rep
}

// ---------------------------------------------------------------------------
// Steps
// ---------------------------------------------------------------------------

pub open spec fn step1a_spec(s: Seq<char>) -> Seq<char> {
    if seq_ends_with(s, "sses"@) {
        replace_spec(s, "sses"@, "ss"@)
    } else if seq_ends_with(s, "ies"@) {
        replace_spec(s, "ies"@, "i"@)
    } else if !seq_ends_with(s, "ss"@) && seq_ends_with(s, "s"@) {
        s.drop_last()
    } else {
        s
    }
}

/// Repair after `-ed` / `-ing` was removed in step 1b.
pub open spec fn step1b_repair(t: Seq<char>) -> Seq<char> {
    if seq_ends_with(t, "at"@) || seq_ends_with(t, "bl"@) || seq_ends_with(t, "iz"@) {
        t.push('e')
    } else if ends_double_consonant_spec(t) && !(t.last() == 'l' || t.last() == 's' || t.last()
        == 'z') {
        t.drop_last()
    } else if measure_of(t) == 1 && ends_cvc_spec(t) {
        t.push('e')
    } else {
        t
    }
}

pub open spec fn step1b_spec(s: Seq<char>) -> Seq<char> {
    if seq_ends_with(s, "eed"@) {
        if measure_of(strip(s, "eed"@)) > 0 {
            replace_spec(s, "eed"@, "ee"@)
        } else {
            s
        }
    } else if seq_ends_with(s, "ed"@) {
        if has_vowel_spec(strip(s, "ed"@)) {
            step1b_repair(replace_spec(s, "ed"@, ""@))
        } else {
            s
        }
    } else if seq_ends_with(s, "ing"@) {
        if has_vowel_spec(strip(s, "ing"@)) {
            step1b_repair(replace_spec(s, "ing"@, ""@))
        } else {
            s
        }
    } else {
        s
    }
}

pub open spec fn step1c_spec(s: Seq<char>) -> Seq<char> {
    if seq_ends_with(s, "y"@) && has_vowel_spec(strip(s, "y"@)) {
        s.update(s.len() - 1, 'i')
    } else {
        s
    }
}

/// Apply the first rule (from index `i` on) whose suffix ends the word,
/// replacing it when the measure of the remaining stem exceeds `min_m`.
pub open spec fn first_rule(s: Seq<char>, rules: Seq<(&str, &str)>, i: int, min_m: nat) -> Seq<
    char,
>
    decreases rules.len() - i,
{
    if i < 0 || i >= rules.len() {
        s
    } else if seq_ends_with(s, rules[i].0@) {
        if measure_of(strip(s, rules[i].0@)) > min_m {
            replace_spec(s, rules[i].0@, rules[i].1@)
        } else {
            s
        }
    } else {
        first_rule(s, rules, i + 1, min_m)
    }
}

pub open spec fn step2_rules() -> Seq<(&'static str, &'static str)> {
    seq![
        ("ational", "ate"),
        ("tional", "tion"),
        ("enci", "ence"),
        ("anci", "ance"),
        ("izer", "ize"),
        ("abli", "able"),
        ("alli", "al"),
        ("entli", "ent"),
        ("eli", "e"),
        ("ousli", "ous"),
        ("ization", "ize"),
        ("ation", "ate"),
        ("ator", "ate"),
        ("alism", "al"),
        ("iveness", "ive"),
        ("fulness", "ful"),
        ("ousness", "ous"),
        ("aliti", "al"),
        ("iviti", "ive"),
        ("biliti", "ble"),
    ]
}

pub open spec fn step3_rules() -> Seq<(&'static str, &'static str)> {
    seq![
        ("icate", "ic"),
        ("ative", ""),
        ("alize", "al"),
        ("iciti", "ic"),
        ("ical", "ic"),
        ("ful", ""),
        ("ness", ""),
    ]
}

pub open spec fn step4_suffixes() -> Seq<&'static str> {
    seq![
        "al", "ance", "ence", "er", "ic", "able", "ible", "ant", "ement", "ment", "ent", "ion",
        "ou", "ism", "ate", "iti", "ous", "ive", "ize",
    ]
}

pub open spec fn step2_spec(s: Seq<char>) -> Seq<char> {
    first_rule(s, step2_rules(), 0, 0)
}

pub open spec fn step3_spec(s: Seq<char>) -> Seq<char> {
    first_rule(s, step3_rules(), 0, 0)
}

/// Step 4 from suffix index `i` on: remove the first matching suffix when the
/// stem has measure above one (`-ion` only after `s` or `t`).
pub open spec fn step4_from(s: Seq<char>, i: int) -> Seq<char>
    decreases step4_suffixes().len() - i,
{
    if i < 0 || i >= step4_suffixes().len() {
        s
    } else if seq_ends_with(s, step4_suffixes()[i]@) {
        let stem = strip(s, step4_suffixes()[i]@);
        if measure_of(stem) > 1 {
            if step4_suffixes()[i]@ == "ion"@ && stem.len() > 0 && stem.last() != 's'
                && stem.last() != 't' {
                s
            } else {
                replace_spec(s, step4_suffixes()[i]@, ""@)
            }
        } else {
            s
        }
    } else {
        step4_from(s, i + 1)
    }
}

pub open spec fn step4_spec(s: Seq<char>) -> Seq<char> {
    step4_from(s, 0)
}

pub open spec fn step5a_spec(s: Seq<char>) -> Seq<char> {
    if seq_ends_with(s, "e"@) {
        let m = measure_of(strip(s, "e"@));
        if m > 1 || (m == 1 && !ends_cvc_spec(strip(s, "e"@))) {
            s.drop_last()
        } else {
            s
        }
    } else {
        s
    }
}

pub open spec fn step5b_spec(s: Seq<char>) -> Seq<char> {
    if seq_ends_with(s, "ll"@) && measure_of(s) > 1 {
        s.drop_last()
    } else {
        s
    }
}

pub open spec fn step5_spec(s: Seq<char>) -> Seq<char> {
    step5b_spec(step5a_spec(s))
}

/// The Porter stem of a word.  Words of at most two bytes are kept as they are.
pub open spec fn stem_spec(w: Seq<char>) -> Seq<char> {
    if utf8_len(w) <= 2 {
        w
    } else {
        step5_spec(step4_spec(step3_spec(step2_spec(step1c_spec(step1b_spec(step1a_spec(w)))))))
    }
}

// ---------------------------------------------------------------------------
// Executable letter classes
// ---------------------------------------------------------------------------

fn is_consonant(s: &[char], i: usize) -> (r: bool)
    requires
        i < s.len(),
    ensures
        r == consonant_at(s@, i as int),
    decreases i,
{
    let c = s[i];
    if c == 'a' || c == 'e' || c == 'i' || c == 'o' || c == 'u' {
        false
    } else if c == 'y' {
        if i == 0 {
            true
        } else {
            !is_consonant(s, i - 1)
        }
    } else {
        true
    }
}

/// Measure m — number of VC sequences in the word.
fn measure(s: &[char]) -> (m: usize)
    ensures
        m == measure_of(s@),
{
    let n = s.len();
    let mut m: usize = 0;
    let mut i: usize = 1;
    if n == 0 {
        return 0;
    }
    while i < n
        invariant
            n == s.len(),
            1 <= i <= n,
            m == vc_count(s@, i as int),
            m <= i,
        decreases n - i,
    {
        if !is_consonant(s, i - 1) && is_consonant(s, i) {
            m = m + 1;
        }
        i = i + 1;
    }
    m
}

/// Does the stem contain a vowel?
fn has_vowel(s: &[char]) -> (r: bool)
    ensures
        r == has_vowel_spec(s@),
{
    let mut i: usize = 0;
    while i < s.len()
        invariant
            i <= s.len(),
            forall|j: int| 0 <= j < i ==> #[trigger] consonant_at(s@, j),
        decreases s.len() - i,
    {
        if !is_consonant(s, i) {
            return true;
        }
        i = i + 1;
    }
    false
}

/// Does the stem end with a double consonant?
fn ends_double_consonant(s: &[char]) -> (r: bool)
    ensures
        r == ends_double_consonant_spec(s@),
{
    let n = s.len();
    n >= 2 && s[n - 1] == s[n - 2] && is_consonant(s, n - 1)
}

/// *o — the stem ends cvc, where the second c is not w, x, or y.
fn ends_cvc(s: &[char]) -> (r: bool)
    ensures
        r == ends_cvc_spec(s@),
{
    let n = s.len();
    if n < 3 {
        return false;
    }
    is_consonant(s, n - 3) && !is_consonant(s, n - 2) && is_consonant(s, n - 1) && !(s[n - 1]
        == 'w' || s[n - 1] == 'x' || s[n - 1] == 'y')
}

/// The word with the given (present) suffix cut off.
fn without_suffix(s: &Vec<char>, suffix: &str) -> (r: Vec<char>)
    requires
        seq_ends_with(s@, suffix@),
    ensures
        r@ == strip(s@, suffix@),
{
    let slen = chars_of(suffix).len();
    let keep = s.len() - slen;
    let mut r: Vec<char> = Vec::new();
    let mut i: usize = 0;
    while i < keep
        invariant
            keep <= s.len(),
            i <= keep,
            keep == s@.len() - suffix@.len(),
            r@ == s@.subrange(0, i as int),
        decreases keep - i,
    {
        r.push(s[i]);
        assert(s@.subrange(0, i + 1) =~= s@.subrange(0, i as int).push(s@[i as int]));
        i = i + 1;
    }
    r
}

fn replace_suffix(s: &mut Vec<char>, suffix: &str, replacement: &str)
    requires
        seq_ends_with(old(s)@, suffix@),
    ensures
        final(s)@ == replace_spec(old(s)@, suffix@, replacement@),
{
    let slen = chars_of(suffix).len();
    let keep = s.len() - slen;
    s.truncate(keep);
    let rep = chars_of(replacement);
    let ghost base = s@;
    let mut i: usize = 0;
    while i < rep.len()
        invariant
            i <= rep.len(),
            base == strip(old(s)@, suffix@),
            s@ == base + rep@.subrange(0, i as int),
        decreases rep.len() - i,
    {
        s.push(rep[i]);
        assert(rep@.subrange(0, i + 1) =~= rep@.subrange(0, i as int).push(rep@[i as int]));
        assert(s@ =~= base + rep@.subrange(0, i + 1));
        i = i + 1;
    }
    assert(rep@.subrange(0, rep@.len() as int) =~= rep@);
}

/// Replace `suffix` by `replacement` when the word ends with it and the
/// remaining stem has measure above `min_m`.
fn replace_suffix_if(s: &mut Vec<char>, suffix: &str, replacement: &str, min_m: usize)
    ensures
        final(s)@ == (if seq_ends_with(old(s)@, suffix@) && measure_of(strip(old(s)@, suffix@))
            > min_m {
            replace_spec(old(s)@, suffix@, replacement@)
        } else {
            old(s)@
        }),
{
    if ends_with(s.as_slice(), suffix) {
        let stem_part = without_suffix(s, suffix);
        if measure(stem_part.as_slice()) > min_m {
            replace_suffix(s, suffix, replacement);
        }
    }
}

// ---------------------------------------------------------------------------
// Executable steps
// ---------------------------------------------------------------------------

// Step 1a: plurals
fn step1a(s: &mut Vec<char>)
    ensures
        final(s)@ == step1a_spec(old(s)@),
{
    if ends_with(s.as_slice(), "sses") {
        replace_suffix(s, "sses", "ss");
    } else if ends_with(s.as_slice(), "ies") {
        replace_suffix(s, "ies", "i");
    } else if !ends_with(s.as_slice(), "ss") && ends_with(s.as_slice(), "s") {
        proof {
            reveal_strlit("s");
        }
        s.pop();
    }
}

fn step1b_fix(s: &mut Vec<char>)
    ensures
        final(s)@ == step1b_repair(old(s)@),
{
    if ends_with(s.as_slice(), "at") {
        s.push('e');
    } else if ends_with(s.as_slice(), "bl") {
        s.push('e');
    } else if ends_with(s.as_slice(), "iz") {
        s.push('e');
    } else if ends_double_consonant(s.as_slice()) && !(s[s.len() - 1] == 'l' || s[s.len() - 1]
        == 's' || s[s.len() - 1] == 'z') {
        s.pop();
    } else if measure(s.as_slice()) == 1 && ends_cvc(s.as_slice()) {
        s.push('e');
    }
}

// Step 1b: -ed, -ing
fn step1b(s: &mut Vec<char>)
    ensures
        final(s)@ == step1b_spec(old(s)@),
{
    if ends_with(s.as_slice(), "eed") {
        let stem_part = without_suffix(s, "eed");
        if measure(stem_part.as_slice()) > 0 {
            replace_suffix(s, "eed", "ee");
        }
        return;
    }
    let mut did_trim = false;
    if ends_with(s.as_slice(), "ed") {
        let stem_part = without_suffix(s, "ed");
        if has_vowel(stem_part.as_slice()) {
            replace_suffix(s, "ed", "");
            did_trim = true;
        }
    } else if ends_with(s.as_slice(), "ing") {
        let stem_part = without_suffix(s, "ing");
        if has_vowel(stem_part.as_slice()) {
            replace_suffix(s, "ing", "");
            did_trim = true;
        }
    }
    if did_trim {
        step1b_fix(s);
    }
}

// Step 1c: y -> i
fn step1c(s: &mut Vec<char>)
    ensures
        final(s)@ == step1c_spec(old(s)@),
{
    if ends_with(s.as_slice(), "y") {
        let stem_part = without_suffix(s, "y");
        if has_vowel(stem_part.as_slice()) {
            proof {
                reveal_strlit("y");
            }
            let n = s.len();
            s.set(n - 1, 'i');
        }
    }
}

/// Apply the first matching rule of `rules`.
fn apply_rules(s: &mut Vec<char>, rules: &Vec<(&str, &str)>, min_m: usize)
    ensures
        final(s)@ == first_rule(old(s)@, rules@, 0, min_m as nat),
{
    let mut i: usize = 0;
    while i < rules.len()
        invariant
            i <= rules.len(),
            s@ == old(s)@,
            first_rule(old(s)@, rules@, 0, min_m as nat) == first_rule(
                old(s)@,
                rules@,
                i as int,
                min_m as nat,
            ),
        decreases rules.len() - i,
    {
        let (suffix, replacement) = rules[i];
        if ends_with(s.as_slice(), suffix) {
            let stem_part = without_suffix(s, suffix);
            if measure(stem_part.as_slice()) > min_m {
                replace_suffix(s, suffix, replacement);
            }
            return;
        }
        i = i + 1;
    }
}

// Step 2: derivational suffixes (m > 0)
fn step2(s: &mut Vec<char>)
    ensures
        final(s)@ == step2_spec(old(s)@),
{
    let rules: Vec<(&str, &str)> = vec![
        ("ational", "ate"),
        ("tional", "tion"),
        ("enci", "ence"),
        ("anci", "ance"),
        ("izer", "ize"),
        ("abli", "able"),
        ("alli", "al"),
        ("entli", "ent"),
        ("eli", "e"),
        ("ousli", "ous"),
        ("ization", "ize"),
        ("ation", "ate"),
        ("ator", "ate"),
        ("alism", "al"),
        ("iveness", "ive"),
        ("fulness", "ful"),
        ("ousness", "ous"),
        ("aliti", "al"),
        ("iviti", "ive"),
        ("biliti", "ble"),
    ];
    assert(rules@ =~= step2_rules());
    apply_rules(s, &rules, 0);
}

// Step 3: more derivational (m > 0)
fn step3(s: &mut Vec<char>)
    ensures
        final(s)@ == step3_spec(old(s)@),
{
    let rules: Vec<(&str, &str)> = vec![
        ("icate", "ic"),
        ("ative", ""),
        ("alize", "al"),
        ("iciti", "ic"),
        ("ical", "ic"),
        ("ful", ""),
        ("ness", ""),
    ];
    assert(rules@ =~= step3_rules());
    apply_rules(s, &rules, 0);
}

// Step 4: long suffixes (m > 1)
fn step4(s: &mut Vec<char>)
    ensures
        final(s)@ == step4_spec(old(s)@),
{
    let suffixes: Vec<&str> = vec![
        "al", "ance", "ence", "er", "ic", "able", "ible", "ant", "ement", "ment", "ent", "ion",
        "ou", "ism", "ate", "iti", "ous", "ive", "ize",
    ];
    assert(suffixes@ =~= step4_suffixes());
    let mut i: usize = 0;
    while i < suffixes.len()
        invariant
            i <= suffixes.len(),
            suffixes@ == step4_suffixes(),
            s@ == old(s)@,
            step4_spec(old(s)@) == step4_from(old(s)@, i as int),
        decreases suffixes.len() - i,
    {
        let suffix = suffixes[i];
        if ends_with(s.as_slice(), suffix) {
            let stem_part = without_suffix(s, suffix);
            if measure(stem_part.as_slice()) > 1 {
                // Special: -ion requires stem ending in s or t
                if str_eq(suffix, "ion") {
                    if stem_part.len() > 0 {
                        let c = stem_part[stem_part.len() - 1];
                        if c != 's' && c != 't' {
                            return;
                        }
                    }
                }
                replace_suffix(s, suffix, "");
            }
            return;
        }
        i = i + 1;
    }
}

// Step 5: cleanup
fn step5(s: &mut Vec<char>)
    ensures
        final(s)@ == step5_spec(old(s)@),
{
    // 5a: remove trailing e
    if ends_with(s.as_slice(), "e") {
        let stem_part = without_suffix(s, "e");
        let m = measure(stem_part.as_slice());
        if m > 1 || (m == 1 && !ends_cvc(stem_part.as_slice())) {
            proof {
                reveal_strlit("e");
            }
            s.pop();
        }
    }
    let ghost mid = s@;
    assert(mid == step5a_spec(old(s)@));
    // 5b: ll -> l if m > 1
    if ends_with(s.as_slice(), "ll") && measure(s.as_slice()) > 1 {
        proof {
            reveal_strlit("ll");
        }
        s.pop();
    }
}

// ---------------------------------------------------------------------------
// Tokenizer
// ---------------------------------------------------------------------------

pub open spec fn stopword_list() -> Seq<&'static str> {
    seq![
        "a", "about", "above", "after", "again", "against", "all", "am", "an", "and", "any",
        "are", "aren", "arent", "as", "at", "be", "because", "been", "before", "being", "below",
        "between", "both", "but", "by", "can", "cannot", "could", "couldn", "couldnt", "did",
        "didn", "didnt", "do", "does", "doesn", "doesnt", "doing", "don", "dont", "down",
        "during", "each", "few", "for", "from", "further", "get", "got", "had", "hadn", "hadnt",
        "has", "hasn", "hasnt", "have", "haven", "havent", "having", "he", "her", "here",
        "hers", "herself", "him", "himself", "his", "how", "if", "in", "into", "is", "isn",
        "isnt", "it", "its", "itself", "just", "ll", "me", "might", "more", "most", "mustn",
        "mustnt", "my", "myself", "need", "no", "nor", "not", "now", "of", "off", "on", "once",
        "only", "or", "other", "our", "ours", "ourselves", "out", "over", "own", "re", "same",
        "shan", "shant", "she", "should", "shouldn", "shouldnt", "so", "some", "such", "than",
        "that", "the", "their", "theirs", "them", "themselves", "then", "there", "these",
        "they", "this", "those", "through", "to", "too", "under", "until", "up", "ve", "very",
        "was", "wasn", "wasnt", "we", "were", "weren", "werent", "what", "when", "where",
        "which", "while", "who", "whom", "why", "will", "with", "won", "wont", "would",
        "wouldn", "wouldnt", "you", "your", "yours", "yourself", "yourselves",
    ]
}

pub open spec fn is_stopword_spec(w: Seq<char>) -> bool {
    exists|i: int| 0 <= i < stopword_list().len() && #[trigger] stopword_list()[i]@ == w
}

/// Pieces of `s` between characters that are not alphanumeric, empty pieces
/// included (as `str::split` yields them).
pub open spec fn split_pieces(s: Seq<char>) -> Seq<Seq<char>>
    decreases s.len(),
{
    if s.len() == 0 {
        seq![Seq::<char>::empty()]
    } else {
        let rest = split_pieces(s.drop_last());
        if !char_alphanumeric(s.last()) {
            rest.push(Seq::<char>::empty())
        } else {
            rest.update(rest.len() - 1, rest.last().push(s.last()))
        }
    }
}

/// A piece is a token when it has at least two bytes and is not a stopword.
pub open spec fn keep_token(w: Seq<char>) -> bool {
    utf8_len(w) >= 2 && !is_stopword_spec(w)
}

/// The tokens of a text: lowercase it, split at non-alphanumeric characters,
/// keep pieces of two or more bytes that are not stopwords.
pub open spec fn tokenize_spec(text: Seq<char>) -> Seq<Seq<char>> {
    lowercase_tokens(str_lowercase(text))
}

/// The tokens of an already lowercased text: its alphanumeric runs that are
/// kept.
pub open spec fn lowercase_tokens(lower: Seq<char>) -> Seq<Seq<char>> {
    split_pieces(lower).filter(|w: Seq<char>| keep_token(w))
}

/// The terms of an already lowercased text.
pub open spec fn lowercase_terms(lower: Seq<char>) -> Seq<Seq<char>> {
    lowercase_tokens(lower).map_values(|w: Seq<char>| stem_spec(w))
}

/// The terms of a text: the stems of its tokens.
pub open spec fn extract_terms_spec(text: Seq<char>) -> Seq<Seq<char>> {
    tokenize_spec(text).map_values(|w: Seq<char>| stem_spec(w))
}

proof fn lemma_split_pieces_nonempty(s: Seq<char>)
    ensures
        split_pieces(s).len() >= 1,
    decreases s.len(),
{
    if s.len() > 0 {
        lemma_split_pieces_nonempty(s.drop_last());
    }
}

fn stopwords() -> (r: Vec<&'static str>)
    ensures
        r@ == stopword_list(),
{
    let r: Vec<&'static str> = vec![
        "a", "about", "above", "after", "again", "against", "all", "am", "an", "and", "any",
        "are", "aren", "arent", "as", "at", "be", "because", "been", "before", "being", "below",
        "between", "both", "but", "by", "can", "cannot", "could", "couldn", "couldnt", "did",
        "didn", "didnt", "do", "does", "doesn", "doesnt", "doing", "don", "dont", "down",
        "during", "each", "few", "for", "from", "further", "get", "got", "had", "hadn", "hadnt",
        "has", "hasn", "hasnt", "have", "haven", "havent", "having", "he", "her", "here",
        "hers", "herself", "him", "himself", "his", "how", "if", "in", "into", "is", "isn",
        "isnt", "it", "its", "itself", "just", "ll", "me", "might", "more", "most", "mustn",
        "mustnt", "my", "myself", "need", "no", "nor", "not", "now", "of", "off", "on", "once",
        "only", "or", "other", "our", "ours", "ourselves", "out", "over", "own", "re", "same",
        "shan", "shant", "she", "should", "shouldn", "shouldnt", "so", "some", "such", "than",
        "that", "the", "their", "theirs", "them", "themselves", "then", "there", "these",
        "they", "this", "those", "through", "to", "too", "under", "until", "up", "ve", "very",
        "was", "wasn", "wasnt", "we", "were", "weren", "werent", "what", "when", "where",
        "which", "while", "who", "whom", "why", "will", "with", "won", "wont", "would",
        "wouldn", "wouldnt", "you", "your", "yours", "yourself", "yourselves",
    ];
    assert(r@ =~= stopword_list());
    r
}

fn is_stopword(stops: &Vec<&'static str>, w: &[char]) -> (r: bool)
    requires
        stops@ == stopword_list(),
    ensures
        r == is_stopword_spec(w@),
{
    let mut i: usize = 0;
    while i < stops.len()
        invariant
            stops@ == stopword_list(),
            i <= stops.len(),
            forall|j: int| 0 <= j < i ==> #[trigger] stopword_list()[j]@ != w@,
        decreases stops.len() - i,
    {
        if chars_eq_str(w, stops[i]) {
            return true;
        }
        i = i + 1;
    }
    false
}

fn keep(stops: &Vec<&'static str>, w: &[char]) -> (r: bool)
    requires
        stops@ == stopword_list(),
    ensures
        r == keep_token(w@),
{
    utf8_len_of(w) >= 2 && !is_stopword(stops, w)
}

/// Tokenize text into lowercase words, filtering stopwords and short tokens.
pub fn tokenize(text: &str) -> (r: Vec<String>)
    ensures
        r@.map_values(|t: String| t@) == tokenize_spec(text@),
{
    let lower_s = to_lowercase(text);
    tokenize_lowercased(lower_s.as_str())
}

/// Tokenize a text that is already lowercase: its alphanumeric runs, less
/// stopwords and tokens shorter than two bytes.
pub fn tokenize_lowercased(lower_text: &str) -> (r: Vec<String>)
    ensures
        r@.map_values(|t: String| t@) == lowercase_tokens(lower_text@),
{
    let stops = stopwords();
    let lower = chars_of(lower_text);
    let ghost keepf = |w: Seq<char>| keep_token(w);
    let mut out: Vec<String> = Vec::new();
    let mut cur: Vec<char> = Vec::new();
    let mut i: usize = 0;
    assert(lower@.subrange(0, 0) =~= Seq::<char>::empty());
    while i < lower.len()
        invariant
            stops@ == stopword_list(),
            i <= lower.len(),
            lower@ == lower_text@,
            keepf == (|w: Seq<char>| keep_token(w)),
            split_pieces(lower@.subrange(0, i as int)).len() >= 1,
            cur@ == split_pieces(lower@.subrange(0, i as int)).last(),
            out@.map_values(|t: String| t@) == split_pieces(
                lower@.subrange(0, i as int),
            ).drop_last().filter(keepf),
        decreases lower.len() - i,
    {
        let ghost p = split_pieces(lower@.subrange(0, i as int));
        let c = lower[i];
        assert(lower@.subrange(0, i + 1).drop_last() =~= lower@.subrange(0, i as int));
        assert(lower@.subrange(0, i + 1).last() == c);
        if !is_alphanumeric(c) {
            let ghost before = out@;
            if keep(&stops, cur.as_slice()) {
                let t = string_from_chars(cur.as_slice());
                out.push(t);
                proof {
                    before.lemma_push_map_commute(|t: String| t@, t);
                }
            }
            proof {
                p.drop_last().lemma_filter_push(p.last(), keepf);
                assert(p.drop_last().push(p.last()) =~= p);
                let np = split_pieces(lower@.subrange(0, i + 1));
                assert(np == p.push(Seq::<char>::empty()));
                assert(np.drop_last() =~= p);
            }
            cur = Vec::new();
        } else {
            cur.push(c);
            proof {
                let np = split_pieces(lower@.subrange(0, i + 1));
                assert(np == p.update(p.len() - 1, p.last().push(c)));
                assert(np.drop_last() =~= p.drop_last());
            }
        }
        proof {
            lemma_split_pieces_nonempty(lower@.subrange(0, i + 1));
        }
        i = i + 1;
    }
    let ghost p = split_pieces(lower@.subrange(0, i as int));
    assert(lower@.subrange(0, i as int) =~= lower@);
    let ghost before = out@;
    if keep(&stops, cur.as_slice()) {
        let t = string_from_chars(cur.as_slice());
        out.push(t);
        proof {
            before.lemma_push_map_commute(|t: String| t@, t);
        }
    }
    proof {
        p.drop_last().lemma_filter_push(p.last(), keepf);
        assert(p.drop_last().push(p.last()) =~= p);
    }
    out
}

/// Tokenize + stem: the primary pipeline for term extraction.
pub fn extract_terms(text: &str) -> (r: Vec<String>)
    ensures
        r@.map_values(|t: String| t@) == extract_terms_spec(text@),
{
    let lower_s = to_lowercase(text);
    extract_terms_lowercased(lower_s.as_str())
}

/// Tokenize + stem a text that is already lowercase.
pub fn extract_terms_lowercased(lower_text: &str) -> (r: Vec<String>)
    ensures
        r@.map_values(|t: String| t@) == lowercase_terms(lower_text@),
{
    let tokens = tokenize_lowercased(lower_text);
    let ghost toks = tokens@.map_values(|t: String| t@);
    let mut out: Vec<String> = Vec::new();
    let mut i: usize = 0;
    while i < tokens.len()
        invariant
            i <= tokens.len(),
            toks == tokens@.map_values(|t: String| t@),
            toks == lowercase_tokens(lower_text@),
            out@.map_values(|t: String| t@) =~= toks.subrange(0, i as int).map_values(
                |w: Seq<char>| stem_spec(w),
            ),
        decreases tokens.len() - i,
    {
        let s = stem(tokens[i].as_str());
        let ghost before = out@;
        out.push(s);
        proof {
            before.lemma_push_map_commute(|t: String| t@, s);
            assert(toks[i as int] == tokens@[i as int]@);
            assert(toks.subrange(0, i + 1) =~= toks.subrange(0, i as int).push(toks[i as int]));
            toks.subrange(0, i as int).lemma_push_map_commute(|w: Seq<char>| stem_spec(w), toks[i as int]);
        }
        i = i + 1;
    }
    assert(toks.subrange(0, i as int) =~= toks);
    out
}

/// Porter stem of a word given as characters.
pub fn stem_chars(word: &Vec<char>) -> (r: Vec<char>)
    ensures
        r@ == stem_spec(word@),
{
    if utf8_len_of(word.as_slice()) <= 2 {
        return word.clone();
    }
    let mut s = word.clone();
    step1a(&mut s);
    step1b(&mut s);
    step1c(&mut s);
    step2(&mut s);
    step3(&mut s);
    step4(&mut s);
    step5(&mut s);
    s
}

/// Apply the Porter stemming algorithm to a single word.
pub fn stem(word: &str) -> (r: String)
    ensures
        r@ == stem_spec(word@),
{
    let w = chars_of(word);
    let s = stem_chars(&w);
    string_from_chars(s.as_slice())
}

// ---------------------------------------------------------------------------
// Step 5b: no stem of measure above one ends in a double `l`
// ---------------------------------------------------------------------------

/// Three `l`s in a row start at position `i`.
pub open spec fn triple_l_at(s: Seq<char>, i: int) -> bool {
    0 <= i && i + 2 < s.len() && s[i] == 'l' && s[i + 1] == 'l' && s[i + 2] == 'l'
}

/// The word holds three `l`s in a row somewhere.
pub open spec fn has_triple_l(s: Seq<char>) -> bool {
    exists|i: int| #[trigger] triple_l_at(s, i)
}

/// A text that can be put after a word without making three `l`s in a row.
spec fn safe_tail(r: Seq<char>) -> bool {
    !has_triple_l(r) && (r.len() > 0 ==> r[0] != 'l')
}

proof fn lemma_short_safe(r: Seq<char>)
    requires
        r.len() <= 4,
        r.len() > 0 ==> r[0] != 'l',
        r.len() > 1 ==> r[1] != 'l',
    ensures
        safe_tail(r),
{
    if has_triple_l(r) {
        let i = choose|i: int| #[trigger] triple_l_at(r, i);
        assert(i == 0 || i == 1);
    }
}

proof fn lemma_prefix_no_triple(s: Seq<char>, k: int)
    requires
        !has_triple_l(s),
        0 <= k <= s.len(),
    ensures
        !has_triple_l(s.subrange(0, k)),
{
    let p = s.subrange(0, k);
    if has_triple_l(p) {
        let i = choose|i: int| #[trigger] triple_l_at(p, i);
        assert(triple_l_at(s, i));
    }
}

proof fn lemma_append_no_triple(p: Seq<char>, r: Seq<char>)
    requires
        !has_triple_l(p),
        safe_tail(r),
    ensures
        !has_triple_l(p + r),
{
    let q = p + r;
    if has_triple_l(q) {
        let i = choose|i: int| #[trigger] triple_l_at(q, i);
        if i + 2 < p.len() {
            assert(triple_l_at(p, i));
        } else if i >= p.len() {
            assert(triple_l_at(r, i - p.len()));
        } else {
            assert(q[p.len() as int] == r[0]);
        }
    }
}

proof fn lemma_replace_no_triple(s: Seq<char>, suffix: Seq<char>, rep: Seq<char>)
    requires
        !has_triple_l(s),
        suffix.len() <= s.len(),
        safe_tail(rep),
    ensures
        !has_triple_l(replace_spec(s, suffix, rep)),
        !has_triple_l(strip(s, suffix)),
{
    lemma_prefix_no_triple(s, s.len() - suffix.len());
    lemma_append_no_triple(strip(s, suffix), rep);
}

proof fn lemma_literals_safe()
    ensures
        safe_tail("ss"@),
        safe_tail("i"@),
        safe_tail("ee"@),
        safe_tail("e"@),
        safe_tail(""@),
        forall|j: int| 0 <= j < step2_rules().len() ==> safe_tail(#[trigger] step2_rules()[j].1@),
        forall|j: int| 0 <= j < step3_rules().len() ==> safe_tail(#[trigger] step3_rules()[j].1@),
{
    reveal_strlit("able");
    reveal_strlit("al");
    reveal_strlit("ance");
    reveal_strlit("ate");
    reveal_strlit("ble");
    reveal_strlit("e");
    reveal_strlit("ee");
    reveal_strlit("ence");
    reveal_strlit("ent");
    reveal_strlit("ful");
    reveal_strlit("i");
    reveal_strlit("ic");
    reveal_strlit("ive");
    reveal_strlit("ize");
    reveal_strlit("ll");
    reveal_strlit("ous");
    reveal_strlit("ss");
    reveal_strlit("tion");
    reveal_strlit("");
    assert forall|r: Seq<char>| r.len() <= 4 && (r.len() > 0 ==> r[0] != 'l') && (r.len() > 1 ==> r[1] != 'l')
        implies #[trigger] safe_tail(r) by {
        lemma_short_safe(r);
    }
    assert forall|j: int| 0 <= j < step2_rules().len() implies safe_tail(#[trigger] step2_rules()[j].1@) by {
        if j == 0 {
            assert(safe_tail(step2_rules()[0].1@));
        } else if j == 1 {
            assert(safe_tail(step2_rules()[1].1@));
        } else if j == 2 {
            assert(safe_tail(step2_rules()[2].1@));
        } else if j == 3 {
            assert(safe_tail(step2_rules()[3].1@));
        } else if j == 4 {
            assert(safe_tail(step2_rules()[4].1@));
        } else if j == 5 {
            assert(safe_tail(step2_rules()[5].1@));
        } else if j == 6 {
            assert(safe_tail(step2_rules()[6].1@));
        } else if j == 7 {
            assert(safe_tail(step2_rules()[7].1@));
        } else if j == 8 {
            assert(safe_tail(step2_rules()[8].1@));
        } else if j == 9 {
            assert(safe_tail(step2_rules()[9].1@));
        } else if j == 10 {
            assert(safe_tail(step2_rules()[10].1@));
        } else if j == 11 {
            assert(safe_tail(step2_rules()[11].1@));
        } else if j == 12 {
            assert(safe_tail(step2_rules()[12].1@));
        } else if j == 13 {
            assert(safe_tail(step2_rules()[13].1@));
        } else if j == 14 {
            assert(safe_tail(step2_rules()[14].1@));
        } else if j == 15 {
            assert(safe_tail(step2_rules()[15].1@));
        } else if j == 16 {
            assert(safe_tail(step2_rules()[16].1@));
        } else if j == 17 {
            assert(safe_tail(step2_rules()[17].1@));
        } else if j == 18 {
            assert(safe_tail(step2_rules()[18].1@));
        } else if j == 19 {
            assert(safe_tail(step2_rules()[19].1@));
        } else {
        }
    }
    assert forall|j: int| 0 <= j < step3_rules().len() implies safe_tail(#[trigger] step3_rules()[j].1@) by {
        if j == 0 {
            assert(safe_tail(step3_rules()[0].1@));
        } else if j == 1 {
            assert(safe_tail(step3_rules()[1].1@));
        } else if j == 2 {
            assert(safe_tail(step3_rules()[2].1@));
        } else if j == 3 {
            assert(safe_tail(step3_rules()[3].1@));
        } else if j == 4 {
            assert(safe_tail(step3_rules()[4].1@));
        } else if j == 5 {
            assert(safe_tail(step3_rules()[5].1@));
        } else if j == 6 {
            assert(safe_tail(step3_rules()[6].1@));
        } else {
        }
    }
}

proof fn lemma_first_rule_no_triple(s: Seq<char>, rules: Seq<(&str, &str)>, i: int, min_m: nat)
    requires
        !has_triple_l(s),
        forall|j: int| 0 <= j < rules.len() ==> safe_tail(#[trigger] rules[j].1@),
    ensures
        !has_triple_l(first_rule(s, rules, i, min_m)),
    decreases rules.len() - i,
{
    if 0 <= i < rules.len() {
        if seq_ends_with(s, rules[i].0@) {
            lemma_replace_no_triple(s, rules[i].0@, rules[i].1@);
        } else {
            lemma_first_rule_no_triple(s, rules, i + 1, min_m);
        }
    }
}

proof fn lemma_step4_no_triple(s: Seq<char>, i: int)
    requires
        !has_triple_l(s),
    ensures
        !has_triple_l(step4_from(s, i)),
    decreases step4_suffixes().len() - i,
{
    if 0 <= i < step4_suffixes().len() {
        if seq_ends_with(s, step4_suffixes()[i]@) {
            lemma_literals_safe();
            lemma_replace_no_triple(s, step4_suffixes()[i]@, ""@);
        } else {
            lemma_step4_no_triple(s, i + 1);
        }
    }
}

proof fn lemma_drop_last_no_triple(s: Seq<char>)
    requires
        !has_triple_l(s),
        s.len() > 0,
    ensures
        !has_triple_l(s.drop_last()),
{
    lemma_prefix_no_triple(s, s.len() - 1);
    assert(s.drop_last() =~= s.subrange(0, s.len() - 1));
}

/// Steps 1 to 5a of the stemmer never make three `l`s in a row.
proof fn lemma_steps_no_triple(w: Seq<char>)
    requires
        !has_triple_l(w),
    ensures
        !has_triple_l(step5a_spec(step4_spec(step3_spec(step2_spec(step1c_spec(step1b_spec(step1a_spec(w)))))))),
{
    lemma_literals_safe();
    reveal_strlit("sses");
    reveal_strlit("ies");
    reveal_strlit("eed");
    reveal_strlit("ed");
    reveal_strlit("ing");
    reveal_strlit("y");
    reveal_strlit("e");
    reveal_strlit("s");
    // 1a
    let a = step1a_spec(w);
    if seq_ends_with(w, "sses"@) {
        lemma_replace_no_triple(w, "sses"@, "ss"@);
    } else if seq_ends_with(w, "ies"@) {
        lemma_replace_no_triple(w, "ies"@, "i"@);
    } else if !seq_ends_with(w, "ss"@) && seq_ends_with(w, "s"@) {
        lemma_drop_last_no_triple(w);
    }
    assert(!has_triple_l(a));
    // 1b
    let b = step1b_spec(a);
    if seq_ends_with(a, "eed"@) {
        lemma_replace_no_triple(a, "eed"@, "ee"@);
    } else if seq_ends_with(a, "ed"@) || seq_ends_with(a, "ing"@) {
        let suf = if seq_ends_with(a, "ed"@) { "ed"@ } else { "ing"@ };
        lemma_replace_no_triple(a, suf, ""@);
        let t = replace_spec(a, suf, ""@);
        if t.len() > 0 {
            lemma_drop_last_no_triple(t);
        }
        lemma_append_no_triple(t, seq!['e']);
        assert(t.push('e') =~= t + seq!['e']);
    }
    assert(!has_triple_l(b));
    // 1c
    let c = step1c_spec(b);
    if seq_ends_with(b, "y"@) && has_vowel_spec(strip(b, "y"@)) {
        if has_triple_l(c) {
            let i = choose|i: int| #[trigger] triple_l_at(c, i);
            assert(triple_l_at(b, i));
        }
    }
    assert(!has_triple_l(c));
    // 2, 3, 4
    let d = step2_spec(c);
    lemma_first_rule_no_triple(c, step2_rules(), 0, 0);
    let e = step3_spec(d);
    lemma_first_rule_no_triple(d, step3_rules(), 0, 0);
    let f = step4_spec(e);
    lemma_step4_no_triple(e, 0);
    // 5a
    if seq_ends_with(f, "e"@) && f.len() > 0 {
        lemma_drop_last_no_triple(f);
    }
}

/// Porter step 5b: a stem whose measure exceeds one never ends in a double
/// `l` (`controlling` stems to `control`, not `controll`), for every word
/// without three `l`s in a row.
pub proof fn stem_never_ends_in_double_l(w: Seq<char>)
    requires
        !has_triple_l(w),
    ensures
        seq_ends_with(stem_spec(w), "ll"@) ==> measure_of(stem_spec(w)) <= 1,
{
    reveal_strlit("ll");
    if utf8_len(w) <= 2 {
        lemma_utf8_len_at_least(w);
        if w.len() == 2 {
            assert(vc_count(w, 1) == 0);
        }
    } else {
        lemma_steps_no_triple(w);
        let x = step5a_spec(step4_spec(step3_spec(step2_spec(step1c_spec(step1b_spec(step1a_spec(w)))))));
        let st = stem_spec(w);
        if seq_ends_with(x, "ll"@) && measure_of(x) > 1 {
            assert(st == x.drop_last());
            if seq_ends_with(st, "ll"@) {
                assert(x.subrange(x.len() - 2, x.len() as int)[0] == x[x.len() - 2]);
                assert(x.subrange(x.len() - 2, x.len() as int)[1] == x[x.len() - 1]);
                assert(st.subrange(st.len() - 2, st.len() as int)[0] == st[st.len() - 2]);
                assert(st[st.len() - 2] == x[x.len() - 3]);
                assert(triple_l_at(x, x.len() - 3));
            }
        }
    }
}

/// A text of at most two bytes has at most two characters.
proof fn lemma_utf8_len_at_least(s: Seq<char>)
    ensures
        utf8_len(s) >= s.len(),
    decreases s.len(),
{
    if s.len() > 0 {
        lemma_utf8_len_at_least(s.drop_last());
    }
}

// ---------------------------------------------------------------------------
// Stemming never lengthens a word
// ---------------------------------------------------------------------------

/// A rule whose replacement is no longer than the suffix it replaces.
spec fn shrinks(rule: (&str, &str)) -> bool {
    rule.1@.len() <= rule.0@.len()
}

proof fn lemma_rules_shrink()
    ensures
        forall|j: int| 0 <= j < step2_rules().len() ==> shrinks(#[trigger] step2_rules()[j]),
        forall|j: int| 0 <= j < step3_rules().len() ==> shrinks(#[trigger] step3_rules()[j]),
{
    reveal_strlit("able");
    reveal_strlit("abli");
    reveal_strlit("al");
    reveal_strlit("alism");
    reveal_strlit("aliti");
    reveal_strlit("alize");
    reveal_strlit("alli");
    reveal_strlit("ance");
    reveal_strlit("anci");
    reveal_strlit("ate");
    reveal_strlit("ation");
    reveal_strlit("ational");
    reveal_strlit("ative");
    reveal_strlit("ator");
    reveal_strlit("biliti");
    reveal_strlit("ble");
    reveal_strlit("e");
    reveal_strlit("eli");
    reveal_strlit("ence");
    reveal_strlit("enci");
    reveal_strlit("ent");
    reveal_strlit("entli");
    reveal_strlit("ful");
    reveal_strlit("fulness");
    reveal_strlit("ic");
    reveal_strlit("ical");
    reveal_strlit("icate");
    reveal_strlit("iciti");
    reveal_strlit("ive");
    reveal_strlit("iveness");
    reveal_strlit("iviti");
    reveal_strlit("ization");
    reveal_strlit("ize");
    reveal_strlit("izer");
    reveal_strlit("ness");
    reveal_strlit("ous");
    reveal_strlit("ousli");
    reveal_strlit("ousness");
    reveal_strlit("tion");
    reveal_strlit("tional");
    reveal_strlit("");
    assert forall|j: int| 0 <= j < step2_rules().len() implies shrinks(#[trigger] step2_rules()[j]) by {
        if j == 0 {
            assert(shrinks(step2_rules()[0]));
        } else if j == 1 {
            assert(shrinks(step2_rules()[1]));
        } else if j == 2 {
            assert(shrinks(step2_rules()[2]));
        } else if j == 3 {
            assert(shrinks(step2_rules()[3]));
        } else if j == 4 {
            assert(shrinks(step2_rules()[4]));
        } else if j == 5 {
            assert(shrinks(step2_rules()[5]));
        } else if j == 6 {
            assert(shrinks(step2_rules()[6]));
        } else if j == 7 {
            assert(shrinks(step2_rules()[7]));
        } else if j == 8 {
            assert(shrinks(step2_rules()[8]));
        } else if j == 9 {
            assert(shrinks(step2_rules()[9]));
        } else if j == 10 {
            assert(shrinks(step2_rules()[10]));
        } else if j == 11 {
            assert(shrinks(step2_rules()[11]));
        } else if j == 12 {
            assert(shrinks(step2_rules()[12]));
        } else if j == 13 {
            assert(shrinks(step2_rules()[13]));
        } else if j == 14 {
            assert(shrinks(step2_rules()[14]));
        } else if j == 15 {
            assert(shrinks(step2_rules()[15]));
        } else if j == 16 {
            assert(shrinks(step2_rules()[16]));
        } else if j == 17 {
            assert(shrinks(step2_rules()[17]));
        } else if j == 18 {
            assert(shrinks(step2_rules()[18]));
        } else if j == 19 {
            assert(shrinks(step2_rules()[19]));
        } else {
        }
    }
    assert forall|j: int| 0 <= j < step3_rules().len() implies shrinks(#[trigger] step3_rules()[j]) by {
        if j == 0 {
            assert(shrinks(step3_rules()[0]));
        } else if j == 1 {
            assert(shrinks(step3_rules()[1]));
        } else if j == 2 {
            assert(shrinks(step3_rules()[2]));
        } else if j == 3 {
            assert(shrinks(step3_rules()[3]));
        } else if j == 4 {
            assert(shrinks(step3_rules()[4]));
        } else if j == 5 {
            assert(shrinks(step3_rules()[5]));
        } else if j == 6 {
            assert(shrinks(step3_rules()[6]));
        } else {
        }
    }
}

proof fn lemma_first_rule_len(s: Seq<char>, rules: Seq<(&str, &str)>, i: int, min_m: nat)
    requires
        forall|j: int| 0 <= j < rules.len() ==> shrinks(#[trigger] rules[j]),
    ensures
        first_rule(s, rules, i, min_m).len() <= s.len(),
    decreases rules.len() - i,
{
    if 0 <= i < rules.len() {
        if !seq_ends_with(s, rules[i].0@) {
            lemma_first_rule_len(s, rules, i + 1, min_m);
        } else {
            assert(shrinks(rules[i]));
        }
    }
}

proof fn lemma_step4_len(s: Seq<char>, i: int)
    ensures
        step4_from(s, i).len() <= s.len(),
    decreases step4_suffixes().len() - i,
{
    reveal_strlit("");
    if 0 <= i < step4_suffixes().len() && !seq_ends_with(s, step4_suffixes()[i]@) {
        lemma_step4_len(s, i + 1);
    }
}

/// Stemming never lengthens a word: every Porter rule replaces a suffix by
/// one no longer than it (`-ational` by `-ate`, `-ing` by nothing or `e`).
pub proof fn stem_never_lengthens(w: Seq<char>)
    ensures
        stem_spec(w).len() <= w.len(),
{
    reveal_strlit("sses");
    reveal_strlit("ss");
    reveal_strlit("ies");
    reveal_strlit("i");
    reveal_strlit("s");
    reveal_strlit("eed");
    reveal_strlit("ee");
    reveal_strlit("ed");
    reveal_strlit("ing");
    reveal_strlit("");
    lemma_rules_shrink();
    let a = step1a_spec(w);
    let b = step1b_spec(a);
    assert(b.len() <= a.len());
    let c = step1c_spec(b);
    let d = step2_spec(c);
    lemma_first_rule_len(c, step2_rules(), 0, 0);
    let e = step3_spec(d);
    lemma_first_rule_len(d, step3_rules(), 0, 0);
    lemma_step4_len(e, 0);
}

} // verus!
