//! Pali glossary layer: bidirectional term expansion between Abhidhamma
//! vocabulary and the computational terms that implement it.
//!
//! Expansion sits between raw text and embedding: recognised Pali terms are
//! expanded to their code equivalents and code terms to their Pali names, so
//! that both vocabularies land in the same vector neighbourhood.
use vstd::prelude::*;

use crate::terms::TermTable;
use crate::text::{
    char_alphanumeric, chars_of, contains, is_alphanumeric, join_with, seq_contains, str_eq,
    str_lowercase, string_from_chars, to_lowercase, utf8_len, utf8_len_of,
};

verus! {

/// One glossary entry: a Pali term, its English meaning, and the code terms
/// it corresponds to.
pub type GlossaryEntry = (&'static str, &'static str, Vec<&'static str>);

/// The glossary of Pali terms.
pub open spec fn glossary_spec() -> Seq<(&'static str, &'static str, Seq<&'static str>)> {
    seq![
        (
            "phassa",
            "contact",
            seq!["ingest", "embed", "contact", "input", "sense impression"],
        ),
        (
            "vedanā",
            "feeling-tone",
            seq!["emotion", "feeling", "valence", "sentiment", "primary emotion", "secondary emotion"],
        ),
        (
            "saññā",
            "perception",
            seq!["classify", "recognition", "strata", "channel", "perception", "stems", "signals"],
        ),
        (
            "saṅkhāra",
            "formation",
            seq!["consolidate", "consolidation", "merge", "formation", "centroid", "compress"],
        ),
        (
            "viññāṇa",
            "consciousness",
            seq!["agent", "identity", "consciousness", "identity key", "agent id"],
        ),
        (
            "sati",
            "mindfulness",
            seq!["recall", "search", "remember", "mindfulness", "attention"],
        ),
        (
            "samādhi",
            "concentration",
            seq!["anchor", "keystone", "immovable", "concentration", "fixed"],
        ),
        (
            "anicca",
            "impermanence",
            seq!["decay", "impermanence", "fading", "alpha", "decay rate", "transient"],
        ),
        (
            "upekkhā",
            "equanimity",
            seq!["forgive", "forgiveness", "release", "equanimity", "let go"],
        ),
        (
            "nirodha",
            "cessation",
            seq!["archive", "cessation", "archived", "end", "cease"],
        ),
        (
            "bhāvanā",
            "cultivation",
            seq!["dream", "dreaming", "cultivation", "dream cycle", "restructuring"],
        ),
        (
            "cetanā",
            "intention",
            seq!["emotion knobs", "intention", "volition", "configuration"],
        ),
        (
            "ojā",
            "nutriment",
            seq!["fidelity", "vitality", "strength", "nutriment", "health"],
        ),
        (
            "nimitta",
            "sign",
            seq!["embedding", "vector", "representation", "sign", "geometric meaning"],
        ),
        (
            "jarā",
            "aging",
            seq!["decay alpha", "aging", "decay rate", "alpha", "adaptive decay"],
        ),
        (
            "kamma",
            "action",
            seq!["hexagram", "identity seed", "entropy", "action seed", "casting"],
        ),
        (
            "dukkha",
            "suffering",
            seq!["death spiral", "amnesia", "stagnation", "low fidelity"],
        ),
        (
            "paṭicchanna",
            "concealed",
            seq!["sealed", "suppressed", "hidden", "concealed"],
        ),
        (
            "punabbhava",
            "re-becoming",
            seq!["revive", "re-becoming", "rebirth", "new from archived"],
        ),
        (
            "āyatana",
            "sense base",
            seq!["channel", "sense", "hearing", "seeing", "thinking", "sensory"],
        ),
        (
            "citta",
            "mind",
            seq!["memory", "mind", "record", "mental state"],
        ),
        (
            "ākāsa",
            "space",
            seq!["radio", "entropy", "noise", "static", "space"],
        ),
        (
            "paññā",
            "wisdom",
            seq!["quality gate", "fidelity gate", "wisdom", "understanding"],
        ),
        (
            "sīla",
            "virtue",
            seq!["lifecycle", "rules", "constraints", "one-way transitions"],
        ),
        (
            "jhāna",
            "absorption",
            seq!["dream cycle", "absorption", "concentrated restructuring"],
        ),
        (
            "khandha",
            "aggregate",
            seq!["strata", "aggregate", "component", "who what when where why how"],
        ),
    ]
}

/// The glossary, entry by entry.
pub fn glossary() -> (r: Vec<GlossaryEntry>)
    ensures
        r@.len() == glossary_spec().len(),
        forall|i: int|
            0 <= i < r@.len() ==> r@[i].0 == glossary_spec()[i].0 && r@[i].1 == glossary_spec()[i].1
                && r@[i].2@ == glossary_spec()[i].2,
{
    let r: Vec<GlossaryEntry> = vec![
        (
            "phassa",
            "contact",
            vec!["ingest", "embed", "contact", "input", "sense impression"],
        ),
        (
            "vedanā",
            "feeling-tone",
            vec!["emotion", "feeling", "valence", "sentiment", "primary emotion", "secondary emotion"],
        ),
        (
            "saññā",
            "perception",
            vec!["classify", "recognition", "strata", "channel", "perception", "stems", "signals"],
        ),
        (
            "saṅkhāra",
            "formation",
            vec!["consolidate", "consolidation", "merge", "formation", "centroid", "compress"],
        ),
        (
            "viññāṇa",
            "consciousness",
            vec!["agent", "identity", "consciousness", "identity key", "agent id"],
        ),
        (
            "sati",
            "mindfulness",
            vec!["recall", "search", "remember", "mindfulness", "attention"],
        ),
        (
            "samādhi",
            "concentration",
            vec!["anchor", "keystone", "immovable", "concentration", "fixed"],
        ),
        (
            "anicca",
            "impermanence",
            vec!["decay", "impermanence", "fading", "alpha", "decay rate", "transient"],
        ),
        (
            "upekkhā",
            "equanimity",
            vec!["forgive", "forgiveness", "release", "equanimity", "let go"],
        ),
        (
            "nirodha",
            "cessation",
            vec!["archive", "cessation", "archived", "end", "cease"],
        ),
        (
            "bhāvanā",
            "cultivation",
            vec!["dream", "dreaming", "cultivation", "dream cycle", "restructuring"],
        ),
        (
            "cetanā",
            "intention",
            vec!["emotion knobs", "intention", "volition", "configuration"],
        ),
        (
            "ojā",
            "nutriment",
            vec!["fidelity", "vitality", "strength", "nutriment", "health"],
        ),
        (
            "nimitta",
            "sign",
            vec!["embedding", "vector", "representation", "sign", "geometric meaning"],
        ),
        (
            "jarā",
            "aging",
            vec!["decay alpha", "aging", "decay rate", "alpha", "adaptive decay"],
        ),
        (
            "kamma",
            "action",
            vec!["hexagram", "identity seed", "entropy", "action seed", "casting"],
        ),
        (
            "dukkha",
            "suffering",
            vec!["death spiral", "amnesia", "stagnation", "low fidelity"],
        ),
        (
            "paṭicchanna",
            "concealed",
            vec!["sealed", "suppressed", "hidden", "concealed"],
        ),
        (
            "punabbhava",
            "re-becoming",
            vec!["revive", "re-becoming", "rebirth", "new from archived"],
        ),
        (
            "āyatana",
            "sense base",
            vec!["channel", "sense", "hearing", "seeing", "thinking", "sensory"],
        ),
        (
            "citta",
            "mind",
            vec!["memory", "mind", "record", "mental state"],
        ),
        (
            "ākāsa",
            "space",
            vec!["radio", "entropy", "noise", "static", "space"],
        ),
        (
            "paññā",
            "wisdom",
            vec!["quality gate", "fidelity gate", "wisdom", "understanding"],
        ),
        (
            "sīla",
            "virtue",
            vec!["lifecycle", "rules", "constraints", "one-way transitions"],
        ),
        (
            "jhāna",
            "absorption",
            vec!["dream cycle", "absorption", "concentrated restructuring"],
        ),
        (
            "khandha",
            "aggregate",
            vec!["strata", "aggregate", "component", "who what when where why how"],
        ),
    ];
    assert forall|i: int|
        0 <= i < r@.len() implies r@[i].0 == glossary_spec()[i].0 && r@[i].1 == glossary_spec()[i].1
            && r@[i].2@ == glossary_spec()[i].2 by {
        assert(r@[i].2@ =~= glossary_spec()[i].2);
    }
    r
}

/// The list held for `k`, empty where there is none.
pub open spec fn list_at(m: Map<Seq<char>, Seq<Seq<char>>>, k: Seq<char>) -> Seq<Seq<char>> {
    if m.contains_key(k) {
        m[k]
    } else {
        Seq::empty()
    }
}

/// The characters of each string.
pub open spec fn str_views(s: Seq<&'static str>) -> Seq<Seq<char>> {
    s.map_values(|c: &'static str| c@)
}

/// The label under which a Pali term is offered for a code term:
/// `pali (meaning)`.
pub open spec fn pali_label(pali: Seq<char>, meaning: Seq<char>) -> Seq<char> {
    pali + " ("@ + meaning + ")"@
}

/// Appends `label` to the list of the lowercase form of each code term, in
/// order.
pub open spec fn add_labels(
    m: Map<Seq<char>, Seq<Seq<char>>>,
    codes: Seq<Seq<char>>,
    label: Seq<char>,
) -> Map<Seq<char>, Seq<Seq<char>>>
    decreases codes.len(),
{
    if codes.len() == 0 {
        m
    } else {
        let m1 = add_labels(m, codes.drop_last(), label);
        let k = str_lowercase(codes.last());
        m1.insert(k, list_at(m1, k).push(label))
    }
}

/// The two lookup tables after one more glossary entry: the Pali term maps
/// to its code terms followed by its meaning, the lowercase meaning gains the
/// code terms, and each lowercase code term gains the entry's label.
pub open spec fn entry_step(
    maps: (Map<Seq<char>, Seq<Seq<char>>>, Map<Seq<char>, Seq<Seq<char>>>),
    e: (&'static str, &'static str, Seq<&'static str>),
) -> (Map<Seq<char>, Seq<Seq<char>>>, Map<Seq<char>, Seq<Seq<char>>>) {
    let codes = str_views(e.2);
    let p1 = maps.0.insert(e.0@, codes.push(e.1@));
    let ml = str_lowercase(e.1@);
    (p1.insert(ml, list_at(p1, ml) + codes), add_labels(maps.1, codes, pali_label(e.0@, e.1@)))
}

/// The lookup tables built from the first `n` glossary entries.
pub open spec fn maps_upto(n: nat) -> (Map<Seq<char>, Seq<Seq<char>>>, Map<Seq<char>, Seq<Seq<char>>>)
    decreases n,
{
    if n == 0 {
        (Map::empty(), Map::empty())
    } else {
        entry_step(maps_upto((n - 1) as nat), glossary_spec()[n - 1])
    }
}

/// The Pali → code table and the code → Pali table.
pub open spec fn glossary_maps() -> (Map<Seq<char>, Seq<Seq<char>>>, Map<Seq<char>, Seq<Seq<char>>>) {
    maps_upto(glossary_spec().len())
}

/// The lists of a table, as character sequences.
pub open spec fn lists_view(m: Map<Seq<char>, Vec<String>>) -> Map<Seq<char>, Seq<Seq<char>>> {
    m.map_values(|v: Vec<String>| v@.map_values(|s: String| s@))
}

/// The characters of each string of a vector.
pub open spec fn strings_view(v: Vec<String>) -> Seq<Seq<char>> {
    v@.map_values(|s: String| s@)
}

fn append_str(s: &mut String, t: &str)
    ensures
        final(s)@ == old(s)@ + t@,
{
    s.append(t);
}

/// Takes the list of `k` out of `table` (empty where there is none), lets
/// the caller extend it, and puts it back.
fn take_list(table: &mut TermTable<Vec<String>>, k: &str) -> (r: Vec<String>)
    requires
        old(table).wf(),
    ensures
        final(table).wf(),
        final(table)@ == old(table)@.remove(k@),
        strings_view(r) == list_at(lists_view(old(table)@), k@),
{
    match table.remove(k) {
        Some(v) => v,
        None => Vec::new(),
    }
}

/// Builds the Pali → code and code → Pali lookup tables from the glossary.
pub fn build_maps() -> (r: (TermTable<Vec<String>>, TermTable<Vec<String>>))
    ensures
        r.0.wf(),
        r.1.wf(),
        lists_view(r.0@) == glossary_maps().0,
        lists_view(r.1@) == glossary_maps().1,
{
    let g = glossary();
    let mut p2c: TermTable<Vec<String>> = TermTable::new();
    let mut c2p: TermTable<Vec<String>> = TermTable::new();
    proof {
        assert(lists_view(p2c@) =~= Map::<Seq<char>, Seq<Seq<char>>>::empty());
        assert(lists_view(c2p@) =~= Map::<Seq<char>, Seq<Seq<char>>>::empty());
    }
    let mut i: usize = 0;
    while i < g.len()
        invariant
            p2c.wf(),
            c2p.wf(),
            i <= g@.len(),
            g@.len() == glossary_spec().len(),
            forall|j: int|
                0 <= j < g@.len() ==> g@[j].0 == glossary_spec()[j].0 && g@[j].1 == glossary_spec()[j].1
                    && g@[j].2@ == glossary_spec()[j].2,
            (lists_view(p2c@), lists_view(c2p@)) == maps_upto(i as nat),
        decreases g.len() - i,
    {
        let pali = g[i].0;
        let meaning = g[i].1;
        let codes = &g[i].2;
        let ghost before = maps_upto(i as nat);
        let ghost cv = str_views(codes@);
        // The Pali term maps to its code terms followed by its meaning.
        let mut exps: Vec<String> = Vec::new();
        let mut j: usize = 0;
        while j < codes.len()
            invariant
                j <= codes@.len(),
                cv == str_views(codes@),
                strings_view(exps) == cv.take(j as int),
            decreases codes.len() - j,
        {
            let ghost old_e = exps@;
            let x = codes[j].to_owned();
            exps.push(x);
            proof {
                old_e.lemma_push_map_commute(|s: String| s@, x);
                assert(cv.take(j + 1) =~= cv.take(j as int).push(cv[j as int]));
                assert(strings_view(exps) =~= cv.take(j + 1));
            }
            j = j + 1;
        }
        exps.push(meaning.to_owned());
        proof {
            assert(cv.take(codes@.len() as int) =~= cv);
            assert(strings_view(exps) =~= cv.push(meaning@));
        }
        p2c.insert(pali, exps);
        let ghost p1 = lists_view(p2c@);
        proof {
            assert(p1 =~= before.0.insert(pali@, cv.push(meaning@)));
        }
        // The lowercase meaning gains the code terms.
        let ml = to_lowercase(meaning);
        let mut cur = take_list(&mut p2c, ml.as_str());
        let ghost start = strings_view(cur);
        let mut j: usize = 0;
        while j < codes.len()
            invariant
                j <= codes@.len(),
                cv == str_views(codes@),
                strings_view(cur) == start + cv.take(j as int),
            decreases codes.len() - j,
        {
            let ghost old_c = cur@;
            let x = codes[j].to_owned();
            cur.push(x);
            proof {
                old_c.lemma_push_map_commute(|s: String| s@, x);
                assert(cv.take(j + 1) =~= cv.take(j as int).push(cv[j as int]));
                assert(strings_view(cur) =~= start + cv.take(j + 1));
            }
            j = j + 1;
        }
        proof {
            assert(cv.take(codes@.len() as int) =~= cv);
        }
        p2c.insert(ml.as_str(), cur);
        proof {
            assert(lists_view(p2c@) =~= p1.insert(ml@, list_at(p1, ml@) + cv));
        }
        // Each lowercase code term gains the entry's label.
        let mut label = pali.to_owned();
        append_str(&mut label, " (");
        append_str(&mut label, meaning);
        append_str(&mut label, ")");
        let mut j: usize = 0;
        while j < codes.len()
            invariant
                c2p.wf(),
                j <= codes@.len(),
                cv == str_views(codes@),
                label@ == pali_label(pali@, meaning@),
                lists_view(c2p@) == add_labels(before.1, cv.take(j as int), label@),
            decreases codes.len() - j,
        {
            let ct = to_lowercase(codes[j]);
            let ghost m0 = lists_view(c2p@);
            let mut list = take_list(&mut c2p, ct.as_str());
            let ghost old_l = list@;
            let lb = label.clone();
            list.push(lb);
            proof {
                old_l.lemma_push_map_commute(|s: String| s@, lb);
                assert(strings_view(list) == list_at(m0, ct@).push(label@));
            }
            let ghost mid = c2p@;
            c2p.insert(ct.as_str(), list);
            proof {
                assert forall|k: Seq<char>| #[trigger] lists_view(c2p@).contains_key(k) implies lists_view(c2p@)[k]
                    == m0.insert(ct@, list_at(m0, ct@).push(label@))[k] by {
                    if k != ct@ {
                        assert(c2p@[k] == mid[k]);
                    }
                }
                assert(cv.take(j + 1).drop_last() =~= cv.take(j as int));
                assert(cv.take(j + 1).last() == codes@[j as int]@);
                assert(lists_view(c2p@) =~= m0.insert(ct@, list_at(m0, ct@).push(label@)));
            }
            j = j + 1;
        }
        proof {
            assert(cv.take(codes@.len() as int) =~= cv);
            assert(glossary_spec()[i as int].0 == g@[i as int].0);
        }
        i = i + 1;
    }
    (p2c, c2p)
}

/// Letters with diacritics that Pali words keep together.
pub open spec fn is_pali_mark(c: char) -> bool {
    c == 'ā' || c == 'ī' || c == 'ū' || c == 'ṅ' || c == 'ñ' || c == 'ṭ' || c == 'ḍ' || c == 'ṇ'
        || c == 'ḷ'
}

/// Characters that belong to a word.
pub open spec fn word_char(c: char) -> bool {
    char_alphanumeric(c) || is_pali_mark(c)
}

/// The pieces of `s` between characters that do not belong to a word, empty
/// pieces included.
pub open spec fn word_pieces(s: Seq<char>) -> Seq<Seq<char>>
    decreases s.len(),
{
    if s.len() == 0 {
        seq![Seq::<char>::empty()]
    } else {
        let rest = word_pieces(s.drop_last());
        if !word_char(s.last()) {
            rest.push(Seq::<char>::empty())
        } else {
            rest.update(rest.len() - 1, rest.last().push(s.last()))
        }
    }
}

/// A piece counts as a word when it has at least two bytes.
pub open spec fn long_enough(w: Seq<char>) -> bool {
    utf8_len(w) >= 2
}

/// The words of an already lowercased text: split it, keep pieces of two
/// bytes or more.
pub open spec fn lowercase_words(lower: Seq<char>) -> Seq<Seq<char>> {
    word_pieces(lower).filter(|w: Seq<char>| long_enough(w))
}

/// Two consecutive words with a space between them.
pub open spec fn bigram(words: Seq<Seq<char>>, i: int) -> Seq<char> {
    words[i] + " "@ + words[i + 1]
}

/// What the word at position `i` contributes: its code terms (for a Pali
/// word or meaning), its Pali labels (for a code term), then the Pali labels
/// of the two-word code term it starts, if any.
pub open spec fn position_candidates(
    words: Seq<Seq<char>>,
    p2c: Map<Seq<char>, Seq<Seq<char>>>,
    c2p: Map<Seq<char>, Seq<Seq<char>>>,
    i: int,
) -> Seq<Seq<char>> {
    list_at(p2c, words[i]) + list_at(c2p, words[i]) + (if i + 1 < words.len() {
        list_at(c2p, bigram(words, i))
    } else {
        Seq::empty()
    })
}

/// The candidates of the first `n` word positions, in text order.
pub open spec fn text_candidates(
    words: Seq<Seq<char>>,
    p2c: Map<Seq<char>, Seq<Seq<char>>>,
    c2p: Map<Seq<char>, Seq<Seq<char>>>,
    n: nat,
) -> Seq<Seq<char>>
    decreases n,
{
    if n == 0 {
        Seq::empty()
    } else {
        text_candidates(words, p2c, c2p, (n - 1) as nat) + position_candidates(words, p2c, c2p, n - 1)
    }
}

/// `acc` extended with the items of `s` that it does not hold yet, in order
/// and each once.
pub open spec fn add_unseen(acc: Seq<Seq<char>>, s: Seq<Seq<char>>) -> Seq<Seq<char>>
    decreases s.len(),
{
    if s.len() == 0 {
        acc
    } else {
        let a = add_unseen(acc, s.drop_last());
        if a.contains(s.last()) {
            a
        } else {
            a.push(s.last())
        }
    }
}

/// The expansion terms of a text, each once, in the order of the words
/// that give them.
pub open spec fn expansions_of(text: Seq<char>) -> Seq<Seq<char>> {
    lowercase_expansions(str_lowercase(text))
}

/// The expansion terms of an already lowercased text, each once, in order.
pub open spec fn lowercase_expansions(lower: Seq<char>) -> Seq<Seq<char>> {
    let words = lowercase_words(lower);
    let maps = glossary_maps();
    add_unseen(Seq::empty(), text_candidates(words, maps.0, maps.1, words.len()))
}

/// The expanded text: the text itself where nothing is recognised, else the
/// text, ` | `, and the expansion terms separated by spaces.
pub open spec fn expand_spec(text: Seq<char>) -> Seq<char> {
    let e = expansions_of(text);
    if e.len() == 0 {
        text
    } else {
        text + " | "@ + join_with(e, " "@)
    }
}

proof fn lemma_add_unseen_concat(acc: Seq<Seq<char>>, a: Seq<Seq<char>>, b: Seq<Seq<char>>)
    ensures
        add_unseen(add_unseen(acc, a), b) == add_unseen(acc, a + b),
    decreases b.len(),
{
    if b.len() == 0 {
        assert(a + b =~= a);
    } else {
        lemma_add_unseen_concat(acc, a, b.drop_last());
        assert((a + b).drop_last() =~= a + b.drop_last());
        assert((a + b).last() == b.last());
    }
}

fn contains_string(v: &Vec<String>, t: &String) -> (r: bool)
    ensures
        r == strings_view(*v).contains(t@),
{
    let mut i: usize = 0;
    while i < v.len()
        invariant
            i <= v@.len(),
            forall|j: int| 0 <= j < i ==> v@[j]@ != t@,
        decreases v.len() - i,
    {
        if str_eq(v[i].as_str(), t.as_str()) {
            proof {
                assert(strings_view(*v)[i as int] == t@);
            }
            return true;
        }
        i = i + 1;
    }
    proof {
        if strings_view(*v).contains(t@) {
            let j = choose|j: int| 0 <= j < strings_view(*v).len() && strings_view(*v)[j] == t@;
            assert(v@[j]@ == t@);
        }
    }
    false
}

/// Appends to `exps` each item of `items` that it does not hold yet.
fn push_unseen(exps: &mut Vec<String>, items: &Vec<String>)
    ensures
        strings_view(*final(exps)) == add_unseen(strings_view(*old(exps)), strings_view(*items)),
{
    let ghost iv = strings_view(*items);
    let mut i: usize = 0;
    proof {
        assert(iv.take(0) =~= Seq::<Seq<char>>::empty());
    }
    while i < items.len()
        invariant
            i <= items@.len(),
            iv == strings_view(*items),
            strings_view(*exps) == add_unseen(strings_view(*old(exps)), iv.take(i as int)),
        decreases items.len() - i,
    {
        proof {
            assert(iv.take(i + 1).drop_last() =~= iv.take(i as int));
            assert(iv.take(i + 1).last() == items@[i as int]@);
        }
        if !contains_string(exps, &items[i]) {
            let ghost old_e = exps@;
            let x = items[i].clone();
            exps.push(x);
            proof {
                old_e.lemma_push_map_commute(|s: String| s@, x);
            }
        }
        i = i + 1;
    }
    proof {
        assert(iv.take(items@.len() as int) =~= iv);
    }
}

fn is_pali_mark_exec(c: char) -> (r: bool)
    ensures
        r == is_pali_mark(c),
{
    c == 'ā' || c == 'ī' || c == 'ū' || c == 'ṅ' || c == 'ñ' || c == 'ṭ' || c == 'ḍ' || c == 'ṇ'
        || c == 'ḷ'
}

proof fn lemma_word_pieces_nonempty(s: Seq<char>)
    ensures
        word_pieces(s).len() >= 1,
    decreases s.len(),
{
    if s.len() > 0 {
        lemma_word_pieces_nonempty(s.drop_last());
    }
}

/// The words of an already lowercased text, as strings.
fn words_of(lower_text: &str) -> (r: Vec<String>)
    ensures
        strings_view(r) == lowercase_words(lower_text@),
{
    let lower = chars_of(lower_text);
    let ghost keepf = |w: Seq<char>| long_enough(w);
    let mut out: Vec<String> = Vec::new();
    let mut cur: Vec<char> = Vec::new();
    let mut i: usize = 0;
    assert(lower@.subrange(0, 0) =~= Seq::<char>::empty());
    while i < lower.len()
        invariant
            i <= lower.len(),
            lower@ == lower_text@,
            keepf == (|w: Seq<char>| long_enough(w)),
            word_pieces(lower@.subrange(0, i as int)).len() >= 1,
            cur@ == word_pieces(lower@.subrange(0, i as int)).last(),
            strings_view(out) == word_pieces(lower@.subrange(0, i as int)).drop_last().filter(keepf),
        decreases lower.len() - i,
    {
        let ghost p = word_pieces(lower@.subrange(0, i as int));
        let c = lower[i];
        assert(lower@.subrange(0, i + 1).drop_last() =~= lower@.subrange(0, i as int));
        assert(lower@.subrange(0, i + 1).last() == c);
        if !(is_alphanumeric(c) || is_pali_mark_exec(c)) {
            let ghost before = out@;
            if utf8_len_of(cur.as_slice()) >= 2 {
                let t = string_from_chars(cur.as_slice());
                out.push(t);
                proof {
                    before.lemma_push_map_commute(|t: String| t@, t);
                }
            }
            proof {
                p.drop_last().lemma_filter_push(p.last(), keepf);
                assert(p.drop_last().push(p.last()) =~= p);
                let np = word_pieces(lower@.subrange(0, i + 1));
                assert(np == p.push(Seq::<char>::empty()));
                assert(np.drop_last() =~= p);
            }
            cur = Vec::new();
        } else {
            cur.push(c);
            proof {
                let np = word_pieces(lower@.subrange(0, i + 1));
                assert(np == p.update(p.len() - 1, p.last().push(c)));
                assert(np.drop_last() =~= p.drop_last());
            }
        }
        proof {
            lemma_word_pieces_nonempty(lower@.subrange(0, i + 1));
        }
        i = i + 1;
    }
    let ghost p = word_pieces(lower@.subrange(0, i as int));
    assert(lower@.subrange(0, i as int) =~= lower@);
    let ghost before = out@;
    if utf8_len_of(cur.as_slice()) >= 2 {
        let t = string_from_chars(cur.as_slice());
        out.push(t);
        proof {
            before.lemma_push_map_commute(|t: String| t@, t);
        }
    }
    proof {
        p.drop_last().lemma_filter_push(p.last(), keepf);
        assert(p.drop_last().push(p.last()) =~= p);
    }
    out
}

/// The list of `k` in `table`, copied; empty where there is none.
fn list_of(table: &TermTable<Vec<String>>, k: &str) -> (r: Vec<String>)
    requires
        table.wf(),
    ensures
        strings_view(r) == list_at(lists_view(table@), k@),
{
    match table.get(k) {
        Some(v) => {
            let mut r: Vec<String> = Vec::new();
            let mut i: usize = 0;
            while i < v.len()
                invariant
                    i <= v@.len(),
                    r@.len() == i,
                    forall|j: int| 0 <= j < i ==> r@[j] == v@[j],
                decreases v.len() - i,
            {
                r.push(v[i].clone());
                i = i + 1;
            }
            proof {
                assert(r@ =~= v@);
            }
            r
        },
        None => Vec::new(),
    }
}

/// Joins strings with `sep` between consecutive ones.
fn join_strings(parts: &Vec<String>, sep: &str) -> (r: String)
    ensures
        r@ == join_with(strings_view(*parts), sep@),
{
    let ghost pv = strings_view(*parts);
    let mut out = String::new();
    let mut i: usize = 0;
    while i < parts.len()
        invariant
            i <= parts.len(),
            pv == strings_view(*parts),
            out@ == join_with(pv.subrange(0, i as int), sep@),
        decreases parts.len() - i,
    {
        let ghost prev = pv.subrange(0, i as int);
        assert(pv.subrange(0, i + 1).drop_last() =~= prev);
        assert(pv.subrange(0, i + 1).last() == parts@[i as int]@);
        if i > 0 {
            out.append(sep);
        } else {
            assert(pv.subrange(0, 1) =~= seq![parts@[0]@]);
        }
        out.append(parts[i].as_str());
        i = i + 1;
    }
    assert(pv.subrange(0, parts@.len() as int) =~= pv);
    out
}

/// Expands text by appending the Pali ↔ code equivalents of the terms it
/// recognises, word by word in the text's order: a word's code terms (for a
/// Pali word or meaning), its Pali labels (for a code term), then the Pali
/// labels of the two-word code term it starts.  Each expansion appears once,
/// after ` | `; text with nothing recognised comes back unchanged.
pub fn expand(text: &str) -> (r: String)
    ensures
        r@ == expand_spec(text@),
{
    let lower = to_lowercase(text);
    let exps = expansions_lowercased(lower.as_str());
    if exps.len() == 0 {
        text.to_owned()
    } else {
        let mut out = text.to_owned();
        out.append(" | ");
        let joined = join_strings(&exps, " ");
        out.append(joined.as_str());
        out
    }
}

/// The expansion terms of an already lowercased text, each once, word by
/// word in the text's order (see [`expand`]).
pub fn expansions_lowercased(lower_text: &str) -> (r: Vec<String>)
    ensures
        strings_view(r) == lowercase_expansions(lower_text@),
{
    let words = words_of(lower_text);
    let ghost wv = lowercase_words(lower_text@);
    let (p2c, c2p) = build_maps();
    let ghost maps = glossary_maps();
    let mut exps: Vec<String> = Vec::new();
    let mut i: usize = 0;
    while i < words.len()
        invariant
            p2c.wf(),
            c2p.wf(),
            lists_view(p2c@) == maps.0,
            lists_view(c2p@) == maps.1,
            wv == strings_view(words),
            i <= words@.len(),
            strings_view(exps) == add_unseen(Seq::empty(), text_candidates(wv, maps.0, maps.1, i as nat)),
        decreases words.len() - i,
    {
        let ghost c0 = text_candidates(wv, maps.0, maps.1, i as nat);
        let w = words[i].as_str();
        let a = list_of(&p2c, w);
        push_unseen(&mut exps, &a);
        let b = list_of(&c2p, w);
        push_unseen(&mut exps, &b);
        proof {
            lemma_add_unseen_concat(Seq::empty(), c0, strings_view(a));
            lemma_add_unseen_concat(Seq::empty(), c0 + strings_view(a), strings_view(b));
        }
        if i + 1 < words.len() {
            let mut bg = words[i].clone();
            bg.append(" ");
            bg.append(words[i + 1].as_str());
            let l = list_of(&c2p, bg.as_str());
            push_unseen(&mut exps, &l);
            proof {
                assert(bg@ == bigram(wv, i as int));
                lemma_add_unseen_concat(Seq::empty(), c0 + strings_view(a) + strings_view(b), strings_view(l));
                assert(text_candidates(wv, maps.0, maps.1, (i + 1) as nat) =~= c0 + strings_view(a)
                    + strings_view(b) + strings_view(l));
            }
        } else {
            proof {
                assert(text_candidates(wv, maps.0, maps.1, (i + 1) as nat) =~= c0 + strings_view(a)
                    + strings_view(b));
            }
        }
        i = i + 1;
    }
    exps
}

/// Whether the lowercase text contains a Pali term of the glossary.
pub open spec fn has_pali_spec(text: Seq<char>) -> bool {
    lowercase_has_pali(str_lowercase(text))
}

/// Whether an already lowercased text contains a Pali term of the glossary.
pub open spec fn lowercase_has_pali(lower: Seq<char>) -> bool {
    exists|i: int| 0 <= i < glossary_spec().len() && seq_contains(lower, #[trigger] glossary_spec()[i].0@)
}

/// Whether text contains any recognised Pali term, anywhere (a substring of
/// the lowercase text).
pub fn has_pali(text: &str) -> (r: bool)
    ensures
        r == has_pali_spec(text@),
{
    let lower_s = to_lowercase(text);
    has_pali_lowercased(lower_s.as_str())
}

/// Whether an already lowercased text contains a Pali term of the glossary.
pub fn has_pali_lowercased(lower_text: &str) -> (r: bool)
    ensures
        r == lowercase_has_pali(lower_text@),
{
    let lower = chars_of(lower_text);
    let entries = glossary();
    let mut i: usize = 0;
    while i < entries.len()
        invariant
            i <= entries@.len(),
            lower@ == lower_text@,
            entries@.len() == glossary_spec().len(),
            forall|a: int| 0 <= a < entries@.len() ==> #[trigger] entries@[a].0 == glossary_spec()[a].0,
            forall|a: int| 0 <= a < i ==> !seq_contains(lower@, #[trigger] glossary_spec()[a].0@),
        decreases entries.len() - i,
    {
        if contains(lower.as_slice(), entries[i].0) {
            proof {
                assert(entries@[i as int].0 == glossary_spec()[i as int].0);
            }
            return true;
        }
        proof {
            assert(entries@[i as int].0 == glossary_spec()[i as int].0);
        }
        i = i + 1;
    }
    false
}

/// What `add_unseen` holds: what it started with and what it was given.
proof fn lemma_add_unseen_contains(acc: Seq<Seq<char>>, s: Seq<Seq<char>>, x: Seq<char>)
    ensures
        add_unseen(acc, s).contains(x) <==> (acc.contains(x) || s.contains(x)),
    decreases s.len(),
{
    if s.len() > 0 {
        lemma_add_unseen_contains(acc, s.drop_last(), x);
        let a = add_unseen(acc, s.drop_last());
        if s.drop_last().contains(x) {
            let k = choose|k: int| 0 <= k < s.drop_last().len() && s.drop_last()[k] == x;
            assert(s[k] == x);
        }
        if s.contains(x) && !s.drop_last().contains(x) {
            let k = choose|k: int| 0 <= k < s.len() && s[k] == x;
            if k < s.len() - 1 {
                assert(s.drop_last()[k] == x);
            }
            assert(x == s.last());
        }
        if !a.contains(s.last()) {
            assert(a.push(s.last())[a.len() as int] == s.last());
            if a.contains(x) {
                let k = choose|k: int| 0 <= k < a.len() && a[k] == x;
                assert(a.push(s.last())[k] == x);
            }
            if a.push(s.last()).contains(x) {
                let k = choose|k: int| 0 <= k < a.len() + 1 && a.push(s.last())[k] == x;
                if k < a.len() {
                    assert(a[k] == x);
                }
            }
        }
        if s.drop_last().contains(x) {
            assert(s.contains(x));
        }
    }
}

/// Every candidate of a word position below `n` is among the candidates of
/// the first `n` positions.
proof fn lemma_position_in_text(
    words: Seq<Seq<char>>,
    p2c: Map<Seq<char>, Seq<Seq<char>>>,
    c2p: Map<Seq<char>, Seq<Seq<char>>>,
    n: nat,
    i: int,
    x: Seq<char>,
)
    requires
        0 <= i < n,
        position_candidates(words, p2c, c2p, i).contains(x),
    ensures
        text_candidates(words, p2c, c2p, n).contains(x),
    decreases n,
{
    let prev = text_candidates(words, p2c, c2p, (n - 1) as nat);
    let pc = position_candidates(words, p2c, c2p, n - 1);
    assert(text_candidates(words, p2c, c2p, n) == prev + pc);
    if i < n - 1 {
        lemma_position_in_text(words, p2c, c2p, (n - 1) as nat, i, x);
        let k = choose|k: int| 0 <= k < prev.len() && prev[k] == x;
        assert((prev + pc)[k] == x);
    } else {
        let k = choose|k: int| 0 <= k < pc.len() && pc[k] == x;
        assert((prev + pc)[prev.len() + k] == x);
    }
}

/// Every word of a text and every pair of adjacent words is looked up in
/// the glossary: the code terms of each Pali word or meaning, the Pali
/// labels of each one-word code term, and the Pali labels of the two-word
/// code term that each word forms with the next one (`decay rate` gives
/// `jarā (aging)`) all appear among the text's expansions.
pub proof fn every_word_and_adjacent_pair_is_expanded(lower: Seq<char>, i: int, x: Seq<char>)
    requires
        0 <= i < lowercase_words(lower).len(),
    ensures
        ({
            let words = lowercase_words(lower);
            let maps = glossary_maps();
            &&& list_at(maps.0, words[i]).contains(x) ==> lowercase_expansions(lower).contains(x)
            &&& list_at(maps.1, words[i]).contains(x) ==> lowercase_expansions(lower).contains(x)
            &&& (i + 1 < words.len() && list_at(maps.1, words[i] + " "@ + words[i + 1]).contains(x))
                ==> lowercase_expansions(lower).contains(x)
        }),
{
    let words = lowercase_words(lower);
    let maps = glossary_maps();
    let a = list_at(maps.0, words[i]);
    let b = list_at(maps.1, words[i]);
    let c = if i + 1 < words.len() {
        list_at(maps.1, bigram(words, i))
    } else {
        Seq::<Seq<char>>::empty()
    };
    let pc = position_candidates(words, maps.0, maps.1, i);
    assert(pc == a + b + c);
    if a.contains(x) || b.contains(x) || (i + 1 < words.len() && list_at(maps.1, words[i] + " "@ + words[i
        + 1]).contains(x)) {
        if a.contains(x) {
            let k = choose|k: int| 0 <= k < a.len() && a[k] == x;
            assert((a + b + c)[k] == x);
        } else if b.contains(x) {
            let k = choose|k: int| 0 <= k < b.len() && b[k] == x;
            assert((a + b + c)[a.len() + k] == x);
        } else {
            let k = choose|k: int| 0 <= k < c.len() && c[k] == x;
            assert((a + b + c)[a.len() + b.len() + k] == x);
        }
        lemma_position_in_text(words, maps.0, maps.1, words.len(), i, x);
        lemma_add_unseen_contains(Seq::empty(), text_candidates(words, maps.0, maps.1, words.len()), x);
    }
}

proof fn lemma_add_unseen_unique(acc: Seq<Seq<char>>, s: Seq<Seq<char>>)
    requires
        acc.no_duplicates(),
    ensures
        add_unseen(acc, s).no_duplicates(),
    decreases s.len(),
{
    if s.len() > 0 {
        lemma_add_unseen_unique(acc, s.drop_last());
        let a = add_unseen(acc, s.drop_last());
        if !a.contains(s.last()) {
            let b = a.push(s.last());
            assert forall|i: int, j: int| 0 <= i < b.len() && 0 <= j < b.len() && i != j implies b[i] != b[j] by {
                if i < a.len() && j < a.len() {
                } else if i < a.len() {
                    assert(b[i] == a[i]);
                } else {
                    assert(b[j] == a[j]);
                }
            }
        }
    }
}

/// A candidate of the first `n` positions comes from one of them.
proof fn lemma_text_from_position(
    words: Seq<Seq<char>>,
    p2c: Map<Seq<char>, Seq<Seq<char>>>,
    c2p: Map<Seq<char>, Seq<Seq<char>>>,
    n: nat,
    x: Seq<char>,
) -> (i: int)
    requires
        text_candidates(words, p2c, c2p, n).contains(x),
    ensures
        0 <= i < n,
        position_candidates(words, p2c, c2p, i).contains(x),
    decreases n,
{
    let prev = text_candidates(words, p2c, c2p, (n - 1) as nat);
    let pc = position_candidates(words, p2c, c2p, n - 1);
    let t = text_candidates(words, p2c, c2p, n);
    assert(t == prev + pc);
    let k = choose|k: int| 0 <= k < t.len() && t[k] == x;
    if k < prev.len() {
        assert(prev[k] == x);
        lemma_text_from_position(words, p2c, c2p, (n - 1) as nat, x)
    } else {
        assert(pc[k - prev.len()] == x);
        n - 1
    }
}

/// Term `x` is what word `i` of a lowercased text, or the pair it starts
/// with the next word, is looked up to give.
pub open spec fn looked_up_at(lower: Seq<char>, i: int, x: Seq<char>) -> bool {
    let words = lowercase_words(lower);
    let maps = glossary_maps();
    &&& 0 <= i < words.len()
    &&& list_at(maps.0, words[i]).contains(x) || list_at(maps.1, words[i]).contains(x) || (i + 1 < words.len()
        && list_at(maps.1, words[i] + " "@ + words[i + 1]).contains(x))
}

/// The expansions of a text hold each term once, and only terms that some
/// word of the text, or some pair of adjacent words, is looked up to give.
pub proof fn expansions_come_from_the_words_once(lower: Seq<char>, x: Seq<char>)
    ensures
        lowercase_expansions(lower).no_duplicates(),
        lowercase_expansions(lower).contains(x) ==> exists|i: int| #[trigger] looked_up_at(lower, i, x),
{
    let words = lowercase_words(lower);
    let maps = glossary_maps();
    let tc = text_candidates(words, maps.0, maps.1, words.len());
    lemma_add_unseen_unique(Seq::empty(), tc);
    if lowercase_expansions(lower).contains(x) {
        lemma_add_unseen_contains(Seq::empty(), tc, x);
        let i = lemma_text_from_position(words, maps.0, maps.1, words.len(), x);
        let a = list_at(maps.0, words[i]);
        let b = list_at(maps.1, words[i]);
        let c = if i + 1 < words.len() {
            list_at(maps.1, bigram(words, i))
        } else {
            Seq::<Seq<char>>::empty()
        };
        let pc = position_candidates(words, maps.0, maps.1, i);
        assert(pc == a + b + c);
        let k = choose|k: int| 0 <= k < pc.len() && pc[k] == x;
        if k < a.len() {
            assert(a[k] == x);
        } else if k < a.len() + b.len() {
            assert(b[k - a.len()] == x);
        } else {
            assert(c[k - a.len() - b.len()] == x);
        }
        assert(looked_up_at(lower, i, x));
    }
}

} // verus!
