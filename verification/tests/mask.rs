use wordle::{LMask, Letter, ParseError, Word};

fn w(s: &str) -> Word {
    Word::from_str(s).unwrap()
}

#[test]
fn parse_accepts_five_letters() {
    let word = w("speed");
    assert_eq!(
        word,
        Word([Letter::S, Letter::P, Letter::E, Letter::E, Letter::D])
    );
}

#[test]
fn parse_is_case_insensitive() {
    assert_eq!(w("SPEED"), w("speed"));
    assert_eq!(w("SpEeD"), w("speed"));
}

#[test]
fn parse_rejects_wrong_length() {
    assert!(Word::from_str("spee").is_err());
    assert!(Word::from_str("speeds").is_err());
    assert!(Word::from_str("").is_err());
}

#[test]
fn parse_rejects_non_alphabetic() {
    assert!(Word::from_str("sp3ed").is_err());
    assert!(Word::from_str("sp ed").is_err());
    assert!(Word::from_str("spe-d").is_err());
}

#[test]
fn letter_from_byte_both_cases() {
    assert_eq!(Letter::from_byte(b'a').unwrap(), Letter::A);
    assert_eq!(Letter::from_byte(b'Z').unwrap(), Letter::Z);
    assert_eq!(Letter::from_byte(b'0'), Err(ParseError));
}

#[test]
fn letter_as_char_is_canonical() {
    assert_eq!(Letter::A.as_char(), 'A');
    assert_eq!(Letter::Z.as_char(), 'Z');
    assert_eq!(Letter::from_char('q').unwrap().as_char(), 'Q');
}

#[test]
fn compare_exact_match_is_all_match() {
    let word = w("crane");
    let mask = wordle::WMask::compare(word, word);
    assert_eq!(mask.mask, [LMask::Match; 5]);
    let other = w("zzzzz");
    let mask2 = wordle::WMask::compare(other, other);
    assert_eq!(mask2.mask, [LMask::Match; 5]);
}

#[test]
fn compare_disjoint_words_is_all_miss() {
    let mask = wordle::WMask::compare(w("crane"), w("logos"));
    assert_eq!(mask.mask, [LMask::Miss; 5]);
    let mask2 = wordle::WMask::compare(w("bumpy"), w("shirt"));
    assert_eq!(mask2.mask, [LMask::Miss; 5]);
}

#[test]
fn compare_no_duplicates_baseline() {
    // Every letter of the guess occurs in the answer, none at its own place.
    let mask = wordle::WMask::compare(w("abcde"), w("eabcd"));
    assert_eq!(mask.mask, [LMask::Partial; 5]);
    // Two anchored matches, the rest absent.
    let mask2 = wordle::WMask::compare(w("abxyz"), w("abcde"));
    assert_eq!(
        mask2.mask,
        [
            LMask::Match,
            LMask::Match,
            LMask::Miss,
            LMask::Miss,
            LMask::Miss
        ]
    );
}

#[test]
fn compare_duplicate_accounting() {
    // The answer holds two E's, so both E's of the guess earn partial credit,
    // each consuming one occurrence.
    let mask = wordle::WMask::compare(w("speed"), w("erase"));
    assert_eq!(
        mask.mask,
        [
            LMask::Partial,
            LMask::Miss,
            LMask::Partial,
            LMask::Partial,
            LMask::Miss
        ]
    );
    // Against an answer with a single E, the guess's second E finds no
    // unconsumed occurrence left and misses.
    let mask2 = wordle::WMask::compare(w("speed"), w("raise"));
    assert_eq!(
        mask2.mask,
        [
            LMask::Partial,
            LMask::Miss,
            LMask::Partial,
            LMask::Miss,
            LMask::Miss
        ]
    );
}

#[test]
fn compare_match_consumes_before_partial() {
    let mask = wordle::WMask::compare(w("aahed"), w("cacao"));
    assert_eq!(
        mask.mask,
        [
            LMask::Partial,
            LMask::Match,
            LMask::Miss,
            LMask::Miss,
            LMask::Miss
        ]
    );
    // Exact matches claim their letters first; the leftover duplicates fight
    // over what remains in answer order.
    let mask2 = wordle::WMask::compare(w("mamma"), w("madam"));
    assert_eq!(
        mask2.mask,
        [
            LMask::Match,
            LMask::Match,
            LMask::Partial,
            LMask::Miss,
            LMask::Partial
        ]
    );
}

#[test]
fn mask_is_self_consistent() {
    for (g, a) in [
        ("speed", "erase"),
        ("crane", "crane"),
        ("aahed", "cacao"),
        ("abcde", "eabcd"),
        ("mamma", "madam"),
    ] {
        let mask = wordle::WMask::compare(w(g), w(a));
        assert!(mask.matches(w(a)));
    }
}

#[test]
fn matches_rejects_contradicted_candidates() {
    let mask = wordle::WMask::compare(w("speed"), w("erase"));
    // The answer itself is consistent, the guess is not: its P missed.
    assert!(mask.matches(w("erase")));
    assert!(!mask.matches(w("speed")));
    // A word with no S cannot explain the partial S.
    assert!(!mask.matches(w("lemon")));
}
