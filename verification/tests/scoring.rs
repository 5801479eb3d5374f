use wordle::scoring::{
    apply_mask, calc_word_score, count_mask_hits, find_best_word, find_best_word_set, info_bits_fp,
    log2_fp,
};
use wordle::{Lang, WMask, Word};

fn w(s: &str) -> Word {
    Word::from_str(s).unwrap()
}

#[test]
fn lang_file_names() {
    assert_eq!(Lang::EN.wordlist(), "en_words.txt");
    assert_eq!(Lang::EN.sollist(), "en_sols.txt");
    assert_eq!(Lang::DE.wordlist(), "de_words.txt");
    assert_eq!(Lang::DE.sollist(), "de_sols.txt");
}

#[test]
fn log2_fixed_point_is_exact_on_powers_of_two() {
    assert_eq!(log2_fp(1), 0);
    assert_eq!(log2_fp(2), 1 << 16);
    assert_eq!(log2_fp(16), 4 << 16);
    assert_eq!(log2_fp(32), 5 << 16);
    assert_eq!(log2_fp(1024), 10 << 16);
}

#[test]
fn log2_fixed_point_brackets_other_values() {
    assert!(log2_fp(3) > 1 << 16);
    assert!(log2_fp(3) < 2 << 16);
    assert!(log2_fp(1000) > 9 << 16);
    assert!(log2_fp(1000) < 10 << 16);
}

#[test]
fn information_of_power_of_two_narrowing() {
    // Narrowing 16 candidates to 4 gains exactly two bits; 32 to 1, five.
    assert_eq!(info_bits_fp(16, 4), 2 << 16);
    assert_eq!(info_bits_fp(32, 1), 5 << 16);
}

#[test]
fn information_of_unchanged_pool_is_zero() {
    assert_eq!(info_bits_fp(7, 7), 0);
    assert_eq!(info_bits_fp(1, 1), 0);
}

#[test]
fn information_is_positive_for_real_narrowing() {
    assert!(info_bits_fp(10, 3) > 0);
    assert!(info_bits_fp(2315, 1) > 0);
}

#[test]
fn count_hits_counts_consistent_words() {
    let mask = WMask::compare(w("speed"), w("erase"));
    let pool = vec![w("erase"), w("speed"), w("lemon"), w("crane")];
    assert_eq!(count_mask_hits(&pool, &mask), 1);
    let all_miss = WMask::compare(w("fghij"), w("abcde"));
    let pool2 = vec![w("abcde"), w("eabcd"), w("fzzzz"), w("abcdz")];
    assert_eq!(count_mask_hits(&pool2, &all_miss), 3);
}

#[test]
fn narrowing_keeps_survivors_in_order() {
    let all_miss = WMask::compare(w("fghij"), w("abcde"));
    let mut pool = vec![w("abcde"), w("eabcd"), w("fzzzz"), w("abcdz")];
    let before = apply_mask(&mut pool, &all_miss);
    assert_eq!(before, 4);
    assert_eq!(pool, vec![w("abcde"), w("eabcd"), w("abcdz")]);
}

#[test]
fn narrowing_twice_is_a_no_op() {
    let mask = WMask::compare(w("speed"), w("erase"));
    let mut pool = vec![w("erase"), w("speed"), w("lemon"), w("crane")];
    let before = apply_mask(&mut pool, &mask);
    assert_eq!(before, 4);
    assert_eq!(pool, vec![w("erase")]);
    let again = apply_mask(&mut pool, &mask);
    assert_eq!(again, 1);
    assert_eq!(pool, vec![w("erase")]);
}

#[test]
fn best_word_tie_goes_to_pool_order() {
    let pool = vec![w("abcde"), w("fghij")];
    let sols = vec![w("abcde")];
    let (best, score) = find_best_word(&pool, &sols);
    // Both guesses leave a single consistent word, one bit out of two.
    assert_eq!(best, w("abcde"));
    assert_eq!(score, 1 << 16);
}

#[test]
fn best_word_maximizes_information() {
    let pool = vec![w("abcde"), w("fghij"), w("fghiz")];
    let sols = vec![w("fghij")];
    let (best, score) = find_best_word(&pool, &sols);
    // Both near-copies of the answer pin it down fully; the earlier one wins.
    assert_eq!(best, w("fghij"));
    assert_eq!(score, log2_fp(3));
    for g in &pool {
        assert!(calc_word_score(&pool, &sols, *g) <= score);
    }
}

#[test]
fn best_word_set_is_ranked_and_complete() {
    let pool = vec![w("abcde"), w("fghij"), w("fghiz")];
    let sols = vec![w("fghij")];
    let ranked = find_best_word_set(&pool, &sols);
    assert_eq!(ranked.len(), 3);
    assert!(ranked[0].1 >= ranked[1].1);
    assert!(ranked[1].1 >= ranked[2].1);
    assert_eq!(ranked[0].1, log2_fp(3));
    assert_eq!(ranked[2].0, w("abcde"));
    for (word, score) in &ranked {
        assert_eq!(calc_word_score(&pool, &sols, *word), *score);
    }
    let (best, best_score) = find_best_word(&pool, &sols);
    assert_eq!(ranked[0].0, best);
    assert_eq!(ranked[0].1, best_score);
}
