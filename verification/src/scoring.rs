//! Information-based scoring of guesses: counting surviving candidates,
//! narrowing pools by a mask, and searching a pool for the guess whose
//! expected information is greatest.
use crate::{compare_spec, mask_matches, LMask, Letter, WMask, Word};
use vstd::arithmetic::div_mod::{
    lemma_div_by_multiple, lemma_div_denominator, lemma_div_is_ordered, lemma_multiply_divide_lt,
    lemma_remainder_lower,
};
use vstd::arithmetic::power2::{lemma2_to64, lemma_pow2_adds, lemma_pow2_pos, pow2};
use vstd::prelude::*;

verus! {

/// Number of words among the first `n` of `words` consistent with mask `m`
/// for guess `g`.
pub open spec fn hits_upto(words: Seq<Word>, g: Seq<Letter>, m: Seq<LMask>, n: int) -> int
    decreases n,
{
    if n <= 0 {
        0
    } else {
        hits_upto(words, g, m, n - 1) + (if mask_matches(g, m, words[n - 1]@) {
            1int
        } else {
            0int
        })
    }
}

/// Number of words in `words` consistent with `mask`.
pub open spec fn mask_hits(words: Seq<Word>, mask: WMask) -> int {
    hits_upto(words, mask.guess@, mask.mask@, words.len() as int)
}

/// Count the words of `words` consistent with `mask`, without altering the pool.
pub fn count_mask_hits(words: &Vec<Word>, mask: &WMask) -> (r: usize)
    ensures
        r == mask_hits(words@, *mask),
{
    let mut count: usize = 0;
    let n = words.len();
    for k in 0..n
        invariant
            n == words@.len(),
            count == hits_upto(words@, mask.guess@, mask.mask@, k as int),
            count <= k,
    {
        if mask.matches(words[k]) {
            count += 1;
        }
    }
    count
}

/// The words among the first `n` of `words` consistent with mask `m` for guess
/// `g`, in their original order.
pub open spec fn survivors_upto(words: Seq<Word>, g: Seq<Letter>, m: Seq<LMask>, n: int) -> Seq<
    Word,
>
    decreases n,
{
    if n <= 0 {
        Seq::empty()
    } else {
        let pre = survivors_upto(words, g, m, n - 1);
        if mask_matches(g, m, words[n - 1]@) {
            pre.push(words[n - 1])
        } else {
            pre
        }
    }
}

/// The words of `words` consistent with `mask`, in their original order.
pub open spec fn survivors(words: Seq<Word>, mask: WMask) -> Seq<Word> {
    survivors_upto(words, mask.guess@, mask.mask@, words.len() as int)
}

/// Remove from the pool every word inconsistent with `mask`, keeping the
/// survivors in their original order, and report the size the pool had before.
/// The information gained is the log-ratio of the old size to the new one.
pub fn apply_mask(words: &mut Vec<Word>, mask: &WMask) -> (r: usize)
    ensures
        r == old(words)@.len(),
        final(words)@ == survivors(old(words)@, *mask),
{
    let n = words.len();
    let mut kept: Vec<Word> = Vec::new();
    for k in 0..n
        invariant
            n == words@.len(),
            words@ == old(words)@,
            kept@ == survivors_upto(words@, mask.guess@, mask.mask@, k as int),
    {
        if mask.matches(words[k]) {
            kept.push(words[k]);
        }
    }
    *words = kept;
    n
}

/// A narrowed prefix never holds more words than it was drawn from.
proof fn lemma_survivors_upto_len(words: Seq<Word>, g: Seq<Letter>, m: Seq<LMask>, n: int)
    requires
        0 <= n,
    ensures
        survivors_upto(words, g, m, n).len() <= n,
    decreases n,
{
    if n > 0 {
        lemma_survivors_upto_len(words, g, m, n - 1);
    }
}

/// Every word a narrowing keeps is consistent with the mask it was narrowed by.
proof fn lemma_survivors_upto_match(words: Seq<Word>, g: Seq<Letter>, m: Seq<LMask>, n: int)
    requires
        0 <= n,
    ensures
        forall|k: int|
            0 <= k < survivors_upto(words, g, m, n).len() ==> mask_matches(
                g,
                m,
                #[trigger] survivors_upto(words, g, m, n)[k]@,
            ),
    decreases n,
{
    if n > 0 {
        lemma_survivors_upto_match(words, g, m, n - 1);
        let pre = survivors_upto(words, g, m, n - 1);
        let cur = survivors_upto(words, g, m, n);
        assert forall|k: int| 0 <= k < cur.len() implies mask_matches(g, m, cur[k]@) by {
            if mask_matches(g, m, words[n - 1]@) {
                assert(cur == pre.push(words[n - 1]));
                if k < pre.len() {
                    assert(cur[k] == pre[k]);
                } else {
                    assert(cur[k] == words[n - 1]);
                }
            } else {
                assert(cur[k] == pre[k]);
            }
        }
    }
}

/// Narrowing a pool whose every word is already consistent keeps it unchanged.
proof fn lemma_survivors_upto_all(words: Seq<Word>, g: Seq<Letter>, m: Seq<LMask>, n: int)
    requires
        0 <= n <= words.len(),
        forall|k: int| 0 <= k < n ==> mask_matches(g, m, #[trigger] words[k]@),
    ensures
        survivors_upto(words, g, m, n) == words.take(n),
    decreases n,
{
    if n > 0 {
        lemma_survivors_upto_all(words, g, m, n - 1);
        assert(words.take(n - 1).push(words[n - 1]) =~= words.take(n));
    } else {
        assert(survivors_upto(words, g, m, 0) =~= words.take(0));
    }
}

/// Narrowing never grows a pool.
pub proof fn lemma_narrow_monotone(words: Seq<Word>, mask: WMask)
    ensures
        survivors(words, mask).len() <= words.len(),
{
    lemma_survivors_upto_len(words, mask.guess@, mask.mask@, words.len() as int);
}

/// Narrowing by the same mask a second time is a no-op: a word removed once is
/// never reintroduced, and the survivors all stay.
pub proof fn lemma_narrow_idempotent(words: Seq<Word>, mask: WMask)
    ensures
        survivors(survivors(words, mask), mask) == survivors(words, mask),
{
    let sv = survivors(words, mask);
    lemma_survivors_upto_match(words, mask.guess@, mask.mask@, words.len() as int);
    lemma_survivors_upto_all(sv, mask.guess@, mask.mask@, sv.len() as int);
    assert(sv.take(sv.len() as int) =~= sv);
}

/// Floor of the base-2 logarithm; 0 for inputs below 2.
pub open spec fn floor_log2(n: nat) -> nat
    decreases n,
{
    if n <= 1 {
        0
    } else {
        1 + floor_log2(n / 2)
    }
}

/// One binary-digit-extraction step of the logarithm: square the mantissa
/// (held in 1/65536ths, within [1, 2)), and shift the next bit of the
/// fractional part into the accumulator.
pub open spec fn norm_step(st: (nat, nat)) -> (nat, nat) {
    let y2 = st.1 * st.1 / 65536;
    if y2 >= 131072 {
        (2 * st.0 + 1, y2 / 2)
    } else {
        (2 * st.0, y2)
    }
}

/// `k` digit-extraction steps in sequence.
pub open spec fn norm_iter(st: (nat, nat), k: nat) -> (nat, nat)
    decreases k,
{
    if k == 0 {
        st
    } else {
        norm_iter(norm_step(st), (k - 1) as nat)
    }
}

/// The deterministic fixed-point base-2 logarithm scale of this library, in
/// 1/65536ths of a bit: the integer part of the logarithm followed by sixteen
/// fractional bits extracted by mantissa squaring.
pub open spec fn log2_fp_spec(n: nat) -> nat {
    let e = floor_log2(n);
    norm_iter((e, n * 65536 / pow2(e)), 16).0
}

/// Compute the fixed-point base-2 logarithm of `n`.
pub fn log2_fp(n: u64) -> (r: u64)
    requires
        1 <= n,
    ensures
        r as nat == log2_fp_spec(n as nat),
{
    let mut e: u64 = 0;
    let mut m: u64 = n;
    let mut p: u64 = 1;
    proof {
        lemma2_to64();
    }
    while m >= 2
        invariant
            1 <= n,
            1 <= m,
            1 <= p,
            e <= 63,
            p as nat == pow2(e as nat),
            p <= n,
            m as nat == n as nat / pow2(e as nat),
            floor_log2(n as nat) == e + floor_log2(m as nat),
        decreases m,
    {
        proof {
            lemma_pow2_pos(e as nat);
            lemma_pow2_adds(e as nat, 1);
            lemma2_to64();
            lemma_div_denominator(n as int, pow2(e as nat) as int, 2);
            // The pool is at least twice the current power of two, so the
            // doubled power still fits.
            lemma_remainder_lower(n as int, pow2(e as nat) as int);
            assert((m as int) * (p as int) >= 2 * (p as int)) by (nonlinear_arith)
                requires
                    m >= 2,
                    p >= 1,
            ;
            assert(pow2((e + 1) as nat) <= n as nat);
            assert(e + 1 <= 63) by {
                if e + 1 > 64 {
                    vstd::arithmetic::power2::lemma_pow2_strictly_increases(64, (e + 1) as nat);
                }
            }
        }
        m = m / 2;
        e = e + 1;
        p = p * 2;
    }
    proof {
        assert(floor_log2(m as nat) == 0);
        assert(e as nat == floor_log2(n as nat));
    }
    let y128: u128 = (n as u128) * 65536 / (p as u128);
    proof {
        // The normalized mantissa lies in [65536, 131072): `n / p` is 1.
        assert((n as int) * 65536 >= (p as int) * 65536);
        lemma_div_is_ordered((p as int) * 65536, (n as int) * 65536, p as int);
        lemma_div_by_multiple(65536, p as int);
        assert((p as int) * 65536 == 65536 * (p as int));
        assert(n < 2 * (p as int)) by {
            if n >= 2 * (p as int) {
                lemma_div_is_ordered(2 * (p as int), n as int, p as int);
                lemma_div_by_multiple(2, p as int);
                assert(2 * (p as int) == (2int) * (p as int));
            }
        }
        assert((n as int) * 65536 < (p as int) * 131072);
        lemma_multiply_divide_lt((n as int) * 65536, p as int, 131072);
    }
    let mut y: u64 = y128 as u64;
    let mut r: u64 = e;
    let ghost st0: (nat, nat) = (e as nat, (n as nat) * 65536 / pow2(e as nat));
    proof {
        assert(y as nat == st0.1);
    }
    for i in 0..16usize
        invariant
            65536 <= y < 131072,
            (r as int) < 64 * pow2(i as nat),
            norm_iter(st0, 16) == norm_iter((r as nat, y as nat), (16 - i) as nat),
        {
        proof {
            lemma2_to64();
            assert((y as int) * (y as int) < 131072 * 131072) by (nonlinear_arith)
                requires
                    y < 131072,
            ;
            assert((y as int) * (y as int) >= 65536 * 65536) by (nonlinear_arith)
                requires
                    y >= 65536,
            ;
            lemma_div_is_ordered((65536int) * 65536, (y as int) * (y as int), 65536);
            lemma_multiply_divide_lt((y as int) * (y as int), 65536, 262144);
            assert(pow2(i as nat) <= pow2(15)) by {
                if i < 15 {
                    vstd::arithmetic::power2::lemma_pow2_strictly_increases(i as nat, 15);
                }
            }
            assert(r < 64 * 32768);
        }
        let y2: u64 = (((y as u128) * (y as u128)) / 65536) as u64;
        proof {
            assert(norm_iter((r as nat, y as nat), (16 - i) as nat) == norm_iter(
                norm_step((r as nat, y as nat)),
                (16 - i - 1) as nat,
            ));
            assert(pow2((i + 1) as nat) == pow2(i as nat) * 2) by {
                lemma_pow2_adds(i as nat, 1);
            }
        }
        if y2 >= 131072 {
            r = 2 * r + 1;
            y = y2 / 2;
        } else {
            r = 2 * r;
            y = y2;
        }
    }
    proof {
        assert(norm_iter((r as nat, y as nat), 0) == (r as nat, y as nat));
    }
    r
}

/// Fixed-point information gained when a pool of `old_count` candidates
/// narrows to `new_count`: the difference of their logarithms on this
/// library's scale, clamped at zero.
pub open spec fn info_fp_spec(old_count: nat, new_count: nat) -> nat {
    if log2_fp_spec(new_count) <= log2_fp_spec(old_count) {
        (log2_fp_spec(old_count) - log2_fp_spec(new_count)) as nat
    } else {
        0
    }
}

/// Compute the fixed-point information gained when `old_count` candidates
/// narrow to `new_count`. Gaining no candidates gains no information.
pub fn info_bits_fp(old_count: u64, new_count: u64) -> (r: u64)
    requires
        1 <= old_count,
        1 <= new_count,
    ensures
        r as nat == info_fp_spec(old_count as nat, new_count as nat),
        new_count <= old_count ==> r as nat == log2_fp_spec(old_count as nat) - log2_fp_spec(
            new_count as nat,
        ),
        old_count == new_count ==> r == 0,
{
    proof {
        if new_count <= old_count {
            lemma_log2_fp_monotone(new_count as nat, old_count as nat);
        }
    }
    let lo = log2_fp(old_count);
    let ln = log2_fp(new_count);
    if ln <= lo {
        lo - ln
    } else {
        0
    }
}

/// The integer part of the logarithm is monotone.
proof fn lemma_floor_log2_monotone(n1: nat, n2: nat)
    requires
        n1 <= n2,
    ensures
        floor_log2(n1) <= floor_log2(n2),
    decreases n2,
{
    if n1 > 1 {
        lemma_div_is_ordered(n1 as int, n2 as int, 2);
        lemma_floor_log2_monotone(n1 / 2, n2 / 2);
    }
}

/// Digit extraction preserves the order of states: a state whose accumulator
/// is behind, or level with a mantissa no larger, stays so.
proof fn lemma_norm_iter_le(st1: (nat, nat), st2: (nat, nat), k: nat)
    requires
        st1.0 < st2.0 || (st1.0 == st2.0 && st1.1 <= st2.1),
    ensures
        norm_iter(st1, k).0 < norm_iter(st2, k).0 || (norm_iter(st1, k).0 == norm_iter(st2, k).0
            && norm_iter(st1, k).1 <= norm_iter(st2, k).1),
    decreases k,
{
    if k > 0 {
        if st1.0 == st2.0 {
            assert(st1.1 * st1.1 <= st2.1 * st2.1) by (nonlinear_arith)
                requires
                    st1.1 <= st2.1,
            ;
            lemma_div_is_ordered((st1.1 * st1.1) as int, (st2.1 * st2.1) as int, 65536);
            lemma_div_is_ordered(
                (st1.1 * st1.1 / 65536) as int,
                (st2.1 * st2.1 / 65536) as int,
                2,
            );
        }
        lemma_norm_iter_le(norm_step(st1), norm_step(st2), (k - 1) as nat);
    }
}

/// The extracted digits refine the starting integer part: after `k` steps the
/// accumulator lies between `st.0 * 2^k` and `(st.0 + 1) * 2^k`.
proof fn lemma_norm_iter_range(st: (nat, nat), k: nat)
    ensures
        st.0 * pow2(k) <= norm_iter(st, k).0,
        norm_iter(st, k).0 < (st.0 + 1) * pow2(k),
    decreases k,
{
    lemma2_to64();
    if k > 0 {
        let stn = norm_step(st);
        lemma_norm_iter_range(stn, (k - 1) as nat);
        lemma_pow2_adds((k - 1) as nat, 1);
        assert(2 * st.0 <= stn.0 <= 2 * st.0 + 1);
        assert(st.0 * (pow2((k - 1) as nat) * 2) == (2 * st.0) * pow2((k - 1) as nat))
            by (nonlinear_arith);
        assert((2 * st.0) * pow2((k - 1) as nat) <= stn.0 * pow2((k - 1) as nat))
            by (nonlinear_arith)
            requires
                2 * st.0 <= stn.0,
        ;
        assert((stn.0 + 1) * pow2((k - 1) as nat) <= (2 * st.0 + 2) * pow2((k - 1) as nat))
            by (nonlinear_arith)
            requires
                stn.0 + 1 <= 2 * st.0 + 2,
        ;
        assert((2 * st.0 + 2) * pow2((k - 1) as nat) == (st.0 + 1) * (pow2((k - 1) as nat) * 2))
            by (nonlinear_arith);
    }
}

/// The fixed-point logarithm is monotone: a pool no larger never scores a
/// larger logarithm.
pub proof fn lemma_log2_fp_monotone(n1: nat, n2: nat)
    requires
        1 <= n1 <= n2,
    ensures
        log2_fp_spec(n1) <= log2_fp_spec(n2),
{
    let e1 = floor_log2(n1);
    let e2 = floor_log2(n2);
    lemma_floor_log2_monotone(n1, n2);
    lemma_pow2_pos(e1);
    lemma_pow2_pos(e2);
    let y1 = n1 * 65536 / pow2(e1);
    let y2 = n2 * 65536 / pow2(e2);
    if e1 == e2 {
        lemma_div_is_ordered((n1 * 65536) as int, (n2 * 65536) as int, pow2(e1) as int);
        lemma_norm_iter_le((e1, y1), (e2, y2), 16);
    } else {
        lemma_norm_iter_range((e1, y1), 16);
        lemma_norm_iter_range((e2, y2), 16);
        lemma2_to64();
        assert((e1 + 1) * pow2(16) <= e2 * pow2(16)) by (nonlinear_arith)
            requires
                e1 + 1 <= e2,
        ;
    }
}

/// Information is never negative: when a pool narrows (or stays), the gain is
/// the exact difference of the two logarithms, and it vanishes when nothing
/// was ruled out.
pub proof fn lemma_info_nonnegative(old_count: nat, new_count: nat)
    requires
        1 <= new_count <= old_count,
    ensures
        info_fp_spec(old_count, new_count) == log2_fp_spec(old_count) - log2_fp_spec(new_count),
        new_count == old_count ==> info_fp_spec(old_count, new_count) == 0,
{
    lemma_log2_fp_monotone(new_count, old_count);
}

/// Sum that sticks at the largest representable score once reached.
pub open spec fn sat_add(a: nat, b: nat) -> nat {
    if a + b > u64::MAX {
        u64::MAX as nat
    } else {
        a + b
    }
}

/// Information contribution of one answer to the score of `g`: the gain from
/// narrowing the whole pool by the mask `g` would earn against that answer. An
/// answer no pool word survives contributes the largest representable score.
pub open spec fn answer_term(words: Seq<Word>, g: Word, a: Word) -> nat {
    let m = compare_spec(g@, a@);
    let h = hits_upto(words, g@, m, words.len() as int);
    if h <= 0 {
        u64::MAX as nat
    } else {
        info_fp_spec(words.len() as nat, h as nat)
    }
}

/// Score of guess `g` accumulated over the first `n` answers.
pub open spec fn score_upto(words: Seq<Word>, sols: Seq<Word>, g: Word, n: int) -> nat
    decreases n,
{
    if n <= 0 {
        0
    } else {
        sat_add(score_upto(words, sols, g, n - 1), answer_term(words, g, sols[n - 1]))
    }
}

/// Total expected-information score of guess `g`: its information against
/// every remaining answer, summed. The reference population is the full guess
/// pool, so the score measures how well `g` discriminates the guess space.
pub open spec fn word_score(words: Seq<Word>, sols: Seq<Word>, g: Word) -> nat {
    score_upto(words, sols, g, sols.len() as int)
}

/// Compute the total expected-information score of one guess.
pub fn calc_word_score(words: &Vec<Word>, sols: &Vec<Word>, guess: Word) -> (r: u64)
    requires
        1 <= words@.len(),
    ensures
        r as nat == word_score(words@, sols@, guess),
{
    let mut score: u64 = 0;
    let ns = sols.len();
    for k in 0..ns
        invariant
            ns == sols@.len(),
            1 <= words@.len(),
            score as nat == score_upto(words@, sols@, guess, k as int),
    {
        let mask = WMask::compare(guess, sols[k]);
        let h = count_mask_hits(words, &mask);
        let t: u64 = if h == 0 {
            u64::MAX
        } else {
            info_bits_fp(words.len() as u64, h as u64)
        };
        score = if score <= u64::MAX - t {
            score + t
        } else {
            u64::MAX
        };
    }
    score
}

/// Search the guess pool for the word of greatest total expected information
/// against `sollist`. Ties go to the earliest such word in the pool.
pub fn find_best_word(wordlist: &Vec<Word>, sollist: &Vec<Word>) -> (r: (Word, u64))
    requires
        1 <= wordlist@.len(),
    ensures
        r.1 as nat == word_score(wordlist@, sollist@, r.0),
        forall|k: int|
            0 <= k < wordlist@.len() ==> word_score(wordlist@, sollist@, #[trigger] wordlist@[k])
                <= r.1 as nat,
        exists|i: int|
            0 <= i < wordlist@.len() && r.0 == wordlist@[i] && (forall|k: int|
                0 <= k < i ==> word_score(wordlist@, sollist@, #[trigger] wordlist@[k])
                    < r.1 as nat),
{
    let mut best = wordlist[0];
    let mut best_score = calc_word_score(wordlist, sollist, best);
    let ghost mut bi: int = 0;
    let n = wordlist.len();
    for k in 1..n
        invariant
            n == wordlist@.len(),
            1 <= n,
            0 <= bi < k as int,
            k <= n,
            best == wordlist@[bi],
            best_score as nat == word_score(wordlist@, sollist@, best),
            forall|j: int|
                0 <= j < k ==> word_score(wordlist@, sollist@, #[trigger] wordlist@[j])
                    <= best_score as nat,
            forall|j: int|
                0 <= j < bi ==> word_score(wordlist@, sollist@, #[trigger] wordlist@[j])
                    < best_score as nat,
    {
        let s = calc_word_score(wordlist, sollist, wordlist[k]);
        if s > best_score {
            best = wordlist[k];
            best_score = s;
            proof {
                bi = k as int;
            }
        }
    }
    (best, best_score)
}

/// No score exceeds the largest representable one: the saturating sum clamps.
proof fn lemma_score_bounded(words: Seq<Word>, sols: Seq<Word>, g: Word, n: int)
    ensures
        score_upto(words, sols, g, n) <= u64::MAX,
    decreases n,
{
    if n > 0 {
        lemma_score_bounded(words, sols, g, n - 1);
    }
}

/// The scored guess pool: every word of `words` paired with its score.
pub open spec fn scored_pool(words: Seq<Word>, sols: Seq<Word>) -> Seq<(Word, u64)> {
    Seq::new(words.len(), |i: int| (words[i], word_score(words, sols, words[i]) as u64))
}

/// Rank the guess pool by total expected information and keep the 100 best,
/// highest first. Every returned pair carries a word of the pool with its
/// score; any pair left out scores no higher than every pair kept.
pub fn find_best_word_set(wordlist: &Vec<Word>, sollist: &Vec<Word>) -> (r: Vec<(Word, u64)>)
    requires
        1 <= wordlist@.len(),
    ensures
        r@.len() == (if wordlist@.len() < 100 {
            wordlist@.len() as int
        } else {
            100int
        }),
        forall|i: int, j: int| 0 <= i < j < r@.len() ==> r@[i].1 >= r@[j].1,
        forall|i: int|
            0 <= i < r@.len() ==> (#[trigger] r@[i]).1 as nat == word_score(
                wordlist@,
                sollist@,
                r@[i].0,
            ),
        r@.to_multiset().subset_of(scored_pool(wordlist@, sollist@).to_multiset()),
        forall|x: (Word, u64)|
            #[trigger] r@.to_multiset().count(x) < scored_pool(
                wordlist@,
                sollist@,
            ).to_multiset().count(x) ==> r@.len() == 100 && (forall|i: int|
                0 <= i < r@.len() ==> x.1 <= (#[trigger] r@[i]).1),
{
    broadcast use vstd::seq_lib::group_to_multiset_ensures, vstd::multiset::group_multiset_axioms;

    let n = wordlist.len();
    let mut scored: Vec<(Word, u64)> = Vec::new();
    for k in 0..n
        invariant
            n == wordlist@.len(),
            1 <= n,
            scored@ =~= scored_pool(wordlist@, sollist@).take(k as int),
    {
        let s = calc_word_score(wordlist, sollist, wordlist[k]);
        proof {
            lemma_score_bounded(wordlist@, sollist@, wordlist@[k as int], sollist@.len() as int);
        }
        scored.push((wordlist[k], s));
        proof {
            assert(scored@ =~= scored_pool(wordlist@, sollist@).take(k + 1));
        }
    }
    proof {
        assert(scored_pool(wordlist@, sollist@).take(n as int) =~= scored_pool(
            wordlist@,
            sollist@,
        ));
    }
    let ghost pool: Seq<(Word, u64)> = scored@;

    let mut rest = scored;
    let mut out: Vec<(Word, u64)> = Vec::new();
    while out.len() < 100 && rest.len() > 0
        invariant
            out@.len() + rest@.len() == pool.len(),
            out@.len() <= 100,
            pool == scored_pool(wordlist@, sollist@),
            forall|i: int, j: int| 0 <= i < j < out@.len() ==> out@[i].1 >= out@[j].1,
            forall|i: int, k: int|
                0 <= i < out@.len() && 0 <= k < rest@.len() ==> (#[trigger] out@[i]).1
                    >= (#[trigger] rest@[k]).1,
            out@.to_multiset().add(rest@.to_multiset()) =~= pool.to_multiset(),
            forall|i: int|
                0 <= i < out@.len() ==> (#[trigger] out@[i]).1 as nat == word_score(
                    wordlist@,
                    sollist@,
                    out@[i].0,
                ),
            forall|k: int|
                0 <= k < rest@.len() ==> (#[trigger] rest@[k]).1 as nat == word_score(
                    wordlist@,
                    sollist@,
                    rest@[k].0,
                ),
        decreases rest@.len(),
    {
        let mut mi: usize = 0;
        let mut ms: u64 = rest[0].1;
        let rn = rest.len();
        for k in 1..rn
            invariant
                rn == rest@.len(),
                1 <= rn,
                mi < rn,
                ms == rest@[mi as int].1,
                forall|j: int| 0 <= j < k ==> (#[trigger] rest@[j]).1 <= ms,
        {
            if rest[k].1 > ms {
                mi = k;
                ms = rest[k].1;
            }
        }
        let ghost rest_old: Seq<(Word, u64)> = rest@;
        let ghost out_old: Seq<(Word, u64)> = out@;
        let item = rest.remove(mi);
        out.push(item);
        proof {
            // Moving the best remaining entry keeps the combined contents.
            rest_old.to_multiset_ensures();
            out_old.to_multiset_ensures();
            assert(rest@ == rest_old.remove(mi as int));
            assert(out@ == out_old.push(item));
            assert(rest@.to_multiset() =~= rest_old.to_multiset().remove(item));
            assert(out@.to_multiset() =~= out_old.to_multiset().insert(item));
            assert(rest_old.to_multiset().count(item) > 0) by {
                assert(rest_old[mi as int] == item);
                assert(rest_old.contains(item));
            }
            assert(out@.to_multiset().add(rest@.to_multiset()) =~= pool.to_multiset());
            // The removed sequence holds exactly the other old entries.
            assert(forall|k: int|
                0 <= k < rest@.len() ==> #[trigger] rest@[k] == (if k < mi as int {
                    rest_old[k]
                } else {
                    rest_old[k + 1]
                }));
        }
    }
    proof {
        assert forall|x: (Word, u64)| #[trigger]
            out@.to_multiset().count(x) < pool.to_multiset().count(x) implies out@.len() == 100
            && (forall|i: int| 0 <= i < out@.len() ==> x.1 <= (#[trigger] out@[i]).1) by {
            assert(rest@.to_multiset().count(x) > 0);
            assert(rest@.contains(x));
            let k = choose|k: int| 0 <= k < rest@.len() && rest@[k] == x;
            assert(rest@.len() > 0);
            assert(out@.len() == 100);
        }
        assert forall|x: (Word, u64)|
            out@.to_multiset().count(x) <= pool.to_multiset().count(x) by {
            assert(out@.to_multiset().count(x) + rest@.to_multiset().count(x)
                == pool.to_multiset().count(x));
        }
    }
    out
}

} // verus!
