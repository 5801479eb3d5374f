//! Core of a five-letter word-guessing helper: a fixed-alphabet word model,
//! the per-letter feedback mask with duplicate-letter accounting, and an
//! information-based scoring and search engine over candidate pools.
use vstd::prelude::*;
use vstd::std_specs::iter::IteratorSpec;

mod error;
pub mod scoring;

pub use error::ParseError;

verus! {

/// Built-in word-list file names, one pair per supported language.
#[derive(Copy, Clone, PartialEq, Eq, Structural)]
pub enum Lang {
    EN,
    DE,
}

impl Lang {
    /// Name of the file holding the full guessable word list.
    pub fn wordlist(&self) -> (r: &'static str)
        ensures
            *self == Lang::EN ==> r@ == "en_words.txt"@,
            *self == Lang::DE ==> r@ == "de_words.txt"@,
    {
        match self {
            Lang::EN => "en_words.txt",
            Lang::DE => "de_words.txt",
        }
    }

    /// Name of the file holding the solution word list.
    pub fn sollist(&self) -> (r: &'static str)
        ensures
            *self == Lang::EN ==> r@ == "en_sols.txt"@,
            *self == Lang::DE ==> r@ == "de_sols.txt"@,
    {
        match self {
            Lang::EN => "en_sols.txt",
            Lang::DE => "de_sols.txt",
        }
    }
}

/// One of the 26 symbols of the ASCII alphabet; equality is symbol identity.
#[derive(Copy, Clone, Debug, PartialEq, Eq, Structural)]
pub enum Letter {
    A,
    B,
    C,
    D,
    E,
    F,
    G,
    H,
    I,
    J,
    K,
    L,
    M,
    N,
    O,
    P,
    Q,
    R,
    S,
    T,
    U,
    V,
    W,
    X,
    Y,
    Z,
}

/// Position of a letter in the alphabet, from 0 for `A` to 25 for `Z`.
pub open spec fn letter_index(l: Letter) -> int {
    match l {
        Letter::A => 0,
        Letter::B => 1,
        Letter::C => 2,
        Letter::D => 3,
        Letter::E => 4,
        Letter::F => 5,
        Letter::G => 6,
        Letter::H => 7,
        Letter::I => 8,
        Letter::J => 9,
        Letter::K => 10,
        Letter::L => 11,
        Letter::M => 12,
        Letter::N => 13,
        Letter::O => 14,
        Letter::P => 15,
        Letter::Q => 16,
        Letter::R => 17,
        Letter::S => 18,
        Letter::T => 19,
        Letter::U => 20,
        Letter::V => 21,
        Letter::W => 22,
        Letter::X => 23,
        Letter::Y => 24,
        Letter::Z => 25,
    }
}

/// Letter whose alphabet position is `i`.
pub open spec fn letter_at(i: int) -> Letter {
    if i == 0 {
        Letter::A
    } else if i == 1 {
        Letter::B
    } else if i == 2 {
        Letter::C
    } else if i == 3 {
        Letter::D
    } else if i == 4 {
        Letter::E
    } else if i == 5 {
        Letter::F
    } else if i == 6 {
        Letter::G
    } else if i == 7 {
        Letter::H
    } else if i == 8 {
        Letter::I
    } else if i == 9 {
        Letter::J
    } else if i == 10 {
        Letter::K
    } else if i == 11 {
        Letter::L
    } else if i == 12 {
        Letter::M
    } else if i == 13 {
        Letter::N
    } else if i == 14 {
        Letter::O
    } else if i == 15 {
        Letter::P
    } else if i == 16 {
        Letter::Q
    } else if i == 17 {
        Letter::R
    } else if i == 18 {
        Letter::S
    } else if i == 19 {
        Letter::T
    } else if i == 20 {
        Letter::U
    } else if i == 21 {
        Letter::V
    } else if i == 22 {
        Letter::W
    } else if i == 23 {
        Letter::X
    } else if i == 24 {
        Letter::Y
    } else {
        Letter::Z
    }
}

/// An ASCII byte that names a letter, in either case.
pub open spec fn is_letter_byte(b: u8) -> bool {
    (97 <= b && b <= 122) || (65 <= b && b <= 90)
}

/// Alphabet position named by an ASCII byte, case-insensitively.
pub open spec fn byte_letter_index(b: u8) -> int {
    if 65 <= b && b <= 90 {
        b - 65
    } else {
        b - 97
    }
}

/// A character that names a letter: an ASCII alphabetic character.
pub open spec fn is_letter_char(c: char) -> bool {
    (97 <= c as u32 && c as u32 <= 122) || (65 <= c as u32 && c as u32 <= 90)
}

/// Alphabet position named by a character, case-insensitively.
pub open spec fn char_letter_index(c: char) -> int {
    if 65 <= c as u32 && c as u32 <= 90 {
        c as u32 - 65
    } else {
        c as u32 - 97
    }
}

/// Letter named by a character, case-insensitively.
pub open spec fn letter_of_char(c: char) -> Letter {
    letter_at(char_letter_index(c))
}

impl Letter {
    /// Alphabet position of this letter, from 0 for `A` to 25 for `Z`.
    pub fn index(&self) -> (r: u8)
        ensures
            r as int == letter_index(*self),
    {
        match self {
            Letter::A => 0,
            Letter::B => 1,
            Letter::C => 2,
            Letter::D => 3,
            Letter::E => 4,
            Letter::F => 5,
            Letter::G => 6,
            Letter::H => 7,
            Letter::I => 8,
            Letter::J => 9,
            Letter::K => 10,
            Letter::L => 11,
            Letter::M => 12,
            Letter::N => 13,
            Letter::O => 14,
            Letter::P => 15,
            Letter::Q => 16,
            Letter::R => 17,
            Letter::S => 18,
            Letter::T => 19,
            Letter::U => 20,
            Letter::V => 21,
            Letter::W => 22,
            Letter::X => 23,
            Letter::Y => 24,
            Letter::Z => 25,
        }
    }

    /// Letter at alphabet position `i`.
    pub fn at_index(i: u8) -> (r: Letter)
        requires
            i < 26,
        ensures
            r == letter_at(i as int),
    {
        if i == 0 {
            Letter::A
        } else if i == 1 {
            Letter::B
        } else if i == 2 {
            Letter::C
        } else if i == 3 {
            Letter::D
        } else if i == 4 {
            Letter::E
        } else if i == 5 {
            Letter::F
        } else if i == 6 {
            Letter::G
        } else if i == 7 {
            Letter::H
        } else if i == 8 {
            Letter::I
        } else if i == 9 {
            Letter::J
        } else if i == 10 {
            Letter::K
        } else if i == 11 {
            Letter::L
        } else if i == 12 {
            Letter::M
        } else if i == 13 {
            Letter::N
        } else if i == 14 {
            Letter::O
        } else if i == 15 {
            Letter::P
        } else if i == 16 {
            Letter::Q
        } else if i == 17 {
            Letter::R
        } else if i == 18 {
            Letter::S
        } else if i == 19 {
            Letter::T
        } else if i == 20 {
            Letter::U
        } else if i == 21 {
            Letter::V
        } else if i == 22 {
            Letter::W
        } else if i == 23 {
            Letter::X
        } else if i == 24 {
            Letter::Y
        } else {
            Letter::Z
        }
    }

    /// Decode an ASCII byte into a letter, case-insensitively; any byte
    /// outside the two alphabetic ranges is rejected.
    pub fn from_byte(b: u8) -> (r: Result<Letter, ParseError>)
        ensures
            r is Ok <==> is_letter_byte(b),
            is_letter_byte(b) ==> r == Result::<Letter, ParseError>::Ok(
                letter_at(byte_letter_index(b)),
            ),
    {
        if 97 <= b && b <= 122 {
            Ok(Letter::at_index(b - 97))
        } else if 65 <= b && b <= 90 {
            Ok(Letter::at_index(b - 65))
        } else {
            Err(ParseError)
        }
    }

    /// Decode a character into a letter; only ASCII alphabetic characters
    /// are accepted, case-insensitively.
    pub fn from_char(c: char) -> (r: Result<Letter, ParseError>)
        ensures
            r is Ok <==> is_letter_char(c),
            is_letter_char(c) ==> r == Result::<Letter, ParseError>::Ok(letter_of_char(c)),
    {
        let u = c as u32;
        if 97 <= u && u <= 122 {
            Ok(Letter::at_index((u - 97) as u8))
        } else if 65 <= u && u <= 90 {
            Ok(Letter::at_index((u - 65) as u8))
        } else {
            Err(ParseError)
        }
    }

    /// Canonical (upper-case) character of this letter.
    pub fn as_char(&self) -> (r: char)
        ensures
            r as u32 == 65 + letter_index(*self),
            is_letter_char(r),
            letter_of_char(r) == *self,
    {
        let i = self.index();
        let r = ((i + 65) as u8) as char;
        proof {
            assert(letter_at(letter_index(*self)) == *self);
        }
        r
    }
}

/// An ordered sequence of exactly five letters.
#[derive(Copy, Clone, Debug)]
pub struct Word(pub [Letter; 5]);

impl View for Word {
    type V = Seq<Letter>;

    open spec fn view(&self) -> Seq<Letter> {
        self.0@
    }
}

impl PartialEq for Word {
    fn eq(&self, other: &Word) -> (r: bool) {
        let r = self.0[0] == other.0[0] && self.0[1] == other.0[1] && self.0[2] == other.0[2]
            && self.0[3] == other.0[3] && self.0[4] == other.0[4];
        proof {
            if r {
                assert(self@ =~= other@);
            } else {
                assert(self@ != other@);
            }
        }
        r
    }
}

impl Eq for Word {

}

impl vstd::std_specs::cmp::PartialEqSpecImpl for Word {
    open spec fn obeys_eq_spec() -> bool {
        true
    }

    open spec fn eq_spec(&self, other: &Word) -> bool {
        self@ == other@
    }
}

impl Word {
    /// Letter at position `i`.
    pub fn letter(&self, i: usize) -> (r: Letter)
        requires
            i < 5,
        ensures
            r == self@[i as int],
    {
        self.0[i]
    }
}

/// Whether a piece of text spells a well-formed word: exactly five ASCII
/// alphabetic characters.
pub open spec fn spells_word(s: Seq<char>) -> bool {
    s.len() == 5 && forall|i: int| 0 <= i < 5 ==> is_letter_char(#[trigger] s[i])
}

/// The word a well-formed piece of text spells, case-insensitively.
pub open spec fn parsed_word(s: Seq<char>) -> Seq<Letter> {
    Seq::new(5, |i: int| letter_of_char(s[i]))
}

impl Word {
    /// Decode text into a word, case-insensitively; text of any other length,
    /// or holding a character outside the ASCII alphabet, is rejected.
    pub fn from_str(s: &str) -> (r: Result<Word, ParseError>)
        ensures
            r is Ok <==> spells_word(s@),
            r matches Ok(w) ==> w@ == parsed_word(s@),
    {
        broadcast use vstd::string::axiom_spec_iter, vstd::string::next_postcondition;

        let mut it = s.chars();
        let mut letters: Vec<Letter> = Vec::new();
        for i in 0..5usize
            invariant
                it.obeys_prophetic_iter_laws(),
                it.remaining() =~= s@.skip(i as int),
                i <= s@.len(),
                letters@.len() == i,
                forall|k: int|
                    0 <= k < i ==> is_letter_char(#[trigger] s@[k]) && letters@[k]
                        == letter_of_char(s@[k]),
        {
            match it.next() {
                Some(c) => {
                    proof {
                        assert(c == s@[i as int]);
                    }
                    match Letter::from_char(c) {
                        Ok(l) => {
                            letters.push(l);
                            proof {
                                assert(it.remaining() =~= s@.skip(i + 1));
                            }
                        },
                        Err(e) => {
                            return Err(e);
                        },
                    }
                },
                None => {
                    proof {
                        assert(s@.len() == i);
                    }
                    return Err(ParseError);
                },
            }
        }
        match it.next() {
            Some(_) => {
                proof {
                    assert(s@.len() > 5);
                }
                Err(ParseError)
            },
            None => {
                proof {
                    assert(s@.len() == 5);
                }
                let w = Word([letters[0], letters[1], letters[2], letters[3], letters[4]]);
                proof {
                    assert(w@ =~= parsed_word(s@));
                }
                Ok(w)
            },
        }
    }
}

/// Per-letter outcome of holding a guess against an answer.
#[derive(Copy, Clone, Debug, PartialEq, Eq, Structural)]
pub enum LMask {
    Miss,
    Partial,
    Match,
}

/// Outcomes of the exact-position pass alone: `Match` where guess and answer
/// agree, `Miss` everywhere else.
pub open spec fn match_mask(g: Seq<Letter>, a: Seq<Letter>) -> Seq<LMask> {
    Seq::new(5, |i: int| if g[i] == a[i] { LMask::Match } else { LMask::Miss })
}

/// Answer positions consumed by the exact-position pass.
pub open spec fn match_counted(g: Seq<Letter>, a: Seq<Letter>) -> Seq<bool> {
    Seq::new(5, |i: int| g[i] == a[i])
}

/// Position of the first unconsumed occurrence of `l` in `a` at or after `j`.
pub open spec fn first_free(a: Seq<Letter>, counted: Seq<bool>, l: Letter, j: int) -> Option<int>
    decreases 5 - j,
{
    if j < 0 || j >= 5 {
        None
    } else if !counted[j] && a[j] == l {
        Some(j)
    } else {
        first_free(a, counted, l, j + 1)
    }
}

/// One step of the partial pass of `compare`: at position `i`, a letter still
/// marked `Miss` claims the first unconsumed matching answer occurrence, if any.
pub open spec fn partial_step(
    g: Seq<Letter>,
    a: Seq<Letter>,
    st: (Seq<LMask>, Seq<bool>),
    i: int,
) -> (Seq<LMask>, Seq<bool>) {
    if st.0[i] == LMask::Miss {
        match first_free(a, st.1, g[i], 0) {
            Some(j) => (st.0.update(i, LMask::Partial), st.1.update(j, true)),
            None => st,
        }
    } else {
        st
    }
}

/// Mask and consumption state after the exact-position pass and the first `i`
/// steps of the partial pass.
pub open spec fn partial_state(g: Seq<Letter>, a: Seq<Letter>, i: int) -> (Seq<LMask>, Seq<bool>)
    decreases i,
{
    if i <= 0 {
        (match_mask(g, a), match_counted(g, a))
    } else {
        partial_step(g, a, partial_state(g, a, i - 1), i - 1)
    }
}

/// The full feedback mask of guess `g` against answer `a`: exact-position
/// matches first, then partial credit under duplicate accounting.
pub open spec fn compare_spec(g: Seq<Letter>, a: Seq<Letter>) -> Seq<LMask> {
    partial_state(g, a, 5).0
}

/// The match check of the consistency test: every `Match` position of the mask
/// must hold the guessed letter in the candidate.
pub open spec fn match_pass_ok(g: Seq<Letter>, m: Seq<LMask>, w: Seq<Letter>) -> bool {
    forall|i: int| 0 <= i < 5 && m[i] == LMask::Match ==> w[i] == g[i]
}

/// Candidate positions consumed by the match check.
pub open spec fn match_pass_counted(m: Seq<LMask>) -> Seq<bool> {
    Seq::new(5, |i: int| m[i] == LMask::Match)
}

/// Position of the first unconsumed occurrence of `l` in `w` at or after `j`,
/// skipping position `ex`.
pub open spec fn first_free_except(
    w: Seq<Letter>,
    counted: Seq<bool>,
    l: Letter,
    ex: int,
    j: int,
) -> Option<int>
    decreases 5 - j,
{
    if j < 0 || j >= 5 {
        None
    } else if !counted[j] && w[j] == l && j != ex {
        Some(j)
    } else {
        first_free_except(w, counted, l, ex, j + 1)
    }
}

/// One step of the partial check: a `Partial` position of the mask must find an
/// unconsumed occurrence of its letter elsewhere in the candidate, and consumes it.
pub open spec fn partial_check_step(
    g: Seq<Letter>,
    w: Seq<Letter>,
    m: Seq<LMask>,
    st: (bool, Seq<bool>),
    i: int,
) -> (bool, Seq<bool>) {
    if !st.0 {
        st
    } else if m[i] == LMask::Partial {
        match first_free_except(w, st.1, g[i], i, 0) {
            Some(j) => (true, st.1.update(j, true)),
            None => (false, st.1),
        }
    } else {
        st
    }
}

/// Outcome and consumption state of the consistency test after the match check
/// and the first `i` steps of the partial check.
pub open spec fn partial_check_state(
    g: Seq<Letter>,
    w: Seq<Letter>,
    m: Seq<LMask>,
    i: int,
) -> (bool, Seq<bool>)
    decreases i,
{
    if i <= 0 {
        (match_pass_ok(g, m, w), match_pass_counted(m))
    } else {
        partial_check_step(g, w, m, partial_check_state(g, w, m, i - 1), i - 1)
    }
}

/// The miss check: no `Miss` letter of the mask may still occur unconsumed in
/// the candidate.
pub open spec fn miss_pass_ok(
    g: Seq<Letter>,
    m: Seq<LMask>,
    w: Seq<Letter>,
    counted: Seq<bool>,
) -> bool {
    forall|i: int, j: int|
        0 <= i < 5 && m[i] == LMask::Miss && 0 <= j < 5 && !counted[j] ==> w[j] != g[i]
}

/// Whether candidate `w` could have produced mask `m` for guess `g`: the match,
/// partial and miss checks all pass, sharing one consumption state in that order.
pub open spec fn mask_matches(g: Seq<Letter>, m: Seq<LMask>, w: Seq<Letter>) -> bool {
    let st = partial_check_state(g, w, m, 5);
    st.0 && miss_pass_ok(g, m, w, st.1)
}

/// A guess word paired with its five per-letter outcomes.
#[derive(Copy, Clone, Debug)]
pub struct WMask {
    pub mask: [LMask; 5],
    pub guess: Word,
}

/// Find the first unconsumed position of `a` holding letter `l`.
fn find_free(a: &Word, counted: &[bool; 5], l: Letter) -> (r: Option<usize>)
    ensures
        match r {
            Some(j) => j < 5 && first_free(a@, counted@, l, 0) == Some(j as int),
            None => first_free(a@, counted@, l, 0) is None,
        },
{
    for j in 0..5usize
        invariant
            first_free(a@, counted@, l, 0) == first_free(a@, counted@, l, j as int),
    {
        if !counted[j] && a.0[j] == l {
            return Some(j);
        }
    }
    None
}

/// Find the first unconsumed position of `w` other than `ex` holding letter `l`.
fn find_free_except(w: &Word, counted: &[bool; 5], l: Letter, ex: usize) -> (r: Option<usize>)
    ensures
        match r {
            Some(j) => j < 5 && first_free_except(w@, counted@, l, ex as int, 0) == Some(j as int),
            None => first_free_except(w@, counted@, l, ex as int, 0) is None,
        },
{
    for j in 0..5usize
        invariant
            first_free_except(w@, counted@, l, ex as int, 0) == first_free_except(
                w@,
                counted@,
                l,
                ex as int,
                j as int,
            ),
    {
        if !counted[j] && w.0[j] == l && j != ex {
            return Some(j);
        }
    }
    None
}

impl WMask {
    /// Compute the feedback mask of `guess` against `answer`: first the
    /// exact-position pass, then the partial pass, each answer letter consumed
    /// at most once across both.
    pub fn compare(guess: Word, answer: Word) -> (r: WMask)
        ensures
            r.guess == guess,
            r.mask@ == compare_spec(guess@, answer@),
    {
        let mut counted = [false, false, false, false, false];
        let mut mask = [LMask::Miss, LMask::Miss, LMask::Miss, LMask::Miss, LMask::Miss];

        for i in 0..5usize
            invariant
                forall|k: int| 0 <= k < i ==> mask@[k] == match_mask(guess@, answer@)[k],
                forall|k: int| i <= k < 5 ==> mask@[k] == LMask::Miss,
                forall|k: int| 0 <= k < i ==> counted@[k] == match_counted(guess@, answer@)[k],
                forall|k: int| i <= k < 5 ==> counted@[k] == false,
        {
            if guess.0[i] == answer.0[i] {
                counted[i] = true;
                mask[i] = LMask::Match;
            }
        }
        proof {
            assert(mask@ =~= match_mask(guess@, answer@));
            assert(counted@ =~= match_counted(guess@, answer@));
        }

        for i in 0..5usize
            invariant
                partial_state(guess@, answer@, i as int) == (mask@, counted@),
        {
            if is_miss(mask[i]) {
                match find_free(&answer, &counted, guess.0[i]) {
                    Some(j) => {
                        counted[j] = true;
                        mask[i] = LMask::Partial;
                        proof {
                            assert(partial_state(guess@, answer@, i + 1).0 =~= mask@);
                            assert(partial_state(guess@, answer@, i + 1).1 =~= counted@);
                        }
                    },
                    None => {
                        proof {
                            assert(partial_state(guess@, answer@, i + 1) == partial_state(
                                guess@,
                                answer@,
                                i as int,
                            ));
                        }
                    },
                }
            }
        }

        WMask { mask, guess }
    }

    /// Decide whether `word` could have produced this mask when compared
    /// against the stored guess, reproducing the consumption discipline of
    /// `compare` with `word` in the answer's role.
    pub fn matches(&self, word: Word) -> (r: bool)
        ensures
            r == mask_matches(self.guess@, self.mask@, word@),
    {
        let mut counted = [false, false, false, false, false];

        for i in 0..5usize
            invariant
                forall|k: int|
                    0 <= k < i && self.mask@[k] == LMask::Match ==> word@[k] == self.guess@[k],
                forall|k: int| 0 <= k < i ==> counted@[k] == match_pass_counted(self.mask@)[k],
                forall|k: int| i <= k < 5 ==> counted@[k] == false,
        {
            if is_match(self.mask[i]) {
                if word.0[i] == self.guess.0[i] {
                    counted[i] = true;
                } else {
                    proof {
                        lemma_check_failure_sticks(self.guess@, word@, self.mask@, 0);
                    }
                    return false;
                }
            }
        }
        proof {
            assert(counted@ =~= match_pass_counted(self.mask@));
        }

        for i in 0..5usize
            invariant
                partial_check_state(self.guess@, word@, self.mask@, i as int) == (true, counted@),
        {
            if is_partial(self.mask[i]) {
                match find_free_except(&word, &counted, self.guess.0[i], i) {
                    Some(j) => {
                        counted[j] = true;
                        proof {
                            assert(partial_check_state(self.guess@, word@, self.mask@, i + 1).1
                                =~= counted@);
                        }
                    },
                    None => {
                        proof {
                            lemma_check_failure_sticks(self.guess@, word@, self.mask@, i + 1);
                        }
                        return false;
                    },
                }
            }
        }

        for i in 0..5usize
            invariant
                partial_check_state(self.guess@, word@, self.mask@, 5) == (true, counted@),
                forall|k: int, j: int|
                    0 <= k < i && self.mask@[k] == LMask::Miss && 0 <= j < 5 && !counted@[j]
                        ==> word@[j] != self.guess@[k],
        {
            if is_miss(self.mask[i]) {
                for j in 0..5usize
                    invariant
                        i < 5,
                        partial_check_state(self.guess@, word@, self.mask@, 5) == (true, counted@),
                        self.mask@[i as int] == LMask::Miss,
                        forall|k: int, jj: int|
                            0 <= k < i && self.mask@[k] == LMask::Miss && 0 <= jj < 5
                                && !counted@[jj] ==> word@[jj] != self.guess@[k],
                        forall|jj: int|
                            0 <= jj < j && !counted@[jj] ==> word@[jj] != self.guess@[i as int],
                {
                    if !counted[j] && word.0[j] == self.guess.0[i] {
                        return false;
                    }
                }
            }
        }
        true
    }
}

/// Whether an outcome is `Miss`.
fn is_miss(m: LMask) -> (r: bool)
    ensures
        r == (m == LMask::Miss),
{
    match m {
        LMask::Miss => true,
        _ => false,
    }
}

/// Whether an outcome is `Partial`.
fn is_partial(m: LMask) -> (r: bool)
    ensures
        r == (m == LMask::Partial),
{
    match m {
        LMask::Partial => true,
        _ => false,
    }
}

/// Whether an outcome is `Match`.
fn is_match(m: LMask) -> (r: bool)
    ensures
        r == (m == LMask::Match),
{
    match m {
        LMask::Match => true,
        _ => false,
    }
}

/// Both components of a compare state keep length 5 through every step.
proof fn lemma_state_wf(g: Seq<Letter>, a: Seq<Letter>, k: int)
    requires
        0 <= k <= 5,
    ensures
        partial_state(g, a, k).0.len() == 5,
        partial_state(g, a, k).1.len() == 5,
    decreases k,
{
    if k > 0 {
        lemma_state_wf(g, a, k - 1);
        lemma_ff_some(a, partial_state(g, a, k - 1).1, g[k - 1], 0);
    }
}

/// What a successful search for an unconsumed occurrence returns: a position in
/// range, not yet consumed, holding the letter sought.
proof fn lemma_ff_some(a: Seq<Letter>, c: Seq<bool>, l: Letter, j: int)
    ensures
        first_free(a, c, l, j) matches Some(jj) ==> j <= jj < 5 && !c[jj] && a[jj] == l,
    decreases 5 - j,
{
    if !(j < 0 || j >= 5) && !(!c[j] && a[j] == l) {
        lemma_ff_some(a, c, l, j + 1);
    }
}

/// What a failed search guarantees: no unconsumed occurrence of the letter
/// remains at or after the starting position.
proof fn lemma_ff_none(a: Seq<Letter>, c: Seq<bool>, l: Letter, j: int)
    requires
        0 <= j,
        first_free(a, c, l, j) is None,
    ensures
        forall|jj: int| j <= jj < 5 && !c[jj] ==> a[jj] != l,
    decreases 5 - j,
{
    if !(j < 0 || j >= 5) {
        lemma_ff_none(a, c, l, j + 1);
    }
}

/// When the excluded position does not hold the letter sought, excluding it
/// does not change the search.
proof fn lemma_ffe_eq(a: Seq<Letter>, c: Seq<bool>, l: Letter, ex: int, j: int)
    requires
        0 <= ex < 5 ==> a[ex] != l,
    ensures
        first_free_except(a, c, l, ex, j) == first_free(a, c, l, j),
    decreases 5 - j,
{
    if !(j < 0 || j >= 5) {
        lemma_ffe_eq(a, c, l, ex, j + 1);
    }
}

/// Before step `i` of the partial pass runs, position `i` of the mask still
/// holds its exact-position outcome.
proof fn lemma_idx_before(g: Seq<Letter>, a: Seq<Letter>, i: int, k: int)
    requires
        0 <= i < 5,
        0 <= k <= i,
    ensures
        partial_state(g, a, k).0[i] == match_mask(g, a)[i],
    decreases k,
{
    if k > 0 {
        lemma_idx_before(g, a, i, k - 1);
        lemma_state_wf(g, a, k - 1);
        lemma_ff_some(a, partial_state(g, a, k - 1).1, g[k - 1], 0);
    }
}

/// After step `i` of the partial pass has run, position `i` of the mask never
/// changes again.
proof fn lemma_idx_after(g: Seq<Letter>, a: Seq<Letter>, i: int, k: int)
    requires
        0 <= i < 5,
        i + 1 <= k <= 5,
    ensures
        partial_state(g, a, k).0[i] == partial_state(g, a, i + 1).0[i],
    decreases k,
{
    if k > i + 1 {
        lemma_idx_after(g, a, i, k - 1);
        lemma_state_wf(g, a, k - 1);
        lemma_ff_some(a, partial_state(g, a, k - 1).1, g[k - 1], 0);
    }
}

/// Consumption is monotone: an answer position consumed at some step stays
/// consumed at every later step.
proof fn lemma_counted_mono(g: Seq<Letter>, a: Seq<Letter>, k1: int, k2: int, j: int)
    requires
        0 <= k1 <= k2 <= 5,
        0 <= j < 5,
        partial_state(g, a, k1).1[j],
    ensures
        partial_state(g, a, k2).1[j],
    decreases k2 - k1,
{
    if k2 > k1 {
        lemma_state_wf(g, a, k2 - 1);
        lemma_ff_some(a, partial_state(g, a, k2 - 1).1, g[k2 - 1], 0);
        lemma_counted_mono(g, a, k1, k2 - 1, j);
    }
}

/// A position of the final mask is `Match` exactly when guess and answer agree
/// there: the partial pass only ever turns `Miss` into `Partial`.
proof fn lemma_final_match_iff(g: Seq<Letter>, a: Seq<Letter>, i: int)
    requires
        0 <= i < 5,
    ensures
        compare_spec(g, a)[i] == LMask::Match <==> g[i] == a[i],
        compare_spec(g, a)[i] == LMask::Match || compare_spec(g, a)[i] == partial_state(
            g,
            a,
            i + 1,
        ).0[i],
    decreases 5 - i,
{
    lemma_idx_before(g, a, i, i);
    lemma_idx_after(g, a, i, 5);
    lemma_state_wf(g, a, i);
    lemma_ff_some(a, partial_state(g, a, i).1, g[i], 0);
}

/// Lockstep invariant between `compare` and the consistency test run on the
/// very answer that produced the mask: the test never fails, and both consume
/// the same answer positions step by step.
proof fn lemma_lockstep(g: Seq<Letter>, a: Seq<Letter>, k: int)
    requires
        g.len() == 5,
        a.len() == 5,
        0 <= k <= 5,
    ensures
        partial_check_state(g, a, compare_spec(g, a), k).0,
        partial_check_state(g, a, compare_spec(g, a), k).1 == partial_state(g, a, k).1,
    decreases k,
{
    let m = compare_spec(g, a);
    if k == 0 {
        assert forall|i: int| 0 <= i < 5 && m[i] == LMask::Match implies a[i] == g[i] by {
            lemma_final_match_iff(g, a, i);
        }
        assert(match_pass_ok(g, m, a));
        assert forall|i: int| 0 <= i < 5 implies match_pass_counted(m)[i] == match_counted(g, a)[i]
            by {
            lemma_final_match_iff(g, a, i);
        }
        assert(match_pass_counted(m) =~= match_counted(g, a));
    } else {
        lemma_lockstep(g, a, k - 1);
        let i = k - 1;
        let cs = partial_state(g, a, i);
        let ms = partial_check_state(g, a, m, i);
        lemma_state_wf(g, a, i);
        lemma_final_match_iff(g, a, i);
        assert(partial_state(g, a, k) == partial_step(g, a, cs, i));
        assert(partial_check_state(g, a, m, k) == partial_check_step(g, a, m, ms, i));
        lemma_idx_before(g, a, i, i);
        if g[i] == a[i] {
            // `Match` position: both passes leave their state unchanged.
            assert(cs.0[i] == LMask::Match);
            assert(m[i] == LMask::Match);
        } else {
            assert(cs.0[i] == LMask::Miss);
            let ff = first_free(a, cs.1, g[i], 0);
            lemma_ff_some(a, cs.1, g[i], 0);
            lemma_ffe_eq(a, cs.1, g[i], i, 0);
            match ff {
                Some(j) => {
                    // Both consume the same first unconsumed occurrence.
                    assert(partial_state(g, a, k).0[i] == LMask::Partial);
                    assert(m[i] == LMask::Partial);
                },
                None => {
                    // No occurrence left: the position stays `Miss` and the
                    // consistency test skips it.
                    assert(partial_state(g, a, k) == cs);
                    assert(m[i] == LMask::Miss);
                },
            }
        }
    }
}

/// Self-consistency of the mask engine: the answer that produced a mask is
/// always consistent with that mask.
pub proof fn lemma_self_consistency(g: Seq<Letter>, a: Seq<Letter>)
    requires
        g.len() == 5,
        a.len() == 5,
    ensures
        mask_matches(g, compare_spec(g, a), a),
{
    let m = compare_spec(g, a);
    lemma_lockstep(g, a, 5);
    let counted = partial_state(g, a, 5).1;
    assert forall|i: int, j: int|
        0 <= i < 5 && m[i] == LMask::Miss && 0 <= j < 5 && !counted[j] implies a[j] != g[i] by {
        lemma_final_match_iff(g, a, i);
        lemma_idx_before(g, a, i, i);
        let cs = partial_state(g, a, i);
        lemma_state_wf(g, a, i);
        // A final `Miss` means step `i` found nothing unconsumed, and
        // consumption only grows afterwards.
        assert(partial_state(g, a, i + 1) == partial_step(g, a, cs, i));
        lemma_ff_some(a, cs.1, g[i], 0);
        assert(first_free(a, cs.1, g[i], 0) is None);
        lemma_ff_none(a, cs.1, g[i], 0);
        if cs.1[j] {
            lemma_counted_mono(g, a, i, 5, j);
        }
    }
}

/// Comparing any word against itself yields `Match` at every position.
pub proof fn lemma_compare_exact(w: Seq<Letter>)
    requires
        w.len() == 5,
    ensures
        forall|i: int| 0 <= i < 5 ==> compare_spec(w, w)[i] == LMask::Match,
{
    assert forall|i: int| 0 <= i < 5 implies compare_spec(w, w)[i] == LMask::Match by {
        lemma_final_match_iff(w, w, i);
    }
}

/// No letter occurs twice in the word.
pub open spec fn distinct_letters(s: Seq<Letter>) -> bool {
    forall|i: int, j: int| 0 <= i < j < s.len() ==> s[i] != s[j]
}

/// The outcome duplicate-free words reduce to: an independent per-letter check.
pub open spec fn baseline_mask(g: Seq<Letter>, a: Seq<Letter>, i: int) -> LMask {
    if g[i] == a[i] {
        LMask::Match
    } else if a.contains(g[i]) {
        LMask::Partial
    } else {
        LMask::Miss
    }
}

/// State of the partial pass over duplicate-free words: positions already
/// processed carry the baseline outcome, and an answer position is consumed
/// exactly when its letter was claimed by an equal or partial guess letter.
proof fn lemma_distinct_state(g: Seq<Letter>, a: Seq<Letter>, k: int)
    requires
        g.len() == 5,
        a.len() == 5,
        distinct_letters(g),
        distinct_letters(a),
        0 <= k <= 5,
    ensures
        forall|i: int| 0 <= i < k ==> partial_state(g, a, k).0[i] == baseline_mask(g, a, i),
        forall|i: int| k <= i < 5 ==> partial_state(g, a, k).0[i] == match_mask(g, a)[i],
        forall|j: int|
            0 <= j < 5
                ==> (partial_state(g, a, k).1[j] <==> (g[j] == a[j] || exists|i: int|
                0 <= i < k && #[trigger] g[i] != a[i] && a[j] == g[i])),
    decreases k,
{
    if k > 0 {
        lemma_distinct_state(g, a, k - 1);
        lemma_state_wf(g, a, k - 1);
        let i = k - 1;
        let cs = partial_state(g, a, i);
        assert(partial_state(g, a, k) == partial_step(g, a, cs, i));
        if g[i] == a[i] {
            assert(match_mask(g, a)[i] == LMask::Match);
            assert(cs.0[i] == LMask::Match);
            assert forall|j: int| 0 <= j < 5 implies (partial_state(g, a, k).1[j] <==> (g[j] == a[j]
                || exists|ii: int| 0 <= ii < k && #[trigger] g[ii] != a[ii] && a[j] == g[ii])) by {
                if cs.1[j] {
                }
            }
        } else {
            assert(match_mask(g, a)[i] == LMask::Miss);
            assert(cs.0[i] == LMask::Miss);
            let ff = first_free(a, cs.1, g[i], 0);
            lemma_ff_some(a, cs.1, g[i], 0);
            if a.contains(g[i]) {
                let j0 = choose|j: int| 0 <= j < 5 && a[j] == g[i];
                // The one occurrence of this letter in the answer is still
                // unconsumed: any earlier claim would force a duplicate.
                assert(!cs.1[j0]) by {
                    if g[j0] == a[j0] {
                        assert(g[j0] == g[i]);
                    }
                    if exists|ii: int| 0 <= ii < i && #[trigger] g[ii] != a[ii] && a[j0] == g[ii] {
                        let ii = choose|ii: int|
                            0 <= ii < i && #[trigger] g[ii] != a[ii] && a[j0] == g[ii];
                        assert(g[ii] == g[i]);
                    }
                }
                assert(ff is Some) by {
                    if ff is None {
                        lemma_ff_none(a, cs.1, g[i], 0);
                    }
                }
                let jf = ff->Some_0;
                assert(a[jf] == g[i] && a[j0] == g[i]);
                assert(jf == j0);
                assert(partial_state(g, a, k).0[i] == LMask::Partial);
                assert forall|j: int| 0 <= j < 5 implies (partial_state(g, a, k).1[j] <==> (g[j]
                    == a[j] || exists|ii: int|
                    0 <= ii < k && #[trigger] g[ii] != a[ii] && a[j] == g[ii])) by {
                    if j == j0 {
                        assert(0 <= i < k && g[i] != a[i] && a[j0] == g[i]);
                    } else {
                        if exists|ii: int|
                            0 <= ii < k && #[trigger] g[ii] != a[ii] && a[j] == g[ii] {
                            let ii = choose|ii: int|
                                0 <= ii < k && #[trigger] g[ii] != a[ii] && a[j] == g[ii];
                            if ii == i {
                                assert(a[j] == g[i] && a[j0] == g[i]);
                                assert(j == j0);
                            }
                        }
                    }
                }
            } else {
                assert(ff is None) by {
                    if ff is Some {
                        assert(a.contains(g[i]));
                    }
                }
                assert(partial_state(g, a, k) == cs);
                assert forall|j: int| 0 <= j < 5 implies (partial_state(g, a, k).1[j] <==> (g[j]
                    == a[j] || exists|ii: int|
                    0 <= ii < k && #[trigger] g[ii] != a[ii] && a[j] == g[ii])) by {
                    if exists|ii: int| 0 <= ii < k && #[trigger] g[ii] != a[ii] && a[j] == g[ii] {
                        let ii = choose|ii: int|
                            0 <= ii < k && #[trigger] g[ii] != a[ii] && a[j] == g[ii];
                        if ii == i {
                            assert(a.contains(g[i]));
                        }
                    }
                }
            }
        }
    }
}

/// When neither word repeats a letter, the mask reduces to independent
/// per-letter checks: `Match` at equal positions, `Partial` where the letter
/// occurs elsewhere in the answer, `Miss` otherwise.
pub proof fn lemma_compare_distinct(g: Seq<Letter>, a: Seq<Letter>)
    requires
        g.len() == 5,
        a.len() == 5,
        distinct_letters(g),
        distinct_letters(a),
    ensures
        forall|i: int| 0 <= i < 5 ==> compare_spec(g, a)[i] == baseline_mask(g, a, i),
{
    lemma_distinct_state(g, a, 5);
}

/// Once some step of the consistency test has failed, every later state of the
/// test reports failure as well.
proof fn lemma_check_failure_sticks(g: Seq<Letter>, w: Seq<Letter>, m: Seq<LMask>, i: int)
    requires
        0 <= i <= 5,
        !partial_check_state(g, w, m, i).0,
    ensures
        !mask_matches(g, m, w),
    decreases 5 - i,
{
    if i < 5 {
        assert(partial_check_state(g, w, m, i + 1) == partial_check_step(
            g,
            w,
            m,
            partial_check_state(g, w, m, i),
            i,
        ));
        lemma_check_failure_sticks(g, w, m, i + 1);
    }
}

} // verus!
