//! The guess-accumulation and candidate-filtering engine.

use vstd::prelude::*;

verus! {

/// What case-folding to lower case returns on a character sequence. Full
/// Unicode lowercasing takes pages to state, so the result only gets a name
/// here; the contracts of the folding wrapper say what is known of it.
pub uninterp spec fn lower_of(s: Seq<char>) -> Seq<char>;

/// The ASCII part of case-folding, stated exactly: an ASCII upper-case
/// letter maps to its lower-case counterpart, every other ASCII character is
/// unchanged.
pub open spec fn lower_char(c: char) -> char {
    if 'A' <= c && c <= 'Z' {
        (((c as u32) + 32) as u8) as char
    } else {
        c
    }
}

/// The ASCII fold of a whole token, character by character.
pub open spec fn fold_word(s: Seq<char>) -> Seq<char> {
    s.map_values(|c: char| lower_char(c))
}

/// Relies on str::to_lowercase: the Unicode lowercase of the string. Its
/// result is named `lower_of`; of that name this wrapper also states that on
/// an ASCII string the fold is the per-character ASCII fold, and that the
/// folded result is itself already folded (lowercasing a lowercase string
/// changes nothing, as each character without a lowercase mapping is
/// returned unchanged).
#[verifier::external_body]
fn lowercase(s: &str) -> (r: String)
    ensures
        r@ == lower_of(s@),
        vstd::utf8::is_ascii_chars(s@) ==> r@ == fold_word(s@),
        lower_of(r@) == r@,
{
    s.to_lowercase()
}

/// What can go wrong while answering a query: a transcript token of the
/// wrong length, or a transcript with no words at all.
#[derive(Debug)]
pub enum WordleError {
    /// The token does not have the required number of letters; `token` is the
    /// offending token as it appeared in the input, `required` the length a
    /// word must have.
    InvalidWordLength { token: String, required: usize },
    /// The transcript holds no words, so there is no target to solve for.
    EmptyTranscript,
}

/// Normalizes one text token into a five-letter word: case-folds it to
/// lower case, and succeeds exactly when the folded token has five
/// characters. A successful result is itself case-folded, so normalizing it
/// again reproduces it letter for letter.
pub fn wordle_word_to_char_array(word: &str) -> (r: Result<[char; 5], WordleError>)
    ensures
        match r {
            Ok(arr) => {
                &&& lower_of(word@).len() == 5
                &&& arr@ == lower_of(word@)
                &&& lower_of(arr@) == arr@
                &&& vstd::utf8::is_ascii_chars(word@) ==> word@.len() == 5 && arr@ == fold_word(
                    word@,
                )
            },
            Err(e) => {
                &&& lower_of(word@).len() != 5
                &&& (e matches WordleError::InvalidWordLength {
                    token,
                    required,
                } && token@ == word@ && required == 5)
                &&& vstd::utf8::is_ascii_chars(word@) ==> word@.len() != 5
            },
        },
{
    let folded = lowercase(word);
    let n = folded.as_str().unicode_len();
    if n != 5 {
        return Err(WordleError::InvalidWordLength { token: word.to_owned(), required: 5 });
    }
    let arr: [char; 5] = [
        folded.as_str().get_char(0),
        folded.as_str().get_char(1),
        folded.as_str().get_char(2),
        folded.as_str().get_char(3),
        folded.as_str().get_char(4),
    ];
    proof {
        assert(arr@ =~= lower_of(word@));
    }
    Ok(arr)
}

/// The lines of a text block: the sequences of characters between newline
/// separators, in order. A text of `k` newlines has `k + 1` lines; the empty
/// text has one empty line, as `str::split` would produce.
pub open spec fn line_split(s: Seq<char>) -> Seq<Seq<char>>
    decreases s.len(),
{
    if s.len() == 0 {
        seq![Seq::<char>::empty()]
    } else if s.last() == '\n' {
        line_split(s.drop_last()).push(Seq::<char>::empty())
    } else {
        let rest = line_split(s.drop_last());
        rest.update(rest.len() - 1, rest.last().push(s.last()))
    }
}

fn split_lines<'a>(text: &'a str) -> (tokens: Vec<&'a str>)
    ensures
        tokens.deep_view() == line_split(text@),
{
    let n = text.unicode_len();
    let mut tokens: Vec<&'a str> = Vec::new();
    let mut start: usize = 0;
    let mut i: usize = 0;
    proof {
        assert(text@.take(0) =~= Seq::<char>::empty());
        assert(line_split(text@.take(0)) =~= tokens.deep_view().push(text@.subrange(0, 0)));
    }
    while i < n
        invariant
            start <= i <= n,
            n == text@.len(),
            forall|j: int| start <= j < i ==> text@[j] != '\n',
            line_split(text@.take(i as int)) == tokens.deep_view().push(
                text@.subrange(start as int, i as int),
            ),
        decreases n - i,
    {
        let ghost prev_tokens = tokens.deep_view();
        let c = text.get_char(i);
        if c == '\n' {
            let tok = text.substring_char(start, i);
            tokens.push(tok);
            proof {
                assert(tokens.deep_view() =~= prev_tokens.push(text@.subrange(
                    start as int,
                    i as int,
                )));
            }
            start = i + 1;
        }
        proof {
            assert(text@.take(i + 1).drop_last() =~= text@.take(i as int));
            assert(text@.take(i + 1).last() == text@[i as int]);
            if c == '\n' {
                assert(text@.subrange(start as int, i + 1) =~= Seq::<char>::empty());
            } else {
                let rest = line_split(text@.take(i as int));
                assert(rest.last() == text@.subrange(start as int, i as int));
                assert(rest.update(rest.len() - 1, rest.last().push(text@[i as int]))
                    =~~= prev_tokens.push(text@.subrange(start as int, i + 1)));
            }
        }
        i = i + 1;
    }
    let ghost prev_tokens = tokens.deep_view();
    let tok = text.substring_char(start, n);
    tokens.push(tok);
    proof {
        assert(text@.take(n as int) =~= text@);
        assert(tokens.deep_view() =~= prev_tokens.push(text@.subrange(start as int, n as int)));
    }
    tokens
}

/// Splits a text block into one token per line and normalizes each token
/// into a five-letter word. Succeeds exactly when every line, case-folded,
/// has five characters; otherwise reports the first offending line.
pub fn parse_words_list(words: &str) -> (r: Result<Vec<[char; 5]>, WordleError>)
    ensures
        match r {
            Ok(v) => {
                &&& forall|j: int|
                    0 <= j < line_split(words@).len() ==> lower_of(
                        #[trigger] line_split(words@)[j],
                    ).len() == 5
                &&& v.deep_view() == line_split(words@).map_values(|t: Seq<char>| lower_of(t))
            },
            Err(e) => e matches WordleError::InvalidWordLength { token, required } && required == 5
                && exists|j: int|
                {
                    &&& 0 <= j < line_split(words@).len()
                    &&& lower_of(#[trigger] line_split(words@)[j]).len() != 5
                    &&& token@ == line_split(words@)[j]
                    &&& forall|k: int| 0 <= k < j ==> lower_of(line_split(words@)[k]).len() == 5
                },
        },
{
    let tokens = split_lines(words);
    let ghost lines = line_split(words@);
    let mut out: Vec<[char; 5]> = Vec::new();
    let mut i: usize = 0;
    while i < tokens.len()
        invariant
            i <= tokens.len(),
            lines == line_split(words@),
            tokens.deep_view() == lines,
            out@.len() == i,
            forall|j: int| 0 <= j < i ==> lower_of(#[trigger] lines[j]).len() == 5,
            forall|j: int| 0 <= j < i ==> (#[trigger] out@[j])@ == lower_of(lines[j]),
        decreases tokens.len() - i,
    {
        match wordle_word_to_char_array(tokens[i]) {
            Ok(arr) => {
                out.push(arr);
            },
            Err(e) => {
                proof {
                    assert(tokens.deep_view()[i as int] == tokens@[i as int]@);
                    assert(exists|j: int|
                        {
                            &&& 0 <= j < line_split(words@).len()
                            &&& lower_of(#[trigger] line_split(words@)[j]).len() != 5
                            &&& tokens@[i as int]@ == line_split(words@)[j]
                            &&& forall|k: int|
                                0 <= k < j ==> lower_of(line_split(words@)[k]).len() == 5
                        }) by {
                        assert((i as int) < line_split(words@).len());
                        assert(lower_of(line_split(words@)[i as int]).len() != 5);
                        assert(tokens@[i as int]@ == line_split(words@)[i as int]);
                        assert(forall|k: int|
                            0 <= k < i as int ==> lower_of(line_split(words@)[k]).len() == 5);
                    }
                }
                return Err(e);
            },
        }
        i = i + 1;
    }
    proof {
        assert(out.deep_view() =~~= lines.map_values(|t: Seq<char>| lower_of(t)));
    }
    Ok(out)
}

fn contains_char(v: &Vec<char>, c: char) -> (r: bool)
    ensures
        r == v@.contains(c),
{
    let mut j: usize = 0;
    while j < v.len()
        invariant
            j <= v@.len(),
            forall|k: int| 0 <= k < j ==> v@[k] != c,
        decreases v@.len() - j,
    {
        if v[j] == c {
            return true;
        }
        j = j + 1;
    }
    false
}

/// A five-letter word paired with the set of distinct letters it contains,
/// so that letter-membership tests need no rescan of the word.
#[derive(Debug)]
pub struct PreparsedWord {
    word: [char; 5],
    chars: Vec<char>,
}

impl View for PreparsedWord {
    type V = Seq<char>;

    closed spec fn view(&self) -> Seq<char> {
        self.word@
    }
}

impl DeepView for PreparsedWord {
    type V = Seq<char>;

    open spec fn deep_view(&self) -> Seq<char> {
        self.view()
    }
}

impl PreparsedWord {
    /// The derived letter index holds exactly the letters of the word.
    pub closed spec fn wf(self) -> bool {
        forall|c: char| #[trigger] self.chars@.contains(c) <==> self.word@.contains(c)
    }

    /// The five letters of the word.
    pub fn letters(&self) -> (w: [char; 5])
        ensures
            w@ == self@,
    {
        self.word
    }

    pub fn new(word: [char; 5]) -> (r: PreparsedWord)
        ensures
            r.wf(),
            r@ == word@,
    {
        let mut wordletters: Vec<char> = Vec::new();
        let mut i: usize = 0;
        while i < 5
            invariant
                i <= 5,
                forall|c: char| #[trigger] wordletters@.contains(c) <==> word@.take(i as int).contains(c),
            decreases 5 - i,
        {
            if !contains_char(&wordletters, word[i]) {
                wordletters.push(word[i]);
            }
            proof {
                broadcast use vstd::seq_lib::lemma_seq_contains_after_push;

                assert(word@.take(i + 1) =~= word@.take(i as int).push(word@[i as int]));
            }
            i = i + 1;
        }
        proof {
            assert(word@.take(5) =~= word@);
        }
        PreparsedWord { word, chars: wordletters }
    }
}

/// Precomputes a whole dictionary: every entry must already be a clean
/// token that case-folds to five letters, as the built-in word lists are.
pub fn must_convert_list_to_char_list(words: &[&str]) -> (r: Vec<PreparsedWord>)
    requires
        forall|j: int| 0 <= j < words@.len() ==> lower_of((#[trigger] words@[j])@).len() == 5,
    ensures
        r@.len() == words@.len(),
        forall|j: int|
            0 <= j < r@.len() ==> (#[trigger] r@[j]).wf() && r@[j]@ == lower_of(words@[j]@),
{
    let mut r: Vec<PreparsedWord> = Vec::new();
    let mut i: usize = 0;
    while i < words.len()
        invariant
            i <= words@.len(),
            forall|j: int| 0 <= j < words@.len() ==> lower_of((#[trigger] words@[j])@).len() == 5,
            r@.len() == i,
            forall|j: int|
                0 <= j < i ==> (#[trigger] r@[j]).wf() && r@[j]@ == lower_of(words@[j]@),
        decreases words@.len() - i,
    {
        let arr = match wordle_word_to_char_array(words[i]) {
            Ok(arr) => arr,
            Err(_) => {
                proof {
                    assert(false);
                }
                ['a', 'a', 'a', 'a', 'a']
            },
        };
        r.push(PreparsedWord::new(arr));
        i = i + 1;
    }
    r
}

/// Loads a whole dictionary, checking it first: each entry is normalized,
/// and the load fails with the first entry that does not case-fold to five
/// letters. On success the precomputed list holds one folded word per entry,
/// in order.
pub fn load_word_list(words: &[&str]) -> (r: Result<Vec<PreparsedWord>, WordleError>)
    ensures
        match r {
            Ok(v) => {
                &&& forall|j: int|
                    0 <= j < words@.len() ==> lower_of((#[trigger] words@[j])@).len() == 5
                &&& v@.len() == words@.len()
                &&& forall|j: int|
                    0 <= j < v@.len() ==> (#[trigger] v@[j]).wf() && v@[j]@ == lower_of(
                        words@[j]@,
                    )
            },
            Err(e) => e matches WordleError::InvalidWordLength { token, required } && required == 5
                && exists|j: int|
                {
                    &&& 0 <= j < words@.len()
                    &&& lower_of((#[trigger] words@[j])@).len() != 5
                    &&& token@ == words@[j]@
                    &&& forall|k: int| 0 <= k < j ==> lower_of(words@[k]@).len() == 5
                },
        },
{
    let mut i: usize = 0;
    while i < words.len()
        invariant
            i <= words@.len(),
            forall|j: int| 0 <= j < i ==> lower_of((#[trigger] words@[j])@).len() == 5,
        decreases words@.len() - i,
    {
        match wordle_word_to_char_array(words[i]) {
            Ok(_) => {},
            Err(e) => {
                proof {
                    assert(exists|j: int|
                        {
                            &&& 0 <= j < words@.len()
                            &&& lower_of((#[trigger] words@[j])@).len() != 5
                            &&& words@[i as int]@ == words@[j]@
                            &&& forall|k: int| 0 <= k < j ==> lower_of(words@[k]@).len() == 5
                        }) by {
                        assert(lower_of(words@[i as int]@).len() != 5);
                    }
                }
                return Err(e);
            },
        }
        i = i + 1;
    }
    Ok(must_convert_list_to_char_list(words))
}

/// Spec-level image of the knowledge held about one position of the target:
/// the letter confirmed to stand there, if any, and the letters known not to
/// stand there.
#[verifier::ext_equal]
pub ghost struct PositionModel {
    pub locked: Option<char>,
    pub not_here: Set<char>,
}

/// Spec-level image of everything a `Validator` has learned: the target
/// word, per-position knowledge, the letters absent from the target, and the
/// letters present somewhere other than where they were guessed.
#[verifier::ext_equal]
pub ghost struct ValidatorModel {
    pub target: Seq<char>,
    pub positions: Seq<PositionModel>,
    pub missed: Set<char>,
    pub misplaced: Set<char>,
}

impl ValidatorModel {
    /// Shape and soundness of the locked letters: five positions, and a
    /// locked letter is always the target's letter at that index, so locking
    /// can never rewrite earlier knowledge.
    pub open spec fn wf(self) -> bool {
        &&& self.target.len() == 5
        &&& self.positions.len() == 5
        &&& forall|i: int|
            0 <= i < 5 ==> ((#[trigger] self.positions[i]).locked matches Some(c) ==> c
                == self.target[i])
    }
}

/// The state of knowledge before any guess has been ingested.
pub open spec fn init_model(target: Seq<char>) -> ValidatorModel {
    ValidatorModel {
        target: target,
        positions: Seq::new(5, |i: int| (PositionModel { locked: None, not_here: Set::empty() })),
        missed: Set::empty(),
        misplaced: Set::empty(),
    }
}

/// The knowledge gained from comparing letter `g`, guessed at position `i`,
/// against the target: an exact match locks the position, a letter present
/// elsewhere in the target is barred from this position and marked
/// misplaced, and a letter absent from the target is marked missed.
pub open spec fn ingest_step(m: ValidatorModel, g: char, i: int) -> ValidatorModel {
    if g == m.target[i] {
        ValidatorModel {
            positions: m.positions.update(
                i,
                (PositionModel { locked: Some(g), not_here: m.positions[i].not_here }),
            ),
            ..m
        }
    } else if m.target.contains(g) {
        ValidatorModel {
            positions: m.positions.update(
                i,
                (PositionModel { locked: m.positions[i].locked, not_here: m.positions[i].not_here.insert(g) }),
            ),
            misplaced: m.misplaced.insert(g),
            ..m
        }
    } else {
        ValidatorModel { missed: m.missed.insert(g), ..m }
    }
}

/// The knowledge gained from the first `n` positions of a guess, leftmost
/// position first.
pub open spec fn ingest_prefix(m: ValidatorModel, guess: Seq<char>, n: int) -> ValidatorModel
    decreases n,
{
    if n <= 0 {
        m
    } else {
        ingest_step(ingest_prefix(m, guess, n - 1), guess[n - 1], n - 1)
    }
}

/// The whole effect of ingesting one five-letter guess.
pub open spec fn ingest_model(m: ValidatorModel, guess: Seq<char>) -> ValidatorModel {
    ingest_prefix(m, guess, 5)
}

/// Everything learned about one position of the hidden word.
pub struct Position {
    found_letter: Option<char>,
    invalid_letters: Vec<char>,
}

impl View for Position {
    type V = PositionModel;

    closed spec fn view(&self) -> PositionModel {
        PositionModel {
            locked: self.found_letter,
            not_here: Set::new(|c: char| self.invalid_letters@.contains(c)),
        }
    }
}

impl Position {
    pub fn new() -> (p: Position)
        ensures
            p@ == (PositionModel { locked: None, not_here: Set::empty() }),
    {
        let p = Position { found_letter: None, invalid_letters: Vec::new() };
        proof {
            assert(p@ =~~= (PositionModel { locked: None, not_here: Set::empty() }));
        }
        p
    }
}

/// The knowledge accumulator: tracks everything learned about the hidden
/// target word from the guesses ingested so far.
pub struct Validator {
    wordleword: PreparsedWord,
    letter_positions: Vec<Position>,
    missed_letters: Vec<char>,
    wrong_pos_letters: Vec<char>,
}

impl View for Validator {
    type V = ValidatorModel;

    closed spec fn view(&self) -> ValidatorModel {
        ValidatorModel {
            target: self.wordleword@,
            positions: self.letter_positions@.map_values(|p: Position| p@),
            missed: Set::new(|c: char| self.missed_letters@.contains(c)),
            misplaced: Set::new(|c: char| self.wrong_pos_letters@.contains(c)),
        }
    }
}

impl Validator {
    /// The target's letter index is sound, there are exactly five position
    /// slots, and the model invariant holds.
    pub closed spec fn wf(self) -> bool {
        &&& self.wordleword.wf()
        &&& self.letter_positions@.len() == 5
        &&& self@.wf()
    }

    pub fn new(wordleword: [char; 5]) -> (v: Validator)
        ensures
            v.wf(),
            v@ == init_model(wordleword@),
    {
        let mut positions: Vec<Position> = Vec::new();
        positions.push(Position::new());
        positions.push(Position::new());
        positions.push(Position::new());
        positions.push(Position::new());
        positions.push(Position::new());
        let v = Validator {
            wordleword: PreparsedWord::new(wordleword),
            letter_positions: positions,
            missed_letters: Vec::new(),
            wrong_pos_letters: Vec::new(),
        };
        proof {
            assert(v@ =~~= init_model(wordleword@));
        }
        v
    }

    /// Accumulates the feedback one guess reveals, position by position.
    pub fn injest_word(&mut self, word: [char; 5])
        requires
            old(self).wf(),
        ensures
            final(self).wf(),
            final(self)@ == ingest_model(old(self)@, word@),
    {
        let mut i: usize = 0;
        while i < 5
            invariant
                i <= 5,
                self.wf(),
                self.wordleword == old(self).wordleword,
                self@ == ingest_prefix(old(self)@, word@, i as int),
            decreases 5 - i,
        {
            let letter = word[i];
            let ghost prev = self@;
            if letter == self.wordleword.word[i] {
                self.letter_positions[i].found_letter = Some(letter);
            } else if contains_char(&self.wordleword.chars, letter) {
                self.letter_positions[i].invalid_letters.push(letter);
                self.wrong_pos_letters.push(letter);
            } else {
                self.missed_letters.push(letter);
            }
            proof {
                broadcast use vstd::seq_lib::lemma_seq_contains_after_push;

                assert(self@ =~~= ingest_step(prev, word@[i as int], i as int));
            }
            i = i + 1;
        }
    }
}

/// A candidate word is consistent with accumulated knowledge when it has no
/// missed letter, every misplaced letter appears somewhere in it, it shows
/// every locked letter at its locked position, and no letter of it stands at
/// a position that letter is barred from.
pub open spec fn consistent(m: ValidatorModel, w: Seq<char>) -> bool {
    &&& forall|c: char| #[trigger] m.missed.contains(c) ==> !w.contains(c)
    &&& forall|c: char| #[trigger] m.misplaced.contains(c) ==> w.contains(c)
    &&& forall|i: int|
        0 <= i < 5 ==> ((#[trigger] m.positions[i]).locked matches Some(c) ==> w[i] == c)
    &&& forall|i: int| 0 <= i < 5 ==> !(#[trigger] m.positions[i]).not_here.contains(w[i])
}

impl Validator {
    /// Decides whether a candidate is still a possible solution, given
    /// everything learned from the guesses ingested so far.
    #[verifier::loop_isolation(false)]
    pub fn valid_for_word(&self, word: &PreparsedWord) -> (r: bool)
        requires
            self.wf(),
            word.wf(),
        ensures
            r == consistent(self@, word@),
    {
        // Filter out words with letters we know are _not_ in the word.
        let mut j: usize = 0;
        while j < self.missed_letters.len()
            invariant
                j <= self.missed_letters@.len(),
                forall|k: int| 0 <= k < j ==> !word@.contains(#[trigger] self.missed_letters@[k]),
            decreases self.missed_letters@.len() - j,
        {
            if contains_char(&word.chars, self.missed_letters[j]) {
                proof {
                    assert(self@.missed.contains(self.missed_letters@[j as int]));
                }
                return false;
            }
            j = j + 1;
        }

        // Filter out words that lack a letter we know is in the word.
        let mut j: usize = 0;
        while j < self.wrong_pos_letters.len()
            invariant
                j <= self.wrong_pos_letters@.len(),
                forall|k: int| 0 <= k < j ==> word@.contains(#[trigger] self.wrong_pos_letters@[k]),
            decreases self.wrong_pos_letters@.len() - j,
        {
            if !contains_char(&word.chars, self.wrong_pos_letters[j]) {
                proof {
                    assert(self@.misplaced.contains(self.wrong_pos_letters@[j as int]));
                }
                return false;
            }
            j = j + 1;
        }

        // Check each position against the locked letter and the barred letters.
        let mut i: usize = 0;
        while i < 5
            invariant
                i <= 5,
                forall|k: int|
                    0 <= k < i ==> ((#[trigger] self@.positions[k]).locked matches Some(c)
                        ==> word@[k] == c),
                forall|k: int| 0 <= k < i ==> !(#[trigger] self@.positions[k]).not_here.contains(word@[k]),
            decreases 5 - i,
        {
            let letter = word.word[i];
            match self.letter_positions[i].found_letter {
                Some(found_letter) => {
                    if found_letter != letter {
                        proof {
                            assert(self@.positions[i as int] == self.letter_positions@[i as int]@);
                        }
                        return false;
                    }
                },
                None => {},
            }
            if contains_char(&self.letter_positions[i].invalid_letters, letter) {
                proof {
                    assert(self@.positions[i as int] == self.letter_positions@[i as int]@);
                    assert(self@.positions[i as int].not_here.contains(word@[i as int]));
                }
                return false;
            }
            i = i + 1;
        }
        proof {
            assert forall|c: char| #[trigger] self@.missed.contains(c) implies !word@.contains(
                c,
            ) by {
                let k = choose|k: int|
                    0 <= k < self.missed_letters@.len() && self.missed_letters@[k] == c;
            }
            assert forall|c: char| #[trigger] self@.misplaced.contains(c) implies word@.contains(
                c,
            ) by {
                let k = choose|k: int|
                    0 <= k < self.wrong_pos_letters@.len() && self.wrong_pos_letters@[k] == c;
            }
        }
        true
    }
}

/// How many words of `dict` are consistent with knowledge `m`.
pub open spec fn count_consistent(m: ValidatorModel, dict: Seq<Seq<char>>) -> nat
    decreases dict.len(),
{
    if dict.len() == 0 {
        0
    } else {
        count_consistent(m, dict.drop_last()) + (if consistent(m, dict.last()) {
            1nat
        } else {
            0nat
        })
    }
}

impl Validator {
    /// Counts the dictionary words still consistent with accumulated
    /// knowledge.
    #[verifier::loop_isolation(false)]
    fn count_valid_words(&self, dict: &Vec<PreparsedWord>) -> (n: u32)
        requires
            self.wf(),
            forall|j: int| 0 <= j < dict@.len() ==> (#[trigger] dict@[j]).wf(),
            dict@.len() <= u32::MAX,
        ensures
            n == count_consistent(self@, dict.deep_view()),
            n <= dict@.len(),
    {
        let mut n: u32 = 0;
        let mut i: usize = 0;
        while i < dict.len()
            invariant
                i <= dict@.len(),
                n <= i,
                n == count_consistent(self@, dict.deep_view().take(i as int)),
            decreases dict@.len() - i,
        {
            if self.valid_for_word(&dict[i]) {
                n = n + 1;
            }
            proof {
                assert(dict.deep_view().take(i + 1).drop_last() =~= dict.deep_view().take(
                    i as int,
                ));
                assert(dict.deep_view().take(i + 1).last() == dict@[i as int]@);
            }
            i = i + 1;
        }
        proof {
            assert(dict.deep_view().take(dict@.len() as int) =~= dict.deep_view());
        }
        n
    }
}

/// The knowledge accumulated after replaying `guesses`, in order, against
/// `target`.
pub open spec fn replay(target: Seq<char>, guesses: Seq<Seq<char>>) -> ValidatorModel
    decreases guesses.len(),
{
    if guesses.len() == 0 {
        init_model(target)
    } else {
        ingest_model(replay(target, guesses.drop_last()), guesses.last())
    }
}

/// Takes a transcript of guesses whose last word is the solution, and
/// calculates how many "valid" guesses were possible at each earlier step:
/// after each guess is ingested, one result entry gives the count of
/// consistent answers-dictionary words, then that count plus the count of
/// consistent extra-dictionary words. The target is removed from `words`.
#[verifier::loop_isolation(false)]
pub fn calculate_word_possibilities(
    words: &mut Vec<[char; 5]>,
    valid_words: &Vec<PreparsedWord>,
    extra_words: &Vec<PreparsedWord>,
) -> (r: Result<Vec<(u32, u32)>, WordleError>)
    requires
        forall|j: int| 0 <= j < valid_words@.len() ==> (#[trigger] valid_words@[j]).wf(),
        forall|j: int| 0 <= j < extra_words@.len() ==> (#[trigger] extra_words@[j]).wf(),
        valid_words@.len() + extra_words@.len() <= u32::MAX,
    ensures
        match r {
            Ok(res) => {
                &&& old(words)@.len() > 0
                &&& final(words)@ == old(words)@.drop_last()
                &&& res@.len() == old(words)@.len() - 1
                &&& forall|k: int|
                    0 <= k < res@.len() ==> {
                        let m = replay(
                            old(words).deep_view().last(),
                            old(words).deep_view().drop_last().take(k + 1),
                        );
                        (#[trigger] res@[k]).0 == count_consistent(m, valid_words.deep_view())
                            && res@[k].1 == res@[k].0 + count_consistent(
                            m,
                            extra_words.deep_view(),
                        )
                    }
            },
            Err(e) => {
                &&& e is EmptyTranscript
                &&& old(words)@.len() == 0
                &&& final(words)@ == old(words)@
            },
        },
{
    let wordleword = match words.pop() {
        Some(w) => w,
        None => {
            return Err(WordleError::EmptyTranscript);
        },
    };
    let mut validator = Validator::new(wordleword);
    let ghost target = wordleword@;
    let ghost guesses = words.deep_view();
    proof {
        assert(guesses.take(0) =~= Seq::<Seq<char>>::empty());
    }
    let mut num_word_chances: Vec<(u32, u32)> = Vec::new();
    let mut i: usize = 0;
    while i < words.len()
        invariant
            i <= words@.len(),
            words@ == old(words)@.drop_last(),
            guesses == words.deep_view(),
            validator.wf(),
            validator@ == replay(target, guesses.take(i as int)),
            num_word_chances@.len() == i,
            forall|k: int|
                0 <= k < i ==> {
                    let m = replay(target, guesses.take(k + 1));
                    (#[trigger] num_word_chances@[k]).0 == count_consistent(
                        m,
                        valid_words.deep_view(),
                    ) && num_word_chances@[k].1 == num_word_chances@[k].0 + count_consistent(
                        m,
                        extra_words.deep_view(),
                    )
                },
        decreases words@.len() - i,
    {
        let guessed_word = words[i];
        validator.injest_word(guessed_word);
        proof {
            assert(guesses.take(i + 1).drop_last() =~= guesses.take(i as int));
            assert(guesses[i as int] =~= guessed_word@);
        }
        let num_valid_words = validator.count_valid_words(valid_words);
        let num_extra_words = validator.count_valid_words(extra_words);
        num_word_chances.push((num_valid_words, num_valid_words + num_extra_words));
        i = i + 1;
    }
    proof {
        assert(old(words).deep_view().drop_last() =~~= guesses);
        assert(old(words).deep_view().last() =~= target);
    }
    Ok(num_word_chances)
}

proof fn lemma_ingest_prefix_wf(m: ValidatorModel, guess: Seq<char>, n: int)
    requires
        m.wf(),
        0 <= n <= 5,
    ensures
        ingest_prefix(m, guess, n).wf(),
        ingest_prefix(m, guess, n).target == m.target,
    decreases n,
{
    if n > 0 {
        lemma_ingest_prefix_wf(m, guess, n - 1);
    }
}

proof fn lemma_ingest_step_restricts(m: ValidatorModel, g: char, i: int, w: Seq<char>)
    requires
        m.wf(),
        0 <= i < 5,
    ensures
        consistent(ingest_step(m, g, i), w) ==> consistent(m, w),
{
    let m2 = ingest_step(m, g, i);
    if consistent(m2, w) {
        assert forall|c: char| #[trigger] m.missed.contains(c) implies !w.contains(c) by {
            assert(m2.missed.contains(c));
        }
        assert forall|c: char| #[trigger] m.misplaced.contains(c) implies w.contains(c) by {
            assert(m2.misplaced.contains(c));
        }
        assert forall|j: int| 0 <= j < 5 implies ((#[trigger] m.positions[j]).locked matches Some(
            c,
        ) ==> w[j] == c) by {
            match m.positions[j].locked {
                Some(c) => {
                    if j == i && g == m.target[i] {
                        assert(m2.positions[i].locked == Some(g));
                        assert(c == m.target[i]);
                    } else {
                        assert(m2.positions[j].locked == m.positions[j].locked);
                    }
                },
                None => {},
            }
        }
        assert forall|j: int| 0 <= j < 5 implies !(#[trigger] m.positions[j]).not_here.contains(
            w[j],
        ) by {
            assert(!m2.positions[j].not_here.contains(w[j]));
        }
    }
}

proof fn lemma_ingest_prefix_restricts(m: ValidatorModel, guess: Seq<char>, n: int, w: Seq<char>)
    requires
        m.wf(),
        0 <= n <= 5,
    ensures
        consistent(ingest_prefix(m, guess, n), w) ==> consistent(m, w),
    decreases n,
{
    if n > 0 {
        lemma_ingest_prefix_wf(m, guess, n - 1);
        lemma_ingest_step_restricts(ingest_prefix(m, guess, n - 1), guess[n - 1], n - 1, w);
        lemma_ingest_prefix_restricts(m, guess, n - 1, w);
    }
}

proof fn lemma_count_consistent_le(m1: ValidatorModel, m2: ValidatorModel, dict: Seq<Seq<char>>)
    requires
        forall|j: int|
            0 <= j < dict.len() ==> (consistent(m2, #[trigger] dict[j]) ==> consistent(
                m1,
                dict[j],
            )),
    ensures
        count_consistent(m2, dict) <= count_consistent(m1, dict),
    decreases dict.len(),
{
    if dict.len() > 0 {
        assert forall|j: int|
            0 <= j < dict.drop_last().len() implies (consistent(
            m2,
            #[trigger] dict.drop_last()[j],
        ) ==> consistent(m1, dict.drop_last()[j])) by {
            assert(dict.drop_last()[j] == dict[j]);
        }
        lemma_count_consistent_le(m1, m2, dict.drop_last());
    }
}

/// Accumulated knowledge only restricts the candidate set further: ingesting
/// one more guess never increases the number of dictionary words consistent
/// with it.
pub proof fn lemma_ingest_never_increases_count(
    m: ValidatorModel,
    guess: Seq<char>,
    dict: Seq<Seq<char>>,
)
    requires
        m.wf(),
    ensures
        count_consistent(ingest_model(m, guess), dict) <= count_consistent(m, dict),
{
    let m2 = ingest_model(m, guess);
    assert forall|j: int|
        0 <= j < dict.len() implies (consistent(m2, #[trigger] dict[j]) ==> consistent(
        m,
        dict[j],
    )) by {
        lemma_ingest_prefix_restricts(m, guess, 5, dict[j]);
    }
    lemma_count_consistent_le(m, m2, dict);
}

/// Knowledge stays sound along any replayed transcript: the model invariant
/// holds and the target never changes, so a locked letter can never be
/// rewritten by a later guess.
pub proof fn lemma_replay_wf(target: Seq<char>, guesses: Seq<Seq<char>>)
    requires
        target.len() == 5,
    ensures
        replay(target, guesses).wf(),
        replay(target, guesses).target == target,
    decreases guesses.len(),
{
    if guesses.len() > 0 {
        lemma_replay_wf(target, guesses.drop_last());
        lemma_ingest_prefix_wf(replay(target, guesses.drop_last()), guesses.last(), 5);
    }
}

/// Candidate counts are non-increasing step to step: along any transcript,
/// the number of dictionary words consistent after one more guess is never
/// larger than the number consistent before it.
pub proof fn lemma_counts_non_increasing(
    target: Seq<char>,
    guesses: Seq<Seq<char>>,
    dict: Seq<Seq<char>>,
    k: int,
)
    requires
        target.len() == 5,
        0 <= k,
        k + 1 <= guesses.len(),
    ensures
        count_consistent(replay(target, guesses.take(k + 1)), dict) <= count_consistent(
            replay(target, guesses.take(k)),
            dict,
        ),
{
    lemma_replay_wf(target, guesses.take(k));
    assert(guesses.take(k + 1).drop_last() =~= guesses.take(k));
    assert(guesses.take(k + 1).last() == guesses[k]);
    lemma_ingest_never_increases_count(replay(target, guesses.take(k)), guesses[k], dict);
}

/// Case-folding reproduces an already folded token letter for letter: on a
/// token with no upper-case ASCII letter, `fold_word` is the identity.
pub proof fn lemma_fold_word_identity(s: Seq<char>)
    requires
        forall|i: int| 0 <= i < s.len() ==> !('A' <= #[trigger] s[i] && s[i] <= 'Z'),
    ensures
        fold_word(s) == s,
{
    assert(fold_word(s) =~= s);
}

} // verus!
