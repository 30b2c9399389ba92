use wordle_stats::detector::{
    calculate_word_possibilities, load_word_list, must_convert_list_to_char_list,
    parse_words_list, wordle_word_to_char_array, Validator, WordleError,
};

#[test]
fn test_calculate_word_possibilities() {
    let mut words = parse_words_list(
        "train
weigh
slide
oxide",
    )
    .unwrap();
    let valid_words = must_convert_list_to_char_list(&["oxide", "slide", "aside", "guide"]);
    let extra_words = must_convert_list_to_char_list(&[]);
    let pos = calculate_word_possibilities(&mut words, &valid_words, &extra_words).unwrap();
    println!("{:?}", pos)
}

#[test]
fn counts_along_transcript_are_exact_and_non_increasing() {
    let mut words = parse_words_list("train\nweigh\nslide\noxide").unwrap();
    let valid_words = must_convert_list_to_char_list(&["oxide", "slide", "aside", "guide"]);
    let extra_words = must_convert_list_to_char_list(&[]);
    let pos = calculate_word_possibilities(&mut words, &valid_words, &extra_words).unwrap();
    assert_eq!(pos, vec![(3, 3), (2, 2), (1, 1)]);
    for k in 0..pos.len() - 1 {
        assert!(pos[k + 1].0 <= pos[k].0);
        assert!(pos[k + 1].1 <= pos[k].1);
    }
}

#[test]
fn single_guess_scenario() {
    // Answers dictionary of four words; the accepted-guesses list adds none.
    let valid_words = must_convert_list_to_char_list(&["oxide", "slide", "aside", "guide"]);
    let extra_words = must_convert_list_to_char_list(&[]);
    let mut words = parse_words_list("slide\noxide").unwrap();
    let pos = calculate_word_possibilities(&mut words, &valid_words, &extra_words).unwrap();
    assert_eq!(pos, vec![(2, 2)]);
}

#[test]
fn extra_words_enlarge_only_the_total() {
    let valid_words = must_convert_list_to_char_list(&["oxide", "slide"]);
    let extra_words = must_convert_list_to_char_list(&["aside", "guide"]);
    let mut words = parse_words_list("slide\noxide").unwrap();
    let pos = calculate_word_possibilities(&mut words, &valid_words, &extra_words).unwrap();
    // "oxide" passes among the answers; "guide" passes among the extras.
    assert_eq!(pos, vec![(1, 2)]);
}

#[test]
fn empty_guess_history_gives_empty_result() {
    let valid_words = must_convert_list_to_char_list(&["oxide", "slide", "aside", "guide"]);
    let extra_words = must_convert_list_to_char_list(&[]);
    let mut words = parse_words_list("oxide").unwrap();
    let pos = calculate_word_possibilities(&mut words, &valid_words, &extra_words).unwrap();
    assert!(pos.is_empty());
    assert!(words.is_empty());
}

#[test]
fn result_has_one_entry_per_guess() {
    let valid_words = must_convert_list_to_char_list(&["oxide", "slide", "aside", "guide"]);
    let extra_words = must_convert_list_to_char_list(&[]);
    let mut words = parse_words_list("train\nweigh\nslide\noxide").unwrap();
    let n = words.len();
    let pos = calculate_word_possibilities(&mut words, &valid_words, &extra_words).unwrap();
    assert_eq!(pos.len(), n - 1);
}

#[test]
fn empty_transcript_is_reported() {
    let valid_words = must_convert_list_to_char_list(&["oxide"]);
    let extra_words = must_convert_list_to_char_list(&[]);
    let mut words: Vec<[char; 5]> = Vec::new();
    let err = calculate_word_possibilities(&mut words, &valid_words, &extra_words).unwrap_err();
    assert!(matches!(err, WordleError::EmptyTranscript));
}

#[test]
fn four_letter_token_is_rejected_by_name() {
    let err = wordle_word_to_char_array("slid").unwrap_err();
    match err {
        WordleError::InvalidWordLength { token, required } => {
            assert_eq!(token, "slid");
            assert_eq!(required, 5);
        }
        WordleError::EmptyTranscript => panic!("wrong error kind"),
    }
}

#[test]
fn six_letter_token_is_rejected_by_name() {
    let err = wordle_word_to_char_array("slides").unwrap_err();
    match err {
        WordleError::InvalidWordLength { token, required } => {
            assert_eq!(token, "slides");
            assert_eq!(required, 5);
        }
        WordleError::EmptyTranscript => panic!("wrong error kind"),
    }
}

#[test]
fn first_bad_line_is_reported() {
    let err = parse_words_list("oxide\nslid\nguides").unwrap_err();
    match err {
        WordleError::InvalidWordLength { token, required } => {
            assert_eq!(token, "slid");
            assert_eq!(required, 5);
        }
        WordleError::EmptyTranscript => panic!("wrong error kind"),
    }
}

#[test]
fn empty_text_is_one_empty_token() {
    let err = parse_words_list("").unwrap_err();
    match err {
        WordleError::InvalidWordLength { token, required } => {
            assert_eq!(token, "");
            assert_eq!(required, 5);
        }
        WordleError::EmptyTranscript => panic!("wrong error kind"),
    }
}

#[test]
fn lowercase_word_round_trips() {
    let arr = wordle_word_to_char_array("oxide").unwrap();
    assert_eq!(arr, ['o', 'x', 'i', 'd', 'e']);
}

#[test]
fn uppercase_word_is_case_folded() {
    let arr = wordle_word_to_char_array("OXIDE").unwrap();
    assert_eq!(arr, ['o', 'x', 'i', 'd', 'e']);
    let arr = wordle_word_to_char_array("OxIdE").unwrap();
    assert_eq!(arr, ['o', 'x', 'i', 'd', 'e']);
}

#[test]
fn non_ascii_token_is_case_folded() {
    // Capital E acute folds to its lowercase counterpart; the token keeps
    // its five characters.
    let arr = wordle_word_to_char_array("slid\u{00C9}").unwrap();
    assert_eq!(arr, ['s', 'l', 'i', 'd', '\u{00E9}']);
}

#[test]
fn token_that_folds_longer_is_rejected() {
    // Dotted capital I folds to two characters, so this five-character
    // token has six once case-folded and must be rejected.
    let err = wordle_word_to_char_array("\u{0130}abcd").unwrap_err();
    match err {
        WordleError::InvalidWordLength { token, required } => {
            assert_eq!(token, "\u{0130}abcd");
            assert_eq!(required, 5);
        }
        WordleError::EmptyTranscript => panic!("wrong error kind"),
    }
}

#[test]
fn loading_a_clean_list_succeeds() {
    let dict = load_word_list(&["OXIDE", "slide"]).unwrap();
    assert_eq!(dict.len(), 2);
    assert_eq!(dict[0].letters(), ['o', 'x', 'i', 'd', 'e']);
    assert_eq!(dict[1].letters(), ['s', 'l', 'i', 'd', 'e']);
}

#[test]
fn loading_fails_on_the_first_bad_entry() {
    let err = load_word_list(&["oxide", "slid", "guides"]).unwrap_err();
    match err {
        WordleError::InvalidWordLength { token, required } => {
            assert_eq!(token, "slid");
            assert_eq!(required, 5);
        }
        WordleError::EmptyTranscript => panic!("wrong error kind"),
    }
}

#[test]
fn dictionary_entries_are_case_folded() {
    let dict = must_convert_list_to_char_list(&["OXIDE", "slide"]);
    assert_eq!(dict.len(), 2);
    assert_eq!(dict[0].letters(), ['o', 'x', 'i', 'd', 'e']);
    assert_eq!(dict[1].letters(), ['s', 'l', 'i', 'd', 'e']);
}

#[test]
fn validator_accumulates_single_guess_feedback() {
    let target = wordle_word_to_char_array("oxide").unwrap();
    let guess = wordle_word_to_char_array("slide").unwrap();
    let mut validator = Validator::new(target);
    validator.injest_word(guess);
    let dict = must_convert_list_to_char_list(&["oxide", "slide", "aside", "guide"]);
    assert!(validator.valid_for_word(&dict[0])); // oxide: no s or l, i/d/e match
    assert!(!validator.valid_for_word(&dict[1])); // slide: contains missed 's'
    assert!(!validator.valid_for_word(&dict[2])); // aside: contains missed 's'
    assert!(validator.valid_for_word(&dict[3])); // guide: no s or l, i/d/e match
}

#[test]
fn misplaced_letter_must_appear_in_candidate() {
    let target = wordle_word_to_char_array("oxide").unwrap();
    let guess = wordle_word_to_char_array("diner").unwrap();
    let mut validator = Validator::new(target);
    validator.injest_word(guess);
    // 'd' and 'i' and 'e' are in the target but in the wrong spots; a
    // candidate without them is inconsistent.
    let dict = must_convert_list_to_char_list(&["bloat", "guide"]);
    assert!(!validator.valid_for_word(&dict[0]));
    // "guide" has d, i and e, none at a barred position, no missed letter.
    assert!(validator.valid_for_word(&dict[1]));
}
