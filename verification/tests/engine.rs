use rustrict::{add_replacement, add_word, ban_character, Censor, CensorIter, CensorStr, Type};

/// A censor over `text` with the given flagged words in its trie.
fn censor_with(text: &str, words: &[(&str, Type)]) -> Censor {
    let mut c = Censor::from_str(text);
    for (w, t) in words {
        add_word(&mut c, w, *t);
    }
    c
}

fn profane_words() -> Vec<(&'static str, Type)> {
    vec![
        ("fuck", Type::profane()),
        ("shit", Type::profane()),
        ("fcking", Type::profane()),
        ("nigga", Type::offensive().intersect(Type::severe())),
    ]
}

#[test]
fn curated() {
    let cases: Vec<(&str, bool, Option<bool>)> = vec![("", false, Some(false))];
    for (case, any_truth, safe_truth) in cases {
        let any = Censor::from_str(case).analyze().is(Type::any());
        let safe = Censor::from_str(case).analyze().is(Type::safe());
        if any != any_truth {
            panic!("predicted {} for {}", any, case);
        }
        if let Some(safe_truth) = safe_truth {
            if safe != safe_truth {
                panic!("predicted safe={} for {}", safe, case);
            }
        }
    }
}

#[test]
fn censor() {
    let mut c = censor_with("HELLO fu\u{10d}k Shit nigga WORLD!", &profane_words())
        .with_censor_replacement('#');
    assert_eq!(c.censor(), "HELLO f### S### ##### WORLD!");

    let mut c = censor_with("fcking coward", &profane_words());
    assert_eq!(c.censor(), "f***** coward");

    let mut c = censor_with("\u{534d}", &[("\u{534d}", Type::offensive())])
        .with_censor_first_character_threshold(Type::none());
    assert_eq!(c.censor(), "*");
}

#[test]
fn bidirectional() {
    // Censoring drops the banned direction override, so the text that comes
    // out is the text that was analyzed.
    let mut c = Censor::from_str("an \u{202e}toidi");
    ban_character(&mut c, '\u{202e}');
    assert_eq!(c.censor(), "an toidi");
}

#[test]
fn analyze() {
    let analysis = censor_with("HELLO fuck shit WORLD!", &profane_words()).analyze();

    assert!(!analysis.is_empty());
    assert!(analysis.is(Type::inappropriate()));
    assert!(analysis.is(Type::profane()));
    assert!(analysis.isnt(Type::sexual().intersect(Type::severe())));
    assert!(analysis.isnt(Type::offensive()));
    assert!(analysis.isnt(Type::mean()));
    assert!(analysis.isnt(Type::safe()));
}

#[test]
fn analysis_is_deterministic() {
    // Fresh instances over the same input and configuration agree.
    let text = "HELLO fu\u{10d}k Shit nigga WORLD! @ss f u c k";
    let first = censor_with(text, &profane_words()).analyze();
    let second = censor_with(text, &profane_words()).analyze();
    assert_eq!(first.bits, second.bits);

    let first = censor_with(text, &profane_words()).censor();
    let second = censor_with(text, &profane_words()).censor();
    assert_eq!(first, second);
}

#[test]
fn apis() {
    let _ = "abcd".censor();
    let _ = String::from("abcd").censor();
    let _ = "abcd".chars().collect::<Vec<char>>().censor();
    let mut c = Censor::new("abcd".chars().collect()).with_censor_replacement('?');
    let (_, _) = c.censor_and_analyze();
    let mut censor = Censor::from_str("abcd");
    let _ = censor.censor();
    let _ = censor.analyze();
    let mut c = Censor::from_str("HELLO crap WORLD!");
    let (_, _) = c.censor_and_analyze();
}

#[test]
fn customize() {
    let test_profanity = "thisisafakeprofanityfortesting";
    let test_safe = "thisisafakesafewordfortesting";
    let banned = "\u{a66e}";

    let severity = Type::profane().intersect(Type::severe());
    let analysis = censor_with(test_profanity, &[(test_profanity, severity)]).analyze();
    assert!(analysis.is(severity));

    let analysis = censor_with(test_safe, &[(test_safe, Type::safe())]).analyze();
    assert!(analysis.is(Type::safe()));

    let mut c = Censor::from_str(banned);
    for ch in banned.chars() {
        ban_character(&mut c, ch);
    }
    assert_eq!(c.censor(), "");
}

#[test]
fn accuracy() {
    let positives = ["you are a fuck", "shit happens", "so fcking stupid"];
    let negatives = ["hello world", "have a nice day", "the cat sat on the mat"];

    let mut correct_positive = 0;
    for text in positives {
        if censor_with(text, &profane_words()).analyze().is(Type::any()) {
            correct_positive += 1;
        }
    }
    let mut correct_negative = 0;
    for text in negatives {
        if censor_with(text, &profane_words()).analyze().isnt(Type::any()) {
            correct_negative += 1;
        }
    }

    let positive_accuracy = correct_positive as f32 / positives.len() as f32;
    let negative_accuracy = correct_negative as f32 / negatives.len() as f32;
    let total_accuracy = (correct_positive + correct_negative) as f32 / (positives.len()
        + negatives.len()) as f32;
    assert_eq!(positive_accuracy, 1.0);
    assert_eq!(negative_accuracy, 1.0);
    assert_eq!(total_accuracy, 1.0);
}

#[test]
fn spam_severe() {
    // Twenty shouted repeated characters: unchanged output, severe spam.
    let text = "AAAAAAAAAAAAAAAAAAAA";
    let mut c = Censor::from_str(text);
    let (censored, analysis) = c.censor_and_analyze();
    assert_eq!(censored, text);
    assert!(analysis.is(Type::spam()));
    assert!(analysis.is(Type::spam().intersect(Type::severe())));
}

#[test]
fn spam_short_input() {
    // Inputs shorter than six characters are never reported as spam.
    for text in ["AAAAA", "!!!!!", "aaaa", ";;;", "A"] {
        let analysis = Censor::from_str(text).analyze();
        assert!(analysis.isnt(Type::spam()), "spam reported for {}", text);
    }
}

#[test]
fn safe_phrase() {
    // An input that is entirely a listed safe phrase is unchanged and safe.
    let mut c = censor_with("have a nice day", &[("have a nice day", Type::safe())]);
    let (censored, analysis) = c.censor_and_analyze();
    assert_eq!(censored, "have a nice day");
    assert!(analysis.is(Type::safe()));

    // A safe phrase that is not a prefix of the input does not whitewash it.
    let analysis = censor_with(
        "fuck have a nice day",
        &[("have a nice day", Type::safe()), ("fuck", Type::profane())],
    )
        .analyze();
    assert!(analysis.isnt(Type::safe()));
    assert!(analysis.is(Type::profane()));
}

#[test]
fn homoglyph_replacement() {
    // '@' maps to 'a', so "@ss" matches "ass"; the first character is kept.
    let mut c = censor_with("@ss", &[("ass", Type::profane())]);
    add_replacement(&mut c, '@', "a");
    let (censored, analysis) = c.censor_and_analyze();
    assert_eq!(censored, "@**");
    assert!(analysis.is(Type::profane()));
}

#[test]
fn separator_tolerance() {
    // An inserted separator inside a match is tolerated, and each gap
    // lowers the committed severity by one level.
    let mut c = censor_with("f u c k", &[("fuck", Type::profane().intersect(Type::severe()))]);
    let analysis = c.analyze();
    assert!(analysis.isnt(Type::profane().intersect(Type::severe())));
}

#[test]
fn censored_length_matches_canonical() {
    // The censored output has exactly one character per canonical character:
    // diacritics vanish, everything else is kept or replaced in place.
    let cases = ["HELLO fu\u{10d}k Shit nigga WORLD!", "fu\u{10d}k!", "abc", ""];
    for text in cases {
        let censored = censor_with(text, &profane_words()).censor();
        let canonical_len = text
            .chars()
            .filter(|c| !('\u{300}'..='\u{36f}').contains(c))
            .count();
        assert_eq!(censored.chars().count(), canonical_len, "for {}", text);
        for (out, raw) in censored.chars().zip(text.chars().filter(|c| {
            !('\u{300}'..='\u{36f}').contains(c)
        })) {
            // Every emitted character is the canonical one (case preserved,
            // diacritic stripped) or the replacement.
            assert!(out == raw || out == '*' || raw == '\u{10d}');
        }
    }
}

#[test]
fn censoring_is_a_fixed_point() {
    // Censoring the censored output with the same configuration finds
    // nothing new.
    let words = profane_words();
    let once = censor_with("HELLO fu\u{10d}k Shit WORLD!", &words).censor();
    let twice = censor_with(&once, &words).censor();
    assert_eq!(once, twice);
}
