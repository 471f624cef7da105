use genrepass::range_inc_from_str;
use genrepass::NonAsciiSpecialCharsError;
use genrepass::NotEnoughWordsError;
use genrepass::PasswordSettings;
use genrepass::RangeSpec;
use genrepass::SpecialChars;

fn settings_with(words: &str) -> PasswordSettings {
    let mut settings = PasswordSettings::new();
    settings.get_words_from_str(words);
    settings
}

fn exact(n: usize) -> RangeSpec {
    RangeSpec::exact(n)
}

fn cyclic_words(text: &str, words: &[&str]) -> bool {
    (0..words.len()).any(|start| {
        let mut rest = text;
        let mut at = start;
        while !rest.is_empty() {
            let word = words[at % words.len()];
            if !rest.starts_with(word) {
                return false;
            }
            rest = &rest[word.len()..];
            at += 1;
        }
        true
    })
}

#[test]
fn default_settings() {
    let settings = PasswordSettings::new();
    assert!(!settings.capitalise && !settings.replace && !settings.randomise);
    assert!(!settings.keep_numbers && !settings.force_upper && !settings.force_lower);
    assert!(!settings.dont_upper && !settings.dont_lower);
    assert_eq!(settings.pass_amount, 1);
    assert_eq!(settings.reset_amount, 10);
    assert_eq!(settings.length, RangeSpec::new(24, 30).unwrap());
    assert_eq!(settings.number_amount, RangeSpec::new(1, 2).unwrap());
    assert_eq!(settings.special_chars_amount, RangeSpec::new(1, 2).unwrap());
    assert_eq!(settings.upper_amount, RangeSpec::new(1, 2).unwrap());
    assert_eq!(settings.lower_amount, RangeSpec::new(1, 2).unwrap());
    assert_eq!(settings.get_special_chars(), "^!(-_=)$<[@.#]>%{~,+}&*");
    assert!(settings.get_words().is_empty());
}

#[test]
fn default_is_what_new_gives() {
    let a = PasswordSettings::default();
    let b = PasswordSettings::new();
    assert_eq!(a.length, b.length);
    assert_eq!(a.pass_amount, b.pass_amount);
    assert_eq!(a.get_special_chars(), b.get_special_chars());
}

#[test]
fn special_chars_that_are_not_ascii_are_refused() {
    let mut settings = PasswordSettings::new();
    let before = settings.get_special_chars().to_string();
    assert_eq!(settings.set_special_chars("!?\u{e9}"), Err(NonAsciiSpecialCharsError));
    assert_eq!(settings.get_special_chars(), before);
    assert_eq!(settings.set_special_chars("\u{26a1}"), Err(NonAsciiSpecialCharsError));
    assert_eq!(settings.get_special_chars(), "^!(-_=)$<[@.#]>%{~,+}&*");
}

#[test]
fn special_chars_that_are_ascii_are_taken() {
    let mut settings = PasswordSettings::new();
    assert_eq!(settings.set_special_chars("#+"), Ok(()));
    assert_eq!(settings.get_special_chars(), "#+");
    assert_eq!(settings.set_special_chars(""), Ok(()));
    assert_eq!(settings.get_special_chars(), "");
}

#[test]
fn special_chars_by_themselves() {
    assert!(SpecialChars::new("caf\u{e9}").is_none());
    assert_eq!(SpecialChars::new("$%").unwrap().as_str(), "$%");
}

#[test]
fn errors_in_words() {
    assert_eq!(
        NonAsciiSpecialCharsError.message(),
        "non-ASCII special characters aren't allowed for insertables"
    );
    assert_eq!(NotEnoughWordsError.message(), "not enough words for password generation");
}

#[test]
fn words_from_a_string() {
    let settings = settings_with("A string I got from somewhere");
    assert_eq!(settings.get_words().as_slice(), &["A", "string", "I", "got", "from", "somewhere"]);
}

#[test]
fn words_without_numbers() {
    let settings = settings_with("abc123def 456 g_h, i-j");
    assert_eq!(settings.get_words().as_slice(), &["abc", "def", "g", "h", "i", "j"]);
}

#[test]
fn words_with_numbers() {
    let mut settings = PasswordSettings::new();
    settings.keep_numbers = true;
    settings.get_words_from_str("abc123def 456 g_h, i-j");
    assert_eq!(settings.get_words().as_slice(), &["abc123def", "456", "g_h", "i", "j"]);
}

#[test]
fn words_of_other_scripts_come_in_ascii() {
    let settings = settings_with("\u{e9}tude \u{5317}\u{4eb0} \u{c6}neid");
    assert_eq!(settings.get_words().as_slice(), &["etude", "Bei", "Jing", "AEneid"]);
    for word in settings.get_words() {
        assert!(word.is_ascii());
        assert!(!word.is_empty());
    }
}

#[test]
fn settings_words_are_added_to_those_that_are_there() {
    let mut settings = settings_with("one two");
    settings.get_words_from_str("three");
    assert_eq!(settings.get_words().as_slice(), &["one", "two", "three"]);
}

#[test]
fn empty_text_adds_nothing() {
    let mut settings = settings_with("one two");
    settings.randomise = true;
    settings.get_words_from_str("");
    assert_eq!(settings.get_words().as_slice(), &["one", "two"]);
}

#[test]
fn text_without_words_adds_nothing() {
    let mut settings = settings_with("one two");
    settings.get_words_from_str("... 123 !!!");
    assert_eq!(settings.get_words().as_slice(), &["one", "two"]);
}

#[test]
fn randomise_shuffles_the_whole_list() {
    let text: Vec<String> = (0..60).map(|i| format!("w{}", (b'a' + (i % 26) as u8) as char)).collect();
    let mut settings = settings_with(&text.join(" "));
    let before = settings.get_words().clone();
    settings.randomise = true;
    let mut moved = false;
    for _ in 0..5 {
        settings.get_words_from_str("zz");
        moved = moved || settings.get_words()[..60] != before[..];
    }
    assert!(moved);
    assert_eq!(settings.get_words().len(), 65);
    let mut after = settings.get_words().clone();
    after.sort();
    let mut expected = before.clone();
    expected.extend((0..5).map(|_| "zz".to_string()));
    expected.sort();
    assert_eq!(after, expected);
}

#[test]
fn settings_clear_words_leaves_no_word() {
    let mut settings = settings_with("one two three");
    assert_eq!(settings.get_words().len(), 3);
    settings.clear_words();
    assert_eq!(settings.get_words().len(), 0);
}

#[test]
fn settings_remove_word_at_takes_one_word_out() {
    let mut settings = settings_with("one two three");
    assert_eq!(settings.remove_word_at(3), None);
    assert_eq!(settings.remove_word_at(0), Some("one".to_string()));
    assert_eq!(settings.get_words().as_slice(), &["two", "three"]);
}

#[test]
fn no_password_without_words() {
    let settings = PasswordSettings::new();
    assert_eq!(settings.generate(), Err(NotEnoughWordsError));
}

#[test]
fn no_password_from_one_word() {
    let settings = settings_with("alone");
    assert_eq!(settings.get_words().len(), 1);
    assert_eq!(settings.generate(), Err(NotEnoughWordsError));
}

#[test]
fn two_words_are_enough() {
    let settings = settings_with("one two");
    assert_eq!(settings.generate().unwrap().len(), 1);
}

#[test]
fn as_many_passwords_as_asked_for() {
    let mut settings = settings_with("one two three four five six");
    for amount in [0usize, 1, 5, 20] {
        settings.pass_amount = amount;
        assert_eq!(settings.generate().unwrap().len(), amount);
    }
}

#[test]
fn three_words_and_one_digit() {
    let mut settings = settings_with("apple banana cherry");
    settings.length = range_inc_from_str("10-15").unwrap();
    settings.number_amount = range_inc_from_str("1-1").unwrap();
    settings.special_chars_amount = range_inc_from_str("0-0").unwrap();
    settings.upper_amount = range_inc_from_str("0-0").unwrap();
    settings.lower_amount = range_inc_from_str("0-0").unwrap();
    settings.capitalise = false;
    settings.replace = false;
    settings.pass_amount = 200;
    for password in settings.generate().unwrap() {
        assert!(password.is_ascii());
        assert!(10 <= password.len() && password.len() <= 15, "{}", password);
        let digits = password.chars().filter(|c| c.is_ascii_digit()).count();
        assert_eq!(digits, 1, "{}", password);
        assert!(!password.ends_with(|c: char| c.is_ascii_digit()), "{}", password);
        let letters: String = password.chars().filter(|c| !c.is_ascii_digit()).collect();
        assert!(cyclic_words(&letters, &["apple", "banana", "cherry"]), "{}", password);
        assert_eq!(letters.len() + 1, password.len());
    }
}

#[test]
fn lengths_stay_in_their_range() {
    let mut settings = settings_with("a be sea deer eagle ferret giraffe hedgehog");
    settings.pass_amount = 50;
    settings.reset_amount = 1000;
    for (lo, hi) in [(8usize, 8usize), (10, 12), (24, 30), (5, 70), (40, 300)] {
        for replace in [false, true] {
            settings.length = RangeSpec::new(lo, hi).unwrap();
            settings.replace = replace;
            for password in settings.generate().unwrap() {
                assert!(lo <= password.len() && password.len() <= hi, "{} {}", lo, hi);
                assert!(password.is_ascii());
            }
        }
    }
}

#[test]
fn lengths_never_pass_the_greatest() {
    let mut settings = settings_with("extraordinarily incomprehensibilities");
    settings.pass_amount = 50;
    settings.reset_amount = 0;
    for (lo, hi) in [(0usize, 0usize), (1, 1), (3, 5), (20, 25)] {
        for replace in [false, true] {
            settings.length = RangeSpec::new(lo, hi).unwrap();
            settings.replace = replace;
            for password in settings.generate().unwrap() {
                assert!(password.len() <= hi);
            }
        }
    }
}

#[test]
fn a_wide_range_of_lengths() {
    let mut settings = settings_with("alpha beta gamma delta epsilon");
    settings.length = RangeSpec::new(0, 100_000).unwrap();
    settings.pass_amount = 20;
    settings.reset_amount = 10_000;
    let lengths: Vec<usize> =
        settings.generate().unwrap().iter().map(|password| password.len()).collect();
    assert!(lengths.iter().all(|len| *len <= 100_000));
    assert!(lengths.iter().any(|len| *len > 100));
}

#[test]
fn inserted_characters_add_to_the_length() {
    let mut settings = settings_with("alpha beta gamma delta");
    settings.length = RangeSpec::new(20, 30).unwrap();
    settings.number_amount = exact(3);
    settings.special_chars_amount = exact(2);
    settings.set_special_chars("#").unwrap();
    settings.pass_amount = 50;
    for password in settings.generate().unwrap() {
        let digits = password.chars().filter(|c| c.is_ascii_digit()).count();
        let specials = password.chars().filter(|c| *c == '#').count();
        let letters = password.chars().filter(|c| c.is_ascii_alphabetic()).count();
        assert_eq!((digits, specials), (3, 2), "{}", password);
        assert_eq!(password.len(), letters + 5);
        assert!(20 <= password.len() && password.len() <= 30);
    }
}

#[test]
fn replaced_characters_leave_the_length() {
    let mut settings = settings_with("alpha beta gamma delta");
    settings.length = RangeSpec::new(20, 30).unwrap();
    settings.number_amount = exact(3);
    settings.special_chars_amount = exact(2);
    settings.set_special_chars("#").unwrap();
    settings.replace = true;
    settings.pass_amount = 50;
    for password in settings.generate().unwrap() {
        let digits = password.chars().filter(|c| c.is_ascii_digit()).count();
        let specials = password.chars().filter(|c| *c == '#').count();
        assert_eq!((digits, specials), (3, 2), "{}", password);
        assert!(20 <= password.len() && password.len() <= 30);
    }
}

#[test]
fn special_characters_come_from_the_settings() {
    let mut settings = settings_with("alpha beta gamma delta");
    settings.number_amount = exact(0);
    settings.special_chars_amount = exact(4);
    settings.set_special_chars("+-").unwrap();
    settings.pass_amount = 30;
    for password in settings.generate().unwrap() {
        let specials = password.chars().filter(|c| *c == '+' || *c == '-').count();
        assert_eq!(specials, 4, "{}", password);
        assert!(password.chars().all(|c| c.is_ascii_alphabetic() || c == '+' || c == '-'));
    }
}

#[test]
fn no_special_characters_to_choose_from() {
    let mut settings = settings_with("alpha beta gamma delta");
    settings.number_amount = exact(1);
    settings.special_chars_amount = exact(3);
    settings.set_special_chars("").unwrap();
    settings.pass_amount = 30;
    for password in settings.generate().unwrap() {
        assert!(password.chars().all(|c| c.is_ascii_alphanumeric()), "{}", password);
        assert_eq!(password.chars().filter(|c| c.is_ascii_digit()).count(), 1);
    }
}

#[test]
fn more_to_put_in_than_the_length_allows() {
    let mut settings = settings_with("alpha beta gamma delta");
    settings.length = exact(3);
    settings.number_amount = exact(5);
    settings.special_chars_amount = exact(0);
    settings.pass_amount = 30;
    for replace in [false, true] {
        settings.replace = replace;
        for password in settings.generate().unwrap() {
            assert_eq!(password.len(), 3);
            assert!(password.chars().all(|c| c.is_ascii_digit()), "{}", password);
        }
    }
}

#[test]
fn length_of_nothing() {
    let mut settings = settings_with("alpha beta gamma delta");
    settings.length = exact(0);
    settings.pass_amount = 10;
    for replace in [false, true] {
        settings.replace = replace;
        for password in settings.generate().unwrap() {
            assert_eq!(password, "");
        }
    }
}

#[test]
fn capitalise_raises_the_first_letter_of_every_word() {
    let mut settings = settings_with("alpha beta gamma delta");
    settings.capitalise = true;
    settings.number_amount = exact(0);
    settings.special_chars_amount = exact(0);
    settings.upper_amount = exact(0);
    settings.lower_amount = exact(0);
    settings.reset_amount = 1000;
    settings.pass_amount = 50;
    for password in settings.generate().unwrap() {
        assert!(cyclic_words(&password, &["Alpha", "Beta", "Gamma", "Delta"]), "{}", password);
    }
}

#[test]
fn upper_case_is_made_where_there_is_none() {
    let mut settings = settings_with("alpha beta gamma delta");
    settings.upper_amount = exact(2);
    settings.lower_amount = exact(1);
    settings.pass_amount = 50;
    for password in settings.generate().unwrap() {
        assert_eq!(password.chars().filter(|c| c.is_ascii_uppercase()).count(), 2, "{}", password);
    }
}

#[test]
fn upper_case_is_left_where_there_is_some() {
    let mut settings = settings_with("alpha beta gamma delta");
    settings.capitalise = true;
    settings.upper_amount = exact(100);
    settings.number_amount = exact(0);
    settings.special_chars_amount = exact(0);
    settings.reset_amount = 1000;
    settings.pass_amount = 50;
    for password in settings.generate().unwrap() {
        assert!(cyclic_words(&password, &["Alpha", "Beta", "Gamma", "Delta"]), "{}", password);
    }
}

#[test]
fn upper_case_is_forced_up_to_the_amount() {
    let mut settings = settings_with("Alpha beta gamma delta");
    settings.force_upper = true;
    settings.upper_amount = exact(4);
    settings.lower_amount = exact(0);
    settings.length = RangeSpec::new(20, 24).unwrap();
    settings.number_amount = exact(0);
    settings.special_chars_amount = exact(0);
    settings.reset_amount = 1000;
    settings.pass_amount = 50;
    for password in settings.generate().unwrap() {
        assert_eq!(password.chars().filter(|c| c.is_ascii_uppercase()).count(), 4, "{}", password);
    }
}

#[test]
fn upper_case_is_never_made_where_that_is_switched_off() {
    let mut settings = settings_with("alpha beta gamma delta");
    settings.dont_upper = true;
    settings.force_upper = true;
    settings.upper_amount = exact(5);
    settings.pass_amount = 30;
    for password in settings.generate().unwrap() {
        assert_eq!(password.chars().filter(|c| c.is_ascii_uppercase()).count(), 0);
    }
}

#[test]
fn lower_case_is_made_where_there_is_none() {
    let mut settings = settings_with("ALPHA BETA GAMMA DELTA");
    settings.lower_amount = exact(3);
    settings.upper_amount = exact(1);
    settings.pass_amount = 50;
    for password in settings.generate().unwrap() {
        assert_eq!(password.chars().filter(|c| c.is_ascii_lowercase()).count(), 3, "{}", password);
    }
}

#[test]
fn lower_case_is_never_made_where_that_is_switched_off() {
    let mut settings = settings_with("ALPHA BETA GAMMA DELTA");
    settings.dont_lower = true;
    settings.lower_amount = exact(3);
    settings.pass_amount = 30;
    for password in settings.generate().unwrap() {
        assert_eq!(password.chars().filter(|c| c.is_ascii_lowercase()).count(), 0);
    }
}

#[test]
fn passwords_differ() {
    let mut settings = settings_with("alpha beta gamma delta epsilon zeta eta theta iota kappa");
    settings.pass_amount = 40;
    let passwords = settings.generate().unwrap();
    assert!(passwords.iter().any(|password| *password != passwords[0]));
}

#[test]
fn passwords_stop_at_different_lengths() {
    let mut settings = settings_with("ab cd ef gh");
    settings.length = RangeSpec::new(4, 40).unwrap();
    settings.number_amount = exact(0);
    settings.special_chars_amount = exact(0);
    settings.pass_amount = 200;
    let passwords = settings.generate().unwrap();
    assert!(passwords.iter().any(|password| password.len() != passwords[0].len()));
    assert!(passwords.iter().all(|password| password.len() % 2 == 0));
}

#[test]
fn digits_and_underscores_end_a_word_without_numbers() {
    let settings = settings_with("foo_bar 42x");
    assert_eq!(settings.get_words().as_slice(), &["foo", "bar", "x"]);
    let mut settings = PasswordSettings::new();
    settings.keep_numbers = true;
    settings.get_words_from_str("foo_bar 42x");
    assert_eq!(settings.get_words().as_slice(), &["foo_bar", "42x"]);
}

#[test]
fn control_codes_in_a_text_of_other_scripts() {
    let settings = settings_with("caf\u{e9} one\u{7f}two three");
    for word in settings.get_words() {
        assert!(word.is_ascii());
        assert!(word.chars().all(|c| c.is_ascii_alphabetic()));
    }
    let settings = settings_with("one\u{7f}two three");
    assert_eq!(settings.get_words().as_slice(), &["one", "two", "three"]);
}

#[test]
fn fresh_passwords_for_the_threads() {
    let mut settings = settings_with("alpha beta gamma");
    settings.pass_amount = 7;
    let fresh = settings.fresh_passwords().unwrap();
    assert_eq!(fresh.len(), 7);
    for mut password in fresh {
        assert_eq!(password.password(), "");
        let text = password.generate(&settings);
        assert!(24 <= text.len() && text.len() <= 30);
    }
    assert!(settings_with("alone").fresh_passwords().is_err());
    assert!(PasswordSettings::new().fresh_passwords().is_err());
}
