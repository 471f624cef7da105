use genrepass::helpers::capitalise;
use genrepass::helpers::decapitalise;
use genrepass::password::plan_case;
use genrepass::password::Outlook;
use genrepass::Password;
use genrepass::PasswordSettings;
use genrepass::RangeSpec;

fn settings() -> PasswordSettings {
    let mut settings = PasswordSettings::new();
    settings.get_words_from_str("alpha beta gamma delta");
    settings.length = RangeSpec::new(10, 15).unwrap();
    settings.number_amount = RangeSpec::exact(1);
    settings.special_chars_amount = RangeSpec::exact(2);
    settings.set_special_chars("#").unwrap();
    settings
}

fn sorted(text: &str) -> Vec<char> {
    let mut chars: Vec<char> = text.chars().collect();
    chars.sort();
    chars
}

#[test]
fn fresh_password_keeps_room_for_what_is_put_in() {
    let settings = settings();
    for _ in 0..20 {
        let password = Password::new(&settings);
        assert_eq!(password.password(), "");
        assert_eq!(password.reset_count(), 0);
        assert_eq!(password.total_inserts(), 3);
        assert_eq!(password.min_len(), 7);
        assert_eq!(password.max_len(), 12);
        assert_eq!(sorted(&password.insertables()).len(), 3);
        let stock = password.insertables();
        assert_eq!(stock.chars().filter(|c| *c == '#').count(), 2);
        assert_eq!(stock.chars().filter(|c| c.is_ascii_digit()).count(), 1);
    }
}

#[test]
fn fresh_password_keeps_no_room_where_characters_are_replaced() {
    let mut settings = settings();
    settings.replace = true;
    let password = Password::new(&settings);
    assert_eq!(password.total_inserts(), 3);
    assert_eq!(password.min_len(), 10);
    assert_eq!(password.max_len(), 15);
}

#[test]
fn fresh_password_puts_in_no_more_than_fits() {
    let mut settings = settings();
    settings.length = RangeSpec::new(2, 9).unwrap();
    settings.number_amount = RangeSpec::exact(20);
    let password = Password::new(&settings);
    assert_eq!(password.total_inserts(), 2);
    assert_eq!(password.min_len(), 0);
    assert_eq!(password.max_len(), 7);
    assert_eq!(password.insertables().len(), 22);
    settings.replace = true;
    let password = Password::new(&settings);
    assert_eq!(password.total_inserts(), 9);
    assert_eq!(password.min_len(), 2);
    assert_eq!(password.max_len(), 9);
}

#[test]
fn fresh_password_narrows_a_wide_range_of_lengths() {
    let mut settings = settings();
    settings.length = RangeSpec::new(100, 1000).unwrap();
    let mut starts = Vec::new();
    for _ in 0..40 {
        let password = Password::new(&settings);
        assert_eq!(password.max_len() - password.min_len(), 50);
        assert!(100 <= password.min_len() + 3);
        assert!(password.max_len() + 3 <= 1000);
        starts.push(password.min_len());
    }
    assert!(starts.iter().any(|start| *start != starts[0]));
}

#[test]
fn fresh_password_leaves_a_range_of_fifty_as_it_is() {
    let mut settings = settings();
    settings.length = RangeSpec::new(100, 150).unwrap();
    let password = Password::new(&settings);
    assert_eq!(password.min_len() + 3, 100);
    assert_eq!(password.max_len() + 3, 150);
}

#[test]
fn digits_are_drawn_from_all_ten() {
    let mut settings = settings();
    settings.number_amount = RangeSpec::exact(400);
    settings.special_chars_amount = RangeSpec::exact(0);
    let password = Password::new(&settings);
    let stock = password.insertables();
    assert_eq!(stock.len(), 400);
    for digit in '0'..='9' {
        assert!(stock.contains(digit));
    }
    assert!(stock.chars().all(|c| c.is_ascii_digit()));
}

#[test]
fn amounts_are_drawn_from_their_ranges() {
    let mut settings = settings();
    settings.length = RangeSpec::new(40, 50).unwrap();
    settings.number_amount = RangeSpec::new(2, 5).unwrap();
    settings.special_chars_amount = RangeSpec::new(0, 3).unwrap();
    let mut seen = Vec::new();
    for _ in 0..200 {
        let password = Password::new(&settings);
        let stock = password.insertables();
        let digits = stock.chars().filter(|c| c.is_ascii_digit()).count();
        let specials = stock.chars().filter(|c| *c == '#').count();
        assert!((2..=5).contains(&digits));
        assert!(specials <= 3);
        assert_eq!(password.total_inserts(), digits + specials);
        seen.push((digits, specials));
    }
    assert!(seen.iter().any(|drawn| *drawn != seen[0]));
}

#[test]
fn words_are_strung_until_the_length_fits() {
    let settings = settings();
    for _ in 0..50 {
        let mut password = Password::new(&settings);
        password.get_pass_string(&settings);
        let text = password.password();
        assert!(7 <= text.len() && text.len() <= 12, "{}", text);
        assert!(
            ["alphabeta", "betagamma", "gammadelta", "deltaalpha"].contains(&text.as_str()),
            "{}",
            text
        );
        assert_eq!(password.reset_count(), 0);
        assert_eq!(password.total_inserts(), 3);
    }
}

#[test]
fn words_start_again_where_they_do_not_fit() {
    let mut settings = PasswordSettings::new();
    settings.get_words_from_str("abcde fg hijkl");
    settings.length = RangeSpec::exact(7);
    settings.number_amount = RangeSpec::exact(0);
    settings.special_chars_amount = RangeSpec::exact(0);
    settings.reset_amount = 5;
    for _ in 0..50 {
        let mut password = Password::new(&settings);
        password.get_pass_string(&settings);
        let text = password.password();
        assert!(text == "abcdefg" || text == "fghijkl", "{}", text);
        assert!(password.reset_count() <= 1);
    }
}

#[test]
fn words_are_cut_when_the_starts_are_used_up() {
    let mut settings = PasswordSettings::new();
    settings.get_words_from_str("abcdefgh ijklmnop");
    settings.length = RangeSpec::exact(5);
    settings.number_amount = RangeSpec::exact(0);
    settings.special_chars_amount = RangeSpec::exact(0);
    settings.reset_amount = 3;
    for _ in 0..20 {
        let mut password = Password::new(&settings);
        password.get_pass_string(&settings);
        let text = password.password();
        assert!(text == "abcde" || text == "ijklm", "{}", text);
        assert_eq!(password.reset_count(), 3);
    }
}

#[test]
fn words_stay_short_when_the_starts_are_used_up() {
    let mut settings = PasswordSettings::new();
    settings.get_words_from_str("ab cdefghijklmnop");
    settings.length = RangeSpec::new(5, 6).unwrap();
    settings.number_amount = RangeSpec::exact(0);
    settings.special_chars_amount = RangeSpec::exact(0);
    settings.reset_amount = 0;
    let mut short = 0;
    for _ in 0..40 {
        let mut password = Password::new(&settings);
        password.get_pass_string(&settings);
        let text = password.password();
        assert!(text == "ab" || text == "cdefgh", "{}", text);
        if text == "ab" {
            short += 1;
        }
    }
    assert!(short > 0);
}

#[test]
fn characters_are_put_in_between() {
    let settings = settings();
    for _ in 0..50 {
        let mut password = Password::new(&settings);
        password.get_pass_string(&settings);
        let words = password.password();
        let stock = password.insertables();
        password.insert_chars();
        let text = password.password();
        assert_eq!(text.len(), words.len() + 3);
        assert_eq!(password.total_inserts(), 0);
        assert_eq!(password.insertables(), "");
        let letters: String = text.chars().filter(|c| c.is_ascii_alphabetic()).collect();
        assert_eq!(letters, words);
        let put_in: String = text.chars().filter(|c| !c.is_ascii_alphabetic()).collect();
        assert_eq!(sorted(&put_in), sorted(&stock));
        assert!(text.ends_with(|c: char| c.is_ascii_alphabetic()));
    }
}

#[test]
fn characters_are_put_into_an_empty_password() {
    let mut settings = settings();
    settings.length = RangeSpec::exact(3);
    let mut password = Password::new(&settings);
    assert_eq!(password.max_len(), 0);
    password.get_pass_string(&settings);
    assert_eq!(password.password(), "");
    let stock = password.insertables();
    password.insert_chars();
    assert_eq!(sorted(&password.password()), sorted(&stock));
}

#[test]
fn nothing_is_put_in_where_nothing_is_asked_for() {
    let mut settings = settings();
    settings.number_amount = RangeSpec::exact(0);
    settings.special_chars_amount = RangeSpec::exact(0);
    let mut password = Password::new(&settings);
    password.get_pass_string(&settings);
    let words = password.password();
    password.insert_chars();
    assert_eq!(password.password(), words);
    password.replace_chars();
    assert_eq!(password.password(), words);
}

#[test]
fn characters_are_replaced() {
    let mut settings = settings();
    settings.replace = true;
    for _ in 0..50 {
        let mut password = Password::new(&settings);
        password.get_pass_string(&settings);
        let words = password.password();
        let stock: Vec<char> = password.insertables().chars().collect();
        password.replace_chars();
        let text = password.password();
        assert_eq!(text.len(), words.len());
        assert_eq!(password.total_inserts(), 0);
        let mut taken = stock.iter().rev();
        for (now, before) in text.chars().zip(words.chars()) {
            if now != before {
                assert_eq!(Some(&now), taken.next());
            }
        }
        assert_eq!(taken.next(), None);
    }
}

#[test]
fn every_character_is_replaced_where_more_are_asked_for() {
    let mut settings = settings();
    settings.replace = true;
    settings.length = RangeSpec::exact(4);
    settings.number_amount = RangeSpec::exact(9);
    settings.special_chars_amount = RangeSpec::exact(0);
    settings.reset_amount = 0;
    let mut password = Password::new(&settings);
    assert_eq!(password.total_inserts(), 4);
    password.get_pass_string(&settings);
    assert_eq!(password.password().len(), 4);
    password.replace_chars();
    assert!(password.password().chars().all(|c| c.is_ascii_digit()));
    assert_eq!(password.insertables().len(), 5);
}

#[test]
fn case_is_balanced_by_the_quotas() {
    let mut settings = settings();
    settings.upper_amount = RangeSpec::exact(3);
    settings.lower_amount = RangeSpec::exact(1);
    for _ in 0..30 {
        let mut password = Password::new(&settings);
        password.get_pass_string(&settings);
        let before = password.password();
        password.ensure_case(&settings);
        let after = password.password();
        assert_eq!(after.to_ascii_lowercase(), before);
        assert_eq!(after.chars().filter(|c| c.is_ascii_uppercase()).count(), 3);
    }
}

#[test]
fn case_is_balanced_no_further_than_letters_are_there() {
    let mut settings = PasswordSettings::new();
    settings.get_words_from_str("ab cd");
    settings.length = RangeSpec::exact(4);
    settings.number_amount = RangeSpec::exact(0);
    settings.special_chars_amount = RangeSpec::exact(0);
    settings.upper_amount = RangeSpec::exact(10);
    settings.lower_amount = RangeSpec::exact(1);
    let mut password = Password::new(&settings);
    password.get_pass_string(&settings);
    password.ensure_case(&settings);
    let text = password.password();
    assert!(text.eq_ignore_ascii_case("abcd") || text.eq_ignore_ascii_case("cdab"), "{}", text);
    assert_eq!(text.chars().filter(|c| c.is_ascii_lowercase()).count(), 1, "{}", text);
    assert_eq!(text.chars().filter(|c| c.is_ascii_uppercase()).count(), 3, "{}", text);
    settings.dont_lower = true;
    let mut password = Password::new(&settings);
    password.get_pass_string(&settings);
    password.ensure_case(&settings);
    let text = password.password();
    assert!(text == "ABCD" || text == "CDAB", "{}", text);
    settings.dont_lower = false;
    settings.lower_amount = RangeSpec::exact(3);
    let mut password = Password::new(&settings);
    password.get_pass_string(&settings);
    password.ensure_case(&settings);
    let text = password.password();
    assert_eq!(text.chars().filter(|c| c.is_ascii_lowercase()).count(), 3, "{}", text);
    assert_eq!(text.chars().filter(|c| c.is_ascii_uppercase()).count(), 1, "{}", text);
}

#[test]
fn generate_hands_the_password_out() {
    let settings = settings();
    let mut password = Password::new(&settings);
    let text = password.generate(&settings);
    assert!(10 <= text.len() && text.len() <= 15);
    assert_eq!(password.password(), "");
}

#[test]
fn capitalise_raises_one_letter() {
    let mut text: Vec<char> = "abc1".chars().collect();
    capitalise(&mut text, 1);
    assert_eq!(text, ['a', 'B', 'c', '1']);
    capitalise(&mut text, 1);
    capitalise(&mut text, 3);
    capitalise(&mut text, 4);
    capitalise(&mut text, usize::MAX);
    assert_eq!(text, ['a', 'B', 'c', '1']);
}

#[test]
fn decapitalise_lowers_one_letter() {
    let mut text: Vec<char> = "ABC-".chars().collect();
    decapitalise(&mut text, 0);
    assert_eq!(text, ['a', 'B', 'C', '-']);
    decapitalise(&mut text, 0);
    decapitalise(&mut text, 3);
    decapitalise(&mut text, 9);
    assert_eq!(text, ['a', 'B', 'C', '-']);
}

fn drawn(settings: &PasswordSettings, span_min: usize, stock: &str) -> Password {
    Password::with_draws(settings, span_min, 2, 1, stock.chars().collect()).unwrap()
}

#[test]
fn draws_lay_a_password_out() {
    let settings = settings();
    let password = drawn(&settings, 10, "1#2");
    assert_eq!(password.password(), "");
    assert_eq!(password.reset_count(), 0);
    assert_eq!(password.insertables(), "1#2");
    assert_eq!(password.total_inserts(), 3);
    assert_eq!((password.min_len(), password.max_len()), (7, 12));
}

#[test]
fn draws_lay_a_password_out_for_replacing() {
    let mut settings = settings();
    settings.replace = true;
    let password = drawn(&settings, 10, "1#2");
    assert_eq!(password.total_inserts(), 3);
    assert_eq!((password.min_len(), password.max_len()), (10, 15));
    let password = drawn(&settings, 10, "0123456789012345678");
    assert_eq!(password.total_inserts(), 15);
    assert_eq!((password.min_len(), password.max_len()), (10, 15));
}

#[test]
fn draws_of_more_than_fits() {
    let settings = settings();
    let password = drawn(&settings, 10, "0123456789012345678");
    assert_eq!(password.total_inserts(), 10);
    assert_eq!((password.min_len(), password.max_len()), (0, 5));
    assert_eq!(password.insertables().len(), 19);
}

#[test]
fn draws_in_a_wide_range_of_lengths() {
    let mut settings = settings();
    settings.length = RangeSpec::new(100, 1000).unwrap();
    let password = drawn(&settings, 100, "12");
    assert_eq!((password.min_len(), password.max_len()), (98, 148));
    let password = drawn(&settings, 950, "12");
    assert_eq!((password.min_len(), password.max_len()), (948, 998));
    assert!(Password::with_draws(&settings, 951, 0, 0, Vec::new()).is_none());
    assert!(Password::with_draws(&settings, 99, 0, 0, Vec::new()).is_none());
}

#[test]
fn draws_outside_the_range_of_lengths_give_no_password() {
    let settings = settings();
    assert!(Password::with_draws(&settings, 9, 0, 0, Vec::new()).is_none());
    assert!(Password::with_draws(&settings, 11, 0, 0, Vec::new()).is_none());
    assert!(Password::with_draws(&settings, 10, 0, 0, Vec::new()).is_some());
}

#[test]
fn draws_that_are_not_ascii_give_no_password() {
    let settings = settings();
    assert!(Password::with_draws(&settings, 10, 0, 0, vec!['1', '\u{e9}']).is_none());
}

#[test]
fn a_word_is_taken_and_the_next_looked_at() {
    let mut settings = settings();
    settings.capitalise = true;
    let mut password = drawn(&settings, 10, "1#2");
    assert_eq!(password.take_word(&settings, 3), Outlook::GoOn);
    assert_eq!(password.password(), "Delta");
    assert_eq!(password.take_word(&settings, 0), Outlook::Done);
    assert_eq!(password.password(), "DeltaAlpha");
    assert_eq!(password.reset_count(), 0);
}

#[test]
fn a_word_that_may_be_followed() {
    let mut settings = settings();
    settings.length = RangeSpec::new(8, 40).unwrap();
    let mut password = drawn(&settings, 8, "");
    assert_eq!(password.take_word(&settings, 0), Outlook::GoOn);
    assert_eq!(password.take_word(&settings, 1), Outlook::Open);
    assert_eq!(password.take_word(&settings, 2), Outlook::Open);
    assert_eq!(password.password(), "alphabetagamma");
}

#[test]
fn words_are_dropped_for_a_new_start() {
    let mut settings = PasswordSettings::new();
    settings.get_words_from_str("abcde fg hijkl");
    settings.length = RangeSpec::exact(7);
    settings.reset_amount = 1;
    let mut password = drawn(&settings, 7, "");
    assert_eq!(password.take_word(&settings, 2), Outlook::Restart);
    assert_eq!(password.password(), "");
    assert_eq!(password.reset_count(), 1);
    assert_eq!(password.take_word(&settings, 0), Outlook::GoOn);
    assert_eq!(password.take_word(&settings, 1), Outlook::Done);
    assert_eq!(password.password(), "abcdefg");
    assert_eq!(password.reset_count(), 1);
}

#[test]
fn words_are_cut_without_starts_left() {
    let mut settings = PasswordSettings::new();
    settings.get_words_from_str("abcde fg hijkl");
    settings.length = RangeSpec::exact(7);
    settings.reset_amount = 0;
    let mut password = drawn(&settings, 7, "");
    assert_eq!(password.take_word(&settings, 2), Outlook::Done);
    assert_eq!(password.password(), "hijkl");
    let mut password = drawn(&settings, 7, "");
    assert_eq!(password.take_word(&settings, 1), Outlook::GoOn);
    assert_eq!(password.take_word(&settings, 2), Outlook::Done);
    assert_eq!(password.password(), "fghijkl");
    settings.length = RangeSpec::new(3, 4).unwrap();
    let mut password = drawn(&settings, 3, "");
    assert_eq!(password.take_word(&settings, 0), Outlook::Done);
    assert_eq!(password.password(), "abcd");
    assert_eq!(password.reset_count(), 0);
}

#[test]
fn one_character_is_put_in() {
    let settings = settings();
    let mut password = drawn(&settings, 10, "1#2");
    password.take_word(&settings, 0);
    password.insert_char(0);
    assert_eq!(password.password(), "2alpha");
    assert_eq!(password.insertables(), "1#");
    assert_eq!(password.total_inserts(), 2);
    password.insert_char(6);
    assert_eq!(password.password(), "2alpha#");
    password.insert_char(3);
    assert_eq!(password.password(), "2al1pha#");
    assert_eq!(password.insertables(), "");
    assert_eq!(password.total_inserts(), 0);
}

#[test]
fn marked_characters_are_replaced() {
    let mut settings = settings();
    settings.replace = true;
    let mut password = drawn(&settings, 10, "1#2");
    password.take_word(&settings, 0);
    password.replace_marked(&vec![false, true, false, false, true]);
    assert_eq!(password.password(), "a2ph#");
    assert_eq!(password.insertables(), "1");
    assert_eq!(password.total_inserts(), 1);
    password.replace_marked(&vec![false; 5]);
    assert_eq!(password.password(), "a2ph#");
    password.replace_marked(&vec![true, false, false, false, false]);
    assert_eq!(password.password(), "12ph#");
    assert_eq!(password.total_inserts(), 0);
}

#[test]
fn case_plans() {
    assert_eq!(plan_case(0, 5, 2, false), (true, 2));
    assert_eq!(plan_case(0, 1, 2, false), (true, 1));
    assert_eq!(plan_case(0, 5, 0, false), (true, 0));
    assert_eq!(plan_case(1, 5, 3, false), (false, 2));
    assert_eq!(plan_case(1, 5, 3, true), (true, 2));
    assert_eq!(plan_case(1, 1, 3, true), (true, 1));
    assert_eq!(plan_case(3, 5, 3, true), (false, 3));
    assert_eq!(plan_case(4, 2, 3, true), (false, 2));
    assert_eq!(plan_case(4, 0, 3, false), (false, 0));
}

#[test]
fn case_is_balanced_from_drawn_quotas() {
    let mut settings = PasswordSettings::new();
    settings.get_words_from_str("ab cd");
    settings.length = RangeSpec::exact(4);
    let mut password = Password::with_draws(&settings, 4, 2, 0, Vec::new()).unwrap();
    password.take_word(&settings, 0);
    password.take_word(&settings, 1);
    password.ensure_case(&settings);
    let text = password.password();
    assert_eq!(text.to_ascii_lowercase(), "abcd");
    assert_eq!(text.chars().filter(|c| c.is_ascii_uppercase()).count(), 2);
    let mut password = Password::with_draws(&settings, 4, 4, 0, Vec::new()).unwrap();
    password.take_word(&settings, 0);
    password.take_word(&settings, 1);
    password.ensure_case(&settings);
    assert_eq!(password.password(), "ABCD");
    settings.force_lower = true;
    let mut password = Password::with_draws(&settings, 4, 0, 9, Vec::new()).unwrap();
    password.take_word(&settings, 0);
    password.take_word(&settings, 1);
    password.ensure_case(&settings);
    assert_eq!(password.password(), "abcd");
}

#[test]
fn three_words_between_nine_and_fourteen() {
    let mut settings = PasswordSettings::new();
    settings.get_words_from_str("apple banana cherry");
    settings.length = RangeSpec::new(9, 14).unwrap();
    settings.reset_amount = 10;
    for _ in 0..60 {
        let mut password = Password::with_draws(&settings, 9, 0, 0, Vec::new()).unwrap();
        assert_eq!((password.min_len(), password.max_len()), (9, 14));
        password.get_pass_string(&settings);
        let text = password.password();
        assert!(
            ["applebanana", "bananacherry", "cherryapple"].contains(&text.as_str()),
            "{}",
            text
        );
        assert_eq!(password.reset_count(), 0);
    }
}
