use election2016::preference_map::PreferenceMap;
use election2016::token::{parse_preference, split_preferences};

fn chars(text: &str) -> Vec<char> {
    text.chars().collect()
}

fn texts(tokens: &[Vec<char>]) -> Vec<String> {
    tokens.iter().map(|t| t.iter().collect()).collect()
}

#[test]
fn a_string_splits_at_each_comma() {
    assert_eq!(texts(&split_preferences("1,,22, x")), vec!["1", "", "22", " x"]);
    assert_eq!(texts(&split_preferences("12")), vec!["12"]);
}

#[test]
fn a_string_has_one_box_more_than_commas() {
    assert_eq!(texts(&split_preferences("")), vec![""]);
    assert_eq!(texts(&split_preferences(",")), vec!["", ""]);
    assert_eq!(texts(&split_preferences(",,,")), vec!["", "", "", ""]);
    assert_eq!(texts(&split_preferences("1,")), vec!["1", ""]);
    assert_eq!(texts(&split_preferences(",1")), vec!["", "1"]);
}

#[test]
fn splitting_keeps_every_other_character() {
    assert_eq!(texts(&split_preferences("a b;c,\u{e9}\u{1f5f3},\n")), vec![
        "a b;c",
        "\u{e9}\u{1f5f3}",
        "\n"
    ]);
}

#[test]
fn digits_spell_their_number() {
    assert_eq!(parse_preference(&chars("0")), Some(0));
    assert_eq!(parse_preference(&chars("7")), Some(7));
    assert_eq!(parse_preference(&chars("12")), Some(12));
    assert_eq!(parse_preference(&chars("907")), Some(907));
    assert_eq!(parse_preference(&chars("0042")), Some(42));
    assert_eq!(parse_preference(&chars("+42")), Some(42));
    assert_eq!(parse_preference(&chars("+0")), Some(0));
}

#[test]
fn the_largest_number_is_the_largest_of_32_bits() {
    assert_eq!(parse_preference(&chars("4294967295")), Some(4294967295));
    assert_eq!(parse_preference(&chars("+0004294967295")), Some(4294967295));
    assert_eq!(parse_preference(&chars("4294967296")), None);
    assert_eq!(parse_preference(&chars("4294967300")), None);
    assert_eq!(parse_preference(&chars("42949672950")), None);
    assert_eq!(parse_preference(&chars("18446744073709551616")), None);
    assert_eq!(parse_preference(&chars("99999999999999999999999999999999")), None);
}

#[test]
fn anything_but_digits_is_no_number() {
    for text in ["", "+", "-", "-1", "+-1", "++1", "1+", "1 ", " 1", "1,2", "1.0", "1e3", "0x10",
        "one", "1_000", "\u{0663}", "\u{ff11}", "1\u{0}"]
    {
        assert_eq!(parse_preference(&chars(text)), None, "{text:?}");
    }
}

#[test]
fn parsing_agrees_with_the_standard_parser() {
    for text in ["", "0", "+", "+7", "-7", "007", "4294967295", "4294967296", "12a", "a12", " 3",
        "3 ", "++3", "1234567890123"]
    {
        assert_eq!(parse_preference(&chars(text)), text.parse::<u32>().ok(), "{text:?}");
    }
}

#[test]
fn a_new_map_has_no_values() {
    let map: PreferenceMap<u32> = PreferenceMap::new();
    assert_eq!(map.values(), Vec::<u32>::new());
}

#[test]
fn values_come_out_in_order_of_their_numbers() {
    let mut map = PreferenceMap::new();
    map.insert(5, 'e');
    map.insert(1, 'a');
    map.insert(3, 'c');
    map.insert(4294967295, 'z');
    map.insert(0, '0');
    map.insert(2, 'b');
    assert_eq!(map.values(), vec!['0', 'a', 'b', 'c', 'e', 'z']);
}

#[test]
fn a_number_marked_again_takes_the_later_value() {
    let mut map = PreferenceMap::new();
    map.insert(2, 20);
    map.insert(1, 10);
    map.insert(2, 21);
    assert_eq!(map.values(), vec![10, 21]);
    map.insert(1, 11);
    map.insert(3, 30);
    map.insert(3, 31);
    assert_eq!(map.values(), vec![11, 21, 31]);
}

#[test]
fn joining_the_boxes_gives_the_string_back() {
    for text in ["", ",", "1,2,3", ",,1,,", "a,b c,\u{e9},", "no comma", ",,,,,,,,"] {
        let tokens = split_preferences(text);
        assert_eq!(tokens.len(), text.matches(',').count() + 1, "{text:?}");
        assert!(tokens.iter().all(|t| !t.contains(&',')), "{text:?}");
        assert_eq!(texts(&tokens).join(","), text, "{text:?}");
    }
}

#[test]
fn splitting_the_joined_boxes_gives_the_boxes_back() {
    let lists: [&[&str]; 5] = [&[""], &["", ""], &["1", "", "23"], &["", "", "x"], &["+1", " ", ""]];
    for list in lists {
        let text = list.join(",");
        assert_eq!(texts(&split_preferences(&text)), list.to_vec(), "{text:?}");
    }
}

#[test]
fn splitting_agrees_with_the_standard_splitter() {
    for text in ["", ",", "1,,2", ",1,", "12", "a,,,b", "\u{1f5f3},x"] {
        let expected: Vec<&str> = text.split(',').collect();
        assert_eq!(texts(&split_preferences(text)), expected, "{text:?}");
    }
}
