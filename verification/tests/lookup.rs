use word_dictionary::Dictionary;

fn sample() -> Dictionary {
    let mut dictionary = Dictionary::new("tests/data/dictionary.txt");
    dictionary.add_edit("Althasol", "阿爾瑟索").unwrap();
    dictionary.add_edit("Aldun", "奧爾敦").unwrap();
    dictionary.add_edit("Alduin", "阿爾杜因").unwrap();
    dictionary.add_edit("Alduin", "奥杜因").unwrap();
    dictionary
}

#[test]
fn new_dictionary_is_empty() {
    let dictionary = Dictionary::new("nowhere.txt");
    assert_eq!(0, dictionary.count());
    assert_eq!(std::path::Path::new("nowhere.txt"), dictionary.path().as_path());
    assert!(dictionary.get_left(0).is_none());
    assert!(dictionary.get_right(0).is_none());
    assert!(dictionary.get_all_right(0).is_none());
    assert!(dictionary.get_all_right_keys(0).is_none());
    assert!(dictionary.get_all_right_to_string(0).is_none());
}

#[test]
fn lookups_of_the_sample() {
    let dictionary = sample();
    assert_eq!(3, dictionary.count());
    let index = dictionary.find_left_strictly("Althasol", 0).unwrap();
    assert_eq!("阿爾瑟索", dictionary.get_right(index).unwrap());
    let found = dictionary.find_left("dun", 0).unwrap();
    assert_eq!(1, found.len());
    assert_eq!("奧爾敦", dictionary.get_right(found[0]).unwrap());
    let found = dictionary.find_left("Alduin", 0).unwrap();
    assert_eq!("奥杜因", dictionary.get_right(found[0]).unwrap());
    assert_eq!("阿爾杜因 --> 奥杜因", dictionary.get_all_right_to_string(found[0]).unwrap());
}

#[test]
fn entries_stand_in_file_order_after_a_change() {
    let dictionary = sample();
    assert_eq!(Some("Alduin"), dictionary.get_left(0));
    assert_eq!(Some("Aldun"), dictionary.get_left(1));
    assert_eq!(Some("Althasol"), dictionary.get_left(2));
    assert_eq!(Some(&String::from("Aldun")), dictionary.get_all_right_keys(1));
    let history = dictionary.get_all_right(0).unwrap();
    assert_eq!(vec![String::from("阿爾杜因"), String::from("奥杜因")], history.to_vec());
}

#[test]
fn single_item_holds_left_and_history() {
    let dictionary = sample();
    let item = dictionary.get_all_right_with_keys(0);
    assert_eq!(Some(String::from("Alduin")), item.left);
    assert_eq!(vec![String::from("阿爾杜因"), String::from("奥杜因")], item.right);
}

#[test]
fn exact_lookup_ignores_ascii_case_only() {
    let mut dictionary = Dictionary::new("d.txt");
    dictionary.add_edit("École", "school").unwrap();
    assert_eq!(Some(0), dictionary.find_left_strictly("École", 0));
    assert_eq!(Some(0), dictionary.find_left_strictly("ÉCOLE", 0));
    assert_eq!(None, dictionary.find_left_strictly("école", 0));
    assert_eq!(None, dictionary.find_left_strictly("Écol", 0));
}

#[test]
fn exact_lookup_on_empty_dictionary_finds_nothing() {
    let dictionary = Dictionary::new("d.txt");
    assert_eq!(None, dictionary.find_left_strictly("a", 0));
    assert_eq!(None, dictionary.find_left_strictly("a", 7));
    assert_eq!(None, dictionary.find_left("a", 3));
    assert_eq!(None, dictionary.find_right_strictly("a", 0));
    assert_eq!(None, dictionary.find_right("a", 0));
}

#[test]
fn rotation_does_not_change_a_single_match() {
    let dictionary = sample();
    let from_front = dictionary.find_left_strictly("aldun", 0);
    assert_eq!(Some(1), from_front);
    for start in 0..dictionary.count() {
        assert_eq!(from_front, dictionary.find_left_strictly("aldun", start));
    }
    assert_eq!(from_front, dictionary.find_left_strictly("aldun", 3 * 5 + 2));
}

#[test]
fn substring_lookup_walks_from_the_start_index_and_wraps() {
    let dictionary = sample();
    assert_eq!(Some(vec![0, 1, 2]), dictionary.find_left("al", 0));
    assert_eq!(Some(vec![1, 2, 0]), dictionary.find_left("AL", 1));
    assert_eq!(Some(vec![2, 0, 1]), dictionary.find_left("Al", 2));
    assert_eq!(Some(vec![0, 1, 2]), dictionary.find_left("al", 3));
    assert_eq!(Some(vec![0, 1]), dictionary.find_left("ald", 2));
    assert_eq!(Some(vec![]), dictionary.find_left("xyz", 0));
    assert_eq!(Some(vec![0, 1, 2]), dictionary.find_left("", 0));
}

#[test]
fn substring_lookup_gives_at_most_fifty() {
    let mut dictionary = Dictionary::new("d.txt");
    let mut text = String::new();
    for i in 0..60 {
        text.push_str(&format!("word{:02} = w{}\n", i, i));
    }
    dictionary.read_data(&text).unwrap();
    assert_eq!(60, dictionary.count());
    let found = dictionary.find_left("WORD", 0).unwrap();
    assert_eq!((0..50).collect::<Vec<usize>>(), found);
    let found = dictionary.find_left("word", 55).unwrap();
    let mut expected: Vec<usize> = (55..60).collect();
    expected.extend(0..45);
    assert_eq!(expected, found);
    let found = dictionary.find_left("word0", 5).unwrap();
    assert_eq!(vec![5, 6, 7, 8, 9, 0, 1, 2, 3, 4], found);
}

#[test]
fn right_lookups_search_the_whole_history() {
    let dictionary = sample();
    assert_eq!(Some(0), dictionary.find_right_strictly("阿爾杜因", 0));
    assert_eq!(Some(0), dictionary.find_right_strictly("奥杜因", 0));
    assert_eq!(Some(1), dictionary.find_right_strictly("奧爾敦", 0));
    assert_eq!(None, dictionary.find_right_strictly("奧爾", 0));
    assert_eq!(Some(1), dictionary.find_right("爾", 1));
    assert_eq!(Some(2), dictionary.find_right("爾", 2));
    assert_eq!(Some(0), dictionary.find_right("爾", 0));
    assert_eq!(Some(0), dictionary.find_right("杜因", 1));
    assert_eq!(None, dictionary.find_right("龍", 0));
}

#[test]
fn right_lookups_ignore_case() {
    let mut dictionary = Dictionary::new("d.txt");
    dictionary.add_edit("hund", "Dog").unwrap();
    dictionary.add_edit("katze", "Cat").unwrap();
    assert_eq!(Some(1), dictionary.find_right_strictly("cAT", 0));
    assert_eq!(Some(0), dictionary.find_right_strictly("DOG", 1));
    assert_eq!(Some(0), dictionary.find_right("OG", 0));
    assert_eq!(Some(1), dictionary.find_right("cA", 0));
    assert_eq!(None, dictionary.find_right_strictly("ca", 0));
}

#[test]
fn either_contains_looks_at_both_pairs() {
    assert!(word_dictionary::dictionary::either_contains("ALDUN", "DUN", "aldun", "x"));
    assert!(word_dictionary::dictionary::either_contains("ALDUN", "X", "aldun", "dun"));
    assert!(!word_dictionary::dictionary::either_contains("ALDUN", "dun", "aldun", "DUN"));
    assert!(word_dictionary::dictionary::either_contains("", "", "a", "b"));
}

#[test]
fn pairs_of_a_keyword() {
    let dictionary = sample();
    let pairs = dictionary.find_pairs("ald");
    assert_eq!(
        vec![
            (String::from("Alduin"), vec![String::from("阿爾杜因"), String::from("奥杜因")]),
            (String::from("Aldun"), vec![String::from("奧爾敦")]),
        ],
        pairs
    );
    assert!(dictionary.find_pairs("zzz").is_empty());
}

#[test]
fn pairs_of_an_empty_dictionary_are_none() {
    let dictionary = Dictionary::new("d.txt");
    assert!(dictionary.find_pairs("a").is_empty());
    assert!(dictionary.find_pairs("").is_empty());
}

#[test]
fn join_with_puts_the_separator_between() {
    let parts = vec![String::from("a"), String::from("b"), String::from("c")];
    assert_eq!("a --> b --> c", word_dictionary::text::join_with(&parts, " --> "));
    assert_eq!("a", word_dictionary::text::join_with(&parts[..1].to_vec(), ", "));
    assert_eq!("", word_dictionary::text::join_with(&Vec::new(), ", "));
}

#[test]
fn substring_lookup_uses_capitals() {
    let mut dictionary = Dictionary::new("d.txt");
    dictionary.add_edit("STRASSE", "street").unwrap();
    assert_eq!(Some(vec![0]), dictionary.find_left("straße", 0));
    assert_eq!(None, dictionary.find_left_strictly("straße", 0));
}

#[test]
fn substring_lookup_uses_small_letters() {
    let mut dictionary = Dictionary::new("d.txt");
    dictionary.add_edit("\u{130}stanbul", "city").unwrap();
    assert_eq!(Some(vec![0]), dictionary.find_left("i\u{307}stanbul", 0));
    assert_eq!(Some(vec![]), dictionary.find_left("\u{131}stanbul", 0));
}

#[test]
fn right_substring_lookup_uses_both_cases() {
    let mut dictionary = Dictionary::new("d.txt");
    dictionary.add_edit("street", "STRASSE").unwrap();
    dictionary.add_edit("city", "\u{130}stanbul").unwrap();
    assert_eq!(Some(1), dictionary.find_right("straße", 0));
    assert_eq!(Some(0), dictionary.find_right("i\u{307}stanbul", 1));
    assert_eq!(None, dictionary.find_right("\u{131}stanbul", 0));
}
