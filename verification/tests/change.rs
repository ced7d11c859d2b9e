use word_dictionary::{Dictionary, WriteError};

#[test]
fn concrete_scenario() {
    let mut dictionary = Dictionary::new("d.txt");
    assert!(matches!(dictionary.add_edit("Alduin", "阿爾杜因"), Ok(true)));
    assert!(matches!(dictionary.add_edit("Alduin", "奥杜因"), Ok(false)));
    let history = dictionary.get_all_right(0).unwrap();
    assert_eq!(vec![String::from("阿爾杜因"), String::from("奥杜因")], history.to_vec());
    let index = dictionary.find_left_strictly("alduin", 0).unwrap();
    assert_eq!(Some("奥杜因"), dictionary.get_right(index));
    assert_eq!(Some(String::from("阿爾杜因 --> 奥杜因")), dictionary.get_all_right_to_string(index));
}

#[test]
fn second_identical_upsert_is_rejected() {
    let mut dictionary = Dictionary::new("d.txt");
    dictionary.add_edit("zebra", "Zebra").unwrap();
    assert!(matches!(dictionary.add_edit("apple", "Apfel"), Ok(true)));
    let before = dictionary.write_data();
    assert!(matches!(dictionary.add_edit("apple", "Apfel"), Err(WriteError::Duplicated)));
    assert!(matches!(dictionary.add_edit("  APPLE ", " Apfel\n"), Err(WriteError::Duplicated)));
    assert_eq!(2, dictionary.count());
    assert_eq!(before, dictionary.write_data());
}

#[test]
fn history_accumulates() {
    let mut dictionary = Dictionary::new("d.txt");
    dictionary.add_edit("m", "x").unwrap();
    dictionary.add_edit("L", "R1").unwrap();
    assert!(matches!(dictionary.add_edit("l", "R2"), Ok(false)));
    let index = dictionary.find_left_strictly("L", 0).unwrap();
    assert_eq!(Some("L"), dictionary.get_left(index));
    assert_eq!(vec![String::from("R1"), String::from("R2")], dictionary.get_all_right(index).unwrap().to_vec());
    assert_eq!(Some("R2"), dictionary.get_right(index));
    assert!(matches!(dictionary.add_edit("L", "R1"), Ok(false)));
    assert_eq!(Some("R1"), dictionary.get_right(index));
    assert_eq!(Some(String::from("R1 --> R2 --> R1")), dictionary.get_all_right_to_string(index));
}

#[test]
fn left_terms_stay_unique() {
    let mut dictionary = Dictionary::new("d.txt");
    for (left, right) in [("b", "1"), ("B", "2"), ("a", "3"), ("A", "4"), ("c", "5"), ("b", "6")] {
        dictionary.add_edit(left, right).unwrap();
    }
    dictionary.delete(0).unwrap();
    dictionary.add_edit("C", "7").unwrap();
    for i in 0..dictionary.count() {
        for j in 0..dictionary.count() {
            if i != j {
                assert_ne!(
                    dictionary.get_left(i).unwrap().to_ascii_lowercase(),
                    dictionary.get_left(j).unwrap().to_ascii_lowercase()
                );
            }
        }
    }
    assert_eq!(2, dictionary.count());
}

#[test]
fn terms_with_marks_are_rejected() {
    let mut dictionary = Dictionary::new("d.txt");
    assert!(matches!(dictionary.add_edit("a-->b", "c"), Err(WriteError::BadLeftString)));
    assert!(matches!(dictionary.add_edit("a=b", "c"), Err(WriteError::BadLeftString)));
    assert!(matches!(dictionary.add_edit("a=b", "c=d"), Err(WriteError::BadLeftString)));
    assert!(matches!(dictionary.add_edit("a", "c-->d"), Err(WriteError::BadRightString)));
    assert!(matches!(dictionary.add_edit("a", "="), Err(WriteError::BadRightString)));
    assert!(matches!(dictionary.add_edit("a", " a "), Err(WriteError::Same)));
    assert!(matches!(dictionary.add_edit("", ""), Err(WriteError::Same)));
    assert_eq!(0, dictionary.count());
    assert!(matches!(dictionary.add_edit("a->b", "--"), Ok(true)));
    assert!(matches!(dictionary.add_edit("a", "A"), Ok(true)));
    assert_eq!(2, dictionary.count());
}

#[test]
fn terms_are_trimmed_before_they_are_stored() {
    let mut dictionary = Dictionary::new("d.txt");
    dictionary.add_edit(" \t Aldun\u{3000}", "\n奧爾 敦 \r\n").unwrap();
    assert_eq!(Some("Aldun"), dictionary.get_left(0));
    assert_eq!(Some("奧爾 敦"), dictionary.get_right(0));
}

#[test]
fn delete_removes_the_entry_at_the_index() {
    let mut dictionary = Dictionary::new("d.txt");
    dictionary.add_edit("b", "2").unwrap();
    dictionary.add_edit("a", "1").unwrap();
    dictionary.add_edit("c", "3").unwrap();
    assert!(matches!(dictionary.delete(3), Ok(false)));
    assert_eq!(3, dictionary.count());
    assert!(matches!(dictionary.delete(1), Ok(true)));
    assert_eq!(2, dictionary.count());
    assert_eq!(Some("a"), dictionary.get_left(0));
    assert_eq!(Some("c"), dictionary.get_left(1));
    assert_eq!(Some("3"), dictionary.get_right(1));
    assert!(matches!(dictionary.delete(0), Ok(true)));
    assert!(matches!(dictionary.delete(0), Ok(true)));
    assert!(matches!(dictionary.delete(0), Ok(false)));
    assert_eq!(0, dictionary.count());
}

#[test]
fn write_data_sorts_by_capitals_and_renders() {
    let mut dictionary = Dictionary::new("d.txt");
    dictionary.read_data("delta = 4\nBravo = 2 --> two\ncharlie = 3\nalpha = 1\n_x = 0\nZulu = 26").unwrap();
    assert_eq!(Some("delta"), dictionary.get_left(0));
    let text = dictionary.write_data();
    assert_eq!("alpha = 1\nBravo = 2 --> two\ncharlie = 3\ndelta = 4\nZulu = 26\n_x = 0", text);
    assert_eq!(Some("alpha"), dictionary.get_left(0));
    assert_eq!(Some("_x"), dictionary.get_left(5));
    assert_eq!(Some("two"), dictionary.get_right(1));
    assert_eq!(text, dictionary.write_data());
}

#[test]
fn write_data_of_an_empty_dictionary_is_empty() {
    let mut dictionary = Dictionary::new("d.txt");
    assert_eq!("", dictionary.write_data());
}

#[test]
fn sort_by_keys_orders_entries_by_the_given_keys() {
    let mut dictionary = Dictionary::new("d.txt");
    dictionary.read_data("a = 1\nb = 2\nc = 3\nd = 4").unwrap();
    let mut keys = vec![String::from("k3"), String::from("k1"), String::from("k4"), String::from("k2")];
    dictionary.sort_by_keys(&mut keys);
    assert_eq!(vec!["k1", "k2", "k3", "k4"], keys);
    assert_eq!(Some("b"), dictionary.get_left(0));
    assert_eq!(Some("d"), dictionary.get_left(1));
    assert_eq!(Some("a"), dictionary.get_left(2));
    assert_eq!(Some("c"), dictionary.get_left(3));
    assert_eq!(Some("4"), dictionary.get_right(1));
}

#[test]
fn sort_by_keys_orders_by_code_points() {
    let mut dictionary = Dictionary::new("d.txt");
    dictionary.read_data("a = 1\nb = 2\nc = 3\nd = 4\ne = 5").unwrap();
    let mut keys = vec![
        String::from("\u{10000}"),
        String::from("\u{ff5e}"),
        String::from("ab"),
        String::from("a"),
        String::from(""),
    ];
    dictionary.sort_by_keys(&mut keys);
    assert_eq!(vec!["", "a", "ab", "\u{ff5e}", "\u{10000}"], keys);
    assert_eq!(Some("e"), dictionary.get_left(0));
    assert_eq!(Some("a"), dictionary.get_left(4));
}

#[test]
fn write_error_messages() {
    assert_eq!("the left word is not correct", WriteError::BadLeftString.message());
    assert_eq!("the right word is not correct", WriteError::BadRightString.message());
    assert_eq!(
        "the pair of the left word and the right word is duplicated",
        WriteError::Duplicated.message()
    );
    assert_eq!("the left word is equal to the right word", WriteError::Same.message());
    let error = WriteError::from(std::io::Error::new(std::io::ErrorKind::Other, "disk full"));
    assert!(matches!(error, WriteError::IOError(_)));
    assert_eq!("disk full", error.message());
}

#[test]
fn order_of_the_file_goes_by_capitals() {
    let mut dictionary = Dictionary::new("d.txt");
    dictionary.add_edit("st", "1").unwrap();
    dictionary.add_edit("ßa", "2").unwrap();
    dictionary.add_edit("Su", "3").unwrap();
    assert_eq!("ßa = 2\nst = 1\nSu = 3", dictionary.write_data());
}
