use word_dictionary::{BrokenReason, Dictionary, ReadError};

fn load(text: &str) -> (Dictionary, Result<(), ReadError>) {
    let mut dictionary = Dictionary::new("d.txt");
    let result = dictionary.read_data(text);
    (dictionary, result)
}

#[test]
fn reads_entries_line_by_line() {
    let (dictionary, result) = load("Alduin = 阿爾杜因 --> 奥杜因\nAldun = 奧爾敦\nAlthasol = 阿爾瑟索");
    assert!(result.is_ok());
    assert_eq!(3, dictionary.count());
    assert_eq!(Some("Alduin"), dictionary.get_left(0));
    assert_eq!(Some(String::from("阿爾杜因 --> 奥杜因")), dictionary.get_all_right_to_string(0));
    assert_eq!(Some("Althasol"), dictionary.get_left(2));
    assert_eq!(Some("阿爾瑟索"), dictionary.get_right(2));
}

#[test]
fn tolerates_blank_lines_and_loose_spacing() {
    let (dictionary, result) = load("\n  \t\r\n  a=b\r\n\n c  d \t=  e  f-->g\u{a0}-->\th  \n\n");
    assert!(result.is_ok());
    assert_eq!(2, dictionary.count());
    assert_eq!(Some("a"), dictionary.get_left(0));
    assert_eq!(Some("b"), dictionary.get_right(0));
    assert_eq!(Some("c  d"), dictionary.get_left(1));
    assert_eq!(
        vec![String::from("e  f"), String::from("g"), String::from("h")],
        dictionary.get_all_right(1).unwrap().to_vec()
    );
}

#[test]
fn empty_text_gives_empty_dictionary() {
    let (dictionary, result) = load("");
    assert!(result.is_ok());
    assert_eq!(0, dictionary.count());
}

#[test]
fn empty_left_term_is_read() {
    let (dictionary, result) = load(" = x");
    assert!(result.is_ok());
    assert_eq!(Some(""), dictionary.get_left(0));
    assert_eq!(Some("x"), dictionary.get_right(0));
}

#[test]
fn arrow_before_equals_is_a_bad_left_string() {
    let (dictionary, result) = load("A --> B = C");
    match result {
        Err(ReadError::Broken { line, left_string, reason }) => {
            assert_eq!(1, line);
            assert_eq!("A --> B ", left_string);
            assert!(matches!(reason, BrokenReason::BadLeftString));
        }
        _ => panic!("the line must be refused"),
    }
    assert_eq!(0, dictionary.count());
}

#[test]
fn empty_right_side_is_a_bad_right_string() {
    let (_, result) = load("A = ");
    match result {
        Err(ReadError::Broken { line, left_string, reason }) => {
            assert_eq!(1, line);
            assert_eq!("A", left_string);
            match reason {
                BrokenReason::BadRightString { right_string } => assert_eq!("", right_string),
                _ => panic!("wrong reason"),
            }
        }
        _ => panic!("the line must be refused"),
    }
}

#[test]
fn second_equals_is_a_bad_right_string() {
    let (_, result) = load("A = B = C");
    match result {
        Err(ReadError::Broken { line, left_string, reason }) => {
            assert_eq!(1, line);
            assert_eq!("A", left_string);
            match reason {
                BrokenReason::BadRightString { right_string } => assert_eq!(" B ", right_string),
                _ => panic!("wrong reason"),
            }
        }
        _ => panic!("the line must be refused"),
    }
}

#[test]
fn empty_piece_between_arrows_is_a_bad_right_string() {
    for text in ["A = b --> ", "A = --> b", "A = b -->  --> c", "A = -->"] {
        let (_, result) = load(text);
        match result {
            Err(ReadError::Broken { reason: BrokenReason::BadRightString { right_string }, .. }) => {
                assert_eq!(&text.trim()[3..], right_string);
            }
            _ => panic!("the line must be refused"),
        }
    }
}

#[test]
fn missing_equals_is_no_right_string() {
    let (dictionary, result) = load("a = b\n\nlonely  \n c = d");
    match result {
        Err(ReadError::Broken { line, left_string, reason }) => {
            assert_eq!(2, line);
            assert_eq!("lonely", left_string);
            assert!(matches!(reason, BrokenReason::NoRightString));
        }
        _ => panic!("the line must be refused"),
    }
    assert_eq!(1, dictionary.count());
    assert_eq!(Some("a"), dictionary.get_left(0));
}

#[test]
fn repeated_left_term_is_duplicated() {
    let (dictionary, result) = load("Word = a\nother = b\nWORD = c\nlast = d");
    match result {
        Err(ReadError::Broken { line, left_string, reason }) => {
            assert_eq!(3, line);
            assert_eq!("WORD", left_string);
            match reason {
                BrokenReason::Duplicated { another_left_string } => {
                    assert_eq!("Word", another_left_string)
                }
                _ => panic!("wrong reason"),
            }
        }
        _ => panic!("the line must be refused"),
    }
    assert_eq!(2, dictionary.count());
}

#[test]
fn duplicate_is_reported_before_a_missing_right_string() {
    let (_, result) = load("a = b\nA");
    assert!(matches!(
        result,
        Err(ReadError::Broken { line: 2, reason: BrokenReason::Duplicated { .. }, .. })
    ));
}

#[test]
fn line_number_counts_entries_read_so_far() {
    let (_, result) = load("\n\n\na = b\n\n\nc = d\n\n x");
    assert!(matches!(
        result,
        Err(ReadError::Broken { line: 3, reason: BrokenReason::NoRightString, .. })
    ));
}

#[test]
fn reading_appends_to_what_is_there() {
    let mut dictionary = Dictionary::new("d.txt");
    dictionary.add_edit("a", "1").unwrap();
    assert!(dictionary.read_data("b = 2").is_ok());
    assert_eq!(2, dictionary.count());
    let result = dictionary.read_data("c = 3\nA = 4");
    match result {
        Err(ReadError::Broken { line, reason: BrokenReason::Duplicated { another_left_string }, .. }) => {
            assert_eq!(2, line);
            assert_eq!("a", another_left_string);
        }
        _ => panic!("the line must be refused"),
    }
    assert_eq!(3, dictionary.count());
}

#[test]
fn splitting_takes_matches_from_the_left() {
    let (dictionary, result) = load("a = b--->c ---> d->e");
    assert!(result.is_ok());
    assert_eq!(
        vec![String::from("b-"), String::from("c -"), String::from("d->e")],
        dictionary.get_all_right(0).unwrap().to_vec()
    );
}

#[test]
fn written_text_reads_back_the_same() {
    let mut dictionary = Dictionary::new("d.txt");
    dictionary.add_edit("Dragon", "龍").unwrap();
    dictionary.add_edit("", "nothing").unwrap();
    dictionary.add_edit("alduin", "阿爾杜因").unwrap();
    dictionary.add_edit("Alduin", "奥杜因").unwrap();
    dictionary.add_edit("two words", "zwei  Wörter").unwrap();
    dictionary.add_edit("Dragon", "Drache -> Wurm").unwrap();
    let text = dictionary.write_data();
    assert_eq!(
        " = nothing\nalduin = 阿爾杜因 --> 奥杜因\nDragon = 龍 --> Drache -> Wurm\ntwo words = zwei  Wörter",
        text
    );
    let mut copy = Dictionary::new("d.txt");
    assert!(copy.read_data(&text).is_ok());
    assert_eq!(dictionary.count(), copy.count());
    for i in 0..dictionary.count() {
        assert_eq!(dictionary.get_left(i), copy.get_left(i));
        assert_eq!(dictionary.get_all_right(i), copy.get_all_right(i));
    }
    assert_eq!(text, copy.write_data());
}

#[test]
fn read_error_messages() {
    let (_, result) = load("A --> B = C");
    assert_eq!(
        "broken at line 1, the left string \"A --> B \" is not correct",
        result.unwrap_err().message()
    );
    let (_, result) = load("a = \"b\" = c");
    assert_eq!(
        "broken at line 1, the right string \" \\\"b\\\" \" is not correct",
        result.unwrap_err().message()
    );
    let (_, result) = load("x = y\nlonely");
    assert_eq!(
        "broken at line 2, expected a \"=\" after the left string \"lonely\" to concatenate a right string",
        result.unwrap_err().message()
    );
    let (_, result) = load("a = b\na = c");
    assert_eq!("broken at line 2, the left string \"a\" is duplicated", result.unwrap_err().message());
    let (_, result) = load("a = b\nA = c");
    assert_eq!(
        "broken at line 2, the left string \"A\" and \"a\" are duplicated",
        result.unwrap_err().message()
    );
    let mut many = String::new();
    for i in 0..120 {
        many.push_str(&format!("w{} = x\n", i));
    }
    many.push_str("broken");
    let (_, result) = load(&many);
    assert_eq!(
        "broken at line 121, expected a \"=\" after the left string \"broken\" to concatenate a right string",
        result.unwrap_err().message()
    );
}

#[test]
fn reason_message_names_the_left_string() {
    let reason = BrokenReason::BadRightString { right_string: String::from("tab\there") };
    assert_eq!("the right string \"tab\\there\" is not correct", reason.message("ignored"));
    assert_eq!("the left string \"l\" is not correct", BrokenReason::BadLeftString.message("l"));
}

#[test]
fn io_error_becomes_read_error() {
    let error = ReadError::from(std::io::Error::new(std::io::ErrorKind::PermissionDenied, "no entry"));
    assert!(matches!(error, ReadError::IOError(_)));
    assert_eq!("no entry", error.message());
}

#[test]
fn read_line_takes_one_line() {
    let mut dictionary = Dictionary::new("d.txt");
    assert!(matches!(dictionary.read_line("  \t ", 7), Ok(false)));
    assert!(matches!(dictionary.read_line(" a = b --> c ", 7), Ok(true)));
    assert_eq!(1, dictionary.count());
    assert_eq!(Some(String::from("b --> c")), dictionary.get_all_right_to_string(0));
    match dictionary.read_line("A = d", 7) {
        Err(ReadError::Broken { line, left_string, reason }) => {
            assert_eq!(7, line);
            assert_eq!("A", left_string);
            assert!(matches!(reason, BrokenReason::Duplicated { .. }));
        }
        _ => panic!("the line must be refused"),
    }
    assert_eq!(1, dictionary.count());
}

#[test]
fn white_space_is_what_trimming_removes() {
    let white: [u32; 25] = [
        0x09, 0x0A, 0x0B, 0x0C, 0x0D, 0x20, 0x85, 0xA0, 0x1680, 0x2000, 0x2001, 0x2002, 0x2003,
        0x2004, 0x2005, 0x2006, 0x2007, 0x2008, 0x2009, 0x200A, 0x2028, 0x2029, 0x202F, 0x205F,
        0x3000,
    ];
    for code in 0..=0x10FFFFu32 {
        let c = match char::from_u32(code) {
            Some(c) => c,
            None => continue,
        };
        if c == '=' {
            continue;
        }
        let mut dictionary = Dictionary::new("d.txt");
        let line = format!("{}a{} = {}b{}", c, c, c, c);
        assert!(matches!(dictionary.read_line(&line, 1), Ok(true)));
        if white.contains(&code) {
            assert_eq!(Some("a"), dictionary.get_left(0));
            assert_eq!(Some("b"), dictionary.get_right(0));
        } else {
            assert_eq!(Some(format!("{}a{}", c, c).as_str()), dictionary.get_left(0));
            assert_eq!(Some(format!("{}b{}", c, c).as_str()), dictionary.get_right(0));
        }
    }
}

#[test]
fn only_ascii_letters_lose_their_case_in_exact_lookups() {
    let mut dictionary = Dictionary::new("d.txt");
    assert!(dictionary.read_data("k = 1\n\u{e9} = 2\n[ = 3\n@ = 4").is_ok());
    assert_eq!(Some(0), dictionary.find_left_strictly("K", 0));
    assert_eq!(None, dictionary.find_left_strictly("\u{212a}", 0));
    assert_eq!(None, dictionary.find_left_strictly("\u{c9}", 0));
    assert_eq!(None, dictionary.find_left_strictly("{", 0));
    assert_eq!(None, dictionary.find_left_strictly("`", 0));
    assert_eq!(Some(2), dictionary.find_left_strictly("[", 0));
    assert!(dictionary.read_data("Z = 5\nz = 6").is_err());
    assert!(dictionary.read_data("\u{c9} = 7").is_ok());
}
