use spellmatch::batch::run;
use spellmatch::input::InputError;
use spellmatch::decode::WordFault;

fn lines_of(input: &str) -> Vec<String> {
    let lines = run(&input.as_bytes().to_vec()).expect("input should parse");
    lines.into_iter().map(|l| l.into_iter().collect::<String>()).collect()
}

#[test]
fn nearest_two_tie_in_scan_order() {
    assert_eq!(lines_of("cat\ncot\ncow\n#\ncbt\n"), vec!["cbt (1) cat cot".to_string()]);
}

#[test]
fn exact_word_is_at_distance_zero() {
    assert_eq!(lines_of("hello\n#\nhello\n"), vec!["hello (0) hello".to_string()]);
}

#[test]
fn empty_dictionary_reports_no_match() {
    assert_eq!(lines_of("#\nanything\n"), vec!["anything (<no-match>)".to_string()]);
}

#[test]
fn accented_letter_decodes_to_one_character() {
    assert_eq!(lines_of("sång\n#\nsang\n"), vec!["sang (1) sång".to_string()]);
}

#[test]
fn long_word_is_pruned_after_close_match() {
    let long = "a".repeat(20);
    let input = format!("a\n{}\n#\naa\n", long);
    assert_eq!(lines_of(&input), vec!["aa (1) a".to_string()]);
    let input = format!("aa\na\n{}\n#\naa\n", long);
    assert_eq!(lines_of(&input), vec!["aa (0) aa".to_string()]);
}

#[test]
fn several_queries_keep_their_order() {
    let out = lines_of("apple\napply\nbanana\n#\nappla\nbanan\nzzz\n");
    assert_eq!(
        out,
        vec![
            "appla (1) apple apply".to_string(),
            "banan (1) banana".to_string(),
            "zzz (5) apple apply".to_string(),
        ]
    );
}

#[test]
fn carriage_returns_are_dropped() {
    assert_eq!(lines_of("cat\r\ndog\r\n#\r\ncot\r\n"), vec!["cot (1) cat".to_string()]);
}

#[test]
fn separator_as_last_record_gives_no_queries() {
    assert_eq!(lines_of("cat\ndog\n#"), Vec::<String>::new());
}

#[test]
fn empty_words_are_legal() {
    assert_eq!(lines_of("\nab\n#\n\n"), vec![" (0) ".to_string()]);
    assert_eq!(lines_of("abc\n#\n\n"), vec![" (3) abc".to_string()]);
}

#[test]
fn two_digit_distance_is_printed_in_full() {
    let long = "x".repeat(12);
    let input = format!("{}\n#\n\n", long);
    assert_eq!(lines_of(&input), vec![format!(" (12) {}", long)]);
}

#[test]
fn rerun_gives_identical_output() {
    let input = "cat\ncot\ncow\nbat\n#\ncbt\nca\n";
    assert_eq!(lines_of(input), lines_of(input));
}

#[test]
fn reordered_dictionary_gives_same_distance_and_ties() {
    let a = lines_of("cat\ncot\ncow\ncbx\n#\ncbt\n");
    let b = lines_of("cbx\ncow\ncot\ncat\n#\ncbt\n");
    assert_eq!(a, vec!["cbt (1) cat cot cbx".to_string()]);
    assert_eq!(b, vec!["cbt (1) cbx cot cat".to_string()]);
}

#[test]
fn missing_separator_is_an_error() {
    assert!(matches!(run(&b"cat\ndog\n".to_vec()), Err(InputError::MissingSeparator)));
}

#[test]
fn unterminated_query_is_an_error() {
    assert!(matches!(
        run(&b"cat\n#\ncot".to_vec()),
        Err(InputError::UnterminatedRecord { record: 2 })
    ));
}

#[test]
fn truncated_accent_is_an_error() {
    let bytes = vec![b'a', 0xc3, b'\n', b'#', b'\n'];
    assert_eq!(
        run(&bytes).err(),
        Some(InputError::BadWord { record: 0, fault: WordFault::TruncatedSequence })
    );
    let bytes = vec![b'#', b'\n', b'a', 0xc3];
    assert!(matches!(run(&bytes), Err(InputError::UnterminatedRecord { record: 1 })));
}

#[test]
fn unknown_accent_is_an_error() {
    let bytes = vec![b'c', b'a', b't', b'\n', b'#', b'\n', 0xc3, 0x85, b'\n'];
    assert_eq!(
        run(&bytes).err(),
        Some(InputError::BadWord { record: 2, fault: WordFault::UnknownSequence(0x85) })
    );
}

#[test]
fn overlong_word_is_an_error() {
    let input = format!("ok\n{}\n#\nx\n", "b".repeat(41));
    assert_eq!(
        run(&input.as_bytes().to_vec()).err(),
        Some(InputError::BadWord { record: 1, fault: WordFault::TooLong })
    );
    let input = format!("{}\n#\nx\n", "b".repeat(40));
    assert!(run(&input.as_bytes().to_vec()).is_ok());
}
