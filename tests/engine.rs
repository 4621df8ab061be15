use spellmatch::decode::{decode_record, WordFault};
use spellmatch::input::{find_separator, parse_input, split_records};
use spellmatch::matrix::DistanceMatrix;
use spellmatch::search::{search, search_all, search_with};
use spellmatch::word::{CapacityError, SVecC, MAX_LEN};

fn word(s: &str) -> SVecC {
    let mut w = SVecC::new();
    for c in s.chars() {
        w.push(c).expect("word fits");
    }
    w
}

fn text(w: &SVecC) -> String {
    w.chars().into_iter().collect()
}

fn dist(a: &str, b: &str) -> u8 {
    let mut m = DistanceMatrix::new();
    m.distance(&word(a), &word(b))
}

#[test]
fn word_push_len_index_clear() {
    let mut w = SVecC::new();
    assert_eq!(w.len(), 0);
    assert_eq!(w.push('x'), Ok(()));
    assert_eq!(w.push('ö'), Ok(()));
    assert_eq!(w.len(), 2);
    assert_eq!(w.index(1), 'ö');
    assert_eq!(w.chars(), vec!['x', 'ö']);
    w.clear();
    assert_eq!(w.len(), 0);
    assert!(w.chars().is_empty());
}

#[test]
fn word_refuses_char_past_capacity() {
    let mut w = SVecC::new();
    for _ in 0..MAX_LEN {
        assert_eq!(w.push('a'), Ok(()));
    }
    assert_eq!(w.push('b'), Err(CapacityError));
    assert_eq!(w.len(), MAX_LEN);
    assert_eq!(w.index(MAX_LEN - 1), 'a');
}

#[test]
fn common_prefix_lengths() {
    assert_eq!(word("carpet").common_prefix(&word("cart")), 3);
    assert_eq!(word("cat").common_prefix(&word("cat")), 3);
    assert_eq!(word("ca").common_prefix(&word("cat")), 2);
    assert_eq!(word("dog").common_prefix(&word("cat")), 0);
    assert_eq!(word("").common_prefix(&word("cat")), 0);
}

#[test]
fn distance_known_values() {
    assert_eq!(dist("kitten", "sitting"), 3);
    assert_eq!(dist("flaw", "lawn"), 2);
    assert_eq!(dist("", "abc"), 3);
    assert_eq!(dist("abc", ""), 3);
    assert_eq!(dist("", ""), 0);
    assert_eq!(dist("cbt", "cow"), 2);
}

#[test]
fn distance_to_self_is_zero() {
    for w in ["", "a", "hello", "sång", "aaaaaaaaaaaaaaaaaaaaaaaaaaaaaaaaaaaaaaaa"] {
        assert_eq!(dist(w, w), 0);
    }
}

#[test]
fn distance_is_symmetric() {
    let ws = ["", "a", "ab", "kitten", "sitting", "intention", "execution"];
    for a in ws {
        for b in ws {
            assert_eq!(dist(a, b), dist(b, a));
        }
    }
}

#[test]
fn distance_at_least_length_gap() {
    let ws = ["", "a", "ab", "kitten", "sitting", "intention", "execution"];
    for a in ws {
        for b in ws {
            let gap = (a.len() as i64 - b.len() as i64).unsigned_abs();
            assert!(dist(a, b) as u64 >= gap);
        }
    }
    let long = "z".repeat(40);
    assert_eq!(dist("", &long), 40);
}

#[test]
fn compute_reuses_shared_columns() {
    let q = word("sitting");
    let mut m = DistanceMatrix::new();
    assert_eq!(m.compute(&q, &word("kitten"), 0), 3);
    assert_eq!(m.compute(&q, &word("kitchen"), 3), dist("sitting", "kitchen"));
    assert_eq!(m.compute(&q, &word("kit"), 3), 5);
    assert_eq!(m.distance(&q, &word("kit")), 5);
}

#[test]
fn search_reports_minimum_and_ties() {
    let dict = vec![word("cat"), word("cot"), word("cow")];
    let r = search(&word("cbt"), &dict);
    assert_eq!(text(&r.query), "cbt");
    assert_eq!(r.min_distance, Some(1));
    assert_eq!(r.ties, vec![0, 1]);
    let line: String = r.line(&dict).into_iter().collect();
    assert_eq!(line, "cbt (1) cat cot");
}

#[test]
fn search_on_empty_dictionary() {
    let r = search(&word("anything"), &Vec::new());
    assert_eq!(r.min_distance, None);
    assert!(r.ties.is_empty());
    let line: String = r.line(&Vec::new()).into_iter().collect();
    assert_eq!(line, "anything (<no-match>)");
}

#[test]
fn search_restarts_ties_on_smaller_distance() {
    let dict = vec![word("xyz"), word("abd"), word("abc"), word("abe"), word("abc")];
    let r = search(&word("abc"), &dict);
    assert_eq!(r.min_distance, Some(0));
    assert_eq!(r.ties, vec![2, 4]);
}

#[test]
fn search_skips_words_far_in_length() {
    let dict = vec![word("aa"), word("a"), word(&"a".repeat(20))];
    let r = search(&word("aa"), &dict);
    assert_eq!(r.min_distance, Some(0));
    assert_eq!(r.ties, vec![0]);
}

#[test]
fn search_with_used_matrix_matches_fresh_search() {
    let dict = vec![word("apple"), word("apply"), word("ample"), word("maple")];
    let mut m = DistanceMatrix::new();
    let _ = m.distance(&word("zzzzzz"), &word("qqqq"));
    let a = search_with(&mut m, &word("appel"), &dict);
    let b = search(&word("appel"), &dict);
    assert_eq!(a.min_distance, b.min_distance);
    assert_eq!(a.ties, b.ties);
}

#[test]
fn search_all_in_query_order() {
    let dict = vec![word("cat"), word("dog")];
    let rs = search_all(&dict, &vec![word("dig"), word("cut"), word("")]);
    assert_eq!(rs.len(), 3);
    assert_eq!((rs[0].min_distance, rs[0].ties.clone()), (Some(1), vec![1]));
    assert_eq!((rs[1].min_distance, rs[1].ties.clone()), (Some(1), vec![0]));
    assert_eq!((rs[2].min_distance, rs[2].ties.clone()), (Some(3), vec![0, 1]));
}

#[test]
fn decode_record_cases() {
    let w = decode_record(&"sång".as_bytes().to_vec()).expect("decodes");
    assert_eq!(w.chars(), vec!['s', 'å', 'n', 'g']);
    let w = decode_record(&"äö\r".as_bytes().to_vec()).expect("decodes");
    assert_eq!(w.chars(), vec!['ä', 'ö']);
    let w = decode_record(&vec![0xe9, b'a']).expect("decodes");
    assert_eq!(w.chars(), vec!['\u{e9}', 'a']);
    assert_eq!(decode_record(&vec![b'a', 0xc3]).err(), Some(WordFault::TruncatedSequence));
    assert_eq!(decode_record(&vec![0xc3, 0x41]).err(), Some(WordFault::UnknownSequence(0x41)));
    assert_eq!(decode_record(&vec![b'q'; 41]).err(), Some(WordFault::TooLong));
    assert_eq!(decode_record(&vec![b'q'; 40]).map(|w| w.len()).ok(), Some(40));
}

#[test]
fn split_and_find_separator() {
    let (recs, rest) = split_records(&b"ab\n\n#x\ncd\nef".to_vec());
    assert_eq!(recs, vec![b"ab".to_vec(), vec![], b"#x".to_vec(), b"cd".to_vec()]);
    assert_eq!(rest, b"ef".to_vec());
    assert_eq!(find_separator(&recs), Some(2));
    assert_eq!(find_separator(&vec![b"a#".to_vec()]), None);
}

#[test]
fn parse_input_sections() {
    let lists = parse_input(&b"one\ntwo\n#\nthree\n".to_vec()).expect("parses");
    let d: Vec<String> = lists.dictionary.iter().map(text).collect();
    let q: Vec<String> = lists.queries.iter().map(text).collect();
    assert_eq!(d, vec!["one".to_string(), "two".to_string()]);
    assert_eq!(q, vec!["three".to_string()]);
}
