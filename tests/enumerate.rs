use string_range::model::{FIRST_SYMBOL, LAST_SYMBOL};
use string_range::cursor::WordRange;
use string_range::walk::{at_most, for_each_between, for_each_between_same_length};

const DELTA: usize = (LAST_SYMBOL - FIRST_SYMBOL) as usize + 1;

fn collect(begin: &str, end: &str) -> Vec<String> {
    let mut out: Vec<Vec<u8>> = Vec::new();
    for_each_between(begin.as_bytes(), end.as_bytes(), &mut out);
    out.into_iter()
        .map(|w| String::from_utf8(w).unwrap())
        .collect()
}

fn count(begin: &str, end: &str) -> usize {
    collect(begin, end).len()
}

#[test]
fn test_one_char_length() {
    let count = count("a", "z");
    assert_eq!(DELTA, count);
}

#[test]
fn test_one_char_length_from_middle() {
    let count = count("n", "z");
    assert_eq!((LAST_SYMBOL - 'n' as u8 + 1) as usize, count);
}

#[test]
fn test_two_char_length() {
    let count = count("aa", "zz");
    assert_eq!(DELTA * DELTA, count);
}

#[test]
fn test_tree_char_length() {
    let count = count("abc", "xyz");
    assert_eq!(
        count,
        DELTA * DELTA * DELTA
            - ('b' as u8 - FIRST_SYMBOL) as usize * DELTA
            - ('c' as u8 - FIRST_SYMBOL) as usize
            - (LAST_SYMBOL - 'y' as u8) as usize * DELTA
            - (LAST_SYMBOL - 'x' as u8) as usize * DELTA * DELTA
    );
}

#[test]
fn test_from_one_to_two_char_length() {
    let count = count("a", "zz");
    assert_eq!(DELTA + DELTA * DELTA, count);
}

#[test]
fn test_from_one_to_tree_char_length() {
    let count = count("d", "xyz");
    assert_eq!(
        count,
        (LAST_SYMBOL - 'd' as u8 + 1) as usize + DELTA * DELTA + DELTA * DELTA * DELTA
            - (LAST_SYMBOL - 'y' as u8) as usize * DELTA
            - (LAST_SYMBOL - 'x' as u8) as usize * DELTA * DELTA
    );
}

#[test]
fn test_empty_string() {
    let result = collect("", "d");
    assert_eq!(vec!["", "a", "b", "c", "d"], result);
}

#[test]
fn test_switch_length() {
    let result = collect("zzx", "aaab");
    assert_eq!(vec!["zzx", "zzy", "zzz", "aaaa", "aaab"], result);
}

#[test]
fn test_wrong_length() {
    let count = count("aaaa", "zzz");
    assert_eq!(0, count);
}

#[test]
fn test_wrong_order() {
    let count = count("zzz", "aaa");
    assert_eq!(0, count);
}

#[test]
fn test_same_string() {
    let result = collect("aaaa", "aaaa");
    assert_eq!(vec!["aaaa"], result);
}

#[test]
fn one_length_lists_alphabet_in_order() {
    let result = collect("a", "z");
    let expected: Vec<String> = (b'a'..=b'z').map(|c| (c as char).to_string()).collect();
    assert_eq!(expected, result);
}

#[test]
fn partial_single_length_count() {
    assert_eq!(26 - (b'n' - b'a') as usize, count("n", "z"));
    assert_eq!(vec!["x", "y", "z"], collect("x", "z"));
}

#[test]
fn both_empty_gives_the_empty_word() {
    assert_eq!(vec![""], collect("", ""));
}

#[test]
fn empty_to_two_letters_counts_every_length() {
    assert_eq!(1 + DELTA + DELTA * DELTA, count("", "zz"));
}

#[test]
fn middle_lengths_are_complete() {
    let result = collect("z", "aaa");
    assert_eq!(1 + DELTA * DELTA + 1, result.len());
    assert_eq!("z", result[0]);
    assert_eq!("aa", result[1]);
    assert_eq!("zz", result[DELTA * DELTA]);
    assert_eq!("aaa", result[DELTA * DELTA + 1]);
}

#[test]
fn later_begin_in_last_symbol_gives_nothing() {
    assert_eq!(0, count("bz", "ba"));
    assert_eq!(vec!["az", "ba"], collect("az", "ba"));
}

#[test]
fn repeated_calls_agree() {
    assert_eq!(collect("abc", "bcd"), collect("abc", "bcd"));
    assert_eq!(collect("q", "ab"), collect("q", "ab"));
}

#[test]
fn appends_after_existing_output() {
    let mut out: Vec<Vec<u8>> = vec![b"keep".to_vec()];
    for_each_between(b"y", b"z", &mut out);
    assert_eq!(vec![b"keep".to_vec(), b"y".to_vec(), b"z".to_vec()], out);
}

#[test]
fn same_length_walk_carries_over() {
    let mut current = b"azy".to_vec();
    let mut out: Vec<Vec<u8>> = Vec::new();
    for_each_between_same_length(&mut current, Some(b"bab".as_slice()), &mut out);
    let expected: Vec<Vec<u8>> = vec![
        b"azy".to_vec(),
        b"azz".to_vec(),
        b"baa".to_vec(),
        b"bab".to_vec(),
    ];
    assert_eq!(expected, out);
}

#[test]
fn same_length_walk_without_end_runs_to_last_word() {
    let mut current = b"zx".to_vec();
    let mut out: Vec<Vec<u8>> = Vec::new();
    for_each_between_same_length(&mut current, None, &mut out);
    assert_eq!(vec![b"zx".to_vec(), b"zy".to_vec(), b"zz".to_vec()], out);
}

#[test]
fn same_length_walk_past_end_is_empty() {
    let mut current = b"c".to_vec();
    let mut out: Vec<Vec<u8>> = Vec::new();
    for_each_between_same_length(&mut current, Some(b"b".as_slice()), &mut out);
    assert!(out.is_empty());
}

#[test]
fn at_most_orders_words() {
    assert!(at_most(b"abc", b"abd"));
    assert!(at_most(b"abc", b"abc"));
    assert!(!at_most(b"b", b"a"));
    assert!(at_most(b"az", b"ba"));
    assert!(!at_most(b"ba", b"az"));
    assert!(at_most(b"", b""));
}

fn pull_all(begin: &str, end: &str) -> Vec<Vec<u8>> {
    let mut range = WordRange::new(begin.as_bytes(), end.as_bytes());
    let mut out = Vec::new();
    while let Some(w) = range.next() {
        out.push(w);
    }
    out
}

#[test]
fn cursor_matches_collecting_walk() {
    for (begin, end) in [
        ("", "d"),
        ("zzx", "aaab"),
        ("abc", "abz"),
        ("y", "ab"),
        ("aaaa", "aaaa"),
        ("zzz", "aaa"),
        ("aaaa", "zzz"),
        ("", ""),
    ] {
        let mut out: Vec<Vec<u8>> = Vec::new();
        for_each_between(begin.as_bytes(), end.as_bytes(), &mut out);
        assert_eq!(out, pull_all(begin, end));
    }
}

#[test]
fn cursor_stays_finished() {
    let mut range = WordRange::new(b"b", b"c");
    assert_eq!(Some(b"b".to_vec()), range.next());
    assert_eq!(Some(b"c".to_vec()), range.next());
    assert_eq!(None, range.next());
    assert_eq!(None, range.next());
}

#[test]
fn cursor_allows_early_stop() {
    let mut range = WordRange::new(b"a", b"zzzzzz");
    let first: Vec<Vec<u8>> = (0..3).map(|_| range.next().unwrap()).collect();
    assert_eq!(vec![b"a".to_vec(), b"b".to_vec(), b"c".to_vec()], first);
}
