use strdata::levenshtein::{levenshtein_distance, substitution_cost, MOVE_COST};
use strdata::{expandtabs, to_ascii, zfill};

#[test]
fn zfill_keeps_the_sign_in_front() {
    assert_eq!(zfill(b"-42", 5), b"-0042");
    assert_eq!(zfill(b"+42", 5), b"+0042");
    assert_eq!(zfill(b"42", 5), b"00042");
}

#[test]
fn zfill_leaves_long_input_alone() {
    assert_eq!(zfill(b"12345", 3), b"12345");
    assert_eq!(zfill(b"12345", 5), b"12345");
    assert_eq!(zfill(b"-1", 2), b"-1");
    assert_eq!(zfill(b"", 0), b"");
}

#[test]
fn zfill_edge_cases() {
    assert_eq!(zfill(b"", 3), b"000");
    assert_eq!(zfill(b"-", 3), b"-00");
    assert_eq!(zfill(b"a-1", 5), b"00a-1");
    assert_eq!(zfill(b"--1", 5), b"-00-1");
    assert_eq!(zfill(b"7", 2).len(), 2);
}

#[test]
fn expandtabs_pads_to_the_next_stop() {
    assert_eq!(expandtabs("a\tb", 4), "a   b");
    assert_eq!(expandtabs("ab\tcd", 4), "ab  cd");
    assert_eq!(expandtabs("\tx", 4), "    x");
    assert_eq!(expandtabs("abcd\tx", 4), "abcd    x");
    assert_eq!(expandtabs("abcde\tx", 4), "abcde   x");
    assert_eq!(expandtabs("a\t\tb", 3), "a     b");
    assert_eq!(expandtabs("a\tb", 1), "a b");
    assert_eq!(expandtabs("", 8), "");
    assert_eq!(expandtabs("no tabs", 8), "no tabs");
}

#[test]
fn expandtabs_restarts_after_a_line_break() {
    assert_eq!(expandtabs("ab\n\tc", 4), "ab\n    c");
    assert_eq!(expandtabs("abc\nd\te", 4), "abc\nd   e");
    assert_eq!(expandtabs("abc\rd\te", 4), "abc\rd   e");
    assert_eq!(expandtabs("abcdef\r\nx\ty", 4), "abcdef\r\nx   y");
    let before = "xy\tz";
    let after = "q\tr";
    let joined = format!("{}\n{}", before, after);
    let apart = format!("{}\n{}", expandtabs(before, 4), expandtabs(after, 4));
    assert_eq!(expandtabs(&joined, 4), apart);
}

#[test]
fn expandtabs_counts_characters_not_bytes() {
    assert_eq!(expandtabs("é\tb", 4), "é   b");
    assert_eq!(expandtabs("😀😀\tb", 4), "😀😀  b");
}

#[test]
fn to_ascii_escapes_by_width() {
    assert_eq!(to_ascii("café").as_str(), "caf\\xe9");
    assert_eq!(to_ascii("plain ASCII\n").as_str(), "plain ASCII\n");
    assert_eq!(to_ascii("").as_str(), "");
    assert_eq!(to_ascii("\u{80}").as_str(), "\\x80");
    assert_eq!(to_ascii("\u{ff}").as_str(), "\\xff");
    assert_eq!(to_ascii("\u{100}").as_str(), "\\u0100");
    assert_eq!(to_ascii("€").as_str(), "\\u20ac");
    assert_eq!(to_ascii("\u{ffff}").as_str(), "\\uffff");
    assert_eq!(to_ascii("\u{10000}").as_str(), "\\U00010000");
    assert_eq!(to_ascii("😀").as_str(), "\\U0001f600");
    assert_eq!(to_ascii("a€b😀c").as_str(), "a\\u20acb\\U0001f600c");
}

#[test]
fn to_ascii_result_is_ascii() {
    let escaped = to_ascii("0유니코드 문자열9");
    assert!(escaped.as_bytes().iter().all(|b| *b < 0x80));
    assert_eq!(escaped.len(), 3 + 7 * 6);
}

#[test]
fn substitution_cost_by_case() {
    assert_eq!(MOVE_COST, 2);
    assert_eq!(substitution_cost(b'a', b'a'), 0);
    assert_eq!(substitution_cost(b'a', b'A'), 1);
    assert_eq!(substitution_cost(b'Z', b'z'), 1);
    assert_eq!(substitution_cost(b'a', b'b'), 2);
    assert_eq!(substitution_cost(b'a', b'B'), 2);
    // same low five bits, but no letter in two cases
    assert_eq!(substitution_cost(b'1', b'Q'), 2);
    assert_eq!(substitution_cost(b'@', b'`'), 2);
    assert_eq!(substitution_cost(b'[', b'{'), 2);
    assert_eq!(substitution_cost(b'!', b'a'), 2);
}

#[test]
fn levenshtein_single_edits() {
    assert_eq!(levenshtein_distance("cat", "bat", 5), 2);
    assert_eq!(levenshtein_distance("Cat", "cat", 5), 1);
    assert_eq!(levenshtein_distance("cat", "cat", 5), 0);
    assert_eq!(levenshtein_distance("", "", 0), 0);
    assert_eq!(levenshtein_distance("cat", "cart", 5), 2);
    assert_eq!(levenshtein_distance("cart", "cat", 5), 2);
}

#[test]
fn levenshtein_exact_distances() {
    assert_eq!(levenshtein_distance("kitten", "sitting", 100), 6);
    assert_eq!(levenshtein_distance("sitting", "kitten", 100), 6);
    assert_eq!(levenshtein_distance("flaw", "lawn", 100), 4);
    assert_eq!(levenshtein_distance("ab", "ba", 100), 4);
    assert_eq!(levenshtein_distance("HELLO", "hello", 100), 5);
    assert_eq!(levenshtein_distance("xHELLOy", "ahellob", 100), 9);
}

#[test]
fn levenshtein_one_window_empty() {
    assert_eq!(levenshtein_distance("", "abc", 100), 6);
    assert_eq!(levenshtein_distance("abc", "", 100), 6);
    assert_eq!(levenshtein_distance("abc", "abcd", 100), 2);
    assert_eq!(levenshtein_distance("xabc", "abc", 100), 2);
    assert_eq!(levenshtein_distance("a", "abcdefgh", 100), 14);
    assert_eq!(levenshtein_distance("a", "abcdefgh", 2), 14);
}

#[test]
fn levenshtein_over_budget() {
    // the lengths alone are too far apart
    assert_eq!(levenshtein_distance("ab", "cdefgh", 2), 3);
    // a whole row of the table is above the budget
    assert_eq!(levenshtein_distance("abcdef", "uvwxyz", 3), 4);
    assert_eq!(levenshtein_distance("kitten", "sitting", 1), 2);
    // the last cell may still be above the budget
    assert_eq!(levenshtein_distance("ab", "ba", 2), 4);
}

#[test]
fn levenshtein_long_windows() {
    let a = "a".repeat(41);
    let b = "b".repeat(41);
    assert_eq!(levenshtein_distance(&a, &b, 1000), 1001);
    let a = "a".repeat(40);
    let b = "b".repeat(40);
    assert_eq!(levenshtein_distance(&a, &b, 1000), 80);
    let a = format!("x{}y", "c".repeat(100));
    let b = format!("u{}v", "c".repeat(100));
    assert_eq!(levenshtein_distance(&a, &b, 7), 8);
    let a = format!("{}x", "c".repeat(100));
    let b = format!("{}y", "c".repeat(100));
    assert_eq!(levenshtein_distance(&a, &b, 7), 2);
}
