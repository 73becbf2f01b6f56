use strdata::{
    char_range_end, codepoint_range_end, get_chars, get_codepoints, try_get_chars,
    try_get_codepoints, Bound, Wtf8, Wtf8Buf,
};

#[test]
fn test_get_chars() {
    let s = "0123456789";
    assert_eq!(get_chars(s, 3..7), "3456");
    assert_eq!(get_chars(s, 3..7), &s[3..7]);

    let s = "0유니코드 문자열9";
    assert_eq!(get_chars(s, 3..7), "코드 문");

    let s = "0😀😃😄😁😆😅😂🤣9";
    assert_eq!(get_chars(s, 3..7), "😄😁😆😅");
}

#[test]
fn try_get_chars_within_bounds() {
    let s = "0유니코드 문자열9";
    assert_eq!(try_get_chars(s, 0..0), Some(""));
    assert_eq!(try_get_chars(s, 0..1), Some("0"));
    assert_eq!(try_get_chars(s, 1..3), Some("유니"));
    assert_eq!(try_get_chars(s, 10..10), Some(""));
    assert_eq!(try_get_chars(s, 0..10), Some(s));
}

#[test]
fn try_get_chars_behind_the_end() {
    let s = "0유니코드 문자열9";
    assert_eq!(try_get_chars(s, 3..11), None);
    assert_eq!(try_get_chars(s, 11..11), None);
    assert_eq!(try_get_chars(s, 11..12), None);
    assert_eq!(try_get_chars("", 0..1), None);
}

#[test]
fn try_get_chars_by_bounds() {
    let s = "aé😀z";
    assert_eq!(try_get_chars(s, (Bound::Unbounded, Bound::Unbounded)), Some(s));
    assert_eq!(try_get_chars(s, (Bound::Included(1), Bound::Unbounded)), Some("é😀z"));
    assert_eq!(try_get_chars(s, (Bound::Excluded(1), Bound::Unbounded)), Some("😀z"));
    assert_eq!(try_get_chars(s, (Bound::Unbounded, Bound::Excluded(2))), Some("aé"));
    assert_eq!(try_get_chars(s, (Bound::Unbounded, Bound::Included(2))), Some("aé😀"));
    assert_eq!(try_get_chars(s, (Bound::Included(1), Bound::Included(1))), Some("é"));
    assert_eq!(try_get_chars(s, (Bound::Included(4), Bound::Unbounded)), Some(""));
    assert_eq!(try_get_chars(s, (Bound::Included(5), Bound::Unbounded)), None);
    assert_eq!(try_get_chars(s, (Bound::Unbounded, Bound::Included(4))), None);
}

#[test]
fn slices_rejoin_to_the_whole() {
    let s = "0유니코드 문자열9😀";
    let n = s.chars().count();
    for k in 0..=n {
        let head = get_chars(s, 0..k);
        let tail = get_chars(s, k..n);
        assert_eq!(format!("{}{}", head, tail), s);
        assert_eq!(head.chars().count(), k);
    }
}

#[test]
fn char_range_end_counts_bytes() {
    let s = "aé€😀";
    assert_eq!(char_range_end(s, 0), Some(0));
    assert_eq!(char_range_end(s, 1), Some(1));
    assert_eq!(char_range_end(s, 2), Some(3));
    assert_eq!(char_range_end(s, 3), Some(6));
    assert_eq!(char_range_end(s, 4), Some(10));
    assert_eq!(char_range_end(s, 5), None);
    assert_eq!(char_range_end("", 0), Some(0));
    assert_eq!(char_range_end("", 1), None);
}

fn with_surrogates() -> Wtf8Buf {
    // 'a', U+D800, 'é', U+DC00, U+1F600
    let bytes = vec![
        0x61, 0xED, 0xA0, 0x80, 0xC3, 0xA9, 0xED, 0xB0, 0x80, 0xF0, 0x9F, 0x98, 0x80,
    ];
    Wtf8Buf::from_bytes(bytes).unwrap()
}

#[test]
fn codepoint_range_end_counts_surrogates_as_one() {
    let buf = with_surrogates();
    let w = buf.as_wtf8();
    assert_eq!(codepoint_range_end(w, 0), Some(0));
    assert_eq!(codepoint_range_end(w, 1), Some(1));
    assert_eq!(codepoint_range_end(w, 2), Some(4));
    assert_eq!(codepoint_range_end(w, 3), Some(6));
    assert_eq!(codepoint_range_end(w, 4), Some(9));
    assert_eq!(codepoint_range_end(w, 5), Some(13));
    assert_eq!(codepoint_range_end(w, 6), None);
}

#[test]
fn try_get_codepoints_slices_by_code_point() {
    let buf = with_surrogates();
    let w = buf.as_wtf8();
    let part = try_get_codepoints(w, 1..4).unwrap();
    assert_eq!(part.as_bytes(), &[0xED, 0xA0, 0x80, 0xC3, 0xA9, 0xED, 0xB0, 0x80]);
    assert_eq!(part.code_point_count(), 3);
    let rest = try_get_codepoints(w, (Bound::Included(4), Bound::Unbounded)).unwrap();
    assert_eq!(rest.as_bytes(), &[0xF0, 0x9F, 0x98, 0x80]);
    assert_eq!(rest.as_str(), Some("😀"));
    assert!(try_get_codepoints(w, 2..6).is_none());
    assert!(try_get_codepoints(w, 6..6).is_none());
    let empty = get_codepoints(w, 5..5);
    assert!(empty.is_empty());
}

#[test]
fn get_codepoints_of_text_matches_get_chars() {
    let s = "0유니코드 문자열9";
    let w = Wtf8::from_str(s);
    assert_eq!(get_codepoints(w, 3..7).as_str(), Some("코드 문"));
    assert_eq!(get_codepoints(w, 3..7).as_bytes(), get_chars(s, 3..7).as_bytes());
}
