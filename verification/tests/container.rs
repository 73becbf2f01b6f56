use ascii::{AsciiChar, AsciiString};
use strdata::{CodePoint, DeduceStrKind, PyKindStr, StrData, StrKind, Wtf8, Wtf8Buf};

fn lone_surrogate_buf() -> Wtf8Buf {
    // 'a', U+D800, 'b'
    Wtf8Buf::from_bytes(vec![0x61, 0xED, 0xA0, 0x80, 0x62]).unwrap()
}

#[test]
fn classify_ascii_text() {
    assert_eq!("hello".str_kind(), StrKind::Ascii);
    assert_eq!("".str_kind(), StrKind::Ascii);
    assert_eq!(String::from("hello").str_kind(), StrKind::Ascii);
    assert_eq!(Wtf8::from_str("hello").str_kind(), StrKind::Ascii);
    assert_eq!((&"hello").str_kind(), StrKind::Ascii);
    assert_eq!(Box::new(String::from("x")).str_kind(), StrKind::Ascii);
}

#[test]
fn classify_utf8_text() {
    assert_eq!("café".str_kind(), StrKind::Utf8);
    assert_eq!(String::from("😀").str_kind(), StrKind::Utf8);
    assert_eq!(Wtf8::from_str("café").str_kind(), StrKind::Utf8);
    assert_eq!(Wtf8Buf::from_string(String::from("café")).str_kind(), StrKind::Utf8);
}

#[test]
fn classify_lone_surrogate() {
    let buf = lone_surrogate_buf();
    assert_eq!(buf.str_kind(), StrKind::Wtf8);
    assert_eq!(buf.as_wtf8().str_kind(), StrKind::Wtf8);
    assert!(!buf.as_wtf8().is_utf8());
    assert!(!buf.as_wtf8().is_ascii());
    assert_eq!(buf.as_wtf8().as_str(), None);
}

#[test]
fn buffer_validation() {
    assert!(Wtf8Buf::from_bytes(vec![]).is_some());
    assert!(Wtf8Buf::from_bytes(b"plain".to_vec()).is_some());
    assert!(Wtf8Buf::from_bytes("café 😀".as_bytes().to_vec()).is_some());
    // a lone leading surrogate and a lone trailing surrogate
    assert!(Wtf8Buf::from_bytes(vec![0xED, 0xA0, 0x80]).is_some());
    assert!(Wtf8Buf::from_bytes(vec![0xED, 0xB0, 0x80]).is_some());
    // trailing before leading is no pair
    assert!(Wtf8Buf::from_bytes(vec![0xED, 0xB0, 0x80, 0xED, 0xA0, 0x80]).is_some());
    // leading directly before trailing is a pair
    assert!(Wtf8Buf::from_bytes(vec![0xED, 0xA0, 0x80, 0xED, 0xB0, 0x80]).is_none());
    // stray continuation byte, truncated sequence, overlong forms, above U+10FFFF
    assert!(Wtf8Buf::from_bytes(vec![0x80]).is_none());
    assert!(Wtf8Buf::from_bytes(vec![0xE2, 0x82]).is_none());
    assert!(Wtf8Buf::from_bytes(vec![0xC0, 0x80]).is_none());
    assert!(Wtf8Buf::from_bytes(vec![0xE0, 0x80, 0x80]).is_none());
    assert!(Wtf8Buf::from_bytes(vec![0xF0, 0x80, 0x80, 0x80]).is_none());
    assert!(Wtf8Buf::from_bytes(vec![0xF4, 0x90, 0x80, 0x80]).is_none());
    assert!(Wtf8Buf::from_bytes(vec![0xFF]).is_none());
    assert!(Wtf8::from_bytes(&[0x61, 0xED, 0xA0, 0x80]).is_some());
    assert!(Wtf8::from_bytes(&[0x61, 0xED, 0xA0]).is_none());
}

#[test]
fn can_encode_by_class() {
    let a = CodePoint::from_char('a');
    let e = CodePoint::from_char('é');
    let s = CodePoint::from_u32(0xD800).unwrap();
    assert!(StrKind::Ascii.can_encode(a));
    assert!(!StrKind::Ascii.can_encode(e));
    assert!(!StrKind::Ascii.can_encode(s));
    assert!(StrKind::Utf8.can_encode(a));
    assert!(StrKind::Utf8.can_encode(e));
    assert!(!StrKind::Utf8.can_encode(s));
    assert!(StrKind::Wtf8.can_encode(a));
    assert!(StrKind::Wtf8.can_encode(e));
    assert!(StrKind::Wtf8.can_encode(s));
    assert!(StrKind::Ascii.is_ascii() && StrKind::Ascii.is_utf8());
    assert!(!StrKind::Utf8.is_ascii() && StrKind::Utf8.is_utf8());
    assert!(!StrKind::Wtf8.is_ascii() && !StrKind::Wtf8.is_utf8());
}

#[test]
fn code_point_conversions() {
    assert!(CodePoint::from_u32(0x110000).is_none());
    assert_eq!(CodePoint::from_u32(0x10FFFF).unwrap().to_u32(), 0x10FFFF);
    assert_eq!(CodePoint::from_char('é').to_char(), Some('é'));
    assert_eq!(CodePoint::from_u32(0x1F600).unwrap().to_char(), Some('😀'));
    assert_eq!(CodePoint::from_u32(0xDFFF).unwrap().to_char(), None);
    assert!(CodePoint::from_u32(0xDFFF).unwrap().is_surrogate());
    assert!(!CodePoint::from_u32(0xE000).unwrap().is_surrogate());
    assert_eq!(CodePoint::from_char('a').len_wtf8(), 1);
    assert_eq!(CodePoint::from_char('é').len_wtf8(), 2);
    assert_eq!(CodePoint::from_u32(0xD800).unwrap().len_wtf8(), 3);
    assert_eq!(CodePoint::from_char('😀').len_wtf8(), 4);
    assert_eq!(CodePoint::from_ascii_char(AsciiChar::Z).to_u32(), 0x5A);
}

const ALL: [StrKind; 3] = [StrKind::Ascii, StrKind::Utf8, StrKind::Wtf8];

#[test]
fn join_table() {
    assert_eq!(StrKind::Ascii | StrKind::Ascii, StrKind::Ascii);
    assert_eq!(StrKind::Ascii | StrKind::Utf8, StrKind::Utf8);
    assert_eq!(StrKind::Utf8 | StrKind::Ascii, StrKind::Utf8);
    assert_eq!(StrKind::Utf8 | StrKind::Utf8, StrKind::Utf8);
    assert_eq!(StrKind::Ascii | StrKind::Wtf8, StrKind::Wtf8);
    assert_eq!(StrKind::Wtf8 | StrKind::Utf8, StrKind::Wtf8);
    assert_eq!(StrKind::Wtf8 | StrKind::Wtf8, StrKind::Wtf8);
}

#[test]
fn join_laws() {
    for a in ALL {
        assert_eq!(a | a, a);
        for b in ALL {
            assert_eq!(a | b, b | a);
            assert!((a | b) >= a && (a | b) >= b);
            for c in ALL {
                assert_eq!((a | b) | c, a | (b | c));
                if c >= a && c >= b {
                    assert!(c >= (a | b));
                }
            }
        }
    }
}

#[test]
fn join_holds_the_content_of_both() {
    let ascii = StrData::from(String::from("abc").into_boxed_str());
    let utf8 = StrData::from(String::from("é").into_boxed_str());
    let wtf8 = StrData::from(lone_surrogate_buf());
    for left in [&ascii, &utf8, &wtf8] {
        for right in [&ascii, &utf8, &wtf8] {
            let joined = left.kind() | right.kind();
            for part in [left, right] {
                let mut part = part.clone();
                let n = part.char_len();
                for i in 0..n {
                    assert!(joined.can_encode(part.nth_char(i)));
                }
            }
        }
    }
}

#[test]
fn from_boxed_str_classifies() {
    let mut s = StrData::from(String::from("hello").into_boxed_str());
    assert_eq!(s.kind(), StrKind::Ascii);
    assert_eq!(s.len(), 5);
    assert_eq!(s.char_len(), 5);
    assert_eq!(s.as_str(), Some("hello"));
    assert_eq!(s.as_ascii().unwrap().as_str(), "hello");

    let mut s = StrData::from(String::from("café 😀").into_boxed_str());
    assert_eq!(s.kind(), StrKind::Utf8);
    assert_eq!(s.len(), 10);
    assert_eq!(s.char_len(), 6);
    assert_eq!(s.as_str(), Some("café 😀"));
    assert!(s.as_ascii().is_none());
    assert_eq!(s.as_wtf8().as_bytes(), "café 😀".as_bytes());
}

#[test]
fn from_buffer_classifies() {
    let mut s = StrData::from(lone_surrogate_buf());
    assert_eq!(s.kind(), StrKind::Wtf8);
    assert_eq!(s.len(), 5);
    assert_eq!(s.char_len(), 3);
    assert!(s.as_str().is_none());
    assert!(s.as_ascii().is_none());
    assert_eq!(s.as_wtf8().as_bytes(), &[0x61, 0xED, 0xA0, 0x80, 0x62]);

    let s = StrData::from(Wtf8Buf::from_string(String::from("abc")));
    assert_eq!(s.kind(), StrKind::Ascii);
    let s = StrData::from(Wtf8Buf::from_string(String::from("é")));
    assert_eq!(s.kind(), StrKind::Utf8);
}

#[test]
fn from_boxed_ascii_keeps_the_bytes() {
    let boxed = AsciiString::from_ascii("shell").unwrap().into_boxed_ascii_str();
    let mut s = StrData::from(boxed);
    assert_eq!(s.kind(), StrKind::Ascii);
    assert_eq!(s.len(), 5);
    assert_eq!(s.char_len(), 5);
    assert_eq!(s.as_str(), Some("shell"));
}

#[test]
fn from_single_characters() {
    let mut s = StrData::from(AsciiChar::Q);
    assert_eq!(s.kind(), StrKind::Ascii);
    assert_eq!(s.as_str(), Some("Q"));
    assert_eq!(s.char_len(), 1);

    let mut s = StrData::from('x');
    assert_eq!(s.kind(), StrKind::Ascii);
    assert_eq!(s.as_str(), Some("x"));
    assert_eq!(s.char_len(), 1);

    let mut s = StrData::from('€');
    assert_eq!(s.kind(), StrKind::Utf8);
    assert_eq!(s.as_str(), Some("€"));
    assert_eq!(s.len(), 3);
    assert_eq!(s.char_len(), 1);

    let mut s = StrData::from(CodePoint::from_char('😀'));
    assert_eq!(s.kind(), StrKind::Utf8);
    assert_eq!(s.as_str(), Some("😀"));
    assert_eq!(s.char_len(), 1);

    let s = StrData::from(CodePoint::from_char('a'));
    assert_eq!(s.kind(), StrKind::Ascii);

    let mut s = StrData::from(CodePoint::from_u32(0xDC00).unwrap());
    assert_eq!(s.kind(), StrKind::Wtf8);
    assert_eq!(s.as_wtf8().as_bytes(), &[0xED, 0xB0, 0x80]);
    assert_eq!(s.char_len(), 1);
    assert_eq!(s.nth_char(0).to_u32(), 0xDC00);
}

#[test]
fn default_is_empty_ascii() {
    let mut s = StrData::default();
    assert_eq!(s.kind(), StrKind::Ascii);
    assert!(s.is_empty());
    assert_eq!(s.len(), 0);
    assert_eq!(s.char_len(), 0);
    assert_eq!(s.as_str(), Some(""));
}

#[test]
fn char_len_is_stable() {
    for text in ["", "abc", "café", "0유니코드 문자열9", "0😀😃😄😁😆😅😂🤣9"] {
        let mut s = StrData::from(String::from(text).into_boxed_str());
        let first = s.char_len();
        let second = s.char_len();
        assert_eq!(first, second);
        assert_eq!(first, text.chars().count());
        let mut copy = s.clone();
        assert_eq!(copy.char_len(), first);
    }
    let mut s = StrData::from(lone_surrogate_buf());
    assert_eq!(s.char_len(), 3);
    assert_eq!(s.char_len(), 3);
}

#[test]
fn length_cache_fills_on_first_count() {
    let mut s = StrData::from(String::from("hello").into_boxed_str());
    assert_eq!(s.cached_char_len(), Some(5));
    assert_eq!(s.char_len(), 5);

    let mut s = StrData::from(String::from("héllo").into_boxed_str());
    assert_eq!(s.cached_char_len(), None);
    assert_eq!(s.count_chars(), 5);
    assert_eq!(s.cached_char_len(), None);
    assert_eq!(s.char_len(), 5);
    assert_eq!(s.cached_char_len(), Some(5));
    assert_eq!(s.char_len(), 5);
    assert_eq!(s.clone().cached_char_len(), Some(5));

    let mut s = StrData::from(lone_surrogate_buf());
    assert_eq!(s.cached_char_len(), None);
    assert_eq!(s.count_chars(), 3);
    assert_eq!(s.char_len(), 3);
    assert_eq!(s.cached_char_len(), Some(3));

    let s = StrData::new_str_unchecked(Wtf8Buf::from_string(String::from("abc")), StrKind::Utf8);
    assert_eq!(s.cached_char_len(), None);
    let s = StrData::new_with_char_len(Wtf8Buf::from_string(String::from("abc")), StrKind::Utf8, 3);
    assert_eq!(s.cached_char_len(), Some(3));
    assert_eq!(StrData::from('€').cached_char_len(), Some(1));
    assert_eq!(StrData::default().cached_char_len(), Some(0));
}

#[test]
fn unchecked_constructors() {
    let data = Wtf8Buf::from_string(String::from("héllo"));
    let mut s = StrData::new_str_unchecked(data, StrKind::Utf8);
    assert_eq!(s.kind(), StrKind::Utf8);
    assert_eq!(s.char_len(), 5);

    let data = Wtf8Buf::from_string(String::from("hello"));
    let mut s = StrData::new_str_unchecked(data, StrKind::Ascii);
    assert_eq!(s.char_len(), 5);

    let data = Wtf8Buf::from_string(String::from("héllo"));
    let mut s = StrData::new_with_char_len(data, StrKind::Utf8, 5);
    assert_eq!(s.char_len(), 5);
    assert_eq!(s.len(), 6);

    let mut s = StrData::new_with_char_len(lone_surrogate_buf(), StrKind::Wtf8, 3);
    assert_eq!(s.char_len(), 3);
    assert_eq!(s.kind(), StrKind::Wtf8);
}

#[test]
fn nth_char_by_class() {
    let s = StrData::from(String::from("hello").into_boxed_str());
    assert_eq!(s.nth_char(0).to_char(), Some('h'));
    assert_eq!(s.nth_char(4).to_char(), Some('o'));

    let s = StrData::from(String::from("0유니코드 문자열9").into_boxed_str());
    assert_eq!(s.nth_char(0).to_char(), Some('0'));
    assert_eq!(s.nth_char(3).to_char(), Some('코'));
    assert_eq!(s.nth_char(9).to_char(), Some('9'));

    let s = StrData::from(lone_surrogate_buf());
    assert_eq!(s.nth_char(0).to_char(), Some('a'));
    assert_eq!(s.nth_char(1).to_u32(), 0xD800);
    assert_eq!(s.nth_char(1).to_char(), None);
    assert_eq!(s.nth_char(2).to_char(), Some('b'));
}

#[test]
fn tagged_view_matches_the_class() {
    let s = StrData::from(String::from("abc").into_boxed_str());
    match s.as_str_kind() {
        PyKindStr::Ascii(a) => assert_eq!(a.as_str(), "abc"),
        _ => panic!("an ASCII text must give the ASCII form"),
    }
    let s = StrData::from(String::from("äbc").into_boxed_str());
    match s.as_str_kind() {
        PyKindStr::Utf8(t) => assert_eq!(t, "äbc"),
        _ => panic!("a UTF-8 text must give the text form"),
    }
    let s = StrData::from(lone_surrogate_buf());
    match s.as_str_kind() {
        PyKindStr::Wtf8(w) => assert_eq!(w.as_bytes(), &[0x61, 0xED, 0xA0, 0x80, 0x62]),
        _ => panic!("a buffer with a surrogate must give the permissive form"),
    }
}
