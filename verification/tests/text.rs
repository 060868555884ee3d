use athenaeum::spike::join_lines;
use athenaeum::text::{is_whitespace, normalize_whitespace, push_decimal, split_words, to_chars, trim_chars};

#[test]
fn whitespace_agrees_with_std() {
    for u in 0u32..=0x3100 {
        if let Some(c) = char::from_u32(u) {
            assert_eq!(is_whitespace(c), c.is_whitespace(), "U+{u:04X}");
        }
    }
    for c in ['\u{feff}', '\u{10ffff}', '\u{e000}'] {
        assert_eq!(is_whitespace(c), c.is_whitespace());
    }
}

#[test]
fn trim_and_words_agree_with_std() {
    for s in ["", "  ", " a ", "a  b\tc\n", "\u{3000}x\u{a0}y\u{85}", "no-space"] {
        let v = to_chars(s);
        let t: String = trim_chars(&v).into_iter().collect();
        assert_eq!(t, s.trim());
        let w: Vec<String> = split_words(&v).into_iter().map(|w| w.into_iter().collect()).collect();
        let expected: Vec<String> = s.split_whitespace().map(|x| x.to_string()).collect();
        assert_eq!(w, expected);
        let n: String = normalize_whitespace(&v).into_iter().collect();
        assert_eq!(n, s.split_whitespace().collect::<Vec<_>>().join(" "));
    }
}

#[test]
fn decimal_rendering() {
    for n in [0u64, 7, 10, 42, 999, 1000, u64::MAX] {
        let mut v = Vec::new();
        push_decimal(&mut v, n);
        assert_eq!(v.into_iter().collect::<String>(), n.to_string());
    }
}

#[test]
fn spike_pages_joined_by_newlines() {
    assert_eq!(join_lines(&vec!["a".to_string(), "b c".to_string()]), "a\nb c");
    assert_eq!(join_lines(&vec![]), "");
    assert_eq!(join_lines(&vec!["only".to_string()]), "only");
}
