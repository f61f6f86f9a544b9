use n1mm_bridge::text::{
    chars_of, clip, decimal_text, ends_with, push_hex, push_joined, same, signed_decimal_text, split_text, starts_with,
    trim, white_space,
};

#[test]
fn white_space_is_that_of_unicode() {
    for u in 0..=0x10ffffu32 {
        if let Some(c) = char::from_u32(u) {
            assert_eq!(white_space(c), c.is_whitespace(), "{:x}", u);
        }
    }
}

#[test]
fn trimming() {
    for s in ["", " ", "\t\r\n", " a ", "a b", "\u{3000}x\u{85}", "\u{200b}x", "x\u{feff}"] {
        assert_eq!(trim(s), s.trim());
    }
}

#[test]
fn splitting_and_joining() {
    for s in ["", "%", "a", "a%b", "%a%%b%", "ü%€"] {
        let parts = split_text(s, '%');
        assert_eq!(parts, s.split('%').collect::<Vec<&str>>());
        let mut out = "x".to_string();
        push_joined(&mut out, &parts, '%');
        assert_eq!(out, format!("x{}", s));
    }
    let mut out = String::new();
    push_joined(&mut out, &vec![], '%');
    assert_eq!(out, "");
}

#[test]
fn comparing() {
    for a in ["", "a", "ab", "b", "aé", "éa"] {
        for b in ["", "a", "ab", "b", "aé", "éa"] {
            assert_eq!(same(a, b), a == b);
            assert_eq!(starts_with(a, b), a.starts_with(b));
            assert_eq!(ends_with(a, b), a.ends_with(b));
        }
    }
    assert_eq!(chars_of("aé€"), vec!['a', 'é', '€']);
}

#[test]
fn clipping() {
    for s in ["", "abcdefg", "é€𝄞a", "aé€𝄞", "𝄞𝄞"] {
        for n in 0..12 {
            assert_eq!(clip(s, n), s.get(..n).unwrap_or(s), "{} {}", s, n);
        }
    }
}

#[test]
fn numbers_are_spelt() {
    for n in [0u64, 9, 10, 12070, u64::MAX] {
        assert_eq!(decimal_text(n), n.to_string());
        let mut out = String::new();
        push_hex(&mut out, n, 16);
        assert_eq!(out, format!("{:016x}", n));
    }
    for n in [0i64, -1, 42, i64::MIN, i64::MAX] {
        assert_eq!(signed_decimal_text(n), n.to_string());
    }
}
