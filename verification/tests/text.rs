use spur::names::{contains_name, distinct_names, NameMap};
use spur::text::{
    eq_ignore_ascii_case, split, split_fields, split_non_empty_fields, str_eq, str_le, to_strings,
    trim,
};

fn samples() -> Vec<&'static str> {
    vec![
        "", " ", "a", " a", "a ", " a b ", "\t\n\u{b}\u{c}\r x", "x\u{1c}", "x\u{1f}", "\u{85}x", "\u{a0}x\u{a0}", "\u{1680}x",
        "\u{180e}x", "\u{2000}x\u{200a}", "\u{200b}x", "\u{2028}x\u{2029}", "\u{202f}x", "\u{205f}x",
        "\u{3000}x", "\u{feff}x", "\u{2800}x", "ab,c", ",", ",,a", "a, b ,", "\u{e9}", "z", "Z",
        "\u{1f600}", "\u{ffff}",
    ]
}

#[test]
fn trim_agrees_with_std() {
    for s in samples() {
        assert_eq!(trim(s), s.trim(), "{s:?}");
    }
    for code in 0u32..0x3100 {
        if let Some(c) = char::from_u32(code) {
            let s = format!("{c}x{c}");
            assert_eq!(trim(&s), s.trim(), "{code:x}");
        }
    }
}

#[test]
fn splitting_agrees_with_std() {
    for s in samples() {
        let pieces: Vec<&str> = s.split(',').collect();
        assert_eq!(split(s, ','), pieces);
        let trimmed: Vec<&str> = pieces.iter().map(|p| p.trim()).collect();
        assert_eq!(split_fields(s), trimmed);
        let kept: Vec<&str> = trimmed.into_iter().filter(|p| !p.is_empty()).collect();
        assert_eq!(split_non_empty_fields(s), kept);
    }
    assert_eq!(to_strings(split("a,,b", ',')), vec!["a", "", "b"]);
}

#[test]
fn comparisons_agree_with_std() {
    for a in samples() {
        for b in samples() {
            assert_eq!(str_eq(a, b), a == b);
            assert_eq!(str_le(a, b), a <= b, "{a:?} {b:?}");
            assert_eq!(eq_ignore_ascii_case(a, b), a.eq_ignore_ascii_case(b));
        }
    }
    assert!(eq_ignore_ascii_case("DenyOnLimit", "dENYoNlIMIT"));
    assert!(!eq_ignore_ascii_case("@[`{", "`{@["));
}

#[test]
fn order_is_total() {
    for a in samples() {
        for b in samples() {
            assert!(str_le(a, b) || str_le(b, a));
            assert_eq!(str_le(a, b) && str_le(b, a), a == b);
        }
    }
}

#[test]
fn name_sets_and_maps() {
    let names: Vec<String> = ["b", "a", "b", ""].iter().map(|s| s.to_string()).collect();
    assert!(contains_name(&names, "a"));
    assert!(contains_name(&names, ""));
    assert!(!contains_name(&names, "A"));
    assert_eq!(distinct_names(&names), vec!["b", "a", ""]);

    let mut m: NameMap<u32> = NameMap::new();
    assert_eq!(m.get("x"), None);
    m.insert("x".to_string(), 1);
    m.insert("y".to_string(), 2);
    m.insert("x".to_string(), 3);
    assert_eq!(m.len(), 2);
    assert_eq!(m.get("x"), Some(&3));
    assert_eq!(m.get("y"), Some(&2));
    assert_eq!(*m.entry(0), 3);
}
