use rig::strings;
use rig::table::NameSet;
use rig::table::Table;
use rig::text::Class;

#[test]
fn a_table_is_walked_in_the_order_of_its_keys() {
    let mut t = Table::new();
    for key in ["b", "", "ab", "a", "\u{e9}", "B"] {
        t.insert(key.to_string(), key.len());
    }
    let keys: Vec<&str> = (0..t.len()).map(|i| t.key(i)).collect();
    assert_eq!(keys, vec!["", "B", "a", "ab", "b", "\u{e9}"]);
    assert_eq!(t.get("ab"), Some(&2));
    assert_eq!(t.get("x"), None);
    t.insert("ab".to_string(), 7);
    assert_eq!(t.get("ab"), Some(&7));
    assert_eq!(t.len(), 6);
    assert_eq!(t.remove("ab"), Some(7));
    assert_eq!(t.remove("ab"), None);
    assert_eq!(t.len(), 5);
    assert!(!t.contains_key("ab"));
    assert_eq!(*t.value(1), 1);
}

#[test]
fn a_set_holds_a_name_once() {
    let mut s = NameSet::new();
    assert!(s.is_empty());
    s.insert("b".to_string());
    s.insert("a".to_string());
    s.insert("b".to_string());
    assert_eq!(s.len(), 2);
    assert_eq!(s.name(0), "a");
    assert!(s.contains("b") && !s.contains("c"));
}

const SAMPLES: &[&str] = &[
    "", " ", "a", "a b", "  a  b ", "a\nb", "a\r\nb\n", "\n", "\n\n", "a\r", "\u{2003}x\u{a0}",
    "\u{85}y\t", "tab\tsep", "\u{1680}z", "one  two\u{3000}three",
];

#[test]
fn text_is_taken_apart_as_the_standard_library_does() {
    for s in SAMPLES {
        assert_eq!(strings::lines(s), s.lines().collect::<Vec<_>>(), "{s:?}");
        assert_eq!(strings::words(s), s.split_whitespace().collect::<Vec<_>>(), "{s:?}");
        assert_eq!(strings::trim(s), s.trim(), "{s:?}");
        for p in ["a", "", "\n", "  "] {
            assert_eq!(strings::contains(s, p), s.contains(p), "{s:?} {p:?}");
            assert_eq!(strings::starts_with(s, p), s.starts_with(p), "{s:?} {p:?}");
            assert_eq!(strings::ends_with(s, p), s.ends_with(p), "{s:?} {p:?}");
            assert_eq!(strings::strip_prefix(s, p), s.strip_prefix(p), "{s:?} {p:?}");
            assert_eq!(strings::replace_first(s, p, "-"), s.replacen(p, "-", 1), "{s:?} {p:?}");
        }
        for t in SAMPLES {
            assert_eq!(strings::before(s, t), s < t, "{s:?} {t:?}");
        }
        assert_eq!(
            strings::split(s, Class::Only(' ')),
            s.split(' ').collect::<Vec<_>>(),
            "{s:?}"
        );
    }
}

#[test]
fn numbers_are_written_and_read() {
    assert_eq!(strings::decimal(0), "0");
    assert_eq!(strings::decimal(u64::MAX), "18446744073709551615");
    for s in ["", "0", "007", "+7", "-7", "7x", "18446744073709551615", "18446744073709551616", "+"] {
        assert_eq!(strings::parse_number(s), s.parse::<u64>().ok(), "{s:?}");
    }
    assert!(strings::eq_ignore_case("AbZ", "aBz"));
    assert!(!strings::eq_ignore_case("\u{e9}", "\u{c9}"));
}
