use pkg_cache_clean::version::{lexical_compare, Comparison};

fn expected(a: &str, b: &str) -> Comparison {
    if a < b {
        Comparison::Less
    } else if a == b {
        Comparison::Equal
    } else {
        Comparison::Greater
    }
}

#[test]
fn codes_of_the_comparison_primitive() {
    assert_eq!(Comparison::from_code(-1), Some(Comparison::Less));
    assert_eq!(Comparison::from_code(0), Some(Comparison::Equal));
    assert_eq!(Comparison::from_code(1), Some(Comparison::Greater));
}

#[test]
fn other_codes_are_no_comparison() {
    for code in [2, -2, 3, 100, -100, i32::MAX, i32::MIN] {
        assert_eq!(Comparison::from_code(code), None, "{}", code);
    }
}

#[test]
fn names_compare_by_their_first_difference() {
    assert_eq!(lexical_compare("bar", "foo"), Comparison::Less);
    assert_eq!(lexical_compare("foo", "bar"), Comparison::Greater);
    assert_eq!(lexical_compare("foo", "foo"), Comparison::Equal);
    assert_eq!(lexical_compare("", ""), Comparison::Equal);
}

#[test]
fn a_prefix_comes_first() {
    assert_eq!(lexical_compare("", "a"), Comparison::Less);
    assert_eq!(lexical_compare("foo", "foo-bar"), Comparison::Less);
    assert_eq!(lexical_compare("foo-bar", "foo"), Comparison::Greater);
}

#[test]
fn names_compare_as_strings_do() {
    let names = [
        "", "a", "A", "ab", "b", "a-b", "a.b", "foo", "foo-", "fop", "é", "e", "z", "ü", "zz",
        "\u{10FFFF}", "\u{FFFF}", "\u{E000}", "\u{D7FF}", "10", "9", "1.0-1",
    ];
    for a in names {
        for b in names {
            assert_eq!(lexical_compare(a, b), expected(a, b), "{:?} {:?}", a, b);
        }
    }
}
