use rhei_server::text::str_contains;
use rhei_server::text::str_le;

#[test]
fn contains_matches_standard_behaviour() {
    for (s, q) in [
        ("zap", "za"),
        ("zap", ""),
        ("", ""),
        ("", "a"),
        ("abc", "abc"),
        ("abc", "abcd"),
        ("banana", "ana"),
        ("banana", "nab"),
        ("naïve", "ïv"),
        ("naïve", "i"),
    ] {
        assert_eq!(str_contains(s, q), s.contains(q), "s {:?} q {:?}", s, q);
    }
}

#[test]
fn order_matches_standard_string_order() {
    for (a, b) in [
        ("a", "b"),
        ("b", "a"),
        ("a", "a"),
        ("", "a"),
        ("a", ""),
        ("ab", "abc"),
        ("abc", "ab"),
        ("A", "a"),
        ("zb", "za2"),
        ("é", "z"),
    ] {
        assert_eq!(str_le(a, b), a <= b, "a {:?} b {:?}", a, b);
    }
}
