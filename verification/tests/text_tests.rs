use hit::text::{contains_str, replace, sort_strings, split_on, str_less, trim_matches};
use hit::number::is_json_number;

#[test]
fn replace_matches_std_replace() {
    let cases = [
        ("/users/:userId", ":userId", "47"),
        ("aaaa", "aa", "b"),
        (":id/:idx", ":id", "X"),
        ("", ":x", "y"),
        ("no match here", ":q", "v"),
        ("héllo wörld", "ö", "oe"),
    ];
    for (s, p, r) in cases.iter() {
        assert_eq!(replace(s, p, r), s.replace(p, r));
    }
}

#[test]
fn split_matches_std_split() {
    let cases = ["/users/{id}", "", "/", "a//b", "#/components/schemas/Pet", "plain"];
    for s in cases.iter() {
        let expected: Vec<String> = s.split('/').map(|x| x.to_string()).collect();
        assert_eq!(split_on(s, '/'), expected);
    }
}

#[test]
fn trim_matches_std() {
    let cases = ["-users-{id}-", "---", "", "a-b", "-a"];
    for s in cases.iter() {
        assert_eq!(trim_matches(s, '-'), s.trim_matches('-'));
    }
}

#[test]
fn str_less_matches_std_order() {
    let cases = [("0.5.9", "0.6.0"), ("0.6.0", "0.6.0"), ("0.10.0", "0.6.0"), ("", "a"), ("a", ""), ("é", "z"), ("ab", "abc")];
    for (a, b) in cases.iter() {
        assert_eq!(str_less(a, b), a < b);
    }
}

#[test]
fn contains_matches_std() {
    let cases = [("users.list", "list"), ("abc", ""), ("", ""), ("", "a"), ("body.result", "Body")];
    for (s, p) in cases.iter() {
        assert_eq!(contains_str(s, p), s.contains(p));
    }
}

#[test]
fn sort_strings_orders_lexicographically() {
    let v = vec!["prod".to_string(), "dev".to_string(), "staging".to_string(), "Dev".to_string()];
    let sorted = sort_strings(v.clone());
    let mut expected = v;
    expected.sort();
    assert_eq!(sorted, expected);
}

#[test]
fn json_number_grammar() {
    let accepted = ["0", "42", "-1", "3.5", "-0.25", "1e5", "1E+5", "2e-3", "-0.5e-3", "10", "0.0"];
    let rejected = [
        "NaN", "nan", "inf", "-Infinity", "infinity", "+1", ".5", "1.", "01", "-01", "00", "", "-", "1e", "1e+",
        "e5", " 1", "1 ", "1_000", "1.2.3", "--1", "0x10", "12abc", "true", "١٢",
    ];
    for s in accepted.iter() {
        assert!(is_json_number(s), "accepted {:?}", s);
        assert!(serde_json::from_str::<serde_json::Number>(s).is_ok(), "serde accepts {:?}", s);
    }
    for s in rejected.iter() {
        assert!(!is_json_number(s), "rejected {:?}", s);
    }
}
