use obsidian_cli::order::{insert_sorted, lex_order, sorted_set, Order};
use obsidian_cli::text::{
    chars_of, count_words, has_prefix, has_suffix, holds_at, is_whitespace, split_first,
    string_of, strings_of, texts_of, trim, unquote,
};

fn samples() -> Vec<&'static str> {
    vec![
        "",
        " ",
        "a",
        " a",
        "a ",
        "  a b  ",
        "\t\n a\u{a0}b \r\n",
        "\u{3000}wide\u{2003}space\u{3000}",
        "one two  three\nfour\tfive",
        "é",
        "naïve café",
        "日本語 テキスト",
        "'quoted'",
        "\"quoted\"",
        "a,b,,c",
        "/",
        "notes/a.md",
    ]
}

#[test]
fn whitespace_is_the_unicode_property() {
    let mut code: u32 = 0;
    while code <= 0x10FFFF {
        if let Some(c) = char::from_u32(code) {
            assert_eq!(is_whitespace(c), c.is_whitespace(), "U+{:04X}", code);
        }
        code += 1;
    }
}

#[test]
fn chars_and_strings_convert_both_ways() {
    for s in samples() {
        let chars = chars_of(s);
        assert_eq!(chars, s.chars().collect::<Vec<char>>());
        assert_eq!(string_of(&chars), s);
    }
    let texts = vec![chars_of("b"), chars_of(""), chars_of("é!")];
    let strings = strings_of(&texts);
    assert_eq!(strings, vec!["b".to_string(), "".to_string(), "é!".to_string()]);
    assert_eq!(texts_of(&strings), texts);
}

#[test]
fn trim_removes_surrounding_white_space() {
    let chars = chars_of(" \t a b\u{3000}\n");
    assert_eq!(string_of(trim(&chars)), "a b");
    let blank = chars_of(" \n ");
    assert_eq!(string_of(trim(&blank)), "");
    for s in samples() {
        assert_eq!(string_of(trim(&chars_of(s))), s.trim(), "{:?}", s);
    }
}

#[test]
fn split_first_cuts_at_the_first_separator() {
    let chars = chars_of("a,b,c");
    let (head, rest) = split_first(&chars, ',');
    assert_eq!(string_of(head), "a");
    assert_eq!(string_of(rest.unwrap()), "b,c");

    let chars = chars_of(",x");
    let (head, rest) = split_first(&chars, ',');
    assert_eq!(string_of(head), "");
    assert_eq!(string_of(rest.unwrap()), "x");

    let chars = chars_of("x,");
    let (head, rest) = split_first(&chars, ',');
    assert_eq!(string_of(head), "x");
    assert_eq!(string_of(rest.unwrap()), "");

    let chars = chars_of("plain");
    let (head, rest) = split_first(&chars, ',');
    assert_eq!(string_of(head), "plain");
    assert!(rest.is_none());

    let chars = chars_of("");
    let (head, rest) = split_first(&chars, ',');
    assert_eq!(string_of(head), "");
    assert!(rest.is_none());
}

#[test]
fn unquote_strips_one_matching_pair() {
    let cases = [
        ("\"c\"", "c"),
        ("'c'", "c"),
        ("c", "c"),
        ("\"\"", ""),
        ("''", ""),
        ("\"", "\""),
        ("'", "'"),
        ("\"c", "\"c"),
        ("c'", "c'"),
        ("\"c'", "\"c'"),
        ("\"\"c\"\"", "\"c\""),
        ("\"'c'\"", "'c'"),
        ("", ""),
    ];
    for (given, expected) in cases {
        assert_eq!(string_of(unquote(&chars_of(given))), expected, "{:?}", given);
    }
}

#[test]
fn count_words_counts_runs_between_white_space() {
    assert_eq!(count_words(&chars_of("")), 0);
    assert_eq!(count_words(&chars_of("   ")), 0);
    assert_eq!(count_words(&chars_of("one")), 1);
    assert_eq!(count_words(&chars_of("one two  three\nfour\tfive")), 5);
    assert_eq!(count_words(&chars_of("#work\n[[B]]")), 2);
    for s in samples() {
        assert_eq!(count_words(&chars_of(s)), s.split_whitespace().count(), "{:?}", s);
    }
}

#[test]
fn prefix_and_suffix_tests() {
    let line = chars_of("tags: [a]");
    assert!(has_prefix(&line, "tags:"));
    assert!(has_prefix(&line, ""));
    assert!(!has_prefix(&line, "tag:"));
    assert!(!has_prefix(&chars_of("tag"), "tags:"));
    assert!(has_suffix(&chars_of("Note.md"), ".md"));
    assert!(has_suffix(&chars_of(".md"), ".md"));
    assert!(!has_suffix(&chars_of("md"), ".md"));
    assert!(!has_suffix(&chars_of("Note.MD"), ".md"));
    assert!(!has_suffix(&chars_of("Note.md "), ".md"));
    assert!(holds_at(&chars_of("abcdef"), 2, &chars_of("cd")));
    assert!(!holds_at(&chars_of("abcdef"), 3, &chars_of("cd")));
    assert!(!holds_at(&chars_of("abcdef"), 5, &chars_of("fg")));
    assert!(!holds_at(&chars_of("abc"), 9, &chars_of("")));
    assert!(holds_at(&chars_of("abc"), 3, &chars_of("")));
}

#[test]
fn lex_order_is_the_order_of_strings() {
    let all = samples();
    for a in &all {
        for b in &all {
            let expected = if a < b {
                Order::Before
            } else if a == b {
                Order::Same
            } else {
                Order::After
            };
            assert_eq!(lex_order(&chars_of(a), &chars_of(b)), expected, "{:?} {:?}", a, b);
        }
    }
    assert_eq!(lex_order(&chars_of("a"), &chars_of("ab")), Order::Before);
    assert_eq!(lex_order(&chars_of("b"), &chars_of("ab")), Order::After);
    assert_eq!(lex_order(&chars_of("Z"), &chars_of("a")), Order::Before);
}

#[test]
fn insert_sorted_keeps_order_and_drops_repeats() {
    let mut list: Vec<Vec<char>> = Vec::new();
    for s in ["m", "b", "z", "b", "a", "m", "ab", ""] {
        insert_sorted(&mut list, chars_of(s));
    }
    assert_eq!(strings_of(&list), vec!["", "a", "ab", "b", "m", "z"]);
}

#[test]
fn sorted_set_is_sorted_and_deduplicated() {
    let items: Vec<Vec<char>> = samples().into_iter().chain(samples()).map(chars_of).collect();
    let mut expected: Vec<String> = samples().into_iter().map(|s| s.to_string()).collect();
    expected.sort();
    expected.dedup();
    assert_eq!(strings_of(&sorted_set(&items)), expected);
    assert!(sorted_set(&Vec::new()).is_empty());
}
