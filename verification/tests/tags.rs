use obsidian_cli::tags::{
    extract_frontmatter, extract_tags_from_file, is_tag_character, parse_frontmatter_tags,
    scan_inline_tags,
};
use obsidian_cli::text::{chars_of, strings_of};
use regex::Regex;

fn inline(text: &str) -> Vec<String> {
    strings_of(&scan_inline_tags(&chars_of(text)))
}

fn strings(items: &[&str]) -> Vec<String> {
    items.iter().map(|s| s.to_string()).collect()
}

/// All texts over `alphabet` of length up to `max`.
fn texts_over(alphabet: &[char], max: usize) -> Vec<String> {
    let mut all = vec![String::new()];
    let mut last = vec![String::new()];
    for _ in 0..max {
        let mut next = Vec::new();
        for t in &last {
            for c in alphabet {
                let mut longer = t.clone();
                longer.push(*c);
                next.push(longer);
            }
        }
        all.extend(next.iter().cloned());
        last = next;
    }
    all
}

#[test]
fn tag_characters_are_ascii_letters_digits_and_three_signs() {
    let mut code: u32 = 0;
    while code <= 0x10FFFF {
        if let Some(c) = char::from_u32(code) {
            let expected = c.is_ascii_alphanumeric() || c == '_' || c == '-' || c == '/';
            assert_eq!(is_tag_character(c), expected, "U+{:04X}", code);
        }
        code += 1;
    }
}

#[test]
fn hash_at_start_or_after_white_space_opens_a_tag() {
    assert_eq!(inline("#foo"), strings(&["foo"]));
    assert_eq!(inline("see #foo here"), strings(&["foo"]));
    assert_eq!(inline("line\n#foo"), strings(&["foo"]));
    assert_eq!(inline("tab\t#foo"), strings(&["foo"]));
    assert_eq!(inline("wide\u{3000}#foo"), strings(&["foo"]));
    assert_eq!(inline("#a #b\n#c"), strings(&["a", "b", "c"]));
    assert_eq!(inline("#project/active #to-do #snake_case #2024"), strings(&[
        "project/active",
        "to-do",
        "snake_case",
        "2024",
    ]));
}

#[test]
fn hash_inside_a_word_opens_no_tag() {
    assert_eq!(inline("a#foo"), strings(&[]));
    assert_eq!(inline("#foo#bar"), strings(&["foo"]));
    assert_eq!(inline("##foo"), strings(&[]));
    assert_eq!(inline("(#foo)"), strings(&[]));
    assert_eq!(inline("# foo"), strings(&[]));
    assert_eq!(inline("#"), strings(&[]));
    assert_eq!(inline("#é"), strings(&[]));
    assert_eq!(inline(""), strings(&[]));
}

#[test]
fn tag_ends_at_the_first_other_character() {
    assert_eq!(inline("#foo, #bar."), strings(&["foo", "bar"]));
    assert_eq!(inline("#foobar"), strings(&["foobar"]));
    assert_eq!(inline("#fooé"), strings(&["foo"]));
    assert_eq!(inline("#a\u{a0}#b"), strings(&["a", "b"]));
}

#[test]
fn same_tag_twice_is_kept_twice() {
    assert_eq!(inline("#a #a"), strings(&["a", "a"]));
    assert_eq!(extract_tags_from_file("#a\n#a"), strings(&["a", "a"]));
}

#[test]
fn inline_tags_agree_with_the_pattern() {
    let pattern = Regex::new(r"(?:^|\s)#([a-zA-Z0-9_/-]+)").unwrap();
    let alphabet = ['#', ' ', 'a', '/', '\n', '.', '\u{3000}'];
    for text in texts_over(&alphabet, 6) {
        let expected: Vec<String> =
            pattern.captures_iter(&text).map(|c| c[1].to_string()).collect();
        assert_eq!(inline(&text), expected, "{:?}", text);
    }
}

#[test]
fn frontmatter_is_what_stands_between_the_rules() {
    assert_eq!(
        extract_frontmatter("---\ntags: [home]\n---\ncontent"),
        Some("tags: [home]".to_string())
    );
    assert_eq!(extract_frontmatter("---\na: 1\nb: 2\n---\n"), Some("a: 1\nb: 2".to_string()));
    assert_eq!(extract_frontmatter("---\na\n---\nb\n---\n"), Some("a".to_string()));
    assert_eq!(extract_frontmatter("---\n\n---\n"), Some("".to_string()));
}

#[test]
fn frontmatter_may_be_empty_or_end_the_text() {
    assert_eq!(extract_frontmatter("---\n---\n"), Some("".to_string()));
    assert_eq!(extract_frontmatter("---\n---"), Some("".to_string()));
    assert_eq!(extract_frontmatter("---\ntags: x\n---"), Some("tags: x".to_string()));
}

#[test]
fn no_frontmatter_without_both_rules() {
    assert_eq!(extract_frontmatter(""), None);
    assert_eq!(extract_frontmatter("---"), None);
    assert_eq!(extract_frontmatter("---\n"), None);
    assert_eq!(extract_frontmatter("---\ntags: x\n"), None);
    assert_eq!(extract_frontmatter("text\n---\ntags: x\n---\n"), None);
    assert_eq!(extract_frontmatter(" ---\ntags: x\n---\n"), None);
    assert_eq!(extract_frontmatter("----\ntags: x\n---\n"), None);
    assert_eq!(extract_frontmatter("---\ntags: x\n----\n"), None);
    assert_eq!(extract_frontmatter("---\ntags: x\n ---\n"), None);
    assert_eq!(extract_frontmatter("---\ntags: x\n--- \n"), None);
    assert_eq!(extract_frontmatter("---\r\ntags: x\r\n---\r\n"), None);
    assert_eq!(extract_frontmatter("---\ntags: x ---\n"), None);
}

#[test]
fn inline_array_yields_its_items() {
    assert_eq!(parse_frontmatter_tags("tags: [a, b, \"c\"]"), Some(strings(&["a", "b", "c"])));
    assert_eq!(parse_frontmatter_tags("tags: ['x' ,y,  z ]"), Some(strings(&["x", "y", "z"])));
    assert_eq!(parse_frontmatter_tags("tags: [a,,b, ,\"\"]"), Some(strings(&["a", "b"])));
    assert_eq!(parse_frontmatter_tags("tags: [project/active]"), Some(strings(&[
        "project/active",
    ])));
    assert_eq!(parse_frontmatter_tags("tags: []"), None);
    assert_eq!(parse_frontmatter_tags("  tags:   [a]  "), Some(strings(&["a"])));
    assert_eq!(parse_frontmatter_tags("tags:[a]"), Some(strings(&["a"])));
}

#[test]
fn single_value_yields_one_tag() {
    assert_eq!(parse_frontmatter_tags("tags: solo"), Some(strings(&["solo"])));
    assert_eq!(parse_frontmatter_tags("tags: \"solo\""), Some(strings(&["solo"])));
    assert_eq!(parse_frontmatter_tags("tags: 'solo'"), Some(strings(&["solo"])));
    assert_eq!(parse_frontmatter_tags("tags: a, b"), Some(strings(&["a, b"])));
    assert_eq!(parse_frontmatter_tags("tags: [a"), Some(strings(&["[a"])));
    assert_eq!(parse_frontmatter_tags("tags: a]"), Some(strings(&["a]"])));
    assert_eq!(parse_frontmatter_tags("tags: \"\""), Some(strings(&[""])));
    assert_eq!(parse_frontmatter_tags("tags:"), None);
    assert_eq!(parse_frontmatter_tags("tags:   "), None);
}

#[test]
fn only_one_pair_of_quotes_is_stripped() {
    assert_eq!(parse_frontmatter_tags("tags: \"\"a\"\""), Some(strings(&["\"a\""])));
    assert_eq!(parse_frontmatter_tags("tags: \"'a'\""), Some(strings(&["'a'"])));
    assert_eq!(parse_frontmatter_tags("tags: \"a"), Some(strings(&["\"a"])));
    assert_eq!(parse_frontmatter_tags("tags: [\"a, b\"]"), Some(strings(&["\"a", "b\""])));
}

#[test]
fn other_keys_declare_nothing() {
    assert_eq!(parse_frontmatter_tags(""), None);
    assert_eq!(parse_frontmatter_tags("title: x\nauthor: y"), None);
    assert_eq!(parse_frontmatter_tags("tag: x"), None);
    assert_eq!(parse_frontmatter_tags("Tags: x"), None);
    assert_eq!(parse_frontmatter_tags("my tags: x"), None);
    assert_eq!(parse_frontmatter_tags(": : [ ] - \" '"), None);
}

#[test]
fn list_items_count_once_a_tag_was_found() {
    assert_eq!(parse_frontmatter_tags("tags: a\n- b\n  - \"c\"\n-  d "), Some(strings(&[
        "a", "b", "c", "d",
    ])));
    assert_eq!(parse_frontmatter_tags("tags: [a]\n- b"), Some(strings(&["a", "b"])));
    assert_eq!(parse_frontmatter_tags("tags: a\n- \n- \"\"\n-b\n- c"), Some(strings(&[
        "a", "c",
    ])));
}

#[test]
fn list_items_before_any_tag_are_passed_over() {
    assert_eq!(parse_frontmatter_tags("- a\n- b"), None);
    assert_eq!(parse_frontmatter_tags("tags:\n  - a\n  - b"), None);
    assert_eq!(parse_frontmatter_tags("aliases:\n- x\ntags: [a]"), Some(strings(&["a"])));
}

#[test]
fn list_of_a_later_key_is_taken_for_tags() {
    assert_eq!(
        parse_frontmatter_tags("tags: [a]\naliases:\n- other name\n- second"),
        Some(strings(&["a", "other name", "second"]))
    );
}

#[test]
fn every_tags_line_counts() {
    assert_eq!(parse_frontmatter_tags("tags: a\ntags: [b, c]\r\ntags: d\r"), Some(strings(&[
        "a", "b", "c", "d",
    ])));
}

#[test]
fn note_tags_are_inline_tags_then_frontmatter_tags() {
    assert_eq!(
        extract_tags_from_file("---\ntags: [home, \"far away\"]\n---\n#work and #play"),
        strings(&["work", "play", "home", "far away"])
    );
    assert_eq!(extract_tags_from_file("---\ntags: [home]\n---\ncontent"), strings(&["home"]));
    assert_eq!(extract_tags_from_file("#work\n[[B]]"), strings(&["work"]));
    assert_eq!(extract_tags_from_file("no tags here"), strings(&[]));
    assert_eq!(extract_tags_from_file(""), strings(&[]));
}

#[test]
fn inline_tags_inside_frontmatter_count_too() {
    assert_eq!(
        extract_tags_from_file("---\ntags: #a\n---\n"),
        strings(&["a", "#a"])
    );
}

#[test]
fn malformed_frontmatter_rejects_nothing() {
    assert_eq!(extract_tags_from_file("---\ntags: [home\n#work"), strings(&["work"]));
    assert_eq!(extract_tags_from_file("---\n: : :\n---\n#work"), strings(&["work"]));
    assert_eq!(extract_tags_from_file("tags: [home]\n---\n#work"), strings(&["work"]));
}
