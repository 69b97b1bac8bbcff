use jot::dict::{clone_strings, without_item, Dict};
use jot::error::ParseErrorKind;
use jot::grammar::{classify, read_section, read_task, read_var, read_var_key, LineKind};
use jot::text::{
    chars_of, count_leading, count_trailing, ends_with_char, has_char, is_all_uppercase,
    is_space_char, replace_char, split_first_str, split_lines, starts_with_char, strip_end_str,
    strip_start_str, strip_str, trim_str, CharClass,
};

#[test]
fn whitespace_is_what_std_calls_whitespace() {
    let mut n: u32 = 0;
    while n <= 0x10FFFF {
        if let Some(c) = char::from_u32(n) {
            assert_eq!(is_space_char(c), c.is_whitespace(), "U+{:04X}", n);
        }
        n += 1;
    }
}

#[test]
fn trim_agrees_with_std() {
    for s in ["", " ", "a", "  a b \t", "\u{3000}x\u{a0}", "\r\nabc\r\n", "x  ", "  x", " \t\n "] {
        assert_eq!(trim_str(s), s.trim());
    }
}

#[test]
fn strip_takes_the_class_from_both_ends() {
    assert_eq!(strip_str("\"\"Build\"", CharClass::Only('"')), "Build");
    assert_eq!(strip_str("\"\"\"", CharClass::Only('"')), "");
    assert_eq!(strip_str("a\"b", CharClass::Only('"')), "a\"b");
    assert_eq!(strip_start_str("..x.", CharClass::Only('.')), "x.");
    assert_eq!(strip_end_str(";x;;", CharClass::Only(';')), ";x");
    assert_eq!(strip_start_str("abc=d", CharClass::Except('=')), "=d");
}

#[test]
fn counting_stops_at_the_first_other_character() {
    let cs = chars_of("  ab ");
    assert_eq!(cs, vec![' ', ' ', 'a', 'b', ' ']);
    assert_eq!(count_leading(&cs, CharClass::Space), 2);
    assert_eq!(count_trailing(&cs, CharClass::Space), 1);
    assert_eq!(count_leading(&cs, CharClass::Except('b')), 3);
    assert_eq!(count_leading(&cs, CharClass::Except('z')), 5);
    assert_eq!(count_trailing(&chars_of("   "), CharClass::Space), 3);
}

#[test]
fn characters_are_counted_not_bytes() {
    assert_eq!(trim_str(" \u{e9}t\u{e9} "), "\u{e9}t\u{e9}");
    assert_eq!(split_first_str("cl\u{e9}: \u{e9}cho", ':'), Some(("cl\u{e9}", " \u{e9}cho")));
    assert_eq!(replace_char("\u{e9}@\u{e9}", '@', "jot "), "\u{e9}jot \u{e9}");
}

#[test]
fn split_first_drops_the_separator_only() {
    assert_eq!(split_first_str("a=b=c", '='), Some(("a", "b=c")));
    assert_eq!(split_first_str("=", '='), Some(("", "")));
    assert_eq!(split_first_str("abc", '='), None);
    assert_eq!(split_first_str("", '='), None);
}

#[test]
fn character_tests() {
    assert!(has_char("a:b", ':'));
    assert!(!has_char("ab", ':'));
    assert!(starts_with_char("#x", '#'));
    assert!(!starts_with_char("x#", '#'));
    assert!(!starts_with_char("", '#'));
    assert!(ends_with_char("x;", ';'));
    assert!(!ends_with_char(";x", ';'));
    assert!(!ends_with_char("", ';'));
}

#[test]
fn replace_char_replaces_every_occurrence() {
    assert_eq!(replace_char("@build", '@', "jot "), "jot build");
    assert_eq!(replace_char("@a @b@", '@', "jot "), "jot a jot bjot ");
    assert_eq!(replace_char("plain", '@', "jot "), "plain");
    assert_eq!(replace_char("", '@', "jot "), "");
}

#[test]
fn uppercase_goes_by_every_character() {
    assert!(is_all_uppercase("SHELL"));
    assert!(is_all_uppercase(""));
    assert!(is_all_uppercase("\u{c9}T\u{c9}"));
    assert!(!is_all_uppercase("shell"));
    assert!(!is_all_uppercase("Shell"));
    assert!(!is_all_uppercase("MY_KEY"));
    assert!(!is_all_uppercase("KEY1"));
}

#[test]
fn lines_end_at_line_feeds() {
    assert_eq!(split_lines(""), Vec::<String>::new());
    assert_eq!(split_lines("a"), vec!["a"]);
    assert_eq!(split_lines("a\n"), vec!["a"]);
    assert_eq!(split_lines("a\n\nb"), vec!["a", "", "b"]);
    assert_eq!(split_lines("\n"), vec![""]);
    assert_eq!(split_lines("a\r\nb\r\n"), vec!["a", "b"]);
    assert_eq!(split_lines("a\rb\nc\r"), vec!["a\rb", "c\r"]);
}

#[test]
fn lines_agree_with_std() {
    for s in ["", "x", "x\n", "\n\n", "a\r\n\r\nb", "foo\nbar\n\r\nbaz\r", "  t:\n   one\n two;\n"] {
        let expected: Vec<String> = s.lines().map(|l| l.to_string()).collect();
        assert_eq!(split_lines(s), expected);
    }
}

#[test]
fn lines_are_classified_in_order() {
    assert_eq!(classify(""), LineKind::Blank);
    assert_eq!(classify("# a: b"), LineKind::Comment);
    assert_eq!(classify(".x = 1"), LineKind::Variable);
    assert_eq!(classify(".x"), LineKind::Variable);
    assert_eq!(classify("s = \"x\""), LineKind::Section);
    assert_eq!(classify("a: b = c"), LineKind::Section);
    assert_eq!(classify("a := b"), LineKind::Section);
    assert_eq!(classify("a: b"), LineKind::Task);
    assert_eq!(classify("a:"), LineKind::Task);
    assert_eq!(classify("words"), LineKind::Invalid);
}

#[test]
fn read_var_strips_dots_and_spaces() {
    assert_eq!(read_var(".. name  =  v w "), Ok(("name".to_string(), "v w".to_string())));
    assert_eq!(read_var(". = v"), Ok(("".to_string(), "v".to_string())));
    assert_eq!(read_var(".name"), Err(ParseErrorKind::InvalidVariable));
    assert_eq!(read_var(".name ="), Err(ParseErrorKind::MissingValue));
}

#[test]
fn read_section_strips_quotes() {
    assert_eq!(read_section("s = \"Group Name\""), Ok("Group Name".to_string()));
    assert_eq!(read_section("s=Group"), Ok("Group".to_string()));
    assert_eq!(read_section("s = \" padded \""), Ok(" padded ".to_string()));
    assert_eq!(read_section("no equal sign"), Err(ParseErrorKind::InvalidSection));
    assert_eq!(read_section("s = \"\"\""), Err(ParseErrorKind::MissingSectionName));
}

#[test]
fn read_task_trims_both_parts() {
    assert_eq!(read_task(" a : b c "), Ok(("a".to_string(), "b c".to_string())));
    assert_eq!(read_task("a:"), Ok(("a".to_string(), "".to_string())));
    assert_eq!(read_task("a"), Err(ParseErrorKind::InvalidTask));
}

#[test]
fn dict_keeps_insertion_order_and_replaces_in_place() {
    let mut d: Dict<String> = Dict::new();
    assert_eq!(d.len(), 0);
    d.set("b".to_string(), "1".to_string());
    d.set("a".to_string(), "2".to_string());
    d.set("b".to_string(), "3".to_string());
    assert_eq!(d.len(), 2);
    assert_eq!(d.keys, vec!["b", "a"]);
    assert_eq!(d.get("b"), Some(&"3".to_string()));
    assert_eq!(d.get("a"), Some(&"2".to_string()));
    assert_eq!(d.get("c"), None);
    assert_eq!(d.find("a"), Some(1));
    d.set_default("a", "9");
    d.set_default("c", "4");
    assert_eq!(d.get("a"), Some(&"2".to_string()));
    assert_eq!(d.get("c"), Some(&"4".to_string()));
}

#[test]
fn dict_lists_grow_at_the_end() {
    let mut d: Dict<Vec<String>> = Dict::new();
    d.append_to("s", "a".to_string());
    d.ensure("t");
    d.append_to("s", "b".to_string());
    d.ensure("s");
    assert_eq!(d.get("s"), Some(&vec!["a".to_string(), "b".to_string()]));
    assert_eq!(d.get("t"), Some(&Vec::<String>::new()));
    d.put("s".to_string(), vec!["z".to_string()]);
    assert_eq!(d.get("s"), Some(&vec!["z".to_string()]));
    assert_eq!(d.keys, vec!["s", "t"]);
    assert_eq!(clone_strings(d.get("s").unwrap()), vec!["z".to_string()]);
}

#[test]
fn without_item_drops_every_occurrence() {
    let list = vec!["a".to_string(), "b".to_string(), "a".to_string(), "c".to_string()];
    assert_eq!(without_item(&list, "a"), vec!["b".to_string(), "c".to_string()]);
    assert_eq!(without_item(&list, "z"), list);
    assert_eq!(without_item(&Vec::new(), "a"), Vec::<String>::new());
}

#[test]
fn remove_item_clears_every_list() {
    let mut d: Dict<Vec<String>> = Dict::new();
    d.append_to("s", "a".to_string());
    d.append_to("s", "b".to_string());
    d.append_to("t", "a".to_string());
    d.remove_item("a");
    assert_eq!(d.get("s"), Some(&vec!["b".to_string()]));
    assert_eq!(d.get("t"), Some(&Vec::<String>::new()));
    assert_eq!(d.keys, vec!["s", "t"]);
}

#[test]
fn read_var_key_needs_no_value() {
    assert_eq!(read_var_key(".name ="), Some("name".to_string()));
    assert_eq!(read_var_key("..KEY = v"), Some("KEY".to_string()));
    assert_eq!(read_var_key(".name"), None);
}
