use conf_reader::file_reader::lines_from_text;
use conf_reader::line::key_value_of;
use conf_reader::text::{
    char_is_whitespace, chars_are_blank, chars_of, chars_spell, joined_with_dots, position_of,
    split_at_first, split_on, trim_bounds, trimmed,
};

const SAMPLES: [&str; 24] = [
    "",
    " ",
    "a",
    " a",
    "a ",
    "  a b  ",
    "\t\r\n a \u{b}\u{c}",
    "\u{85}x\u{a0}",
    "\u{1680}\u{2000}y\u{200a}\u{2028}\u{2029}",
    "\u{202f}\u{205f}\u{3000}",
    "\u{200b}z\u{200b}",
    "\u{feff}w",
    "a.b.c",
    ".",
    "..",
    "a.",
    ".a",
    "a..b",
    "key = value",
    "key=value=more",
    "=",
    "a -> b",
    "héllo wörld · ünï",
    "日本語.キー = 値",
];

#[test]
fn white_space_is_what_the_standard_library_takes_for_it() {
    for code in 0..=0x10FFFFu32 {
        if let Some(c) = char::from_u32(code) {
            assert_eq!(char_is_whitespace(c), c.is_whitespace(), "U+{:04X}", code);
        }
    }
}

#[test]
fn the_characters_of_a_text() {
    for s in SAMPLES {
        assert_eq!(chars_of(s), s.chars().collect::<Vec<char>>());
    }
}

#[test]
fn trimming_takes_the_white_space_from_both_ends() {
    assert_eq!(trimmed("  a b  "), "a b");
    assert_eq!(trimmed("\t\r\n a \u{b}\u{c}"), "a");
    assert_eq!(trimmed("   "), "");
    assert_eq!(trimmed(""), "");
    assert_eq!(trimmed("\u{200b}z\u{200b}"), "\u{200b}z\u{200b}");
    for s in SAMPLES {
        assert_eq!(trimmed(s), s.trim(), "{:?}", s);
    }
}

#[test]
fn trimming_a_part_of_a_text() {
    let chars: Vec<char> = "ab  cd  ef".chars().collect();
    assert_eq!(trim_bounds(&chars, 2, 8), (4, 6));
    assert_eq!(trim_bounds(&chars, 2, 4), (4, 4));
    assert_eq!(trim_bounds(&chars, 0, 10), (0, 10));
    assert_eq!(trim_bounds(&chars, 5, 5), (5, 5));
}

#[test]
fn blank_texts() {
    for s in SAMPLES {
        let chars: Vec<char> = s.chars().collect();
        assert_eq!(chars_are_blank(&chars), s.trim().is_empty(), "{:?}", s);
    }
}

#[test]
fn spelling_is_letter_for_letter() {
    let chars: Vec<char> = "true".chars().collect();
    assert!(chars_spell(&chars, "true"));
    assert!(!chars_spell(&chars, "True"));
    assert!(!chars_spell(&chars, "tru"));
    assert!(!chars_spell(&chars, "truer"));
    assert!(chars_spell(&Vec::new(), ""));
}

#[test]
fn splitting_on_a_character() {
    assert_eq!(split_on("log.file", '.'), vec!["log", "file"]);
    assert_eq!(split_on("endpoint", '.'), vec!["endpoint"]);
    assert_eq!(split_on("", '.'), vec![""]);
    assert_eq!(split_on(".", '.'), vec!["", ""]);
    assert_eq!(split_on("a..b.", '.'), vec!["a", "", "b", ""]);
    assert_eq!(split_on("-this.will.not.fail", '.'), vec!["-this", "will", "not", "fail"]);
    for s in SAMPLES {
        for sep in ['.', '=', ' ', '\n', 'ö', '語'] {
            assert_eq!(split_on(s, sep), s.split(sep).collect::<Vec<&str>>(), "{:?}", s);
        }
    }
}

#[test]
fn joining_undoes_splitting() {
    for s in SAMPLES {
        assert_eq!(joined_with_dots(&split_on(s, '.')), s);
    }
    assert_eq!(joined_with_dots(&["log", "file"]), "log.file");
    assert_eq!(joined_with_dots(&["a"]), "a");
    assert_eq!(joined_with_dots(&["", ""]), ".");
    assert_eq!(joined_with_dots(&[]), "");
}

#[test]
fn the_first_occurrence_of_a_pattern() {
    let chars: Vec<char> = "a->b->c".chars().collect();
    assert_eq!(position_of(&chars, &vec!['-', '>']), 1);
    assert_eq!(position_of(&chars, &vec!['b']), 3);
    assert_eq!(position_of(&chars, &vec!['>', 'c']), 5);
    assert_eq!(position_of(&chars, &vec!['x']), 7);
    assert_eq!(position_of(&chars, &vec!['c', 'd']), 7);
    assert_eq!(position_of(&chars, &vec![]), 0);
    assert_eq!(position_of(&vec![], &vec!['a']), 0);
}

#[test]
fn cutting_at_the_first_occurrence() {
    assert_eq!(split_at_first("key = value", "="), Some(("key ", " value")));
    assert_eq!(split_at_first("a=b=c", "="), Some(("a", "b=c")));
    assert_eq!(split_at_first("a -> b -> c", "->"), Some(("a ", " b -> c")));
    assert_eq!(split_at_first("->", "->"), Some(("", "")));
    assert_eq!(split_at_first("a-b>c", "->"), None);
    assert_eq!(split_at_first("", "="), None);
    assert_eq!(split_at_first("abc", "abcd"), None);
    for s in SAMPLES {
        for pattern in ["=", "->", ".", " "] {
            assert_eq!(split_at_first(s, pattern), s.split_once(pattern), "{:?}", s);
        }
    }
}

#[test]
fn what_a_line_assigns() {
    assert_eq!(key_value_of("endpoint = localhost:3000"), Some(("endpoint", "localhost:3000")));
    assert_eq!(key_value_of("debug=true"), Some(("debug", "true")));
    assert_eq!(key_value_of("  a.b \t=  c d  "), Some(("a.b", "c d")));
    assert_eq!(key_value_of("a = b = c"), Some(("a", "b = c")));
    assert_eq!(key_value_of("= 5"), Some(("", "5")));
    assert_eq!(key_value_of("a ="), Some(("a", "")));
    assert_eq!(key_value_of("="), Some(("", "")));
    assert_eq!(key_value_of(" # a = b"), Some(("# a", "b")));
    assert_eq!(key_value_of("a = # b"), Some(("a", "# b")));
}

#[test]
fn what_a_line_does_not_assign() {
    for line in ["# debug = true", "; comment", "#", ";", ";a=b", "", " ", "\t\t", "\r", "word", "a : b"]
    {
        assert_eq!(key_value_of(line), None, "{:?}", line);
    }
}

#[test]
fn test_read_lines() {
    let lines = lines_from_text(
        "endpoint = localhost:3000\ndebug = true\nlog.file = /var/log/console.log\n",
    );
    assert_eq!(lines[0], "endpoint = localhost:3000");
    assert_eq!(lines[1], "debug = true");
    assert_eq!(lines[2], "log.file = /var/log/console.log");
}

#[test]
fn the_lines_of_a_text() {
    assert_eq!(lines_from_text(""), vec![""]);
    assert_eq!(lines_from_text("a"), vec!["a"]);
    assert_eq!(lines_from_text("a\n"), vec!["a", ""]);
    assert_eq!(lines_from_text("a\n\nb"), vec!["a", "", "b"]);
    assert_eq!(lines_from_text("a\r\nb"), vec!["a\r", "b"]);
}
