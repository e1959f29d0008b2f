use std::path::Path;

use lean_ctx::ordering::{dedup, sort, text_before};
use lean_ctx::paths::{extension_of, file_name_of, file_stem_of, parent_name_of};
use lean_ctx::string_table::StringTable;
use lean_ctx::text::{
    byte_length, chars_of, decimal_chars, line_list, number, pieces, position, replaced, text_of,
    trimmed, two_bytes, word_list,
};

const PATHS: &[&str] = &[
    "", "a", "a.rs", "a.tar.gz", ".env", "..", ".", "a/..", "a/.", "a/./b.c", "/", "/a", "//a//b.x/",
    "a/b/", "a.", "a/.hidden.txt", "...", "a/b.c/d", "./x.y", "é/ü.ö", "a b/c d.e",
];

const TEXTS: &[&str] = &[
    "", " ", "a", " a b ", "a\nb", "a\r\nb\r\n", "\n\n", "a\n\nb\n", "x\u{a0}y \u{2003}z", "\ta\u{b}b",
    "no newline\r", "ünïcode ß", "a,b,,c", ",", "tab\tand space ",
];

fn shown(s: Option<&[char]>) -> Option<String> {
    s.map(text_of)
}

#[test]
fn path_parts_agree_with_std() {
    for p in PATHS {
        let chars = chars_of(p);
        let path = Path::new(p);
        assert_eq!(shown(file_name_of(&chars)), path.file_name().map(|s| s.to_string_lossy().into_owned()), "{p:?}");
        assert_eq!(shown(file_stem_of(&chars)), path.file_stem().map(|s| s.to_string_lossy().into_owned()), "{p:?}");
        assert_eq!(shown(extension_of(&chars)), path.extension().map(|s| s.to_string_lossy().into_owned()), "{p:?}");
        assert_eq!(
            shown(parent_name_of(&chars)),
            path.parent()
                .and_then(|d| d.file_name())
                .map(|s| s.to_string_lossy().into_owned()),
            "{p:?}"
        );
    }
}

#[test]
fn text_parts_agree_with_std() {
    for t in TEXTS {
        let chars = chars_of(t);
        let of = |list: Vec<&[char]>| -> Vec<String> { list.into_iter().map(text_of).collect() };
        assert_eq!(text_of(trimmed(&chars)), t.trim(), "{t:?}");
        assert_eq!(of(line_list(&chars)), t.lines().collect::<Vec<_>>(), "{t:?}");
        assert_eq!(of(word_list(&chars)), t.split_whitespace().collect::<Vec<_>>(), "{t:?}");
        assert_eq!(of(pieces(&chars, ',')), t.split(',').collect::<Vec<_>>(), "{t:?}");
        assert_eq!(text_of(&replaced(&chars, "a", "<>")), t.replace('a', "<>"), "{t:?}");
        assert_eq!(byte_length(t), t.len(), "{t:?}");
        assert_eq!(two_bytes(&chars), t.len() >= 2, "{t:?}");
        assert_eq!(position(&chars, &['b']).is_some(), t.contains('b'), "{t:?}");
    }
}

#[test]
fn numbers_agree_with_std() {
    for t in ["0", "+7", "-7", "", "+", "12a", "18446744073709551615", "18446744073709551616", "007"] {
        assert_eq!(number(&chars_of(t), u64::MAX), t.parse::<u64>().ok(), "{t:?}");
    }
    for n in [0, 9, 10, 4096, u64::MAX] {
        assert_eq!(text_of(&decimal_chars(n)), n.to_string());
    }
}

#[test]
fn texts_are_ordered_as_in_std() {
    for a in TEXTS {
        for b in TEXTS {
            assert_eq!(text_before(a, b), a < b, "{a:?} {b:?}");
        }
    }
    let list: Vec<String> = TEXTS.iter().rev().chain(TEXTS).map(|t| t.to_string()).collect();
    let mut expected = list.clone();
    expected.sort();
    assert_eq!(sort(list.clone()), expected);
    expected.dedup();
    assert_eq!(dedup(sort(list)), expected);
}

#[test]
fn tables_keep_the_order_of_insertion() {
    let mut t: StringTable<u8> = StringTable::new();
    assert!(t.is_empty());
    t.insert("b".to_string(), 1);
    t.insert("a".to_string(), 2);
    t.insert("b".to_string(), 3);
    assert_eq!(t.len(), 2);
    assert_eq!((t.key_at(0), *t.value_at(0)), ("b", 3));
    assert_eq!((t.key_at(1), *t.value_at(1)), ("a", 2));
    assert_eq!(t.get("c"), None);
    assert!(t.contains_key("a"));
}
