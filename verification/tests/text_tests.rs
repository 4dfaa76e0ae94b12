use aifs::path::{extension_of, file_name_of};
use aifs::searcher::{search_banner, search_report};
use aifs::text::{
    contains_str, decimal_string, decode_utf8_lossy, ends_with_str, forward_slashes_of, head_bytes,
    is_blank_str, parse_u64, remove_chars, same_text, split_chars, str_less, to_lowercase, trim,
};
use aifs::watcher::should_reindex;

#[test]
fn trim_drops_unicode_white_space() {
    assert_eq!(trim("  \t hello world \n"), "hello world");
    assert_eq!(trim("\u{3000}x\u{a0}"), "x");
    assert_eq!(trim("   "), "");
    assert_eq!(trim(""), "");
}

#[test]
fn blank_texts() {
    assert!(is_blank_str(""));
    assert!(is_blank_str(" \r\n\t\u{2003}"));
    assert!(!is_blank_str(" a "));
}

#[test]
fn split_keeps_empty_pieces() {
    let v: Vec<char> = "a,,b,".chars().collect();
    let parts: Vec<String> = split_chars(&v, ',').into_iter().map(|p| p.into_iter().collect()).collect();
    assert_eq!(parts, vec!["a", "", "b", ""]);
    let empty: Vec<char> = Vec::new();
    assert_eq!(split_chars(&empty, ',').len(), 1);
}

#[test]
fn backslashes_become_slashes() {
    assert_eq!(forward_slashes_of("C:\\docs\\a.md"), "C:/docs/a.md");
    assert_eq!(forward_slashes_of("/plain/path"), "/plain/path");
}

#[test]
fn substring_and_suffix_tests() {
    assert!(contains_str("xl/word/document.xml", "word/document.xml"));
    assert!(!contains_str("word/styles.xml", "word/document.xml"));
    assert!(contains_str("abc", ""));
    assert!(ends_with_str("src/main.rs", ".rs"));
    assert!(!ends_with_str("rs", ".rs"));
}

#[test]
fn decimal_notation() {
    assert_eq!(decimal_string(0), "0");
    assert_eq!(decimal_string(7), "7");
    assert_eq!(decimal_string(1234567890), "1234567890");
    assert_eq!(decimal_string(u64::MAX), "18446744073709551615");
}

#[test]
fn parse_like_std() {
    for s in ["0", "42", "+7", "007", "18446744073709551615", "18446744073709551616", "", "+", "-1", "1a", " 1", "++1"] {
        assert_eq!(parse_u64(s), s.parse::<u64>().ok(), "input {:?}", s);
    }
}

#[test]
fn parse_reads_back_decimal() {
    for n in [0u64, 1, 9, 10, 99, 100, 65535, u64::MAX] {
        assert_eq!(parse_u64(&decimal_string(n)), Some(n));
    }
}

#[test]
fn byte_order_matches_string_order() {
    let words = ["", "a", "ab", "b", "B", "é", "z", "zz", "中"];
    for x in words {
        for y in words {
            assert_eq!(str_less(x, y), x < y, "{:?} < {:?}", x, y);
        }
    }
}

#[test]
fn removing_characters() {
    assert_eq!(remove_chars("net.\nworking.", '\n', '.'), "networking");
}

#[test]
fn lowercase_through_std() {
    assert_eq!(to_lowercase("NetWorking ÄΣ"), "networking äς");
}

#[test]
fn lossy_decoding() {
    assert_eq!(decode_utf8_lossy(b"hi"), "hi");
    assert_eq!(decode_utf8_lossy(&[0x61, 0xff, 0x62]), "a\u{fffd}b");
}

#[test]
fn cutting_to_bytes() {
    assert_eq!(head_bytes("hello", 3), "hel");
    assert_eq!(head_bytes("hi", 10), "hi");
    assert_eq!(head_bytes("中文", 3), "中");
}

#[test]
fn comparing_texts() {
    assert!(same_text("ask", "ask"));
    assert!(!same_text("ask", "asks"));
    assert!(!same_text("ask", "ASK"));
}

#[test]
fn file_names_like_std_path() {
    for p in ["/usr/bin/", "tmp/foo.txt", "foo.txt/.", "foo.txt/.//", "foo.txt/..", "/", "", ".", "./", "./a", "..", "...", "a//b"] {
        let expected = std::path::Path::new(p).file_name().and_then(|s| s.to_str()).map(|s| s.to_string());
        assert_eq!(file_name_of(p), expected, "path {:?}", p);
    }
}

#[test]
fn extensions_like_std_path() {
    for p in ["a.b.c", ".bashrc", "foo", "foo.", "dir/file.RS", "dir.d/file", "x/.hidden.md", "a/.."] {
        let expected = std::path::Path::new(p).extension().and_then(|s| s.to_str()).map(|s| s.to_string());
        assert_eq!(extension_of(p), expected, "path {:?}", p);
    }
}

#[test]
fn rust_and_markdown_changes_are_reindexed() {
    assert!(should_reindex("/home/u/src/lib.rs"));
    assert!(should_reindex("notes/README.md"));
    assert!(!should_reindex("notes/README.txt"));
    assert!(!should_reindex("src/lib.rs.bak"));
}

#[test]
fn search_report_lines() {
    assert_eq!(search_report(&vec![]), vec!["没有找到相关结果。".to_string()]);
    let found = vec!["a.rs".to_string(), "b/c.md".to_string()];
    assert_eq!(
        search_report(&found),
        vec!["\n>>> 找到最相关的 5 个文件:".to_string(), "1. a.rs".to_string(), "2. b/c.md".to_string()]
    );
    assert_eq!(search_banner("where"), ">>> 正在思考: 'where' ...");
}

#[test]
fn lowercase_of_ascii_and_empty() {
    assert_eq!(to_lowercase(""), "");
    assert_eq!(to_lowercase("PNG"), "png");
    assert_eq!(to_lowercase("Mixed-Case_09 Z@["), "mixed-case_09 z@[");
}
