use aifs::indexer::{
    document_kind, document_text, kind_of_extension_text, next_attempt, tags_from_reply, tags_prompt, wants_archive_entry,
    xml_text_of, DocKind, IndexBatch,
};

#[test]
fn kinds_by_extension() {
    assert_eq!(document_kind("src/main.rs"), DocKind::PlainText);
    assert_eq!(document_kind("README.MD"), DocKind::PlainText);
    assert_eq!(document_kind("Cargo.toml"), DocKind::PlainText);
    assert_eq!(document_kind("a/b.json"), DocKind::PlainText);
    assert_eq!(document_kind("notes.txt"), DocKind::PlainText);
    assert_eq!(document_kind("report.DOCX"), DocKind::OfficeArchive);
    assert_eq!(document_kind("deck.pptx"), DocKind::OfficeArchive);
    assert_eq!(document_kind("image.png"), DocKind::Unsupported);
    assert_eq!(document_kind("Makefile"), DocKind::Unsupported);
    assert_eq!(document_kind(".md"), DocKind::Unsupported);
}

#[test]
fn archive_members_with_text() {
    assert!(wants_archive_entry("word/document.xml"));
    assert!(wants_archive_entry("ppt/slides/slide12.xml"));
    assert!(!wants_archive_entry("ppt/slideLayouts/slideLayout1.xml"));
    assert!(!wants_archive_entry("word/styles.xml"));
}

#[test]
fn text_between_tags() {
    assert_eq!(xml_text_of("<w:t>Hello</w:t><w:t> </w:t><w:t>World</w:t>"), "Hello\nWorld\n");
    assert_eq!(xml_text_of("no tags at all"), "");
    assert_eq!(xml_text_of("<a>x<b>y</b></a>"), "x\ny\n");
    assert_eq!(xml_text_of(""), "");
}

#[test]
fn prompt_for_tags() {
    let p = tags_prompt("src/a.rs", "fn main() {}");
    assert_eq!(
        p,
        "Analyze the following code/text and generate exactly 1 to 3 categorization tags (e.g., 'networking', 'ui', 'database', 'utils').\n            Return ONLY the tags separated by commas. Do not explain.\n            File Path: src/a.rs\n            Content:\n            fn main() {}"
    );
    let long = "x".repeat(2500);
    let p2 = tags_prompt("p", &long);
    assert!(p2.ends_with(&"x".repeat(2000)));
    assert!(!p2.ends_with(&"x".repeat(2001)));
}

#[test]
fn tags_kept_from_reply() {
    assert_eq!(tags_from_reply(Some("Networking, UI.\n".to_string())), "networking, ui");
    assert_eq!(tags_from_reply(None), "misc");
}

#[test]
fn embedded_text() {
    assert_eq!(document_text("a.rs", "utils", "body"), "filepath: a.rs\ntags: utils\n---\nbody");
    let long = "y".repeat(7000);
    let t = document_text("p", "t", &long);
    assert_eq!(t.len(), "filepath: p\ntags: t\n---\n".len() + 6000);
}

#[test]
fn retry_halves_text() {
    assert_eq!(next_attempt(0, "abcdef"), Some((1, "abc".to_string())));
    assert_eq!(next_attempt(1, "abc"), Some((2, "a".to_string())));
    assert_eq!(next_attempt(2, "abcd"), None);
    assert_eq!(next_attempt(0, "a"), None);
    assert_eq!(next_attempt(0, ""), None);
}

#[test]
fn batch_locks_dimension() {
    let mut b = IndexBatch::new();
    assert!(b.is_empty());
    assert_eq!(b.dimension(), 0);
    assert!(!b.offer("zero".to_string(), "t".to_string(), 0));
    assert!(b.offer("a".to_string(), "ta".to_string(), 768));
    assert!(!b.offer("b".to_string(), "tb".to_string(), 512));
    assert!(b.offer("c".to_string(), "tc".to_string(), 768));
    assert_eq!(b.dimension(), 768);
    let (paths, tags) = b.into_lists();
    assert_eq!(paths, vec!["a", "c"]);
    assert_eq!(tags, vec!["ta", "tc"]);
}

#[test]
fn kinds_of_lowercase_extensions() {
    assert_eq!(kind_of_extension_text("json"), DocKind::PlainText);
    assert_eq!(kind_of_extension_text("pptx"), DocKind::OfficeArchive);
    assert_eq!(kind_of_extension_text("RS"), DocKind::Unsupported);
    assert_eq!(kind_of_extension_text(""), DocKind::Unsupported);
}

#[test]
fn kept_tags_have_no_breaks_or_dots() {
    for reply in ["A.B\nC", "...\n\n", "Ünïcödé. İstanbul\r\n", "ΣΑΣ. tags"] {
        let t = tags_from_reply(Some(reply.to_string()));
        assert!(!t.contains('\n') && !t.contains('.'), "{:?}", t);
    }
    assert_eq!(tags_from_reply(Some("DB.\nIO".to_string())), "dbio");
}
