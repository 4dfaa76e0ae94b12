use aifs::archive::office_text;
use std::io::{Cursor, Write};
use zip::write::SimpleFileOptions;
use zip::{CompressionMethod, ZipWriter};

fn archive(members: &[(&str, &[u8])]) -> Vec<u8> {
    let mut w = ZipWriter::new(Cursor::new(Vec::new()));
    let opts = SimpleFileOptions::default().compression_method(CompressionMethod::Stored);
    for (name, data) in members {
        w.start_file(*name, opts).unwrap();
        w.write_all(data).unwrap();
    }
    w.finish().unwrap().into_inner()
}

#[test]
fn word_body_text() {
    let bytes = archive(&[
        ("[Content_Types].xml", b"<Types></Types>"),
        ("word/document.xml", b"<w:p><w:t>Hello</w:t><w:t> </w:t><w:t>World</w:t></w:p>"),
        ("word/media/image1.png", &[0x89, 0x50, 0xff, 0xfe]),
    ]);
    assert_eq!(office_text(&bytes), Some("Hello\nWorld\n".to_string()));
}

#[test]
fn slides_in_order() {
    let bytes = archive(&[
        ("ppt/slides/slide1.xml", b"<a:t>One</a:t>"),
        ("ppt/slides/slide2.xml", b"<a:t>Two</a:t>"),
        ("ppt/notesSlides/notesSlide1.xml", b"<a:t>Hidden</a:t>"),
    ]);
    assert_eq!(office_text(&bytes), Some("One\nTwo\n".to_string()));
}

#[test]
fn archive_without_text_parts() {
    let bytes = archive(&[("docProps/app.xml", b"<x>y</x>")]);
    assert_eq!(office_text(&bytes), Some(String::new()));
}

#[test]
fn not_an_archive() {
    assert_eq!(office_text(b"plain text, no zip here"), None);
    assert_eq!(office_text(&[]), None);
}

#[test]
fn unreadable_text_part() {
    let bytes = archive(&[("word/document.xml", &[0x3c, 0x61, 0x3e, 0xff, 0xfe, 0x3c, 0x2f, 0x61, 0x3e])]);
    assert_eq!(office_text(&bytes), None);
}
