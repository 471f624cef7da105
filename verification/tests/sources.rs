use genrepass::sources::looks_like_text;
use genrepass::sources::takes_entry;

#[test]
fn a_file_named_directly_is_taken() {
    assert!(takes_entry(0, true, Some(".hidden.pdf"), Some(&["txt"])));
    assert!(takes_entry(0, true, None, None));
}

#[test]
fn hidden_entries_are_left() {
    assert!(!takes_entry(1, true, Some(".notes.txt"), None));
    assert!(!takes_entry(2, false, Some(".git"), None));
    assert!(takes_entry(0, false, Some(".config"), None));
}

#[test]
fn directories_are_taken() {
    assert!(takes_entry(1, false, Some("notes"), Some(&["txt"])));
    assert!(takes_entry(3, false, Some("notes.pdf"), None));
    assert!(takes_entry(1, false, None, None));
}

#[test]
fn files_that_hold_no_text_are_left() {
    for name in [
        "a.pdf", "a.epub", "a.mobi", "a.azw3", "a.doc", "a.docx", "a.mp3", "a.mp4", "a.avi",
        "a.ogg", "a.jpg", "a.jpeg", "a.png", "a.gif", "a.PDF", "a.Jpeg", "b.tar.GIF",
    ] {
        assert!(!takes_entry(1, true, Some(name), None), "{}", name);
        assert!(!takes_entry(1, true, Some(name), Some(&["pdf", "jpeg", "gif"])), "{}", name);
    }
}

#[test]
fn other_files_are_taken() {
    for name in ["a.txt", "a.md", "a.pdf.txt", "a.pd", "a.pdfx", "a.", "notes"] {
        assert!(takes_entry(1, true, Some(name), None), "{}", name);
    }
}

#[test]
fn only_the_extensions_asked_for_are_taken() {
    let allowed: &[&str] = &["txt", "MD"];
    assert!(takes_entry(1, true, Some("a.txt"), Some(allowed)));
    assert!(takes_entry(1, true, Some("a.TXT"), Some(allowed)));
    assert!(takes_entry(1, true, Some("a.md"), Some(allowed)));
    assert!(takes_entry(4, true, Some("a.b.Md"), Some(allowed)));
    assert!(!takes_entry(1, true, Some("a.rs"), Some(allowed)));
    assert!(!takes_entry(1, true, Some("a.txt.rs"), Some(allowed)));
    assert!(!takes_entry(1, true, Some("txt"), Some(allowed)));
    assert!(!takes_entry(1, true, Some("a."), Some(allowed)));
    assert!(!takes_entry(1, true, Some("a.txt"), Some(&[])));
    assert!(takes_entry(1, true, Some("a."), Some(&[""])));
}

#[test]
fn a_file_whose_name_is_no_text_is_left() {
    assert!(!takes_entry(1, true, None, None));
    assert!(!takes_entry(1, true, None, Some(&["txt"])));
}

#[test]
fn utf8_looks_like_text() {
    assert!(looks_like_text(b"plain text"));
    assert!(looks_like_text("\u{e9}tude \u{5317}\u{4eb0}".as_bytes()));
    assert!(looks_like_text(&[0u8; 64]));
    assert!(looks_like_text(&[]));
}

#[test]
fn other_bytes_do_not_look_like_text() {
    assert!(!looks_like_text(&[0xff, 0xfe, 0x00, 0x41]));
    let mut bytes = [b'a'; 64];
    bytes[55] = 0xff;
    assert!(!looks_like_text(&bytes));
    bytes[55] = b'a';
    bytes[10] = 0xc3;
    assert!(!looks_like_text(&bytes));
}

#[test]
fn a_character_cut_off_at_the_end_is_no_fault() {
    let mut bytes = [b'a'; 64];
    bytes[63] = 0xe5;
    assert!(looks_like_text(&bytes));
    bytes[62] = 0xe5;
    bytes[63] = 0x8c;
    assert!(looks_like_text(&bytes));
    bytes = [b'a'; 64];
    bytes[56] = 0xff;
    assert!(looks_like_text(&bytes));
    bytes = [b'a'; 64];
    bytes[55] = 0xe5;
    bytes[56] = 0x8c;
    assert!(!looks_like_text(&bytes));
}
