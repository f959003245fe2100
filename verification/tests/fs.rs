use zdt::fs::{decode, encode, Encoding, FileError, LineEnding, LoadedFile};

fn read(bytes: &[u8]) -> LoadedFile {
    decode(bytes, "test.txt").expect("the bytes are text")
}

#[test]
fn plain_utf8_is_the_ordinary_case() {
    let file = read(b"one\ntwo\n");
    assert_eq!(file.text, "one\ntwo\n");
    assert_eq!(file.encoding, Encoding::Utf8);
    assert_eq!(file.line_ending, LineEnding::Lf);
    assert!(!file.lossy);
}

#[test]
fn windows_breaks_are_normalised_and_remembered() {
    let file = read(b"one\r\ntwo\r\n");
    assert_eq!(file.text, "one\ntwo\n");
    assert_eq!(file.line_ending, LineEnding::Crlf);
    assert_eq!(
        encode(&file.text, file.encoding, file.line_ending),
        b"one\r\ntwo\r\n"
    );
}

#[test]
fn a_mark_survives_the_round_trip() {
    for (bytes, encoding) in [
        (b"\xEF\xBB\xBFhi".to_vec(), Encoding::Utf8Bom),
        (b"\xFF\xFEh\0i\0".to_vec(), Encoding::Utf16Le),
        (b"\xFE\xFF\0h\0i".to_vec(), Encoding::Utf16Be),
    ] {
        let file = read(&bytes);
        assert_eq!(file.text, "hi", "{encoding:?}");
        assert_eq!(file.encoding, encoding);
        assert_eq!(
            encode(&file.text, file.encoding, file.line_ending),
            bytes,
            "{encoding:?} did not come back as it went in"
        );
    }
}

#[test]
fn broken_bytes_are_shown_and_flagged() {
    let file = read(b"good \xFF bad");
    assert!(file.lossy);
    assert!(file.text.contains('\u{FFFD}'));
}

#[test]
fn something_with_a_zero_byte_in_it_is_not_text() {
    assert!(decode(b"\x7FELF\0\0\0", "a.out").is_err());
}

#[test]
fn an_empty_file_is_empty_text() {
    let file = read(b"");
    assert_eq!(file.text, "");
    assert_eq!(file.line_ending, LineEnding::Lf);
}

#[test]
fn a_file_with_no_break_at_all_is_lf() {
    assert_eq!(LineEnding::detect("no break here"), LineEnding::Lf);
}

#[test]
fn a_leading_break_is_lf() {
    assert_eq!(LineEnding::detect("\nsecond"), LineEnding::Lf);
}

#[test]
fn the_first_break_decides() {
    assert_eq!(LineEnding::detect("one\r\ntwo\nthree"), LineEnding::Crlf);
    assert_eq!(LineEnding::detect("one\ntwo\r\nthree"), LineEnding::Lf);
}

#[test]
fn what_is_not_text_names_the_file() {
    match decode(b"a\0b", "bin/tool") {
        Err(FileError::NotText { path }) => assert_eq!(path, "bin/tool"),
        other => panic!("expected NotText, got {other:?}"),
    }
}

#[test]
fn a_crlf_file_saved_in_utf16_reads_back_as_it_was() {
    let text = "één\ntwee\n";
    for encoding in [Encoding::Utf16Le, Encoding::Utf16Be, Encoding::Utf8Bom, Encoding::Utf8] {
        let bytes = encode(text, encoding, LineEnding::Crlf);
        let file = read(&bytes);
        assert_eq!(file.text, text);
        assert_eq!(file.encoding, encoding);
        assert_eq!(file.line_ending, LineEnding::Crlf);
        assert!(!file.lossy);
    }
}

#[test]
fn a_character_outside_the_basic_plane_takes_a_surrogate_pair() {
    let bytes = encode("\u{1F600}", Encoding::Utf16Le, LineEnding::Lf);
    assert_eq!(bytes, vec![0xFF, 0xFE, 0x3D, 0xD8, 0x00, 0xDE]);
    assert_eq!(read(&bytes).text, "\u{1F600}");
}

#[test]
fn a_lone_surrogate_is_replaced_and_flagged() {
    let file = read(&[0xFF, 0xFE, 0x00, 0xD8, 0x41, 0x00]);
    assert!(file.lossy);
    assert_eq!(file.text, "\u{FFFD}A");
}

#[test]
fn the_labels_are_what_the_status_line_shows() {
    assert_eq!(Encoding::Utf8.label(), "utf-8");
    assert_eq!(Encoding::Utf16Be.label(), "utf-16be");
    assert_eq!(LineEnding::Crlf.as_str(), "\r\n");
    assert_eq!(LineEnding::Lf.as_str(), "\n");
    assert_eq!(LineEnding::Crlf.label(), "CRLF");
}
